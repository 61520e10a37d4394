//! The tables of the modules stay in order through a build: in no table a key occurs
//! twice, and in no set a member. No warning is lost on the way.

use vstd::prelude::*;
use crate::graph::export_laws::lemma_link_exports_step;
use crate::graph::import_laws::lemma_link_imports_from_linked;
use crate::graph::link::lemma_order_modules;
use crate::graph::{lemma_sort_modules_inv, tables_kept, warnings_kept, GraphView};
use crate::ident::ModuleIdView;
use crate::module::{lemma_tables_kept, ModuleView};

verus! {

/// The ordering pass keeps the tables in order.
pub proof fn lemma_sort_modules_tables(g: GraphView)
    ensures
        tables_kept(g, g.sort_modules()),
{
    let h = g.sort_modules();
    if g.tables_wf() {
        assert forall|i: int| 0 <= i < h.modules.len() implies (#[trigger] h.modules[i]).tables_wf() by {
            assert(g.modules[i].tables_wf());
        }
    }
}

/// The two passes of the link keep the tables in order and the warnings that there were.
pub proof fn lemma_link_passes_tables(g: GraphView, order: Seq<ModuleIdView>)
    requires
        g.inv(),
        forall|p: int| 0 <= p < order.len() ==> g.contains(#[trigger] order[p]),
    ensures
        g.link_exports(order) matches Ok(h) ==> tables_kept(g, h) && warnings_kept(g, h) && (
        h.link_imports(order) matches Ok(l) ==> tables_kept(g, l) && warnings_kept(g, l)),
{
    lemma_link_exports_step(g, order, 0);
    if let Ok(h) = g.link_exports(order) {
        assert(h.ids() == g.ids());
        assert forall|p: int| 0 <= p < order.len() implies h.contains(#[trigger] order[p]) by {
            assert(g.contains(order[p]));
        }
        lemma_link_imports_from_linked(h, order, 0);
    }
}

/// The link keeps the tables in order and the warnings that there were.
pub proof fn lemma_link_tables(g: GraphView)
    requires
        g.inv(),
    ensures
        g.link() matches Ok(l) ==> tables_kept(g, l) && warnings_kept(g, l),
{
    lemma_order_modules(g);
    lemma_link_passes_tables(g, g.order_modules());
}

/// The patch keeps the tables in order.
pub proof fn lemma_patch_tables(g: GraphView)
    ensures
        tables_kept(g, g.patch()),
{
    let h = g.patch();
    lemma_tables_kept();
    if g.tables_wf() {
        assert forall|i: int| 0 <= i < h.modules.len() implies (#[trigger] h.modules[i]).tables_wf() by {
            assert(g.modules[i].tables_wf());
            match g.modules[i] {
                ModuleView::Normal(m) => {
                    assert(m.mark_namespace_id_referenced().tables_wf());
                    assert(h.modules[i] == ModuleView::Normal(g.patched(m)));
                },
                ModuleView::External(_) => {},
            }
        }
    }
}

/// A build leaves the tables of a graph in order: in no table of a module a key occurs
/// twice and in no set a member, if that was so when the loader was done. The warnings
/// that there were are still there.
pub proof fn lemma_generate_module_graph_tables(g: GraphView)
    requires
        g.inv(),
    ensures
        g.generate_module_graph() matches Ok(h) ==> tables_kept(g, h) && warnings_kept(g, h),
{
    lemma_sort_modules_tables(g);
    lemma_sort_modules_inv(g);
    lemma_link_tables(g.sort_modules());
    if let Ok(l) = g.sort_modules().link() {
        lemma_patch_tables(l);
    }
}

} // verus!
