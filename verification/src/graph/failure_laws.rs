//! The graph that a failed pass leaves: it is in order and holds the modules and the
//! warnings that it held, and the error is that a name is missing or that a module
//! re-exports a name of its own that it does not have.

use vstd::prelude::*;
use crate::error::BuildErrorView;
use crate::graph::export_laws::{
    lemma_link_exports_step, lemma_link_module_exports_step, lemma_re_export_one_step,
    lemma_re_export_specs_step,
};
use crate::graph::import_laws::{
    lemma_import_groups_linked, lemma_import_one_linked, lemma_import_specs_linked,
    lemma_link_imports_from_linked, lemma_prepare_importee_linked,
};
use crate::graph::link::lemma_order_modules;
use crate::graph::table_laws::lemma_sort_modules_tables;
use crate::graph::{
    lemma_index_of, lemma_sort_modules_inv, lemma_tables_after, lemma_with_normal_inv, same_shape,
    tables_kept, warnings_kept, GraphView, LinkFailure,
};
use crate::ident::{star_name, ModuleIdView};
use crate::module::lemma_tables_kept;
use crate::specifier::{ImportedSpecifierView, ReExportedSpecifierView};

verus! {

/// An error that ends a link.
pub open spec fn ends_link(e: BuildErrorView) -> bool {
    e is MissingExport || e is CircularReExport
}

/// `f` is what is left of `g` when a pass has failed: a graph in order with the modules
/// and the warnings of `g`, and perhaps more warnings, its tables in order if they were,
/// and an error that ends a link.
pub open spec fn left_by(g: GraphView, f: LinkFailure) -> bool {
    f.graph.inv() && same_shape(g, f.graph) && tables_kept(g, f.graph) && warnings_kept(g, f.graph)
        && ends_link(f.error)
}

proof fn lemma_re_export_one_failure(
    g: GraphView,
    a: int,
    importee: ModuleIdView,
    spec: ReExportedSpecifierView,
)
    requires
        g.inv(),
        g.is_normal(a),
        g.contains(importee),
    ensures
        g.re_export_one(a, importee, spec) matches Err(f) ==> left_by(g, f) && f.graph.uf == g.uf,
{
    if let Err(f) = g.re_export_one(a, importee, spec) {
        let m = g.normal(a);
        lemma_tables_kept();
        if importee == m.id {
            let m1 = m.suggest_name(spec.imported, spec.exported_as);
            let m2 = if spec.imported == star_name() {
                m1.mark_namespace_id_referenced()
            } else {
                m1
            };
            assert(g.module_closed(m));
            lemma_with_normal_inv(g, a, m2);
            assert(f.graph == g.with_normal(a, m2));
            if g.tables_wf() {
                assert(g.modules[a].tables_wf());
                assert(m1.tables_wf());
            }
            lemma_tables_after(g, f.graph, a, a);
        } else {
            lemma_index_of(g, importee);
            let b = g.index_of(importee).unwrap();
            lemma_prepare_importee_linked(g, b, spec.imported, spec.exported_as);
        }
    }
}

proof fn lemma_re_export_specs_failure(
    g: GraphView,
    a: int,
    importee: ModuleIdView,
    specs: Seq<ReExportedSpecifierView>,
    j: int,
)
    requires
        g.inv(),
        g.is_normal(a),
        g.contains(importee),
    ensures
        g.re_export_specs(a, importee, specs, j) matches Err(f) ==> left_by(g, f) && f.graph.uf == g.uf,
    decreases specs.len() - j,
{
    if 0 <= j < specs.len() {
        lemma_re_export_one_failure(g, a, importee, specs[j]);
        lemma_re_export_one_step(g, a, importee, specs[j]);
        if let Ok(g1) = g.re_export_one(a, importee, specs[j]) {
            assert(g1.ids() == g.ids());
            lemma_re_export_specs_failure(g1, a, importee, specs, j + 1);
        }
    }
}

proof fn lemma_re_export_groups_failure(
    g: GraphView,
    a: int,
    groups: Seq<(ModuleIdView, Seq<ReExportedSpecifierView>)>,
    k: int,
)
    requires
        g.inv(),
        g.is_normal(a),
        forall|p: int| 0 <= p < groups.len() ==> g.contains((#[trigger] groups[p]).0),
    ensures
        g.re_export_groups(a, groups, k) matches Err(f) ==> left_by(g, f) && f.graph.uf == g.uf,
    decreases groups.len() - k,
{
    if 0 <= k < groups.len() {
        assert(g.contains(groups[k].0));
        lemma_re_export_specs_failure(g, a, groups[k].0, groups[k].1, 0);
        lemma_re_export_specs_step(g, a, groups[k].0, groups[k].1, 0);
        if let Ok(g1) = g.re_export_specs(a, groups[k].0, groups[k].1, 0) {
            assert(g1.ids() == g.ids());
            assert forall|p: int| 0 <= p < groups.len() implies g1.contains((#[trigger] groups[p]).0) by {
                assert(g.contains(groups[p].0));
            }
            lemma_re_export_groups_failure(g1, a, groups, k + 1);
        }
    }
}

proof fn lemma_link_exports_from_failure(g: GraphView, order: Seq<ModuleIdView>, k: int)
    requires
        g.inv(),
        forall|p: int| 0 <= p < order.len() ==> g.contains(#[trigger] order[p]),
    ensures
        g.link_exports_from(order, k) matches Err(f) ==> left_by(g, f) && f.graph.uf == g.uf,
    decreases order.len() - k,
{
    if 0 <= k < order.len() {
        if order[k].external {
            lemma_link_exports_from_failure(g, order, k + 1);
        } else {
            assert(g.contains(order[k]));
            lemma_index_of(g, order[k]);
            let a = g.index_of(order[k]).unwrap();
            assert(g.ids()[a] == order[k]);
            assert(g.module_closed(g.normal(a)));
            lemma_re_export_groups_failure(g, a, g.normal(a).re_exported_ids, 0);
            lemma_link_module_exports_step(g, a);
            if let Ok(g1) = g.link_module_exports(a) {
                assert(g1.ids() == g.ids());
                assert forall|p: int| 0 <= p < order.len() implies g1.contains(#[trigger] order[p]) by {
                    assert(g.contains(order[p]));
                }
                lemma_link_exports_from_failure(g1, order, k + 1);
            }
        }
    }
}

proof fn lemma_import_one_failure(g: GraphView, a: int, importee: ModuleIdView, spec: ImportedSpecifierView)
    requires
        g.inv(),
        g.is_normal(a),
        g.contains(importee),
    ensures
        g.import_one(a, importee, spec) matches Err(f) ==> left_by(g, f),
{
    if let Err(f) = g.import_one(a, importee, spec) {
        lemma_index_of(g, importee);
        let b = g.index_of(importee).unwrap();
        lemma_prepare_importee_linked(g, b, spec.imported, spec.imported_as.name);
    }
}

proof fn lemma_import_specs_failure(
    g: GraphView,
    a: int,
    importee: ModuleIdView,
    specs: Seq<ImportedSpecifierView>,
    j: int,
)
    requires
        g.inv(),
        g.is_normal(a),
        g.contains(importee),
    ensures
        g.import_specs(a, importee, specs, j) matches Err(f) ==> left_by(g, f),
    decreases specs.len() - j,
{
    if 0 <= j < specs.len() {
        lemma_import_one_failure(g, a, importee, specs[j]);
        lemma_import_one_linked(g, a, importee, specs[j]);
        if let Ok(g1) = g.import_one(a, importee, specs[j]) {
            assert(g1.ids() == g.ids());
            lemma_import_specs_failure(g1, a, importee, specs, j + 1);
        }
    }
}

proof fn lemma_import_groups_failure(g: GraphView, a: int, k: int)
    requires
        g.inv(),
        g.is_normal(a),
    ensures
        g.import_groups(a, g.normal(a).imports, k) matches Err(f) ==> left_by(g, f),
    decreases g.normal(a).imports.len() - k,
{
    let groups = g.normal(a).imports;
    if 0 <= k < groups.len() {
        let importee = groups[k].0;
        assert(g.module_closed(g.normal(a)));
        assert(g.contains(importee));
        let specs = g.import_sequence(a, importee, groups[k].1);
        lemma_import_specs_failure(g, a, importee, specs, 0);
        lemma_import_specs_linked(g, a, importee, specs, 0);
        if let Ok(g1) = g.import_specs(a, importee, specs, 0) {
            assert(g1.ids() == g.ids());
            assert(g1.is_normal(a));
            assert(g1.normal(a).imports == groups);
            lemma_import_groups_failure(g1, a, k + 1);
        }
    }
}

proof fn lemma_link_imports_from_failure(g: GraphView, order: Seq<ModuleIdView>, k: int)
    requires
        g.inv(),
        forall|p: int| 0 <= p < order.len() ==> g.contains(#[trigger] order[p]),
    ensures
        g.link_imports_from(order, k) matches Err(f) ==> left_by(g, f),
    decreases order.len() - k,
{
    if 0 <= k < order.len() {
        if order[k].external {
            lemma_link_imports_from_failure(g, order, k + 1);
        } else {
            assert(g.contains(order[k]));
            lemma_index_of(g, order[k]);
            let a = g.index_of(order[k]).unwrap();
            assert(g.ids()[a] == order[k]);
            lemma_import_groups_failure(g, a, 0);
            lemma_import_groups_linked(g, a, 0);
            if let Ok(g1) = g.link_module_imports(a) {
                assert(g1.ids() == g.ids());
                assert forall|p: int| 0 <= p < order.len() implies g1.contains(#[trigger] order[p]) by {
                    assert(g.contains(order[p]));
                }
                lemma_link_imports_from_failure(g1, order, k + 1);
            }
        }
    }
}

/// A pass that fails leaves a graph in order with the modules that it held, and fails
/// because a name is missing or because a module re-exports a name of its own that it
/// does not have. Where the exports pass fails, no symbols are joined that were not.
pub proof fn lemma_link_passes_failure(g: GraphView, order: Seq<ModuleIdView>)
    requires
        g.inv(),
        forall|p: int| 0 <= p < order.len() ==> g.contains(#[trigger] order[p]),
    ensures
        g.link_exports(order) matches Err(f) ==> left_by(g, f) && f.graph.uf == g.uf,
        g.link_imports(order) matches Err(f) ==> left_by(g, f),
        g.link_over(order) matches Err(f) ==> left_by(g, f),
        g.link_over(order) matches Err(f) ==> (g.link_exports(order) is Err ==> f.graph.uf == g.uf),
{
    lemma_link_exports_from_failure(g, order, 0);
    lemma_link_imports_from_failure(g, order, 0);
    lemma_link_exports_step(g, order, 0);
    if let Ok(h) = g.link_exports(order) {
        assert(h.ids() == g.ids());
        assert forall|p: int| 0 <= p < order.len() implies h.contains(#[trigger] order[p]) by {
            assert(g.contains(order[p]));
        }
        lemma_link_imports_from_failure(h, order, 0);
    }
}

/// A link that fails leaves a graph in order with the modules that it held.
pub proof fn lemma_link_failure(g: GraphView)
    requires
        g.inv(),
    ensures
        g.link() matches Err(f) ==> left_by(g, f),
{
    lemma_order_modules(g);
    lemma_link_passes_failure(g, g.order_modules());
}

/// A build that fails leaves a graph in order with the modules that the loader put into
/// it.
pub proof fn lemma_generate_module_graph_failure(g: GraphView)
    requires
        g.inv(),
    ensures
        g.generate_module_graph() matches Err(f) ==> left_by(g, f),
{
    lemma_sort_modules_inv(g);
    lemma_sort_modules_tables(g);
    lemma_link_failure(g.sort_modules());
}

} // verus!
