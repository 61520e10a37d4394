//! The link does not depend on the order in which the modules came into the graph: in a
//! graph that holds the same modules at other positions, each pass of the linker succeeds
//! or fails with the same error, and leaves the same modules, each at its position.

use vstd::prelude::*;
use crate::error::BuildErrorView;
use crate::graph::LinkFailure;
use crate::graph::laws::rearranged;
use crate::graph::link_exports::{
    lemma_prepare_importee_inv, lemma_re_export_all_from_inv, lemma_re_export_one_inv, ExportTable,
};
use crate::graph::link_imports::lemma_import_one_inv;
use crate::graph::order_laws::is_renaming;
use crate::graph::{lemma_index_of, lemma_index_of_own, same_shape, GraphView};
use crate::ident::ModuleIdView;
use crate::module::{ExternalModuleView, ModuleView, NormalModuleView};
use crate::specifier::{ImportedSpecifierView, ReExportedSpecifierView};

verus! {

/// `h` is `g` with its modules at the positions that `pi` gives them.
pub open spec fn same_modules(pi: Seq<usize>, g: GraphView, h: GraphView) -> bool {
    &&& rearranged(pi, g, h)
    &&& h.uf == g.uf
    &&& h.warnings == g.warnings
    &&& h.shim_missing_exports == g.shim_missing_exports
}

/// Two outcomes of a pass agree: both succeed, or both fail with one error, and they
/// leave the same modules, each at its position.
pub open spec fn same_outcome(
    pi: Seq<usize>,
    one: Result<GraphView, LinkFailure>,
    two: Result<GraphView, LinkFailure>,
) -> bool {
    match (one, two) {
        (Ok(g), Ok(h)) => same_modules(pi, g, h),
        (Err(e), Err(f)) => e.error == f.error && same_modules(pi, e.graph, f.graph),
        _ => false,
    }
}

pub proof fn lemma_renaming_injective(pi: Seq<usize>, n: nat, i: int, j: int)
    requires
        is_renaming(pi, n),
        0 <= i < n,
        0 <= j < n,
        i != j,
    ensures
        pi[i] != pi[j],
{
    if i < j {
        assert(pi[i] != pi[j]);
    } else {
        assert(pi[j] != pi[i]);
    }
}

/// A module of the graph is found at its renamed position.
pub proof fn lemma_arrival_index(pi: Seq<usize>, g: GraphView, h: GraphView, id: ModuleIdView)
    requires
        g.wf(),
        h.wf(),
        same_modules(pi, g, h),
        g.contains(id),
    ensures
        h.contains(id),
        0 <= g.index_of(id).unwrap() < g.modules.len(),
        h.index_of(id) == Some(pi[g.index_of(id).unwrap()] as int),
        h.modules[pi[g.index_of(id).unwrap()] as int] == g.modules[g.index_of(id).unwrap()],
{
    lemma_index_of(g, id);
    let i = g.index_of(id).unwrap();
    let j = pi[i] as int;
    assert(h.modules[pi[i] as int] == g.modules[i]);
    assert(h.ids()[j] == id);
    lemma_index_of_own(h, j);
}

proof fn lemma_with_normal_arrival(pi: Seq<usize>, g: GraphView, h: GraphView, i: int, m: NormalModuleView)
    requires
        same_modules(pi, g, h),
        0 <= i < g.modules.len(),
    ensures
        same_modules(pi, g.with_normal(i, m), h.with_normal(pi[i] as int, m)),
{
    let g1 = g.with_normal(i, m);
    let h1 = h.with_normal(pi[i] as int, m);
    assert forall|k: int| 0 <= k < g1.modules.len() implies #[trigger] h1.modules[pi[k] as int]
        == g1.modules[k] by {
        assert(h.modules[pi[k] as int] == g.modules[k]);
        if k != i {
            lemma_renaming_injective(pi, g.modules.len(), k, i);
        }
    }
}

proof fn lemma_with_external_arrival(pi: Seq<usize>, g: GraphView, h: GraphView, i: int, m: ExternalModuleView)
    requires
        same_modules(pi, g, h),
        0 <= i < g.modules.len(),
    ensures
        same_modules(pi, g.with_external(i, m), h.with_external(pi[i] as int, m)),
{
    let g1 = g.with_external(i, m);
    let h1 = h.with_external(pi[i] as int, m);
    assert forall|k: int| 0 <= k < g1.modules.len() implies #[trigger] h1.modules[pi[k] as int]
        == g1.modules[k] by {
        assert(h.modules[pi[k] as int] == g.modules[k]);
        if k != i {
            lemma_renaming_injective(pi, g.modules.len(), k, i);
        }
    }
}

proof fn lemma_prepare_importee_arrival(
    pi: Seq<usize>,
    g: GraphView,
    h: GraphView,
    b: int,
    imported: Seq<char>,
    suggested: Seq<char>,
)
    requires
        same_modules(pi, g, h),
        g.is_normal(b),
    ensures
        same_modules(
            pi,
            g.prepare_importee(b, imported, suggested),
            h.prepare_importee(pi[b] as int, imported, suggested),
        ),
        h.is_normal(pi[b] as int),
{
    assert(h.modules[pi[b] as int] == g.modules[b]);
    let m = g.normal(b);
    let m1 = m.suggest_name(imported, suggested);
    let m2 = if imported == crate::ident::star_name() {
        m1.mark_namespace_id_referenced()
    } else {
        m1
    };
    if g.shim_missing_exports && m2.find_exported(imported) is None {
        lemma_with_normal_arrival(pi, g, h, b, m2.shim_missing_export(imported));
    } else {
        lemma_with_normal_arrival(pi, g, h, b, m2);
    }
}

/// One explicit re-export has the same outcome whatever the positions of the modules.
pub proof fn lemma_re_export_one_arrival(
    pi: Seq<usize>,
    g: GraphView,
    h: GraphView,
    a: int,
    importee: ModuleIdView,
    spec: ReExportedSpecifierView,
)
    requires
        g.inv(),
        h.inv(),
        same_modules(pi, g, h),
        g.is_normal(a),
        g.contains(importee),
    ensures
        same_outcome(
            pi,
            g.re_export_one(a, importee, spec),
            h.re_export_one(pi[a] as int, importee, spec),
        ),
{
    assert(h.modules[pi[a] as int] == g.modules[a]);
    let m = g.normal(a);
    if importee == m.id {
        let m1 = m.suggest_name(spec.imported, spec.exported_as);
        let m2 = if spec.imported == crate::ident::star_name() {
            m1.mark_namespace_id_referenced()
        } else {
            m1
        };
        if let Some(target) = m2.find_exported(spec.imported) {
            lemma_with_normal_arrival(pi, g, h, a, m2.add_to_linked_exports(spec.exported_as, target));
        }
    } else {
        lemma_arrival_index(pi, g, h, importee);
        let b = g.index_of(importee).unwrap();
        match g.modules[b] {
            ModuleView::Normal(_) => {
                lemma_prepare_importee_arrival(pi, g, h, b, spec.imported, spec.exported_as);
                let g1 = g.prepare_importee(b, spec.imported, spec.exported_as);
                let h1 = h.prepare_importee(pi[b] as int, spec.imported, spec.exported_as);
                lemma_prepare_importee_inv(g, b, spec.imported, spec.exported_as);
                assert(h1.modules[pi[a] as int] == g1.modules[a]);
                assert(h1.modules[pi[b] as int] == g1.modules[b]);
                if let Some(target) = g1.normal(b).find_exported(spec.imported) {
                    lemma_with_normal_arrival(
                        pi,
                        g1,
                        h1,
                        a,
                        g1.normal(a).add_to_linked_exports(spec.exported_as, target),
                    );
                }
            },
            ModuleView::External(_) => {
                let after = g.re_export_from_external(a, importee, spec);
                lemma_with_normal_arrival(pi, g, h, a, after.normal(a));
            },
        }
    }
}

/// The names of one re-export statement have the same outcome whatever the positions of
/// the modules.
pub proof fn lemma_re_export_specs_arrival(
    pi: Seq<usize>,
    g: GraphView,
    h: GraphView,
    a: int,
    importee: ModuleIdView,
    specs: Seq<ReExportedSpecifierView>,
    j: int,
)
    requires
        g.inv(),
        h.inv(),
        same_modules(pi, g, h),
        g.is_normal(a),
        g.contains(importee),
    ensures
        same_outcome(
            pi,
            g.re_export_specs(a, importee, specs, j),
            h.re_export_specs(pi[a] as int, importee, specs, j),
        ),
    decreases specs.len() - j,
{
    if 0 <= j < specs.len() {
        lemma_re_export_one_arrival(pi, g, h, a, importee, specs[j]);
        lemma_re_export_one_inv(g, a, importee, specs[j]);
        lemma_arrival_index(pi, g, h, importee);
        assert(h.modules[pi[a] as int] == g.modules[a]);
        lemma_re_export_one_inv(h, pi[a] as int, importee, specs[j]);
        if let Ok(g1) = g.re_export_one(a, importee, specs[j]) {
            let h1 = h.re_export_one(pi[a] as int, importee, specs[j])->Ok_0;
            assert(g1.ids() == g.ids());
            lemma_re_export_specs_arrival(pi, g1, h1, a, importee, specs, j + 1);
        }
    }
}

/// The explicit re-exports of a module have the same outcome whatever the positions of
/// the modules.
pub proof fn lemma_re_export_groups_arrival(
    pi: Seq<usize>,
    g: GraphView,
    h: GraphView,
    a: int,
    groups: Seq<(ModuleIdView, Seq<ReExportedSpecifierView>)>,
    k: int,
)
    requires
        g.inv(),
        h.inv(),
        same_modules(pi, g, h),
        g.is_normal(a),
        forall|p: int| 0 <= p < groups.len() ==> g.contains((#[trigger] groups[p]).0),
    ensures
        same_outcome(
            pi,
            g.re_export_groups(a, groups, k),
            h.re_export_groups(pi[a] as int, groups, k),
        ),
        g.re_export_groups(a, groups, k) matches Ok(g1) ==> g1.inv() && same_shape(g, g1),
        h.re_export_groups(pi[a] as int, groups, k) matches Ok(h1) ==> h1.inv(),
    decreases groups.len() - k,
{
    if 0 <= k < groups.len() {
        assert(g.contains(groups[k].0));
        lemma_arrival_index(pi, g, h, groups[k].0);
        assert(h.modules[pi[a] as int] == g.modules[a]);
        lemma_re_export_specs_arrival(pi, g, h, a, groups[k].0, groups[k].1, 0);
        crate::graph::export_laws::lemma_re_export_specs_step(g, a, groups[k].0, groups[k].1, 0);
        crate::graph::export_laws::lemma_re_export_specs_step(h, pi[a] as int, groups[k].0, groups[k].1, 0);
        if let Ok(g1) = g.re_export_specs(a, groups[k].0, groups[k].1, 0) {
            let h1 = h.re_export_specs(pi[a] as int, groups[k].0, groups[k].1, 0)->Ok_0;
            assert(g1.ids() == g.ids());
            assert forall|p: int| 0 <= p < groups.len() implies g1.contains(
                (#[trigger] groups[p]).0,
            ) by {
                assert(g.contains(groups[p].0));
            }
            lemma_re_export_groups_arrival(pi, g1, h1, a, groups, k + 1);
        }
    }
}

/// The export tables of the wildcard sources do not depend on the positions of the
/// modules.
pub proof fn lemma_wildcard_entries_arrival(
    pi: Seq<usize>,
    g: GraphView,
    h: GraphView,
    targets: Seq<ModuleIdView>,
    t: int,
)
    requires
        g.wf(),
        h.wf(),
        same_modules(pi, g, h),
        forall|k: int| 0 <= k < targets.len() ==> g.contains(#[trigger] targets[k]),
    ensures
        h.wildcard_entries(targets, t) == g.wildcard_entries(targets, t),
    decreases t,
{
    if 0 < t <= targets.len() {
        lemma_wildcard_entries_arrival(pi, g, h, targets, t - 1);
        assert(g.contains(targets[t - 1]));
        lemma_arrival_index(pi, g, h, targets[t - 1]);
    }
}

/// One wildcard re-export does the same whatever the positions of the modules.
pub proof fn lemma_re_export_all_from_arrival(
    pi: Seq<usize>,
    g: GraphView,
    h: GraphView,
    a: int,
    target: ModuleIdView,
    explicit: ExportTable,
    entries: ExportTable,
)
    requires
        g.inv(),
        h.inv(),
        same_modules(pi, g, h),
        g.is_normal(a),
        g.contains(target),
    ensures
        same_modules(
            pi,
            g.re_export_all_from(a, target, explicit, entries),
            h.re_export_all_from(pi[a] as int, target, explicit, entries),
        ),
{
    assert(h.modules[pi[a] as int] == g.modules[a]);
    if target != g.normal(a).id {
        lemma_arrival_index(pi, g, h, target);
        let after = g.re_export_all_from(a, target, explicit, entries);
        lemma_with_normal_arrival(pi, g, h, a, after.normal(a));
    }
}

/// The wildcard re-exports of a module do the same whatever the positions of the modules.
pub proof fn lemma_re_export_all_targets_arrival(
    pi: Seq<usize>,
    g: GraphView,
    h: GraphView,
    a: int,
    targets: Seq<ModuleIdView>,
    explicit: ExportTable,
    entries: ExportTable,
    t: int,
)
    requires
        g.inv(),
        h.inv(),
        same_modules(pi, g, h),
        g.is_normal(a),
        forall|k: int| 0 <= k < targets.len() ==> g.contains(#[trigger] targets[k]),
    ensures
        same_modules(
            pi,
            g.re_export_all_targets(a, targets, explicit, entries, t),
            h.re_export_all_targets(pi[a] as int, targets, explicit, entries, t),
        ),
        g.re_export_all_targets(a, targets, explicit, entries, t).inv(),
        h.re_export_all_targets(pi[a] as int, targets, explicit, entries, t).inv(),
        same_shape(g, g.re_export_all_targets(a, targets, explicit, entries, t)),
    decreases targets.len() - t,
{
    if 0 <= t < targets.len() {
        assert(g.contains(targets[t]));
        lemma_arrival_index(pi, g, h, targets[t]);
        assert(h.modules[pi[a] as int] == g.modules[a]);
        lemma_re_export_all_from_arrival(pi, g, h, a, targets[t], explicit, entries);
        lemma_re_export_all_from_inv(g, a, targets[t], explicit, entries);
        lemma_re_export_all_from_inv(h, pi[a] as int, targets[t], explicit, entries);
        let g1 = g.re_export_all_from(a, targets[t], explicit, entries);
        let h1 = h.re_export_all_from(pi[a] as int, targets[t], explicit, entries);
        assert(g1.ids() == g.ids());
        assert forall|k: int| 0 <= k < targets.len() implies g1.contains(#[trigger] targets[k]) by {
            assert(g.contains(targets[k]));
        }
        lemma_re_export_all_targets_arrival(pi, g1, h1, a, targets, explicit, entries, t + 1);
    }
}

/// The exports pass for one module has the same outcome whatever the positions of the
/// modules.
pub proof fn lemma_link_module_exports_arrival(pi: Seq<usize>, g: GraphView, h: GraphView, a: int)
    requires
        g.inv(),
        h.inv(),
        same_modules(pi, g, h),
        g.is_normal(a),
    ensures
        same_outcome(pi, g.link_module_exports(a), h.link_module_exports(pi[a] as int)),
        g.link_module_exports(a) matches Ok(g1) ==> g1.inv() && same_shape(g, g1),
        h.link_module_exports(pi[a] as int) matches Ok(h1) ==> h1.inv(),
{
    assert(h.modules[pi[a] as int] == g.modules[a]);
    let groups = g.normal(a).re_exported_ids;
    assert(g.module_closed(g.normal(a)));
    lemma_re_export_groups_arrival(pi, g, h, a, groups, 0);
    if let Ok(g1) = g.re_export_groups(a, groups, 0) {
        let h1 = h.re_export_groups(pi[a] as int, groups, 0)->Ok_0;
        assert(g1.is_normal(a));
        assert(h1.modules[pi[a] as int] == g1.modules[a]);
        let targets = g1.normal(a).re_export_all;
        assert(g1.module_closed(g1.normal(a)));
        lemma_wildcard_entries_arrival(pi, g1, h1, targets, targets.len() as int);
        lemma_re_export_all_targets_arrival(
            pi,
            g1,
            h1,
            a,
            targets,
            g1.normal(a).linked_exports,
            g1.wildcard_entries(targets, targets.len() as int),
            0,
        );
    }
}

/// The exports pass has the same outcome whatever the positions of the modules.
pub proof fn lemma_link_exports_arrival(
    pi: Seq<usize>,
    g: GraphView,
    h: GraphView,
    order: Seq<ModuleIdView>,
    k: int,
)
    requires
        g.inv(),
        h.inv(),
        same_modules(pi, g, h),
        forall|p: int| 0 <= p < order.len() ==> g.contains(#[trigger] order[p]),
    ensures
        same_outcome(pi, g.link_exports_from(order, k), h.link_exports_from(order, k)),
        g.link_exports_from(order, k) matches Ok(g1) ==> g1.inv() && same_shape(g, g1),
        h.link_exports_from(order, k) matches Ok(h1) ==> h1.inv(),
    decreases order.len() - k,
{
    if 0 <= k < order.len() {
        if order[k].external {
            lemma_link_exports_arrival(pi, g, h, order, k + 1);
        } else {
            assert(g.contains(order[k]));
            lemma_arrival_index(pi, g, h, order[k]);
            lemma_index_of(g, order[k]);
            let a = g.index_of(order[k]).unwrap();
            assert(g.ids()[a] == order[k]);
            lemma_link_module_exports_arrival(pi, g, h, a);
            if let Ok(g1) = g.link_module_exports(a) {
                let h1 = h.link_module_exports(pi[a] as int)->Ok_0;
                assert(g1.ids() == g.ids());
                assert forall|p: int| 0 <= p < order.len() implies g1.contains(
                    #[trigger] order[p],
                ) by {
                    assert(g.contains(order[p]));
                }
                lemma_link_exports_arrival(pi, g1, h1, order, k + 1);
            }
        }
    }
}

/// One import has the same outcome whatever the positions of the modules.
pub proof fn lemma_import_one_arrival(
    pi: Seq<usize>,
    g: GraphView,
    h: GraphView,
    a: int,
    importee: ModuleIdView,
    spec: ImportedSpecifierView,
)
    requires
        g.inv(),
        h.inv(),
        same_modules(pi, g, h),
        g.is_normal(a),
        g.contains(importee),
    ensures
        same_outcome(pi, g.import_one(a, importee, spec), h.import_one(pi[a] as int, importee, spec)),
{
    assert(h.modules[pi[a] as int] == g.modules[a]);
    lemma_arrival_index(pi, g, h, importee);
    let b = g.index_of(importee).unwrap();
    match g.modules[b] {
        ModuleView::Normal(_) => {
            lemma_prepare_importee_arrival(pi, g, h, b, spec.imported, spec.imported_as.name);
            lemma_prepare_importee_inv(g, b, spec.imported, spec.imported_as.name);
            let g1 = g.prepare_importee(b, spec.imported, spec.imported_as.name);
            let h1 = h.prepare_importee(pi[b] as int, spec.imported, spec.imported_as.name);
            assert(h1.modules[pi[a] as int] == g1.modules[a]);
            assert(h1.modules[pi[b] as int] == g1.modules[b]);
            if a != b {
                lemma_renaming_injective(pi, g.modules.len(), a, b);
            }
            match g1.normal(b).find_exported(spec.imported) {
                Some(found) => {
                    lemma_with_normal_arrival(
                        pi,
                        g1,
                        h1,
                        a,
                        g1.link_found(a, spec, found).normal(a),
                    );
                },
                None => {
                    if g1.normal(b).external_modules_of_re_export_all.len() > 0 {
                        let after = g1.link_through_external(a, b, spec);
                        let importee_m = g1.normal(b);
                        let externals = importee_m.external_modules_of_re_export_all;
                        let w = if externals.len() > 1 {
                            g1.warn(
                                BuildErrorView::AmbiguousExternalNamespaces {
                                    name: spec.imported_as.name,
                                    importee: importee_m.id.path,
                                    chosen: externals[0].path,
                                    candidates: crate::graph::link_imports::paths_of(externals),
                                },
                            )
                        } else {
                            g1
                        };
                        let v = if externals.len() > 1 {
                            h1.warn(
                                BuildErrorView::AmbiguousExternalNamespaces {
                                    name: spec.imported_as.name,
                                    importee: importee_m.id.path,
                                    chosen: externals[0].path,
                                    candidates: crate::graph::link_imports::paths_of(externals),
                                },
                            )
                        } else {
                            h1
                        };
                        assert(same_modules(pi, w, v));
                        lemma_with_normal_arrival(pi, w, v, b, after.normal(b));
                        let w2 = w.with_normal(b, after.normal(b));
                        let v2 = v.with_normal(pi[b] as int, after.normal(b));
                        if a != b {
                            assert(w2.modules[a] == g1.modules[a]);
                        }
                        lemma_with_normal_arrival(pi, w2, v2, a, after.normal(a));
                    }
                },
            }
        },
        ModuleView::External(e) => {
            lemma_with_external_arrival(pi, g, h, b, e.find_exported_symbol(spec.imported));
            let g1 = g.with_external(b, e.find_exported_symbol(spec.imported));
            let h1 = h.with_external(pi[b] as int, e.find_exported_symbol(spec.imported));
            lemma_renaming_injective(pi, g.modules.len(), a, b);
            assert(g1.modules[a] == g.modules[a]);
            assert(h1.modules[pi[a] as int] == g1.modules[a]);
            lemma_with_normal_arrival(pi, g1, h1, a, g1.normal(a).add_to_linked_imports(e.id, spec));
        },
    }
}

/// The imports from one importee have the same outcome whatever the positions of the
/// modules.
pub proof fn lemma_import_specs_arrival(
    pi: Seq<usize>,
    g: GraphView,
    h: GraphView,
    a: int,
    importee: ModuleIdView,
    specs: Seq<ImportedSpecifierView>,
    j: int,
)
    requires
        g.inv(),
        h.inv(),
        same_modules(pi, g, h),
        g.is_normal(a),
        g.contains(importee),
    ensures
        same_outcome(
            pi,
            g.import_specs(a, importee, specs, j),
            h.import_specs(pi[a] as int, importee, specs, j),
        ),
        g.import_specs(a, importee, specs, j) matches Ok(g1) ==> g1.inv() && same_shape(g, g1)
            && g1.normal(a).imports == g.normal(a).imports,
        h.import_specs(pi[a] as int, importee, specs, j) matches Ok(h1) ==> h1.inv(),
    decreases specs.len() - j,
{
    if 0 <= j < specs.len() {
        lemma_import_one_arrival(pi, g, h, a, importee, specs[j]);
        lemma_import_one_inv(g, a, importee, specs[j]);
        crate::graph::import_laws::lemma_import_one_linked(g, a, importee, specs[j]);
        lemma_arrival_index(pi, g, h, importee);
        assert(h.modules[pi[a] as int] == g.modules[a]);
        lemma_import_one_inv(h, pi[a] as int, importee, specs[j]);
        if let Ok(g1) = g.import_one(a, importee, specs[j]) {
            let h1 = h.import_one(pi[a] as int, importee, specs[j])->Ok_0;
            assert(g1.ids() == g.ids());
            lemma_import_specs_arrival(pi, g1, h1, a, importee, specs, j + 1);
        }
    }
}

/// The imports of a module have the same outcome whatever the positions of the modules.
pub proof fn lemma_import_groups_arrival(pi: Seq<usize>, g: GraphView, h: GraphView, a: int, k: int)
    requires
        g.inv(),
        h.inv(),
        same_modules(pi, g, h),
        g.is_normal(a),
    ensures
        same_outcome(
            pi,
            g.import_groups(a, g.normal(a).imports, k),
            h.import_groups(pi[a] as int, g.normal(a).imports, k),
        ),
        g.import_groups(a, g.normal(a).imports, k) matches Ok(g1) ==> g1.inv() && same_shape(g, g1),
        h.import_groups(pi[a] as int, g.normal(a).imports, k) matches Ok(h1) ==> h1.inv(),
    decreases g.normal(a).imports.len() - k,
{
    let groups = g.normal(a).imports;
    if 0 <= k < groups.len() {
        assert(g.module_closed(g.normal(a)));
        assert(g.contains(groups[k].0));
        assert(h.modules[pi[a] as int] == g.modules[a]);
        let specs = g.import_sequence(a, groups[k].0, groups[k].1);
        assert(specs == h.import_sequence(pi[a] as int, groups[k].0, groups[k].1));
        lemma_import_specs_arrival(pi, g, h, a, groups[k].0, specs, 0);
        if let Ok(g1) = g.import_specs(a, groups[k].0, specs, 0) {
            let h1 = h.import_specs(pi[a] as int, groups[k].0, specs, 0)->Ok_0;
            assert(g1.is_normal(a));
            lemma_import_groups_arrival(pi, g1, h1, a, k + 1);
        }
    }
}

/// The imports pass has the same outcome whatever the positions of the modules.
pub proof fn lemma_link_imports_arrival(
    pi: Seq<usize>,
    g: GraphView,
    h: GraphView,
    order: Seq<ModuleIdView>,
    k: int,
)
    requires
        g.inv(),
        h.inv(),
        same_modules(pi, g, h),
        forall|p: int| 0 <= p < order.len() ==> g.contains(#[trigger] order[p]),
    ensures
        same_outcome(pi, g.link_imports_from(order, k), h.link_imports_from(order, k)),
    decreases order.len() - k,
{
    if 0 <= k < order.len() {
        if order[k].external {
            lemma_link_imports_arrival(pi, g, h, order, k + 1);
        } else {
            assert(g.contains(order[k]));
            lemma_arrival_index(pi, g, h, order[k]);
            lemma_index_of(g, order[k]);
            let a = g.index_of(order[k]).unwrap();
            assert(g.ids()[a] == order[k]);
            assert(h.modules[pi[a] as int] == g.modules[a]);
            lemma_import_groups_arrival(pi, g, h, a, 0);
            if let Ok(g1) = g.link_module_imports(a) {
                let h1 = h.link_module_imports(pi[a] as int)->Ok_0;
                assert(g1.ids() == g.ids());
                assert forall|p: int| 0 <= p < order.len() implies g1.contains(
                    #[trigger] order[p],
                ) by {
                    assert(g.contains(order[p]));
                }
                lemma_link_imports_arrival(pi, g1, h1, order, k + 1);
            }
        }
    }
}

/// The two passes of the linker over the modules `order` do not depend on the positions
/// of the modules in the graph: they succeed, or fail with the same error, and leave the
/// same union-find, the same warnings and the same modules, each at its position.
pub proof fn lemma_link_passes_any_arrival(pi: Seq<usize>, g: GraphView, h: GraphView, order: Seq<ModuleIdView>)
    requires
        g.inv(),
        h.inv(),
        same_modules(pi, g, h),
        forall|p: int| 0 <= p < order.len() ==> g.contains(#[trigger] order[p]),
    ensures
        same_outcome(pi, g.link_exports(order), h.link_exports(order)),
        same_outcome(pi, g.link_over(order), h.link_over(order)),
{
    lemma_link_exports_arrival(pi, g, h, order, 0);
    if let Ok(g1) = g.link_exports(order) {
        if let Ok(h1) = h.link_exports(order) {
            assert(g1.ids() == g.ids());
            assert forall|p: int| 0 <= p < order.len() implies g1.contains(#[trigger] order[p]) by {
                assert(g.contains(order[p]));
            }
            lemma_link_imports_arrival(pi, g1, h1, order, 0);
        }
    }
}

/// Where no two modules have one execution order, the modules in execution order do not
/// depend on the positions of the modules.
pub proof fn lemma_order_modules_arrival(pi: Seq<usize>, g: GraphView, h: GraphView)
    requires
        same_modules(pi, g, h),
        forall|i: int, j: int|
            0 <= i < j < g.modules.len() ==> (#[trigger] g.modules[i]).exec_order() != (
            #[trigger] g.modules[j]).exec_order(),
    ensures
        h.order_modules() == g.order_modules(),
        forall|i: int, j: int|
            0 <= i < j < h.modules.len() ==> (#[trigger] h.modules[i]).exec_order() != (
            #[trigger] h.modules[j]).exec_order(),
{
    let n = g.modules.len() as int;
    // every position of `h` is the new position of a module of `g`
    lemma_renaming_onto(pi, g.modules.len());
    assert forall|i: int, j: int| 0 <= i < j < h.modules.len() implies (
    #[trigger] h.modules[i]).exec_order() != (#[trigger] h.modules[j]).exec_order() by {
        assert(given_to(pi, g.modules.len(), i) && given_to(pi, g.modules.len(), j));
        let a = choose|a: int| 0 <= a < n && #[trigger] pi[a] == i;
        let b = choose|b: int| 0 <= b < n && #[trigger] pi[b] == j;
        assert(h.modules[pi[a] as int] == g.modules[a]);
        assert(h.modules[pi[b] as int] == g.modules[b]);
        if a < b {
            assert(g.modules[a].exec_order() != g.modules[b].exec_order());
        } else {
            assert(g.modules[b].exec_order() != g.modules[a].exec_order());
        }
    }
    crate::graph::link::lemma_sorted_by_order_sorted(g.modules, n);
    crate::graph::link::lemma_sorted_by_order_sorted(h.modules, n);
    let s = crate::graph::link::sorted_by_order(g.modules, n);
    let t = crate::graph::link::sorted_by_order(h.modules, n);
    assert forall|k: int| 0 <= k < s.len() implies t.contains(#[trigger] s[k]) by {
        let i = choose|i: int|
            0 <= i < n && crate::graph::link::keyed(#[trigger] g.modules[i]) == s[k];
        assert(h.modules[pi[i] as int] == g.modules[i]);
        assert(t.contains(crate::graph::link::keyed(h.modules[pi[i] as int])));
    }
    assert forall|k: int| 0 <= k < t.len() implies s.contains(#[trigger] t[k]) by {
        let j = choose|j: int|
            0 <= j < n && crate::graph::link::keyed(#[trigger] h.modules[j]) == t[k];
        assert(given_to(pi, g.modules.len(), j));
        let a = choose|a: int| 0 <= a < n && #[trigger] pi[a] == j;
        assert(h.modules[pi[a] as int] == g.modules[a]);
        assert(s.contains(crate::graph::link::keyed(g.modules[a])));
    }
    crate::graph::link::lemma_strictly_sorted_unique(s, t);
    assert(h.order_modules() =~= g.order_modules());
}

/// The renaming `pi` gives the position `j` to some module.
pub open spec fn given_to(pi: Seq<usize>, n: nat, j: int) -> bool {
    exists|a: int| 0 <= a < n && #[trigger] pi[a] == j
}

/// A renaming of `n` positions gives every position to some module.
pub proof fn lemma_renaming_onto(pi: Seq<usize>, n: nat)
    requires
        is_renaming(pi, n),
    ensures
        forall|j: int| 0 <= j < n ==> #[trigger] given_to(pi, n, j),
{
    let image = Seq::new(n, |a: int| pi[a] as int).to_set();
    let ints = Seq::new(n, |a: int| pi[a] as int);
    assert(ints.no_duplicates()) by {
        assert forall|i: int, j: int| 0 <= i < ints.len() && 0 <= j < ints.len() && i != j implies ints[i]
            != ints[j] by {
            lemma_renaming_injective(pi, n, i, j);
        }
    }
    ints.unique_seq_to_set();
    vstd::set_lib::lemma_int_range(0, n as int);
    let all = vstd::set_lib::set_int_range(0, n as int);
    assert(image.subset_of(all)) by {
        assert forall|x: int| image.contains(x) implies all.contains(x) by {
            let k = choose|k: int| 0 <= k < ints.len() && ints[k] == x;
            assert(pi[k] < n);
        }
    }
    vstd::set_lib::lemma_subset_equality(image, all);
    assert forall|j: int| 0 <= j < n implies #[trigger] given_to(pi, n, j) by {
        assert(all.contains(j));
        assert(image.contains(j));
        let k = choose|k: int| 0 <= k < ints.len() && ints[k] == j;
        assert(pi[k] == j);
    }
}

/// The link does not depend on the order in which the modules came into the graph, where
/// no two modules have one execution order: it succeeds, or fails with the same error, and
/// leaves the same union-find, the same warnings and the same modules, each at its
/// position.
pub proof fn lemma_link_any_arrival(pi: Seq<usize>, g: GraphView, h: GraphView)
    requires
        g.inv(),
        h.inv(),
        same_modules(pi, g, h),
        forall|i: int, j: int|
            0 <= i < j < g.modules.len() ==> (#[trigger] g.modules[i]).exec_order() != (
            #[trigger] g.modules[j]).exec_order(),
    ensures
        same_outcome(pi, g.link(), h.link()),
{
    lemma_order_modules_arrival(pi, g, h);
    crate::graph::link::lemma_order_modules(g);
    lemma_link_passes_any_arrival(pi, g, h, g.order_modules());
}

/// The patch does not depend on the positions of the modules.
pub proof fn lemma_patch_any_arrival(pi: Seq<usize>, g: GraphView, h: GraphView)
    requires
        same_modules(pi, g, h),
    ensures
        same_modules(pi, g.patch(), h.patch()),
{
    let n = g.modules.len();
    lemma_renaming_onto(pi, n);
    assert forall|id: ModuleIdView| g.is_wildcard_source(id) == h.is_wildcard_source(id) by {
        if g.is_wildcard_source(id) {
            let j = choose|j: int| g.is_normal(j) && (#[trigger] g.normal(j)).re_export_all.contains(id);
            assert(h.modules[pi[j] as int] == g.modules[j]);
            assert(h.is_normal(pi[j] as int) && h.normal(pi[j] as int).re_export_all.contains(id));
        }
        if h.is_wildcard_source(id) {
            let j = choose|j: int| h.is_normal(j) && (#[trigger] h.normal(j)).re_export_all.contains(id);
            assert(given_to(pi, n, j));
            let a = choose|a: int| 0 <= a < n && #[trigger] pi[a] == j;
            assert(h.modules[pi[a] as int] == g.modules[a]);
            assert(g.is_normal(a) && g.normal(a).re_export_all.contains(id));
        }
    }
    assert forall|i: int| 0 <= i < n implies #[trigger] h.patch().modules[pi[i] as int]
        == g.patch().modules[i] by {
        assert(h.modules[pi[i] as int] == g.modules[i]);
        if g.is_normal(i) {
            assert(g.is_wildcard_source(g.normal(i).id) == h.is_wildcard_source(g.normal(i).id));
        }
    }
}

/// A build does not depend on the order in which the loader put the modules into the
/// graph, where every module can be reached from an entry along dependencies, static or
/// dynamic: it succeeds, or fails with the same error, and leaves the same union-find, the
/// same warnings and the same modules, each with the same execution order, linked imports
/// and linked exports.
pub proof fn lemma_generate_module_graph_any_arrival(pi: Seq<usize>, g: GraphView, h: GraphView)
    requires
        g.inv(),
        h.inv(),
        same_modules(pi, g, h),
        g.modules.len() <= usize::MAX,
        forall|x: usize| x < g.modules.len() ==> #[trigger] g.reached_from_entry(x),
    ensures
        same_outcome(pi, g.generate_module_graph(), h.generate_module_graph()),
{
    let n = g.modules.len();
    crate::graph::laws::lemma_sort_modules_complete(g);
    let sg = g.sort_modules();
    let sh = h.sort_modules();
    crate::graph::laws::lemma_sort_modules_any_arrival(pi, g, h);
    crate::graph::lemma_sort_modules_inv(g);
    crate::graph::lemma_sort_modules_inv(h);
    assert(same_modules(pi, sg, sh));
    crate::graph::laws::lemma_sort_modules_valid(g);
    let sequence = g.exec_sequence();
    assert(is_renaming(sequence, n)) by {
        assert forall|i: int, j: int| 0 <= i < j < n implies (#[trigger] sequence[i]) != (
        #[trigger] sequence[j]) by {}
    }
    lemma_renaming_onto(sequence, n);
    assert forall|i: int, j: int| 0 <= i < j < sg.modules.len() implies (
    #[trigger] sg.modules[i]).exec_order() != (#[trigger] sg.modules[j]).exec_order() by {
        assert(given_to(sequence, n, i) && given_to(sequence, n, j));
        let a = choose|a: int| 0 <= a < n && #[trigger] sequence[a] == i;
        let b = choose|b: int| 0 <= b < n && #[trigger] sequence[b] == j;
        assert(sg.modules[sequence[a] as int].exec_order() == a);
        assert(sg.modules[sequence[b] as int].exec_order() == b);
    }
    lemma_link_any_arrival(pi, sg, sh);
    if let Ok(lg) = sg.link() {
        let lh = sh.link()->Ok_0;
        lemma_patch_any_arrival(pi, lg, lh);
    }
}

} // verus!
