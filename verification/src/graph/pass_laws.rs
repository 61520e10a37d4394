//! What the exports pass as a whole leaves out of an export table, where missing exports
//! are not shimmed: `default`, unless the module exports it itself or re-exports a name as
//! `default`; and a name on which two of its wildcard sources disagree, unless the module
//! names it itself.

use vstd::prelude::*;
use crate::graph::export_laws::{
    lemma_default_not_wildcard_propagated, lemma_re_export_all_targets_step,
    lemma_wildcard_conflict_hidden,
};
use crate::graph::link_exports::{
    lemma_copy_wildcard_exports_refs, lemma_prepare_importee_inv, lemma_re_export_all_from_inv,
    lemma_re_export_one_inv, ExportTable,
};
use crate::graph::link_laws::{names_of_groups, names_of_specs};
use crate::graph::{lemma_index_of, same_shape, GraphView};
use crate::ident::{default_name, star_name, ModuleIdView};
use crate::module::{ModuleView, NormalModuleView};
use crate::specifier::{ExportedSpecifierView, ImportedSpecifierView, ReExportedSpecifierView};
use crate::table::{has_key, insert_all, lemma_lookup_put};

verus! {

/// The module at `x` has in `h` the explicit re-exports that it has in `g`, and exports
/// `name` in `h` only if it does in `g`.
pub open spec fn still_missing(g: GraphView, h: GraphView, x: int, name: Seq<char>) -> bool {
    &&& h.normal(x).re_exported_ids == g.normal(x).re_exported_ids
    &&& has_key(h.normal(x).linked_exports, name) ==> has_key(g.normal(x).linked_exports, name)
}

/// The module at `x` has in `h` the wildcard targets that it has in `g`, and, unless it
/// is the module at `a`, the export table that it has in `g`.
pub open spec fn others_untouched(g: GraphView, h: GraphView, a: int, x: int) -> bool {
    &&& h.normal(x).re_export_all == g.normal(x).re_export_all
    &&& a != x ==> h.normal(x).linked_exports == g.normal(x).linked_exports
}

/// One name of an explicit re-export gives no module another export than the one it
/// names, where missing exports are not shimmed.
pub proof fn lemma_re_export_one_missing(
    g: GraphView,
    a: int,
    importee: ModuleIdView,
    spec: ReExportedSpecifierView,
    x: int,
    name: Seq<char>,
)
    requires
        g.inv(),
        g.is_normal(a),
        g.contains(importee),
        g.is_normal(x),
        !g.shim_missing_exports,
        a != x || spec.exported_as != name,
    ensures
        g.re_export_one(a, importee, spec) matches Ok(h) ==> h.inv() && same_shape(g, h) && still_missing(
            g,
            h,
            x,
            name,
        ) && others_untouched(g, h, a, x),
{
    lemma_re_export_one_inv(g, a, importee, spec);
    if let Ok(h) = g.re_export_one(a, importee, spec) {
        let m = g.normal(a);
        if importee != m.id {
            lemma_index_of(g, importee);
            let b = g.index_of(importee).unwrap();
            match g.modules[b] {
                ModuleView::Normal(source) => {
                    lemma_prepare_importee_inv(g, b, spec.imported, spec.exported_as);
                    let g1 = g.prepare_importee(b, spec.imported, spec.exported_as);
                    let target = g1.normal(b).find_exported(spec.imported).unwrap();
                    assert(h == g1.with_normal(
                        a,
                        g1.normal(a).add_to_linked_exports(spec.exported_as, target),
                    ));
                    assert(g1.normal(b).linked_exports == source.linked_exports);
                    assert(g1.normal(b).re_exported_ids == source.re_exported_ids);
                    if x != b {
                        assert(g1.modules[x] == g.modules[x]);
                    }
                    if x == a {
                        lemma_lookup_put(g1.normal(a).linked_exports, spec.exported_as, target, name);
                    } else {
                        assert(h.modules[x] == g1.modules[x]);
                    }
                },
                ModuleView::External(_) => {
                    let fresh = if spec.exported_as != default_name() {
                        spec.exported_as
                    } else {
                        spec.imported
                    };
                    let symbol = m.next_symbol(fresh);
                    let m2 = m.create_top_level_symbol(fresh).add_to_linked_imports(
                        importee,
                        ImportedSpecifierView { imported: spec.imported, imported_as: symbol },
                    );
                    let own = ExportedSpecifierView {
                        exported_as: spec.exported_as,
                        local_id: symbol,
                        owner: m.id,
                    };
                    assert(h == g.with_normal(a, m2.add_to_linked_exports(spec.exported_as, own)));
                    if x == a {
                        lemma_lookup_put(m2.linked_exports, spec.exported_as, own, name);
                    } else {
                        assert(h.modules[x] == g.modules[x]);
                    }
                },
            }
        } else {
            let m1 = m.suggest_name(spec.imported, spec.exported_as);
            let m2 = if spec.imported == star_name() {
                m1.mark_namespace_id_referenced()
            } else {
                m1
            };
            let target = m2.find_exported(spec.imported).unwrap();
            assert(h == g.with_normal(a, m2.add_to_linked_exports(spec.exported_as, target)));
            if x == a {
                lemma_lookup_put(m2.linked_exports, spec.exported_as, target, name);
            } else {
                assert(h.modules[x] == g.modules[x]);
            }
        }
    }
}

/// The names of one re-export statement, from the `j`-th on, give no module an export
/// that they do not name.
pub proof fn lemma_re_export_specs_missing(
    g: GraphView,
    a: int,
    importee: ModuleIdView,
    specs: Seq<ReExportedSpecifierView>,
    j: int,
    x: int,
    name: Seq<char>,
)
    requires
        g.inv(),
        g.is_normal(a),
        g.contains(importee),
        g.is_normal(x),
        !g.shim_missing_exports,
        0 <= j,
        a != x || !names_of_specs(specs, j).contains(name),
    ensures
        g.re_export_specs(a, importee, specs, j) matches Ok(h) ==> h.inv() && same_shape(g, h)
            && still_missing(g, h, x, name) && others_untouched(g, h, a, x),
    decreases specs.len() - j,
{
    if j < specs.len() {
        let names = names_of_specs(specs, j);
        assert(names == seq![specs[j].exported_as] + names_of_specs(specs, j + 1));
        if a == x {
            let tail = names_of_specs(specs, j + 1);
            assert(names[0] == specs[j].exported_as);
            if tail.contains(name) {
                let w = choose|w: int| 0 <= w < tail.len() && tail[w] == name;
                assert(names[w + 1] == name);
            }
        }
        lemma_re_export_one_missing(g, a, importee, specs[j], x, name);
        if let Ok(g1) = g.re_export_one(a, importee, specs[j]) {
            assert(g1.ids() == g.ids());
            lemma_re_export_specs_missing(g1, a, importee, specs, j + 1, x, name);
        }
    }
}

/// The explicit re-exports of a module, from the `k`-th importee on, give no module an
/// export that they do not name.
pub proof fn lemma_re_export_groups_missing(
    g: GraphView,
    a: int,
    groups: Seq<(ModuleIdView, Seq<ReExportedSpecifierView>)>,
    k: int,
    x: int,
    name: Seq<char>,
)
    requires
        g.inv(),
        g.is_normal(a),
        g.is_normal(x),
        !g.shim_missing_exports,
        0 <= k,
        forall|p: int| 0 <= p < groups.len() ==> g.contains((#[trigger] groups[p]).0),
        a != x || !names_of_groups(groups, k).contains(name),
    ensures
        g.re_export_groups(a, groups, k) matches Ok(h) ==> h.inv() && same_shape(g, h) && still_missing(
            g,
            h,
            x,
            name,
        ) && others_untouched(g, h, a, x),
    decreases groups.len() - k,
{
    if k < groups.len() {
        let first = names_of_specs(groups[k].1, 0);
        let rest = names_of_groups(groups, k + 1);
        assert(names_of_groups(groups, k) == first + rest);
        if a == x {
            if first.contains(name) {
                let w = choose|w: int| 0 <= w < first.len() && first[w] == name;
                assert((first + rest)[w] == name);
            }
            if rest.contains(name) {
                let w = choose|w: int| 0 <= w < rest.len() && rest[w] == name;
                assert((first + rest)[first.len() + w] == name);
            }
        }
        assert(g.contains(groups[k].0));
        lemma_re_export_specs_missing(g, a, groups[k].0, groups[k].1, 0, x, name);
        if let Ok(g1) = g.re_export_specs(a, groups[k].0, groups[k].1, 0) {
            assert(g1.ids() == g.ids());
            assert forall|p: int| 0 <= p < groups.len() implies g1.contains((#[trigger] groups[p]).0) by {
                assert(g.contains(groups[p].0));
            }
            lemma_re_export_groups_missing(g1, a, groups, k + 1, x, name);
        }
    }
}

/// The wildcard re-exports of a module leave its explicit re-exports as they are.
pub proof fn lemma_re_export_all_targets_ids(
    g: GraphView,
    a: int,
    targets: Seq<ModuleIdView>,
    explicit: ExportTable,
    entries: ExportTable,
    t: int,
)
    requires
        g.inv(),
        g.is_normal(a),
        forall|k: int| 0 <= k < targets.len() ==> g.contains(#[trigger] targets[k]),
    ensures
        g.re_export_all_targets(a, targets, explicit, entries, t).normal(a).re_exported_ids == g.normal(
            a,
        ).re_exported_ids,
    decreases targets.len() - t,
{
    if 0 <= t < targets.len() {
        let target = targets[t];
        let m = g.normal(a);
        let h = g.re_export_all_from(a, target, explicit, entries);
        assert(g.contains(target));
        lemma_re_export_all_from_inv(g, a, target, explicit, entries);
        if target != m.id {
            lemma_index_of(g, target);
            match g.modules[g.index_of(target).unwrap()] {
                ModuleView::Normal(source) => {
                    let m1 = NormalModuleView {
                        re_export_all: insert_all(m.re_export_all, source.re_export_all),
                        ..m
                    };
                    lemma_copy_wildcard_exports_refs(m1, source.linked_exports, explicit, entries, 0);
                },
                ModuleView::External(_) => {},
            }
        }
        assert(h.normal(a).re_exported_ids == m.re_exported_ids);
        assert(h.ids() == g.ids());
        assert forall|k: int| 0 <= k < targets.len() implies h.contains(#[trigger] targets[k]) by {
            assert(g.contains(targets[k]));
        }
        lemma_re_export_all_targets_ids(h, a, targets, explicit, entries, t + 1);
    }
}

/// The exports pass for one module leaves `default` out of the export table of a module
/// that has no `default` export and re-exports no name as `default`.
pub proof fn lemma_link_module_exports_default(g: GraphView, a: int, x: int)
    requires
        g.inv(),
        g.is_normal(a),
        g.is_normal(x),
        !g.shim_missing_exports,
        !names_of_groups(g.normal(x).re_exported_ids, 0).contains(default_name()),
    ensures
        g.link_module_exports(a) matches Ok(h) ==> h.inv() && same_shape(g, h) && still_missing(
            g,
            h,
            x,
            default_name(),
        ),
{
    let groups = g.normal(a).re_exported_ids;
    assert(g.module_closed(g.normal(a)));
    lemma_re_export_groups_missing(g, a, groups, 0, x, default_name());
    if let Ok(g1) = g.re_export_groups(a, groups, 0) {
        assert(g1.ids() == g.ids());
        assert(g1.is_normal(a));
        let targets = g1.normal(a).re_export_all;
        assert(g1.module_closed(g1.normal(a)));
        lemma_re_export_all_targets_step(
            g1,
            a,
            targets,
            g1.normal(a).linked_exports,
            g1.wildcard_entries(targets, targets.len() as int),
            0,
        );
        let h = g1.re_export_all(a);
        if x == a {
            lemma_default_not_wildcard_propagated(g1, a);
            lemma_re_export_all_targets_ids(
                g1,
                a,
                targets,
                g1.normal(a).linked_exports,
                g1.wildcard_entries(targets, targets.len() as int),
                0,
            );
        } else {
            assert(h.modules[x] == g1.modules[x]);
        }
    }
}

/// The exports pass over the modules `order`, from the `k`-th on, leaves `default` out of
/// the export table of a module that has no `default` export and re-exports no name as
/// `default`.
pub proof fn lemma_link_exports_from_default(g: GraphView, order: Seq<ModuleIdView>, k: int, x: int)
    requires
        g.inv(),
        g.is_normal(x),
        !g.shim_missing_exports,
        0 <= k,
        forall|p: int| 0 <= p < order.len() ==> g.contains(#[trigger] order[p]),
        !names_of_groups(g.normal(x).re_exported_ids, 0).contains(default_name()),
    ensures
        g.link_exports_from(order, k) matches Ok(h) ==> still_missing(g, h, x, default_name()),
    decreases order.len() - k,
{
    if k < order.len() {
        if order[k].external {
            lemma_link_exports_from_default(g, order, k + 1, x);
        } else {
            assert(g.contains(order[k]));
            lemma_index_of(g, order[k]);
            let a = g.index_of(order[k]).unwrap();
            assert(g.ids()[a] == order[k]);
            lemma_link_module_exports_default(g, a, x);
            if let Ok(g1) = g.link_module_exports(a) {
                assert(g1.ids() == g.ids());
                assert forall|p: int| 0 <= p < order.len() implies g1.contains(#[trigger] order[p]) by {
                    assert(g.contains(order[p]));
                }
                lemma_link_exports_from_default(g1, order, k + 1, x);
            }
        }
    }
}

/// A wildcard re-export never hands on `default`: where missing exports are not shimmed,
/// a module that has no `default` export of its own and re-exports no name as `default`
/// exports no `default` when the exports pass is done, whatever its wildcard sources
/// export.
pub proof fn lemma_default_never_wildcard_propagated(g: GraphView, order: Seq<ModuleIdView>, x: int)
    requires
        g.inv(),
        g.is_normal(x),
        !g.shim_missing_exports,
        forall|p: int| 0 <= p < order.len() ==> g.contains(#[trigger] order[p]),
        g.normal(x).find_exported(default_name()) is None,
        !names_of_groups(g.normal(x).re_exported_ids, 0).contains(default_name()),
    ensures
        g.link_exports(order) matches Ok(h) ==> h.normal(x).find_exported(default_name()) is None,
{
    lemma_link_exports_from_default(g, order, 0, x);
}

/// The exports pass for one module leaves the export table, the wildcard targets and the
/// explicit re-exports of every other module as they are, where missing exports are not
/// shimmed.
pub proof fn lemma_link_module_exports_others(g: GraphView, a: int, x: int)
    requires
        g.inv(),
        g.is_normal(a),
        g.is_normal(x),
        !g.shim_missing_exports,
        a != x,
    ensures
        g.link_module_exports(a) matches Ok(h) ==> h.inv() && same_shape(g, h) && others_untouched(
            g,
            h,
            a,
            x,
        ) && h.normal(x).re_exported_ids == g.normal(x).re_exported_ids,
{
    let groups = g.normal(a).re_exported_ids;
    assert(g.module_closed(g.normal(a)));
    lemma_re_export_groups_missing(g, a, groups, 0, x, default_name());
    if let Ok(g1) = g.re_export_groups(a, groups, 0) {
        assert(g1.ids() == g.ids());
        assert(g1.is_normal(a));
        let targets = g1.normal(a).re_export_all;
        assert(g1.module_closed(g1.normal(a)));
        lemma_re_export_all_targets_step(
            g1,
            a,
            targets,
            g1.normal(a).linked_exports,
            g1.wildcard_entries(targets, targets.len() as int),
            0,
        );
        let h = g1.re_export_all(a);
        assert(h.modules[x] == g1.modules[x]);
    }
}

/// The exports pass over modules among which a module is not leaves the export table of
/// that module as it is, where missing exports are not shimmed.
pub proof fn lemma_link_exports_from_others(g: GraphView, order: Seq<ModuleIdView>, k: int, x: int)
    requires
        g.inv(),
        g.is_normal(x),
        !g.shim_missing_exports,
        0 <= k,
        forall|p: int| 0 <= p < order.len() ==> g.contains(#[trigger] order[p]),
        forall|p: int| k <= p < order.len() ==> #[trigger] order[p] != g.ids()[x],
    ensures
        g.link_exports_from(order, k) matches Ok(h) ==> h.normal(x).linked_exports == g.normal(
            x,
        ).linked_exports,
    decreases order.len() - k,
{
    if k < order.len() {
        if order[k].external {
            lemma_link_exports_from_others(g, order, k + 1, x);
        } else {
            assert(g.contains(order[k]));
            lemma_index_of(g, order[k]);
            let a = g.index_of(order[k]).unwrap();
            assert(g.ids()[a] == order[k]);
            assert(a != x);
            lemma_link_module_exports_others(g, a, x);
            if let Ok(g1) = g.link_module_exports(a) {
                assert(g1.ids() == g.ids());
                assert forall|p: int| 0 <= p < order.len() implies g1.contains(#[trigger] order[p]) by {
                    assert(g.contains(order[p]));
                }
                lemma_link_exports_from_others(g1, order, k + 1, x);
            }
        }
    }
}

/// The exports pass from the `k`-th module of `order` on, where the turn of the module at
/// `x` is the `kx`-th and the turns of its wildcard sources at `s1` and `s2` are not
/// behind it: if the two sources end up exporting different bindings under `name`, the
/// module ends up without `name`.
pub proof fn lemma_link_exports_from_conflict(
    g: GraphView,
    order: Seq<ModuleIdView>,
    k: int,
    kx: int,
    x: int,
    s1: int,
    s2: int,
    name: Seq<char>,
)
    requires
        g.inv(),
        !g.shim_missing_exports,
        order.no_duplicates(),
        forall|p: int| 0 <= p < order.len() ==> g.contains(#[trigger] order[p]),
        0 <= k <= kx < order.len(),
        g.is_normal(x),
        g.is_normal(s1),
        g.is_normal(s2),
        s1 != x,
        s2 != x,
        order[kx] == g.ids()[x],
        g.normal(x).re_export_all.contains(g.ids()[s1]),
        g.normal(x).re_export_all.contains(g.ids()[s2]),
        forall|p: int| kx < p < order.len() ==> #[trigger] order[p] != g.ids()[s1] && order[p] != g.ids()[s2],
        !has_key(g.normal(x).linked_exports, name),
        !names_of_groups(g.normal(x).re_exported_ids, 0).contains(name),
    ensures
        g.link_exports_from(order, k) matches Ok(h) ==> (h.normal(s1).find_exported(name) is Some
            && h.normal(s2).find_exported(name) is Some && h.normal(s1).find_exported(name)
            != h.normal(s2).find_exported(name) ==> h.normal(x).find_exported(name) is None),
    decreases kx - k,
{
    assert(g.contains(order[k]));
    lemma_index_of(g, order[k]);
    let a = g.index_of(order[k]).unwrap();
    assert(g.ids()[a] == order[k]);
    if k < kx {
        if order[k].external {
            lemma_link_exports_from_conflict(g, order, k + 1, kx, x, s1, s2, name);
        } else {
            assert(a != x);
            lemma_link_module_exports_others(g, a, x);
            if let Ok(g1) = g.link_module_exports(a) {
                assert(g1.ids() == g.ids());
                assert forall|p: int| 0 <= p < order.len() implies g1.contains(#[trigger] order[p]) by {
                    assert(g.contains(order[p]));
                }
                lemma_link_exports_from_conflict(g1, order, k + 1, kx, x, s1, s2, name);
            }
        }
    } else {
        assert(a == x) by {
            crate::graph::lemma_index_of_own(g, x);
        }
        assert(!order[k].external);
        let groups = g.normal(x).re_exported_ids;
        assert(g.module_closed(g.normal(x)));
        lemma_re_export_groups_missing(g, x, groups, 0, x, name);
        lemma_re_export_groups_missing(g, x, groups, 0, s1, name);
        lemma_re_export_groups_missing(g, x, groups, 0, s2, name);
        if let Ok(g1) = g.re_export_groups(x, groups, 0) {
            assert(g1.ids() == g.ids());
            assert(g1.is_normal(x) && g1.is_normal(s1) && g1.is_normal(s2));
            let targets = g1.normal(x).re_export_all;
            assert(g1.module_closed(g1.normal(x)));
            lemma_re_export_all_targets_step(
                g1,
                x,
                targets,
                g1.normal(x).linked_exports,
                g1.wildcard_entries(targets, targets.len() as int),
                0,
            );
            let g2 = g1.re_export_all(x);
            assert(g2.ids() == g.ids());
            assert forall|p: int| 0 <= p < order.len() implies g2.contains(#[trigger] order[p]) by {
                assert(g.contains(order[p]));
            }
            assert forall|p: int| kx + 1 <= p < order.len() implies #[trigger] order[p] != g2.ids()[x] by {
                assert(order[p] != order[kx]);
            }
            lemma_link_exports_from_others(g2, order, kx + 1, x);
            if s1 != x {
                assert(g2.modules[s1] == g1.modules[s1]);
                lemma_link_exports_from_others(g2, order, kx + 1, s1);
            }
            if s2 != x {
                assert(g2.modules[s2] == g1.modules[s2]);
                lemma_link_exports_from_others(g2, order, kx + 1, s2);
            }
            if let Ok(h) = g2.link_exports_from(order, kx + 1) {
                if h.normal(s1).find_exported(name) is Some && h.normal(s2).find_exported(name) is Some
                    && h.normal(s1).find_exported(name) != h.normal(s2).find_exported(name) {
                    let t1 = choose|t: int| 0 <= t < targets.len() && targets[t] == g.ids()[s1];
                    let t2 = choose|t: int| 0 <= t < targets.len() && targets[t] == g.ids()[s2];
                    crate::graph::lemma_index_of_own(g1, s1);
                    crate::graph::lemma_index_of_own(g1, s2);
                    lemma_wildcard_conflict_hidden(g1, x, t1, t2, name);
                }
            }
        }
    }
}

/// A name on which wildcard sources disagree is hidden, where missing exports are not
/// shimmed: if two other modules that are wildcard sources of a module, and whose turns in
/// the exports pass are not behind the turn of the module, end up exporting different
/// bindings under one name, the module ends up without that name, unless it exports the
/// name itself or re-exports a name under it.
pub proof fn lemma_wildcard_conflict_never_exported(
    g: GraphView,
    order: Seq<ModuleIdView>,
    kx: int,
    x: int,
    s1: int,
    s2: int,
    name: Seq<char>,
)
    requires
        g.inv(),
        !g.shim_missing_exports,
        order.no_duplicates(),
        forall|p: int| 0 <= p < order.len() ==> g.contains(#[trigger] order[p]),
        0 <= kx < order.len(),
        g.is_normal(x),
        g.is_normal(s1),
        g.is_normal(s2),
        s1 != x,
        s2 != x,
        order[kx] == g.ids()[x],
        g.normal(x).re_export_all.contains(g.ids()[s1]),
        g.normal(x).re_export_all.contains(g.ids()[s2]),
        forall|p: int| kx < p < order.len() ==> #[trigger] order[p] != g.ids()[s1] && order[p] != g.ids()[s2],
        g.normal(x).find_exported(name) is None,
        !names_of_groups(g.normal(x).re_exported_ids, 0).contains(name),
    ensures
        g.link_exports(order) matches Ok(h) ==> (h.normal(s1).find_exported(name) is Some
            && h.normal(s2).find_exported(name) is Some && h.normal(s1).find_exported(name)
            != h.normal(s2).find_exported(name) ==> h.normal(x).find_exported(name) is None),
{
    lemma_link_exports_from_conflict(g, order, 0, kx, x, s1, s2, name);
}

} // verus!
