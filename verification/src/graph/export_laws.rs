//! What the exports pass guarantees: what a wildcard re-export hands on and what it hides.

use vstd::prelude::*;
use crate::graph::link_exports::{
    agreed, copy_wildcard_exports, lemma_copy_wildcard_exports_refs, lemma_prepare_importee_inv,
    lemma_re_export_all_from_inv, lemma_re_export_one_inv, wildcard_passes, ExportTable,
};
use crate::graph::{
    lemma_index_of, lemma_tables_after, same_shape, tables_kept, warnings_kept, GraphView,
};
use crate::ident::{default_name, ModuleIdView};
use crate::module::{lemma_tables_kept, ModuleView, NormalModuleView};
use crate::specifier::ReExportedSpecifierView;
use crate::table::{
    has_key, insert_all, lemma_insert_all_members, lemma_key_index_some, lemma_lookup_put,
};

verus! {

/// Copying the exports of a wildcard source leaves alone every name that does not pass.
pub proof fn lemma_copy_wildcard_exports_keeps(
    m: NormalModuleView,
    exports: ExportTable,
    explicit: ExportTable,
    entries: ExportTable,
    i: int,
    name: Seq<char>,
)
    requires
        !wildcard_passes(explicit, entries, name),
    ensures
        copy_wildcard_exports(m, exports, explicit, entries, i).find_exported(name)
            == m.find_exported(name),
    decreases exports.len() - i,
{
    if 0 <= i < exports.len() {
        let next = if wildcard_passes(explicit, entries, exports[i].0) {
            m.add_to_linked_exports(exports[i].0, exports[i].1)
        } else {
            m
        };
        if wildcard_passes(explicit, entries, exports[i].0) {
            lemma_lookup_put(m.linked_exports, exports[i].0, exports[i].1, name);
        }
        lemma_copy_wildcard_exports_keeps(next, exports, explicit, entries, i + 1, name);
    }
}

/// The wildcard re-exports of a module leave alone every name that does not pass, and
/// every other module.
pub proof fn lemma_re_export_all_targets_keeps(
    g: GraphView,
    a: int,
    targets: Seq<ModuleIdView>,
    explicit: ExportTable,
    entries: ExportTable,
    t: int,
    name: Seq<char>,
)
    requires
        g.inv(),
        g.is_normal(a),
        forall|k: int| 0 <= k < targets.len() ==> g.contains(#[trigger] targets[k]),
        !wildcard_passes(explicit, entries, name),
    ensures
        g.re_export_all_targets(a, targets, explicit, entries, t).normal(a).find_exported(name)
            == g.normal(a).find_exported(name),
        g.re_export_all_targets(a, targets, explicit, entries, t).is_normal(a),
    decreases targets.len() - t,
{
    if 0 <= t < targets.len() {
        let target = targets[t];
        let h = g.re_export_all_from(a, target, explicit, entries);
        lemma_re_export_all_from_inv(g, a, target, explicit, entries);
        let m = g.normal(a);
        if target != m.id {
            lemma_index_of(g, target);
            match g.modules[g.index_of(target).unwrap()] {
                ModuleView::Normal(source) => {
                    let m1 = NormalModuleView {
                        re_export_all: insert_all(m.re_export_all, source.re_export_all),
                        ..m
                    };
                    lemma_copy_wildcard_exports_keeps(
                        m1,
                        source.linked_exports,
                        explicit,
                        entries,
                        0,
                        name,
                    );
                },
                ModuleView::External(_) => {},
            }
        }
        assert(h.ids() == g.ids());
        assert forall|k: int| 0 <= k < targets.len() implies h.contains(#[trigger] targets[k]) by {
            assert(g.contains(targets[k]));
        }
        lemma_re_export_all_targets_keeps(h, a, targets, explicit, entries, t + 1, name);
    }
}

/// A wildcard re-export hands on no `default`: the wildcard re-exports of a module leave its
/// `default` export as it was, whatever its wildcard sources export under that name.
pub proof fn lemma_default_not_wildcard_propagated(g: GraphView, a: int)
    requires
        g.inv(),
        g.is_normal(a),
    ensures
        g.re_export_all(a).normal(a).find_exported(default_name()) == g.normal(a).find_exported(
            default_name(),
        ),
{
    let targets = g.normal(a).re_export_all;
    assert(g.module_closed(g.normal(a)));
    lemma_re_export_all_targets_keeps(
        g,
        a,
        targets,
        g.normal(a).linked_exports,
        g.wildcard_entries(targets, targets.len() as int),
        0,
        default_name(),
    );
}

/// An explicit export wins over a wildcard: the wildcard re-exports of a module leave
/// alone every name that the module exports already.
pub proof fn lemma_explicit_export_wins(g: GraphView, a: int, name: Seq<char>)
    requires
        g.inv(),
        g.is_normal(a),
        g.normal(a).find_exported(name) is Some,
    ensures
        g.re_export_all(a).normal(a).find_exported(name) == g.normal(a).find_exported(name),
{
    let targets = g.normal(a).re_export_all;
    assert(g.module_closed(g.normal(a)));
    if !has_key(g.normal(a).linked_exports, name) {
        crate::table::lemma_key_index_none(g.normal(a).linked_exports, name);
    }
    lemma_re_export_all_targets_keeps(
        g,
        a,
        targets,
        g.normal(a).linked_exports,
        g.wildcard_entries(targets, targets.len() as int),
        0,
        name,
    );
}

/// The export tables of the wildcard sources hold every export of every normal source.
pub proof fn lemma_wildcard_entries_member(
    g: GraphView,
    targets: Seq<ModuleIdView>,
    n: int,
    t: int,
    i: int,
)
    requires
        0 <= t < n <= targets.len(),
        g.contains(targets[t]),
        g.modules[g.index_of(targets[t]).unwrap()] is Normal,
        0 <= i < g.normal(g.index_of(targets[t]).unwrap()).linked_exports.len(),
    ensures
        exists|k: int|
            0 <= k < g.wildcard_entries(targets, n).len() && #[trigger] g.wildcard_entries(
                targets,
                n,
            )[k] == g.normal(g.index_of(targets[t]).unwrap()).linked_exports[i],
    decreases n,
{
    let entries = g.wildcard_entries(targets, n);
    let before = g.wildcard_entries(targets, n - 1);
    let b = g.index_of(targets[t]).unwrap();
    let wanted = g.normal(b).linked_exports[i];
    if t == n - 1 {
        assert(entries == before + g.normal(b).linked_exports);
        assert(entries[before.len() + i] == wanted);
    } else {
        lemma_wildcard_entries_member(g, targets, n - 1, t, i);
        let k = choose|k: int| 0 <= k < before.len() && #[trigger] before[k] == wanted;
        assert(entries[k] == wanted);
    }
}

/// A name on which wildcard sources disagree is hidden: where two wildcard sources of a
/// module export different bindings under one name, the wildcard re-exports of the module
/// leave that name as it was. So the name is exported afterwards only if the module
/// exported it before, by an export of its own.
pub proof fn lemma_wildcard_conflict_hidden(g: GraphView, a: int, t1: int, t2: int, name: Seq<char>)
    requires
        g.inv(),
        g.is_normal(a),
        0 <= t1 < g.normal(a).re_export_all.len(),
        0 <= t2 < g.normal(a).re_export_all.len(),
        g.modules[g.index_of(g.normal(a).re_export_all[t1]).unwrap()] is Normal,
        g.modules[g.index_of(g.normal(a).re_export_all[t2]).unwrap()] is Normal,
        g.normal(g.index_of(g.normal(a).re_export_all[t1]).unwrap()).find_exported(name) is Some,
        g.normal(g.index_of(g.normal(a).re_export_all[t2]).unwrap()).find_exported(name) is Some,
        g.normal(g.index_of(g.normal(a).re_export_all[t1]).unwrap()).find_exported(name) != g.normal(
            g.index_of(g.normal(a).re_export_all[t2]).unwrap(),
        ).find_exported(name),
    ensures
        g.re_export_all(a).normal(a).find_exported(name) == g.normal(a).find_exported(name),
        g.normal(a).find_exported(name) is None ==> g.re_export_all(a).normal(a).find_exported(
            name,
        ) is None,
{
    let targets = g.normal(a).re_export_all;
    let n = targets.len() as int;
    let entries = g.wildcard_entries(targets, n);
    assert(g.module_closed(g.normal(a)));
    let m1 = g.normal(g.index_of(targets[t1]).unwrap());
    let m2 = g.normal(g.index_of(targets[t2]).unwrap());
    if has_key(m1.linked_exports, name) && has_key(m2.linked_exports, name) {
        lemma_key_index_some(m1.linked_exports, name);
        lemma_key_index_some(m2.linked_exports, name);
        let i1 = crate::table::key_index(m1.linked_exports, name).unwrap();
        let i2 = crate::table::key_index(m2.linked_exports, name).unwrap();
        assert(g.contains(targets[t1]) && g.contains(targets[t2]));
        lemma_wildcard_entries_member(g, targets, n, t1, i1);
        lemma_wildcard_entries_member(g, targets, n, t2, i2);
        let k1 = choose|k: int| 0 <= k < entries.len() && #[trigger] entries[k] == m1.linked_exports[i1];
        let k2 = choose|k: int| 0 <= k < entries.len() && #[trigger] entries[k] == m2.linked_exports[i2];
        assert(entries[k1].0 == name && entries[k2].0 == name);
        assert(entries[k1].1 != entries[k2].1);
        assert(!agreed(entries, name));
    }
    lemma_re_export_all_targets_keeps(g, a, targets, g.normal(a).linked_exports, entries, 0, name);
}

/// A re-export of a name of an external module gives the importer a symbol that is new:
/// the export names a symbol of the importer that it had not made before and that no
/// binding declared in source has.
pub proof fn lemma_external_re_export_fresh(
    g: GraphView,
    a: int,
    importee: ModuleIdView,
    spec: ReExportedSpecifierView,
)
    requires
        g.is_normal(a),
        g.normal(a).tables_wf(),
    ensures
        ({
            let m = g.normal(a);
            let n = g.re_export_from_external(a, importee, spec).normal(a);
            n.find_exported(spec.exported_as) matches Some(e) && e.owner == m.id && e.local_id.owner
                == m.id && e.local_id.is_synthesized() && !m.synthesized.contains(e.local_id)
                && n.synthesized == m.synthesized.push(e.local_id)
        }),
{
    let m = g.normal(a);
    let name = if spec.exported_as != default_name() {
        spec.exported_as
    } else {
        spec.imported
    };
    let symbol = m.next_symbol(name);
    let m1 = m.create_top_level_symbol(name);
    let m2 = m1.add_to_linked_imports(
        importee,
        crate::specifier::ImportedSpecifierView { imported: spec.imported, imported_as: symbol },
    );
    let own = crate::specifier::ExportedSpecifierView {
        exported_as: spec.exported_as,
        local_id: symbol,
        owner: m.id,
    };
    crate::module::lemma_next_symbol_fresh(m, name);
    crate::table::lemma_lookup_put(m2.linked_exports, spec.exported_as, own, spec.exported_as);
    assert(g.re_export_from_external(a, importee, spec).normal(a) == m2.add_to_linked_exports(
        spec.exported_as,
        own,
    ));
}

/// Every wildcard target that a module of `g` has, it has in `h`.
pub open spec fn wildcard_targets_kept(g: GraphView, h: GraphView) -> bool {
    forall|i: int, x: ModuleIdView|
        g.is_normal(i) && g.normal(i).re_export_all.contains(x)
            ==> #[trigger] h.normal(i).re_export_all.contains(x)
}

/// `h` is `g` after some steps of the exports pass: in order, with the same modules, each
/// with at least the wildcard targets that it had, and with its tables in order if they
/// were; the warnings of `g` are still there, and no symbols are joined that were not.
pub open spec fn exports_step(g: GraphView, h: GraphView) -> bool {
    h.inv() && same_shape(g, h) && wildcard_targets_kept(g, h) && tables_kept(g, h) && warnings_kept(
        g,
        h,
    ) && h.uf == g.uf
}

pub proof fn lemma_exports_step_chain(g: GraphView, h: GraphView, k: GraphView)
    requires
        exports_step(g, h),
        exports_step(h, k),
    ensures
        exports_step(g, k),
{
    assert forall|i: int, x: ModuleIdView|
        g.is_normal(i) && g.normal(i).re_export_all.contains(x) implies #[trigger] k.normal(
        i,
    ).re_export_all.contains(x) by {
        assert(h.normal(i).re_export_all.contains(x));
        assert(h.is_normal(i));
    }
}

/// An explicit re-export changes no module's wildcard targets.
pub proof fn lemma_re_export_one_step(
    g: GraphView,
    a: int,
    importee: ModuleIdView,
    spec: ReExportedSpecifierView,
)
    requires
        g.inv(),
        g.is_normal(a),
        g.contains(importee),
    ensures
        g.re_export_one(a, importee, spec) matches Ok(h) ==> exports_step(g, h) && h.normal(
            a,
        ).re_exported_ids == g.normal(a).re_exported_ids && forall|i: int|
            g.is_normal(i) ==> (#[trigger] h.normal(i)).re_export_all == g.normal(i).re_export_all,
{
    lemma_re_export_one_inv(g, a, importee, spec);
    if let Ok(h) = g.re_export_one(a, importee, spec) {
        lemma_tables_kept();
        if importee != g.normal(a).id {
            lemma_index_of(g, importee);
            let b = g.index_of(importee).unwrap();
            if g.modules[b] is Normal {
                lemma_prepare_importee_inv(g, b, spec.imported, spec.exported_as);
                let g1 = g.prepare_importee(b, spec.imported, spec.exported_as);
                crate::graph::import_laws::lemma_prepare_importee_linked(
                    g,
                    b,
                    spec.imported,
                    spec.exported_as,
                );
                assert(tables_kept(g1, h)) by {
                    if g1.tables_wf() {
                        assert(g1.modules[a].tables_wf());
                    }
                    lemma_tables_after(g1, h, a, a);
                }
                assert forall|i: int| g.is_normal(i) implies (#[trigger] h.normal(i)).re_export_all
                    == g.normal(i).re_export_all by {
                    if i != a && i != b {
                        assert(g1.modules[i] == g.modules[i]);
                        assert(h.modules[i] == g1.modules[i]);
                    }
                }
            } else {
                assert forall|i: int| g.is_normal(i) implies (#[trigger] h.normal(i)).re_export_all
                    == g.normal(i).re_export_all by {
                    if i != a {
                        assert(h.modules[i] == g.modules[i]);
                    }
                }
                assert(tables_kept(g, h)) by {
                    if g.tables_wf() {
                        let m = g.normal(a);
                        let name = if spec.exported_as != default_name() {
                            spec.exported_as
                        } else {
                            spec.imported
                        };
                        let m1 = m.create_top_level_symbol(name);
                        let m2 = m1.add_to_linked_imports(
                            importee,
                            crate::specifier::ImportedSpecifierView {
                                imported: spec.imported,
                                imported_as: m.next_symbol(name),
                            },
                        );
                        assert(g.modules[a].tables_wf());
                        assert(m1.tables_wf() && m2.tables_wf());
                    }
                    lemma_tables_after(g, h, a, a);
                }
            }
        } else {
            assert forall|i: int| g.is_normal(i) implies (#[trigger] h.normal(i)).re_export_all
                == g.normal(i).re_export_all by {
                if i != a {
                    assert(h.modules[i] == g.modules[i]);
                }
            }
            assert(tables_kept(g, h)) by {
                if g.tables_wf() {
                    let m1 = g.normal(a).suggest_name(spec.imported, spec.exported_as);
                    assert(g.modules[a].tables_wf());
                    assert(m1.tables_wf() && m1.mark_namespace_id_referenced().tables_wf());
                }
                lemma_tables_after(g, h, a, a);
            }
        }
    }
}

/// The names of one re-export statement change no module's wildcard targets.
pub proof fn lemma_re_export_specs_step(
    g: GraphView,
    a: int,
    importee: ModuleIdView,
    specs: Seq<ReExportedSpecifierView>,
    j: int,
)
    requires
        g.inv(),
        g.is_normal(a),
        g.contains(importee),
    ensures
        g.re_export_specs(a, importee, specs, j) matches Ok(h) ==> exports_step(g, h) && h.normal(
            a,
        ).re_exported_ids == g.normal(a).re_exported_ids && forall|i: int|
            g.is_normal(i) ==> (#[trigger] h.normal(i)).re_export_all == g.normal(i).re_export_all,
    decreases specs.len() - j,
{
    if 0 <= j < specs.len() {
        lemma_re_export_one_step(g, a, importee, specs[j]);
        if let Ok(g1) = g.re_export_one(a, importee, specs[j]) {
            assert(g1.ids() == g.ids());
            lemma_re_export_specs_step(g1, a, importee, specs, j + 1);
            if let Ok(h) = g1.re_export_specs(a, importee, specs, j + 1) {
                lemma_exports_step_chain(g, g1, h);
                assert forall|i: int| g.is_normal(i) implies (#[trigger] h.normal(i)).re_export_all
                    == g.normal(i).re_export_all by {
                    assert(g1.is_normal(i));
                    assert(g1.normal(i).re_export_all == g.normal(i).re_export_all);
                }
            }
        }
    } else {
        lemma_exports_step_same(g);
    }
}

pub proof fn lemma_exports_step_same(g: GraphView)
    requires
        g.inv(),
    ensures
        exports_step(g, g),
{
}

/// The explicit re-exports of a module change no module's wildcard targets.
pub proof fn lemma_re_export_groups_step(
    g: GraphView,
    a: int,
    groups: Seq<(ModuleIdView, Seq<ReExportedSpecifierView>)>,
    k: int,
)
    requires
        g.inv(),
        g.is_normal(a),
        forall|p: int| 0 <= p < groups.len() ==> g.contains((#[trigger] groups[p]).0),
    ensures
        g.re_export_groups(a, groups, k) matches Ok(h) ==> exports_step(g, h) && forall|i: int|
            g.is_normal(i) ==> (#[trigger] h.normal(i)).re_export_all == g.normal(i).re_export_all,
    decreases groups.len() - k,
{
    if 0 <= k < groups.len() {
        assert(g.contains(groups[k].0));
        lemma_re_export_specs_step(g, a, groups[k].0, groups[k].1, 0);
        if let Ok(g1) = g.re_export_specs(a, groups[k].0, groups[k].1, 0) {
            assert(g1.ids() == g.ids());
            assert forall|p: int| 0 <= p < groups.len() implies g1.contains(
                (#[trigger] groups[p]).0,
            ) by {
                assert(g.contains(groups[p].0));
            }
            lemma_re_export_groups_step(g1, a, groups, k + 1);
            if let Ok(h) = g1.re_export_groups(a, groups, k + 1) {
                lemma_exports_step_chain(g, g1, h);
                assert forall|i: int| g.is_normal(i) implies (#[trigger] h.normal(i)).re_export_all
                    == g.normal(i).re_export_all by {
                    assert(g1.is_normal(i));
                    assert(g1.normal(i).re_export_all == g.normal(i).re_export_all);
                }
            }
        }
    } else {
        lemma_exports_step_same(g);
    }
}

/// Copying the exports of a wildcard source keeps the tables of the importer in order.
pub proof fn lemma_copy_wildcard_exports_tables(
    m: NormalModuleView,
    exports: ExportTable,
    explicit: ExportTable,
    entries: ExportTable,
    i: int,
)
    requires
        m.tables_wf(),
    ensures
        copy_wildcard_exports(m, exports, explicit, entries, i).tables_wf(),
    decreases exports.len() - i,
{
    if 0 <= i < exports.len() {
        lemma_tables_kept();
        let next = if wildcard_passes(explicit, entries, exports[i].0) {
            m.add_to_linked_exports(exports[i].0, exports[i].1)
        } else {
            m
        };
        lemma_copy_wildcard_exports_tables(next, exports, explicit, entries, i + 1);
    }
}

/// A wildcard re-export gives the importer the wildcard targets of a normal source and
/// takes none away; other modules stay as they are.
pub proof fn lemma_re_export_all_from_step(
    g: GraphView,
    a: int,
    target: ModuleIdView,
    explicit: ExportTable,
    entries: ExportTable,
)
    requires
        g.inv(),
        g.is_normal(a),
        g.contains(target),
    ensures
        exports_step(g, g.re_export_all_from(a, target, explicit, entries)),
        forall|i: int|
            0 <= i < g.modules.len() && i != a ==> #[trigger] g.re_export_all_from(
                a,
                target,
                explicit,
                entries,
            ).modules[i] == g.modules[i],
        target != g.normal(a).id && g.modules[g.index_of(target).unwrap()] is Normal ==> forall|
            x: ModuleIdView,
        |
            g.normal(g.index_of(target).unwrap()).re_export_all.contains(x)
                ==> #[trigger] g.re_export_all_from(a, target, explicit, entries).normal(
                a,
            ).re_export_all.contains(x),
{
    let h = g.re_export_all_from(a, target, explicit, entries);
    lemma_re_export_all_from_inv(g, a, target, explicit, entries);
    let m = g.normal(a);
    if target != m.id {
        lemma_index_of(g, target);
        let b = g.index_of(target).unwrap();
        match g.modules[b] {
            ModuleView::Normal(source) => {
                let m1 = NormalModuleView {
                    re_export_all: insert_all(m.re_export_all, source.re_export_all),
                    ..m
                };
                lemma_copy_wildcard_exports_refs(m1, source.linked_exports, explicit, entries, 0);
                assert(h.normal(a).re_export_all == m1.re_export_all);
                assert forall|x: ModuleIdView|
                    m.re_export_all.contains(x) || source.re_export_all.contains(
                        x,
                    ) implies #[trigger] h.normal(a).re_export_all.contains(x) by {
                    lemma_insert_all_members(m.re_export_all, source.re_export_all, x);
                }
                if g.tables_wf() {
                    assert(g.modules[a].tables_wf());
                    crate::table::lemma_insert_all_distinct(m.re_export_all, source.re_export_all);
                    lemma_copy_wildcard_exports_tables(m1, source.linked_exports, explicit, entries, 0);
                }
            },
            ModuleView::External(_) => {
                if g.tables_wf() {
                    assert(g.modules[a].tables_wf());
                    crate::table::lemma_insert_distinct(m.external_modules_of_re_export_all, target);
                }
            },
        }
    }
    lemma_tables_after(g, h, a, a);
    assert forall|i: int, x: ModuleIdView|
        g.is_normal(i) && g.normal(i).re_export_all.contains(x) implies #[trigger] h.normal(
        i,
    ).re_export_all.contains(x) by {
        if i != a {
            assert(h.modules[i] == g.modules[i]);
        }
    }
}

/// The wildcard re-exports of a module give it the wildcard targets of each normal
/// source among `targets` from the `t`-th on.
pub proof fn lemma_re_export_all_targets_step(
    g: GraphView,
    a: int,
    targets: Seq<ModuleIdView>,
    explicit: ExportTable,
    entries: ExportTable,
    t: int,
)
    requires
        g.inv(),
        g.is_normal(a),
        forall|k: int| 0 <= k < targets.len() ==> g.contains(#[trigger] targets[k]),
    ensures
        exports_step(g, g.re_export_all_targets(a, targets, explicit, entries, t)),
        forall|i: int|
            0 <= i < g.modules.len() && i != a ==> #[trigger] g.re_export_all_targets(
                a,
                targets,
                explicit,
                entries,
                t,
            ).modules[i] == g.modules[i],
        forall|k: int, x: ModuleIdView|
            0 <= t <= k < targets.len() && targets[k] != g.normal(a).id && g.modules[g.index_of(
                targets[k],
            ).unwrap()] is Normal && g.normal(g.index_of(targets[k]).unwrap()).re_export_all.contains(
                x,
            ) ==> #[trigger] has_target(
                g.re_export_all_targets(a, targets, explicit, entries, t),
                a,
                k,
                x,
            ),
    decreases targets.len() - t,
{
    let r = g.re_export_all_targets(a, targets, explicit, entries, t);
    if 0 <= t < targets.len() {
        let h = g.re_export_all_from(a, targets[t], explicit, entries);
        assert(g.contains(targets[t]));
        lemma_re_export_all_from_step(g, a, targets[t], explicit, entries);
        assert(h.ids() == g.ids());
        assert forall|k: int| 0 <= k < targets.len() implies h.contains(#[trigger] targets[k]) by {
            assert(g.contains(targets[k]));
        }
        lemma_re_export_all_targets_step(h, a, targets, explicit, entries, t + 1);
        lemma_exports_step_chain(g, h, r);
        assert forall|i: int| 0 <= i < g.modules.len() && i != a implies #[trigger] r.modules[i]
            == g.modules[i] by {
            assert(h.modules[i] == g.modules[i]);
        }
        assert(h.normal(a).id == g.normal(a).id) by {
            assert(h.ids()[a] == g.ids()[a]);
        }
        assert forall|k: int, x: ModuleIdView|
            0 <= t <= k < targets.len() && targets[k] != g.normal(a).id && g.modules[g.index_of(
                targets[k],
            ).unwrap()] is Normal && g.normal(g.index_of(targets[k]).unwrap()).re_export_all.contains(
                x,
            ) implies #[trigger] has_target(r, a, k, x) by {
            lemma_index_of(g, targets[k]);
            let b = g.index_of(targets[k]).unwrap();
            assert(g.ids()[b] == targets[k]);
            assert(b != a);
            assert(h.modules[b] == g.modules[b]);
            assert(h.index_of(targets[k]) == g.index_of(targets[k]));
            if k == t {
                assert(h.normal(a).re_export_all.contains(x));
                assert(h.is_normal(a));
                assert(r.normal(a).re_export_all.contains(x));
            } else {
                assert(has_target(r, a, k, x));
            }
        }
    } else {
        lemma_exports_step_same(g);
    }
}

/// The module at `a` of `h` has the wildcard target `x`; `k` says for which of its
/// sources this is asked.
pub open spec fn has_target(h: GraphView, a: int, k: int, x: ModuleIdView) -> bool {
    h.normal(a).re_export_all.contains(x)
}

/// The exports pass for one module keeps the graph in order and takes no wildcard target
/// away; the module gets the wildcard targets of each of its normal wildcard sources.
pub proof fn lemma_link_module_exports_step(g: GraphView, a: int)
    requires
        g.inv(),
        g.is_normal(a),
    ensures
        g.link_module_exports(a) matches Ok(h) ==> exports_step(g, h) && forall|
            k: int,
            x: ModuleIdView,
        |
            0 <= k < g.normal(a).re_export_all.len() && g.normal(a).re_export_all[k] != g.normal(
                a,
            ).id && g.modules[g.index_of(g.normal(a).re_export_all[k]).unwrap()] is Normal && g.normal(
                g.index_of(g.normal(a).re_export_all[k]).unwrap(),
            ).re_export_all.contains(x) ==> #[trigger] has_target(h, a, k, x),
{
    let groups = g.normal(a).re_exported_ids;
    assert(g.module_closed(g.normal(a)));
    lemma_re_export_groups_step(g, a, groups, 0);
    if let Ok(g1) = g.re_export_groups(a, groups, 0) {
        let targets = g1.normal(a).re_export_all;
        assert(g1.is_normal(a));
        assert(targets == g.normal(a).re_export_all);
        assert(g1.module_closed(g1.normal(a)));
        let explicit = g1.normal(a).linked_exports;
        let entries = g1.wildcard_entries(targets, targets.len() as int);
        lemma_re_export_all_targets_step(g1, a, targets, explicit, entries, 0);
        let h = g1.re_export_all_targets(a, targets, explicit, entries, 0);
        lemma_exports_step_chain(g, g1, h);
        assert(g1.normal(a).id == g.normal(a).id) by {
            assert(g1.ids()[a] == g.ids()[a]);
        }
        assert forall|k: int, x: ModuleIdView|
            0 <= k < g.normal(a).re_export_all.len() && g.normal(a).re_export_all[k] != g.normal(
                a,
            ).id && g.modules[g.index_of(g.normal(a).re_export_all[k]).unwrap()] is Normal && g.normal(
                g.index_of(g.normal(a).re_export_all[k]).unwrap(),
            ).re_export_all.contains(x) implies #[trigger] has_target(h, a, k, x) by {
            assert(g.contains(targets[k]));
            lemma_index_of(g, targets[k]);
            let b = g.index_of(targets[k]).unwrap();
            assert(g1.index_of(targets[k]) == g.index_of(targets[k]));
            assert(g1.is_normal(b));
            assert(g1.normal(b).re_export_all == g.normal(b).re_export_all);
            assert(has_target(h, a, k, x));
        }
    }
}

/// The exports pass keeps the graph in order and takes no wildcard target away.
pub proof fn lemma_link_exports_step(g: GraphView, order: Seq<ModuleIdView>, k: int)
    requires
        g.inv(),
        forall|p: int| 0 <= p < order.len() ==> g.contains(#[trigger] order[p]),
    ensures
        g.link_exports_from(order, k) matches Ok(h) ==> exports_step(g, h),
    decreases order.len() - k,
{
    if 0 <= k < order.len() {
        if order[k].external {
            lemma_link_exports_step(g, order, k + 1);
        } else {
            assert(g.contains(order[k]));
            lemma_index_of(g, order[k]);
            let a = g.index_of(order[k]).unwrap();
            assert(g.ids()[a] == order[k]);
            lemma_link_module_exports_step(g, a);
            if let Ok(g1) = g.link_module_exports(a) {
                assert(g1.ids() == g.ids());
                assert forall|p: int| 0 <= p < order.len() implies g1.contains(
                    #[trigger] order[p],
                ) by {
                    assert(g.contains(order[p]));
                }
                lemma_link_exports_step(g1, order, k + 1);
                if let Ok(h) = g1.link_exports_from(order, k + 1) {
                    lemma_exports_step_chain(g, g1, h);
                }
            }
        }
    } else {
        lemma_exports_step_same(g);
    }
}

/// The exports pass over `order` from the `j`-th module on, where `A` is the `k`-th and
/// not before the `j`-th, leaves `A` with the wildcard targets of its wildcard source `B`.
pub proof fn lemma_re_export_transitive(
    g: GraphView,
    order: Seq<ModuleIdView>,
    j: int,
    k: int,
    a: int,
    b: int,
    c: ModuleIdView,
)
    requires
        g.inv(),
        forall|p: int| 0 <= p < order.len() ==> g.contains(#[trigger] order[p]),
        0 <= j <= k < order.len(),
        g.is_normal(a),
        order[k] == g.normal(a).id,
        g.is_normal(b),
        a != b,
        g.normal(a).re_export_all.contains(g.normal(b).id),
        g.normal(b).re_export_all.contains(c),
    ensures
        g.link_exports_from(order, j) matches Ok(h) ==> h.normal(a).re_export_all.contains(c),
    decreases k - j,
{
    assert(g.ids()[a] == g.normal(a).id);
    assert(g.ids()[b] == g.normal(b).id);
    assert(!order[k].external);
    if j < k {
        if order[j].external {
            lemma_re_export_transitive(g, order, j + 1, k, a, b, c);
        } else {
            assert(g.contains(order[j]));
            lemma_index_of(g, order[j]);
            let i = g.index_of(order[j]).unwrap();
            assert(g.ids()[i] == order[j]);
            lemma_link_module_exports_step(g, i);
            if let Ok(g1) = g.link_module_exports(i) {
                assert(g1.ids() == g.ids());
                assert forall|p: int| 0 <= p < order.len() implies g1.contains(
                    #[trigger] order[p],
                ) by {
                    assert(g.contains(order[p]));
                }
                assert(g1.ids()[a] == g.ids()[a]);
                assert(g1.ids()[b] == g.ids()[b]);
                assert(g1.normal(a).re_export_all.contains(g.normal(b).id));
                assert(g1.normal(b).re_export_all.contains(c));
                lemma_re_export_transitive(g1, order, j + 1, k, a, b, c);
            }
        }
    } else {
        crate::graph::lemma_index_of_own(g, a);
        lemma_link_module_exports_step(g, a);
        if let Ok(g1) = g.link_module_exports(a) {
            let targets = g.normal(a).re_export_all;
            let t = choose|t: int| 0 <= t < targets.len() && targets[t] == g.normal(b).id;
            crate::graph::lemma_index_of_own(g, b);
            assert(targets[t] != g.normal(a).id) by {
                if targets[t] == g.normal(a).id {
                    assert(g.ids()[a] == g.ids()[b]);
                }
            }
            assert(has_target(g1, a, t, c));
            assert(g1.ids() == g.ids());
            assert forall|p: int| 0 <= p < order.len() implies g1.contains(#[trigger] order[p]) by {
                assert(g.contains(order[p]));
            }
            lemma_link_exports_step(g1, order, k + 1);
            if let Ok(h) = g1.link_exports_from(order, k + 1) {
                assert(g1.is_normal(a));
                assert(h.normal(a).re_export_all.contains(c));
            }
        }
    }
}

/// Wildcard re-exports carry on: where `A` re-exports all of the normal module `B`, and `B`
/// re-exports all of `C`, and `A` is among the modules `order`, then after the exports
/// pass over `order` the module `A` re-exports all of `C` too.
pub proof fn lemma_re_export_transitivity(
    g: GraphView,
    order: Seq<ModuleIdView>,
    a: int,
    b: int,
    c: ModuleIdView,
)
    requires
        g.inv(),
        forall|p: int| 0 <= p < order.len() ==> g.contains(#[trigger] order[p]),
        g.is_normal(a),
        order.contains(g.normal(a).id),
        g.is_normal(b),
        a != b,
        g.normal(a).re_export_all.contains(g.normal(b).id),
        g.normal(b).re_export_all.contains(c),
    ensures
        g.link_exports(order) matches Ok(h) ==> h.normal(a).re_export_all.contains(c),
{
    let k = choose|k: int| 0 <= k < order.len() && order[k] == g.normal(a).id;
    lemma_re_export_transitive(g, order, 0, k, a, b, c);
}

} // verus!
