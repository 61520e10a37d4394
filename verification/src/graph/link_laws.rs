//! What the link guarantees as a whole: after the exports pass over a graph as the loader
//! leaves it, the graph is linked, so that the imports pass ends with sound imports.

use vstd::prelude::*;
use crate::graph::export_laws::lemma_wildcard_entries_member;
use crate::graph::import_laws::{
    backed, externals_external, grounded, import_sound, imports_step, lemma_backed_kept,
    lemma_imports_step_same, linked, recorded, sound, symbol_known,
};
use crate::graph::link_exports::{
    agreed, copy_wildcard_exports, lemma_prepare_importee_inv, lemma_re_export_all_from_inv,
    lemma_re_export_one_inv, wildcard_passes, ExportTable,
};
use crate::graph::{
    lemma_index_of, lemma_index_of_own, same_shape, tables_kept, warnings_kept, GraphView,
};
use crate::ident::{default_name, star_name, ModuleIdView};
use crate::module::{ModuleView, NormalModuleView};
use crate::specifier::{ExportedSpecifierView, ImportedSpecifierView, ReExportedSpecifierView};
use crate::table::{
    has_key, insert_all, key_index, keys_distinct, lemma_key_index_first, lemma_key_index_none,
    lemma_key_index_some, lemma_lookup_put, lookup, put,
};

verus! {

/// Every linked import of every module is an import from an external module.
pub open spec fn imports_external(g: GraphView) -> bool {
    forall|i: int, p: int|
        g.is_normal(i) && 0 <= p < g.normal(i).linked_imports.len() ==> (
        #[trigger] g.normal(i).linked_imports[p]).0.external
}

/// The state that the exports pass keeps.
pub open spec fn exports_ready(g: GraphView) -> bool {
    &&& g.inv()
    &&& grounded(g)
    &&& imports_external(g)
    &&& externals_external(g)
}

/// A graph that is ready for the exports pass is linked.
pub proof fn lemma_ready_is_linked(g: GraphView)
    requires
        exports_ready(g),
    ensures
        linked(g),
{
    assert forall|i: int, p: int, q: int|
        g.is_normal(i) && 0 <= p < g.normal(i).linked_imports.len() && 0 <= q < g.normal(
            i,
        ).linked_imports[p].1.len() implies import_sound(
        g,
        g.normal(i).linked_imports[p].0,
        #[trigger] g.normal(i).linked_imports[p].1[q],
    ) by {
        assert(g.normal(i).linked_imports[p].0.external);
    }
}

/// The names under which the specifiers `specs`, from the `j`-th on, export.
pub open spec fn names_of_specs(specs: Seq<ReExportedSpecifierView>, j: int) -> Seq<Seq<char>>
    decreases specs.len() - j,
{
    if 0 <= j < specs.len() {
        seq![specs[j].exported_as] + names_of_specs(specs, j + 1)
    } else {
        Seq::empty()
    }
}

/// The names under which the explicit re-exports `groups`, from the `k`-th importee on,
/// export.
pub open spec fn names_of_groups(groups: Seq<(ModuleIdView, Seq<ReExportedSpecifierView>)>, k: int) -> Seq<
    Seq<char>,
>
    decreases groups.len() - k,
{
    if 0 <= k < groups.len() {
        names_of_specs(groups[k].1, 0) + names_of_groups(groups, k + 1)
    } else {
        Seq::empty()
    }
}

/// The names `names` differ from each other and from every name that `table` exports.
pub open spec fn fresh_names(table: ExportTable, names: Seq<Seq<char>>) -> bool {
    names.no_duplicates() && forall|i: int| 0 <= i < names.len() ==> !has_key(table, #[trigger] names[i])
}

/// No name is exported twice by the module as it is scanned: its explicit re-exports
/// export under names that differ from each other and from the names of its own exports.
pub open spec fn explicit_fresh(m: NormalModuleView) -> bool {
    fresh_names(m.linked_exports, names_of_groups(m.re_exported_ids, 0))
}

/// The export table of the module at `a` is what it was with one export more, under
/// `name`; all else that the exports pass reads is as it was.
pub open spec fn one_export_more(g: GraphView, h: GraphView, a: int, name: Seq<char>) -> bool {
    &&& h.normal(a).linked_exports.len() == g.normal(a).linked_exports.len() + 1
    &&& h.normal(a).linked_exports.take(g.normal(a).linked_exports.len() as int) == g.normal(
        a,
    ).linked_exports
    &&& h.normal(a).linked_exports.last().0 == name
    &&& forall|i: int|
        g.is_normal(i) ==> (#[trigger] h.normal(i)).re_exported_ids == g.normal(i).re_exported_ids
            && h.normal(i).re_export_all == g.normal(i).re_export_all
}

/// The export tables of the modules other than the one at `a` export what they exported,
/// and the module at `b`, if missing exports are shimmed, perhaps `asked` besides.
pub open spec fn others_shimmed(g: GraphView, h: GraphView, a: int, b: int, asked: Seq<char>) -> bool {
    forall|i: int, name: Seq<char>|
        g.is_normal(i) && i != a && #[trigger] has_key(h.normal(i).linked_exports, name) ==> has_key(
            g.normal(i).linked_exports,
            name,
        ) || (g.shim_missing_exports && i == b && name == asked)
}

/// A table with one entry more under a name that it did not have answers as before for
/// every other name.
pub proof fn lemma_push_fresh(table: ExportTable, name: Seq<char>, e: ExportedSpecifierView)
    requires
        !has_key(table, name),
    ensures
        put(table, name, e) == table.push((name, e)),
        forall|q: Seq<char>|
            #[trigger] lookup(table.push((name, e)), q) == (if q == name {
                Some(e)
            } else {
                lookup(table, q)
            }),
        forall|q: Seq<char>|
            #[trigger] has_key(table.push((name, e)), q) == (q == name || has_key(table, q)),
{
    assert forall|q: Seq<char>|
        #[trigger] lookup(table.push((name, e)), q) == (if q == name {
            Some(e)
        } else {
            lookup(table, q)
        }) by {
        lemma_lookup_put(table, name, e, q);
    }
    assert forall|q: Seq<char>|
        #[trigger] has_key(table.push((name, e)), q) == (q == name || has_key(table, q)) by {
        lemma_lookup_put(table, name, e, q);
    }
}

/// What keeps a graph ready: a step that keeps it in order, leaves every answer of every
/// export table as it was, and adds only backed exports, imports from external modules and
/// external wildcard sources.
pub proof fn lemma_ready_after(g: GraphView, h: GraphView)
    requires
        exports_ready(g),
        h.inv(),
        imports_step(g, h),
        forall|i: int, k: int|
            h.is_normal(i) && 0 <= k < h.normal(i).linked_exports.len() ==> backed(
                h,
                (#[trigger] h.normal(i).linked_exports[k]).1,
            ) || (k < g.normal(i).linked_exports.len() && h.normal(i).linked_exports[k]
                == g.normal(i).linked_exports[k]),
        imports_external(h),
        externals_external(h),
    ensures
        exports_ready(h),
{
    assert forall|i: int, k: int|
        h.is_normal(i) && 0 <= k < h.normal(i).linked_exports.len() implies backed(
        h,
        (#[trigger] h.normal(i).linked_exports[k]).1,
    ) by {
        if !backed(h, h.normal(i).linked_exports[k].1) {
            assert(g.is_normal(i));
            assert(backed(g, g.normal(i).linked_exports[k].1));
            lemma_backed_kept(g, h, g.normal(i).linked_exports[k].1);
        }
    }
}

/// Preparing an importee keeps the graph ready. Its export table exports what it
/// exported and, if missing exports are shimmed, perhaps `imported` besides; nothing else
/// that the exports pass reads changes.
pub proof fn lemma_prepare_importee_ready(g: GraphView, b: int, imported: Seq<char>, suggested: Seq<char>)
    requires
        exports_ready(g),
        g.is_normal(b),
    ensures
        exports_ready(g.prepare_importee(b, imported, suggested)),
        same_shape(g, g.prepare_importee(b, imported, suggested)),
        g.prepare_importee(b, imported, suggested).uf == g.uf,
        forall|i: int|
            0 <= i < g.modules.len() && i != b ==> #[trigger] g.prepare_importee(
                b,
                imported,
                suggested,
            ).modules[i] == g.modules[i],
        g.prepare_importee(b, imported, suggested).normal(b).re_exported_ids == g.normal(
            b,
        ).re_exported_ids,
        g.prepare_importee(b, imported, suggested).normal(b).re_export_all == g.normal(
            b,
        ).re_export_all,
        forall|name: Seq<char>| #[trigger]
            has_key(g.prepare_importee(b, imported, suggested).normal(b).linked_exports, name)
                ==> has_key(g.normal(b).linked_exports, name) || (g.shim_missing_exports && name
                == imported),
{
    let h = g.prepare_importee(b, imported, suggested);
    lemma_ready_is_linked(g);
    crate::graph::import_laws::lemma_prepare_importee_linked(g, b, imported, suggested);
    let m = g.normal(b);
    let m1 = m.suggest_name(imported, suggested);
    let m2 = if imported == star_name() {
        m1.mark_namespace_id_referenced()
    } else {
        m1
    };
    crate::module::lemma_shim_idempotent(m2, imported);
    assert forall|name: Seq<char>| #[trigger]
        has_key(h.normal(b).linked_exports, name) implies has_key(m.linked_exports, name) || (
    g.shim_missing_exports && name == imported) by {
        if g.shim_missing_exports && m2.find_exported(imported) is None {
            if has_key(m2.linked_exports, imported) {
                lemma_key_index_some(m2.linked_exports, imported);
            }
            lemma_push_fresh(m2.linked_exports, imported, m2.shim_for(imported));
        }
    }
    assert forall|i: int, p: int|
        h.is_normal(i) && 0 <= p < h.normal(i).linked_imports.len() implies (
    #[trigger] h.normal(i).linked_imports[p]).0.external by {
        assert(g.is_normal(i));
        if i != b {
            assert(h.modules[i] == g.modules[i]);
        }
        assert(g.normal(i).linked_imports[p].0.external);
    }
}

/// An explicit re-export under a name that the importer does not export yet keeps the
/// graph ready and gives the importer one export more.
pub proof fn lemma_re_export_one_ready(
    g: GraphView,
    a: int,
    importee: ModuleIdView,
    spec: ReExportedSpecifierView,
)
    requires
        exports_ready(g),
        g.is_normal(a),
        g.contains(importee),
        !has_key(g.normal(a).linked_exports, spec.exported_as),
    ensures
        g.re_export_one(a, importee, spec) matches Ok(h) ==> exports_ready(h) && same_shape(g, h)
            && one_export_more(g, h, a, spec.exported_as) && others_shimmed(
            g,
            h,
            a,
            g.index_of(importee).unwrap(),
            spec.imported,
        ),
{
    lemma_re_export_one_inv(g, a, importee, spec);
    if let Ok(h) = g.re_export_one(a, importee, spec) {
        crate::graph::export_laws::lemma_re_export_one_step(g, a, importee, spec);
        let m = g.normal(a);
        lemma_index_of_own(g, a);
        assert(g.ids()[a] == m.id);
        assert(!m.id.external);
        let n = h.normal(a);
        assert(h.is_normal(a));
        lemma_index_of_own(h, a);
        assert(h.ids()[a] == m.id);
        if importee == m.id {
            let m1 = m.suggest_name(spec.imported, spec.exported_as);
            let m2 = if spec.imported == star_name() {
                m1.mark_namespace_id_referenced()
            } else {
                m1
            };
            let target = m2.find_exported(spec.imported).unwrap();
            lemma_push_fresh(m.linked_exports, spec.exported_as, target);
            assert(n == m2.add_to_linked_exports(spec.exported_as, target));
            assert(n.linked_exports == m.linked_exports.push((spec.exported_as, target)));
            if has_key(m.linked_exports, spec.imported) {
                lemma_key_index_some(m.linked_exports, spec.imported);
            }
            let w = key_index(m.linked_exports, spec.imported).unwrap();
            assert(m.linked_exports[w].1 == target);
            assert(backed(g, m.linked_exports[w].1));
            crate::graph::import_laws::lemma_recorded_kept(g, h, a);
            lemma_step_facts(g, h, a, spec.exported_as, target);
        } else {
            lemma_index_of(g, importee);
            let b = g.index_of(importee).unwrap();
            assert(g.ids()[b] == importee);
            assert(b != a);
            match g.modules[b] {
                ModuleView::Normal(source) => {
                    lemma_prepare_importee_ready(g, b, spec.imported, spec.exported_as);
                    let g1 = g.prepare_importee(b, spec.imported, spec.exported_as);
                    assert(g1.modules[a] == g.modules[a]);
                    assert(g1.is_normal(b));
                    let table = g1.normal(b).linked_exports;
                    let target = g1.normal(b).find_exported(spec.imported).unwrap();
                    lemma_push_fresh(m.linked_exports, spec.exported_as, target);
                    assert(n.linked_exports == m.linked_exports.push((spec.exported_as, target)));
                    if has_key(table, spec.imported) {
                        lemma_key_index_some(table, spec.imported);
                    }
                    let w = key_index(table, spec.imported).unwrap();
                    assert(table[w].1 == target);
                    assert(backed(g1, g1.normal(b).linked_exports[w].1));
                    assert(tables_kept(g1, h)) by {
                        crate::module::lemma_tables_kept();
                        if g1.tables_wf() {
                            assert(g1.modules[a].tables_wf());
                        }
                        crate::graph::lemma_tables_after(g1, h, a, a);
                    }
                    crate::graph::import_laws::lemma_recorded_kept(g1, h, a);
                    lemma_step_facts(g1, h, a, spec.exported_as, target);
                    assert forall|i: int| g.is_normal(i) implies (
                    #[trigger] h.normal(i)).re_exported_ids == g.normal(i).re_exported_ids
                        && h.normal(i).re_export_all == g.normal(i).re_export_all by {
                        assert(g1.is_normal(i));
                        if i != b {
                            assert(g1.modules[i] == g.modules[i]);
                        }
                    }
                    assert forall|i: int, name: Seq<char>|
                        g.is_normal(i) && i != a && #[trigger] has_key(
                            h.normal(i).linked_exports,
                            name,
                        ) implies has_key(g.normal(i).linked_exports, name) || (
                    g.shim_missing_exports && i == b && name == spec.imported) by {
                        assert(h.modules[i] == g1.modules[i]);
                        if i != b {
                            assert(g1.modules[i] == g.modules[i]);
                        } else {
                            assert(has_key(g1.normal(b).linked_exports, name));
                        }
                    }
                },
                ModuleView::External(_) => {
                    let name = if spec.exported_as != default_name() {
                        spec.exported_as
                    } else {
                        spec.imported
                    };
                    let symbol = m.next_symbol(name);
                    let own = ExportedSpecifierView {
                        exported_as: spec.exported_as,
                        local_id: symbol,
                        owner: m.id,
                    };
                    lemma_push_fresh(m.linked_exports, spec.exported_as, own);
                    assert(n.linked_exports == m.linked_exports.push((spec.exported_as, own)));
                    assert(importee.external);
                    assert(backed(h, own));
                    assert forall|p: int| 0 <= p < n.linked_imports.len() implies (
                    #[trigger] n.linked_imports[p]).0.external by {
                        let m1 = m.create_top_level_symbol(name);
                        match key_index(m1.linked_imports, importee) {
                            Some(i) => {
                                if has_key(m1.linked_imports, importee) {
                                    lemma_key_index_some(m1.linked_imports, importee);
                                }
                                if p != i {
                                    assert(m.linked_imports[p].0.external);
                                }
                            },
                            None => {
                                if p < m.linked_imports.len() {
                                    assert(m.linked_imports[p].0.external);
                                }
                            },
                        }
                    }
                    crate::graph::import_laws::lemma_add_to_linked_imports_recorded(
                        g,
                        h,
                        a,
                        importee,
                        ImportedSpecifierView { imported: spec.imported, imported_as: symbol },
                    );
                    lemma_step_facts(g, h, a, spec.exported_as, own);
                },
            }
        }
    }
}

/// The common end of the cases of an explicit re-export: the importer at `a` has gained
/// the export `e` under the fresh name `name`, and all other modules are as they were.
proof fn lemma_step_facts(g: GraphView, h: GraphView, a: int, name: Seq<char>, e: ExportedSpecifierView)
    requires
        exports_ready(g),
        h.inv(),
        same_shape(g, h),
        h.uf == g.uf,
        g.is_normal(a),
        h.is_normal(a),
        !has_key(g.normal(a).linked_exports, name),
        h.normal(a).linked_exports == g.normal(a).linked_exports.push((name, e)),
        h.normal(a).imports == g.normal(a).imports,
        h.normal(a).re_exported_ids == g.normal(a).re_exported_ids,
        h.normal(a).re_export_all == g.normal(a).re_export_all,
        h.normal(a).external_modules_of_re_export_all == g.normal(a).external_modules_of_re_export_all,
        forall|p: int|
            0 <= p < h.normal(a).linked_imports.len() ==> (#[trigger] h.normal(a).linked_imports[p]).0.external,
        forall|i: int| 0 <= i < g.modules.len() && i != a ==> #[trigger] h.modules[i] == g.modules[i],
        backed(g, e) || backed(h, e),
        tables_kept(g, h),
        warnings_kept(g, h),
        forall|o: ModuleIdView, s: ImportedSpecifierView| #[trigger]
            recorded(g, a, o, s) ==> recorded(h, a, o, s),
    ensures
        exports_ready(h),
        one_export_more(g, h, a, name),
        others_shimmed(g, h, a, a, name),
{
    let table = g.normal(a).linked_exports;
    lemma_push_fresh(table, name, e);
    assert(h.normal(a).linked_exports.take(table.len() as int) =~= table);
    assert forall|i: int, q: Seq<char>|
        g.is_normal(i) && g.normal(i).find_exported(q) is Some implies #[trigger] h.normal(
        i,
    ).find_exported(q) == g.normal(i).find_exported(q) by {
        if i == a {
            if q == name {
                if !has_key(table, name) {
                    lemma_key_index_none(table, name);
                }
            }
        } else {
            assert(h.modules[i] == g.modules[i]);
        }
    }
    assert forall|i: int| g.is_normal(i) implies (#[trigger] h.normal(i)).imports == g.normal(
        i,
    ).imports by {
        if i != a {
            assert(h.modules[i] == g.modules[i]);
        }
    }
    assert forall|i: int, q: Seq<char>|
        g.is_external(i) && #[trigger] symbol_known(g, i, q) implies symbol_known(h, i, q)
        && h.external(i).exported_symbol(q) == g.external(i).exported_symbol(q) by {
        assert(h.modules[i] == g.modules[i]);
    }
    crate::graph::import_laws::lemma_recorded_after(g, h, a, a);
    assert(imports_step(g, h));
    if backed(g, e) {
        lemma_backed_kept(g, h, e);
    }
    assert forall|i: int, k: int|
        h.is_normal(i) && 0 <= k < h.normal(i).linked_exports.len() implies backed(
        h,
        (#[trigger] h.normal(i).linked_exports[k]).1,
    ) || (k < g.normal(i).linked_exports.len() && h.normal(i).linked_exports[k] == g.normal(
        i,
    ).linked_exports[k]) by {
        assert(g.is_normal(i));
        if i == a {
            if k == table.len() {
                assert(h.normal(a).linked_exports[k].1 == e);
            }
        } else {
            assert(h.modules[i] == g.modules[i]);
        }
    }
    assert forall|i: int, p: int|
        h.is_normal(i) && 0 <= p < h.normal(i).linked_imports.len() implies (
    #[trigger] h.normal(i).linked_imports[p]).0.external by {
        assert(g.is_normal(i));
        if i != a {
            assert(h.modules[i] == g.modules[i]);
            assert(g.normal(i).linked_imports[p].0.external);
        }
    }
    assert forall|i: int, k: int|
        h.is_normal(i) && 0 <= k < h.normal(i).external_modules_of_re_export_all.len() implies (
    #[trigger] h.normal(i).external_modules_of_re_export_all[k]).external by {
        assert(g.is_normal(i));
        if i != a {
            assert(h.modules[i] == g.modules[i]);
        }
        assert(g.normal(i).external_modules_of_re_export_all[k].external);
    }
    lemma_ready_after(g, h);
    assert forall|i: int| g.is_normal(i) implies (#[trigger] h.normal(i)).re_exported_ids
        == g.normal(i).re_exported_ids && h.normal(i).re_export_all == g.normal(i).re_export_all by {
        if i != a {
            assert(h.modules[i] == g.modules[i]);
        }
    }
    assert forall|i: int, q: Seq<char>|
        g.is_normal(i) && i != a && #[trigger] has_key(h.normal(i).linked_exports, q) implies has_key(
        g.normal(i).linked_exports,
        q,
    ) || (g.shim_missing_exports && i == a && q == name) by {
        assert(h.modules[i] == g.modules[i]);
    }
}

/// The elements of a list of names behind its first are fresh for a table that has gained
/// the first.
proof fn lemma_fresh_tail(table: ExportTable, first: Seq<char>, e: ExportedSpecifierView, tail: Seq<Seq<char>>)
    requires
        fresh_names(table, seq![first] + tail),
    ensures
        !has_key(table, first),
        fresh_names(table.push((first, e)), tail),
{
    let all = seq![first] + tail;
    assert(all[0] == first);
    lemma_push_fresh(table, first, e);
    assert forall|i: int, j: int| 0 <= i < tail.len() && 0 <= j < tail.len() && i != j implies tail[i]
        != tail[j] by {
        assert(all[i + 1] == tail[i] && all[j + 1] == tail[j]);
    }
    assert forall|i: int| 0 <= i < tail.len() implies !has_key(
        table.push((first, e)),
        #[trigger] tail[i],
    ) by {
        assert(all[i + 1] == tail[i]);
        assert(all[0] != all[i + 1]);
        assert(!has_key(table, all[i + 1]));
    }
}

/// One of `specs`, from the `j`-th on, asks for `name`.
pub open spec fn asked_among(specs: Seq<ReExportedSpecifierView>, j: int, name: Seq<char>) -> bool {
    exists|q: int| 0 <= j <= q < specs.len() && (#[trigger] specs[q]).imported == name
}

/// The re-exports of all modules are as they were. The export tables of the modules other
/// than the one at `a` export what they exported, and the module at `b`, if missing
/// exports are shimmed, perhaps besides what `specs` ask for from the `j`-th on.
pub open spec fn others_steady(
    g: GraphView,
    h: GraphView,
    a: int,
    b: int,
    specs: Seq<ReExportedSpecifierView>,
    j: int,
) -> bool {
    &&& forall|i: int|
        g.is_normal(i) ==> (#[trigger] h.normal(i)).re_exported_ids == g.normal(i).re_exported_ids
            && h.normal(i).re_export_all == g.normal(i).re_export_all
    &&& forall|i: int, name: Seq<char>|
        g.is_normal(i) && i != a && #[trigger] has_key(h.normal(i).linked_exports, name) ==> has_key(
            g.normal(i).linked_exports,
            name,
        ) || (g.shim_missing_exports && i == b && asked_among(specs, j, name))
}

/// The names of one re-export statement, exported under fresh names, keep the graph
/// ready.
pub proof fn lemma_re_export_specs_ready(
    g: GraphView,
    a: int,
    importee: ModuleIdView,
    specs: Seq<ReExportedSpecifierView>,
    j: int,
    rest: Seq<Seq<char>>,
)
    requires
        exports_ready(g),
        g.is_normal(a),
        g.contains(importee),
        0 <= j,
        fresh_names(g.normal(a).linked_exports, names_of_specs(specs, j) + rest),
    ensures
        g.re_export_specs(a, importee, specs, j) matches Ok(h) ==> exports_ready(h) && same_shape(
            g,
            h,
        ) && fresh_names(h.normal(a).linked_exports, rest) && others_steady(
            g,
            h,
            a,
            g.index_of(importee).unwrap(),
            specs,
            j,
        ),
    decreases specs.len() - j,
{
    let b = g.index_of(importee).unwrap();
    if j < specs.len() {
        let name = specs[j].exported_as;
        let tail = names_of_specs(specs, j + 1) + rest;
        assert(names_of_specs(specs, j) + rest =~= seq![name] + tail);
        if let Ok(g1) = g.re_export_one(a, importee, specs[j]) {
            let table = g.normal(a).linked_exports;
            let e = g1.normal(a).linked_exports.last().1;
            lemma_fresh_tail(table, name, e, tail);
            lemma_re_export_one_ready(g, a, importee, specs[j]);
            assert(g1.normal(a).linked_exports =~= table.push((name, e))) by {
                let t1 = g1.normal(a).linked_exports;
                assert(t1.take(table.len() as int) == table);
                assert forall|i: int| 0 <= i < table.len() implies t1[i] == table[i] by {
                    assert(t1.take(table.len() as int)[i] == t1[i]);
                }
            }
            assert(g1.ids() == g.ids());
            lemma_re_export_specs_ready(g1, a, importee, specs, j + 1, rest);
            if let Ok(h) = g1.re_export_specs(a, importee, specs, j + 1) {
                assert forall|i: int| g.is_normal(i) implies (
                #[trigger] h.normal(i)).re_exported_ids == g.normal(i).re_exported_ids && h.normal(
                    i,
                ).re_export_all == g.normal(i).re_export_all by {
                    assert(g1.is_normal(i));
                    assert(g1.normal(i).re_exported_ids == g.normal(i).re_exported_ids);
                }
                assert forall|i: int, q: Seq<char>|
                    g.is_normal(i) && i != a && #[trigger] has_key(
                        h.normal(i).linked_exports,
                        q,
                    ) implies has_key(g.normal(i).linked_exports, q) || (g.shim_missing_exports && i
                    == b && asked_among(specs, j, q)) by {
                    assert(g1.is_normal(i));
                    if !has_key(g1.normal(i).linked_exports, q) {
                        assert(asked_among(specs, j + 1, q));
                        let w = choose|w: int| 0 <= j + 1 <= w < specs.len() && (
                        #[trigger] specs[w]).imported == q;
                        assert(specs[w].imported == q);
                    } else if !has_key(g.normal(i).linked_exports, q) {
                        assert(specs[j].imported == q);
                    }
                }
            }
        }
    } else {
        assert(names_of_specs(specs, j) + rest =~= rest);
    }
}

/// One of the explicit re-exports `groups`, from the `k`-th importee on, asks the module
/// at `i` for `name`.
pub open spec fn asked_in_groups(
    g: GraphView,
    groups: Seq<(ModuleIdView, Seq<ReExportedSpecifierView>)>,
    k: int,
    i: int,
    name: Seq<char>,
) -> bool {
    exists|p: int|
        0 <= k <= p < groups.len() && g.index_of((#[trigger] groups[p]).0) == Some(i) && asked_among(
            groups[p].1,
            0,
            name,
        )
}

/// The re-exports of all modules are as they were. The export tables of the modules other
/// than the one at `a` export what they exported and, if missing exports are shimmed,
/// perhaps besides what `groups` ask of them from the `k`-th importee on.
pub open spec fn others_asked(
    g: GraphView,
    h: GraphView,
    a: int,
    groups: Seq<(ModuleIdView, Seq<ReExportedSpecifierView>)>,
    k: int,
) -> bool {
    &&& forall|i: int|
        g.is_normal(i) ==> (#[trigger] h.normal(i)).re_exported_ids == g.normal(i).re_exported_ids
            && h.normal(i).re_export_all == g.normal(i).re_export_all
    &&& forall|i: int, name: Seq<char>|
        g.is_normal(i) && i != a && #[trigger] has_key(h.normal(i).linked_exports, name) ==> has_key(
            g.normal(i).linked_exports,
            name,
        ) || (g.shim_missing_exports && asked_in_groups(g, groups, k, i, name))
}

/// The explicit re-exports of a module, exported under fresh names, keep the graph ready.
pub proof fn lemma_re_export_groups_ready(
    g: GraphView,
    a: int,
    groups: Seq<(ModuleIdView, Seq<ReExportedSpecifierView>)>,
    k: int,
)
    requires
        exports_ready(g),
        g.is_normal(a),
        0 <= k,
        forall|p: int| 0 <= p < groups.len() ==> g.contains((#[trigger] groups[p]).0),
        fresh_names(g.normal(a).linked_exports, names_of_groups(groups, k)),
    ensures
        g.re_export_groups(a, groups, k) matches Ok(h) ==> exports_ready(h) && same_shape(g, h)
            && others_asked(g, h, a, groups, k),
    decreases groups.len() - k,
{
    if k < groups.len() {
        assert(g.contains(groups[k].0));
        lemma_re_export_specs_ready(g, a, groups[k].0, groups[k].1, 0, names_of_groups(groups, k + 1));
        if let Ok(g1) = g.re_export_specs(a, groups[k].0, groups[k].1, 0) {
            assert(g1.ids() == g.ids());
            assert forall|p: int| 0 <= p < groups.len() implies g1.contains(
                (#[trigger] groups[p]).0,
            ) by {
                assert(g.contains(groups[p].0));
            }
            lemma_re_export_groups_ready(g1, a, groups, k + 1);
            if let Ok(h) = g1.re_export_groups(a, groups, k + 1) {
                assert forall|i: int| g.is_normal(i) implies (
                #[trigger] h.normal(i)).re_exported_ids == g.normal(i).re_exported_ids && h.normal(
                    i,
                ).re_export_all == g.normal(i).re_export_all by {
                    assert(g1.is_normal(i));
                    assert(g1.normal(i).re_exported_ids == g.normal(i).re_exported_ids);
                }
                assert forall|i: int, q: Seq<char>|
                    g.is_normal(i) && i != a && #[trigger] has_key(
                        h.normal(i).linked_exports,
                        q,
                    ) implies has_key(g.normal(i).linked_exports, q) || (g.shim_missing_exports
                    && asked_in_groups(g, groups, k, i, q)) by {
                    assert(g1.is_normal(i));
                    if !has_key(g1.normal(i).linked_exports, q) {
                        assert(asked_in_groups(g1, groups, k + 1, i, q));
                        let w = choose|w: int|
                            0 <= k + 1 <= w < groups.len() && g1.index_of((#[trigger] groups[w]).0)
                                == Some(i) && asked_among(groups[w].1, 0, q);
                        assert(g.index_of(groups[w].0) == Some(i));
                    } else if !has_key(g.normal(i).linked_exports, q) {
                        assert(g.index_of(groups[k].0).unwrap() == i);
                        lemma_index_of(g, groups[k].0);
                        assert(g.index_of(groups[k].0) == Some(i));
                    }
                }
            }
        }
    }
}

/// What the export table `table` of an importer holds during its wildcard re-exports:
/// names that it exported explicitly, and names on which its wildcard sources agree, with
/// the binding on which they agree.
pub open spec fn wildcard_consistent(table: ExportTable, explicit: ExportTable, entries: ExportTable) -> bool {
    forall|name: Seq<char>|
        #[trigger] has_key(table, name) ==> has_key(explicit, name) || (agreed(entries, name)
            && lookup(table, name) == lookup(entries, name))
}

/// Copying the exports of a wildcard source changes no answer of the importer's export
/// table, and adds only exports of the source.
pub proof fn lemma_copy_wildcard_exports_ready(
    m: NormalModuleView,
    exports: ExportTable,
    explicit: ExportTable,
    entries: ExportTable,
    i: int,
)
    requires
        0 <= i,
        wildcard_consistent(m.linked_exports, explicit, entries),
        forall|k: int| 0 <= k < exports.len() ==> entries.contains(#[trigger] exports[k]),
    ensures
        ({
            let n = copy_wildcard_exports(m, exports, explicit, entries, i);
            &&& n == NormalModuleView { linked_exports: n.linked_exports, ..m }
            &&& wildcard_consistent(n.linked_exports, explicit, entries)
            &&& forall|name: Seq<char>|
                m.find_exported(name) is Some ==> #[trigger] n.find_exported(name) == m.find_exported(
                    name,
                )
            &&& forall|k: int|
                0 <= k < n.linked_exports.len() ==> (k < m.linked_exports.len()
                    && n.linked_exports[k] == m.linked_exports[k]) || exports.contains(
                    #[trigger] n.linked_exports[k],
                )
        }),
    decreases exports.len() - i,
{
    if i < exports.len() {
        let name = exports[i].0;
        let spec = exports[i].1;
        let table = m.linked_exports;
        if wildcard_passes(explicit, entries, name) {
            let next = m.add_to_linked_exports(name, spec);
            assert(entries.contains(exports[i]));
            let w = choose|w: int| 0 <= w < entries.len() && entries[w] == exports[i];
            assert(entries[w].0 == name);
            assert(lookup(entries, name) == Some(spec));
            if has_key(table, name) {
                lemma_key_index_some(table, name);
                let at = key_index(table, name).unwrap();
                assert(table[at] == (name, spec));
                assert(next.linked_exports =~= table);
            } else {
                lemma_push_fresh(table, name, spec);
            }
            assert forall|q: Seq<char>| #[trigger]
                has_key(next.linked_exports, q) implies has_key(explicit, q) || (agreed(entries, q)
                && lookup(next.linked_exports, q) == lookup(entries, q)) by {
                if !has_key(table, name) {
                    if q != name {
                        assert(has_key(table, q));
                    }
                } else {
                    assert(has_key(table, q));
                }
            }
            lemma_copy_wildcard_exports_ready(next, exports, explicit, entries, i + 1);
            let n = copy_wildcard_exports(next, exports, explicit, entries, i + 1);
            assert forall|q: Seq<char>| m.find_exported(q) is Some implies #[trigger] n.find_exported(
                q,
            ) == m.find_exported(q) by {
                if has_key(table, name) {
                } else {
                    if q == name {
                        lemma_key_index_none(table, name);
                    }
                }
                assert(next.find_exported(q) == m.find_exported(q));
            }
            assert forall|k: int| 0 <= k < n.linked_exports.len() implies (k < table.len()
                && n.linked_exports[k] == table[k]) || exports.contains(
                #[trigger] n.linked_exports[k],
            ) by {
                if k < next.linked_exports.len() && n.linked_exports[k] == next.linked_exports[k] {
                    if k >= table.len() {
                        assert(next.linked_exports[k] == exports[i]);
                    }
                }
            }
        } else {
            lemma_copy_wildcard_exports_ready(m, exports, explicit, entries, i + 1);
        }
    }
}

/// A wildcard re-export keeps the graph ready.
pub proof fn lemma_re_export_all_from_ready(
    g: GraphView,
    a: int,
    target: ModuleIdView,
    explicit: ExportTable,
    entries: ExportTable,
)
    requires
        exports_ready(g),
        g.is_normal(a),
        g.contains(target),
        wildcard_consistent(g.normal(a).linked_exports, explicit, entries),
        target != g.normal(a).id && g.modules[g.index_of(target).unwrap()] is Normal ==> forall|
            k: int,
        |
            0 <= k < g.normal(g.index_of(target).unwrap()).linked_exports.len() ==> entries.contains(
                #[trigger] g.normal(g.index_of(target).unwrap()).linked_exports[k],
            ),
    ensures
        exports_ready(g.re_export_all_from(a, target, explicit, entries)),
        same_shape(g, g.re_export_all_from(a, target, explicit, entries)),
        wildcard_consistent(
            g.re_export_all_from(a, target, explicit, entries).normal(a).linked_exports,
            explicit,
            entries,
        ),
        forall|i: int|
            0 <= i < g.modules.len() && i != a ==> #[trigger] g.re_export_all_from(
                a,
                target,
                explicit,
                entries,
            ).modules[i] == g.modules[i],
        g.re_export_all_from(a, target, explicit, entries).normal(a).re_exported_ids == g.normal(
            a,
        ).re_exported_ids,
{
    let h = g.re_export_all_from(a, target, explicit, entries);
    lemma_re_export_all_from_inv(g, a, target, explicit, entries);
    crate::graph::export_laws::lemma_re_export_all_from_step(g, a, target, explicit, entries);
    let m = g.normal(a);
    lemma_imports_step_same(g);
    if target != m.id {
        lemma_index_of(g, target);
        let b = g.index_of(target).unwrap();
        assert(g.ids()[b] == target);
        assert(h.is_normal(a));
        match g.modules[b] {
            ModuleView::Normal(source) => {
                let m1 = NormalModuleView {
                    re_export_all: insert_all(m.re_export_all, source.re_export_all),
                    ..m
                };
                lemma_copy_wildcard_exports_ready(m1, source.linked_exports, explicit, entries, 0);
                let n = copy_wildcard_exports(m1, source.linked_exports, explicit, entries, 0);
                assert(h.modules[a] == ModuleView::Normal(n));
                assert forall|i: int, q: Seq<char>|
                    g.is_normal(i) && g.normal(i).find_exported(q) is Some implies #[trigger] h.normal(
                    i,
                ).find_exported(q) == g.normal(i).find_exported(q) by {
                    if i != a {
                        assert(h.modules[i] == g.modules[i]);
                    } else {
                        assert(m1.find_exported(q) == m.find_exported(q));
                    }
                }
                assert forall|i: int| g.is_normal(i) implies (#[trigger] h.normal(i)).imports
                    == g.normal(i).imports by {
                    if i != a {
                        assert(h.modules[i] == g.modules[i]);
                    }
                }
                assert forall|i: int, q: Seq<char>|
                    g.is_external(i) && #[trigger] symbol_known(g, i, q) implies symbol_known(h, i, q)
                    && h.external(i).exported_symbol(q) == g.external(i).exported_symbol(q) by {
                    assert(h.modules[i] == g.modules[i]);
                }
                crate::graph::import_laws::lemma_recorded_kept(g, h, a);
                crate::graph::import_laws::lemma_recorded_after(g, h, a, a);
                assert(imports_step(g, h));
                assert forall|i: int, k: int|
                    h.is_normal(i) && 0 <= k < h.normal(i).linked_exports.len() implies backed(
                    h,
                    (#[trigger] h.normal(i).linked_exports[k]).1,
                ) || (k < g.normal(i).linked_exports.len() && h.normal(i).linked_exports[k]
                    == g.normal(i).linked_exports[k]) by {
                    if i != a {
                        assert(h.modules[i] == g.modules[i]);
                    } else if !(k < m.linked_exports.len() && n.linked_exports[k]
                        == m.linked_exports[k]) {
                        assert(source.linked_exports.contains(n.linked_exports[k]));
                        let w = choose|w: int|
                            0 <= w < source.linked_exports.len() && source.linked_exports[w]
                                == n.linked_exports[k];
                        assert(g.is_normal(b));
                        assert(backed(g, g.normal(b).linked_exports[w].1));
                        lemma_backed_kept(g, h, source.linked_exports[w].1);
                    }
                }
                assert forall|i: int, p: int|
                    h.is_normal(i) && 0 <= p < h.normal(i).linked_imports.len() implies (
                #[trigger] h.normal(i).linked_imports[p]).0.external by {
                    assert(g.is_normal(i));
                    if i != a {
                        assert(h.modules[i] == g.modules[i]);
                    }
                    assert(g.normal(i).linked_imports[p].0.external);
                }
                assert forall|i: int, k: int|
                    h.is_normal(i) && 0 <= k < h.normal(i).external_modules_of_re_export_all.len() implies (
                #[trigger] h.normal(i).external_modules_of_re_export_all[k]).external by {
                    assert(g.is_normal(i));
                    if i != a {
                        assert(h.modules[i] == g.modules[i]);
                    }
                    assert(g.normal(i).external_modules_of_re_export_all[k].external);
                }
                lemma_ready_after(g, h);
            },
            ModuleView::External(_) => {
                let n = h.normal(a);
                assert(target.external);
                assert forall|i: int, q: Seq<char>|
                    g.is_normal(i) && g.normal(i).find_exported(q) is Some implies #[trigger] h.normal(
                    i,
                ).find_exported(q) == g.normal(i).find_exported(q) by {
                    if i != a {
                        assert(h.modules[i] == g.modules[i]);
                    }
                }
                assert forall|i: int| g.is_normal(i) implies (#[trigger] h.normal(i)).imports
                    == g.normal(i).imports by {
                    if i != a {
                        assert(h.modules[i] == g.modules[i]);
                    }
                }
                assert forall|i: int, q: Seq<char>|
                    g.is_external(i) && #[trigger] symbol_known(g, i, q) implies symbol_known(h, i, q)
                    && h.external(i).exported_symbol(q) == g.external(i).exported_symbol(q) by {
                    assert(h.modules[i] == g.modules[i]);
                }
                crate::graph::import_laws::lemma_recorded_kept(g, h, a);
                crate::graph::import_laws::lemma_recorded_after(g, h, a, a);
                assert(imports_step(g, h));
                assert forall|i: int, k: int|
                    h.is_normal(i) && 0 <= k < h.normal(i).linked_exports.len() implies backed(
                    h,
                    (#[trigger] h.normal(i).linked_exports[k]).1,
                ) || (k < g.normal(i).linked_exports.len() && h.normal(i).linked_exports[k]
                    == g.normal(i).linked_exports[k]) by {
                    if i != a {
                        assert(h.modules[i] == g.modules[i]);
                    }
                }
                assert forall|i: int, p: int|
                    h.is_normal(i) && 0 <= p < h.normal(i).linked_imports.len() implies (
                #[trigger] h.normal(i).linked_imports[p]).0.external by {
                    assert(g.is_normal(i));
                    if i != a {
                        assert(h.modules[i] == g.modules[i]);
                    }
                    assert(g.normal(i).linked_imports[p].0.external);
                }
                assert forall|i: int, k: int|
                    h.is_normal(i) && 0 <= k < h.normal(i).external_modules_of_re_export_all.len() implies (
                #[trigger] h.normal(i).external_modules_of_re_export_all[k]).external by {
                    assert(g.is_normal(i));
                    if i != a {
                        assert(h.modules[i] == g.modules[i]);
                        assert(g.normal(i).external_modules_of_re_export_all[k].external);
                    } else {
                        let old_list = m.external_modules_of_re_export_all;
                        if k < old_list.len() {
                            assert(old_list[k].external);
                        }
                    }
                }
                lemma_ready_after(g, h);
            },
        }
    }
}

/// The export tables of the wildcard sources hold every export of each normal source
/// among `targets` from the `t`-th on, but for the importer itself.
pub open spec fn sources_covered(
    g: GraphView,
    a: int,
    targets: Seq<ModuleIdView>,
    entries: ExportTable,
    t: int,
) -> bool {
    forall|p: int, k: int|
        0 <= t <= p < targets.len() && targets[p] != g.normal(a).id && g.modules[g.index_of(
            targets[p],
        ).unwrap()] is Normal && 0 <= k < g.normal(g.index_of(targets[p]).unwrap()).linked_exports.len()
            ==> entries.contains(
            #[trigger] g.normal(g.index_of(#[trigger] targets[p]).unwrap()).linked_exports[k],
        )
}

/// The wildcard re-exports of a module keep the graph ready.
pub proof fn lemma_re_export_all_targets_ready(
    g: GraphView,
    a: int,
    targets: Seq<ModuleIdView>,
    explicit: ExportTable,
    entries: ExportTable,
    t: int,
)
    requires
        exports_ready(g),
        g.is_normal(a),
        0 <= t,
        forall|k: int| 0 <= k < targets.len() ==> g.contains(#[trigger] targets[k]),
        wildcard_consistent(g.normal(a).linked_exports, explicit, entries),
        sources_covered(g, a, targets, entries, t),
    ensures
        exports_ready(g.re_export_all_targets(a, targets, explicit, entries, t)),
        same_shape(g, g.re_export_all_targets(a, targets, explicit, entries, t)),
        forall|i: int|
            0 <= i < g.modules.len() && i != a ==> #[trigger] g.re_export_all_targets(
                a,
                targets,
                explicit,
                entries,
                t,
            ).modules[i] == g.modules[i],
        g.re_export_all_targets(a, targets, explicit, entries, t).normal(a).re_exported_ids
            == g.normal(a).re_exported_ids,
    decreases targets.len() - t,
{
    if t < targets.len() {
        let target = targets[t];
        assert(g.contains(target));
        lemma_index_of_own(g, a);
        if target != g.normal(a).id && g.modules[g.index_of(target).unwrap()] is Normal {
            assert forall|k: int|
                0 <= k < g.normal(g.index_of(target).unwrap()).linked_exports.len() implies entries.contains(
                #[trigger] g.normal(g.index_of(target).unwrap()).linked_exports[k],
            ) by {
                assert(entries.contains(g.normal(g.index_of(targets[t]).unwrap()).linked_exports[k]));
            }
        }
        lemma_re_export_all_from_ready(g, a, target, explicit, entries);
        let h = g.re_export_all_from(a, target, explicit, entries);
        assert(h.ids() == g.ids());
        assert(h.is_normal(a));
        assert(h.normal(a).id == g.normal(a).id) by {
            assert(h.ids()[a] == g.ids()[a]);
        }
        assert forall|k: int| 0 <= k < targets.len() implies h.contains(#[trigger] targets[k]) by {
            assert(g.contains(targets[k]));
        }
        assert forall|p: int, k: int|
            0 <= t + 1 <= p < targets.len() && targets[p] != h.normal(a).id && h.modules[h.index_of(
                targets[p],
            ).unwrap()] is Normal && 0 <= k < h.normal(
                h.index_of(targets[p]).unwrap(),
            ).linked_exports.len() implies entries.contains(
            #[trigger] h.normal(h.index_of(#[trigger] targets[p]).unwrap()).linked_exports[k],
        ) by {
            assert(g.contains(targets[p]));
            lemma_index_of(g, targets[p]);
            let b = g.index_of(targets[p]).unwrap();
            assert(g.ids()[b] == targets[p]);
            assert(b != a);
            assert(h.modules[b] == g.modules[b]);
            assert(entries.contains(g.normal(g.index_of(targets[p]).unwrap()).linked_exports[k]));
        }
        lemma_re_export_all_targets_ready(h, a, targets, explicit, entries, t + 1);
        let r = h.re_export_all_targets(a, targets, explicit, entries, t + 1);
        assert forall|i: int| 0 <= i < g.modules.len() && i != a implies #[trigger] r.modules[i]
            == g.modules[i] by {
            assert(h.modules[i] == g.modules[i]);
        }
    }
}

/// With missing exports shimmed, the explicit re-exports of the module at `a` ask the
/// module at `i` for `name`.
pub open spec fn asked_by(g: GraphView, a: int, i: int, name: Seq<char>) -> bool {
    g.shim_missing_exports && asked_in_groups(g, g.normal(a).re_exported_ids, 0, i, name)
}

/// The exports pass for a module that exports no name twice keeps the graph ready. The
/// other modules keep their explicit re-exports, and export what they exported and
/// perhaps what the module asked of them.
pub proof fn lemma_link_module_exports_ready(g: GraphView, a: int)
    requires
        exports_ready(g),
        g.is_normal(a),
        explicit_fresh(g.normal(a)),
    ensures
        g.link_module_exports(a) matches Ok(h) ==> exports_ready(h) && same_shape(g, h) && (forall|
            i: int,
        |
            g.is_normal(i) ==> (#[trigger] h.normal(i)).re_exported_ids == g.normal(
                i,
            ).re_exported_ids) && (forall|i: int, name: Seq<char>|
            g.is_normal(i) && i != a && #[trigger] has_key(h.normal(i).linked_exports, name)
                ==> has_key(g.normal(i).linked_exports, name) || asked_by(g, a, i, name)),
{
    let groups = g.normal(a).re_exported_ids;
    assert(g.module_closed(g.normal(a)));
    lemma_re_export_groups_ready(g, a, groups, 0);
    if let Ok(g1) = g.re_export_groups(a, groups, 0) {
        assert(g1.is_normal(a));
        let targets = g1.normal(a).re_export_all;
        let n = targets.len() as int;
        let explicit = g1.normal(a).linked_exports;
        let entries = g1.wildcard_entries(targets, n);
        assert(g1.module_closed(g1.normal(a)));
        assert forall|p: int, k: int|
            0 <= p < targets.len() && targets[p] != g1.normal(a).id && g1.modules[g1.index_of(
                targets[p],
            ).unwrap()] is Normal && 0 <= k < g1.normal(
                g1.index_of(targets[p]).unwrap(),
            ).linked_exports.len() implies entries.contains(
            #[trigger] g1.normal(g1.index_of(#[trigger] targets[p]).unwrap()).linked_exports[k],
        ) by {
            assert(g1.contains(targets[p]));
            lemma_wildcard_entries_member(g1, targets, n, p, k);
        }
        lemma_re_export_all_targets_ready(g1, a, targets, explicit, entries, 0);
        let h = g1.re_export_all_targets(a, targets, explicit, entries, 0);
        assert forall|i: int| g.is_normal(i) implies (#[trigger] h.normal(i)).re_exported_ids
            == g.normal(i).re_exported_ids by {
            assert(g1.is_normal(i));
            if i != a {
                assert(h.modules[i] == g1.modules[i]);
            }
            assert(g1.normal(i).re_exported_ids == g.normal(i).re_exported_ids);
        }
        assert forall|i: int, name: Seq<char>|
            g.is_normal(i) && i != a && #[trigger] has_key(
                h.normal(i).linked_exports,
                name,
            ) implies has_key(g.normal(i).linked_exports, name) || asked_by(g, a, i, name) by {
            assert(g1.is_normal(i));
            assert(h.modules[i] == g1.modules[i]);
            assert(has_key(g1.normal(i).linked_exports, name));
        }
    }
}

/// The normal modules among `order`, from the `k`-th on, export no name twice.
pub open spec fn all_explicit_fresh(g: GraphView, order: Seq<ModuleIdView>, k: int) -> bool {
    forall|p: int|
        0 <= k <= p < order.len() && !(#[trigger] order[p]).external ==> explicit_fresh(
            g.normal(g.index_of(order[p]).unwrap()),
        )
}

/// No module is asked for a name that it is to re-export explicitly when its turn comes:
/// where missing exports are shimmed and a module of `order`, from the `k`-th on, asks a
/// module behind it in `order` for a name, the module asked has no explicit re-export
/// under that name. This holds where missing exports are not shimmed, and where every
/// module comes behind the modules from which it re-exports.
pub open spec fn shim_safe(g: GraphView, order: Seq<ModuleIdView>, k: int) -> bool {
    forall|p: int, q: int, name: Seq<char>|
        0 <= k <= p < q < order.len() && !(#[trigger] order[p]).external && !(
        #[trigger] order[q]).external && asked_by(
            g,
            g.index_of(order[p]).unwrap(),
            g.index_of(order[q]).unwrap(),
            name,
        ) ==> !#[trigger] names_of_groups(
            g.normal(g.index_of(order[q]).unwrap()).re_exported_ids,
            0,
        ).contains(name)
}

/// The exports pass over modules that export no name twice, each taken once and none
/// asked too early for a name that it re-exports, keeps the graph ready.
pub proof fn lemma_link_exports_ready(g: GraphView, order: Seq<ModuleIdView>, k: int)
    requires
        exports_ready(g),
        0 <= k,
        order.no_duplicates(),
        forall|p: int| 0 <= p < order.len() ==> g.contains(#[trigger] order[p]),
        all_explicit_fresh(g, order, k),
        shim_safe(g, order, k),
    ensures
        g.link_exports_from(order, k) matches Ok(h) ==> exports_ready(h) && same_shape(g, h),
    decreases order.len() - k,
{
    if k < order.len() {
        if order[k].external {
            lemma_link_exports_ready(g, order, k + 1);
        } else {
            assert(g.contains(order[k]));
            lemma_index_of(g, order[k]);
            let a = g.index_of(order[k]).unwrap();
            assert(g.ids()[a] == order[k]);
            assert(explicit_fresh(g.normal(g.index_of(order[k]).unwrap())));
            lemma_link_module_exports_ready(g, a);
            if let Ok(g1) = g.link_module_exports(a) {
                assert(g1.ids() == g.ids());
                assert forall|p: int| 0 <= p < order.len() implies g1.contains(
                    #[trigger] order[p],
                ) by {
                    assert(g.contains(order[p]));
                }
                assert forall|p: int|
                    0 <= k + 1 <= p < order.len() && !(
                    #[trigger] order[p]).external implies explicit_fresh(
                    g1.normal(g1.index_of(order[p]).unwrap()),
                ) by {
                    assert(g.contains(order[p]));
                    lemma_index_of(g, order[p]);
                    let x = g.index_of(order[p]).unwrap();
                    assert(g.ids()[x] == order[p]);
                    assert(order[p] != order[k]);
                    assert(x != a);
                    assert(g.is_normal(x));
                    assert(explicit_fresh(g.normal(g.index_of(order[p]).unwrap())));
                    let names = names_of_groups(g.normal(x).re_exported_ids, 0);
                    assert(g1.normal(x).re_exported_ids == g.normal(x).re_exported_ids);
                    assert forall|i: int| 0 <= i < names.len() implies !has_key(
                        g1.normal(x).linked_exports,
                        #[trigger] names[i],
                    ) by {
                        if has_key(g1.normal(x).linked_exports, names[i]) {
                            assert(!has_key(g.normal(x).linked_exports, names[i]));
                            assert(asked_by(g, a, x, names[i]));
                            assert(!names_of_groups(
                                g.normal(g.index_of(order[p]).unwrap()).re_exported_ids,
                                0,
                            ).contains(names[i]));
                            assert(names.contains(names[i]));
                        }
                    }
                }
                assert forall|p: int, q: int, name: Seq<char>|
                    0 <= k + 1 <= p < q < order.len() && !(#[trigger] order[p]).external && !(
                    #[trigger] order[q]).external && asked_by(
                        g1,
                        g1.index_of(order[p]).unwrap(),
                        g1.index_of(order[q]).unwrap(),
                        name,
                    ) implies !#[trigger] names_of_groups(
                    g1.normal(g1.index_of(order[q]).unwrap()).re_exported_ids,
                    0,
                ).contains(name) by {
                    assert(g.contains(order[p]) && g.contains(order[q]));
                    lemma_index_of(g, order[p]);
                    lemma_index_of(g, order[q]);
                    let x = g.index_of(order[p]).unwrap();
                    let y = g.index_of(order[q]).unwrap();
                    assert(g.ids()[x] == order[p] && g.ids()[y] == order[q]);
                    assert(g.is_normal(x) && g.is_normal(y));
                    assert(g1.normal(x).re_exported_ids == g.normal(x).re_exported_ids);
                    assert(g1.normal(y).re_exported_ids == g.normal(y).re_exported_ids);
                    let groups = g.normal(x).re_exported_ids;
                    let w = choose|w: int|
                        0 <= w < groups.len() && g1.index_of((#[trigger] groups[w]).0) == Some(y)
                            && asked_among(groups[w].1, 0, name);
                    assert(g.index_of(groups[w].0) == Some(y));
                    assert(asked_by(g, x, y, name));
                    assert(!names_of_groups(
                        g.normal(g.index_of(order[q]).unwrap()).re_exported_ids,
                        0,
                    ).contains(name));
                }
                lemma_link_exports_ready(g1, order, k + 1);
            }
        }
    }
}

/// A graph as the loader leaves it: nothing is linked yet, every export of a module is
/// an export of its own under its own name, and no module exports a name twice.
pub open spec fn scanned(g: GraphView) -> bool {
    &&& g.inv()
    &&& forall|i: int| g.is_normal(i) ==> (#[trigger] g.normal(i)).linked_imports.len() == 0
    &&& forall|i: int|
        g.is_normal(i) ==> (#[trigger] g.normal(i)).external_modules_of_re_export_all.len() == 0
    &&& forall|i: int| g.is_normal(i) ==> keys_distinct((#[trigger] g.normal(i)).linked_exports)
    &&& forall|i: int, k: int|
        g.is_normal(i) && 0 <= k < g.normal(i).linked_exports.len() ==> (
        #[trigger] g.normal(i).linked_exports[k]).1.owner == g.normal(i).id && g.normal(
            i,
        ).linked_exports[k].1.exported_as == g.normal(i).linked_exports[k].0
    &&& forall|i: int| g.is_normal(i) ==> explicit_fresh(#[trigger] g.normal(i))
}

/// A graph as the loader leaves it is ready for the exports pass.
pub proof fn lemma_scanned_is_ready(g: GraphView)
    requires
        scanned(g),
    ensures
        exports_ready(g),
{
    assert forall|i: int, k: int|
        g.is_normal(i) && 0 <= k < g.normal(i).linked_exports.len() implies backed(
        g,
        (#[trigger] g.normal(i).linked_exports[k]).1,
    ) by {
        let table = g.normal(i).linked_exports;
        lemma_index_of_own(g, i);
        assert(g.ids()[i] == g.normal(i).id);
        assert(keys_distinct(g.normal(i).linked_exports));
        assert forall|j: int| 0 <= j < k implies (#[trigger] table[j]).0 != table[k].0 by {}
        lemma_key_index_first(table, table[k].0, k);
    }
    assert forall|i: int, p: int|
        g.is_normal(i) && 0 <= p < g.normal(i).linked_imports.len() implies (
    #[trigger] g.normal(i).linked_imports[p]).0.external by {
        assert(g.normal(i).linked_imports.len() == 0);
    }
    assert forall|i: int, k: int|
        g.is_normal(i) && 0 <= k < g.normal(i).external_modules_of_re_export_all.len() implies (
    #[trigger] g.normal(i).external_modules_of_re_export_all[k]).external by {
        assert(g.normal(i).external_modules_of_re_export_all.len() == 0);
    }
}

/// Where missing exports are not shimmed, no module is asked too early for a name.
pub proof fn lemma_shim_safe_without_shim(g: GraphView, order: Seq<ModuleIdView>)
    requires
        !g.shim_missing_exports,
    ensures
        shim_safe(g, order, 0),
{
}

/// The exports pass and then the imports pass over a graph as the loader leaves it, each
/// module taken once and none asked too early for a name that it re-exports, end with
/// every linked import sound: its owner is external, or exports the imported name, and
/// the exported binding is joined with the importing symbol.
pub proof fn lemma_link_passes_sound(g: GraphView, order: Seq<ModuleIdView>)
    requires
        scanned(g),
        order.no_duplicates(),
        forall|p: int| 0 <= p < order.len() ==> g.contains(#[trigger] order[p]),
        shim_safe(g, order, 0),
    ensures
        g.link_exports(order) matches Ok(h) ==> (h.link_imports(order) matches Ok(l) ==> sound(l)
            && grounded(l) && l.inv()),
{
    lemma_scanned_is_ready(g);
    assert forall|p: int| 0 <= p < order.len() && !(#[trigger] order[p]).external implies explicit_fresh(
        g.normal(g.index_of(order[p]).unwrap()),
    ) by {
        assert(g.contains(order[p]));
        lemma_index_of(g, order[p]);
        let x = g.index_of(order[p]).unwrap();
        assert(g.ids()[x] == order[p]);
        assert(g.is_normal(x));
    }
    lemma_link_exports_ready(g, order, 0);
    if let Ok(h) = g.link_exports(order) {
        lemma_ready_is_linked(h);
        assert(h.ids() == g.ids());
        assert forall|p: int| 0 <= p < order.len() implies h.contains(#[trigger] order[p]) by {
            assert(g.contains(order[p]));
        }
        crate::graph::import_laws::lemma_link_imports_sound(h, order);
    }
}

/// Over a graph as the loader leaves it, in which no module is asked too early for a name
/// that it re-exports, the link ends with every linked import sound.
pub proof fn lemma_link_sound(g: GraphView)
    requires
        scanned(g),
        shim_safe(g, g.order_modules(), 0),
    ensures
        g.link() matches Ok(l) ==> sound(l) && grounded(l) && l.inv(),
{
    crate::graph::link::lemma_order_modules(g);
    lemma_link_passes_sound(g, g.order_modules());
}

/// The ordering pass leaves a graph as the loader left it, but for the execution orders.
pub proof fn lemma_sort_modules_scanned(g: GraphView)
    requires
        scanned(g),
    ensures
        scanned(g.sort_modules()),
{
    let h = g.sort_modules();
    crate::graph::lemma_sort_modules_inv(g);
    assert forall|i: int| h.is_normal(i) implies (#[trigger] h.normal(i)) == (NormalModuleView {
        exec_order: h.normal(i).exec_order,
        ..g.normal(i)
    }) && g.is_normal(i) by {
        assert(g.is_normal(i));
    }
    assert forall|i: int, k: int|
        h.is_normal(i) && 0 <= k < h.normal(i).linked_exports.len() implies (
    #[trigger] h.normal(i).linked_exports[k]).1.owner == h.normal(i).id && h.normal(
        i,
    ).linked_exports[k].1.exported_as == h.normal(i).linked_exports[k].0 by {
        assert(g.is_normal(i));
        assert(g.normal(i).linked_exports[k].1.owner == g.normal(i).id);
    }
    assert forall|i: int| h.is_normal(i) implies explicit_fresh(#[trigger] h.normal(i)) by {
        assert(explicit_fresh(g.normal(i)));
    }
}

/// The patch leaves every linked import sound.
pub proof fn lemma_patch_sound(g: GraphView)
    requires
        g.inv(),
        sound(g),
    ensures
        sound(g.patch()),
{
    let h = g.patch();
    assert(h.ids() =~= g.ids());
    assert forall|i: int| h.is_normal(i) implies g.is_normal(i) && (#[trigger] h.normal(i)) == g.patched(
        g.normal(i),
    ) by {}
    assert forall|i: int, p: int, q: int|
        h.is_normal(i) && 0 <= p < h.normal(i).linked_imports.len() && 0 <= q < h.normal(
            i,
        ).linked_imports[p].1.len() implies import_sound(
        h,
        h.normal(i).linked_imports[p].0,
        #[trigger] h.normal(i).linked_imports[p].1[q],
    ) by {
        let owner = g.normal(i).linked_imports[p].0;
        let s = g.normal(i).linked_imports[p].1[q];
        assert(g.is_normal(i));
        assert(import_sound(g, owner, s));
        if !owner.external {
            lemma_index_of(g, owner);
            let o = g.index_of(owner).unwrap();
            assert(g.is_normal(o));
            assert(h.is_normal(o));
            assert(h.normal(o).find_exported(s.imported) == g.normal(o).find_exported(s.imported));
        }
    }
}

/// What a build makes of a graph as the loader leaves it, in which no module is asked too
/// early for a name that it re-exports, has every linked import sound.
pub proof fn lemma_generate_module_graph_sound(g: GraphView)
    requires
        scanned(g),
        shim_safe(g.sort_modules(), g.sort_modules().order_modules(), 0),
    ensures
        g.generate_module_graph() matches Ok(r) ==> sound(r),
{
    lemma_sort_modules_scanned(g);
    lemma_link_sound(g.sort_modules());
    if let Ok(l) = g.sort_modules().link() {
        lemma_patch_sound(l);
    }
}

} // verus!
