//! What the imports pass guarantees: every linked import names a binding that its owner
//! exports and with which it is joined, and all who import one name from an external
//! module share one symbol.

use vstd::prelude::*;
use crate::graph::link_exports::lemma_prepare_importee_inv;
use crate::graph::link_imports::lemma_with_external_inv;
use crate::graph::{
    lemma_index_of, lemma_index_of_own, lemma_tables_after, lemma_with_normal_inv, same_shape,
    tables_kept, warnings_kept, GraphView,
};
use crate::ident::{star_name, ModuleIdView, SymbolView};
use crate::module::{lemma_shim_exports, lemma_tables_kept, ModuleView, NormalModuleView};
use crate::specifier::{ExportedSpecifierView, ImportedSpecifierView};
use crate::table::{has_key, key_index, lemma_key_index_some, lemma_lookup_put, lookup};
use crate::union_find::{lemma_merged_classes, lemma_merged_keeps, same_class};

verus! {

/// The export `e` is backed by the module that owns it: that module is external, or it
/// is a normal module of the graph that exports the binding of `e` under the name of `e`.
pub open spec fn backed(g: GraphView, e: ExportedSpecifierView) -> bool {
    e.owner.external || (g.contains(e.owner) && g.modules[g.index_of(e.owner).unwrap()] is Normal
        && match g.normal(g.index_of(e.owner).unwrap()).find_exported(e.exported_as) {
        Some(own) => own.local_id == e.local_id,
        None => false,
    })
}

/// Every export of every module is backed by its owner.
pub open spec fn grounded(g: GraphView) -> bool {
    forall|i: int, k: int|
        g.is_normal(i) && 0 <= k < g.normal(i).linked_exports.len() ==> backed(
            g,
            (#[trigger] g.normal(i).linked_exports[k]).1,
        )
}

/// The import `s`, linked to the module `owner`, is sound: `owner` is external, or it is a
/// normal module of the graph that exports the name, and the exported binding and the
/// importing symbol are joined.
pub open spec fn import_sound(g: GraphView, owner: ModuleIdView, s: ImportedSpecifierView) -> bool {
    owner.external || (g.contains(owner) && g.modules[g.index_of(owner).unwrap()] is Normal
        && match g.normal(g.index_of(owner).unwrap()).find_exported(s.imported) {
        Some(e) => same_class(g.uf, s.imported_as, e.local_id),
        None => false,
    })
}

/// Every linked import of every module is sound.
pub open spec fn sound(g: GraphView) -> bool {
    forall|i: int, p: int, q: int|
        g.is_normal(i) && 0 <= p < g.normal(i).linked_imports.len() && 0 <= q < g.normal(
            i,
        ).linked_imports[p].1.len() ==> import_sound(
            g,
            g.normal(i).linked_imports[p].0,
            #[trigger] g.normal(i).linked_imports[p].1[q],
        )
}

/// What a module has noted as its external wildcard sources are external modules.
pub open spec fn externals_external(g: GraphView) -> bool {
    forall|i: int, k: int|
        g.is_normal(i) && 0 <= k < g.normal(i).external_modules_of_re_export_all.len() ==> (
        #[trigger] g.normal(i).external_modules_of_re_export_all[k]).external
}

/// The state that the imports pass starts from and keeps.
pub open spec fn linked(g: GraphView) -> bool {
    g.inv() && grounded(g) && sound(g) && externals_external(g)
}

/// `h` is `g` after some steps of the imports pass: the same modules with the same
/// imports to link; what was joined is joined; what was exported is exported as it was;
/// the symbol that an external module has for a name is the symbol that it had; the
/// tables are in order if they were; every linked import and every warning is still
/// there.
pub open spec fn imports_step(g: GraphView, h: GraphView) -> bool {
    &&& same_shape(g, h)
    &&& tables_kept(g, h)
    &&& warnings_kept(g, h)
    &&& forall|i: int, o: ModuleIdView, s: ImportedSpecifierView|
        g.is_normal(i) && #[trigger] recorded(g, i, o, s) ==> recorded(h, i, o, s)
    &&& forall|x: SymbolView, y: SymbolView| same_class(g.uf, x, y) ==> #[trigger] same_class(h.uf, x, y)
    &&& forall|i: int, name: Seq<char>|
        g.is_normal(i) && g.normal(i).find_exported(name) is Some ==> #[trigger] h.normal(
            i,
        ).find_exported(name) == g.normal(i).find_exported(name)
    &&& forall|i: int| g.is_normal(i) ==> (#[trigger] h.normal(i)).imports == g.normal(i).imports
    &&& forall|i: int, name: Seq<char>|
        g.is_external(i) && #[trigger] symbol_known(g, i, name) ==> symbol_known(h, i, name)
            && h.external(i).exported_symbol(name) == g.external(i).exported_symbol(name)
}

/// The external module at `i` has a symbol for `name`.
pub open spec fn symbol_known(g: GraphView, i: int, name: Seq<char>) -> bool {
    has_key(g.external(i).exported_symbols, name)
}

pub proof fn lemma_imports_step_same(g: GraphView)
    ensures
        imports_step(g, g),
{
}

pub proof fn lemma_imports_step_chain(g: GraphView, h: GraphView, k: GraphView)
    requires
        imports_step(g, h),
        imports_step(h, k),
    ensures
        imports_step(g, k),
{
    assert(k.ids() == g.ids());
    assert forall|i: int|
        0 <= i < g.modules.len() implies ((#[trigger] k.modules[i]) is Normal) == (g.modules[i] is Normal) by {
        assert((h.modules[i] is Normal) == (g.modules[i] is Normal));
    }
    assert forall|i: int, o: ModuleIdView, s: ImportedSpecifierView|
        g.is_normal(i) && #[trigger] recorded(g, i, o, s) implies recorded(k, i, o, s) by {
        assert(h.is_normal(i));
        assert(recorded(h, i, o, s));
    }
    assert forall|x: SymbolView, y: SymbolView| same_class(g.uf, x, y) implies #[trigger] same_class(
        k.uf,
        x,
        y,
    ) by {
        assert(same_class(h.uf, x, y));
    }
    assert forall|i: int, name: Seq<char>|
        g.is_normal(i) && g.normal(i).find_exported(name) is Some implies #[trigger] k.normal(
        i,
    ).find_exported(name) == g.normal(i).find_exported(name) by {
        assert(h.normal(i).find_exported(name) == g.normal(i).find_exported(name));
        assert(h.is_normal(i));
    }
    assert forall|i: int| g.is_normal(i) implies (#[trigger] k.normal(i)).imports == g.normal(
        i,
    ).imports by {
        assert(h.normal(i).imports == g.normal(i).imports);
        assert(h.is_normal(i));
    }
    assert forall|i: int, name: Seq<char>|
        g.is_external(i) && #[trigger] symbol_known(g, i, name) implies symbol_known(k, i, name)
        && k.external(i).exported_symbol(name) == g.external(i).exported_symbol(name) by {
        assert(symbol_known(h, i, name));
        assert((h.modules[i] is Normal) == (g.modules[i] is Normal));
        assert(h.is_external(i));
    }
}

/// A backed export stays backed.
pub proof fn lemma_backed_kept(g: GraphView, h: GraphView, e: ExportedSpecifierView)
    requires
        imports_step(g, h),
        backed(g, e),
    ensures
        backed(h, e),
{
    if !e.owner.external {
        let o = g.index_of(e.owner).unwrap();
        lemma_index_of(g, e.owner);
        assert(g.is_normal(o));
        assert(h.normal(o).find_exported(e.exported_as) == g.normal(o).find_exported(e.exported_as));
    }
}

/// A sound import stays sound.
pub proof fn lemma_import_sound_kept(g: GraphView, h: GraphView, owner: ModuleIdView, s: ImportedSpecifierView)
    requires
        imports_step(g, h),
        import_sound(g, owner, s),
    ensures
        import_sound(h, owner, s),
{
    if !owner.external {
        let o = g.index_of(owner).unwrap();
        lemma_index_of(g, owner);
        assert(g.is_normal(o));
        assert(h.normal(o).find_exported(s.imported) == g.normal(o).find_exported(s.imported));
        let e = g.normal(o).find_exported(s.imported).unwrap();
        assert(same_class(h.uf, s.imported_as, e.local_id));
    }
}

/// What a module's linked imports are after one is added: what they were, and the new one.
pub proof fn lemma_add_to_linked_imports_entries(
    m: NormalModuleView,
    owner: ModuleIdView,
    spec: ImportedSpecifierView,
    p: int,
    q: int,
)
    requires
        0 <= p < m.add_to_linked_imports(owner, spec).linked_imports.len(),
        0 <= q < m.add_to_linked_imports(owner, spec).linked_imports[p].1.len(),
    ensures
        ({
            let n = m.add_to_linked_imports(owner, spec);
            (n.linked_imports[p].0 == owner && n.linked_imports[p].1[q] == spec) || (p
                < m.linked_imports.len() && q < m.linked_imports[p].1.len()
                && n.linked_imports[p].0 == m.linked_imports[p].0 && n.linked_imports[p].1[q]
                == m.linked_imports[p].1[q])
        }),
{
    let n = m.add_to_linked_imports(owner, spec);
    match key_index(m.linked_imports, owner) {
        Some(i) => {
            if has_key(m.linked_imports, owner) {
                lemma_key_index_some(m.linked_imports, owner);
            }
        },
        None => {},
    }
}

/// A step that leaves the export tables and the linked imports of all modules alone, or
/// adds to them only what is backed and sound, keeps the graph linked.
pub proof fn lemma_linked_after(g: GraphView, h: GraphView)
    requires
        linked(g),
        h.inv(),
        imports_step(g, h),
        forall|i: int, k: int|
            h.is_normal(i) && 0 <= k < h.normal(i).linked_exports.len() ==> backed(
                h,
                (#[trigger] h.normal(i).linked_exports[k]).1,
            ) || (k < g.normal(i).linked_exports.len() && h.normal(i).linked_exports[k]
                == g.normal(i).linked_exports[k]),
        forall|i: int, p: int, q: int|
            h.is_normal(i) && 0 <= p < h.normal(i).linked_imports.len() && 0 <= q < h.normal(
                i,
            ).linked_imports[p].1.len() ==> import_sound(
                h,
                h.normal(i).linked_imports[p].0,
                #[trigger] h.normal(i).linked_imports[p].1[q],
            ) || (p < g.normal(i).linked_imports.len() && q < g.normal(i).linked_imports[p].1.len()
                && h.normal(i).linked_imports[p].0 == g.normal(i).linked_imports[p].0 && h.normal(
                i,
            ).linked_imports[p].1[q] == g.normal(i).linked_imports[p].1[q]),
        forall|i: int|
            g.is_normal(i) ==> (#[trigger] h.normal(i)).external_modules_of_re_export_all
                == g.normal(i).external_modules_of_re_export_all,
    ensures
        linked(h),
{
    assert forall|i: int, k: int|
        h.is_normal(i) && 0 <= k < h.normal(i).linked_exports.len() implies backed(
        h,
        (#[trigger] h.normal(i).linked_exports[k]).1,
    ) by {
        if !backed(h, h.normal(i).linked_exports[k].1) {
            assert(g.is_normal(i));
            assert(backed(g, g.normal(i).linked_exports[k].1));
            lemma_backed_kept(g, h, g.normal(i).linked_exports[k].1);
        }
    }
    assert forall|i: int, p: int, q: int|
        h.is_normal(i) && 0 <= p < h.normal(i).linked_imports.len() && 0 <= q < h.normal(
            i,
        ).linked_imports[p].1.len() implies import_sound(
        h,
        h.normal(i).linked_imports[p].0,
        #[trigger] h.normal(i).linked_imports[p].1[q],
    ) by {
        if !import_sound(h, h.normal(i).linked_imports[p].0, h.normal(i).linked_imports[p].1[q]) {
            assert(g.is_normal(i));
            assert(import_sound(g, g.normal(i).linked_imports[p].0, g.normal(i).linked_imports[p].1[q]));
            lemma_import_sound_kept(
                g,
                h,
                g.normal(i).linked_imports[p].0,
                g.normal(i).linked_imports[p].1[q],
            );
        }
    }
    assert forall|i: int, k: int|
        h.is_normal(i) && 0 <= k < h.normal(i).external_modules_of_re_export_all.len() implies (
    #[trigger] h.normal(i).external_modules_of_re_export_all[k]).external by {
        assert(g.is_normal(i));
        assert(g.normal(i).external_modules_of_re_export_all[k].external);
    }
}

/// Preparing an importee keeps the graph linked.
pub proof fn lemma_prepare_importee_linked(g: GraphView, b: int, imported: Seq<char>, suggested: Seq<char>)
    requires
        g.inv(),
        g.is_normal(b),
    ensures
        linked(g) ==> linked(g.prepare_importee(b, imported, suggested)),
        g.prepare_importee(b, imported, suggested).inv(),
        imports_step(g, g.prepare_importee(b, imported, suggested)),
        g.prepare_importee(b, imported, suggested).is_normal(b),
        g.prepare_importee(b, imported, suggested).normal(b).id == g.normal(b).id,
        g.prepare_importee(b, imported, suggested).normal(b).external_modules_of_re_export_all
            == g.normal(b).external_modules_of_re_export_all,
        forall|i: int|
            0 <= i < g.modules.len() && i != b ==> #[trigger] g.prepare_importee(
                b,
                imported,
                suggested,
            ).modules[i] == g.modules[i],
{
    let h = g.prepare_importee(b, imported, suggested);
    lemma_prepare_importee_inv(g, b, imported, suggested);
    let m = g.normal(b);
    let m1 = m.suggest_name(imported, suggested);
    let m2 = if imported == star_name() {
        m1.mark_namespace_id_referenced()
    } else {
        m1
    };
    let shimmed = g.shim_missing_exports && m2.find_exported(imported) is None;
    lemma_shim_exports(m2, imported);
    crate::module::lemma_shim_idempotent(m2, imported);
    lemma_index_of_own(h, b);
    assert(h.ids()[b] == m.id);
    assert(!m.id.external);
    assert forall|i: int, name: Seq<char>|
        g.is_normal(i) && g.normal(i).find_exported(name) is Some implies #[trigger] h.normal(
        i,
    ).find_exported(name) == g.normal(i).find_exported(name) by {
        if i != b {
            assert(h.modules[i] == g.modules[i]);
        }
    }
    assert forall|i: int| g.is_normal(i) implies (#[trigger] h.normal(i)).imports == g.normal(
        i,
    ).imports by {
        if i != b {
            assert(h.modules[i] == g.modules[i]);
        }
    }
    assert forall|i: int, name: Seq<char>|
        g.is_external(i) && #[trigger] symbol_known(g, i, name) implies symbol_known(h, i, name)
        && h.external(i).exported_symbol(name) == g.external(i).exported_symbol(name) by {
        assert(h.modules[i] == g.modules[i]);
    }
    assert(tables_kept(g, h)) by {
        lemma_tables_kept();
        if g.tables_wf() {
            assert(g.modules[b].tables_wf());
            assert(m1.tables_wf() && m2.tables_wf());
        }
        lemma_tables_after(g, h, b, b);
    }
    assert(h.normal(b).linked_imports == m.linked_imports);
    lemma_recorded_kept(g, h, b);
    lemma_recorded_after(g, h, b, b);
    assert(imports_step(g, h));
    if linked(g) {
    assert forall|i: int, k: int|
            h.is_normal(i) && 0 <= k < h.normal(i).linked_exports.len() implies backed(
            h,
            (#[trigger] h.normal(i).linked_exports[k]).1,
        ) || (k < g.normal(i).linked_exports.len() && h.normal(i).linked_exports[k] == g.normal(
            i,
        ).linked_exports[k]) by {
            if i != b {
                assert(h.modules[i] == g.modules[i]);
            } else if shimmed && k == m.linked_exports.len() {
                assert(h.normal(b).linked_exports[k].1 == m2.shim_for(imported));
            }
        }
        assert forall|i: int, p: int, q: int|
            h.is_normal(i) && 0 <= p < h.normal(i).linked_imports.len() && 0 <= q < h.normal(
                i,
            ).linked_imports[p].1.len() implies import_sound(
            h,
            h.normal(i).linked_imports[p].0,
            #[trigger] h.normal(i).linked_imports[p].1[q],
        ) || (p < g.normal(i).linked_imports.len() && q < g.normal(i).linked_imports[p].1.len()
            && h.normal(i).linked_imports[p].0 == g.normal(i).linked_imports[p].0 && h.normal(
            i,
        ).linked_imports[p].1[q] == g.normal(i).linked_imports[p].1[q]) by {
            if i != b {
                assert(h.modules[i] == g.modules[i]);
            }
        }
        assert forall|i: int| g.is_normal(i) implies (
        #[trigger] h.normal(i)).external_modules_of_re_export_all == g.normal(
            i,
        ).external_modules_of_re_export_all by {
            if i != b {
                assert(h.modules[i] == g.modules[i]);
            }
        }
        lemma_linked_after(g, h);
    }
}

/// Linking an import to an export that was found keeps the graph linked.
pub proof fn lemma_link_found_linked(
    g: GraphView,
    a: int,
    spec: ImportedSpecifierView,
    found: ExportedSpecifierView,
)
    requires
        g.inv(),
        g.is_normal(a),
        linked(g) ==> backed(g, found),
    ensures
        linked(g) ==> linked(g.link_found(a, spec, found)),
        g.link_found(a, spec, found).inv(),
        imports_step(g, g.link_found(a, spec, found)),
{
    let h = g.link_found(a, spec, found);
    let entry = ImportedSpecifierView { imported: found.exported_as, imported_as: spec.imported_as };
    let n = g.normal(a).add_to_linked_imports(found.owner, entry);
    lemma_with_normal_inv(g, a, n);
    lemma_merged_classes(g.uf, spec.imported_as, found.local_id);
    assert(h.ids() == g.ids());
    assert(h.inv());
    assert forall|x: SymbolView, y: SymbolView| same_class(g.uf, x, y) implies #[trigger] same_class(
        h.uf,
        x,
        y,
    ) by {
        lemma_merged_keeps(g.uf, spec.imported_as, found.local_id, x, y);
    }
    assert forall|i: int, name: Seq<char>|
        g.is_normal(i) && g.normal(i).find_exported(name) is Some implies #[trigger] h.normal(
        i,
    ).find_exported(name) == g.normal(i).find_exported(name) by {
        if i != a {
            assert(h.modules[i] == g.modules[i]);
        }
    }
    assert forall|i: int| g.is_normal(i) implies (#[trigger] h.normal(i)).imports == g.normal(
        i,
    ).imports by {
        if i != a {
            assert(h.modules[i] == g.modules[i]);
        }
    }
    assert forall|i: int, name: Seq<char>|
        g.is_external(i) && #[trigger] symbol_known(g, i, name) implies symbol_known(h, i, name)
        && h.external(i).exported_symbol(name) == g.external(i).exported_symbol(name) by {
        assert(h.modules[i] == g.modules[i]);
    }
    assert(tables_kept(g, h)) by {
        lemma_tables_kept();
        if g.tables_wf() {
            assert(g.modules[a].tables_wf());
            assert(n.tables_wf());
        }
        lemma_tables_after(g, h, a, a);
    }
    assert(h.normal(a) == n);
    lemma_add_to_linked_imports_recorded(g, h, a, found.owner, entry);
    lemma_recorded_after(g, h, a, a);
    assert(imports_step(g, h));
    if linked(g) {
    assert(import_sound(h, found.owner, entry)) by {
            lemma_merged_keeps(g.uf, spec.imported_as, found.local_id, found.local_id, found.local_id);
            if !found.owner.external {
                lemma_index_of(g, found.owner);
                let o = g.index_of(found.owner).unwrap();
                assert(g.is_normal(o));
                assert(h.normal(o).find_exported(found.exported_as) == g.normal(o).find_exported(
                    found.exported_as,
                ));
                let own = g.normal(o).find_exported(found.exported_as).unwrap();
                assert(own.local_id == found.local_id);
                assert(same_class(h.uf, spec.imported_as, found.local_id));
            }
        }
        assert forall|i: int, k: int|
            h.is_normal(i) && 0 <= k < h.normal(i).linked_exports.len() implies backed(
            h,
            (#[trigger] h.normal(i).linked_exports[k]).1,
        ) || (k < g.normal(i).linked_exports.len() && h.normal(i).linked_exports[k] == g.normal(
            i,
        ).linked_exports[k]) by {
            if i != a {
                assert(h.modules[i] == g.modules[i]);
            }
        }
        assert forall|i: int, p: int, q: int|
            h.is_normal(i) && 0 <= p < h.normal(i).linked_imports.len() && 0 <= q < h.normal(
                i,
            ).linked_imports[p].1.len() implies import_sound(
            h,
            h.normal(i).linked_imports[p].0,
            #[trigger] h.normal(i).linked_imports[p].1[q],
        ) || (p < g.normal(i).linked_imports.len() && q < g.normal(i).linked_imports[p].1.len()
            && h.normal(i).linked_imports[p].0 == g.normal(i).linked_imports[p].0 && h.normal(
            i,
        ).linked_imports[p].1[q] == g.normal(i).linked_imports[p].1[q]) by {
            if i != a {
                assert(h.modules[i] == g.modules[i]);
            } else {
                lemma_add_to_linked_imports_entries(g.normal(a), found.owner, entry, p, q);
            }
        }
        assert forall|i: int| g.is_normal(i) implies (
        #[trigger] h.normal(i)).external_modules_of_re_export_all == g.normal(
            i,
        ).external_modules_of_re_export_all by {
            if i != a {
                assert(h.modules[i] == g.modules[i]);
            }
        }
        lemma_linked_after(g, h);
    }
}

/// Importing from an external module keeps the graph linked, and joins the importing
/// symbol with the one symbol that the external module has for the name.
pub proof fn lemma_import_from_external_linked(g: GraphView, a: int, b: int, spec: ImportedSpecifierView)
    requires
        g.inv(),
        g.is_normal(a),
        g.is_external(b),
    ensures
        linked(g) ==> linked(g.import_from_external(a, b, spec)),
        g.import_from_external(a, b, spec).inv(),
        imports_step(g, g.import_from_external(a, b, spec)),
        recorded(g.import_from_external(a, b, spec), a, g.external(b).id, spec),
        symbol_known(g.import_from_external(a, b, spec), b, spec.imported),
        same_class(
            g.import_from_external(a, b, spec).uf,
            spec.imported_as,
            g.import_from_external(a, b, spec).external(b).exported_symbol(spec.imported),
        ),
{
    let h = g.import_from_external(a, b, spec);
    let e = g.external(b);
    let e1 = e.find_exported_symbol(spec.imported);
    let symbol = e.exported_symbol(spec.imported);
    lemma_with_external_inv(g, b, e1);
    let g1 = g.with_external(b, e1);
    assert(g1.modules[a] == g.modules[a]);
    let n = g1.normal(a).add_to_linked_imports(e.id, spec);
    lemma_with_normal_inv(g1, a, n);
    lemma_merged_classes(g.uf, spec.imported_as, symbol);
    assert(h.ids() == g.ids());
    assert(h.inv());
    assert(g.ids()[b] == e.id);
    assert(e.id.external);
    // the table of the external module
    if lookup(e.exported_symbols, spec.imported) is None {
        assert(e1.exported_symbols == crate::table::put(
            e.exported_symbols,
            spec.imported,
            crate::module::external_symbol(e.id, spec.imported),
        )) by {
            if has_key(e.exported_symbols, spec.imported) {
                lemma_key_index_some(e.exported_symbols, spec.imported);
            }
        }
    }
    assert forall|name: Seq<char>|
        lookup(e1.exported_symbols, name) == (if name == spec.imported {
            Some(symbol)
        } else {
            lookup(e.exported_symbols, name)
        }) && has_key(e1.exported_symbols, name) == (name == spec.imported || has_key(
            e.exported_symbols,
            name,
        )) by {
        if lookup(e.exported_symbols, spec.imported) is None {
            lemma_lookup_put(
                e.exported_symbols,
                spec.imported,
                crate::module::external_symbol(e.id, spec.imported),
                name,
            );
        } else {
            if has_key(e.exported_symbols, spec.imported) {
                lemma_key_index_some(e.exported_symbols, spec.imported);
            }
        }
    }
    assert(h.modules[b] == ModuleView::External(e1));
    assert forall|x: SymbolView, y: SymbolView| same_class(g.uf, x, y) implies #[trigger] same_class(
        h.uf,
        x,
        y,
    ) by {
        lemma_merged_keeps(g.uf, spec.imported_as, symbol, x, y);
    }
    assert forall|i: int, name: Seq<char>|
        g.is_normal(i) && g.normal(i).find_exported(name) is Some implies #[trigger] h.normal(
        i,
    ).find_exported(name) == g.normal(i).find_exported(name) by {
        if i != a {
            assert(h.modules[i] == g.modules[i]);
        }
    }
    assert forall|i: int| g.is_normal(i) implies (#[trigger] h.normal(i)).imports == g.normal(
        i,
    ).imports by {
        if i != a {
            assert(h.modules[i] == g.modules[i]);
        }
    }
    assert forall|i: int, name: Seq<char>|
        g.is_external(i) && #[trigger] symbol_known(g, i, name) implies symbol_known(h, i, name)
        && h.external(i).exported_symbol(name) == g.external(i).exported_symbol(name) by {
        if i != b {
            assert(h.modules[i] == g.modules[i]);
        } else {
            if has_key(e.exported_symbols, name) {
                lemma_key_index_some(e.exported_symbols, name);
            }
        }
    }
    assert(tables_kept(g, h)) by {
        lemma_tables_kept();
        if g.tables_wf() {
            assert(g.modules[a].tables_wf() && g.modules[b].tables_wf());
            assert(e1.tables_wf());
            assert(n.tables_wf());
            assert(h.modules[a] == ModuleView::Normal(n));
        }
        lemma_tables_after(g, h, a, b);
    }
    assert(h.modules[a] == ModuleView::Normal(n));
    lemma_add_to_linked_imports_recorded(g, h, a, e.id, spec);
    lemma_recorded_after(g, h, a, b);
    assert(imports_step(g, h));
    lemma_merged_keeps(g.uf, spec.imported_as, symbol, symbol, symbol);
    if linked(g) {
    assert forall|i: int, k: int|
            h.is_normal(i) && 0 <= k < h.normal(i).linked_exports.len() implies backed(
            h,
            (#[trigger] h.normal(i).linked_exports[k]).1,
        ) || (k < g.normal(i).linked_exports.len() && h.normal(i).linked_exports[k] == g.normal(
            i,
        ).linked_exports[k]) by {
            if i != a {
                assert(h.modules[i] == g.modules[i]);
            }
        }
        assert forall|i: int, p: int, q: int|
            h.is_normal(i) && 0 <= p < h.normal(i).linked_imports.len() && 0 <= q < h.normal(
                i,
            ).linked_imports[p].1.len() implies import_sound(
            h,
            h.normal(i).linked_imports[p].0,
            #[trigger] h.normal(i).linked_imports[p].1[q],
        ) || (p < g.normal(i).linked_imports.len() && q < g.normal(i).linked_imports[p].1.len()
            && h.normal(i).linked_imports[p].0 == g.normal(i).linked_imports[p].0 && h.normal(
            i,
        ).linked_imports[p].1[q] == g.normal(i).linked_imports[p].1[q]) by {
            if i != a {
                assert(h.modules[i] == g.modules[i]);
            } else {
                lemma_add_to_linked_imports_entries(g.normal(a), e.id, spec, p, q);
            }
        }
        assert forall|i: int| g.is_normal(i) implies (
        #[trigger] h.normal(i)).external_modules_of_re_export_all == g.normal(
            i,
        ).external_modules_of_re_export_all by {
            if i != a {
                assert(h.modules[i] == g.modules[i]);
            }
        }
        lemma_linked_after(g, h);
    }
}

/// Taking a missing name from an external wildcard source keeps the graph linked.
pub proof fn lemma_link_through_external_linked(g: GraphView, a: int, b: int, spec: ImportedSpecifierView)
    requires
        g.inv(),
        g.is_normal(a),
        g.is_normal(b),
        g.normal(b).find_exported(spec.imported) is None,
        g.normal(b).external_modules_of_re_export_all.len() > 0,
    ensures
        linked(g) ==> linked(g.link_through_external(a, b, spec)),
        g.link_through_external(a, b, spec).inv(),
        imports_step(g, g.link_through_external(a, b, spec)),
{
    let h = g.link_through_external(a, b, spec);
    let importee = g.normal(b);
    let externals = importee.external_modules_of_re_export_all;
    let first = externals[0];
    let symbol = importee.next_symbol(spec.imported_as.name);
    let inward = ImportedSpecifierView { imported: spec.imported, imported_as: symbol };
    let outward = ExportedSpecifierView {
        exported_as: spec.imported,
        local_id: symbol,
        owner: importee.id,
    };
    let t1 = importee.create_top_level_symbol(spec.imported_as.name);
    let t2 = t1.add_to_linked_imports(first, inward);
    let t = t2.add_to_linked_exports(spec.imported, outward);
    let g1 = if externals.len() > 1 {
        g.warn(
            crate::error::BuildErrorView::AmbiguousExternalNamespaces {
                name: spec.imported_as.name,
                importee: importee.id.path,
                chosen: first.path,
                candidates: crate::graph::link_imports::paths_of(externals),
            },
        )
    } else {
        g
    };
    assert(g1.ids() =~= g.ids());
    assert(g1.inv()) by {
        assert forall|j: int| 0 <= j < g1.modules.len() implies match #[trigger] g1.modules[j] {
            ModuleView::Normal(n) => g1.module_closed(n),
            ModuleView::External(_) => true,
        } by {
            assert(g1.modules[j] == g.modules[j]);
        }
    }
    lemma_with_normal_inv(g1, b, t);
    let g2 = g1.with_normal(b, t);
    if a != b {
        assert(g2.modules[a] == g.modules[a]);
    }
    let n = g2.normal(a).add_to_linked_imports(importee.id, spec);
    lemma_with_normal_inv(g2, a, n);
    lemma_merged_classes(g.uf, spec.imported_as, symbol);
    assert(h.ids() == g.ids());
    assert(h.inv());
    assert(g.ids()[b] == importee.id);
    assert(!importee.id.external);
    lemma_index_of_own(h, b);
    assert(h.modules[a] == ModuleView::Normal(n));
    assert(h.normal(b).linked_exports == t.linked_exports);
    assert(h.normal(b).id == importee.id);
    if has_key(importee.linked_exports, spec.imported) {
        lemma_key_index_some(importee.linked_exports, spec.imported);
    }
    assert(t.linked_exports == importee.linked_exports.push((spec.imported, outward)));
    assert forall|name: Seq<char>|
        t.find_exported(name) == (if name == spec.imported {
            Some(outward)
        } else {
            importee.find_exported(name)
        }) by {
        lemma_lookup_put(importee.linked_exports, spec.imported, outward, name);
    }
    assert forall|x: SymbolView, y: SymbolView| same_class(g.uf, x, y) implies #[trigger] same_class(
        h.uf,
        x,
        y,
    ) by {
        lemma_merged_keeps(g.uf, spec.imported_as, symbol, x, y);
    }
    assert forall|i: int, name: Seq<char>|
        g.is_normal(i) && g.normal(i).find_exported(name) is Some implies #[trigger] h.normal(
        i,
    ).find_exported(name) == g.normal(i).find_exported(name) by {
        if i != a && i != b {
            assert(h.modules[i] == g.modules[i]);
        }
    }
    assert forall|i: int| g.is_normal(i) implies (#[trigger] h.normal(i)).imports == g.normal(
        i,
    ).imports by {
        if i != a && i != b {
            assert(h.modules[i] == g.modules[i]);
        }
    }
    assert forall|i: int, name: Seq<char>|
        g.is_external(i) && #[trigger] symbol_known(g, i, name) implies symbol_known(h, i, name)
        && h.external(i).exported_symbol(name) == g.external(i).exported_symbol(name) by {
        assert(h.modules[i] == g.modules[i]);
    }
    assert(tables_kept(g, h)) by {
        lemma_tables_kept();
        if g.tables_wf() {
            assert(g.modules[a].tables_wf() && g.modules[b].tables_wf());
            assert(t1.tables_wf() && t2.tables_wf() && t.tables_wf());
            assert(g2.normal(a).tables_wf());
            assert(n.tables_wf());
            if a != b {
                assert(h.modules[b] == ModuleView::Normal(t));
            }
        }
        lemma_tables_after(g, h, a, b);
    }
    assert(g2.normal(b) == t);
    lemma_add_to_linked_imports_recorded(g, g2, b, first, inward);
    lemma_add_to_linked_imports_recorded(g2, h, a, importee.id, spec);
    if a != b {
        assert(h.modules[b] == ModuleView::Normal(t));
        lemma_recorded_kept(g, g2, a);
        lemma_recorded_kept(g2, h, b);
    }
    lemma_recorded_after(g, h, a, b);
    assert(imports_step(g, h));
    if linked(g) {
    lemma_merged_keeps(g.uf, spec.imported_as, symbol, symbol, symbol);
        assert(first.external) by {
            assert(g.normal(b).external_modules_of_re_export_all[0].external);
        }
        assert(import_sound(h, importee.id, spec));
        assert(backed(h, outward));
        assert forall|i: int, k: int|
            h.is_normal(i) && 0 <= k < h.normal(i).linked_exports.len() implies backed(
            h,
            (#[trigger] h.normal(i).linked_exports[k]).1,
        ) || (k < g.normal(i).linked_exports.len() && h.normal(i).linked_exports[k] == g.normal(
            i,
        ).linked_exports[k]) by {
            if i != a && i != b {
                assert(h.modules[i] == g.modules[i]);
            }
        }
        assert forall|i: int, p: int, q: int|
            h.is_normal(i) && 0 <= p < h.normal(i).linked_imports.len() && 0 <= q < h.normal(
                i,
            ).linked_imports[p].1.len() implies import_sound(
            h,
            h.normal(i).linked_imports[p].0,
            #[trigger] h.normal(i).linked_imports[p].1[q],
        ) || (p < g.normal(i).linked_imports.len() && q < g.normal(i).linked_imports[p].1.len()
            && h.normal(i).linked_imports[p].0 == g.normal(i).linked_imports[p].0 && h.normal(
            i,
        ).linked_imports[p].1[q] == g.normal(i).linked_imports[p].1[q]) by {
            if i == a && a == b {
                lemma_add_to_linked_imports_entries(t, importee.id, spec, p, q);
                if p < t.linked_imports.len() && q < t.linked_imports[p].1.len() {
                    lemma_add_to_linked_imports_entries(t1, first, inward, p, q);
                }
            } else if i == a {
                lemma_add_to_linked_imports_entries(g.normal(a), importee.id, spec, p, q);
            } else if i == b {
                lemma_add_to_linked_imports_entries(t1, first, inward, p, q);
            } else {
                assert(h.modules[i] == g.modules[i]);
            }
        }
        assert forall|i: int| g.is_normal(i) implies (
        #[trigger] h.normal(i)).external_modules_of_re_export_all == g.normal(
            i,
        ).external_modules_of_re_export_all by {
            if i != a && i != b {
                assert(h.modules[i] == g.modules[i]);
            }
        }
        lemma_linked_after(g, h);
    }
}

/// The importing symbol of `spec` is joined with the symbol that the external module at
/// `b` has for the imported name.
pub open spec fn joined_with_external(g: GraphView, b: int, spec: ImportedSpecifierView) -> bool {
    symbol_known(g, b, spec.imported) && same_class(
        g.uf,
        spec.imported_as,
        g.external(b).exported_symbol(spec.imported),
    )
}

/// The module at `i` has the import `s` among those linked to `owner`, as it stands.
pub open spec fn recorded(g: GraphView, i: int, owner: ModuleIdView, s: ImportedSpecifierView) -> bool {
    exists|p: int|
        0 <= p < g.normal(i).linked_imports.len() && (#[trigger] g.normal(i).linked_imports[p]).0 == owner
            && g.normal(i).linked_imports[p].1.contains(s)
}

/// The import `spec` of the module at `a` from the external module at `b` is linked: it
/// stands among the linked imports of the importer as it was written, and its symbol is
/// joined with the one symbol that the external module has for the name.
pub open spec fn taken_from_external(g: GraphView, a: int, b: int, spec: ImportedSpecifierView) -> bool {
    joined_with_external(g, b, spec) && recorded(g, a, g.modules[b].id(), spec)
}

/// An import that is linked to an external module stays linked to it.
pub proof fn lemma_taken_from_external_kept(
    g: GraphView,
    h: GraphView,
    a: int,
    b: int,
    spec: ImportedSpecifierView,
)
    requires
        imports_step(g, h),
        g.is_normal(a),
        g.is_external(b),
        taken_from_external(g, a, b, spec),
    ensures
        taken_from_external(h, a, b, spec),
        h.is_external(b),
{
    lemma_joined_with_external_kept(g, h, b, spec);
    assert(h.ids()[b] == g.ids()[b]);
    assert(recorded(g, a, g.modules[b].id(), spec));
}

/// Adding a linked import keeps those that were there, and the new one is there.
pub proof fn lemma_add_to_linked_imports_recorded(
    g: GraphView,
    h: GraphView,
    i: int,
    owner: ModuleIdView,
    spec: ImportedSpecifierView,
)
    requires
        h.normal(i).linked_imports == g.normal(i).add_to_linked_imports(owner, spec).linked_imports,
    ensures
        recorded(h, i, owner, spec),
        forall|o: ModuleIdView, s: ImportedSpecifierView| #[trigger]
            recorded(g, i, o, s) ==> recorded(h, i, o, s),
{
    let m = g.normal(i);
    let n = h.normal(i);
    if has_key(m.linked_imports, owner) {
        lemma_key_index_some(m.linked_imports, owner);
        let at = key_index(m.linked_imports, owner).unwrap();
        assert(n.linked_imports[at].0 == owner);
        assert(n.linked_imports[at].1 == crate::table::insert(m.linked_imports[at].1, spec));
        if !m.linked_imports[at].1.contains(spec) {
            assert(n.linked_imports[at].1.last() == spec);
        }
        assert(n.linked_imports[at].1.contains(spec));
        assert forall|o: ModuleIdView, s: ImportedSpecifierView| #[trigger]
            recorded(g, i, o, s) implies recorded(h, i, o, s) by {
            let p = choose|p: int|
                0 <= p < m.linked_imports.len() && (#[trigger] m.linked_imports[p]).0 == o
                    && m.linked_imports[p].1.contains(s);
            if p == at {
                let w = choose|w: int| 0 <= w < m.linked_imports[p].1.len() && m.linked_imports[p].1[w] == s;
                assert(n.linked_imports[p].1[w] == s);
            } else {
                assert(n.linked_imports[p] == m.linked_imports[p]);
            }
            assert(n.linked_imports[p].0 == o && n.linked_imports[p].1.contains(s));
        }
    } else {
        let last = m.linked_imports.len() as int;
        assert(n.linked_imports[last] == (owner, seq![spec]));
        assert(seq![spec][0] == spec);
        assert(n.linked_imports[last].0 == owner && n.linked_imports[last].1.contains(spec));
        assert forall|o: ModuleIdView, s: ImportedSpecifierView| #[trigger]
            recorded(g, i, o, s) implies recorded(h, i, o, s) by {
            let p = choose|p: int|
                0 <= p < m.linked_imports.len() && (#[trigger] m.linked_imports[p]).0 == o
                    && m.linked_imports[p].1.contains(s);
            assert(n.linked_imports[p] == m.linked_imports[p]);
            assert(n.linked_imports[p].0 == o && n.linked_imports[p].1.contains(s));
        }
    }
}

/// Where the modules but those at `a` and `b` are what they were, and these two have the
/// linked imports that they had, every module has the linked imports that it had.
pub proof fn lemma_recorded_after(g: GraphView, h: GraphView, a: int, b: int)
    requires
        h.modules.len() == g.modules.len(),
        forall|i: int| 0 <= i < g.modules.len() && i != a && i != b ==> #[trigger] h.modules[i] == g.modules[i],
        g.is_normal(a) ==> forall|o: ModuleIdView, s: ImportedSpecifierView| #[trigger]
                recorded(g, a, o, s) ==> recorded(h, a, o, s),
        g.is_normal(b) ==> forall|o: ModuleIdView, s: ImportedSpecifierView| #[trigger]
                recorded(g, b, o, s) ==> recorded(h, b, o, s),
    ensures
        forall|i: int, o: ModuleIdView, s: ImportedSpecifierView|
            g.is_normal(i) && #[trigger] recorded(g, i, o, s) ==> recorded(h, i, o, s),
{
    assert forall|i: int, o: ModuleIdView, s: ImportedSpecifierView|
        g.is_normal(i) && #[trigger] recorded(g, i, o, s) implies recorded(h, i, o, s) by {
        if i != a && i != b {
            assert(h.modules[i] == g.modules[i]);
            let p = choose|p: int|
                0 <= p < g.normal(i).linked_imports.len() && (#[trigger] g.normal(i).linked_imports[p]).0 == o
                    && g.normal(i).linked_imports[p].1.contains(s);
            assert(h.normal(i).linked_imports[p].0 == o && h.normal(i).linked_imports[p].1.contains(s));
        }
    }
}

/// A module that has the linked imports that it had has each recorded that was.
pub proof fn lemma_recorded_kept(g: GraphView, h: GraphView, i: int)
    requires
        h.normal(i).linked_imports == g.normal(i).linked_imports,
    ensures
        forall|o: ModuleIdView, s: ImportedSpecifierView| #[trigger]
            recorded(g, i, o, s) ==> recorded(h, i, o, s),
{
    assert forall|o: ModuleIdView, s: ImportedSpecifierView| #[trigger]
        recorded(g, i, o, s) implies recorded(h, i, o, s) by {
        let p = choose|p: int|
            0 <= p < g.normal(i).linked_imports.len() && (#[trigger] g.normal(i).linked_imports[p]).0 == o
                && g.normal(i).linked_imports[p].1.contains(s);
        assert(h.normal(i).linked_imports[p].0 == o && h.normal(i).linked_imports[p].1.contains(s));
    }
}

/// What was joined with the symbol of an external module stays joined with it.
pub proof fn lemma_joined_with_external_kept(g: GraphView, h: GraphView, b: int, spec: ImportedSpecifierView)
    requires
        imports_step(g, h),
        g.is_external(b),
        joined_with_external(g, b, spec),
    ensures
        joined_with_external(h, b, spec),
        h.is_external(b),
{
    assert((h.modules[b] is Normal) == (g.modules[b] is Normal));
}

/// One import keeps the graph linked; from an external importee it is joined with the
/// symbol of that module.
pub proof fn lemma_import_one_linked(g: GraphView, a: int, importee: ModuleIdView, spec: ImportedSpecifierView)
    requires
        g.inv(),
        g.is_normal(a),
        g.contains(importee),
    ensures
        g.import_one(a, importee, spec) matches Ok(h) ==> h.inv() && (linked(g) ==> linked(h))
            && imports_step(g, h) && (
        g.modules[g.index_of(importee).unwrap()] is External ==> taken_from_external(
            h, a,
            g.index_of(importee).unwrap(),
            spec,
        )),
{
    lemma_index_of(g, importee);
    let b = g.index_of(importee).unwrap();
    match g.modules[b] {
        ModuleView::Normal(_) => {
            lemma_prepare_importee_linked(g, b, spec.imported, spec.imported_as.name);
            let g1 = g.prepare_importee(b, spec.imported, spec.imported_as.name);
            assert(g1.is_normal(a));
            match g1.normal(b).find_exported(spec.imported) {
                Some(found) => {
                    assert(linked(g1) ==> backed(g1, found)) by {
                        if has_key(g1.normal(b).linked_exports, spec.imported) {
                            lemma_key_index_some(g1.normal(b).linked_exports, spec.imported);
                        }
                        let k = key_index(g1.normal(b).linked_exports, spec.imported).unwrap();
                        assert(g1.normal(b).linked_exports[k].1 == found);
                    }
                    lemma_link_found_linked(g1, a, spec, found);
                    lemma_imports_step_chain(g, g1, g1.link_found(a, spec, found));
                },
                None => {
                    if g1.normal(b).external_modules_of_re_export_all.len() > 0 {
                        lemma_link_through_external_linked(g1, a, b, spec);
                        lemma_imports_step_chain(g, g1, g1.link_through_external(a, b, spec));
                    }
                },
            }
        },
        ModuleView::External(_) => {
            lemma_import_from_external_linked(g, a, b, spec);
        },
    }
}

/// The imports from one importee keep the graph linked; from an external importee each
/// of them, from the `j`-th on, is joined with the symbol of that module.
pub proof fn lemma_import_specs_linked(
    g: GraphView,
    a: int,
    importee: ModuleIdView,
    specs: Seq<ImportedSpecifierView>,
    j: int,
)
    requires
        g.inv(),
        g.is_normal(a),
        g.contains(importee),
    ensures
        g.import_specs(a, importee, specs, j) matches Ok(h) ==> h.inv() && (linked(g) ==> linked(h))
            && imports_step(g, h)
            && (g.modules[g.index_of(importee).unwrap()] is External ==> forall|q: int|
            0 <= j <= q < specs.len() ==> taken_from_external(
                h, a,
                g.index_of(importee).unwrap(),
                #[trigger] specs[q],
            )),
    decreases specs.len() - j,
{
    if 0 <= j < specs.len() {
        lemma_import_one_linked(g, a, importee, specs[j]);
        if let Ok(g1) = g.import_one(a, importee, specs[j]) {
            assert(g1.ids() == g.ids());
            assert(g1.is_normal(a));
            lemma_import_specs_linked(g1, a, importee, specs, j + 1);
            if let Ok(h) = g1.import_specs(a, importee, specs, j + 1) {
                lemma_imports_step_chain(g, g1, h);
                lemma_index_of(g, importee);
                let b = g.index_of(importee).unwrap();
                if g.modules[b] is External {
                    assert((g1.modules[b] is Normal) == (g.modules[b] is Normal));
                    assert forall|q: int| 0 <= j <= q < specs.len() implies taken_from_external(
                        h, a,
                        b,
                        #[trigger] specs[q],
                    ) by {
                        if q == j {
                            lemma_taken_from_external_kept(g1, h, a, b, specs[j]);
                        }
                    }
                }
            }
        }
    } else {
        lemma_imports_step_same(g);
    }
}

/// In `h`, each import that the module at `a` of `g` has from an external module, from
/// its `k`-th importee on, is joined with the symbol of that module.
pub open spec fn external_imports_joined(g: GraphView, h: GraphView, a: int, k: int) -> bool {
    forall|p: int, q: int|
        0 <= k <= p < g.normal(a).imports.len() && 0 <= q < g.normal(a).imports[p].1.len()
            && g.modules[g.index_of(g.normal(a).imports[p].0).unwrap()] is External
            ==> taken_from_external(
            h, a,
            g.index_of(g.normal(a).imports[p].0).unwrap(),
            #[trigger] g.normal(a).imports[p].1[q],
        )
}

/// The imports of a module keep the graph linked, and join each import from an external
/// module with the symbol of that module.
pub proof fn lemma_import_groups_linked(g: GraphView, a: int, k: int)
    requires
        g.inv(),
        g.is_normal(a),
    ensures
        g.import_groups(a, g.normal(a).imports, k) matches Ok(h) ==> h.inv() && (linked(g)
            ==> linked(h)) && imports_step(g, h)
            && external_imports_joined(g, h, a, k),
    decreases g.normal(a).imports.len() - k,
{
    let groups = g.normal(a).imports;
    if 0 <= k < groups.len() {
        let importee = groups[k].0;
        assert(g.module_closed(g.normal(a)));
        assert(g.contains(importee));
        lemma_index_of(g, importee);
        let b = g.index_of(importee).unwrap();
        lemma_index_of_own(g, a);
        assert(g.ids()[a] == g.normal(a).id);
        let specs = g.import_sequence(a, importee, groups[k].1);
        lemma_import_specs_linked(g, a, importee, specs, 0);
        if let Ok(g1) = g.import_specs(a, importee, specs, 0) {
            assert(g1.ids() == g.ids());
            assert(g1.is_normal(a));
            assert(g1.normal(a).imports == groups);
            lemma_import_groups_linked(g1, a, k + 1);
            if let Ok(h) = g1.import_groups(a, groups, k + 1) {
                lemma_imports_step_chain(g, g1, h);
                assert forall|p: int, q: int|
                    0 <= k <= p < g.normal(a).imports.len() && 0 <= q < g.normal(a).imports[p].1.len()
                        && g.modules[g.index_of(g.normal(a).imports[p].0).unwrap()] is External implies taken_from_external(
                    h, a,
                    g.index_of(g.normal(a).imports[p].0).unwrap(),
                    #[trigger] g.normal(a).imports[p].1[q],
                ) by {
                    let e = g.index_of(groups[p].0).unwrap();
                    assert(g1.index_of(groups[p].0) == g.index_of(groups[p].0));
                    if p == k {
                        assert(importee != g.normal(a).id);
                        assert(specs == groups[k].1);
                        assert(taken_from_external(g1, a, b, specs[q]));
                        lemma_taken_from_external_kept(g1, h, a, b, specs[q]);
                    } else {
                        assert(g.contains(groups[p].0));
                        lemma_index_of(g, groups[p].0);
                        assert((g1.modules[e] is Normal) == (g.modules[e] is Normal));
                        assert(taken_from_external(h, a, e, g1.normal(a).imports[p].1[q]));
                    }
                }
            }
        }
    } else {
        lemma_imports_step_same(g);
    }
}

/// In `h`, each import that a module of `order`, from the `k`-th on, has from an external
/// module is joined with the symbol of that module.
pub open spec fn all_external_imports_joined(g: GraphView, h: GraphView, order: Seq<ModuleIdView>, k: int) -> bool {
    forall|pos: int|
        0 <= k <= pos < order.len() && !(#[trigger] order[pos]).external ==> external_imports_joined(
            g,
            h,
            g.index_of(order[pos]).unwrap(),
            0,
        )
}

pub proof fn lemma_external_imports_joined_kept(g0: GraphView, g: GraphView, h: GraphView, a: int)
    requires
        g0.inv(),
        g0.is_normal(a),
        same_shape(g0, g),
        imports_step(g, h),
        external_imports_joined(g0, g, a, 0),
    ensures
        external_imports_joined(g0, h, a, 0),
{
    assert forall|p: int, q: int|
        0 <= p < g0.normal(a).imports.len() && 0 <= q < g0.normal(a).imports[p].1.len()
            && g0.modules[g0.index_of(g0.normal(a).imports[p].0).unwrap()] is External implies taken_from_external(
        h, a,
        g0.index_of(g0.normal(a).imports[p].0).unwrap(),
        #[trigger] g0.normal(a).imports[p].1[q],
    ) by {
        let id = g0.normal(a).imports[p].0;
        assert(g0.module_closed(g0.normal(a)));
        assert(g0.contains(id));
        lemma_index_of(g0, id);
        let e = g0.index_of(id).unwrap();
        assert((g.modules[e] is Normal) == (g0.modules[e] is Normal));
        lemma_taken_from_external_kept(g, h, a, e, g0.normal(a).imports[p].1[q]);
    }
}

/// The imports pass keeps the graph linked, and joins each import from an external
/// module with the symbol of that module.
pub proof fn lemma_link_imports_from_linked(g: GraphView, order: Seq<ModuleIdView>, k: int)
    requires
        g.inv(),
        forall|p: int| 0 <= p < order.len() ==> g.contains(#[trigger] order[p]),
    ensures
        g.link_imports_from(order, k) matches Ok(h) ==> h.inv() && (linked(g) ==> linked(h))
            && imports_step(g, h)
            && all_external_imports_joined(g, h, order, k),
    decreases order.len() - k,
{
    if 0 <= k < order.len() {
        if order[k].external {
            lemma_link_imports_from_linked(g, order, k + 1);
        } else {
            assert(g.contains(order[k]));
            lemma_index_of(g, order[k]);
            let a = g.index_of(order[k]).unwrap();
            assert(g.ids()[a] == order[k]);
            lemma_import_groups_linked(g, a, 0);
            if let Ok(g1) = g.link_module_imports(a) {
                assert(g1.ids() == g.ids());
                assert forall|p: int| 0 <= p < order.len() implies g1.contains(
                    #[trigger] order[p],
                ) by {
                    assert(g.contains(order[p]));
                }
                lemma_link_imports_from_linked(g1, order, k + 1);
                if let Ok(h) = g1.link_imports_from(order, k + 1) {
                    lemma_imports_step_chain(g, g1, h);
                    assert forall|pos: int|
                        0 <= k <= pos < order.len() && !(
                        #[trigger] order[pos]).external implies external_imports_joined(
                        g,
                        h,
                        g.index_of(order[pos]).unwrap(),
                        0,
                    ) by {
                        assert(g.contains(order[pos]));
                        lemma_index_of(g, order[pos]);
                        let x = g.index_of(order[pos]).unwrap();
                        assert(g.ids()[x] == order[pos]);
                        assert(g.is_normal(x));
                        if pos == k {
                            lemma_imports_step_same(g);
                            lemma_external_imports_joined_kept(g, g1, h, a);
                        } else {
                            assert(external_imports_joined(g1, h, g1.index_of(order[pos]).unwrap(), 0));
                            assert(g1.normal(x).imports == g.normal(x).imports);
                            assert forall|p: int, q: int|
                                0 <= p < g.normal(x).imports.len() && 0 <= q < g.normal(
                                    x,
                                ).imports[p].1.len() && g.modules[g.index_of(
                                    g.normal(x).imports[p].0,
                                ).unwrap()] is External implies taken_from_external(
                                h, x,
                                g.index_of(g.normal(x).imports[p].0).unwrap(),
                                #[trigger] g.normal(x).imports[p].1[q],
                            ) by {
                                let id = g.normal(x).imports[p].0;
                                assert(g.module_closed(g.normal(x)));
                                assert(g.contains(id));
                                lemma_index_of(g, id);
                                let e = g.index_of(id).unwrap();
                                assert((g1.modules[e] is Normal) == (g.modules[e] is Normal));
                                assert(taken_from_external(
                                    h, x,
                                    g1.index_of(g1.normal(x).imports[p].0).unwrap(),
                                    g1.normal(x).imports[p].1[q],
                                ));
                            }
                        }
                    }
                }
            }
        }
    } else {
        lemma_imports_step_same(g);
    }
}

/// After the imports pass over a linked graph, every linked import of
/// every module is sound. Its owner is external, or exports the imported name, and the
/// exported binding is joined with the importing symbol.
pub proof fn lemma_link_imports_sound(g: GraphView, order: Seq<ModuleIdView>)
    requires
        linked(g),
        forall|p: int| 0 <= p < order.len() ==> g.contains(#[trigger] order[p]),
    ensures
        g.link_imports(order) matches Ok(h) ==> sound(h) && grounded(h) && h.inv(),
{
    lemma_link_imports_from_linked(g, order, 0);
}

/// Where two modules of `order` import one name from one external module, the imports
/// pass joins their two symbols, and each of the two imports stands, as it was written,
/// among the imports of its module that are linked to the external module.
pub proof fn lemma_external_symbols_shared(
    g: GraphView,
    order: Seq<ModuleIdView>,
    k1: int,
    p1: int,
    q1: int,
    k2: int,
    p2: int,
    q2: int,
)
    requires
        g.inv(),
        forall|p: int| 0 <= p < order.len() ==> g.contains(#[trigger] order[p]),
        0 <= k1 < order.len(),
        0 <= k2 < order.len(),
        !order[k1].external,
        !order[k2].external,
        0 <= p1 < g.normal(g.index_of(order[k1]).unwrap()).imports.len(),
        0 <= p2 < g.normal(g.index_of(order[k2]).unwrap()).imports.len(),
        g.normal(g.index_of(order[k1]).unwrap()).imports[p1].0 == g.normal(
            g.index_of(order[k2]).unwrap(),
        ).imports[p2].0,
        g.modules[g.index_of(g.normal(g.index_of(order[k1]).unwrap()).imports[p1].0).unwrap()] is External,
        0 <= q1 < g.normal(g.index_of(order[k1]).unwrap()).imports[p1].1.len(),
        0 <= q2 < g.normal(g.index_of(order[k2]).unwrap()).imports[p2].1.len(),
        g.normal(g.index_of(order[k1]).unwrap()).imports[p1].1[q1].imported == g.normal(
            g.index_of(order[k2]).unwrap(),
        ).imports[p2].1[q2].imported,
    ensures
        g.link_imports(order) matches Ok(h) ==> same_class(
            h.uf,
            g.normal(g.index_of(order[k1]).unwrap()).imports[p1].1[q1].imported_as,
            g.normal(g.index_of(order[k2]).unwrap()).imports[p2].1[q2].imported_as,
        ) && recorded(
            h,
            g.index_of(order[k1]).unwrap(),
            g.normal(g.index_of(order[k1]).unwrap()).imports[p1].0,
            g.normal(g.index_of(order[k1]).unwrap()).imports[p1].1[q1],
        ) && recorded(
            h,
            g.index_of(order[k2]).unwrap(),
            g.normal(g.index_of(order[k2]).unwrap()).imports[p2].0,
            g.normal(g.index_of(order[k2]).unwrap()).imports[p2].1[q2],
        ),
{
    lemma_link_imports_from_linked(g, order, 0);
    if let Ok(h) = g.link_imports(order) {
        let a1 = g.index_of(order[k1]).unwrap();
        let a2 = g.index_of(order[k2]).unwrap();
        assert(external_imports_joined(g, h, g.index_of(order[k1]).unwrap(), 0));
        assert(external_imports_joined(g, h, g.index_of(order[k2]).unwrap(), 0));
        let e = g.index_of(g.normal(a1).imports[p1].0).unwrap();
        assert(taken_from_external(h, a1, e, g.normal(a1).imports[p1].1[q1]));
        assert(taken_from_external(h, a2, e, g.normal(a2).imports[p2].1[q2]));
        let id = g.normal(a1).imports[p1].0;
        assert(g.contains(order[k1]));
        lemma_index_of(g, order[k1]);
        assert(g.ids()[a1] == order[k1]);
        assert(g.is_normal(a1));
        assert(g.module_closed(g.normal(a1)));
        assert(g.contains(id));
        lemma_index_of(g, id);
        assert(h.ids()[e] == g.ids()[e]);
    }
}

} // verus!
