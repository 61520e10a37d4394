//! Nodes of the module graph: normal modules, whose source is parsed, and external modules,
//! of which only what is imported from them is known.

use vstd::prelude::*;
use vstd::pervasive::unreached;
use crate::ident::{
    synthesized_symbol, ModuleId, ModuleIdView, Symbol, SymbolView, SYNTHESIZED_BASE,
};
use crate::specifier::{
    ExportedSpecifier, ExportedSpecifierView, ImportedSpecifier, ImportedSpecifierView,
    ReExportedSpecifier, ReExportedSpecifierView,
};
use crate::module_loader::task_result::{group_insert, lemma_group_insert_distinct};
use crate::table::{
    contains_specifier, find_module, find_name, grouped_distinct, has_key, insert, key_index,
    keys_distinct, lemma_key_index_some, lemma_lookup_put, lemma_put_keys_distinct, lookup, put,
};

verus! {

/// The execution order of a module that the ordering pass has not reached.
pub const UNSET_EXEC_ORDER: usize = usize::MAX;

/// Mathematical value of a [`NormalModule`].
pub struct NormalModuleView {
    pub id: ModuleIdView,
    pub dependencies: Seq<ModuleIdView>,
    pub dynamic_dependencies: Seq<ModuleIdView>,
    pub imports: Seq<(ModuleIdView, Seq<ImportedSpecifierView>)>,
    pub re_exported_ids: Seq<(ModuleIdView, Seq<ReExportedSpecifierView>)>,
    pub re_export_all: Seq<ModuleIdView>,
    pub external_modules_of_re_export_all: Seq<ModuleIdView>,
    pub linked_imports: Seq<(ModuleIdView, Seq<ImportedSpecifierView>)>,
    pub linked_exports: Seq<(Seq<char>, ExportedSpecifierView)>,
    pub suggested_names: Seq<(Seq<char>, Seq<char>)>,
    pub namespace_referenced: bool,
    pub exec_order: usize,
    pub is_user_defined_entry: bool,
    pub synthesized: Seq<SymbolView>,
    pub shimmed: Seq<SymbolView>,
    pub namespace_export: Option<Seq<(Seq<char>, SymbolView)>>,
}

impl NormalModuleView {
    /// The invariant of the tables of a module: no key occurs twice in a table, and no
    /// member twice in a set; the symbols that the module has made are its own, numbered
    /// in the order in which it made them.
    pub open spec fn tables_wf(self) -> bool {
        &&& grouped_distinct(self.imports)
        &&& grouped_distinct(self.re_exported_ids)
        &&& self.re_export_all.no_duplicates()
        &&& self.external_modules_of_re_export_all.no_duplicates()
        &&& grouped_distinct(self.linked_imports)
        &&& keys_distinct(self.linked_exports)
        &&& keys_distinct(self.suggested_names)
        &&& forall|k: int|
            0 <= k < self.synthesized.len() ==> (#[trigger] self.synthesized[k]).owner == self.id
                && self.synthesized[k].disambiguator == SYNTHESIZED_BASE + k
    }

    /// The export that `name` stands for at present, if any.
    pub open spec fn find_exported(self, name: Seq<char>) -> Option<ExportedSpecifierView> {
        lookup(self.linked_exports, name)
    }

    /// Exports `spec` under `name`, in place of what `name` stood for before.
    pub open spec fn add_to_linked_exports(self, name: Seq<char>, spec: ExportedSpecifierView) -> Self {
        NormalModuleView { linked_exports: put(self.linked_exports, name, spec), ..self }
    }

    /// Adds `spec` to the imports that are linked to the module `owner`.
    pub open spec fn add_to_linked_imports(self, owner: ModuleIdView, spec: ImportedSpecifierView) -> Self {
        let linked = match key_index(self.linked_imports, owner) {
            Some(i) => self.linked_imports.update(i, (owner, insert(self.linked_imports[i].1, spec))),
            None => self.linked_imports.push((owner, seq![spec])),
        };
        NormalModuleView { linked_imports: linked, ..self }
    }

    /// Records that a consumer calls `name` by the name `suggested`.
    pub open spec fn suggest_name(self, name: Seq<char>, suggested: Seq<char>) -> Self {
        NormalModuleView { suggested_names: put(self.suggested_names, name, suggested), ..self }
    }

    pub open spec fn mark_namespace_id_referenced(self) -> Self {
        NormalModuleView { namespace_referenced: true, ..self }
    }

    /// The symbol that `create_top_level_symbol` makes next for `name`.
    pub open spec fn next_symbol(self, name: Seq<char>) -> SymbolView {
        synthesized_symbol(self.id, name, self.synthesized.len())
    }

    /// The module after a fresh top-level symbol named `name` is made.
    pub open spec fn create_top_level_symbol(self, name: Seq<char>) -> Self {
        NormalModuleView { synthesized: self.synthesized.push(self.next_symbol(name)), ..self }
    }

    /// The export that stands in for the missing name `name`.
    pub open spec fn shim_for(self, name: Seq<char>) -> ExportedSpecifierView {
        ExportedSpecifierView { exported_as: name, local_id: self.next_symbol(name), owner: self.id }
    }

    /// The module after the missing name `name` is exported as a fresh binding to `undefined`.
    pub open spec fn shim_missing_export(self, name: Seq<char>) -> Self {
        let shim = self.shim_for(name);
        let made = self.create_top_level_symbol(name);
        NormalModuleView {
            shimmed: made.shimmed.push(shim.local_id),
            ..made.add_to_linked_exports(name, shim)
        }
    }

    /// The module after `name` is shimmed if, and only if, it is not exported.
    pub open spec fn shim_missing_export_if_needed(self, name: Seq<char>) -> Self {
        if self.find_exported(name) is Some {
            self
        } else {
            self.shim_missing_export(name)
        }
    }

    /// The members of the namespace object: each exported name with the binding behind it.
    pub open spec fn namespace_members(self) -> Seq<(Seq<char>, SymbolView)> {
        Seq::new(
            self.linked_exports.len(),
            |i: int| (self.linked_exports[i].0, self.linked_exports[i].1.local_id),
        )
    }

    /// The module after its namespace object is described, where one is referenced.
    pub open spec fn generate_namespace_export(self) -> Self {
        if self.namespace_referenced {
            NormalModuleView { namespace_export: Some(self.namespace_members()), ..self }
        } else {
            self
        }
    }
}

/// A module whose source was parsed: what the scan found in it and what the linker made of it.
#[derive(Debug)]
pub struct NormalModule {
    pub id: ModuleId,
    /// Static dependencies, in source order.
    pub dependencies: Vec<ModuleId>,
    /// Modules imported by `import(..)` expressions.
    pub dynamic_dependencies: Vec<ModuleId>,
    /// Imports as written, by importee.
    pub imports: Vec<(ModuleId, Vec<ImportedSpecifier>)>,
    /// `export { x } from "./m"`, by importee.
    pub re_exported_ids: Vec<(ModuleId, Vec<ReExportedSpecifier>)>,
    /// Targets of `export * from "./m"`.
    pub re_export_all: Vec<ModuleId>,
    /// The external ones among the wildcard targets; filled by the linker.
    pub external_modules_of_re_export_all: Vec<ModuleId>,
    /// Imports by the module that owns the binding; filled by the linker.
    pub linked_imports: Vec<(ModuleId, Vec<ImportedSpecifier>)>,
    /// The export table: local exports at first, completed by the linker.
    pub linked_exports: Vec<(String, ExportedSpecifier)>,
    /// Hints for later renaming.
    pub suggested_names: Vec<(String, String)>,
    /// Whether some consumer takes the module's namespace object.
    pub namespace_referenced: bool,
    pub exec_order: usize,
    pub is_user_defined_entry: bool,
    /// The symbols that the linker made in this module, in the order of making.
    pub synthesized: Vec<Symbol>,
    /// Those among them that stand for a missing export and are bound to `undefined`.
    pub shimmed: Vec<Symbol>,
    /// The members of the namespace object to materialize, once the patch pass has run.
    pub namespace_export: Option<Vec<(String, Symbol)>>,
}

impl View for NormalModule {
    type V = NormalModuleView;

    open spec fn view(&self) -> NormalModuleView {
        NormalModuleView {
            id: self.id@,
            dependencies: self.dependencies.deep_view(),
            dynamic_dependencies: self.dynamic_dependencies.deep_view(),
            imports: self.imports.deep_view(),
            re_exported_ids: self.re_exported_ids.deep_view(),
            re_export_all: self.re_export_all.deep_view(),
            external_modules_of_re_export_all: self.external_modules_of_re_export_all.deep_view(),
            linked_imports: self.linked_imports.deep_view(),
            linked_exports: self.linked_exports.deep_view(),
            suggested_names: self.suggested_names.deep_view(),
            namespace_referenced: self.namespace_referenced,
            exec_order: self.exec_order,
            is_user_defined_entry: self.is_user_defined_entry,
            synthesized: self.synthesized.deep_view(),
            shimmed: self.shimmed.deep_view(),
            namespace_export: match self.namespace_export {
                Some(members) => Some(members.deep_view()),
                None => None,
            },
        }
    }
}

impl DeepView for NormalModule {
    type V = NormalModuleView;

    open spec fn deep_view(&self) -> NormalModuleView {
        self@
    }
}

/// Every operation on a module keeps the invariant of its tables.
pub proof fn lemma_tables_kept()
    ensures
        forall|m: NormalModuleView, name: Seq<char>, spec: ExportedSpecifierView|
            m.tables_wf() ==> (#[trigger] m.add_to_linked_exports(name, spec)).tables_wf(),
        forall|m: NormalModuleView, owner: ModuleIdView, spec: ImportedSpecifierView|
            m.tables_wf() ==> (#[trigger] m.add_to_linked_imports(owner, spec)).tables_wf(),
        forall|m: NormalModuleView, name: Seq<char>, suggested: Seq<char>|
            m.tables_wf() ==> (#[trigger] m.suggest_name(name, suggested)).tables_wf(),
        forall|m: NormalModuleView|
            m.tables_wf() ==> (#[trigger] m.mark_namespace_id_referenced()).tables_wf(),
        forall|m: NormalModuleView, name: Seq<char>|
            m.tables_wf() ==> (#[trigger] m.create_top_level_symbol(name)).tables_wf(),
        forall|m: NormalModuleView, name: Seq<char>|
            m.tables_wf() ==> (#[trigger] m.shim_missing_export(name)).tables_wf(),
        forall|m: NormalModuleView| m.tables_wf() ==> (#[trigger] m.generate_namespace_export()).tables_wf(),
        forall|m: ExternalModuleView, name: Seq<char>|
            m.tables_wf() ==> (#[trigger] m.find_exported_symbol(name)).tables_wf(),
{
    assert forall|m: NormalModuleView, name: Seq<char>, spec: ExportedSpecifierView|
        m.tables_wf() implies (#[trigger] m.add_to_linked_exports(name, spec)).tables_wf() by {
        lemma_put_keys_distinct(m.linked_exports, name, spec);
    }
    assert forall|m: NormalModuleView, owner: ModuleIdView, spec: ImportedSpecifierView|
        m.tables_wf() implies (#[trigger] m.add_to_linked_imports(owner, spec)).tables_wf() by {
        lemma_group_insert_distinct(m.linked_imports, owner, spec);
        assert(m.add_to_linked_imports(owner, spec).linked_imports == group_insert(
            m.linked_imports,
            owner,
            spec,
        ));
    }
    assert forall|m: NormalModuleView, name: Seq<char>, suggested: Seq<char>|
        m.tables_wf() implies (#[trigger] m.suggest_name(name, suggested)).tables_wf() by {
        lemma_put_keys_distinct(m.suggested_names, name, suggested);
    }
    assert forall|m: NormalModuleView, name: Seq<char>|
        m.tables_wf() implies (#[trigger] m.shim_missing_export(name)).tables_wf() by {
        lemma_put_keys_distinct(m.create_top_level_symbol(name).linked_exports, name, m.shim_for(name));
    }
    assert forall|m: ExternalModuleView, name: Seq<char>|
        m.tables_wf() implies (#[trigger] m.find_exported_symbol(name)).tables_wf() by {
        let t = m.find_exported_symbol(name).exported_symbols;
        if lookup(m.exported_symbols, name) is None {
            assert forall|i: int, j: int| 0 <= i < j < t.len() implies (#[trigger] t[i]).0 != (
            #[trigger] t[j]).0 by {
                if j < m.exported_symbols.len() {
                    assert(m.exported_symbols[i].0 != m.exported_symbols[j].0);
                } else {
                    assert(m.exported_symbols[i].0 != name);
                }
            }
        }
    }
}

/// A symbol that a module makes is new: it is none of the symbols that the module has
/// made before, and, being synthesized, no symbol of a binding declared in source.
pub proof fn lemma_next_symbol_fresh(m: NormalModuleView, name: Seq<char>)
    requires
        m.tables_wf(),
    ensures
        !m.synthesized.contains(m.next_symbol(name)),
        m.next_symbol(name).is_synthesized(),
        m.next_symbol(name).owner == m.id,
        m.create_top_level_symbol(name).synthesized == m.synthesized.push(m.next_symbol(name)),
{
    let s = m.next_symbol(name);
    if m.synthesized.contains(s) {
        let k = choose|k: int| 0 <= k < m.synthesized.len() && m.synthesized[k] == s;
        assert(m.synthesized[k].disambiguator == SYNTHESIZED_BASE + k);
    }
}

/// The module `id` before anything is known of its contents.
pub open spec fn empty_module(id: ModuleIdView, is_user_defined_entry: bool) -> NormalModuleView {
    NormalModuleView {
        id,
        dependencies: Seq::empty(),
        dynamic_dependencies: Seq::empty(),
        imports: Seq::empty(),
        re_exported_ids: Seq::empty(),
        re_export_all: Seq::empty(),
        external_modules_of_re_export_all: Seq::empty(),
        linked_imports: Seq::empty(),
        linked_exports: Seq::empty(),
        suggested_names: Seq::empty(),
        namespace_referenced: false,
        exec_order: UNSET_EXEC_ORDER,
        is_user_defined_entry,
        synthesized: Seq::empty(),
        shimmed: Seq::empty(),
        namespace_export: None,
    }
}

impl NormalModule {
    /// A module without contents; the scan's findings are added to its fields.
    pub fn new(id: ModuleId, is_user_defined_entry: bool) -> (r: Self)
        ensures
            r@ == empty_module(id@, is_user_defined_entry),
            r@.tables_wf(),
    {
        let r = NormalModule {
            id,
            dependencies: Vec::new(),
            dynamic_dependencies: Vec::new(),
            imports: Vec::new(),
            re_exported_ids: Vec::new(),
            re_export_all: Vec::new(),
            external_modules_of_re_export_all: Vec::new(),
            linked_imports: Vec::new(),
            linked_exports: Vec::new(),
            suggested_names: Vec::new(),
            namespace_referenced: false,
            exec_order: UNSET_EXEC_ORDER,
            is_user_defined_entry,
            synthesized: Vec::new(),
            shimmed: Vec::new(),
            namespace_export: None,
        };
        assert(r.dependencies.deep_view() =~= Seq::empty());
        assert(r.dynamic_dependencies.deep_view() =~= Seq::empty());
        assert(r.imports.deep_view() =~= Seq::empty());
        assert(r.re_exported_ids.deep_view() =~= Seq::empty());
        assert(r.re_export_all.deep_view() =~= Seq::empty());
        assert(r.external_modules_of_re_export_all.deep_view() =~= Seq::empty());
        assert(r.linked_imports.deep_view() =~= Seq::empty());
        assert(r.linked_exports.deep_view() =~= Seq::empty());
        assert(r.suggested_names.deep_view() =~= Seq::empty());
        assert(r.synthesized.deep_view() =~= Seq::empty());
        assert(r.shimmed.deep_view() =~= Seq::empty());
        r
    }

    /// The export that `name` stands for at present, if any.
    pub fn find_exported(&self, name: &str) -> (r: Option<&ExportedSpecifier>)
        ensures
            match r {
                Some(spec) => self@.find_exported(name@) == Some(spec@),
                None => self@.find_exported(name@) == None::<ExportedSpecifierView>,
            },
    {
        match find_name(&self.linked_exports, name) {
            Some(i) => Some(&self.linked_exports[i].1),
            None => None,
        }
    }

    /// Exports `spec` under `name`, in place of what `name` stood for before.
    pub fn add_to_linked_exports(&mut self, name: String, spec: ExportedSpecifier)
        ensures
            old(self)@.tables_wf() ==> final(self)@.tables_wf(),
            final(self)@ == old(self)@.add_to_linked_exports(name@, spec@),
    {
        proof {
            lemma_tables_kept();
        }
        match find_name(&self.linked_exports, name.as_str()) {
            Some(i) => {
                self.linked_exports[i] = (name, spec);
                assert(self.linked_exports.deep_view() =~= old(self).linked_exports.deep_view().update(
                    i as int,
                    (name@, spec@),
                ));
            },
            None => {
                self.linked_exports.push((name, spec));
                assert(self.linked_exports.deep_view() =~= old(self).linked_exports.deep_view().push(
                    (name@, spec@),
                ));
            },
        }
    }

    /// Adds `spec` to the imports that are linked to the module `owner`.
    pub fn add_to_linked_imports(&mut self, owner: &ModuleId, spec: ImportedSpecifier)
        ensures
            old(self)@.tables_wf() ==> final(self)@.tables_wf(),
            final(self)@ == old(self)@.add_to_linked_imports(owner@, spec@),
    {
        proof {
            lemma_tables_kept();
        }
        let ghost before = self.linked_imports.deep_view();
        match find_module(&self.linked_imports, owner) {
            Some(i) => {
                assert(before[i as int].1 == self.linked_imports[i as int].1.deep_view());
                if !contains_specifier(&self.linked_imports[i].1, &spec) {
                    self.linked_imports[i].1.push(spec);
                    assert(self.linked_imports[i as int].1.deep_view() =~= before[i as int].1.push(
                        spec@,
                    ));
                }
                assert(self.linked_imports.deep_view()[i as int] == (
                    owner@,
                    insert(before[i as int].1, spec@),
                ));
                assert(self.linked_imports.deep_view() =~= before.update(
                    i as int,
                    (owner@, insert(before[i as int].1, spec@)),
                ));
            },
            None => {
                let mut specs: Vec<ImportedSpecifier> = Vec::new();
                specs.push(spec);
                assert(specs.deep_view() =~= seq![spec@]);
                self.linked_imports.push((owner.clone(), specs));
                assert(self.linked_imports.deep_view() =~= before.push((owner@, seq![spec@])));
            },
        }
    }

    /// Records that a consumer calls `name` by the name `suggested`.
    pub fn suggest_name(&mut self, name: &str, suggested: &str)
        ensures
            old(self)@.tables_wf() ==> final(self)@.tables_wf(),
            final(self)@ == old(self)@.suggest_name(name@, suggested@),
    {
        proof {
            lemma_tables_kept();
        }
        let ghost before = self.suggested_names.deep_view();
        match find_name(&self.suggested_names, name) {
            Some(i) => {
                self.suggested_names[i] = (name.to_owned(), suggested.to_owned());
                assert(self.suggested_names.deep_view() =~= before.update(
                    i as int,
                    (name@, suggested@),
                ));
            },
            None => {
                self.suggested_names.push((name.to_owned(), suggested.to_owned()));
                assert(self.suggested_names.deep_view() =~= before.push((name@, suggested@)));
            },
        }
    }

    pub fn mark_namespace_id_referenced(&mut self)
        ensures
            old(self)@.tables_wf() ==> final(self)@.tables_wf(),
            final(self)@ == old(self)@.mark_namespace_id_referenced(),
    {
        proof {
            lemma_tables_kept();
        }
        self.namespace_referenced = true;
    }

    /// Makes a top-level symbol named `name` that no earlier call has returned and that
    /// no scanner hands out.
    pub fn create_top_level_symbol(&mut self, name: &str) -> (r: Symbol)
        ensures
            old(self)@.tables_wf() ==> final(self)@.tables_wf(),
            r@ == old(self)@.next_symbol(name@),
            final(self)@ == old(self)@.create_top_level_symbol(name@),
    {
        proof {
            lemma_tables_kept();
        }
        let r = Symbol::synthesized(&self.id, name, self.synthesized.len());
        self.synthesized.push(r.clone());
        assert(self.synthesized.deep_view() =~= old(self).synthesized.deep_view().push(r@));
        r
    }

    /// Exports the missing name `name` as a fresh binding to `undefined`.
    pub fn shim_missing_export(&mut self, name: &str)
        ensures
            old(self)@.tables_wf() ==> final(self)@.tables_wf(),
            final(self)@ == old(self)@.shim_missing_export(name@),
    {
        proof {
            lemma_tables_kept();
        }
        let local_id = self.create_top_level_symbol(name);
        self.shimmed.push(local_id.clone());
        assert(self.shimmed.deep_view() =~= old(self).shimmed.deep_view().push(local_id@));
        let shim = ExportedSpecifier {
            exported_as: name.to_owned(),
            local_id,
            owner: self.id.clone(),
        };
        self.add_to_linked_exports(name.to_owned(), shim);
    }

    /// Describes the namespace object of a module whose namespace is referenced.
    pub fn generate_namespace_export(&mut self)
        ensures
            old(self)@.tables_wf() ==> final(self)@.tables_wf(),
            final(self)@ == old(self)@.generate_namespace_export(),
    {
        proof {
            lemma_tables_kept();
        }
        if self.namespace_referenced {
            let mut members: Vec<(String, Symbol)> = Vec::new();
            let mut i: usize = 0;
            while i < self.linked_exports.len()
                invariant
                    i <= self.linked_exports.len(),
                    members.len() == i,
                    forall|j: int|
                        0 <= j < i ==> #[trigger] members.deep_view()[j]
                            == self@.namespace_members()[j],
                decreases self.linked_exports.len() - i,
            {
                let ghost before = members.deep_view();
                let name = self.linked_exports[i].0.clone();
                let local = self.linked_exports[i].1.local_id.clone();
                assert(name@ == self.linked_exports.deep_view()[i as int].0);
                assert(local@ == self.linked_exports.deep_view()[i as int].1.local_id);
                members.push((name, local));
                assert(members.deep_view() =~= before.push((name@, local@)));
                i += 1;
            }
            assert(members.deep_view() =~= self@.namespace_members());
            self.namespace_export = Some(members);
        }
    }
}

/// Shims the export `imported_name` of `importee` if, and only if, it is missing, and says
/// whether it did.
pub fn shim_missing_export_if_needed(importee: &mut NormalModule, imported_name: &str) -> (r: bool)
    ensures
        r == (old(importee)@.find_exported(imported_name@) is None),
        final(importee)@ == old(importee)@.shim_missing_export_if_needed(imported_name@),
{
    if importee.find_exported(imported_name).is_some() {
        false
    } else {
        importee.shim_missing_export(imported_name);
        true
    }
}

/// An export table that has no name twice has no name twice after an export is added.
pub proof fn lemma_exports_stay_distinct(m: NormalModuleView, name: Seq<char>, spec: ExportedSpecifierView)
    requires
        keys_distinct(m.linked_exports),
    ensures
        keys_distinct(m.add_to_linked_exports(name, spec).linked_exports),
        m.add_to_linked_exports(name, spec).find_exported(name) == Some(spec),
        forall|other: Seq<char>|
            other != name ==> #[trigger] m.add_to_linked_exports(name, spec).find_exported(other)
                == m.find_exported(other),
{
    lemma_put_keys_distinct(m.linked_exports, name, spec);
    lemma_lookup_put(m.linked_exports, name, spec, name);
    assert forall|other: Seq<char>| other != name implies #[trigger] m.add_to_linked_exports(
        name,
        spec,
    ).find_exported(other) == m.find_exported(other) by {
        lemma_lookup_put(m.linked_exports, name, spec, other);
    }
}

/// After a name was shimmed it is exported, as a synthesized binding of the module itself.
pub proof fn lemma_shim_exports(m: NormalModuleView, name: Seq<char>)
    ensures
        m.shim_missing_export(name).find_exported(name) == Some(m.shim_for(name)),
        m.shim_for(name).local_id.is_synthesized(),
        m.shim_for(name).owner == m.id,
        m.shim_missing_export_if_needed(name).find_exported(name) is Some,
        forall|other: Seq<char>|
            other != name ==> #[trigger] m.shim_missing_export(name).find_exported(other)
                == m.find_exported(other),
{
    lemma_lookup_put(m.linked_exports, name, m.shim_for(name), name);
    assert forall|other: Seq<char>| other != name implies #[trigger] m.shim_missing_export(
        name,
    ).find_exported(other) == m.find_exported(other) by {
        lemma_lookup_put(m.linked_exports, name, m.shim_for(name), other);
    }
}

/// Shimming a name twice is shimming it once: the second time the name is found and
/// nothing is added. Where the name was missing, the first time adds one export entry.
pub proof fn lemma_shim_idempotent(m: NormalModuleView, name: Seq<char>)
    ensures
        m.shim_missing_export_if_needed(name).shim_missing_export_if_needed(name)
            == m.shim_missing_export_if_needed(name),
        m.find_exported(name) is None ==> m.shim_missing_export_if_needed(name).linked_exports
            == m.linked_exports.push((name, m.shim_for(name))),
        m.find_exported(name) is Some ==> m.shim_missing_export_if_needed(name) == m,
{
    lemma_shim_exports(m, name);
    if m.find_exported(name) is None {
        if has_key(m.linked_exports, name) {
            lemma_key_index_some(m.linked_exports, name);
        }
    }
}

/// The symbol under which the external module `id` is known to export `name`.
pub open spec fn external_symbol(id: ModuleIdView, name: Seq<char>) -> SymbolView {
    SymbolView { owner: id, name, disambiguator: 0 }
}

/// Mathematical value of an [`ExternalModule`].
pub struct ExternalModuleView {
    pub id: ModuleIdView,
    pub exec_order: usize,
    pub exported_symbols: Seq<(Seq<char>, SymbolView)>,
}

impl ExternalModuleView {
    /// The invariant of the symbol table: no name has two symbols.
    pub open spec fn tables_wf(self) -> bool {
        keys_distinct(self.exported_symbols)
    }

    /// The one symbol that stands for the export `name`.
    pub open spec fn exported_symbol(self, name: Seq<char>) -> SymbolView {
        match lookup(self.exported_symbols, name) {
            Some(symbol) => symbol,
            None => external_symbol(self.id, name),
        }
    }

    /// The module after the symbol for `name` was asked for.
    pub open spec fn find_exported_symbol(self, name: Seq<char>) -> Self {
        match lookup(self.exported_symbols, name) {
            Some(_) => self,
            None => ExternalModuleView {
                exported_symbols: self.exported_symbols.push((name, external_symbol(self.id, name))),
                ..self
            },
        }
    }
}

/// A module that the bundle does not own. Its exports are taken to exist; each imported
/// name gets one symbol, shared by all who import it.
#[derive(Debug)]
pub struct ExternalModule {
    pub id: ModuleId,
    pub exec_order: usize,
    /// The symbol of each name imported so far.
    pub exported_symbols: Vec<(String, Symbol)>,
}

impl View for ExternalModule {
    type V = ExternalModuleView;

    open spec fn view(&self) -> ExternalModuleView {
        ExternalModuleView {
            id: self.id@,
            exec_order: self.exec_order,
            exported_symbols: self.exported_symbols.deep_view(),
        }
    }
}

impl DeepView for ExternalModule {
    type V = ExternalModuleView;

    open spec fn deep_view(&self) -> ExternalModuleView {
        self@
    }
}

impl ExternalModule {
    pub fn new(id: ModuleId) -> (r: Self)
        ensures
            r@ == (ExternalModuleView {
                id: id@,
                exec_order: UNSET_EXEC_ORDER,
                exported_symbols: Seq::empty(),
            }),
            r@.tables_wf(),
    {
        let r = ExternalModule { id, exec_order: UNSET_EXEC_ORDER, exported_symbols: Vec::new() };
        assert(r.exported_symbols.deep_view() =~= Seq::empty());
        r
    }

    /// The symbol that stands for the export `name`, made at the first request.
    pub fn find_exported_symbol(&mut self, name: &str) -> (r: Symbol)
        ensures
            old(self)@.tables_wf() ==> final(self)@.tables_wf(),
            r@ == old(self)@.exported_symbol(name@),
            final(self)@ == old(self)@.find_exported_symbol(name@),
    {
        proof {
            lemma_tables_kept();
        }
        match find_name(&self.exported_symbols, name) {
            Some(i) => self.exported_symbols[i].1.clone(),
            None => {
                let symbol = Symbol { owner: self.id.clone(), name: name.to_owned(), disambiguator: 0 };
                self.exported_symbols.push((name.to_owned(), symbol.clone()));
                assert(self.exported_symbols.deep_view() =~= old(self).exported_symbols.deep_view().push(
                    (name@, symbol@),
                ));
                symbol
            },
        }
    }
}

/// Mathematical value of a [`NormOrExt`].
pub enum ModuleView {
    Normal(NormalModuleView),
    External(ExternalModuleView),
}

impl ModuleView {
    /// The invariant of the tables of the module.
    pub open spec fn tables_wf(self) -> bool {
        match self {
            ModuleView::Normal(m) => m.tables_wf(),
            ModuleView::External(m) => m.tables_wf(),
        }
    }

    pub open spec fn id(self) -> ModuleIdView {
        match self {
            ModuleView::Normal(m) => m.id,
            ModuleView::External(m) => m.id,
        }
    }

    pub open spec fn exec_order(self) -> usize {
        match self {
            ModuleView::Normal(m) => m.exec_order,
            ModuleView::External(m) => m.exec_order,
        }
    }

    pub open spec fn set_exec_order(self, exec_order: usize) -> Self {
        match self {
            ModuleView::Normal(m) => ModuleView::Normal(NormalModuleView { exec_order, ..m }),
            ModuleView::External(m) => ModuleView::External(ExternalModuleView { exec_order, ..m }),
        }
    }

    /// Static dependencies; an external module has none.
    pub open spec fn dependencies(self) -> Seq<ModuleIdView> {
        match self {
            ModuleView::Normal(m) => m.dependencies,
            ModuleView::External(_) => Seq::empty(),
        }
    }

    /// Dynamically imported modules; an external module has none.
    pub open spec fn dynamic_dependencies(self) -> Seq<ModuleIdView> {
        match self {
            ModuleView::Normal(m) => m.dynamic_dependencies,
            ModuleView::External(_) => Seq::empty(),
        }
    }
}

/// A node of the module graph.
#[derive(Debug)]
pub enum NormOrExt {
    Normal(NormalModule),
    External(ExternalModule),
}

impl View for NormOrExt {
    type V = ModuleView;

    open spec fn view(&self) -> ModuleView {
        match self {
            NormOrExt::Normal(m) => ModuleView::Normal(m@),
            NormOrExt::External(m) => ModuleView::External(m@),
        }
    }
}

impl DeepView for NormOrExt {
    type V = ModuleView;

    open spec fn deep_view(&self) -> ModuleView {
        self@
    }
}

impl NormOrExt {
    pub fn id(&self) -> (r: &ModuleId)
        ensures
            r@ == self@.id(),
    {
        match self {
            NormOrExt::Normal(m) => &m.id,
            NormOrExt::External(m) => &m.id,
        }
    }

    pub fn exec_order(&self) -> (r: usize)
        ensures
            r == self@.exec_order(),
    {
        match self {
            NormOrExt::Normal(m) => m.exec_order,
            NormOrExt::External(m) => m.exec_order,
        }
    }

    pub fn set_exec_order(&mut self, exec_order: usize)
        ensures
            old(self)@.tables_wf() ==> final(self)@.tables_wf(),
            final(self)@ == old(self)@.set_exec_order(exec_order),
    {
        match self {
            NormOrExt::Normal(m) => {
                m.exec_order = exec_order;
            },
            NormOrExt::External(m) => {
                m.exec_order = exec_order;
            },
        }
    }

    pub fn is_external(&self) -> (r: bool)
        ensures
            r == (self@ is External),
    {
        match self {
            NormOrExt::Normal(_) => false,
            NormOrExt::External(_) => true,
        }
    }

    pub fn as_norm(&self) -> (r: Option<&NormalModule>)
        ensures
            match r {
                Some(m) => self@ == ModuleView::Normal(m@),
                None => self@ is External,
            },
    {
        match self {
            NormOrExt::Normal(m) => Some(m),
            NormOrExt::External(_) => None,
        }
    }
}

impl NormOrExt {
    /// The normal module behind this node.
    pub fn expect_norm_mut(&mut self) -> (r: &mut NormalModule)
        requires
            old(self)@ is Normal,
        ensures
            ModuleView::Normal(r@) == old(self)@,
            final(self)@ == ModuleView::Normal(final(r)@),
    {
        match self {
            NormOrExt::Normal(m) => m,
            NormOrExt::External(_) => unreached(),
        }
    }

    /// The normal module behind this node.
    pub fn expect_norm(&self) -> (r: &NormalModule)
        requires
            self@ is Normal,
        ensures
            ModuleView::Normal(r@) == self@,
    {
        match self {
            NormOrExt::Normal(m) => m,
            NormOrExt::External(_) => unreached(),
        }
    }

    /// The external module behind this node.
    pub fn expect_ext_mut(&mut self) -> (r: &mut ExternalModule)
        requires
            old(self)@ is External,
        ensures
            ModuleView::External(r@) == old(self)@,
            final(self)@ == ModuleView::External(final(r)@),
    {
        match self {
            NormOrExt::External(m) => m,
            NormOrExt::Normal(_) => unreached(),
        }
    }
}

} // verus!
