//! What a module task hands in, and the module that is made of it.
//!
//! The scan knows other modules by the specifiers written in the source. The module
//! knows them by their ids. Specifiers that resolve to one id fall together.

use vstd::prelude::*;
use crate::ident::{ModuleId, ModuleIdView};
use crate::module::{empty_module, NormalModule, NormalModuleView};
use crate::specifier::{
    ExportedSpecifier, ExportedSpecifierView, ImportedSpecifier, ImportedSpecifierView,
    ReExportedSpecifier, ReExportedSpecifierView,
};
use crate::table::{
    contains_specifier, find_module, find_name, grouped_distinct, has_key, insert, insert_module,
    key_index, keys_distinct, lemma_insert_distinct, lemma_key_index_some, lookup,
};

verus! {

/// The groups `groups` with `item` added to the group of `key`.
pub open spec fn group_insert<K, V>(groups: Seq<(K, Seq<V>)>, key: K, item: V) -> Seq<(K, Seq<V>)> {
    match key_index(groups, key) {
        Some(i) => groups.update(i, (key, insert(groups[i].1, item))),
        None => groups.push((key, seq![item])),
    }
}

/// The groups `groups` with the first `n` of `items` added to the group of `key`.
pub open spec fn group_insert_all<K, V>(groups: Seq<(K, Seq<V>)>, key: K, items: Seq<V>, n: int) -> Seq<
    (K, Seq<V>),
>
    decreases n,
{
    if 0 < n <= items.len() {
        group_insert(group_insert_all(groups, key, items, n - 1), key, items[n - 1])
    } else {
        groups
    }
}

/// Adding to a group leaves no key bound twice and no member twice in a group.
pub proof fn lemma_group_insert_distinct<K, V>(groups: Seq<(K, Seq<V>)>, key: K, item: V)
    requires
        grouped_distinct(groups),
    ensures
        grouped_distinct(group_insert(groups, key, item)),
{
    let after = group_insert(groups, key, item);
    if has_key(groups, key) {
        crate::table::lemma_key_index_some(groups, key);
        let at = key_index(groups, key).unwrap();
        assert forall|a: int, b: int| 0 <= a < b < after.len() implies (#[trigger] after[a]).0 != (
        #[trigger] after[b]).0 by {
            assert(groups[a].0 != groups[b].0);
            assert(groups[at].0 == key);
        }
        assert forall|a: int| 0 <= a < after.len() implies (#[trigger] after[a]).1.no_duplicates() by {
            assert(groups[a].1.no_duplicates());
        }
    } else {
        assert forall|a: int, b: int| 0 <= a < b < after.len() implies (#[trigger] after[a]).0 != (
        #[trigger] after[b]).0 by {
            if b < groups.len() {
                assert(groups[a].0 != groups[b].0);
            } else {
                assert(groups[a].0 != key);
            }
        }
        assert forall|a: int| 0 <= a < after.len() implies (#[trigger] after[a]).1.no_duplicates() by {
            if a < groups.len() {
                assert(groups[a].1.no_duplicates());
            }
        }
    }
}

pub proof fn lemma_group_insert_all_distinct<K, V>(groups: Seq<(K, Seq<V>)>, key: K, items: Seq<V>, n: int)
    requires
        grouped_distinct(groups),
    ensures
        grouped_distinct(group_insert_all(groups, key, items, n)),
    decreases n,
{
    if 0 < n <= items.len() {
        lemma_group_insert_all_distinct(groups, key, items, n - 1);
        lemma_group_insert_distinct(group_insert_all(groups, key, items, n - 1), key, items[n - 1]);
    }
}

/// Whether each of `specifiers` has a resolved id.
pub open spec fn all_resolved(specifiers: Seq<Seq<char>>, resolved: Seq<(Seq<char>, ModuleIdView)>) -> bool {
    forall|i: int| 0 <= i < specifiers.len() ==> has_key(resolved, #[trigger] specifiers[i])
}

/// The ids that the first `n` of `specifiers` resolve to, each once, in the order of
/// their first mention.
pub open spec fn resolved_ids(
    specifiers: Seq<Seq<char>>,
    resolved: Seq<(Seq<char>, ModuleIdView)>,
    n: int,
) -> Seq<ModuleIdView>
    decreases n,
{
    if 0 < n <= specifiers.len() {
        insert(
            resolved_ids(specifiers, resolved, n - 1),
            lookup(resolved, specifiers[n - 1]).unwrap(),
        )
    } else {
        Seq::empty()
    }
}

/// The first `n` of the groups `groups`, which are by specifier, as groups by resolved id.
pub open spec fn resolved_groups<V>(
    groups: Seq<(Seq<char>, Seq<V>)>,
    resolved: Seq<(Seq<char>, ModuleIdView)>,
    n: int,
) -> Seq<(ModuleIdView, Seq<V>)>
    decreases n,
{
    if 0 < n <= groups.len() {
        group_insert_all(
            resolved_groups(groups, resolved, n - 1),
            lookup(resolved, groups[n - 1].0).unwrap(),
            groups[n - 1].1,
            groups[n - 1].1.len() as int,
        )
    } else {
        Seq::empty()
    }
}

/// The specifiers by which the groups `groups` go.
pub open spec fn group_keys<V>(groups: Seq<(Seq<char>, Seq<V>)>) -> Seq<Seq<char>> {
    Seq::new(groups.len(), |i: int| groups[i].0)
}

/// Mathematical value of a [`ScanResult`].
pub struct ScanResultView {
    pub dependencies: Seq<Seq<char>>,
    pub dyn_dependencies: Seq<Seq<char>>,
    pub imports: Seq<(Seq<char>, Seq<ImportedSpecifierView>)>,
    pub re_exported_ids: Seq<(Seq<char>, Seq<ReExportedSpecifierView>)>,
    pub re_export_all: Seq<Seq<char>>,
    pub local_exports: Seq<(Seq<char>, ExportedSpecifierView)>,
}

/// What the scan of a module found, with other modules named by specifier.
#[derive(Debug)]
pub struct ScanResult {
    /// The specifiers of the static dependencies, in source order.
    pub dependencies: Vec<String>,
    /// The specifiers of `import(..)` expressions.
    pub dyn_dependencies: Vec<String>,
    pub imports: Vec<(String, Vec<ImportedSpecifier>)>,
    pub re_exported_ids: Vec<(String, Vec<ReExportedSpecifier>)>,
    /// The sources of `export * from ".."`.
    pub re_export_all: Vec<String>,
    /// The exports that the module declares itself, by exported name.
    pub local_exports: Vec<(String, ExportedSpecifier)>,
}

impl View for ScanResult {
    type V = ScanResultView;

    open spec fn view(&self) -> ScanResultView {
        ScanResultView {
            dependencies: self.dependencies.deep_view(),
            dyn_dependencies: self.dyn_dependencies.deep_view(),
            imports: self.imports.deep_view(),
            re_exported_ids: self.re_exported_ids.deep_view(),
            re_export_all: self.re_export_all.deep_view(),
            local_exports: self.local_exports.deep_view(),
        }
    }
}

/// What a module task hands in when it has scanned its module.
#[derive(Debug)]
pub struct TaskResult {
    pub module_id: ModuleId,
    pub scan_result: ScanResult,
    /// The id that each specifier of the module resolved to.
    pub resolved_ids: Vec<(String, ModuleId)>,
    pub is_user_defined_entry: bool,
}

/// Whether every specifier that the scan names has a resolved id.
pub open spec fn scan_resolved(scan: ScanResultView, resolved: Seq<(Seq<char>, ModuleIdView)>) -> bool {
    &&& all_resolved(scan.dependencies, resolved)
    &&& all_resolved(scan.dyn_dependencies, resolved)
    &&& all_resolved(group_keys(scan.imports), resolved)
    &&& all_resolved(group_keys(scan.re_exported_ids), resolved)
    &&& all_resolved(scan.re_export_all, resolved)
}

/// The module `id` as its scan and the resolved ids describe it; nothing is linked yet,
/// and its export table holds its own exports.
pub open spec fn scanned_module(
    id: ModuleIdView,
    is_user_defined_entry: bool,
    scan: ScanResultView,
    resolved: Seq<(Seq<char>, ModuleIdView)>,
) -> NormalModuleView {
    NormalModuleView {
        dependencies: resolved_ids(scan.dependencies, resolved, scan.dependencies.len() as int),
        dynamic_dependencies: resolved_ids(
            scan.dyn_dependencies,
            resolved,
            scan.dyn_dependencies.len() as int,
        ),
        imports: resolved_groups(scan.imports, resolved, scan.imports.len() as int),
        re_exported_ids: resolved_groups(
            scan.re_exported_ids,
            resolved,
            scan.re_exported_ids.len() as int,
        ),
        re_export_all: resolved_ids(scan.re_export_all, resolved, scan.re_export_all.len() as int),
        linked_exports: scan.local_exports,
        ..empty_module(id, is_user_defined_entry)
    }
}

pub proof fn lemma_resolved_ids_distinct(
    specifiers: Seq<Seq<char>>,
    resolved: Seq<(Seq<char>, ModuleIdView)>,
    n: int,
)
    ensures
        resolved_ids(specifiers, resolved, n).no_duplicates(),
    decreases n,
{
    if 0 < n <= specifiers.len() {
        lemma_resolved_ids_distinct(specifiers, resolved, n - 1);
        lemma_insert_distinct(
            resolved_ids(specifiers, resolved, n - 1),
            lookup(resolved, specifiers[n - 1]).unwrap(),
        );
    }
}

pub proof fn lemma_resolved_groups_distinct<V>(
    groups: Seq<(Seq<char>, Seq<V>)>,
    resolved: Seq<(Seq<char>, ModuleIdView)>,
    n: int,
)
    ensures
        grouped_distinct(resolved_groups(groups, resolved, n)),
    decreases n,
{
    if 0 < n <= groups.len() {
        lemma_resolved_groups_distinct(groups, resolved, n - 1);
        lemma_group_insert_all_distinct(
            resolved_groups(groups, resolved, n - 1),
            lookup(resolved, groups[n - 1].0).unwrap(),
            groups[n - 1].1,
            groups[n - 1].1.len() as int,
        );
    }
}

/// The tables of a module as its scan describes it are in order, where the scan names no
/// export twice: no key occurs twice in a table and no member twice in a set.
pub proof fn lemma_scanned_module_tables(
    id: ModuleIdView,
    is_user_defined_entry: bool,
    scan: ScanResultView,
    resolved: Seq<(Seq<char>, ModuleIdView)>,
)
    requires
        keys_distinct(scan.local_exports),
    ensures
        scanned_module(id, is_user_defined_entry, scan, resolved).tables_wf(),
{
    lemma_resolved_ids_distinct(scan.re_export_all, resolved, scan.re_export_all.len() as int);
    lemma_resolved_groups_distinct(scan.imports, resolved, scan.imports.len() as int);
    lemma_resolved_groups_distinct(scan.re_exported_ids, resolved, scan.re_exported_ids.len() as int);
}

/// The ids that `specifiers` resolve to, each once; nothing if one of them has no
/// resolved id.
fn resolve_list(specifiers: &Vec<String>, resolved: &Vec<(String, ModuleId)>) -> (r: Option<
    Vec<ModuleId>,
>)
    ensures
        match r {
            Some(ids) => all_resolved(specifiers.deep_view(), resolved.deep_view())
                && ids.deep_view() == resolved_ids(
                specifiers.deep_view(),
                resolved.deep_view(),
                specifiers.len() as int,
            ),
            None => !all_resolved(specifiers.deep_view(), resolved.deep_view()),
        },
{
    let mut ids: Vec<ModuleId> = Vec::new();
    let mut k: usize = 0;
    assert(ids.deep_view() =~= resolved_ids(specifiers.deep_view(), resolved.deep_view(), 0));
    while k < specifiers.len()
        invariant
            k <= specifiers.len(),
            forall|i: int|
                0 <= i < k ==> has_key(resolved.deep_view(), #[trigger] specifiers.deep_view()[i]),
            ids.deep_view() == resolved_ids(specifiers.deep_view(), resolved.deep_view(), k as int),
        decreases specifiers.len() - k,
    {
        match find_name(resolved, specifiers[k].as_str()) {
            Some(i) => {
                insert_module(&mut ids, &resolved[i].1);
            },
            None => {
                proof {
                    if has_key(resolved.deep_view(), specifiers.deep_view()[k as int]) {
                        lemma_key_index_some(resolved.deep_view(), specifiers.deep_view()[k as int]);
                    }
                }
                return None;
            },
        }
        k += 1;
    }
    Some(ids)
}

/// Adds `item` to the group of `key`.
fn add_import_to(groups: &mut Vec<(ModuleId, Vec<ImportedSpecifier>)>, key: &ModuleId, item: ImportedSpecifier)
    ensures
        final(groups).deep_view() == group_insert(old(groups).deep_view(), key@, item@),
{
    let ghost before = groups.deep_view();
    match find_module(groups, key) {
        Some(i) => {
            assert(before[i as int].1 == groups[i as int].1.deep_view());
            if !contains_specifier(&groups[i].1, &item) {
                groups[i].1.push(item);
                assert(groups[i as int].1.deep_view() =~= before[i as int].1.push(item@));
            }
            assert(groups.deep_view()[i as int] == (key@, insert(before[i as int].1, item@)));
            assert(groups.deep_view() =~= before.update(
                i as int,
                (key@, insert(before[i as int].1, item@)),
            ));
        },
        None => {
            let mut items: Vec<ImportedSpecifier> = Vec::new();
            items.push(item);
            assert(items.deep_view() =~= seq![item@]);
            groups.push((key.clone(), items));
            assert(groups.deep_view() =~= before.push((key@, seq![item@])));
        },
    }
}

fn contains_re_export(v: &Vec<ReExportedSpecifier>, x: &ReExportedSpecifier) -> (r: bool)
    ensures
        r == v.deep_view().contains(x@),
{
    let mut i: usize = 0;
    while i < v.len()
        invariant
            i <= v.len(),
            forall|j: int| 0 <= j < i ==> #[trigger] v.deep_view()[j] != x@,
        decreases v.len() - i,
    {
        if v[i] == *x {
            assert(v.deep_view()[i as int] == x@);
            return true;
        }
        assert(v.deep_view()[i as int] != x@);
        i += 1;
    }
    false
}

/// Adds `item` to the group of `key`.
fn add_re_export_to(
    groups: &mut Vec<(ModuleId, Vec<ReExportedSpecifier>)>,
    key: &ModuleId,
    item: ReExportedSpecifier,
)
    ensures
        final(groups).deep_view() == group_insert(old(groups).deep_view(), key@, item@),
{
    let ghost before = groups.deep_view();
    match find_module(groups, key) {
        Some(i) => {
            assert(before[i as int].1 == groups[i as int].1.deep_view());
            if !contains_re_export(&groups[i].1, &item) {
                groups[i].1.push(item);
                assert(groups[i as int].1.deep_view() =~= before[i as int].1.push(item@));
            }
            assert(groups.deep_view()[i as int] == (key@, insert(before[i as int].1, item@)));
            assert(groups.deep_view() =~= before.update(
                i as int,
                (key@, insert(before[i as int].1, item@)),
            ));
        },
        None => {
            let mut items: Vec<ReExportedSpecifier> = Vec::new();
            items.push(item);
            assert(items.deep_view() =~= seq![item@]);
            groups.push((key.clone(), items));
            assert(groups.deep_view() =~= before.push((key@, seq![item@])));
        },
    }
}

/// The imports `groups`, which are by specifier, by resolved id.
fn resolve_imports(
    groups: &Vec<(String, Vec<ImportedSpecifier>)>,
    resolved: &Vec<(String, ModuleId)>,
) -> (r: Option<Vec<(ModuleId, Vec<ImportedSpecifier>)>>)
    ensures
        match r {
            Some(by_id) => all_resolved(group_keys(groups.deep_view()), resolved.deep_view())
                && by_id.deep_view() == resolved_groups(
                groups.deep_view(),
                resolved.deep_view(),
                groups.len() as int,
            ),
            None => !all_resolved(group_keys(groups.deep_view()), resolved.deep_view()),
        },
{
    let mut by_id: Vec<(ModuleId, Vec<ImportedSpecifier>)> = Vec::new();
    let mut k: usize = 0;
    assert(by_id.deep_view() =~= resolved_groups(groups.deep_view(), resolved.deep_view(), 0));
    while k < groups.len()
        invariant
            k <= groups.len(),
            forall|i: int|
                0 <= i < k ==> has_key(
                    resolved.deep_view(),
                    #[trigger] group_keys(groups.deep_view())[i],
                ),
            by_id.deep_view() == resolved_groups(groups.deep_view(), resolved.deep_view(), k as int),
        decreases groups.len() - k,
    {
        let ghost start = by_id.deep_view();
        assert(groups.deep_view()[k as int] == (groups[k as int].0@, groups[k as int].1.deep_view()));
        match find_name(resolved, groups[k].0.as_str()) {
            Some(i) => {
                let id = &resolved[i].1;
                let mut j: usize = 0;
                while j < groups[k].1.len()
                    invariant
                        j <= groups[k as int].1.len(),
                        k < groups.len(),
                        by_id.deep_view() == group_insert_all(
                            start,
                            id@,
                            groups[k as int].1.deep_view(),
                            j as int,
                        ),
                    decreases groups[k as int].1.len() - j,
                {
                    add_import_to(&mut by_id, id, groups[k].1[j].clone());
                    j += 1;
                }
            },
            None => {
                proof {
                    let key = group_keys(groups.deep_view())[k as int];
                    if has_key(resolved.deep_view(), key) {
                        lemma_key_index_some(resolved.deep_view(), key);
                    }
                }
                return None;
            },
        }
        k += 1;
    }
    Some(by_id)
}

/// The explicit re-exports `groups`, which are by specifier, by resolved id.
fn resolve_re_exports(
    groups: &Vec<(String, Vec<ReExportedSpecifier>)>,
    resolved: &Vec<(String, ModuleId)>,
) -> (r: Option<Vec<(ModuleId, Vec<ReExportedSpecifier>)>>)
    ensures
        match r {
            Some(by_id) => all_resolved(group_keys(groups.deep_view()), resolved.deep_view())
                && by_id.deep_view() == resolved_groups(
                groups.deep_view(),
                resolved.deep_view(),
                groups.len() as int,
            ),
            None => !all_resolved(group_keys(groups.deep_view()), resolved.deep_view()),
        },
{
    let mut by_id: Vec<(ModuleId, Vec<ReExportedSpecifier>)> = Vec::new();
    let mut k: usize = 0;
    assert(by_id.deep_view() =~= resolved_groups(groups.deep_view(), resolved.deep_view(), 0));
    while k < groups.len()
        invariant
            k <= groups.len(),
            forall|i: int|
                0 <= i < k ==> has_key(
                    resolved.deep_view(),
                    #[trigger] group_keys(groups.deep_view())[i],
                ),
            by_id.deep_view() == resolved_groups(groups.deep_view(), resolved.deep_view(), k as int),
        decreases groups.len() - k,
    {
        let ghost start = by_id.deep_view();
        assert(groups.deep_view()[k as int] == (groups[k as int].0@, groups[k as int].1.deep_view()));
        match find_name(resolved, groups[k].0.as_str()) {
            Some(i) => {
                let id = &resolved[i].1;
                let mut j: usize = 0;
                while j < groups[k].1.len()
                    invariant
                        j <= groups[k as int].1.len(),
                        k < groups.len(),
                        by_id.deep_view() == group_insert_all(
                            start,
                            id@,
                            groups[k as int].1.deep_view(),
                            j as int,
                        ),
                    decreases groups[k as int].1.len() - j,
                {
                    add_re_export_to(&mut by_id, id, groups[k].1[j].clone());
                    j += 1;
                }
            },
            None => {
                proof {
                    let key = group_keys(groups.deep_view())[k as int];
                    if has_key(resolved.deep_view(), key) {
                        lemma_key_index_some(resolved.deep_view(), key);
                    }
                }
                return None;
            },
        }
        k += 1;
    }
    Some(by_id)
}

impl TaskResult {
    /// Makes the module of what the task hands in. There is no module where a specifier
    /// that the scan names has no resolved id.
    pub fn into_module(self) -> (r: Option<NormalModule>)
        ensures
            match r {
                Some(module) => scan_resolved(self.scan_result@, self.resolved_ids.deep_view())
                    && module@ == scanned_module(
                    self.module_id@,
                    self.is_user_defined_entry,
                    self.scan_result@,
                    self.resolved_ids.deep_view(),
                ),
                None => !scan_resolved(self.scan_result@, self.resolved_ids.deep_view()),
            },
            keys_distinct(self.scan_result@.local_exports) ==> (r matches Some(module)
                ==> module@.tables_wf()),
    {
        proof {
            if keys_distinct(self.scan_result@.local_exports) {
                lemma_scanned_module_tables(
                    self.module_id@,
                    self.is_user_defined_entry,
                    self.scan_result@,
                    self.resolved_ids.deep_view(),
                );
            }
        }
        let dependencies = match resolve_list(&self.scan_result.dependencies, &self.resolved_ids) {
            Some(ids) => ids,
            None => {
                return None;
            },
        };
        let dynamic_dependencies = match resolve_list(
            &self.scan_result.dyn_dependencies,
            &self.resolved_ids,
        ) {
            Some(ids) => ids,
            None => {
                return None;
            },
        };
        let imports = match resolve_imports(&self.scan_result.imports, &self.resolved_ids) {
            Some(groups) => groups,
            None => {
                return None;
            },
        };
        let re_exported_ids = match resolve_re_exports(
            &self.scan_result.re_exported_ids,
            &self.resolved_ids,
        ) {
            Some(groups) => groups,
            None => {
                return None;
            },
        };
        let re_export_all = match resolve_list(&self.scan_result.re_export_all, &self.resolved_ids) {
            Some(ids) => ids,
            None => {
                return None;
            },
        };
        let mut module = NormalModule::new(self.module_id, self.is_user_defined_entry);
        module.dependencies = dependencies;
        module.dynamic_dependencies = dynamic_dependencies;
        module.imports = imports;
        module.re_exported_ids = re_exported_ids;
        module.re_export_all = re_export_all;
        module.linked_exports = self.scan_result.local_exports;
        Some(module)
    }
}

} // verus!
