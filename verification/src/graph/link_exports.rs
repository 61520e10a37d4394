//! The exports pass of the linker: explicit re-exports, then wildcard re-exports.
//!
//! In `export { foo } from "./foo"` the module that holds the statement is the importer and
//! `./foo` the importee. After the pass the export table of each module names, for every
//! exported name, the binding and the module that declares it.

use vstd::prelude::*;
use vstd::pervasive::unreached;
use crate::error::{BuildError, BuildErrorView};
use crate::graph::{
    failed, lemma_index_of, lemma_with_normal_inv, same_shape, tables_kept, warnings_kept, Graph,
    GraphView, LinkFailure,
};
use crate::ident::{default_name, is_default, is_star, star_name, ModuleId, ModuleIdView};
use crate::module::{
    shim_missing_export_if_needed, ModuleView, NormOrExt, NormalModule, NormalModuleView,
};
use crate::specifier::{
    ExportedSpecifier, ExportedSpecifierView, ImportedSpecifier, ImportedSpecifierView,
    ReExportedSpecifier, ReExportedSpecifierView,
};
use crate::table::{
    clone_modules, extend_modules, find_name, has_key, insert, insert_all,
    lemma_insert_all_members, lookup, insert_module,
};

verus! {

pub type ExportTable = Seq<(Seq<char>, ExportedSpecifierView)>;

/// Whether the wildcard sources, whose exports are `entries`, agree on `name`: at least one
/// exports it, and all that do export the same binding.
pub open spec fn agreed(entries: ExportTable, name: Seq<char>) -> bool {
    match lookup(entries, name) {
        Some(first) => forall|i: int|
            0 <= i < entries.len() && (#[trigger] entries[i]).0 == name ==> entries[i].1 == first,
        None => false,
    }
}

/// Whether a wildcard re-export hands the name `name` on to an importer whose explicit
/// exports are `explicit`.
pub open spec fn wildcard_passes(explicit: ExportTable, entries: ExportTable, name: Seq<char>) -> bool {
    name != default_name() && !has_key(explicit, name) && agreed(entries, name)
}

/// The importer `m` after the exports `exports` of one wildcard source, from the `i`-th on,
/// are copied into it as far as they pass.
pub open spec fn copy_wildcard_exports(
    m: NormalModuleView,
    exports: ExportTable,
    explicit: ExportTable,
    entries: ExportTable,
    i: int,
) -> NormalModuleView
    decreases exports.len() - i,
{
    if 0 <= i < exports.len() {
        let next = if wildcard_passes(explicit, entries, exports[i].0) {
            m.add_to_linked_exports(exports[i].0, exports[i].1)
        } else {
            m
        };
        copy_wildcard_exports(next, exports, explicit, entries, i + 1)
    } else {
        m
    }
}

impl GraphView {
    /// The importee after an importer asked it for `imported` under the name `suggested`:
    /// the suggestion is recorded, the namespace is marked where `imported` is `*`, and
    /// with shimming enabled a missing `imported` is shimmed and the shim reported.
    pub open spec fn prepare_importee(self, b: int, imported: Seq<char>, suggested: Seq<char>) -> GraphView {
        let m1 = self.normal(b).suggest_name(imported, suggested);
        let m2 = if imported == star_name() {
            m1.mark_namespace_id_referenced()
        } else {
            m1
        };
        if self.shim_missing_exports && m2.find_exported(imported) is None {
            self.with_normal(b, m2.shim_missing_export(imported)).warn(
                BuildErrorView::ShimmedExport { name: imported, file: m2.id.path },
            )
        } else {
            self.with_normal(b, m2)
        }
    }

    /// A module re-exports one of its own names under another name.
    pub open spec fn re_export_from_self(self, a: int, spec: ReExportedSpecifierView) -> Result<GraphView, LinkFailure> {
        let m1 = self.normal(a).suggest_name(spec.imported, spec.exported_as);
        let m2 = if spec.imported == star_name() {
            m1.mark_namespace_id_referenced()
        } else {
            m1
        };
        match m2.find_exported(spec.imported) {
            Some(target) => Ok(
                self.with_normal(a, m2.add_to_linked_exports(spec.exported_as, target)),
            ),
            None => failed(
                BuildErrorView::CircularReExport { name: spec.imported, file: m2.id.path },
                self.with_normal(a, m2),
            ),
        }
    }

    /// The importer at `a` re-exports a name of the normal module at `b`: its export table
    /// gets the importee's own entry, so that it names the declaring module.
    pub open spec fn re_export_from_normal(self, a: int, b: int, spec: ReExportedSpecifierView) -> Result<GraphView, LinkFailure> {
        let g = self.prepare_importee(b, spec.imported, spec.exported_as);
        match g.normal(b).find_exported(spec.imported) {
            Some(target) => Ok(
                g.with_normal(a, g.normal(a).add_to_linked_exports(spec.exported_as, target)),
            ),
            None => failed(
                BuildErrorView::MissingExport {
                    name: spec.imported,
                    importer: self.normal(a).id.path,
                    importee: self.normal(b).id.path,
                },
                g,
            ),
        }
    }

    /// The importer at `a` re-exports a name of the external module `importee`: it gets a
    /// fresh symbol, imports the name into it and exports it as its own.
    pub open spec fn re_export_from_external(
        self,
        a: int,
        importee: ModuleIdView,
        spec: ReExportedSpecifierView,
    ) -> GraphView {
        let m = self.normal(a);
        let name = if spec.exported_as != default_name() {
            spec.exported_as
        } else {
            spec.imported
        };
        let symbol = m.next_symbol(name);
        let m1 = m.create_top_level_symbol(name);
        let m2 = m1.add_to_linked_imports(
            importee,
            ImportedSpecifierView { imported: spec.imported, imported_as: symbol },
        );
        let m3 = m2.add_to_linked_exports(
            spec.exported_as,
            ExportedSpecifierView { exported_as: spec.exported_as, local_id: symbol, owner: m.id },
        );
        self.with_normal(a, m3)
    }

    /// One name of an explicit re-export of the importer at `a`.
    pub open spec fn re_export_one(self, a: int, importee: ModuleIdView, spec: ReExportedSpecifierView) -> Result<GraphView, LinkFailure> {
        if importee == self.normal(a).id {
            self.re_export_from_self(a, spec)
        } else {
            let b = self.index_of(importee).unwrap();
            match self.modules[b] {
                ModuleView::Normal(_) => self.re_export_from_normal(a, b, spec),
                ModuleView::External(_) => Ok(self.re_export_from_external(a, importee, spec)),
            }
        }
    }

    /// The names `specs` of one re-export statement, from the `j`-th on, up to the first failure.
    pub open spec fn re_export_specs(
        self,
        a: int,
        importee: ModuleIdView,
        specs: Seq<ReExportedSpecifierView>,
        j: int,
    ) -> Result<GraphView, LinkFailure>
        decreases specs.len() - j,
    {
        if 0 <= j < specs.len() {
            match self.re_export_one(a, importee, specs[j]) {
                Ok(g) => g.re_export_specs(a, importee, specs, j + 1),
                Err(e) => Err(e),
            }
        } else {
            Ok(self)
        }
    }

    /// The explicit re-exports `groups` of the importer at `a`, from the `k`-th importee on.
    pub open spec fn re_export_groups(
        self,
        a: int,
        groups: Seq<(ModuleIdView, Seq<ReExportedSpecifierView>)>,
        k: int,
    ) -> Result<GraphView, LinkFailure>
        decreases groups.len() - k,
    {
        if 0 <= k < groups.len() {
            match self.re_export_specs(a, groups[k].0, groups[k].1, 0) {
                Ok(g) => g.re_export_groups(a, groups, k + 1),
                Err(e) => Err(e),
            }
        } else {
            Ok(self)
        }
    }

    /// The export tables of the normal modules among the first `t` of `targets`, one after
    /// the other.
    pub open spec fn wildcard_entries(self, targets: Seq<ModuleIdView>, t: int) -> ExportTable
        decreases t,
    {
        if 0 < t <= targets.len() {
            let before = self.wildcard_entries(targets, t - 1);
            match self.index_of(targets[t - 1]) {
                Some(b) => match self.modules[b] {
                    ModuleView::Normal(m) => before + m.linked_exports,
                    ModuleView::External(_) => before,
                },
                None => before,
            }
        } else {
            Seq::empty()
        }
    }

    /// The importer at `a` re-exports all of `target`, given its explicit exports and the
    /// exports of all its wildcard sources. From a normal target it takes over the wildcard
    /// targets and the names that pass; an external target it notes; itself it skips.
    pub open spec fn re_export_all_from(
        self,
        a: int,
        target: ModuleIdView,
        explicit: ExportTable,
        entries: ExportTable,
    ) -> GraphView {
        let m = self.normal(a);
        if target == m.id {
            self
        } else {
            match self.modules[self.index_of(target).unwrap()] {
                ModuleView::Normal(source) => {
                    let m1 = NormalModuleView {
                        re_export_all: insert_all(m.re_export_all, source.re_export_all),
                        ..m
                    };
                    self.with_normal(
                        a,
                        copy_wildcard_exports(m1, source.linked_exports, explicit, entries, 0),
                    )
                },
                ModuleView::External(_) => self.with_normal(
                    a,
                    NormalModuleView {
                        external_modules_of_re_export_all: insert(
                            m.external_modules_of_re_export_all,
                            target,
                        ),
                        ..m
                    },
                ),
            }
        }
    }

    /// The wildcard re-exports of the importer at `a` from the `t`-th of `targets` on.
    pub open spec fn re_export_all_targets(
        self,
        a: int,
        targets: Seq<ModuleIdView>,
        explicit: ExportTable,
        entries: ExportTable,
        t: int,
    ) -> GraphView
        decreases targets.len() - t,
    {
        if 0 <= t < targets.len() {
            self.re_export_all_from(a, targets[t], explicit, entries).re_export_all_targets(
                a,
                targets,
                explicit,
                entries,
                t + 1,
            )
        } else {
            self
        }
    }

    /// The wildcard re-exports of the importer at `a`, as its wildcard targets and its
    /// export table stand when the explicit re-exports are done.
    pub open spec fn re_export_all(self, a: int) -> GraphView {
        let targets = self.normal(a).re_export_all;
        self.re_export_all_targets(
            a,
            targets,
            self.normal(a).linked_exports,
            self.wildcard_entries(targets, targets.len() as int),
            0,
        )
    }

    /// The exports pass for the normal module at `a`.
    pub open spec fn link_module_exports(self, a: int) -> Result<GraphView, LinkFailure> {
        match self.re_export_groups(a, self.normal(a).re_exported_ids, 0) {
            Ok(g) => Ok(g.re_export_all(a)),
            Err(e) => Err(e),
        }
    }

    /// The exports pass for the modules `order` from the `k`-th on; external modules are
    /// passed over.
    pub open spec fn link_exports_from(self, order: Seq<ModuleIdView>, k: int) -> Result<GraphView, LinkFailure>
        decreases order.len() - k,
    {
        if 0 <= k < order.len() {
            if order[k].external {
                self.link_exports_from(order, k + 1)
            } else {
                match self.link_module_exports(self.index_of(order[k]).unwrap()) {
                    Ok(g) => g.link_exports_from(order, k + 1),
                    Err(e) => Err(e),
                }
            }
        } else {
            Ok(self)
        }
    }

    /// The exports pass over the modules `order`, in that order, up to the first failure.
    pub open spec fn link_exports(self, order: Seq<ModuleIdView>) -> Result<GraphView, LinkFailure> {
        self.link_exports_from(order, 0)
    }
}

pub proof fn lemma_prepare_importee_inv(g: GraphView, b: int, imported: Seq<char>, suggested: Seq<char>)
    requires
        g.inv(),
        g.is_normal(b),
    ensures
        g.prepare_importee(b, imported, suggested).inv(),
        same_shape(g, g.prepare_importee(b, imported, suggested)),
        forall|i: int|
            0 <= i < g.modules.len() && i != b ==> #[trigger] g.prepare_importee(
                b,
                imported,
                suggested,
            ).modules[i] == g.modules[i],
        g.prepare_importee(b, imported, suggested).normal(b).id == g.normal(b).id,
{
    let m1 = g.normal(b).suggest_name(imported, suggested);
    let m2 = if imported == star_name() {
        m1.mark_namespace_id_referenced()
    } else {
        m1
    };
    if g.shim_missing_exports && m2.find_exported(imported) is None {
        lemma_with_normal_inv(g, b, m2.shim_missing_export(imported));
    } else {
        lemma_with_normal_inv(g, b, m2);
    }
}

pub proof fn lemma_re_export_one_inv(g: GraphView, a: int, importee: ModuleIdView, spec: ReExportedSpecifierView)
    requires
        g.inv(),
        g.is_normal(a),
        g.contains(importee),
    ensures
        g.re_export_one(a, importee, spec) matches Ok(h) ==> h.inv() && same_shape(g, h)
            && h.normal(a).re_exported_ids == g.normal(a).re_exported_ids,
{
    let m = g.normal(a);
    if importee == m.id {
        let m1 = m.suggest_name(spec.imported, spec.exported_as);
        let m2 = if spec.imported == star_name() {
            m1.mark_namespace_id_referenced()
        } else {
            m1
        };
        if let Some(target) = m2.find_exported(spec.imported) {
            lemma_with_normal_inv(g, a, m2.add_to_linked_exports(spec.exported_as, target));
        }
    } else {
        lemma_index_of(g, importee);
        let b = g.index_of(importee).unwrap();
        match g.modules[b] {
            ModuleView::Normal(_) => {
                lemma_prepare_importee_inv(g, b, spec.imported, spec.exported_as);
                let g1 = g.prepare_importee(b, spec.imported, spec.exported_as);
                assert(g1.modules[a] == g.modules[a]);
                if let Some(target) = g1.normal(b).find_exported(spec.imported) {
                    lemma_with_normal_inv(
                        g1,
                        a,
                        g1.normal(a).add_to_linked_exports(spec.exported_as, target),
                    );
                }
            },
            ModuleView::External(_) => {
                let h = g.re_export_from_external(a, importee, spec);
                lemma_with_normal_inv(g, a, h.normal(a));
            },
        }
    }
}

pub proof fn lemma_copy_wildcard_exports_refs(
    m: NormalModuleView,
    exports: ExportTable,
    explicit: ExportTable,
    entries: ExportTable,
    i: int,
)
    ensures
        ({
            let n = copy_wildcard_exports(m, exports, explicit, entries, i);
            &&& n == NormalModuleView { linked_exports: n.linked_exports, ..m }
        }),
    decreases exports.len() - i,
{
    if 0 <= i < exports.len() {
        let next = if wildcard_passes(explicit, entries, exports[i].0) {
            m.add_to_linked_exports(exports[i].0, exports[i].1)
        } else {
            m
        };
        lemma_copy_wildcard_exports_refs(next, exports, explicit, entries, i + 1);
    }
}

pub proof fn lemma_re_export_all_from_inv(
    g: GraphView,
    a: int,
    target: ModuleIdView,
    explicit: ExportTable,
    entries: ExportTable,
)
    requires
        g.inv(),
        g.is_normal(a),
        g.contains(target),
    ensures
        g.re_export_all_from(a, target, explicit, entries).inv(),
        same_shape(g, g.re_export_all_from(a, target, explicit, entries)),
        forall|i: int|
            0 <= i < g.modules.len() && i != a ==> #[trigger] g.re_export_all_from(
                a,
                target,
                explicit,
                entries,
            ).modules[i] == g.modules[i],
{
    let m = g.normal(a);
    let h = g.re_export_all_from(a, target, explicit, entries);
    if target != m.id {
        lemma_index_of(g, target);
        let b = g.index_of(target).unwrap();
        match g.modules[b] {
            ModuleView::Normal(source) => {
                let m1 = NormalModuleView {
                    re_export_all: insert_all(m.re_export_all, source.re_export_all),
                    ..m
                };
                lemma_copy_wildcard_exports_refs(m1, source.linked_exports, explicit, entries, 0);
                let n = copy_wildcard_exports(m1, source.linked_exports, explicit, entries, 0);
                assert(g.module_closed(source));
                assert forall|k: int| 0 <= k < n.re_export_all.len() implies g.contains(
                    #[trigger] n.re_export_all[k],
                ) by {
                    let x = n.re_export_all[k];
                    assert(n.re_export_all.contains(x));
                    lemma_insert_all_members(m.re_export_all, source.re_export_all, x);
                    if m.re_export_all.contains(x) {
                        let w = choose|w: int| 0 <= w < m.re_export_all.len() && m.re_export_all[w] == x;
                        assert(g.contains(m.re_export_all[w]));
                    } else {
                        let w = choose|w: int|
                            0 <= w < source.re_export_all.len() && source.re_export_all[w] == x;
                        assert(g.contains(source.re_export_all[w]));
                    }
                }
                lemma_with_normal_inv(g, a, n);
            },
            ModuleView::External(_) => {
                lemma_with_normal_inv(g, a, h.normal(a));
            },
        }
    }
}

/// A copy of an export table.
pub fn clone_exports(v: &Vec<(String, ExportedSpecifier)>) -> (r: Vec<(String, ExportedSpecifier)>)
    ensures
        r.deep_view() == v.deep_view(),
{
    let mut r: Vec<(String, ExportedSpecifier)> = Vec::new();
    let mut k: usize = 0;
    while k < v.len()
        invariant
            k <= v.len(),
            r.len() == k,
            forall|j: int| 0 <= j < k ==> #[trigger] r.deep_view()[j] == v.deep_view()[j],
        decreases v.len() - k,
    {
        let ghost before = r.deep_view();
        let name = v[k].0.clone();
        let spec = v[k].1.clone();
        r.push((name, spec));
        assert(r.deep_view() =~= before.push((name@, spec@)));
        k += 1;
    }
    assert(r.deep_view() =~= v.deep_view());
    r
}

/// A copy of the names of a re-export statement.
pub fn clone_re_exports(v: &Vec<ReExportedSpecifier>) -> (r: Vec<ReExportedSpecifier>)
    ensures
        r.deep_view() == v.deep_view(),
{
    let mut r: Vec<ReExportedSpecifier> = Vec::new();
    let mut k: usize = 0;
    while k < v.len()
        invariant
            k <= v.len(),
            r.len() == k,
            forall|j: int| 0 <= j < k ==> #[trigger] r.deep_view()[j] == v.deep_view()[j],
        decreases v.len() - k,
    {
        let ghost before = r.deep_view();
        r.push(v[k].clone());
        assert(r.deep_view() =~= before.push(v[k as int]@));
        k += 1;
    }
    assert(r.deep_view() =~= v.deep_view());
    r
}

/// Whether the wildcard sources whose exports are `entries` agree on `name`.
pub fn is_agreed(entries: &Vec<(String, ExportedSpecifier)>, name: &str) -> (r: bool)
    ensures
        r == agreed(entries.deep_view(), name@),
{
    match find_name(entries, name) {
        None => false,
        Some(first) => {
            let ghost es = entries.deep_view();
            let mut i: usize = 0;
            while i < entries.len()
                invariant
                    i <= entries.len(),
                    first < entries.len(),
                    es == entries.deep_view(),
                    lookup(es, name@) == Some(es[first as int].1),
                    forall|j: int|
                        0 <= j < i && (#[trigger] es[j]).0 == name@ ==> es[j].1 == es[first as int].1,
                decreases entries.len() - i,
            {
                if is_same_name(&entries[i].0, name) && entries[i].1 != entries[first].1 {
                    assert(es[i as int].0 == name@ && es[i as int].1 != es[first as int].1);
                    return false;
                }
                i += 1;
            }
            true
        },
    }
}

fn is_same_name(a: &String, b: &str) -> (r: bool)
    ensures
        r == (a@ == b@),
{
    crate::ident::str_eq(a.as_str(), b)
}

impl NormalModule {
    /// Copies into this module the exports of one wildcard source as far as they pass.
    pub fn copy_wildcard_exports(
        &mut self,
        exports: &Vec<(String, ExportedSpecifier)>,
        explicit: &Vec<(String, ExportedSpecifier)>,
        entries: &Vec<(String, ExportedSpecifier)>,
    )
        ensures
            final(self)@ == copy_wildcard_exports(
                old(self)@,
                exports.deep_view(),
                explicit.deep_view(),
                entries.deep_view(),
                0,
            ),
    {
        let mut i: usize = 0;
        while i < exports.len()
            invariant
                i <= exports.len(),
                copy_wildcard_exports(
                    self@,
                    exports.deep_view(),
                    explicit.deep_view(),
                    entries.deep_view(),
                    i as int,
                ) == copy_wildcard_exports(
                    old(self)@,
                    exports.deep_view(),
                    explicit.deep_view(),
                    entries.deep_view(),
                    0,
                ),
            decreases exports.len() - i,
        {
            let name = &exports[i].0;
            assert(exports.deep_view()[i as int] == (exports[i as int].0@, exports[i as int].1@));
            let explicitly = find_name(explicit, name.as_str()).is_some();
            proof {
                if has_key(explicit.deep_view(), name@) {
                    crate::table::lemma_key_index_some(explicit.deep_view(), name@);
                }
            }
            if !is_default(name.as_str()) && !explicitly && is_agreed(entries, name.as_str()) {
                self.add_to_linked_exports(name.clone(), exports[i].1.clone());
            }
            i += 1;
        }
    }
}

/// A copy of the explicit re-exports of a module.
pub fn clone_re_export_groups(v: &Vec<(ModuleId, Vec<ReExportedSpecifier>)>) -> (r: Vec<
    (ModuleId, Vec<ReExportedSpecifier>),
>)
    ensures
        r.deep_view() == v.deep_view(),
{
    let mut r: Vec<(ModuleId, Vec<ReExportedSpecifier>)> = Vec::new();
    let mut k: usize = 0;
    while k < v.len()
        invariant
            k <= v.len(),
            r.len() == k,
            forall|j: int| 0 <= j < k ==> #[trigger] r.deep_view()[j] == v.deep_view()[j],
        decreases v.len() - k,
    {
        let ghost before = r.deep_view();
        let importee = v[k].0.clone();
        let specs = clone_re_exports(&v[k].1);
        r.push((importee, specs));
        assert(r.deep_view() =~= before.push((importee@, specs.deep_view())));
        k += 1;
    }
    assert(r.deep_view() =~= v.deep_view());
    r
}

impl Graph {
    /// Records on the importee at `b` that `imported` is asked for under the name
    /// `suggested`, and shims `imported` where it is missing and shimming is enabled.
    pub fn prepare_importee(&mut self, b: usize, imported: &str, suggested: &str)
        requires
            old(self)@.inv(),
            old(self)@.is_normal(b as int),
        ensures
            final(self).input_options == old(self).input_options,
            final(self)@ == old(self)@.prepare_importee(b as int, imported@, suggested@),
            final(self)@.inv(),
            same_shape(old(self)@, final(self)@),
    {
        let ghost g = self@;
        proof {
            lemma_prepare_importee_inv(g, b as int, imported@, suggested@);
        }
        let shim = self.input_options.shim_missing_exports;
        let m = self.modules[b].expect_norm_mut();
        m.suggest_name(imported, suggested);
        if is_star(imported) {
            m.mark_namespace_id_referenced();
        }
        if shim && shim_missing_export_if_needed(m, imported) {
            let warning = BuildError::shimmed_export(imported, m.id.id());
            self.warnings.push(warning);
            assert(self.warnings.deep_view() =~= g.warnings.push(warning@));
        }
        assert(self.modules.deep_view() =~= g.prepare_importee(
            b as int,
            imported@,
            suggested@,
        ).modules);
    }

    fn re_export_from_self(&mut self, a: usize, spec: &ReExportedSpecifier) -> (r: Result<
        (),
        BuildError,
    >)
        requires
            old(self)@.is_normal(a as int),
        ensures
            final(self).input_options == old(self).input_options,
            match r {
                Ok(_) => old(self)@.re_export_from_self(a as int, spec@) == Ok::<GraphView, LinkFailure>(
                    final(self)@,
                ),
                Err(e) => old(self)@.re_export_from_self(a as int, spec@) == failed(e@, final(self)@),
            },
    {
        let ghost g = self@;
        let m = self.modules[a].expect_norm_mut();
        m.suggest_name(spec.imported.as_str(), spec.exported_as.as_str());
        if is_star(spec.imported.as_str()) {
            m.mark_namespace_id_referenced();
        }
        let found = match m.find_exported(spec.imported.as_str()) {
            Some(target) => Some(target.clone()),
            None => None,
        };
        match found {
            Some(target) => {
                m.add_to_linked_exports(spec.exported_as.clone(), target);
                assert(self.modules.deep_view() =~= g.re_export_from_self(
                    a as int,
                    spec@,
                )->Ok_0.modules);
                Ok(())
            },
            None => {
                let e = BuildError::circular_reexport(spec.imported.as_str(), m.id.id());
                assert(self.modules.deep_view() =~= g.re_export_from_self(
                    a as int,
                    spec@,
                )->Err_0.graph.modules);
                Err(e)
            },
        }
    }

    fn re_export_from_normal(&mut self, a: usize, b: usize, spec: &ReExportedSpecifier) -> (r: Result<
        (),
        BuildError,
    >)
        requires
            old(self)@.inv(),
            old(self)@.is_normal(a as int),
            old(self)@.is_normal(b as int),
        ensures
            final(self).input_options == old(self).input_options,
            match r {
                Ok(_) => old(self)@.re_export_from_normal(a as int, b as int, spec@) == Ok::<GraphView, LinkFailure>(
                    final(self)@,
                ),
                Err(e) => old(self)@.re_export_from_normal(a as int, b as int, spec@) == failed(e@, final(self)@),
            },
    {
        let ghost g = self@;
        self.prepare_importee(b, spec.imported.as_str(), spec.exported_as.as_str());
        let ghost g1 = self@;
        assert(g1.ids()[a as int] == g.ids()[a as int]);
        assert(g1.ids()[b as int] == g.ids()[b as int]);
        let found = match self.modules[b].expect_norm().find_exported(spec.imported.as_str()) {
            Some(target) => Some(target.clone()),
            None => None,
        };
        match found {
            Some(target) => {
                let m = self.modules[a].expect_norm_mut();
                m.add_to_linked_exports(spec.exported_as.clone(), target);
                assert(self.modules.deep_view() =~= g.re_export_from_normal(
                    a as int,
                    b as int,
                    spec@,
                )->Ok_0.modules);
                Ok(())
            },
            None => Err(
                BuildError::missing_export(
                    spec.imported.as_str(),
                    self.modules[a].id().id(),
                    self.modules[b].id().id(),
                ),
            ),
        }
    }

    fn re_export_from_external(&mut self, a: usize, importee: &ModuleId, spec: &ReExportedSpecifier)
        requires
            old(self)@.is_normal(a as int),
        ensures
            final(self).input_options == old(self).input_options,
            final(self)@ == old(self)@.re_export_from_external(a as int, importee@, spec@),
    {
        let ghost g = self@;
        let m = self.modules[a].expect_norm_mut();
        let symbol = if !is_default(spec.exported_as.as_str()) {
            m.create_top_level_symbol(spec.exported_as.as_str())
        } else {
            m.create_top_level_symbol(spec.imported.as_str())
        };
        m.add_to_linked_imports(
            importee,
            ImportedSpecifier { imported: spec.imported.clone(), imported_as: symbol.clone() },
        );
        let owner = m.id.clone();
        m.add_to_linked_exports(
            spec.exported_as.clone(),
            ExportedSpecifier { exported_as: spec.exported_as.clone(), local_id: symbol, owner },
        );
        assert(self.modules.deep_view() =~= g.re_export_from_external(
            a as int,
            importee@,
            spec@,
        ).modules);
    }

    fn re_export_one(&mut self, a: usize, importee: &ModuleId, spec: &ReExportedSpecifier) -> (r: Result<
        (),
        BuildError,
    >)
        requires
            old(self)@.inv(),
            old(self)@.is_normal(a as int),
            old(self)@.contains(importee@),
        ensures
            final(self).input_options == old(self).input_options,
            match r {
                Ok(_) => old(self)@.re_export_one(a as int, importee@, spec@) == Ok::<GraphView, LinkFailure>(
                    final(self)@,
                ),
                Err(e) => old(self)@.re_export_one(a as int, importee@, spec@) == failed(e@, final(self)@),
            },
            r is Ok ==> final(self)@.inv() && same_shape(old(self)@, final(self)@)
                && final(self)@.normal(a as int).re_exported_ids == old(self)@.normal(
                a as int,
            ).re_exported_ids,
    {
        proof {
            lemma_re_export_one_inv(self@, a as int, importee@, spec@);
        }
        if *importee == self.modules[a].expect_norm().id {
            self.re_export_from_self(a, spec)
        } else {
            match self.index_of(importee) {
                Some(b) => {
                    if self.modules[b].is_external() {
                        self.re_export_from_external(a, importee, spec);
                        Ok(())
                    } else {
                        self.re_export_from_normal(a, b, spec)
                    }
                },
                None => unreached(),
            }
        }
    }

    /// The export tables of the normal modules among `targets`, one after the other.
    fn wildcard_entries(&self, targets: &Vec<ModuleId>) -> (r: Vec<(String, ExportedSpecifier)>)
        ensures
            r.deep_view() == self@.wildcard_entries(targets.deep_view(), targets.len() as int),
    {
        let mut r: Vec<(String, ExportedSpecifier)> = Vec::new();
        assert(r.deep_view() =~= self@.wildcard_entries(targets.deep_view(), 0));
        let mut t: usize = 0;
        while t < targets.len()
            invariant
                t <= targets.len(),
                r.deep_view() == self@.wildcard_entries(targets.deep_view(), t as int),
            decreases targets.len() - t,
        {
            let ghost before = r.deep_view();
            match self.index_of(&targets[t]) {
                Some(b) => {
                    match &self.modules[b] {
                        NormOrExt::Normal(m) => {
                            let mut i: usize = 0;
                            while i < m.linked_exports.len()
                                invariant
                                    i <= m.linked_exports.len(),
                                    r.deep_view() == before + m.linked_exports.deep_view().take(
                                        i as int,
                                    ),
                                decreases m.linked_exports.len() - i,
                            {
                                let ghost now = r.deep_view();
                                let name = m.linked_exports[i].0.clone();
                                let spec = m.linked_exports[i].1.clone();
                                r.push((name, spec));
                                assert(r.deep_view() =~= now.push((name@, spec@)));
                                assert(r.deep_view() =~= before + m.linked_exports.deep_view().take(
                                    i as int + 1,
                                ));
                                i += 1;
                            }
                            assert(m.linked_exports.deep_view().take(m.linked_exports.len() as int)
                                =~= m.linked_exports.deep_view());
                            assert(self@.modules[b as int] == ModuleView::Normal(m@));
                        },
                        NormOrExt::External(_) => {},
                    }
                },
                None => {
                    proof {
                        let id = targets.deep_view()[t as int];
                        if self@.ids().contains(id) {
                            crate::table::lemma_position_some(self@.ids(), id);
                        }
                        assert(self@.index_of(id) is None);
                    }
                },
            }
            t += 1;
        }
        r
    }

    fn re_export_all_from(
        &mut self,
        a: usize,
        target: &ModuleId,
        explicit: &Vec<(String, ExportedSpecifier)>,
        entries: &Vec<(String, ExportedSpecifier)>,
    )
        requires
            old(self)@.inv(),
            old(self)@.is_normal(a as int),
            old(self)@.contains(target@),
        ensures
            final(self).input_options == old(self).input_options,
            final(self)@ == old(self)@.re_export_all_from(
                a as int,
                target@,
                explicit.deep_view(),
                entries.deep_view(),
            ),
            final(self)@.inv(),
            same_shape(old(self)@, final(self)@),
    {
        let ghost g = self@;
        proof {
            lemma_re_export_all_from_inv(g, a as int, target@, explicit.deep_view(), entries.deep_view());
        }
        if *target == self.modules[a].expect_norm().id {
            return ;
        }
        match self.index_of(target) {
            Some(b) => {
                if self.modules[b].is_external() {
                    let m = self.modules[a].expect_norm_mut();
                    insert_module(&mut m.external_modules_of_re_export_all, target);
                    assert(self.modules.deep_view() =~= g.re_export_all_from(
                        a as int,
                        target@,
                        explicit.deep_view(),
                        entries.deep_view(),
                    ).modules);
                } else {
                    let source = self.modules[b].expect_norm();
                    let more = clone_modules(&source.re_export_all);
                    let exports = clone_exports(&source.linked_exports);
                    let m = self.modules[a].expect_norm_mut();
                    extend_modules(&mut m.re_export_all, &more);
                    m.copy_wildcard_exports(&exports, explicit, entries);
                    assert(self.modules.deep_view() =~= g.re_export_all_from(
                        a as int,
                        target@,
                        explicit.deep_view(),
                        entries.deep_view(),
                    ).modules);
                }
            },
            None => unreached(),
        }
    }

    /// The exports pass for the normal module at `a`.
    fn link_module_exports(&mut self, a: usize) -> (r: Result<(), BuildError>)
        requires
            old(self)@.inv(),
            old(self)@.is_normal(a as int),
        ensures
            final(self).input_options == old(self).input_options,
            match r {
                Ok(_) => old(self)@.link_module_exports(a as int) == Ok::<GraphView, LinkFailure>(
                    final(self)@,
                ),
                Err(e) => old(self)@.link_module_exports(a as int) == failed(e@, final(self)@),
            },
            r is Ok ==> final(self)@.inv() && same_shape(old(self)@, final(self)@),
    {
        let ghost g0 = self@;
        let groups = clone_re_export_groups(&self.modules[a].expect_norm().re_exported_ids);
        let ghost gs = groups.deep_view();
        assert(gs == g0.normal(a as int).re_exported_ids);
        let mut k: usize = 0;
        while k < groups.len()
            invariant
                self.input_options == old(self).input_options,
                k <= groups.len(),
                gs == groups.deep_view(),
                gs == g0.normal(a as int).re_exported_ids,
                g0 == old(self)@,
                g0.inv(),
                self@.inv(),
                same_shape(g0, self@),
                self@.is_normal(a as int),
                self@.re_export_groups(a as int, gs, k as int) == g0.re_export_groups(a as int, gs, 0),
            decreases groups.len() - k,
        {
            let ghost gk = self@;
            let importee = &groups[k].0;
            let specs = &groups[k].1;
            assert(gs[k as int] == (importee@, specs.deep_view()));
            assert(g0.module_closed(g0.normal(a as int)));
            assert(g0.contains(gs[k as int].0));
            let mut j: usize = 0;
            while j < specs.len()
                invariant
                    self.input_options == old(self).input_options,
                    j <= specs.len(),
                    g0.inv(),
                    self@.inv(),
                    same_shape(g0, self@),
                    self@.is_normal(a as int),
                    g0.contains(importee@),
                    0 <= k < gs.len(),
                    g0 == old(self)@,
                    gs == g0.normal(a as int).re_exported_ids,
                    gs[k as int] == (importee@, specs.deep_view()),
                    gk.re_export_groups(a as int, gs, k as int) == g0.re_export_groups(a as int, gs, 0),
                    self@.re_export_specs(a as int, importee@, specs.deep_view(), j as int)
                        == gk.re_export_specs(a as int, importee@, specs.deep_view(), 0),
                decreases specs.len() - j,
            {
                let ghost gj = self@;
                assert(specs.deep_view()[j as int] == specs[j as int]@);
                match self.re_export_one(a, importee, &specs[j]) {
                    Ok(_) => {},
                    Err(e) => {
                        proof {
                            assert(gj.re_export_specs(a as int, importee@, specs.deep_view(), j as int)
                                == failed(e@, self@));
                            assert(gk.re_export_groups(a as int, gs, k as int) == failed(e@, self@));
                        }
                        return Err(e);
                    },
                }
                j += 1;
            }
            k += 1;
        }
        let ghost g1 = self@;
        let m = self.modules[a].expect_norm();
        let targets = clone_modules(&m.re_export_all);
        let explicit = clone_exports(&m.linked_exports);
        let entries = self.wildcard_entries(&targets);
        let mut t: usize = 0;
        while t < targets.len()
            invariant
                self.input_options == old(self).input_options,
                t <= targets.len(),
                g1.inv(),
                self@.inv(),
                same_shape(g1, self@),
                self@.is_normal(a as int),
                g1.is_normal(a as int),
                targets.deep_view() == g1.normal(a as int).re_export_all,
                self@.re_export_all_targets(
                    a as int,
                    targets.deep_view(),
                    explicit.deep_view(),
                    entries.deep_view(),
                    t as int,
                ) == g1.re_export_all_targets(
                    a as int,
                    targets.deep_view(),
                    explicit.deep_view(),
                    entries.deep_view(),
                    0,
                ),
            decreases targets.len() - t,
        {
            assert(g1.module_closed(g1.normal(a as int)));
            assert(g1.contains(g1.normal(a as int).re_export_all[t as int]));
            self.re_export_all_from(a, &targets[t], &explicit, &entries);
            t += 1;
        }
        Ok(())
    }

    /// The exports pass: for each module of `order_modules` that is not external, in that
    /// order, its explicit re-exports and then its wildcard re-exports are brought into
    /// its export table. Stops at the first failure, and then leaves the graph as it is
    /// at that point: with its modules and warnings, and what was done before the failure.
    pub fn link_exports(&mut self, order_modules: &Vec<ModuleId>) -> (r: Result<(), BuildError>)
        requires
            old(self)@.inv(),
            forall|k: int|
                0 <= k < order_modules.len() ==> old(self)@.contains(
                    #[trigger] order_modules.deep_view()[k],
                ),
        ensures
            final(self)@.uf == old(self)@.uf,
            warnings_kept(old(self)@, final(self)@),
            r is Err ==> final(self)@.inv() && same_shape(old(self)@, final(self)@) && tables_kept(
                old(self)@,
                final(self)@,
            ),
            r is Ok ==> tables_kept(old(self)@, final(self)@),
            final(self).input_options == old(self).input_options,
            match r {
                Ok(_) => old(self)@.link_exports(order_modules.deep_view()) == Ok::<GraphView, LinkFailure>(
                    final(self)@,
                ),
                Err(e) => old(self)@.link_exports(order_modules.deep_view()) == failed(e@, final(self)@),
            },
            r is Ok ==> final(self)@.inv() && same_shape(old(self)@, final(self)@),
    {
        proof {
            crate::graph::export_laws::lemma_link_exports_step(self@, order_modules.deep_view(), 0);
        }
        let ghost g0 = self@;
        let ghost order = order_modules.deep_view();
        let mut k: usize = 0;
        while k < order_modules.len()
            invariant
                g0.inv(),
                self.input_options == old(self).input_options,
                k <= order_modules.len(),
                order == order_modules.deep_view(),
                forall|k: int| 0 <= k < order.len() ==> g0.contains(#[trigger] order[k]),
                g0 == old(self)@,
                self@.inv(),
                same_shape(g0, self@),
                self@.link_exports_from(order, k as int) == g0.link_exports_from(order, 0),
            decreases order_modules.len() - k,
        {
            let id = &order_modules[k];
            assert(id@ == order[k as int]);
            if !id.is_external() {
                assert(g0.contains(order[k as int]));
                match self.index_of(id) {
                    Some(a) => {
                        let ghost gk = self@;
                        match self.link_module_exports(a) {
                            Ok(_) => {},
                            Err(e) => {
                                proof {
                                    assert(gk.link_exports_from(order, k as int) == failed(e@, self@));
                                    crate::graph::failure_laws::lemma_link_passes_failure(g0, order);
                                }
                                return Err(e);
                            },
                        }
                    },
                    None => unreached(),
                }
            }
            k += 1;
        }
        Ok(())
    }
}

} // verus!
