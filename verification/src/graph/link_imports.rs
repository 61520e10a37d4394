//! The imports pass of the linker: every import is led to the binding that it names.
//!
//! For each import the pass joins the local symbol with the exported binding in the
//! union-find and records the import under the module that owns the binding, which need
//! not be the module that the import statement names.

use vstd::prelude::*;
use vstd::pervasive::unreached;
use crate::error::{BuildError, BuildErrorView};
use crate::graph::link_exports::lemma_prepare_importee_inv;
use crate::graph::{
    failed, lemma_index_of, lemma_with_normal_inv, same_shape, tables_kept, warnings_kept, Graph,
    GraphView, LinkFailure,
};
use crate::ident::{ModuleId, ModuleIdView};
use crate::module::{ExternalModule, ExternalModuleView, ModuleView, NormOrExt};
use crate::specifier::{
    ExportedSpecifier, ExportedSpecifierView, ImportedSpecifier, ImportedSpecifierView,
};
use crate::union_find::{lemma_merged_classes, merged};

verus! {

/// Whether the name `a` comes before the name `b`, or is `b`, in the order of the
/// dictionary with characters in the order of their code points.
pub open spec fn name_le(a: Seq<char>, b: Seq<char>) -> bool
    decreases a.len(),
{
    if a.len() == 0 {
        true
    } else if b.len() == 0 {
        false
    } else if a[0] != b[0] {
        (a[0] as u32) < (b[0] as u32)
    } else {
        name_le(a.drop_first(), b.drop_first())
    }
}

/// The sorted list `sorted` with `x` put behind the last specifier whose imported name
/// does not come after that of `x`.
pub open spec fn sorted_insert(sorted: Seq<ImportedSpecifierView>, x: ImportedSpecifierView) -> Seq<
    ImportedSpecifierView,
>
    decreases sorted.len(),
{
    if sorted.len() == 0 || name_le(sorted.last().imported, x.imported) {
        sorted.push(x)
    } else {
        sorted_insert(sorted.drop_last(), x).push(sorted.last())
    }
}

/// The specifiers `specs` sorted by imported name; specifiers of one name keep their order.
pub open spec fn sort_by_imported(specs: Seq<ImportedSpecifierView>) -> Seq<ImportedSpecifierView>
    decreases specs.len(),
{
    if specs.len() == 0 {
        Seq::empty()
    } else {
        sorted_insert(sort_by_imported(specs.drop_last()), specs.last())
    }
}

/// The paths of the modules `ids`.
pub open spec fn paths_of(ids: Seq<ModuleIdView>) -> Seq<Seq<char>> {
    Seq::new(ids.len(), |i: int| ids[i].path)
}

impl GraphView {
    pub open spec fn is_external(self, i: int) -> bool {
        0 <= i < self.modules.len() && self.modules[i] is External
    }

    /// The external module at position `i`.
    pub open spec fn external(self, i: int) -> ExternalModuleView {
        self.modules[i]->External_0
    }

    /// The graph with the external module `m` at position `i`.
    pub open spec fn with_external(self, i: int, m: ExternalModuleView) -> GraphView {
        GraphView { modules: self.modules.update(i, ModuleView::External(m)), ..self }
    }

    /// The graph after the classes of `x` and `y` are joined.
    pub open spec fn union(self, x: crate::ident::SymbolView, y: crate::ident::SymbolView) -> GraphView {
        GraphView { uf: merged(self.uf, x, y), ..self }
    }

    /// The importer at `a` finds what it imports among the exports of the normal module at
    /// `b`: the two symbols are joined and the import is recorded under the owner of the
    /// binding.
    pub open spec fn link_found(self, a: int, spec: ImportedSpecifierView, found: ExportedSpecifierView) -> GraphView {
        self.with_normal(
            a,
            self.normal(a).add_to_linked_imports(
                found.owner,
                ImportedSpecifierView { imported: found.exported_as, imported_as: spec.imported_as },
            ),
        ).union(spec.imported_as, found.local_id)
    }

    /// The importer at `a` asks the normal module at `b` for a name that it does not
    /// export, while `b` re-exports all of some external modules: the name is taken to come
    /// from the first of them. The importee imports it into a fresh symbol and exports that.
    pub open spec fn link_through_external(self, a: int, b: int, spec: ImportedSpecifierView) -> GraphView {
        let importee = self.normal(b);
        let externals = importee.external_modules_of_re_export_all;
        let first = externals[0];
        let g1 = if externals.len() > 1 {
            self.warn(
                BuildErrorView::AmbiguousExternalNamespaces {
                    name: spec.imported_as.name,
                    importee: importee.id.path,
                    chosen: first.path,
                    candidates: paths_of(externals),
                },
            )
        } else {
            self
        };
        let symbol = importee.next_symbol(spec.imported_as.name);
        let t = importee.create_top_level_symbol(spec.imported_as.name).add_to_linked_imports(
            first,
            ImportedSpecifierView { imported: spec.imported, imported_as: symbol },
        ).add_to_linked_exports(
            spec.imported,
            ExportedSpecifierView { exported_as: spec.imported, local_id: symbol, owner: importee.id },
        );
        let g2 = g1.with_normal(b, t);
        g2.with_normal(a, g2.normal(a).add_to_linked_imports(importee.id, spec)).union(
            spec.imported_as,
            symbol,
        )
    }

    /// One import of the importer at `a` from the normal module at `b`; `a` is `b` where a
    /// module imports from itself, and then what goes to the importer goes to that module.
    pub open spec fn import_from_normal(self, a: int, b: int, spec: ImportedSpecifierView) -> Result<GraphView, LinkFailure> {
        let g = self.prepare_importee(b, spec.imported, spec.imported_as.name);
        match g.normal(b).find_exported(spec.imported) {
            Some(found) => Ok(g.link_found(a, spec, found)),
            None => if g.normal(b).external_modules_of_re_export_all.len() > 0 {
                Ok(g.link_through_external(a, b, spec))
            } else {
                failed(
                    BuildErrorView::MissingExport {
                        name: spec.imported,
                        importer: self.normal(a).id.path,
                        importee: self.normal(b).id.path,
                    },
                    g,
                )
            },
        }
    }

    /// One import of the importer at `a` from the external module at `b`: the import is
    /// recorded as it stands and its symbol joined with the one symbol that the external
    /// module has for the name.
    pub open spec fn import_from_external(self, a: int, b: int, spec: ImportedSpecifierView) -> GraphView {
        let importee = self.external(b);
        let g = self.with_external(b, importee.find_exported_symbol(spec.imported));
        g.with_normal(a, g.normal(a).add_to_linked_imports(importee.id, spec)).union(
            spec.imported_as,
            importee.exported_symbol(spec.imported),
        )
    }

    /// One import of the importer at `a` from the module `importee`.
    pub open spec fn import_one(self, a: int, importee: ModuleIdView, spec: ImportedSpecifierView) -> Result<GraphView, LinkFailure> {
        let b = self.index_of(importee).unwrap();
        match self.modules[b] {
            ModuleView::Normal(_) => self.import_from_normal(a, b, spec),
            ModuleView::External(_) => Ok(self.import_from_external(a, b, spec)),
        }
    }

    /// The imports `specs` from one importee, from the `j`-th on, up to the first failure.
    pub open spec fn import_specs(
        self,
        a: int,
        importee: ModuleIdView,
        specs: Seq<ImportedSpecifierView>,
        j: int,
    ) -> Result<GraphView, LinkFailure>
        decreases specs.len() - j,
    {
        if 0 <= j < specs.len() {
            match self.import_one(a, importee, specs[j]) {
                Ok(g) => g.import_specs(a, importee, specs, j + 1),
                Err(e) => Err(e),
            }
        } else {
            Ok(self)
        }
    }

    /// The imports of the importer at `a` from one importee, in the order in which they are
    /// linked: sorted by imported name where a module imports from itself.
    pub open spec fn import_sequence(self, a: int, importee: ModuleIdView, specs: Seq<ImportedSpecifierView>) -> Seq<
        ImportedSpecifierView,
    > {
        if importee == self.normal(a).id {
            sort_by_imported(specs)
        } else {
            specs
        }
    }

    /// The imports `groups` of the importer at `a`, from the `k`-th importee on.
    pub open spec fn import_groups(
        self,
        a: int,
        groups: Seq<(ModuleIdView, Seq<ImportedSpecifierView>)>,
        k: int,
    ) -> Result<GraphView, LinkFailure>
        decreases groups.len() - k,
    {
        if 0 <= k < groups.len() {
            match self.import_specs(
                a,
                groups[k].0,
                self.import_sequence(a, groups[k].0, groups[k].1),
                0,
            ) {
                Ok(g) => g.import_groups(a, groups, k + 1),
                Err(e) => Err(e),
            }
        } else {
            Ok(self)
        }
    }

    /// The imports pass for the normal module at `a`.
    pub open spec fn link_module_imports(self, a: int) -> Result<GraphView, LinkFailure> {
        self.import_groups(a, self.normal(a).imports, 0)
    }

    /// The imports pass for the modules `order` from the `k`-th on; external modules are
    /// passed over.
    pub open spec fn link_imports_from(self, order: Seq<ModuleIdView>, k: int) -> Result<GraphView, LinkFailure>
        decreases order.len() - k,
    {
        if 0 <= k < order.len() {
            if order[k].external {
                self.link_imports_from(order, k + 1)
            } else {
                match self.link_module_imports(self.index_of(order[k]).unwrap()) {
                    Ok(g) => g.link_imports_from(order, k + 1),
                    Err(e) => Err(e),
                }
            }
        } else {
            Ok(self)
        }
    }

    /// The imports pass over the modules `order`, in that order, up to the first failure.
    pub open spec fn link_imports(self, order: Seq<ModuleIdView>) -> Result<GraphView, LinkFailure> {
        self.link_imports_from(order, 0)
    }
}

/// Replacing an external module by one of the same id keeps the graph in order.
pub proof fn lemma_with_external_inv(g: GraphView, i: int, m: ExternalModuleView)
    requires
        g.inv(),
        g.is_external(i),
        m.id == g.external(i).id,
    ensures
        g.with_external(i, m).inv(),
        same_shape(g, g.with_external(i, m)),
        forall|j: int|
            0 <= j < g.modules.len() && j != i ==> #[trigger] g.with_external(i, m).modules[j]
                == g.modules[j],
{
    let h = g.with_external(i, m);
    assert(h.ids() =~= g.ids());
    assert forall|j: int| 0 <= j < h.modules.len() implies match #[trigger] h.modules[j] {
        ModuleView::Normal(n) => h.module_closed(n),
        ModuleView::External(_) => true,
    } by {
        if j != i {
            assert(h.modules[j] == g.modules[j]);
        }
    }
    assert forall|j: int| 0 <= j < h.modules.len() implies ((#[trigger] h.modules[j]) is External)
        == h.modules[j].id().external by {
        if j != i {
            assert(h.modules[j] == g.modules[j]);
        } else {
            assert(g.modules[i] is External);
            assert(g.modules[i].id() == m.id);
        }
    }
}

/// One import leaves the graph in order.
pub proof fn lemma_import_one_inv(g: GraphView, a: int, importee: ModuleIdView, spec: ImportedSpecifierView)
    requires
        g.inv(),
        g.is_normal(a),
        g.contains(importee),
    ensures
        g.import_one(a, importee, spec) matches Ok(h) ==> h.inv() && same_shape(g, h),
{
    lemma_index_of(g, importee);
    let b = g.index_of(importee).unwrap();
    match g.modules[b] {
        ModuleView::Normal(_) => {
            lemma_prepare_importee_inv(g, b, spec.imported, spec.imported_as.name);
            let g1 = g.prepare_importee(b, spec.imported, spec.imported_as.name);
            assert(g1.ids()[a] == g.ids()[a]);
            match g1.normal(b).find_exported(spec.imported) {
                Some(found) => {
                    let n = g1.normal(a).add_to_linked_imports(
                        found.owner,
                        ImportedSpecifierView {
                            imported: found.exported_as,
                            imported_as: spec.imported_as,
                        },
                    );
                    lemma_with_normal_inv(g1, a, n);
                    lemma_merged_classes(g1.uf, spec.imported_as, found.local_id);
                },
                None => {
                    if g1.normal(b).external_modules_of_re_export_all.len() > 0 {
                        let h = g1.link_through_external(a, b, spec);
                        let importee_m = g1.normal(b);
                        let symbol = importee_m.next_symbol(spec.imported_as.name);
                        let t = h.normal(b);
                        let w = if importee_m.external_modules_of_re_export_all.len() > 1 {
                            g1.warn(
                                BuildErrorView::AmbiguousExternalNamespaces {
                                    name: spec.imported_as.name,
                                    importee: importee_m.id.path,
                                    chosen: importee_m.external_modules_of_re_export_all[0].path,
                                    candidates: paths_of(importee_m.external_modules_of_re_export_all),
                                },
                            )
                        } else {
                            g1
                        };
                        assert(w.ids() =~= g1.ids());
                        assert(w.inv()) by {
                            assert forall|j: int| 0 <= j < w.modules.len() implies match #[trigger] w.modules[j] {
                                ModuleView::Normal(n) => w.module_closed(n),
                                ModuleView::External(_) => true,
                            } by {
                                assert(w.modules[j] == g1.modules[j]);
                            }
                        }
                        let t3 = importee_m.create_top_level_symbol(
                            spec.imported_as.name,
                        ).add_to_linked_imports(
                            importee_m.external_modules_of_re_export_all[0],
                            ImportedSpecifierView { imported: spec.imported, imported_as: symbol },
                        ).add_to_linked_exports(
                            spec.imported,
                            ExportedSpecifierView {
                                exported_as: spec.imported,
                                local_id: symbol,
                                owner: importee_m.id,
                            },
                        );
                        lemma_with_normal_inv(w, b, t3);
                        let g2 = w.with_normal(b, t3);
                        if a != b {
                            assert(g2.modules[a] == g1.modules[a]);
                        }
                        lemma_with_normal_inv(
                            g2,
                            a,
                            g2.normal(a).add_to_linked_imports(importee_m.id, spec),
                        );
                        lemma_merged_classes(g2.uf, spec.imported_as, symbol);
                    }
                },
            }
        },
        ModuleView::External(e) => {
            lemma_with_external_inv(g, b, e.find_exported_symbol(spec.imported));
            let g1 = g.with_external(b, e.find_exported_symbol(spec.imported));
            assert(g1.modules[a] == g.modules[a]);
            lemma_with_normal_inv(g1, a, g1.normal(a).add_to_linked_imports(e.id, spec));
            lemma_merged_classes(g1.uf, spec.imported_as, e.exported_symbol(spec.imported));
        },
    }
}

/// Whether the name `a` comes before the name `b`, or is `b`.
pub fn is_name_le(a: &str, b: &str) -> (r: bool)
    ensures
        r == name_le(a@, b@),
{
    let n = a.unicode_len();
    let m = b.unicode_len();
    let mut i: usize = 0;
    assert(a@.skip(0) =~= a@ && b@.skip(0) =~= b@);
    while i < n && i < m
        invariant
            n == a@.len(),
            m == b@.len(),
            i <= n,
            i <= m,
            name_le(a@, b@) == name_le(a@.skip(i as int), b@.skip(i as int)),
        decreases n - i,
    {
        let x = a.get_char(i);
        let y = b.get_char(i);
        proof {
            let s = a@.skip(i as int);
            let t = b@.skip(i as int);
            assert(s[0] == x && t[0] == y);
            assert(s.drop_first() =~= a@.skip(i as int + 1));
            assert(t.drop_first() =~= b@.skip(i as int + 1));
        }
        if x != y {
            return (x as u32) < (y as u32);
        }
        i += 1;
    }
    proof {
        assert(a@.skip(i as int).len() == n - i);
        assert(b@.skip(i as int).len() == m - i);
    }
    i == n
}

/// Where `x` goes in `sorted`: behind the specifiers before position `p`, of which the
/// last does not come after `x`, and before the rest, which all come after `x`.
pub proof fn lemma_sorted_insert_at(
    sorted: Seq<ImportedSpecifierView>,
    x: ImportedSpecifierView,
    p: int,
)
    requires
        0 <= p <= sorted.len(),
        p > 0 ==> name_le(sorted[p - 1].imported, x.imported),
        forall|q: int| p <= q < sorted.len() ==> !name_le((#[trigger] sorted[q]).imported, x.imported),
    ensures
        sorted_insert(sorted, x) == sorted.take(p).push(x) + sorted.skip(p),
    decreases sorted.len() - p,
{
    if p == sorted.len() {
        assert(sorted.take(p) =~= sorted);
        assert(sorted.skip(p) =~= Seq::empty());
        assert(sorted.push(x) + Seq::empty() =~= sorted.push(x));
        if sorted.len() > 0 {
            assert(sorted.last() == sorted[p - 1]);
        }
    } else {
        let shorter = sorted.drop_last();
        assert(!name_le(sorted[sorted.len() - 1].imported, x.imported));
        assert forall|q: int| p <= q < shorter.len() implies !name_le(
            (#[trigger] shorter[q]).imported,
            x.imported,
        ) by {
            assert(shorter[q] == sorted[q]);
        }
        if p > 0 {
            assert(shorter[p - 1] == sorted[p - 1]);
        }
        lemma_sorted_insert_at(shorter, x, p);
        assert(shorter.take(p) =~= sorted.take(p));
        assert((shorter.take(p).push(x) + shorter.skip(p)).push(sorted.last()) =~= sorted.take(
            p,
        ).push(x) + sorted.skip(p));
    }
}

/// A copy of `specs` sorted by imported name; specifiers of one name keep their order.
pub fn sorted_by_imported(specs: &Vec<ImportedSpecifier>) -> (r: Vec<ImportedSpecifier>)
    ensures
        r.deep_view() == sort_by_imported(specs.deep_view()),
{
    let mut r: Vec<ImportedSpecifier> = Vec::new();
    let mut k: usize = 0;
    assert(specs.deep_view().take(0) =~= Seq::empty());
    assert(r.deep_view() =~= Seq::empty());
    while k < specs.len()
        invariant
            k <= specs.len(),
            r.len() == k,
            r.deep_view() == sort_by_imported(specs.deep_view().take(k as int)),
        decreases specs.len() - k,
    {
        let ghost before = r.deep_view();
        let x = specs[k].clone();
        let mut p: usize = r.len();
        while p > 0 && !is_name_le(r[p - 1].imported.as_str(), x.imported.as_str())
            invariant
                p <= r.len(),
                before == r.deep_view(),
                forall|q: int|
                    p <= q < r.len() ==> !name_le((#[trigger] before[q]).imported, x@.imported),
            decreases p,
        {
            assert(before[p - 1].imported == r[p - 1].imported@);
            p -= 1;
        }
        proof {
            if p > 0 {
                assert(before[p - 1].imported == r[p - 1].imported@);
            }
            lemma_sorted_insert_at(before, x@, p as int);
            let longer = specs.deep_view().take(k as int + 1);
            assert(longer.drop_last() =~= specs.deep_view().take(k as int));
            assert(longer.last() == x@);
        }
        r.insert(p, x);
        assert(r.deep_view() =~= before.take(p as int).push(x@) + before.skip(p as int));
        k += 1;
    }
    assert(specs.deep_view().take(specs.len() as int) =~= specs.deep_view());
    r
}

/// A copy of a list of imported specifiers.
pub fn clone_imports(v: &Vec<ImportedSpecifier>) -> (r: Vec<ImportedSpecifier>)
    ensures
        r.deep_view() == v.deep_view(),
{
    let mut r: Vec<ImportedSpecifier> = Vec::new();
    let mut k: usize = 0;
    while k < v.len()
        invariant
            k <= v.len(),
            r.len() == k,
            forall|j: int| 0 <= j < k ==> #[trigger] r.deep_view()[j] == v.deep_view()[j],
        decreases v.len() - k,
    {
        let ghost before = r.deep_view();
        r.push(v[k].clone());
        assert(r.deep_view() =~= before.push(v[k as int]@));
        k += 1;
    }
    assert(r.deep_view() =~= v.deep_view());
    r
}

/// A copy of the imports of a module.
pub fn clone_import_groups(v: &Vec<(ModuleId, Vec<ImportedSpecifier>)>) -> (r: Vec<
    (ModuleId, Vec<ImportedSpecifier>),
>)
    ensures
        r.deep_view() == v.deep_view(),
{
    let mut r: Vec<(ModuleId, Vec<ImportedSpecifier>)> = Vec::new();
    let mut k: usize = 0;
    while k < v.len()
        invariant
            k <= v.len(),
            r.len() == k,
            forall|j: int| 0 <= j < k ==> #[trigger] r.deep_view()[j] == v.deep_view()[j],
        decreases v.len() - k,
    {
        let ghost before = r.deep_view();
        let importee = v[k].0.clone();
        let specs = clone_imports(&v[k].1);
        r.push((importee, specs));
        assert(r.deep_view() =~= before.push((importee@, specs.deep_view())));
        k += 1;
    }
    assert(r.deep_view() =~= v.deep_view());
    r
}

/// The paths of the modules `ids`.
pub fn collect_paths(ids: &Vec<ModuleId>) -> (r: Vec<String>)
    ensures
        r.deep_view() == paths_of(ids.deep_view()),
{
    let mut r: Vec<String> = Vec::new();
    let mut k: usize = 0;
    while k < ids.len()
        invariant
            k <= ids.len(),
            r.len() == k,
            forall|j: int| 0 <= j < k ==> #[trigger] r.deep_view()[j] == ids.deep_view()[j].path,
        decreases ids.len() - k,
    {
        let ghost before = r.deep_view();
        r.push(ids[k].path.clone());
        assert(r.deep_view() =~= before.push(ids[k as int].path@));
        k += 1;
    }
    assert(r.deep_view() =~= paths_of(ids.deep_view()));
    r
}

impl Graph {
    fn import_from_normal(&mut self, a: usize, b: usize, spec: &ImportedSpecifier) -> (r: Result<
        (),
        BuildError,
    >)
        requires
            old(self)@.inv(),
            old(self)@.is_normal(a as int),
            old(self)@.is_normal(b as int),
        ensures
            final(self).input_options == old(self).input_options,
            match r {
                Ok(_) => old(self)@.import_from_normal(a as int, b as int, spec@) == Ok::<GraphView, LinkFailure>(
                    final(self)@,
                ),
                Err(e) => old(self)@.import_from_normal(a as int, b as int, spec@) == failed(e@, final(self)@),
            },
    {
        let ghost g0 = self@;
        self.prepare_importee(b, spec.imported.as_str(), spec.imported_as.name());
        let ghost g = self@;
        assert(g.ids()[a as int] == g0.ids()[a as int]);
        assert(g.ids()[b as int] == g0.ids()[b as int]);
        let found = match self.modules[b].expect_norm().find_exported(spec.imported.as_str()) {
            Some(target) => Some(target.clone()),
            None => None,
        };
        match found {
            Some(found) => {
                self.uf.union(&spec.imported_as, &found.local_id);
                let linked = ImportedSpecifier {
                    imported: found.exported_as.clone(),
                    imported_as: spec.imported_as.clone(),
                };
                self.modules[a].expect_norm_mut().add_to_linked_imports(&found.owner, linked);
                assert(self.modules.deep_view() =~= g.link_found(a as int, spec@, found@).modules);
                Ok(())
            },
            None => {
                let importee = self.modules[b].expect_norm();
                if importee.external_modules_of_re_export_all.len() > 0 {
                    let first = importee.external_modules_of_re_export_all[0].clone();
                    assert(first@ == g.normal(b as int).external_modules_of_re_export_all[0]);
                    let importee_id = importee.id.clone();
                    if importee.external_modules_of_re_export_all.len() > 1 {
                        let warning = BuildError::ambiguous_external_namespaces(
                            spec.imported_as.name(),
                            importee_id.id(),
                            first.id(),
                            collect_paths(&importee.external_modules_of_re_export_all),
                        );
                        self.warnings.push(warning);
                        assert(self.warnings.deep_view() =~= g.warnings.push(warning@));
                    }
                    let t = self.modules[b].expect_norm_mut();
                    let symbol = t.create_top_level_symbol(spec.imported_as.name());
                    t.add_to_linked_imports(
                        &first,
                        ImportedSpecifier { imported: spec.imported.clone(), imported_as: symbol.clone() },
                    );
                    t.add_to_linked_exports(
                        spec.imported.clone(),
                        ExportedSpecifier {
                            exported_as: spec.imported.clone(),
                            local_id: symbol.clone(),
                            owner: importee_id.clone(),
                        },
                    );
                    self.modules[a].expect_norm_mut().add_to_linked_imports(&importee_id, spec.clone());
                    self.uf.union(&spec.imported_as, &symbol);
                    assert(self.modules.deep_view() =~= g.link_through_external(
                        a as int,
                        b as int,
                        spec@,
                    ).modules);
                    Ok(())
                } else {
                    Err(
                        BuildError::missing_export(
                            spec.imported.as_str(),
                            self.modules[a].id().id(),
                            self.modules[b].id().id(),
                        ),
                    )
                }
            },
        }
    }

    fn import_from_external(&mut self, a: usize, b: usize, spec: &ImportedSpecifier)
        requires
            old(self)@.inv(),
            old(self)@.is_normal(a as int),
            old(self)@.is_external(b as int),
        ensures
            final(self).input_options == old(self).input_options,
            final(self)@ == old(self)@.import_from_external(a as int, b as int, spec@),
    {
        let ghost g = self@;
        let importee = self.modules[b].expect_ext_mut();
        let symbol = importee.find_exported_symbol(spec.imported.as_str());
        let importee_id = importee.id.clone();
        self.modules[a].expect_norm_mut().add_to_linked_imports(&importee_id, spec.clone());
        self.uf.union(&spec.imported_as, &symbol);
        assert(self.modules.deep_view() =~= g.import_from_external(a as int, b as int, spec@).modules);
    }

    fn import_one(&mut self, a: usize, importee: &ModuleId, spec: &ImportedSpecifier) -> (r: Result<
        (),
        BuildError,
    >)
        requires
            old(self)@.inv(),
            old(self)@.is_normal(a as int),
            old(self)@.contains(importee@),
        ensures
            final(self).input_options == old(self).input_options,
            match r {
                Ok(_) => old(self)@.import_one(a as int, importee@, spec@) == Ok::<GraphView, LinkFailure>(
                    final(self)@,
                ),
                Err(e) => old(self)@.import_one(a as int, importee@, spec@) == failed(e@, final(self)@),
            },
            r is Ok ==> final(self)@.inv() && same_shape(old(self)@, final(self)@),
    {
        proof {
            lemma_import_one_inv(self@, a as int, importee@, spec@);
        }
        match self.index_of(importee) {
            Some(b) => {
                if self.modules[b].is_external() {
                    self.import_from_external(a, b, spec);
                    Ok(())
                } else {
                    self.import_from_normal(a, b, spec)
                }
            },
            None => unreached(),
        }
    }

    /// The imports pass for the normal module at `a`.
    fn link_module_imports(&mut self, a: usize) -> (r: Result<(), BuildError>)
        requires
            old(self)@.inv(),
            old(self)@.is_normal(a as int),
        ensures
            final(self).input_options == old(self).input_options,
            match r {
                Ok(_) => old(self)@.link_module_imports(a as int) == Ok::<GraphView, LinkFailure>(
                    final(self)@,
                ),
                Err(e) => old(self)@.link_module_imports(a as int) == failed(e@, final(self)@),
            },
            r is Ok ==> final(self)@.inv() && same_shape(old(self)@, final(self)@),
    {
        let ghost g0 = self@;
        let groups = clone_import_groups(&self.modules[a].expect_norm().imports);
        let ghost gs = groups.deep_view();
        let mut k: usize = 0;
        while k < groups.len()
            invariant
                self.input_options == old(self).input_options,
                k <= groups.len(),
                gs == groups.deep_view(),
                gs == g0.normal(a as int).imports,
                g0 == old(self)@,
                g0.inv(),
                g0.is_normal(a as int),
                self@.inv(),
                same_shape(g0, self@),
                self@.is_normal(a as int),
                self@.import_groups(a as int, gs, k as int) == g0.import_groups(a as int, gs, 0),
            decreases groups.len() - k,
        {
            let ghost gk = self@;
            let importee = &groups[k].0;
            assert(gs[k as int] == (importee@, groups[k as int].1.deep_view()));
            assert(g0.module_closed(g0.normal(a as int)));
            assert(g0.contains(gs[k as int].0));
            assert(gk.ids()[a as int] == g0.ids()[a as int]);
            let specs = if *importee == self.modules[a].expect_norm().id {
                sorted_by_imported(&groups[k].1)
            } else {
                clone_imports(&groups[k].1)
            };
            assert(specs.deep_view() == gk.import_sequence(a as int, gs[k as int].0, gs[k as int].1));
            let mut j: usize = 0;
            while j < specs.len()
                invariant
                    self.input_options == old(self).input_options,
                    j <= specs.len(),
                    g0.inv(),
                    self@.inv(),
                    same_shape(g0, self@),
                    self@.is_normal(a as int),
                    g0.contains(importee@),
                    0 <= k < gs.len(),
                    g0 == old(self)@,
                    gs == g0.normal(a as int).imports,
                    gs[k as int].0 == importee@,
                    specs.deep_view() == gk.import_sequence(a as int, gs[k as int].0, gs[k as int].1),
                    gk.import_groups(a as int, gs, k as int) == g0.import_groups(a as int, gs, 0),
                    self@.import_specs(a as int, importee@, specs.deep_view(), j as int)
                        == gk.import_specs(a as int, importee@, specs.deep_view(), 0),
                decreases specs.len() - j,
            {
                let ghost gj = self@;
                assert(specs.deep_view()[j as int] == specs[j as int]@);
                match self.import_one(a, importee, &specs[j]) {
                    Ok(_) => {},
                    Err(e) => {
                        proof {
                            assert(gj.import_specs(a as int, importee@, specs.deep_view(), j as int)
                                == failed(e@, self@));
                            assert(gk.import_groups(a as int, gs, k as int) == failed(e@, self@));
                        }
                        return Err(e);
                    },
                }
                j += 1;
            }
            k += 1;
        }
        Ok(())
    }

    /// The imports pass: for each module of `order_modules` that is not external, in that
    /// order, every import is joined with the binding that it names and recorded under
    /// the module that owns the binding. Stops at the first failure, and then leaves the
    /// graph as it is at that point.
    pub fn link_imports(&mut self, order_modules: &Vec<ModuleId>) -> (r: Result<(), BuildError>)
        requires
            old(self)@.inv(),
            forall|k: int|
                0 <= k < order_modules.len() ==> old(self)@.contains(
                    #[trigger] order_modules.deep_view()[k],
                ),
        ensures
            warnings_kept(old(self)@, final(self)@),
            r is Err ==> final(self)@.inv() && same_shape(old(self)@, final(self)@) && tables_kept(
                old(self)@,
                final(self)@,
            ),
            r is Ok ==> tables_kept(old(self)@, final(self)@),
            final(self).input_options == old(self).input_options,
            match r {
                Ok(_) => old(self)@.link_imports(order_modules.deep_view()) == Ok::<GraphView, LinkFailure>(
                    final(self)@,
                ),
                Err(e) => old(self)@.link_imports(order_modules.deep_view()) == failed(e@, final(self)@),
            },
            r is Ok ==> final(self)@.inv() && same_shape(old(self)@, final(self)@),
    {
        proof {
            crate::graph::import_laws::lemma_link_imports_from_linked(self@, order_modules.deep_view(), 0);
        }
        let ghost g0 = self@;
        let ghost order = order_modules.deep_view();
        let mut k: usize = 0;
        while k < order_modules.len()
            invariant
                g0.inv(),
                self.input_options == old(self).input_options,
                k <= order_modules.len(),
                order == order_modules.deep_view(),
                forall|k: int| 0 <= k < order.len() ==> g0.contains(#[trigger] order[k]),
                g0 == old(self)@,
                self@.inv(),
                same_shape(g0, self@),
                self@.link_imports_from(order, k as int) == g0.link_imports_from(order, 0),
            decreases order_modules.len() - k,
        {
            let id = &order_modules[k];
            assert(id@ == order[k as int]);
            if !id.is_external() {
                assert(g0.contains(order[k as int]));
                match self.index_of(id) {
                    Some(a) => {
                        let ghost gk = self@;
                        match self.link_module_imports(a) {
                            Ok(_) => {},
                            Err(e) => {
                                proof {
                                    assert(gk.link_imports_from(order, k as int) == failed(e@, self@));
                                    crate::graph::failure_laws::lemma_link_passes_failure(g0, order);
                                }
                                return Err(e);
                            },
                        }
                    },
                    None => unreached(),
                }
            }
            k += 1;
        }
        Ok(())
    }
}

} // verus!
