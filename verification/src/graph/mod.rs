//! The module graph: the modules by id, their execution order, and the state of the link.

pub mod arrival_laws;
pub mod export_laws;
pub mod failure_laws;
pub mod import_laws;
pub mod laws;
pub mod link;
pub mod link_exports;
pub mod link_imports;
pub mod link_laws;
pub mod order;
pub mod order_laws;
pub mod pass_laws;
pub mod table_laws;

use vstd::prelude::*;
use crate::error::{BuildError, BuildErrorView};
use crate::graph::order::{compute_post_order, edges_wf, post_order};
use crate::graph::order_laws::lemma_post_order_valid;
use crate::ident::{ModuleId, ModuleIdView};
use crate::module::{ModuleView, NormOrExt, NormalModuleView};
use crate::options::InputOptions;
use crate::table::{is_first, lemma_position_first, lemma_position_none, lemma_position_some, position};
use crate::union_find::{leaders_known, Partition, UnionFind};

verus! {

/// Mathematical value of a [`Graph`].
pub struct GraphView {
    pub shim_missing_exports: bool,
    pub entries: Seq<ModuleIdView>,
    pub modules: Seq<ModuleView>,
    pub uf: Partition,
    pub warnings: Seq<BuildErrorView>,
}

/// The modules with the `k`-th of `sequence` given execution order `k`.
pub open spec fn assign_orders(modules: Seq<ModuleView>, sequence: Seq<usize>) -> Seq<ModuleView> {
    Seq::new(
        modules.len(),
        |i: int|
            match position(sequence, i as usize) {
                Some(k) => modules[i].set_exec_order(k as usize),
                None => modules[i],
            },
    )
}

/// A pass that failed: the error, and the graph as the pass left it.
pub struct LinkFailure {
    pub error: BuildErrorView,
    pub graph: GraphView,
}

/// The outcome of a pass that failed with `error` and left `graph`.
pub open spec fn failed(error: BuildErrorView, graph: GraphView) -> Result<GraphView, LinkFailure> {
    Err(LinkFailure { error, graph })
}

impl GraphView {
    /// The ids of the modules, in the order in which the modules were added.
    pub open spec fn ids(self) -> Seq<ModuleIdView> {
        Seq::new(self.modules.len(), |i: int| self.modules[i].id())
    }

    pub open spec fn contains(self, id: ModuleIdView) -> bool {
        self.ids().contains(id)
    }

    /// Position of the module `id`.
    pub open spec fn index_of(self, id: ModuleIdView) -> Option<int> {
        position(self.ids(), id)
    }

    /// No id occurs twice, a module is external exactly if its id says so, and the
    /// union-find is in order.
    pub open spec fn wf(self) -> bool {
        &&& self.ids().no_duplicates()
        &&& forall|i: int|
            0 <= i < self.modules.len() ==> ((#[trigger] self.modules[i]) is External)
                == self.modules[i].id().external
        &&& leaders_known(self.uf)
    }

    /// The invariant of the tables: in no table of a module a key occurs twice, and in no
    /// set a member.
    pub open spec fn tables_wf(self) -> bool {
        forall|i: int| 0 <= i < self.modules.len() ==> (#[trigger] self.modules[i]).tables_wf()
    }

    /// Every module that `m` names is in the graph.
    pub open spec fn module_closed(self, m: NormalModuleView) -> bool {
        &&& forall|k: int|
            0 <= k < m.dependencies.len() ==> self.contains(#[trigger] m.dependencies[k])
        &&& forall|k: int|
            0 <= k < m.dynamic_dependencies.len() ==> self.contains(
                #[trigger] m.dynamic_dependencies[k],
            )
        &&& forall|k: int| 0 <= k < m.imports.len() ==> self.contains((#[trigger] m.imports[k]).0)
        &&& forall|k: int|
            0 <= k < m.re_exported_ids.len() ==> self.contains((#[trigger] m.re_exported_ids[k]).0)
        &&& forall|k: int|
            0 <= k < m.re_export_all.len() ==> self.contains(#[trigger] m.re_export_all[k])
    }

    /// Every entry and every module that a module of the graph names is in the graph.
    pub open spec fn closed(self) -> bool {
        &&& forall|k: int| 0 <= k < self.entries.len() ==> self.contains(#[trigger] self.entries[k])
        &&& forall|i: int|
            0 <= i < self.modules.len() ==> match #[trigger] self.modules[i] {
                ModuleView::Normal(m) => self.module_closed(m),
                ModuleView::External(_) => true,
            }
    }

    /// The positions of the modules `ids`.
    pub open spec fn targets(self, ids: Seq<ModuleIdView>) -> Seq<usize> {
        Seq::new(ids.len(), |k: int| self.index_of(ids[k]).unwrap() as usize)
    }

    /// The static dependencies of each module, by position.
    pub open spec fn static_edges(self) -> Seq<Seq<usize>> {
        Seq::new(self.modules.len(), |i: int| self.targets(self.modules[i].dependencies()))
    }

    /// The dynamic dependencies of each module, by position.
    pub open spec fn dynamic_edges(self) -> Seq<Seq<usize>> {
        Seq::new(self.modules.len(), |i: int| self.targets(self.modules[i].dynamic_dependencies()))
    }

    /// The positions of the modules that the ordering pass reaches, in execution order.
    pub open spec fn exec_sequence(self) -> Seq<usize> {
        post_order(self.static_edges(), self.dynamic_edges(), self.targets(self.entries))
    }

    /// The graph after the ordering pass.
    pub open spec fn sort_modules(self) -> GraphView {
        GraphView { modules: assign_orders(self.modules, self.exec_sequence()), ..self }
    }
}

/// `h` has the modules of `g`, each of the same kind, and the same entries and settings.
pub open spec fn same_shape(g: GraphView, h: GraphView) -> bool {
    &&& h.ids() == g.ids()
    &&& h.modules.len() == g.modules.len()
    &&& h.entries == g.entries
    &&& h.shim_missing_exports == g.shim_missing_exports
    &&& forall|i: int|
        0 <= i < g.modules.len() ==> ((#[trigger] h.modules[i]) is Normal) == (g.modules[i] is Normal)
}

impl GraphView {
    /// What every pass needs of the graph and keeps.
    pub open spec fn inv(self) -> bool {
        self.wf() && self.closed()
    }

    pub open spec fn is_normal(self, i: int) -> bool {
        0 <= i < self.modules.len() && self.modules[i] is Normal
    }

    /// The normal module at position `i`.
    pub open spec fn normal(self, i: int) -> NormalModuleView {
        self.modules[i]->Normal_0
    }

    /// The graph with the normal module `m` at position `i`.
    pub open spec fn with_normal(self, i: int, m: NormalModuleView) -> GraphView {
        GraphView { modules: self.modules.update(i, ModuleView::Normal(m)), ..self }
    }

    /// The graph after the warning `w` is noted.
    pub open spec fn warn(self, w: BuildErrorView) -> GraphView {
        GraphView { warnings: self.warnings.push(w), ..self }
    }
}

/// The warnings of `h` are those of `g` and perhaps more behind them.
pub open spec fn warnings_kept(g: GraphView, h: GraphView) -> bool {
    g.warnings.len() <= h.warnings.len() && forall|i: int|
        0 <= i < g.warnings.len() ==> #[trigger] h.warnings[i] == g.warnings[i]
}

/// The tables of `h` are in order if those of `g` are.
pub open spec fn tables_kept(g: GraphView, h: GraphView) -> bool {
    g.tables_wf() ==> h.tables_wf()
}

/// Where all modules but those at `a` and `b` are as they were, and the tables of these
/// two are in order, the tables of the graph are in order if they were.
pub proof fn lemma_tables_after(g: GraphView, h: GraphView, a: int, b: int)
    requires
        h.modules.len() == g.modules.len(),
        forall|i: int| 0 <= i < g.modules.len() && i != a && i != b ==> #[trigger] h.modules[i] == g.modules[i],
        g.tables_wf() && 0 <= a < h.modules.len() ==> h.modules[a].tables_wf(),
        g.tables_wf() && 0 <= b < h.modules.len() ==> h.modules[b].tables_wf(),
    ensures
        tables_kept(g, h),
{
    if g.tables_wf() {
        assert forall|j: int| 0 <= j < h.modules.len() implies (#[trigger] h.modules[j]).tables_wf() by {
            if j != a && j != b {
                assert(h.modules[j] == g.modules[j]);
                assert(g.modules[j].tables_wf());
            }
        }
    }
}

/// Replacing a normal module by one of the same id that names only modules of the graph
/// keeps the graph in order.
pub proof fn lemma_with_normal_inv(g: GraphView, i: int, m: NormalModuleView)
    requires
        g.inv(),
        g.is_normal(i),
        m.id == g.normal(i).id,
        g.module_closed(m),
    ensures
        g.with_normal(i, m).inv(),
        same_shape(g, g.with_normal(i, m)),
        g.with_normal(i, m).is_normal(i),
        g.with_normal(i, m).normal(i) == m,
{
    let h = g.with_normal(i, m);
    assert(h.ids() =~= g.ids());
    assert forall|j: int| 0 <= j < h.modules.len() implies match #[trigger] h.modules[j] {
        ModuleView::Normal(n) => h.module_closed(n),
        ModuleView::External(_) => true,
    } by {
        if j != i {
            assert(h.modules[j] == g.modules[j]);
        }
    }
    assert forall|j: int| 0 <= j < h.modules.len() implies ((#[trigger] h.modules[j]) is External)
        == h.modules[j].id().external by {
        if j != i {
            assert(h.modules[j] == g.modules[j]);
        } else {
            assert(g.modules[i] is Normal);
            assert(g.modules[i].id() == m.id);
        }
    }
}

/// The modules of a build and what linking has found out about them.
pub struct Graph {
    pub input_options: InputOptions,
    pub entries: Vec<ModuleId>,
    pub modules: Vec<NormOrExt>,
    pub uf: UnionFind,
    /// Warnings met so far, in the order of meeting; they go to the warning sink.
    pub warnings: Vec<BuildError>,
}

impl View for Graph {
    type V = GraphView;

    open spec fn view(&self) -> GraphView {
        GraphView {
            shim_missing_exports: self.input_options.shim_missing_exports,
            entries: self.entries.deep_view(),
            modules: self.modules.deep_view(),
            uf: self.uf@,
            warnings: self.warnings.deep_view(),
        }
    }
}

pub proof fn lemma_index_of(g: GraphView, id: ModuleIdView)
    requires
        g.contains(id),
    ensures
        g.index_of(id) is Some,
        0 <= g.index_of(id).unwrap() < g.modules.len(),
        g.modules[g.index_of(id).unwrap()].id() == id,
{
    lemma_position_some(g.ids(), id);
}

/// In a graph without repeated ids a module is found at its own position.
pub proof fn lemma_index_of_own(g: GraphView, i: int)
    requires
        g.ids().no_duplicates(),
        0 <= i < g.modules.len(),
    ensures
        g.index_of(g.modules[i].id()) == Some(i),
{
    let id = g.modules[i].id();
    assert(g.ids()[i] == id);
    assert forall|j: int| 0 <= j < i implies #[trigger] g.ids()[j] != id by {}
    lemma_position_first(g.ids(), id, i);
}

/// The ordering pass changes nothing but execution orders.
pub proof fn lemma_sort_modules_inv(g: GraphView)
    requires
        g.inv(),
    ensures
        g.sort_modules().inv(),
        same_shape(g, g.sort_modules()),
{
    let h = g.sort_modules();
    assert(h.ids() =~= g.ids());
    assert forall|i: int| 0 <= i < h.modules.len() implies match #[trigger] h.modules[i] {
        ModuleView::Normal(n) => h.module_closed(n),
        ModuleView::External(_) => true,
    } by {
        match g.modules[i] {
            ModuleView::Normal(m) => {
                assert(g.module_closed(m));
            },
            ModuleView::External(_) => {},
        }
    }
}

impl Graph {
    /// A graph without modules.
    pub fn new(input_options: InputOptions) -> (r: Self)
        ensures
            r@.tables_wf(),
            r@ == (GraphView {
                shim_missing_exports: input_options.shim_missing_exports,
                entries: Seq::empty(),
                modules: Seq::empty(),
                uf: Map::empty(),
                warnings: Seq::empty(),
            }),
            r.input_options == input_options,
            r@.wf(),
            r@.closed(),
    {
        let r = Graph {
            input_options,
            entries: Vec::new(),
            modules: Vec::new(),
            uf: UnionFind::new(),
            warnings: Vec::new(),
        };
        assert(r.entries.deep_view() =~= Seq::empty());
        assert(r.modules.deep_view() =~= Seq::empty());
        assert(r.warnings.deep_view() =~= Seq::empty());
        r
    }

    /// Position of the module `id`.
    pub fn index_of(&self, id: &ModuleId) -> (r: Option<usize>)
        ensures
            match r {
                Some(i) => self@.index_of(id@) == Some(i as int) && i < self.modules.len()
                    && self@.modules[i as int].id() == id@,
                None => !self@.contains(id@),
            },
    {
        let mut i: usize = 0;
        while i < self.modules.len()
            invariant
                i <= self.modules.len(),
                forall|j: int| 0 <= j < i ==> #[trigger] self@.ids()[j] != id@,
            decreases self.modules.len() - i,
        {
            if *self.modules[i].id() == *id {
                proof {
                    assert(self@.ids()[i as int] == id@);
                    lemma_position_first(self@.ids(), id@, i as int);
                }
                return Some(i);
            }
            assert(self@.ids()[i as int] != id@);
            i += 1;
        }
        None
    }

    pub fn contains(&self, id: &ModuleId) -> (r: bool)
        ensures
            r == self@.contains(id@),
    {
        self.index_of(id).is_some()
    }

    /// The module `id`, if the graph has it.
    pub fn fetch_module(&self, id: &ModuleId) -> (r: Option<&NormOrExt>)
        ensures
            match r {
                Some(m) => self@.index_of(id@) is Some && m@ == self@.modules[self@.index_of(
                    id@,
                ).unwrap()],
                None => !self@.contains(id@),
            },
    {
        match self.index_of(id) {
            Some(i) => Some(&self.modules[i]),
            None => None,
        }
    }

    /// Adds a module whose id the graph does not hold yet.
    pub fn add_module(&mut self, module: NormOrExt)
        requires
            old(self)@.wf(),
            !old(self)@.contains(module@.id()),
            (module@ is External) == module@.id().external,
        ensures
            old(self)@.tables_wf() && module@.tables_wf() ==> final(self)@.tables_wf(),
            final(self).input_options == old(self).input_options,
            final(self)@ == (GraphView { modules: old(self)@.modules.push(module@), ..old(self)@ }),
            final(self)@.wf(),
    {
        let ghost before = self@;
        self.modules.push(module);
        proof {
            assert(self.modules.deep_view() =~= before.modules.push(module@));
            if before.tables_wf() && module@.tables_wf() {
                assert forall|i: int| 0 <= i < self@.modules.len() implies (
                #[trigger] self@.modules[i]).tables_wf() by {
                    if i < before.modules.len() {
                        assert(self@.modules[i] == before.modules[i]);
                    }
                }
            }
            assert(self@.ids() =~= before.ids().push(module@.id()));
            assert forall|i: int, j: int|
                0 <= i < self@.ids().len() && 0 <= j < self@.ids().len() && i != j implies self@.ids()[i]
                != self@.ids()[j] by {
                if i < before.ids().len() && j < before.ids().len() {
                    assert(before.ids()[i] != before.ids()[j]);
                } else if i < before.ids().len() {
                    assert(before.ids()[i] == self@.ids()[i]);
                } else {
                    assert(before.ids()[j] == self@.ids()[j]);
                }
            }
            assert forall|i: int| 0 <= i < self@.modules.len() implies ((
            #[trigger] self@.modules[i]) is External) == self@.modules[i].id().external by {
                if i < before.modules.len() {
                    assert(self@.modules[i] == before.modules[i]);
                }
            }
        }
    }

    /// Marks `id` as an entry of the build.
    pub fn add_entry(&mut self, id: ModuleId)
        ensures
            final(self).input_options == old(self).input_options,
            final(self)@ == (GraphView { entries: old(self)@.entries.push(id@), ..old(self)@ }),
    {
        let ghost before = self@;
        self.entries.push(id);
        assert(self.entries.deep_view() =~= before.entries.push(id@));
    }

    /// The positions of the modules `ids`.
    fn targets_of(&self, ids: &Vec<ModuleId>) -> (r: Vec<usize>)
        requires
            forall|k: int| 0 <= k < ids.len() ==> self@.contains(#[trigger] ids.deep_view()[k]),
        ensures
            r@ == self@.targets(ids.deep_view()),
            forall|k: int| 0 <= k < r.len() ==> (#[trigger] r[k]) < self.modules.len(),
    {
        let mut r: Vec<usize> = Vec::new();
        let mut k: usize = 0;
        while k < ids.len()
            invariant
                k <= ids.len(),
                r.len() == k,
                forall|j: int| 0 <= j < ids.len() ==> self@.contains(#[trigger] ids.deep_view()[j]),
                forall|j: int| 0 <= j < k ==> #[trigger] r@[j] == self@.targets(ids.deep_view())[j],
                forall|j: int| 0 <= j < k ==> (#[trigger] r[j]) < self.modules.len(),
            decreases ids.len() - k,
        {
            assert(self@.contains(ids.deep_view()[k as int]));
            match self.index_of(&ids[k]) {
                Some(i) => {
                    r.push(i);
                },
                None => {
                    assert(false);
                },
            }
            k += 1;
        }
        assert(r@ =~= self@.targets(ids.deep_view()));
        r
    }

    /// The static and the dynamic dependencies of each module, by position.
    fn edges(&self) -> (r: (Vec<Vec<usize>>, Vec<Vec<usize>>))
        requires
            self@.closed(),
        ensures
            r.0.deep_view() == self@.static_edges(),
            r.1.deep_view() == self@.dynamic_edges(),
            edges_wf(r.0.deep_view()),
            edges_wf(r.1.deep_view()),
            r.0.len() == self.modules.len(),
            r.1.len() == self.modules.len(),
    {
        let mut fixed: Vec<Vec<usize>> = Vec::new();
        let mut dynamic: Vec<Vec<usize>> = Vec::new();
        let mut i: usize = 0;
        while i < self.modules.len()
            invariant
                i <= self.modules.len(),
                self@.closed(),
                fixed.len() == i,
                dynamic.len() == i,
                forall|j: int| 0 <= j < i ==> #[trigger] fixed.deep_view()[j] == self@.static_edges()[j],
                forall|j: int| 0 <= j < i ==> #[trigger] dynamic.deep_view()[j] == self@.dynamic_edges()[j],
                forall|j: int, k: int|
                    0 <= j < i && 0 <= k < fixed.deep_view()[j].len() ==> (
                    #[trigger] fixed.deep_view()[j][k]) < self.modules.len(),
                forall|j: int, k: int|
                    0 <= j < i && 0 <= k < dynamic.deep_view()[j].len() ==> (
                    #[trigger] dynamic.deep_view()[j][k]) < self.modules.len(),
            decreases self.modules.len() - i,
        {
            let ghost f0 = fixed.deep_view();
            let ghost d0 = dynamic.deep_view();
            assert(self@.modules[i as int] == self.modules[i as int]@);
            match &self.modules[i] {
                NormOrExt::Normal(m) => {
                    assert(self@.module_closed(m@));
                    let a = self.targets_of(&m.dependencies);
                    let b = self.targets_of(&m.dynamic_dependencies);
                    assert(a.deep_view() =~= a@);
                    assert(b.deep_view() =~= b@);
                    fixed.push(a);
                    dynamic.push(b);
                    assert(fixed.deep_view() =~= f0.push(a@));
                    assert(dynamic.deep_view() =~= d0.push(b@));
                },
                NormOrExt::External(_) => {
                    let a: Vec<usize> = Vec::new();
                    let b: Vec<usize> = Vec::new();
                    assert(a.deep_view() =~= Seq::<usize>::empty());
                    assert(b.deep_view() =~= Seq::<usize>::empty());
                    assert(self@.targets(Seq::<ModuleIdView>::empty()) =~= Seq::<usize>::empty());
                    fixed.push(a);
                    dynamic.push(b);
                    assert(fixed.deep_view() =~= f0.push(Seq::<usize>::empty()));
                    assert(dynamic.deep_view() =~= d0.push(Seq::<usize>::empty()));
                },
            }
            i += 1;
        }
        assert(fixed.deep_view() =~= self@.static_edges());
        assert(dynamic.deep_view() =~= self@.dynamic_edges());
        (fixed, dynamic)
    }

    /// Gives every module that can be reached from the entries its execution order.
    ///
    /// The modules are swept depth first from the entries along static dependencies, and
    /// then again from the dynamic imports met on the way. A module's order is the number
    /// of modules left before it.
    pub fn sort_modules(&mut self)
        requires
            old(self)@.wf(),
            old(self)@.closed(),
        ensures
            tables_kept(old(self)@, final(self)@),
            final(self).input_options == old(self).input_options,
            final(self)@ == old(self)@.sort_modules(),
            final(self)@.inv(),
            same_shape(old(self)@, final(self)@),
    {
        proof {
            crate::graph::table_laws::lemma_sort_modules_tables(self@);
        }
        let ghost before = self@;
        let (fixed, dynamic) = self.edges();
        assert forall|k: int| 0 <= k < self.entries.len() implies self@.contains(
            #[trigger] self.entries.deep_view()[k],
        ) by {
            assert(self@.contains(self@.entries[k]));
        }
        let roots = self.targets_of(&self.entries);
        let sequence = compute_post_order(&fixed, &dynamic, &roots);
        proof {
            lemma_post_order_valid(before.static_edges(), before.dynamic_edges(), roots@);
        }
        let mut k: usize = 0;
        while k < sequence.len()
            invariant
                self.input_options == old(self).input_options,
                k <= sequence.len(),
                sequence@ == before.exec_sequence(),
                sequence@.no_duplicates(),
                forall|p: int| 0 <= p < sequence.len() ==> (#[trigger] sequence[p]) < before.modules.len(),
                self.modules.len() == before.modules.len(),
                self@.modules == assign_orders(before.modules, sequence@.take(k as int)),
                self@.entries == before.entries,
                self@.uf == before.uf,
                self@.warnings == before.warnings,
                self@.shim_missing_exports == before.shim_missing_exports,
            decreases sequence.len() - k,
        {
            let ghost now = self@.modules;
            let i = sequence[k];
            self.modules[i].set_exec_order(k);
            proof {
                let shorter = sequence@.take(k as int);
                let longer = sequence@.take(k as int + 1);
                assert forall|j: int| 0 <= j < before.modules.len() implies #[trigger] self@.modules[j]
                    == assign_orders(before.modules, longer)[j] by {
                    if j == i {
                        assert(is_first(longer, i, k as int)) by {
                            assert forall|q: int| 0 <= q < k implies #[trigger] longer[q] != i by {
                                assert(sequence@[q] != sequence@[k as int]);
                            }
                        }
                        lemma_position_first(longer, i, k as int);
                        assert forall|q: int| 0 <= q < shorter.len() implies #[trigger] shorter[q]
                            != i by {
                            assert(sequence@[q] != sequence@[k as int]);
                        }
                        lemma_position_none(shorter, i);
                        assert(now[j] == before.modules[j]);
                    } else {
                        assert(self@.modules[j] == now[j]);
                        let x = j as usize;
                        if shorter.contains(x) {
                            lemma_position_some(shorter, x);
                            let q = position(shorter, x).unwrap();
                            assert(is_first(longer, x, q)) by {
                                assert forall|r: int| 0 <= r < q implies #[trigger] longer[r] != x by {
                                    assert(shorter[r] != x);
                                }
                            }
                            lemma_position_first(longer, x, q);
                        } else {
                            assert forall|q: int| 0 <= q < longer.len() implies #[trigger] longer[q]
                                != x by {
                                if q < k {
                                    assert(shorter[q] == longer[q]);
                                }
                            }
                            lemma_position_none(longer, x);
                        }
                    }
                }
                assert(self@.modules =~= assign_orders(before.modules, longer));
            }
            k += 1;
        }
        proof {
            assert(sequence@.take(sequence.len() as int) =~= sequence@);
            lemma_sort_modules_inv(before);
        }
    }
}

} // verus!
