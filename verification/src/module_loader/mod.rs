//! The module loader: the decisions that expand the graph from its entries.
//!
//! The loader keeps the books of a load. It is told of every entry and of every module
//! that a task has scanned, puts the modules into the graph, and says for which ids a
//! task is to be started: once for every id. When no task is in flight and none has
//! failed, every module that the graph names is in the graph.

pub mod module_task;
pub mod task_result;

use vstd::prelude::*;
use crate::error::{BuildError, BuildErrorView};
use crate::graph::{Graph, GraphView};
use crate::ident::{ModuleId, ModuleIdView};
use crate::module::{ExternalModule, ExternalModuleView, ModuleView, NormOrExt, NormalModule, NormalModuleView, UNSET_EXEC_ORDER};
use crate::table::{contains_module, lemma_position_first, position};

verus! {

/// Mathematical value of a [`ModuleLoader`].
pub struct ModuleLoaderView {
    pub visited: Seq<ModuleIdView>,
    pub pending: Seq<ModuleIdView>,
    pub failed: Seq<ModuleIdView>,
    pub errors: Seq<BuildErrorView>,
}

/// The books of a load.
pub struct ModuleLoader {
    /// The ids met so far; a task is started for an id when it is met first.
    pub visited: Vec<ModuleId>,
    /// The ids whose tasks are in flight.
    pub pending: Vec<ModuleId>,
    /// The ids whose tasks failed.
    pub failed: Vec<ModuleId>,
    /// The errors of the tasks that failed, in the order of their arrival.
    pub errors: Vec<BuildError>,
}

impl View for ModuleLoader {
    type V = ModuleLoaderView;

    open spec fn view(&self) -> ModuleLoaderView {
        ModuleLoaderView {
            visited: self.visited.deep_view(),
            pending: self.pending.deep_view(),
            failed: self.failed.deep_view(),
            errors: self.errors.deep_view(),
        }
    }
}

/// The modules that `m` names: its static and dynamic dependencies, the importees of its
/// imports and explicit re-exports, and its wildcard targets.
pub open spec fn references(m: NormalModuleView) -> Seq<ModuleIdView> {
    m.dependencies + m.dynamic_dependencies + Seq::new(m.imports.len(), |i: int| m.imports[i].0)
        + Seq::new(m.re_exported_ids.len(), |i: int| m.re_exported_ids[i].0) + m.re_export_all
}

/// The external module `id` as it enters the graph.
pub open spec fn new_external(id: ModuleIdView) -> ModuleView {
    ModuleView::External(
        ExternalModuleView { id, exec_order: UNSET_EXEC_ORDER, exported_symbols: Seq::empty() },
    )
}

impl ModuleLoaderView {
    /// What holds of the books and the graph of a load at any time.
    pub open spec fn inv(self, g: GraphView) -> bool {
        &&& g.wf()
        &&& self.visited.no_duplicates()
        &&& self.pending.no_duplicates()
        &&& forall|i: int| 0 <= i < self.pending.len() ==> !(#[trigger] self.pending[i]).external
        &&& forall|i: int|
            0 <= i < self.pending.len() ==> self.visited.contains(#[trigger] self.pending[i])
        &&& forall|i: int|
            0 <= i < self.pending.len() ==> !g.contains(#[trigger] self.pending[i])
        &&& forall|i: int| 0 <= i < g.ids().len() ==> self.visited.contains(#[trigger] g.ids()[i])
        &&& forall|i: int|
            0 <= i < self.visited.len() ==> g.contains(#[trigger] self.visited[i])
                || self.pending.contains(self.visited[i]) || self.failed.contains(self.visited[i])
        &&& forall|i: int| 0 <= i < g.entries.len() ==> self.visited.contains(#[trigger] g.entries[i])
        &&& forall|i: int, k: int|
            g.is_normal(i) && 0 <= k < references(g.normal(i)).len() ==> self.visited.contains(
                #[trigger] references(g.normal(i))[k],
            )
    }

    /// Whether a task is to be started for `id`: it is met for the first time and is not
    /// external.
    pub open spec fn spawns(self, id: ModuleIdView) -> bool {
        !self.visited.contains(id) && !id.external
    }

    /// The books after `id` is met.
    pub open spec fn visit(self, id: ModuleIdView) -> ModuleLoaderView {
        if self.visited.contains(id) {
            self
        } else if id.external {
            ModuleLoaderView { visited: self.visited.push(id), ..self }
        } else {
            ModuleLoaderView { visited: self.visited.push(id), pending: self.pending.push(id), ..self }
        }
    }

    /// The books after the first `n` of `ids` are met, one after the other.
    pub open spec fn visit_all(self, ids: Seq<ModuleIdView>, n: int) -> ModuleLoaderView
        decreases n,
    {
        if 0 < n <= ids.len() {
            self.visit_all(ids, n - 1).visit(ids[n - 1])
        } else {
            self
        }
    }

    /// The ids among the first `n` of `ids` for which a task is to be started.
    pub open spec fn spawned(self, ids: Seq<ModuleIdView>, n: int) -> Seq<ModuleIdView>
        decreases n,
    {
        if 0 < n <= ids.len() {
            if self.visit_all(ids, n - 1).spawns(ids[n - 1]) {
                self.spawned(ids, n - 1).push(ids[n - 1])
            } else {
                self.spawned(ids, n - 1)
            }
        } else {
            Seq::empty()
        }
    }
}

/// The graph after `id` is met by a loader with the books `l`: an external module that is
/// met for the first time enters the graph at once.
pub open spec fn graph_after_visit(l: ModuleLoaderView, g: GraphView, id: ModuleIdView) -> GraphView {
    if !l.visited.contains(id) && id.external && !g.contains(id) {
        GraphView { modules: g.modules.push(new_external(id)), ..g }
    } else {
        g
    }
}

/// The graph after the first `n` of `ids` are met.
pub open spec fn graph_after_visits(l: ModuleLoaderView, g: GraphView, ids: Seq<ModuleIdView>, n: int) -> GraphView
    decreases n,
{
    if 0 < n <= ids.len() {
        graph_after_visit(l.visit_all(ids, n - 1), graph_after_visits(l, g, ids, n - 1), ids[n - 1])
    } else {
        g
    }
}

/// The graph `g` with one module more has the modules of `g`.
proof fn lemma_contains_after_push(g: GraphView, m: ModuleView, id: ModuleIdView)
    ensures
        (GraphView { modules: g.modules.push(m), ..g }).contains(id) == (g.contains(id) || id
            == m.id()),
{
    let h = GraphView { modules: g.modules.push(m), ..g };
    assert(h.ids() =~= g.ids().push(m.id()));
    if g.contains(id) {
        let w = choose|w: int| 0 <= w < g.ids().len() && g.ids()[w] == id;
        assert(h.ids()[w] == id);
    }
    if id == m.id() {
        assert(h.ids()[g.ids().len() as int] == id);
    }
    if h.contains(id) {
        let w = choose|w: int| 0 <= w < h.ids().len() && h.ids()[w] == id;
        if w < g.ids().len() {
            assert(g.ids()[w] == id);
        }
    }
}

/// The module at a position of `g` is the module at that position of `g` with one more.
proof fn lemma_modules_after_push(g: GraphView, m: ModuleView)
    ensures
        ({
            let h = GraphView { modules: g.modules.push(m), ..g };
            &&& forall|i: int| 0 <= i < g.modules.len() ==> #[trigger] h.modules[i] == g.modules[i]
            &&& h.modules[g.modules.len() as int] == m
            &&& h.modules.len() == g.modules.len() + 1
            &&& h.entries == g.entries
        }),
{
}

impl ModuleLoader {
    /// The books of a load that has not begun.
    pub fn new() -> (r: Self)
        ensures
            r@ == (ModuleLoaderView {
                visited: Seq::empty(),
                pending: Seq::empty(),
                failed: Seq::empty(),
                errors: Seq::empty(),
            }),
            forall|g: GraphView|
                g.wf() && g.modules.len() == 0 && g.entries.len() == 0 ==> #[trigger] r@.inv(g),
    {
        let r = ModuleLoader {
            visited: Vec::new(),
            pending: Vec::new(),
            failed: Vec::new(),
            errors: Vec::new(),
        };
        assert(r.visited.deep_view() =~= Seq::empty());
        assert(r.pending.deep_view() =~= Seq::empty());
        assert(r.failed.deep_view() =~= Seq::empty());
        assert(r.errors.deep_view() =~= Seq::empty());
        r
    }

    /// The number of tasks in flight.
    pub fn in_flight(&self) -> (r: usize)
        ensures
            r == self@.pending.len(),
    {
        self.pending.len()
    }

    /// Whether no task is in flight, so that the load is over.
    pub fn is_done(&self) -> (r: bool)
        ensures
            r == (self@.pending.len() == 0),
    {
        self.pending.len() == 0
    }

    /// Meets the id `id`, and says whether a task is to be started for it: that is so when
    /// the id is met for the first time and is not external. An external module that is
    /// met for the first time enters the graph at once.
    pub fn visit(&mut self, graph: &mut Graph, id: &ModuleId) -> (spawn: bool)
        requires
            old(self)@.inv(old(graph)@),
        ensures
            old(graph)@.tables_wf() ==> final(graph)@.tables_wf(),
            final(graph).input_options == old(graph).input_options,
            spawn == old(self)@.spawns(id@),
            final(self)@ == old(self)@.visit(id@),
            final(graph)@ == graph_after_visit(old(self)@, old(graph)@, id@),
            final(self)@.inv(final(graph)@),
    {
        let ghost l = self@;
        let ghost g = graph@;
        if contains_module(&self.visited, id) {
            return false;
        }
        proof {
            if g.contains(id@) {
                let w = choose|w: int| 0 <= w < g.ids().len() && g.ids()[w] == id@;
                assert(l.visited.contains(g.ids()[w]));
            }
            if l.pending.contains(id@) {
                let w = choose|w: int| 0 <= w < l.pending.len() && l.pending[w] == id@;
                assert(l.visited.contains(l.pending[w]));
            }
        }
        self.visited.push(id.clone());
        assert(self.visited.deep_view() =~= l.visited.push(id@));
        proof {
            assert forall|x: ModuleIdView| l.visited.contains(x) implies self@.visited.contains(x) by {
                let w = choose|w: int| 0 <= w < l.visited.len() && l.visited[w] == x;
                assert(self@.visited[w] == x);
            }
            assert(self@.visited[l.visited.len() as int] == id@);
        }
        if id.is_external() {
            let module = NormOrExt::External(ExternalModule::new(id.clone()));
            graph.add_module(module);
            proof {
                let h = graph@;
                lemma_modules_after_push(g, new_external(id@));
                assert(h.ids() =~= g.ids().push(id@));
                assert forall|x: ModuleIdView| h.contains(x) == (g.contains(x) || x == id@) by {
                    lemma_contains_after_push(g, new_external(id@), x);
                }
                assert forall|i: int| 0 <= i < self@.visited.len() implies h.contains(
                    #[trigger] self@.visited[i],
                ) || self@.pending.contains(self@.visited[i]) || self@.failed.contains(
                    self@.visited[i],
                ) by {
                    if i < l.visited.len() {
                        assert(self@.visited[i] == l.visited[i]);
                    }
                }
                assert forall|i: int, k: int|
                    h.is_normal(i) && 0 <= k < references(h.normal(i)).len() implies self@.visited.contains(
                    #[trigger] references(h.normal(i))[k],
                ) by {
                    assert(g.is_normal(i));
                    assert(l.visited.contains(references(g.normal(i))[k]));
                }
                assert forall|i: int| 0 <= i < h.ids().len() implies self@.visited.contains(
                    #[trigger] h.ids()[i],
                ) by {
                    if i < g.ids().len() {
                        assert(l.visited.contains(g.ids()[i]));
                    }
                }
                assert forall|i: int| 0 <= i < h.entries.len() implies self@.visited.contains(
                    #[trigger] h.entries[i],
                ) by {
                    assert(l.visited.contains(g.entries[i]));
                }
            }
            false
        } else {
            self.pending.push(id.clone());
            assert(self.pending.deep_view() =~= l.pending.push(id@));
            proof {
                assert forall|x: ModuleIdView| l.pending.contains(x) implies self@.pending.contains(x) by {
                    let w = choose|w: int| 0 <= w < l.pending.len() && l.pending[w] == x;
                    assert(self@.pending[w] == x);
                }
                assert(self@.pending[l.pending.len() as int] == id@);
                assert forall|i: int| 0 <= i < self@.visited.len() implies g.contains(
                    #[trigger] self@.visited[i],
                ) || self@.pending.contains(self@.visited[i]) || self@.failed.contains(
                    self@.visited[i],
                ) by {
                    if i < l.visited.len() {
                        assert(self@.visited[i] == l.visited[i]);
                    }
                }
                assert forall|i: int| 0 <= i < self@.pending.len() implies self@.visited.contains(
                    #[trigger] self@.pending[i],
                ) by {
                    if i < l.pending.len() {
                        assert(l.visited.contains(l.pending[i]));
                    }
                }
                assert forall|i: int, k: int|
                    g.is_normal(i) && 0 <= k < references(g.normal(i)).len() implies self@.visited.contains(
                    #[trigger] references(g.normal(i))[k],
                ) by {
                    assert(l.visited.contains(references(g.normal(i))[k]));
                }
                assert forall|i: int| 0 <= i < g.ids().len() implies self@.visited.contains(
                    #[trigger] g.ids()[i],
                ) by {
                    assert(l.visited.contains(g.ids()[i]));
                }
                assert forall|i: int| 0 <= i < g.entries.len() implies self@.visited.contains(
                    #[trigger] g.entries[i],
                ) by {
                    assert(l.visited.contains(g.entries[i]));
                }
            }
            true
        }
    }
}

/// The modules that `m` names.
pub fn references_of(m: &NormalModule) -> (r: Vec<ModuleId>)
    ensures
        r.deep_view() == references(m@),
{
    let mut r: Vec<ModuleId> = Vec::new();
    let mut k: usize = 0;
    assert(r.deep_view() =~= Seq::empty());
    while k < m.dependencies.len()
        invariant
            k <= m.dependencies.len(),
            r.deep_view() == m@.dependencies.take(k as int),
        decreases m.dependencies.len() - k,
    {
        let ghost before = r.deep_view();
        r.push(m.dependencies[k].clone());
        assert(r.deep_view() =~= before.push(m.dependencies[k as int]@));
        assert(r.deep_view() =~= m@.dependencies.take(k as int + 1));
        k += 1;
    }
    assert(m@.dependencies.take(k as int) =~= m@.dependencies);
    let ghost a = r.deep_view();
    k = 0;
    while k < m.dynamic_dependencies.len()
        invariant
            k <= m.dynamic_dependencies.len(),
            r.deep_view() == a + m@.dynamic_dependencies.take(k as int),
        decreases m.dynamic_dependencies.len() - k,
    {
        let ghost before = r.deep_view();
        r.push(m.dynamic_dependencies[k].clone());
        assert(r.deep_view() =~= before.push(m.dynamic_dependencies[k as int]@));
        assert(r.deep_view() =~= a + m@.dynamic_dependencies.take(k as int + 1));
        k += 1;
    }
    assert(m@.dynamic_dependencies.take(k as int) =~= m@.dynamic_dependencies);
    let ghost b = r.deep_view();
    let ghost importees = Seq::new(m@.imports.len(), |i: int| m@.imports[i].0);
    k = 0;
    while k < m.imports.len()
        invariant
            k <= m.imports.len(),
            importees == Seq::new(m@.imports.len(), |i: int| m@.imports[i].0),
            r.deep_view() == b + importees.take(k as int),
        decreases m.imports.len() - k,
    {
        let ghost before = r.deep_view();
        r.push(m.imports[k].0.clone());
        assert(m@.imports[k as int].0 == m.imports[k as int].0@);
        assert(r.deep_view() =~= before.push(m.imports[k as int].0@));
        assert(r.deep_view() =~= b + importees.take(k as int + 1));
        k += 1;
    }
    assert(importees.take(k as int) =~= importees);
    let ghost c = r.deep_view();
    let ghost sources = Seq::new(m@.re_exported_ids.len(), |i: int| m@.re_exported_ids[i].0);
    k = 0;
    while k < m.re_exported_ids.len()
        invariant
            k <= m.re_exported_ids.len(),
            sources == Seq::new(m@.re_exported_ids.len(), |i: int| m@.re_exported_ids[i].0),
            r.deep_view() == c + sources.take(k as int),
        decreases m.re_exported_ids.len() - k,
    {
        let ghost before = r.deep_view();
        r.push(m.re_exported_ids[k].0.clone());
        assert(m@.re_exported_ids[k as int].0 == m.re_exported_ids[k as int].0@);
        assert(r.deep_view() =~= before.push(m.re_exported_ids[k as int].0@));
        assert(r.deep_view() =~= c + sources.take(k as int + 1));
        k += 1;
    }
    assert(sources.take(k as int) =~= sources);
    let ghost d = r.deep_view();
    k = 0;
    while k < m.re_export_all.len()
        invariant
            k <= m.re_export_all.len(),
            r.deep_view() == d + m@.re_export_all.take(k as int),
        decreases m.re_export_all.len() - k,
    {
        let ghost before = r.deep_view();
        r.push(m.re_export_all[k].clone());
        assert(r.deep_view() =~= before.push(m.re_export_all[k as int]@));
        assert(r.deep_view() =~= d + m@.re_export_all.take(k as int + 1));
        k += 1;
    }
    assert(m@.re_export_all.take(k as int) =~= m@.re_export_all);
    r
}

/// A graph that holds every module that `m` names by way of its references holds every
/// module that `m` names.
pub proof fn lemma_references_closed(g: GraphView, m: NormalModuleView)
    requires
        forall|k: int| 0 <= k < references(m).len() ==> g.contains(#[trigger] references(m)[k]),
    ensures
        g.module_closed(m),
{
    let r = references(m);
    let a = m.dependencies.len() as int;
    let b = a + m.dynamic_dependencies.len();
    let c = b + m.imports.len();
    let d = c + m.re_exported_ids.len();
    assert forall|k: int| 0 <= k < m.dependencies.len() implies g.contains(
        #[trigger] m.dependencies[k],
    ) by {
        assert(r[k] == m.dependencies[k]);
    }
    assert forall|k: int| 0 <= k < m.dynamic_dependencies.len() implies g.contains(
        #[trigger] m.dynamic_dependencies[k],
    ) by {
        assert(r[a + k] == m.dynamic_dependencies[k]);
    }
    assert forall|k: int| 0 <= k < m.imports.len() implies g.contains((#[trigger] m.imports[k]).0) by {
        assert(r[b + k] == m.imports[k].0);
    }
    assert forall|k: int| 0 <= k < m.re_exported_ids.len() implies g.contains(
        (#[trigger] m.re_exported_ids[k]).0,
    ) by {
        assert(r[c + k] == m.re_exported_ids[k].0);
    }
    assert forall|k: int| 0 <= k < m.re_export_all.len() implies g.contains(
        #[trigger] m.re_export_all[k],
    ) by {
        assert(r[d + k] == m.re_export_all[k]);
    }
}

impl ModuleLoaderView {
    /// The books after the task for `id` has handed in its module, which names `refs`.
    pub open spec fn on_scanned(self, id: ModuleIdView, refs: Seq<ModuleIdView>) -> ModuleLoaderView {
        match position(self.pending, id) {
            Some(p) => {
                let met = self.visit_all(refs, refs.len() as int);
                ModuleLoaderView { pending: met.pending.remove(p), ..met }
            },
            None => self,
        }
    }

    /// The books after the task for `id` has failed with `errors`.
    pub open spec fn on_error(self, id: ModuleIdView, errors: Seq<BuildErrorView>) -> ModuleLoaderView {
        let moved = match position(self.pending, id) {
            Some(p) => ModuleLoaderView {
                pending: self.pending.remove(p),
                failed: self.failed.push(id),
                ..self
            },
            None => self,
        };
        ModuleLoaderView { errors: moved.errors + errors, ..moved }
    }
}

/// The graph after the task for the module `m` has handed it in to a loader with the
/// books `l`: the external modules that `m` names and that are new have entered, and
/// then `m`.
pub open spec fn graph_after_scanned(l: ModuleLoaderView, g: GraphView, m: NormalModuleView) -> GraphView {
    if l.pending.contains(m.id) {
        let met = graph_after_visits(l, g, references(m), references(m).len() as int);
        GraphView { modules: met.modules.push(ModuleView::Normal(m)), ..met }
    } else {
        g
    }
}

/// Position of `id` in `v`.
fn position_of(v: &Vec<ModuleId>, id: &ModuleId) -> (r: Option<usize>)
    ensures
        match r {
            Some(p) => position(v.deep_view(), id@) == Some(p as int) && p < v.len()
                && v.deep_view()[p as int] == id@,
            None => position(v.deep_view(), id@) == None::<int> && !v.deep_view().contains(id@),
        },
{
    let mut i: usize = 0;
    while i < v.len()
        invariant
            i <= v.len(),
            forall|j: int| 0 <= j < i ==> #[trigger] v.deep_view()[j] != id@,
        decreases v.len() - i,
    {
        if v[i] == *id {
            proof {
                assert(v.deep_view()[i as int] == id@);
                lemma_position_first(v.deep_view(), id@, i as int);
            }
            return Some(i);
        }
        assert(v.deep_view()[i as int] != id@);
        i += 1;
    }
    None
}

impl ModuleLoader {
    /// Takes note of the entry `id`, and says whether a task is to be started for it.
    pub fn add_entry(&mut self, graph: &mut Graph, id: ModuleId) -> (spawn: bool)
        requires
            old(self)@.inv(old(graph)@),
        ensures
            old(graph)@.tables_wf() ==> final(graph)@.tables_wf(),
            final(graph).input_options == old(graph).input_options,
            spawn == old(self)@.spawns(id@),
            final(self)@ == old(self)@.visit(id@),
            final(graph)@ == (GraphView {
                entries: old(graph)@.entries.push(id@),
                ..graph_after_visit(old(self)@, old(graph)@, id@)
            }),
            final(self)@.inv(final(graph)@),
    {
        let spawn = self.visit(graph, &id);
        let ghost l = self@;
        let ghost g = graph@;
        proof {
            // the id is visited now
            if old(self)@.visited.contains(id@) {
            } else {
                assert(l.visited[old(self)@.visited.len() as int] == id@);
            }
            assert(l.visited.contains(id@));
        }
        graph.add_entry(id);
        proof {
            let h = graph@;
            assert(h.ids() =~= g.ids());
            assert forall|i: int| 0 <= i < h.entries.len() implies l.visited.contains(
                #[trigger] h.entries[i],
            ) by {
                if i < g.entries.len() {
                    assert(l.visited.contains(g.entries[i]));
                }
            }
            assert forall|i: int, k: int|
                h.is_normal(i) && 0 <= k < references(h.normal(i)).len() implies l.visited.contains(
                #[trigger] references(h.normal(i))[k],
            ) by {
                assert(g.is_normal(i));
                assert(l.visited.contains(references(g.normal(i))[k]));
            }
            assert forall|i: int| 0 <= i < l.pending.len() implies !h.contains(
                #[trigger] l.pending[i],
            ) by {
                assert(!g.contains(l.pending[i]));
            }
            assert forall|i: int| 0 <= i < l.visited.len() implies h.contains(
                #[trigger] l.visited[i],
            ) || l.pending.contains(l.visited[i]) || l.failed.contains(l.visited[i]) by {
                assert(g.contains(l.visited[i]) || l.pending.contains(l.visited[i])
                    || l.failed.contains(l.visited[i]));
            }
            assert forall|i: int| 0 <= i < h.ids().len() implies l.visited.contains(
                #[trigger] h.ids()[i],
            ) by {
                assert(l.visited.contains(g.ids()[i]));
            }
        }
        spawn
    }

    /// Takes in the module that a task has scanned: the module enters the graph, and every
    /// module that it names is met. Returns the ids for which tasks are to be started. A
    /// module for whose id no task is in flight is passed over.
    pub fn on_scanned(&mut self, graph: &mut Graph, module: NormalModule) -> (spawn: Vec<ModuleId>)
        requires
            old(self)@.inv(old(graph)@),
        ensures
            old(graph)@.tables_wf() && module@.tables_wf() ==> final(graph)@.tables_wf(),
            final(graph).input_options == old(graph).input_options,
            final(self)@ == old(self)@.on_scanned(module@.id, references(module@)),
            final(graph)@ == graph_after_scanned(old(self)@, old(graph)@, module@),
            spawn.deep_view() == if old(self)@.pending.contains(module@.id) {
                old(self)@.spawned(references(module@), references(module@).len() as int)
            } else {
                Seq::empty()
            },
            final(self)@.inv(final(graph)@),
    {
        let ghost l0 = self@;
        let ghost g0 = graph@;
        let mut spawn: Vec<ModuleId> = Vec::new();
        assert(spawn.deep_view() =~= Seq::empty());
        let p = match position_of(&self.pending, &module.id) {
            Some(p) => p,
            None => {
                return spawn;
            },
        };
        let refs = references_of(&module);
        let ghost ids = refs.deep_view();
        let mut k: usize = 0;
        while k < refs.len()
            invariant
                old(graph)@.tables_wf() ==> graph@.tables_wf(),
                graph.input_options == old(graph).input_options,
                k <= refs.len(),
                ids == refs.deep_view(),
                l0.inv(g0),
                self@.inv(graph@),
                self@ == l0.visit_all(ids, k as int),
                graph@ == graph_after_visits(l0, g0, ids, k as int),
                spawn.deep_view() == l0.spawned(ids, k as int),
                p < self@.pending.len(),
                self@.pending[p as int] == module@.id,
                forall|j: int| 0 <= j < k ==> self@.visited.contains(#[trigger] ids[j]),
            decreases refs.len() - k,
        {
            let ghost before = self@;
            let ghost sb = spawn.deep_view();
            if self.visit(graph, &refs[k]) {
                spawn.push(refs[k].clone());
                assert(spawn.deep_view() =~= sb.push(ids[k as int]));
            }
            proof {
                assert(self@.pending[p as int] == before.pending[p as int]);
                assert forall|x: ModuleIdView| before.visited.contains(x) implies self@.visited.contains(
                    x,
                ) by {
                    let w = choose|w: int| 0 <= w < before.visited.len() && before.visited[w] == x;
                    assert(self@.visited[w] == x);
                }
                if !before.visited.contains(ids[k as int]) {
                    assert(self@.visited[before.visited.len() as int] == ids[k as int]);
                }
            }
            k += 1;
        }
        let ghost l1 = self@;
        let ghost g1 = graph@;
        proof {
            assert(l0.pending.contains(module@.id)) by {
                assert(l0.pending[p as int] == module@.id);
            }
            assert(!g1.contains(module@.id)) by {
                assert(!g1.contains(l1.pending[p as int]));
            }
            assert(!l1.pending[p as int].external);
        }
        self.pending.remove(p);
        assert(self.pending.deep_view() =~= l1.pending.remove(p as int));
        let ghost m = module@;
        graph.add_module(NormOrExt::Normal(module));
        proof {
            let l = self@;
            let h = graph@;
            lemma_modules_after_push(g1, ModuleView::Normal(m));
            assert(h.ids() =~= g1.ids().push(m.id));
            assert forall|x: ModuleIdView| h.contains(x) == (g1.contains(x) || x == m.id) by {
                lemma_contains_after_push(g1, ModuleView::Normal(m), x);
            }
            assert forall|x: ModuleIdView| l.pending.contains(x) == (l1.pending.contains(x) && x
                != m.id) by {
                if l.pending.contains(x) {
                    let w = choose|w: int| 0 <= w < l.pending.len() && l.pending[w] == x;
                    if w < p {
                        assert(l1.pending[w] == x);
                    } else {
                        assert(l1.pending[w + 1] == x);
                    }
                }
                if l1.pending.contains(x) && x != m.id {
                    let w = choose|w: int| 0 <= w < l1.pending.len() && l1.pending[w] == x;
                    if w < p {
                        assert(l.pending[w] == x);
                    } else {
                        assert(l.pending[w - 1] == x);
                    }
                }
            }
            assert(l.pending.no_duplicates()) by {
                assert forall|i: int, j: int|
                    0 <= i < l.pending.len() && 0 <= j < l.pending.len() && i != j implies l.pending[i]
                    != l.pending[j] by {
                    let a = if i < p {
                        i
                    } else {
                        i + 1
                    };
                    let b = if j < p {
                        j
                    } else {
                        j + 1
                    };
                    assert(l1.pending[a] != l1.pending[b]);
                }
            }
            assert forall|i: int| 0 <= i < l.pending.len() implies !(
            #[trigger] l.pending[i]).external && l.visited.contains(l.pending[i]) && !h.contains(
                l.pending[i],
            ) by {
                assert(l.pending.contains(l.pending[i]));
                let w = choose|w: int| 0 <= w < l1.pending.len() && l1.pending[w] == l.pending[i];
                assert(!l1.pending[w].external);
                assert(l1.visited.contains(l1.pending[w]));
                assert(!g1.contains(l1.pending[w]));
            }
            assert forall|i: int| 0 <= i < h.ids().len() implies l.visited.contains(
                #[trigger] h.ids()[i],
            ) by {
                if i < g1.ids().len() {
                    assert(l1.visited.contains(g1.ids()[i]));
                } else {
                    assert(l1.visited.contains(l1.pending[p as int]));
                }
            }
            assert forall|i: int| 0 <= i < l.visited.len() implies h.contains(
                #[trigger] l.visited[i],
            ) || l.pending.contains(l.visited[i]) || l.failed.contains(l.visited[i]) by {
                assert(g1.contains(l1.visited[i]) || l1.pending.contains(l1.visited[i])
                    || l1.failed.contains(l1.visited[i]));
            }
            assert forall|i: int| 0 <= i < h.entries.len() implies l.visited.contains(
                #[trigger] h.entries[i],
            ) by {
                assert(l1.visited.contains(g1.entries[i]));
            }
            assert forall|i: int, k: int|
                h.is_normal(i) && 0 <= k < references(h.normal(i)).len() implies l.visited.contains(
                #[trigger] references(h.normal(i))[k],
            ) by {
                if i < g1.modules.len() {
                    assert(g1.is_normal(i));
                    assert(l1.visited.contains(references(g1.normal(i))[k]));
                } else {
                    assert(h.normal(i) == m);
                    assert(l1.visited.contains(ids[k]));
                }
            }
            assert(position(l0.pending, m.id) == Some(p as int));
        }
        spawn
    }

    /// Takes note that an entry could not be resolved: the load goes on and fails in the
    /// end with `error` among its errors.
    pub fn on_entry_error(&mut self, graph: &Graph, error: BuildError)
        requires
            old(self)@.inv(graph@),
        ensures
            final(self)@ == (ModuleLoaderView { errors: old(self)@.errors.push(error@), ..old(self)@ }),
            final(self)@.inv(graph@),
    {
        self.errors.push(error);
        assert(self.errors.deep_view() =~= old(self)@.errors.push(error@));
    }

    /// Takes note that the task for `id` has failed with `errors`.
    pub fn on_error(&mut self, graph: &Graph, id: &ModuleId, errors: Vec<BuildError>)
        requires
            old(self)@.inv(graph@),
        ensures
            final(self)@ == old(self)@.on_error(id@, errors.deep_view()),
            final(self)@.inv(graph@),
    {
        let ghost l0 = self@;
        let ghost g = graph@;
        match position_of(&self.pending, id) {
            Some(p) => {
                self.pending.remove(p);
                assert(self.pending.deep_view() =~= l0.pending.remove(p as int));
                self.failed.push(id.clone());
                assert(self.failed.deep_view() =~= l0.failed.push(id@));
                proof {
                    let l = self@;
                    assert forall|x: ModuleIdView| l.pending.contains(x) == (l0.pending.contains(x)
                        && x != id@) by {
                        if l.pending.contains(x) {
                            let w = choose|w: int| 0 <= w < l.pending.len() && l.pending[w] == x;
                            if w < p {
                                assert(l0.pending[w] == x);
                            } else {
                                assert(l0.pending[w + 1] == x);
                            }
                        }
                        if l0.pending.contains(x) && x != id@ {
                            let w = choose|w: int| 0 <= w < l0.pending.len() && l0.pending[w] == x;
                            if w < p {
                                assert(l.pending[w] == x);
                            } else {
                                assert(l.pending[w - 1] == x);
                            }
                        }
                    }
                    assert(l.pending.no_duplicates()) by {
                        assert forall|i: int, j: int|
                            0 <= i < l.pending.len() && 0 <= j < l.pending.len() && i != j implies l.pending[i]
                            != l.pending[j] by {
                            let a = if i < p {
                                i
                            } else {
                                i + 1
                            };
                            let b = if j < p {
                                j
                            } else {
                                j + 1
                            };
                            assert(l0.pending[a] != l0.pending[b]);
                        }
                    }
                    assert forall|i: int| 0 <= i < l.pending.len() implies !(
                    #[trigger] l.pending[i]).external && l.visited.contains(l.pending[i])
                        && !g.contains(l.pending[i]) by {
                        assert(l.pending.contains(l.pending[i]));
                        let w = choose|w: int|
                            0 <= w < l0.pending.len() && l0.pending[w] == l.pending[i];
                        assert(!l0.pending[w].external);
                        assert(l0.visited.contains(l0.pending[w]));
                        assert(!g.contains(l0.pending[w]));
                    }
                    assert(l.failed[l0.failed.len() as int] == id@);
                    assert forall|i: int| 0 <= i < l.visited.len() implies g.contains(
                        #[trigger] l.visited[i],
                    ) || l.pending.contains(l.visited[i]) || l.failed.contains(l.visited[i]) by {
                        let x = l0.visited[i];
                        assert(g.contains(x) || l0.pending.contains(x) || l0.failed.contains(x));
                        if l0.failed.contains(x) {
                            let w = choose|w: int| 0 <= w < l0.failed.len() && l0.failed[w] == x;
                            assert(l.failed[w] == x);
                        }
                    }
                }
            },
            None => {},
        }
        let ghost l1 = self@;
        let mut errors = errors;
        let ghost given = errors.deep_view();
        self.errors.append(&mut errors);
        assert(self.errors.deep_view() =~= l1.errors + given);
    }

    /// Ends a load in which no task is in flight. The load succeeds if no task has failed;
    /// then the graph holds every module that it names. Otherwise the errors of all tasks
    /// that failed are returned.
    pub fn fetch_all_modules(self, graph: &Graph) -> (r: Result<(), Vec<BuildError>>)
        requires
            self@.inv(graph@),
            self@.pending.len() == 0,
        ensures
            match r {
                Ok(_) => self@.failed.len() == 0 && self@.errors.len() == 0 && graph@.inv(),
                Err(errors) => (self@.failed.len() > 0 || self@.errors.len() > 0)
                    && errors.deep_view() == self@.errors,
            },
    {
        if self.failed.len() == 0 && self.errors.len() == 0 {
            proof {
                let l = self@;
                let g = graph@;
                assert forall|x: ModuleIdView| l.visited.contains(x) implies g.contains(x) by {
                    let w = choose|w: int| 0 <= w < l.visited.len() && l.visited[w] == x;
                    assert(g.contains(l.visited[w]) || l.pending.contains(l.visited[w])
                        || l.failed.contains(l.visited[w]));
                }
                assert forall|k: int| 0 <= k < g.entries.len() implies g.contains(
                    #[trigger] g.entries[k],
                ) by {
                    assert(l.visited.contains(g.entries[k]));
                }
                assert forall|i: int| 0 <= i < g.modules.len() implies match #[trigger] g.modules[i] {
                    ModuleView::Normal(m) => g.module_closed(m),
                    ModuleView::External(_) => true,
                } by {
                    match g.modules[i] {
                        ModuleView::Normal(m) => {
                            assert(g.is_normal(i));
                            assert forall|k: int| 0 <= k < references(m).len() implies g.contains(
                                #[trigger] references(m)[k],
                            ) by {
                                assert(l.visited.contains(references(g.normal(i))[k]));
                            }
                            lemma_references_closed(g, m);
                        },
                        ModuleView::External(_) => {},
                    }
                }
            }
            Ok(())
        } else {
            Err(self.errors)
        }
    }
}

/// A graph that holds every module that `m` names holds every reference of `m`.
pub proof fn lemma_closed_references(g: GraphView, m: NormalModuleView, k: int)
    requires
        g.module_closed(m),
        0 <= k < references(m).len(),
    ensures
        g.contains(references(m)[k]),
{
    let a = m.dependencies.len() as int;
    let b = a + m.dynamic_dependencies.len();
    let c = b + m.imports.len();
    let d = c + m.re_exported_ids.len();
    if k < a {
        assert(references(m)[k] == m.dependencies[k]);
    } else if k < b {
        assert(references(m)[k] == m.dynamic_dependencies[k - a]);
    } else if k < c {
        assert(references(m)[k] == m.imports[k - b].0);
    } else if k < d {
        assert(references(m)[k] == m.re_exported_ids[k - c].0);
    } else {
        assert(references(m)[k] == m.re_export_all[k - d]);
    }
}

impl Graph {
    /// Whether every entry and every module that a module of the graph names is in the
    /// graph. Ordering and linking ask this of a graph.
    pub fn is_closed(&self) -> (r: bool)
        ensures
            r == self@.closed(),
    {
        let mut k: usize = 0;
        while k < self.entries.len()
            invariant
                k <= self.entries.len(),
                forall|j: int| 0 <= j < k ==> self@.contains(#[trigger] self@.entries[j]),
            decreases self.entries.len() - k,
        {
            if !self.contains(&self.entries[k]) {
                assert(!self@.contains(self@.entries[k as int]));
                return false;
            }
            k += 1;
        }
        let mut i: usize = 0;
        while i < self.modules.len()
            invariant
                i <= self.modules.len(),
                forall|j: int| 0 <= j < self.entries.len() ==> self@.contains(#[trigger] self@.entries[j]),
                forall|j: int|
                    0 <= j < i ==> match #[trigger] self@.modules[j] {
                        ModuleView::Normal(m) => self@.module_closed(m),
                        ModuleView::External(_) => true,
                    },
            decreases self.modules.len() - i,
        {
            assert(self@.modules[i as int] == self.modules[i as int]@);
            match &self.modules[i] {
                NormOrExt::Normal(m) => {
                    let refs = references_of(m);
                    let mut k: usize = 0;
                    while k < refs.len()
                        invariant
                            k <= refs.len(),
                            refs.deep_view() == references(m@),
                            i < self.modules.len(),
                            self@.modules[i as int] == ModuleView::Normal(m@),
                            forall|j: int|
                                0 <= j < k ==> self@.contains(#[trigger] references(m@)[j]),
                        decreases refs.len() - k,
                    {
                        if !self.contains(&refs[k]) {
                            proof {
                                if self@.module_closed(m@) {
                                    lemma_closed_references(self@, m@, k as int);
                                }
                            }
                            return false;
                        }
                        k += 1;
                    }
                    proof {
                        lemma_references_closed(self@, m@);
                    }
                },
                NormOrExt::External(_) => {},
            }
            i += 1;
        }
        true
    }
}

} // verus!
