//! Linking as a whole: the modules in execution order, the two passes, and the patch that
//! describes the namespace objects.

use vstd::prelude::*;
use crate::error::{BuildError, BuildErrorView};
use crate::graph::{
    failed, same_shape, tables_kept, warnings_kept, Graph, GraphView, LinkFailure,
};
use crate::ident::{ModuleId, ModuleIdView};
use crate::module::{ModuleView, NormalModuleView};
use crate::table::{contains_module, extend_modules, lemma_insert_all_members};

verus! {

/// The list `sorted` with `x` put behind the last module whose order is not above that of `x`.
pub open spec fn insert_by_order(sorted: Seq<(usize, ModuleIdView)>, x: (usize, ModuleIdView)) -> Seq<
    (usize, ModuleIdView),
>
    decreases sorted.len(),
{
    if sorted.len() == 0 || sorted.last().0 <= x.0 {
        sorted.push(x)
    } else {
        insert_by_order(sorted.drop_last(), x).push(sorted.last())
    }
}

/// The first `n` of `modules`, each with its execution order, sorted by that order;
/// modules of one order stay as they were added.
pub open spec fn sorted_by_order(modules: Seq<ModuleView>, n: int) -> Seq<(usize, ModuleIdView)>
    decreases n,
{
    if 0 < n <= modules.len() {
        insert_by_order(
            sorted_by_order(modules, n - 1),
            (modules[n - 1].exec_order(), modules[n - 1].id()),
        )
    } else {
        Seq::empty()
    }
}

pub proof fn lemma_insert_by_order_at(sorted: Seq<(usize, ModuleIdView)>, x: (usize, ModuleIdView), p: int)
    requires
        0 <= p <= sorted.len(),
        p > 0 ==> sorted[p - 1].0 <= x.0,
        forall|q: int| p <= q < sorted.len() ==> (#[trigger] sorted[q]).0 > x.0,
    ensures
        insert_by_order(sorted, x) == sorted.take(p).push(x) + sorted.skip(p),
    decreases sorted.len() - p,
{
    if p == sorted.len() {
        assert(sorted.take(p) =~= sorted);
        assert(sorted.skip(p) =~= Seq::empty());
        assert(sorted.push(x) + Seq::empty() =~= sorted.push(x));
        if sorted.len() > 0 {
            assert(sorted.last() == sorted[p - 1]);
        }
    } else {
        let shorter = sorted.drop_last();
        assert(sorted[sorted.len() - 1].0 > x.0);
        assert forall|q: int| p <= q < shorter.len() implies (#[trigger] shorter[q]).0 > x.0 by {
            assert(shorter[q] == sorted[q]);
        }
        if p > 0 {
            assert(shorter[p - 1] == sorted[p - 1]);
        }
        lemma_insert_by_order_at(shorter, x, p);
        assert(shorter.take(p) =~= sorted.take(p));
        assert((shorter.take(p).push(x) + shorter.skip(p)).push(sorted.last()) =~= sorted.take(
            p,
        ).push(x) + sorted.skip(p));
    }
}

/// Every id of the sorted list is the id of one of the modules.
pub proof fn lemma_sorted_by_order_ids(modules: Seq<ModuleView>, n: int, k: int)
    requires
        0 <= n <= modules.len(),
        0 <= k < sorted_by_order(modules, n).len(),
    ensures
        exists|i: int| 0 <= i < n && #[trigger] modules[i].id() == sorted_by_order(modules, n)[k].1,
    decreases n,
{
    if n > 0 {
        let before = sorted_by_order(modules, n - 1);
        let x = (modules[n - 1].exec_order(), modules[n - 1].id());
        lemma_insert_by_order_members(before, x, k);
        let e = sorted_by_order(modules, n)[k];
        if e == x {
            assert(modules[n - 1].id() == e.1);
        } else {
            let w = choose|w: int| 0 <= w < before.len() && before[w] == e;
            lemma_sorted_by_order_ids(modules, n - 1, w);
            let i = choose|i: int| 0 <= i < n - 1 && #[trigger] modules[i].id() == before[w].1;
            assert(modules[i].id() == e.1);
        }
    }
}

proof fn lemma_insert_by_order_members(sorted: Seq<(usize, ModuleIdView)>, x: (usize, ModuleIdView), k: int)
    requires
        0 <= k < insert_by_order(sorted, x).len(),
    ensures
        insert_by_order(sorted, x).len() == sorted.len() + 1,
        insert_by_order(sorted, x)[k] == x || exists|w: int|
            0 <= w < sorted.len() && sorted[w] == insert_by_order(sorted, x)[k],
    decreases sorted.len(),
{
    lemma_insert_by_order_len(sorted, x);
    if sorted.len() == 0 || sorted.last().0 <= x.0 {
        if k < sorted.len() {
            assert(sorted[k] == insert_by_order(sorted, x)[k]);
        }
    } else {
        let shorter = sorted.drop_last();
        lemma_insert_by_order_len(shorter, x);
        if k < shorter.len() + 1 {
            lemma_insert_by_order_members(shorter, x, k);
            let e = insert_by_order(shorter, x)[k];
            if e != x {
                let w = choose|w: int| 0 <= w < shorter.len() && shorter[w] == e;
                assert(sorted[w] == e);
            }
        } else {
            assert(sorted[sorted.len() - 1] == insert_by_order(sorted, x)[k]);
        }
    }
}

proof fn lemma_insert_by_order_len(sorted: Seq<(usize, ModuleIdView)>, x: (usize, ModuleIdView))
    ensures
        insert_by_order(sorted, x).len() == sorted.len() + 1,
    decreases sorted.len(),
{
    if !(sorted.len() == 0 || sorted.last().0 <= x.0) {
        lemma_insert_by_order_len(sorted.drop_last(), x);
    }
}

/// Inserting by order puts the new member at some position and moves no other.
pub proof fn lemma_insert_by_order_shape(sorted: Seq<(usize, ModuleIdView)>, x: (usize, ModuleIdView))
    ensures
        exists|p: int|
            0 <= p <= sorted.len() && insert_by_order(sorted, x) == #[trigger] sorted.take(p).push(x)
                + sorted.skip(p),
    decreases sorted.len(),
{
    if sorted.len() == 0 || sorted.last().0 <= x.0 {
        let p = sorted.len() as int;
        assert(sorted.take(p) =~= sorted);
        assert(sorted.take(p).push(x) + sorted.skip(p) =~= sorted.push(x));
    } else {
        let shorter = sorted.drop_last();
        lemma_insert_by_order_shape(shorter, x);
        let p = choose|p: int|
            0 <= p <= shorter.len() && insert_by_order(shorter, x) == #[trigger] shorter.take(p).push(
                x,
            ) + shorter.skip(p);
        assert(shorter.take(p) =~= sorted.take(p));
        assert((shorter.take(p).push(x) + shorter.skip(p)).push(sorted.last()) =~= sorted.take(
            p,
        ).push(x) + sorted.skip(p));
    }
}

/// Sorting modules of different ids gives a list of different ids.
pub proof fn lemma_sorted_by_order_distinct(modules: Seq<ModuleView>, n: int)
    requires
        0 <= n <= modules.len(),
        forall|i: int, j: int|
            0 <= i < j < modules.len() ==> (#[trigger] modules[i]).id() != (#[trigger] modules[j]).id(),
    ensures
        sorted_by_order(modules, n).len() == n,
        forall|k: int, l: int|
            0 <= k < l < n ==> (#[trigger] sorted_by_order(modules, n)[k]).1 != (
            #[trigger] sorted_by_order(modules, n)[l]).1,
    decreases n,
{
    if n > 0 {
        let before = sorted_by_order(modules, n - 1);
        let x = (modules[n - 1].exec_order(), modules[n - 1].id());
        let all = sorted_by_order(modules, n);
        lemma_sorted_by_order_distinct(modules, n - 1);
        lemma_insert_by_order_shape(before, x);
        let p = choose|p: int|
            0 <= p <= before.len() && insert_by_order(before, x) == #[trigger] before.take(p).push(x)
                + before.skip(p);
        assert forall|k: int| 0 <= k < before.len() implies (#[trigger] before[k]).1 != x.1 by {
            lemma_sorted_by_order_ids(modules, n - 1, k);
            let i = choose|i: int| 0 <= i < n - 1 && #[trigger] modules[i].id() == before[k].1;
            assert(modules[i].id() != modules[n - 1].id());
        }
        assert forall|k: int, l: int| 0 <= k < l < n implies (#[trigger] all[k]).1 != (
        #[trigger] all[l]).1 by {
            if k == p {
                assert(all[l] == before[l - 1]);
            } else if l == p {
                assert(all[k] == before[k]);
            } else {
                let bk = if k < p { k } else { k - 1 };
                let bl = if l < p { l } else { l - 1 };
                assert(all[k] == before[bk]);
                assert(all[l] == before[bl]);
            }
        }
    }
}

/// Each member comes before the members of higher order, and no two have one order.
pub open spec fn strictly_sorted(s: Seq<(usize, ModuleIdView)>) -> bool {
    forall|i: int, j: int| 0 <= i < j < s.len() ==> (#[trigger] s[i]).0 < (#[trigger] s[j]).0
}

proof fn lemma_insert_by_order_contains(sorted: Seq<(usize, ModuleIdView)>, x: (usize, ModuleIdView))
    ensures
        insert_by_order(sorted, x).contains(x),
        forall|w: int|
            0 <= w < sorted.len() ==> insert_by_order(sorted, x).contains(#[trigger] sorted[w]),
{
    lemma_insert_by_order_shape(sorted, x);
    let p = choose|p: int|
        0 <= p <= sorted.len() && insert_by_order(sorted, x) == #[trigger] sorted.take(p).push(x)
            + sorted.skip(p);
    let all = insert_by_order(sorted, x);
    assert(all[p] == x);
    assert forall|w: int| 0 <= w < sorted.len() implies all.contains(#[trigger] sorted[w]) by {
        if w < p {
            assert(all[w] == sorted[w]);
        } else {
            assert(all[w + 1] == sorted[w]);
        }
    }
}

/// Inserting a member of an order that no member has into a sorted list gives a sorted list.
pub proof fn lemma_insert_by_order_sorted(sorted: Seq<(usize, ModuleIdView)>, x: (usize, ModuleIdView))
    requires
        strictly_sorted(sorted),
        forall|k: int| 0 <= k < sorted.len() ==> (#[trigger] sorted[k]).0 != x.0,
    ensures
        strictly_sorted(insert_by_order(sorted, x)),
    decreases sorted.len(),
{
    let all = insert_by_order(sorted, x);
    if sorted.len() == 0 || sorted.last().0 <= x.0 {
        assert forall|i: int, j: int| 0 <= i < j < all.len() implies (#[trigger] all[i]).0 < (
        #[trigger] all[j]).0 by {
            if j < sorted.len() {
                assert(sorted[i].0 < sorted[j].0);
            } else {
                assert(all[i] == sorted[i]);
                let last = sorted.len() - 1;
                assert(sorted[last].0 != x.0);
                if i < last {
                    assert(sorted[i].0 < sorted[last].0);
                }
            }
        }
    } else {
        let shorter = sorted.drop_last();
        let last = sorted.len() - 1;
        assert(strictly_sorted(shorter)) by {
            assert forall|i: int, j: int| 0 <= i < j < shorter.len() implies (
            #[trigger] shorter[i]).0 < (#[trigger] shorter[j]).0 by {
                assert(sorted[i].0 < sorted[j].0);
            }
        }
        assert forall|k: int| 0 <= k < shorter.len() implies (#[trigger] shorter[k]).0 != x.0 by {
            assert(sorted[k].0 != x.0);
        }
        lemma_insert_by_order_sorted(shorter, x);
        let inner = insert_by_order(shorter, x);
        lemma_insert_by_order_len(shorter, x);
        assert forall|i: int, j: int| 0 <= i < j < all.len() implies (#[trigger] all[i]).0 < (
        #[trigger] all[j]).0 by {
            if j < inner.len() {
                assert(inner[i].0 < inner[j].0);
            } else {
                assert(all[j] == sorted[last]);
                assert(all[i] == inner[i]);
                lemma_insert_by_order_members(shorter, x, i);
                if inner[i] != x {
                    let w = choose|w: int| 0 <= w < shorter.len() && shorter[w] == inner[i];
                    assert(sorted[w].0 < sorted[last].0);
                }
            }
        }
    }
}

/// The order of `module`.
pub open spec fn keyed(module: ModuleView) -> (usize, ModuleIdView) {
    (module.exec_order(), module.id())
}

/// Sorting modules of different orders gives a sorted list that holds each of them.
pub proof fn lemma_sorted_by_order_sorted(modules: Seq<ModuleView>, n: int)
    requires
        0 <= n <= modules.len(),
        forall|i: int, j: int|
            0 <= i < j < modules.len() ==> (#[trigger] modules[i]).exec_order() != (
            #[trigger] modules[j]).exec_order(),
    ensures
        strictly_sorted(sorted_by_order(modules, n)),
        sorted_by_order(modules, n).len() == n,
        forall|k: int|
            0 <= k < n ==> exists|i: int|
                0 <= i < n && keyed(#[trigger] modules[i]) == #[trigger] sorted_by_order(modules, n)[k],
        forall|i: int| 0 <= i < n ==> sorted_by_order(modules, n).contains(keyed(#[trigger] modules[i])),
    decreases n,
{
    if n > 0 {
        let before = sorted_by_order(modules, n - 1);
        let x = keyed(modules[n - 1]);
        let all = sorted_by_order(modules, n);
        lemma_sorted_by_order_sorted(modules, n - 1);
        assert forall|k: int| 0 <= k < before.len() implies (#[trigger] before[k]).0 != x.0 by {
            let i = choose|i: int| 0 <= i < n - 1 && keyed(#[trigger] modules[i]) == before[k];
            assert(modules[i].exec_order() != modules[n - 1].exec_order());
        }
        lemma_insert_by_order_sorted(before, x);
        lemma_insert_by_order_len(before, x);
        lemma_insert_by_order_contains(before, x);
        assert forall|k: int| 0 <= k < n implies exists|i: int|
            0 <= i < n && keyed(#[trigger] modules[i]) == #[trigger] all[k] by {
            lemma_insert_by_order_members(before, x, k);
            if all[k] == x {
                assert(keyed(modules[n - 1]) == all[k]);
            } else {
                let w = choose|w: int| 0 <= w < before.len() && before[w] == all[k];
                let i = choose|i: int| 0 <= i < n - 1 && keyed(#[trigger] modules[i]) == before[w];
                assert(keyed(modules[i]) == all[k]);
            }
        }
        assert forall|i: int| 0 <= i < n implies all.contains(keyed(#[trigger] modules[i])) by {
            if i < n - 1 {
                assert(before.contains(keyed(modules[i])));
                let w = choose|w: int| 0 <= w < before.len() && before[w] == keyed(modules[i]);
                assert(all.contains(before[w]));
            }
        }
    }
}

/// Two sorted lists with the same members are one list.
pub proof fn lemma_strictly_sorted_unique(s: Seq<(usize, ModuleIdView)>, t: Seq<(usize, ModuleIdView)>)
    requires
        strictly_sorted(s),
        strictly_sorted(t),
        s.len() == t.len(),
        forall|k: int| 0 <= k < s.len() ==> t.contains(#[trigger] s[k]),
        forall|k: int| 0 <= k < t.len() ==> s.contains(#[trigger] t[k]),
    ensures
        s == t,
    decreases s.len(),
{
    if s.len() == 0 {
        assert(s =~= t);
    } else {
        let last = s.len() - 1;
        assert(t.contains(s[last]));
        let a = choose|a: int| 0 <= a < t.len() && t[a] == s[last];
        assert(s.contains(t[last]));
        let b = choose|b: int| 0 <= b < s.len() && s[b] == t[last];
        if a < last {
            assert(t[a].0 < t[last].0);
        }
        if b < last {
            assert(s[b].0 < s[last].0);
        }
        assert(s[last] == t[last]);
        let s1 = s.drop_last();
        let t1 = t.drop_last();
        assert(strictly_sorted(s1)) by {
            assert forall|i: int, j: int| 0 <= i < j < s1.len() implies (#[trigger] s1[i]).0 < (
            #[trigger] s1[j]).0 by {
                assert(s[i].0 < s[j].0);
            }
        }
        assert(strictly_sorted(t1)) by {
            assert forall|i: int, j: int| 0 <= i < j < t1.len() implies (#[trigger] t1[i]).0 < (
            #[trigger] t1[j]).0 by {
                assert(t[i].0 < t[j].0);
            }
        }
        assert forall|k: int| 0 <= k < s1.len() implies t1.contains(#[trigger] s1[k]) by {
            assert(t.contains(s[k]));
            let w = choose|w: int| 0 <= w < t.len() && t[w] == s[k];
            assert(s[k].0 < s[last].0);
            assert(w != last);
            assert(t1[w] == s1[k]);
        }
        assert forall|k: int| 0 <= k < t1.len() implies s1.contains(#[trigger] t1[k]) by {
            assert(s.contains(t[k]));
            let w = choose|w: int| 0 <= w < s.len() && s[w] == t[k];
            assert(t[k].0 < t[last].0);
            assert(w != last);
            assert(s1[w] == t1[k]);
        }
        lemma_strictly_sorted_unique(s1, t1);
        assert(s =~= s1.push(s[last]));
        assert(t =~= t1.push(t[last]));
    }
}

/// The modules in execution order are the modules of the graph, each once.
pub proof fn lemma_order_modules(g: GraphView)
    requires
        g.wf(),
    ensures
        g.order_modules().no_duplicates(),
        g.order_modules().len() == g.modules.len(),
        forall|k: int| 0 <= k < g.order_modules().len() ==> g.contains(#[trigger] g.order_modules()[k]),
{
    let n = g.modules.len() as int;
    assert forall|i: int, j: int| 0 <= i < j < g.modules.len() implies (#[trigger] g.modules[i]).id() != (
    #[trigger] g.modules[j]).id() by {
        assert(g.ids()[i] != g.ids()[j]);
    }
    lemma_sorted_by_order_distinct(g.modules, n);
    let sorted = sorted_by_order(g.modules, n);
    assert forall|k: int, l: int|
        0 <= k < g.order_modules().len() && 0 <= l < g.order_modules().len() && k != l implies g.order_modules()[k]
        != g.order_modules()[l] by {
        if k < l {
            assert(sorted[k].1 != sorted[l].1);
        } else {
            assert(sorted[l].1 != sorted[k].1);
        }
    }
    assert forall|k: int| 0 <= k < g.order_modules().len() implies g.contains(
        #[trigger] g.order_modules()[k],
    ) by {
        lemma_sorted_by_order_ids(g.modules, n, k);
        let i = choose|i: int| 0 <= i < n && #[trigger] g.modules[i].id() == sorted[k].1;
        assert(g.ids()[i] == g.order_modules()[k]);
    }
}

impl GraphView {
    /// The ids of all modules, sorted by execution order.
    pub open spec fn order_modules(self) -> Seq<ModuleIdView> {
        let sorted = sorted_by_order(self.modules, self.modules.len() as int);
        Seq::new(sorted.len(), |k: int| sorted[k].1)
    }

    /// The exports pass over the modules `order` and then the imports pass over them.
    pub open spec fn link_over(self, order: Seq<ModuleIdView>) -> Result<GraphView, LinkFailure> {
        match self.link_exports(order) {
            Ok(g) => g.link_imports(order),
            Err(e) => Err(e),
        }
    }

    /// The link: the exports pass over all modules in execution order, then the imports
    /// pass in the same order.
    pub open spec fn link(self) -> Result<GraphView, LinkFailure> {
        self.link_over(self.order_modules())
    }

    /// Whether some module re-exports all names of the module `id`.
    pub open spec fn is_wildcard_source(self, id: ModuleIdView) -> bool {
        exists|j: int| self.is_normal(j) && (#[trigger] self.normal(j)).re_export_all.contains(id)
    }

    /// The normal module `m` after the patch: its namespace counts as referenced also where
    /// another module re-exports all its names, and where it is referenced its namespace
    /// object is described.
    pub open spec fn patched(self, m: NormalModuleView) -> NormalModuleView {
        if self.is_wildcard_source(m.id) {
            m.mark_namespace_id_referenced().generate_namespace_export()
        } else {
            m.generate_namespace_export()
        }
    }

    /// The graph after the patch of every normal module.
    pub open spec fn patch(self) -> GraphView {
        GraphView {
            modules: Seq::new(
                self.modules.len(),
                |i: int|
                    match self.modules[i] {
                        ModuleView::Normal(m) => ModuleView::Normal(self.patched(m)),
                        ModuleView::External(m) => ModuleView::External(m),
                    },
            ),
            ..self
        }
    }

    /// What is made of a loaded graph: order, link, patch.
    pub open spec fn generate_module_graph(self) -> Result<GraphView, LinkFailure> {
        match self.sort_modules().link() {
            Ok(g) => Ok(g.patch()),
            Err(e) => Err(e),
        }
    }
}

impl Graph {
    /// The ids of all modules, sorted by execution order.
    pub fn order_modules(&self) -> (r: Vec<ModuleId>)
        ensures
            r.deep_view() == self@.order_modules(),
            forall|k: int| 0 <= k < r.len() ==> self@.contains(#[trigger] r.deep_view()[k]),
    {
        let mut sorted: Vec<(usize, ModuleId)> = Vec::new();
        let mut n: usize = 0;
        assert(sorted.deep_view() =~= sorted_by_order(self@.modules, 0));
        while n < self.modules.len()
            invariant
                n <= self.modules.len(),
                sorted.len() == n,
                sorted.deep_view() == sorted_by_order(self@.modules, n as int),
            decreases self.modules.len() - n,
        {
            let ghost before = sorted.deep_view();
            let order = self.modules[n].exec_order();
            let id = self.modules[n].id().clone();
            let ghost x = (order, id@);
            let mut p: usize = sorted.len();
            while p > 0 && sorted[p - 1].0 > order
                invariant
                    p <= sorted.len(),
                    before == sorted.deep_view(),
                    forall|q: int| p <= q < sorted.len() ==> (#[trigger] before[q]).0 > order,
                decreases p,
            {
                assert(before[p - 1].0 == sorted[p - 1].0);
                p -= 1;
            }
            proof {
                if p > 0 {
                    assert(before[p - 1].0 == sorted[p - 1].0);
                }
                lemma_insert_by_order_at(before, x, p as int);
                assert(self@.modules[n as int] == self.modules[n as int]@);
            }
            sorted.insert(p, (order, id));
            assert(sorted.deep_view() =~= before.take(p as int).push(x) + before.skip(p as int));
            n += 1;
        }
        let mut r: Vec<ModuleId> = Vec::new();
        let mut k: usize = 0;
        while k < sorted.len()
            invariant
                k <= sorted.len(),
                r.len() == k,
                forall|j: int| 0 <= j < k ==> #[trigger] r.deep_view()[j] == sorted.deep_view()[j].1,
            decreases sorted.len() - k,
        {
            let ghost before = r.deep_view();
            r.push(sorted[k].1.clone());
            assert(r.deep_view() =~= before.push(sorted[k as int].1@));
            k += 1;
        }
        assert(r.deep_view() =~= self@.order_modules());
        proof {
            assert forall|k: int| 0 <= k < r.len() implies self@.contains(
                #[trigger] r.deep_view()[k],
            ) by {
                lemma_sorted_by_order_ids(self@.modules, self@.modules.len() as int, k);
                let i = choose|i: int|
                    0 <= i < self@.modules.len() && #[trigger] self@.modules[i].id() == sorted_by_order(
                        self@.modules,
                        self@.modules.len() as int,
                    )[k].1;
                assert(self@.ids()[i] == r.deep_view()[k]);
            }
        }
        r
    }

    /// Links the graph: the exports pass over all modules in execution order, then the
    /// imports pass in the same order. Returns the first failure; the graph is then left as
    /// the failing pass left it.
    pub fn link(&mut self) -> (r: Result<(), BuildError>)
        requires
            old(self)@.inv(),
        ensures
            warnings_kept(old(self)@, final(self)@),
            r is Err ==> final(self)@.inv() && same_shape(old(self)@, final(self)@) && tables_kept(
                old(self)@,
                final(self)@,
            ),
            r is Ok ==> tables_kept(old(self)@, final(self)@),
            final(self).input_options == old(self).input_options,
            match r {
                Ok(_) => old(self)@.link() == Ok::<GraphView, LinkFailure>(
                    final(self)@,
                ),
                Err(e) => old(self)@.link() == failed(e@, final(self)@),
            },
            r is Ok ==> final(self)@.inv() && same_shape(old(self)@, final(self)@),
    {
        proof {
            crate::graph::failure_laws::lemma_link_failure(self@);
        }
        proof {
            crate::graph::table_laws::lemma_link_tables(self@);
        }
        let order = self.order_modules();
        match self.link_exports(&order) {
            Ok(_) => {},
            Err(e) => {
                return Err(e);
            },
        }
        self.link_imports(&order)
    }

    /// Describes the namespace object of every normal module whose namespace is referenced
    /// or whose names another module re-exports with a wildcard; the namespace of such a
    /// wildcard source counts as referenced from then on.
    pub fn patch(&mut self)
        ensures
            tables_kept(old(self)@, final(self)@),
            final(self).input_options == old(self).input_options,
            final(self)@ == old(self)@.patch(),
    {
        proof {
            crate::graph::table_laws::lemma_patch_tables(self@);
        }
        let ghost g = self@;
        let mut sources: Vec<ModuleId> = Vec::new();
        let mut k: usize = 0;
        while k < self.modules.len()
            invariant
                k <= self.modules.len(),
                forall|id: ModuleIdView| #[trigger]
                    sources.deep_view().contains(id) <==> exists|j: int|
                        0 <= j < k && self@.is_normal(j) && (#[trigger] self@.normal(j)).re_export_all.contains(id),
            decreases self.modules.len() - k,
        {
            let ghost before = sources.deep_view();
            if !self.modules[k].is_external() {
                let m = self.modules[k].expect_norm();
                extend_modules(&mut sources, &m.re_export_all);
            }
            proof {
                assert forall|id: ModuleIdView| #[trigger]
                    sources.deep_view().contains(id) <==> exists|j: int|
                        0 <= j < k + 1 && self@.is_normal(j) && (#[trigger] self@.normal(j)).re_export_all.contains(
                            id,
                        ) by {
                    if self@.is_normal(k as int) {
                        lemma_insert_all_members(before, self@.normal(k as int).re_export_all, id);
                    }
                    if before.contains(id) {
                        let j = choose|j: int|
                            0 <= j < k && self@.is_normal(j) && (#[trigger] self@.normal(j)).re_export_all.contains(id);
                        assert(0 <= j < k + 1 && self@.is_normal(j) && self@.normal(j).re_export_all.contains(id));
                    }
                    if exists|j: int|
                        0 <= j < k + 1 && self@.is_normal(j) && (#[trigger] self@.normal(j)).re_export_all.contains(
                            id,
                        ) {
                        let j = choose|j: int|
                            0 <= j < k + 1 && self@.is_normal(j) && (#[trigger] self@.normal(j)).re_export_all.contains(
                                id,
                            );
                        if j < k {
                            assert(before.contains(id));
                        }
                    }
                }
            }
            k += 1;
        }
        assert forall|id: ModuleIdView| #[trigger] sources.deep_view().contains(id) == g.is_wildcard_source(id) by {
            if g.is_wildcard_source(id) {
                let j = choose|j: int| g.is_normal(j) && (#[trigger] g.normal(j)).re_export_all.contains(id);
                assert(0 <= j < k);
            }
        }
        let mut i: usize = 0;
        while i < self.modules.len()
            invariant
                self.input_options == old(self).input_options,
                i <= self.modules.len(),
                self.modules.len() == g.modules.len(),
                forall|id: ModuleIdView| #[trigger] sources.deep_view().contains(id) == g.is_wildcard_source(id),
                self@.entries == g.entries,
                self@.uf == g.uf,
                self@.warnings == g.warnings,
                self@.shim_missing_exports == g.shim_missing_exports,
                forall|j: int| 0 <= j < i ==> #[trigger] self@.modules[j] == g.patch().modules[j],
                forall|j: int| i <= j < g.modules.len() ==> #[trigger] self@.modules[j] == g.modules[j],
            decreases self.modules.len() - i,
        {
            let ghost now = self@.modules;
            if !self.modules[i].is_external() {
                let m = self.modules[i].expect_norm_mut();
                if contains_module(&sources, &m.id) {
                    m.mark_namespace_id_referenced();
                }
                m.generate_namespace_export();
            }
            proof {
                assert(now[i as int] == g.modules[i as int]);
                assert(self@.modules[i as int] == g.patch().modules[i as int]);
                assert forall|j: int| 0 <= j < i implies #[trigger] self@.modules[j]
                    == g.patch().modules[j] by {
                    assert(self@.modules[j] == now[j]);
                }
                assert forall|j: int| i < j < g.modules.len() implies #[trigger] self@.modules[j]
                    == g.modules[j] by {
                    assert(self@.modules[j] == now[j]);
                }
            }
            i += 1;
        }
        assert(self@.modules =~= g.patch().modules);
    }

    /// Makes of a loaded graph what the later stages need: gives the modules their
    /// execution order, links them, and describes the namespace objects. Where the link
    /// fails, the modules have their execution order and the graph is as the link left it.
    pub fn generate_module_graph(&mut self) -> (r: Result<(), BuildError>)
        requires
            old(self)@.inv(),
        ensures
            warnings_kept(old(self)@, final(self)@),
            r is Err ==> final(self)@.inv() && same_shape(old(self)@, final(self)@) && tables_kept(
                old(self)@,
                final(self)@,
            ),
            r is Ok ==> tables_kept(old(self)@, final(self)@),
            final(self).input_options == old(self).input_options,
            match r {
                Ok(_) => old(self)@.generate_module_graph() == Ok::<GraphView, LinkFailure>(
                    final(self)@,
                ),
                Err(e) => old(self)@.generate_module_graph() == failed(e@, final(self)@),
            },
    {
        proof {
            crate::graph::failure_laws::lemma_generate_module_graph_failure(self@);
        }
        proof {
            crate::graph::table_laws::lemma_generate_module_graph_tables(self@);
        }
        self.sort_modules();
        match self.link() {
            Ok(_) => {},
            Err(e) => {
                return Err(e);
            },
        }
        self.patch();
        Ok(())
    }
}

} // verus!
