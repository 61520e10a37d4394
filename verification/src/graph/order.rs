//! Execution order: a depth-first sweep with an explicit stack of `Enter` and `Exit` actions.
//!
//! The sweep works on modules by their position in the graph. A module's order is fixed
//! when its `Exit` is taken from the stack, so a cycle is settled by whoever is entered first.

use vstd::prelude::*;
use crate::graph::order_laws::{lemma_first_sweep_rested, lemma_round_rested, rested};
use crate::table::insert_all;

verus! {

#[derive(Debug, Clone, Copy, PartialEq, Eq, Structural)]
pub enum Action {
    Enter,
    Exit,
}

/// State of a sweep.
pub struct Sweep {
    /// Work still to do; the last item is taken first.
    pub stack: Seq<(Action, usize)>,
    /// Which modules have been entered.
    pub entered: Seq<bool>,
    /// Dynamically imported modules met so far.
    pub dynamic: Seq<usize>,
    /// The modules that were left, in the order of leaving.
    pub exits: Seq<usize>,
}

/// Every edge leads to a module of the graph.
pub open spec fn edges_wf(edges: Seq<Seq<usize>>) -> bool {
    forall|i: int, k: int|
        0 <= i < edges.len() && 0 <= k < edges[i].len() ==> (#[trigger] edges[i][k]) < edges.len()
}

/// `Enter` actions for `targets`, stacked so that the first target is taken first.
pub open spec fn enters_reversed(targets: Seq<usize>) -> Seq<(Action, usize)> {
    Seq::new(targets.len(), |k: int| (Action::Enter, targets[targets.len() - 1 - k]))
}

/// Number of modules not entered.
pub open spec fn count_unentered(entered: Seq<bool>) -> nat
    decreases entered.len(),
{
    if entered.len() == 0 {
        0
    } else {
        count_unentered(entered.drop_last()) + if entered.last() {
            0nat
        } else {
            1nat
        }
    }
}

pub proof fn lemma_count_unentered_update(entered: Seq<bool>, i: int)
    requires
        0 <= i < entered.len(),
        !entered[i],
    ensures
        count_unentered(entered.update(i, true)) + 1 == count_unentered(entered),
    decreases entered.len(),
{
    let after = entered.update(i, true);
    if i == entered.len() - 1 {
        assert(after.drop_last() =~= entered.drop_last());
    } else {
        assert(after.drop_last() =~= entered.drop_last().update(i, true));
        lemma_count_unentered_update(entered.drop_last(), i);
    }
}

impl Sweep {
    /// The bounds that keep a sweep within the graph.
    pub open spec fn bounded(self, n: nat) -> bool {
        &&& self.entered.len() == n
        &&& forall|p: int| 0 <= p < self.stack.len() ==> (#[trigger] self.stack[p]).1 < n
        &&& forall|p: int| 0 <= p < self.dynamic.len() ==> (#[trigger] self.dynamic[p]) < n
        &&& forall|p: int| 0 <= p < self.exits.len() ==> (#[trigger] self.exits[p]) < n
    }

    /// Whether the next action enters a module for the first time.
    pub open spec fn enters_new(self) -> bool {
        &&& self.stack.len() > 0
        &&& self.stack.last().0 == Action::Enter
        &&& self.stack.last().1 < self.entered.len()
        &&& !self.entered[self.stack.last().1 as int]
    }

    /// The state after the action on top of the stack is carried out.
    ///
    /// Entering a module for the first time marks it, stacks its `Exit` and, above that,
    /// its static dependencies, and notes its dynamic dependencies.
    /// Entering it again does nothing. Leaving a module appends it to `exits`.
    pub open spec fn step(
        self,
        edges: Seq<Seq<usize>>,
        dynamic_edges: Seq<Seq<usize>>,
    ) -> Sweep
        recommends
            self.stack.len() > 0,
    {
        let id = self.stack.last().1;
        let rest = self.stack.drop_last();
        if self.enters_new() {
            Sweep {
                stack: rest.push((Action::Exit, id)) + enters_reversed(edges[id as int]),
                entered: self.entered.update(id as int, true),
                dynamic: insert_all(self.dynamic, dynamic_edges[id as int]),
                exits: self.exits,
            }
        } else if self.stack.last().0 == Action::Enter {
            Sweep { stack: rest, ..self }
        } else {
            Sweep { stack: rest, exits: self.exits.push(id), ..self }
        }
    }

    /// The state when the stack has run empty.
    pub open spec fn run(
        self,
        edges: Seq<Seq<usize>>,
        dynamic_edges: Seq<Seq<usize>>,
    ) -> Sweep
        decreases count_unentered(self.entered), self.stack.len(),
        via Self::run_decreases
    {
        if self.stack.len() == 0 {
            self
        } else {
            self.step(edges, dynamic_edges).run(edges, dynamic_edges)
        }
    }

    #[via_fn]
    proof fn run_decreases(
        self,
        edges: Seq<Seq<usize>>,
        dynamic_edges: Seq<Seq<usize>>,
    ) {
        if self.stack.len() > 0 && self.enters_new() {
            lemma_count_unentered_update(self.entered, self.stack.last().1 as int);
        }
    }
}

pub proof fn lemma_insert_all_bounded(set: Seq<usize>, items: Seq<usize>, n: nat)
    requires
        forall|p: int| 0 <= p < set.len() ==> (#[trigger] set[p]) < n,
        forall|p: int| 0 <= p < items.len() ==> (#[trigger] items[p]) < n,
    ensures
        forall|p: int|
            0 <= p < insert_all(set, items).len() ==> (#[trigger] insert_all(set, items)[p]) < n,
    decreases items.len(),
{
    if items.len() > 0 {
        lemma_insert_all_bounded(set, items.drop_last(), n);
        let prev = insert_all(set, items.drop_last());
        let all = insert_all(set, items);
        assert(items.last() == items[items.len() - 1]);
        assert forall|p: int| 0 <= p < all.len() implies (#[trigger] all[p]) < n by {
            if p < prev.len() {
                assert(all[p] == prev[p]);
            }
        }
    }
}

/// A step keeps the sweep within the graph.
pub proof fn lemma_step_bounded(
    s: Sweep,
    edges: Seq<Seq<usize>>,
    dynamic_edges: Seq<Seq<usize>>,
)
    requires
        s.stack.len() > 0,
        s.bounded(edges.len()),
        edges_wf(edges),
        edges_wf(dynamic_edges),
        edges.len() == dynamic_edges.len(),
    ensures
        s.step(edges, dynamic_edges).bounded(edges.len()),
{
    let t = s.step(edges, dynamic_edges);
    let id = s.stack.last().1;
    if s.enters_new() {
        lemma_insert_all_bounded(s.dynamic, dynamic_edges[id as int], edges.len());
        assert forall|p: int| 0 <= p < t.stack.len() implies (#[trigger] t.stack[p]).1
            < edges.len() by {
            if p < s.stack.len() - 1 {
                assert(t.stack[p] == s.stack[p]);
            } else if p == s.stack.len() - 1 {
            } else {
                let k = p - s.stack.len();
                assert(t.stack[p] == enters_reversed(edges[id as int])[k]);
            }
        }
    } else {
        assert forall|p: int| 0 <= p < t.stack.len() implies (#[trigger] t.stack[p]).1
            < edges.len() by {
            assert(t.stack[p] == s.stack[p]);
        }
    }
}

impl Sweep {
    /// Whether every dynamic import noted is entered, so that nothing is left to start from.
    pub open spec fn settled(self) -> bool {
        forall|k: int|
            0 <= k < self.dynamic.len() ==> (#[trigger] self.dynamic[k]) < self.entered.len()
                && self.entered[self.dynamic[k] as int]
    }

    /// The state after the sweep has started again from the dynamic imports noted so far,
    /// first noted first, and has run until its stack was empty. It notes the dynamic
    /// imports of the modules that it enters.
    pub open spec fn round(self, edges: Seq<Seq<usize>>, dynamic_edges: Seq<Seq<usize>>) -> Sweep {
        Sweep { stack: enters_reversed(self.dynamic), ..self }.run(edges, dynamic_edges)
    }

    /// The state after `rounds` rounds.
    pub open spec fn follow(
        self,
        edges: Seq<Seq<usize>>,
        dynamic_edges: Seq<Seq<usize>>,
        rounds: nat,
    ) -> Sweep
        decreases rounds,
    {
        if rounds == 0 {
            self
        } else {
            self.round(edges, dynamic_edges).follow(edges, dynamic_edges, (rounds - 1) as nat)
        }
    }
}

/// The state when the sweep from `roots`, first root first, has run until its stack was
/// empty.
pub open spec fn first_sweep(
    edges: Seq<Seq<usize>>,
    dynamic_edges: Seq<Seq<usize>>,
    roots: Seq<usize>,
) -> Sweep {
    Sweep {
        stack: enters_reversed(roots),
        entered: Seq::new(edges.len(), |i: int| false),
        dynamic: Seq::empty(),
        exits: Seq::empty(),
    }.run(edges, dynamic_edges)
}

/// The order in which the modules are left when the sweep starts from `roots` and then
/// starts again from the dynamic imports that it has met, round after round, until no
/// round meets a module that was not entered. A round for each module is enough for that.
pub open spec fn post_order(
    edges: Seq<Seq<usize>>,
    dynamic_edges: Seq<Seq<usize>>,
    roots: Seq<usize>,
) -> Seq<usize> {
    first_sweep(edges, dynamic_edges, roots).follow(edges, dynamic_edges, edges.len()).exits
}

/// No more modules are unentered than there are modules.
pub proof fn lemma_count_unentered_bound(entered: Seq<bool>)
    ensures
        count_unentered(entered) <= entered.len(),
    decreases entered.len(),
{
    if entered.len() > 0 {
        lemma_count_unentered_bound(entered.drop_last());
    }
}

/// Where every module that was entered is entered and one more besides, fewer are
/// unentered.
pub proof fn lemma_count_unentered_less(before: Seq<bool>, after: Seq<bool>, x: int)
    requires
        before.len() == after.len(),
        forall|i: int| 0 <= i < before.len() && before[i] ==> after[i],
        0 <= x < before.len(),
        !before[x],
        after[x],
    ensures
        count_unentered(after) < count_unentered(before),
    decreases before.len(),
{
    let b = before.drop_last();
    let a = after.drop_last();
    let last = before.len() - 1;
    assert(before.last() == before[last] && after.last() == after[last]);
    assert forall|i: int| 0 <= i < b.len() && b[i] implies a[i] by {
        assert(before[i] ==> after[i]);
    }
    if x == last {
        lemma_count_unentered_kept(b, a);
    } else {
        lemma_count_unentered_less(b, a, x);
    }
}

/// Where every module that was entered is entered, no more are unentered.
pub proof fn lemma_count_unentered_kept(before: Seq<bool>, after: Seq<bool>)
    requires
        before.len() == after.len(),
        forall|i: int| 0 <= i < before.len() && before[i] ==> after[i],
    ensures
        count_unentered(after) <= count_unentered(before),
    decreases before.len(),
{
    if before.len() > 0 {
        let b = before.drop_last();
        let a = after.drop_last();
        let last = before.len() - 1;
        assert(before.last() == before[last] && after.last() == after[last]);
        assert forall|i: int| 0 <= i < b.len() && b[i] implies a[i] by {
            assert(before[i] ==> after[i]);
        }
        lemma_count_unentered_kept(b, a);
    }
}

/// A sweep whose stack holds nothing but modules to enter that are entered changes
/// nothing but its stack.
pub proof fn lemma_idle_run(s: Sweep, edges: Seq<Seq<usize>>, dynamic_edges: Seq<Seq<usize>>)
    requires
        forall|p: int|
            0 <= p < s.stack.len() ==> (#[trigger] s.stack[p]).0 == Action::Enter && s.stack[p].1
                < s.entered.len() && s.entered[s.stack[p].1 as int],
    ensures
        s.run(edges, dynamic_edges) == (Sweep { stack: Seq::empty(), ..s }),
    decreases s.stack.len(),
{
    if s.stack.len() == 0 {
        assert(s.stack =~= Seq::empty());
    } else {
        let last = s.stack.len() - 1;
        assert(s.stack[last].0 == Action::Enter);
        assert(!s.enters_new());
        let t = s.step(edges, dynamic_edges);
        assert forall|p: int|
            0 <= p < t.stack.len() implies (#[trigger] t.stack[p]).0 == Action::Enter && t.stack[p].1
            < t.entered.len() && t.entered[t.stack[p].1 as int] by {
            assert(t.stack[p] == s.stack[p]);
        }
        lemma_idle_run(t, edges, dynamic_edges);
    }
}

/// Once every dynamic import noted is entered, further rounds change nothing.
pub proof fn lemma_follow_settled(s: Sweep, edges: Seq<Seq<usize>>, dynamic_edges: Seq<Seq<usize>>, rounds: nat)
    requires
        s.stack.len() == 0,
        s.settled(),
    ensures
        s.follow(edges, dynamic_edges, rounds) == s,
    decreases rounds,
{
    if rounds > 0 {
        let again = Sweep { stack: enters_reversed(s.dynamic), ..s };
        assert forall|p: int|
            0 <= p < again.stack.len() implies (#[trigger] again.stack[p]).0 == Action::Enter
            && again.stack[p].1 < again.entered.len() && again.entered[again.stack[p].1 as int] by {
            let k = s.dynamic.len() - 1 - p;
            assert(again.stack[p] == (Action::Enter, s.dynamic[k]));
        }
        lemma_idle_run(again, edges, dynamic_edges);
        assert(s.stack =~= Seq::empty());
        assert(s.round(edges, dynamic_edges) == s);
        lemma_follow_settled(s, edges, dynamic_edges, (rounds - 1) as nat);
    }
}

/// Rounds add up.
pub proof fn lemma_follow_add(s: Sweep, edges: Seq<Seq<usize>>, dynamic_edges: Seq<Seq<usize>>, a: nat, b: nat)
    ensures
        s.follow(edges, dynamic_edges, a + b) == s.follow(edges, dynamic_edges, a).follow(
            edges,
            dynamic_edges,
            b,
        ),
    decreases a,
{
    if a > 0 {
        lemma_follow_add(s.round(edges, dynamic_edges), edges, dynamic_edges, (a - 1) as nat, b);
        assert((a + b - 1) as nat == (a - 1) as nat + b);
    }
}

/// Adds each of `items` to the set `set`.
fn extend_set(set: &mut Vec<usize>, items: &Vec<usize>)
    ensures
        final(set)@ == insert_all(old(set)@, items@),
{
    let mut k: usize = 0;
    while k < items.len()
        invariant
            k <= items.len(),
            set@ == insert_all(old(set)@, items@.take(k as int)),
        decreases items.len() - k,
    {
        let item = items[k];
        let mut found = false;
        let mut j: usize = 0;
        while j < set.len()
            invariant
                j <= set.len(),
                !found ==> forall|q: int| 0 <= q < j ==> set@[q] != item,
                found ==> set@.contains(item),
            decreases set.len() - j,
        {
            if set[j] == item {
                found = true;
            }
            j += 1;
        }
        if !found {
            set.push(item);
        }
        proof {
            assert(items@.take(k as int + 1).drop_last() =~= items@.take(k as int));
            assert(items@.take(k as int + 1).last() == item);
        }
        k += 1;
    }
    assert(items@.take(items.len() as int) =~= items@);
}

/// Stacks `Enter` actions for `targets` so that the first target is taken first.
fn push_enters(stack: &mut Vec<(Action, usize)>, targets: &Vec<usize>)
    ensures
        final(stack)@ == old(stack)@ + enters_reversed(targets@),
{
    let mut k: usize = targets.len();
    while k > 0
        invariant
            k <= targets.len(),
            stack@ == old(stack)@ + enters_reversed(targets@).take(targets.len() - k),
        decreases k,
    {
        k -= 1;
        stack.push((Action::Enter, targets[k]));
        assert(stack@ =~= old(stack)@ + enters_reversed(targets@).take(targets.len() - k));
    }
    assert(enters_reversed(targets@).take(targets.len() as int) =~= enters_reversed(targets@));
}

/// Runs the sweep until the stack is empty.
fn sweep(
    edges: &Vec<Vec<usize>>,
    dynamic_edges: &Vec<Vec<usize>>,
    stack: &mut Vec<(Action, usize)>,
    entered: &mut Vec<bool>,
    dynamic: &mut Vec<usize>,
    exits: &mut Vec<usize>,
)
    requires
        edges_wf(edges.deep_view()),
        edges_wf(dynamic_edges.deep_view()),
        edges.len() == dynamic_edges.len(),
        (Sweep {
            stack: old(stack)@,
            entered: old(entered)@,
            dynamic: old(dynamic)@,
            exits: old(exits)@,
        }).bounded(edges.len() as nat),
    ensures
        (Sweep {
            stack: final(stack)@,
            entered: final(entered)@,
            dynamic: final(dynamic)@,
            exits: final(exits)@,
        }) == (Sweep {
            stack: old(stack)@,
            entered: old(entered)@,
            dynamic: old(dynamic)@,
            exits: old(exits)@,
        }).run(edges.deep_view(), dynamic_edges.deep_view()),
        final(stack)@.len() == 0,
        (Sweep {
            stack: final(stack)@,
            entered: final(entered)@,
            dynamic: final(dynamic)@,
            exits: final(exits)@,
        }).bounded(edges.len() as nat),
{
    let ghost start = Sweep {
        stack: stack@,
        entered: entered@,
        dynamic: dynamic@,
        exits: exits@,
    };
    let ghost e = edges.deep_view();
    let ghost d = dynamic_edges.deep_view();
    while stack.len() > 0
        invariant
            e == edges.deep_view(),
            d == dynamic_edges.deep_view(),
            edges_wf(e),
            edges_wf(d),
            e.len() == d.len(),
            e.len() == edges.len(),
            (Sweep { stack: stack@, entered: entered@, dynamic: dynamic@, exits: exits@ }).bounded(
                e.len(),
            ),
            (Sweep { stack: stack@, entered: entered@, dynamic: dynamic@, exits: exits@ }).run(
                e,
                d,
            ) == start.run(e, d),
        decreases count_unentered(entered@), stack.len(),
    {
        let ghost s = Sweep { stack: stack@, entered: entered@, dynamic: dynamic@, exits: exits@ };
        proof {
            lemma_step_bounded(s, e, d);
            if s.enters_new() {
                lemma_count_unentered_update(s.entered, s.stack.last().1 as int);
            }
        }
        let (action, id) = stack.pop().unwrap();
        assert(stack@ == s.stack.drop_last());
        assert((action, id) == s.stack.last());
        match action {
            Action::Enter => {
                if !entered[id] {
                    entered.set(id, true);
                    stack.push((Action::Exit, id));
                    assert(edges.deep_view()[id as int] == edges[id as int].deep_view());
                    assert(edges[id as int].deep_view() =~= edges[id as int]@);
                    push_enters(stack, &edges[id]);
                    assert(dynamic_edges.deep_view()[id as int] == dynamic_edges[id as int].deep_view());
                    assert(dynamic_edges[id as int].deep_view() =~= dynamic_edges[id as int]@);
                    extend_set(dynamic, &dynamic_edges[id]);
                }
            },
            Action::Exit => {
                exits.push(id);
            },
        }
        assert((Sweep { stack: stack@, entered: entered@, dynamic: dynamic@, exits: exits@ }) == s.step(
            e,
            d,
        ));
    }
}

/// Whether every dynamic import noted is entered.
fn all_entered(dynamic: &Vec<usize>, entered: &Vec<bool>) -> (r: bool)
    ensures
        r == (forall|k: int|
            0 <= k < dynamic.len() ==> (#[trigger] dynamic[k]) < entered.len() && entered[dynamic[k] as int]),
{
    let mut k: usize = 0;
    while k < dynamic.len()
        invariant
            k <= dynamic.len(),
            forall|j: int|
                0 <= j < k ==> (#[trigger] dynamic[j]) < entered.len() && entered[dynamic[j] as int],
        decreases dynamic.len() - k,
    {
        let d: usize = dynamic[k];
        if d >= entered.len() || !entered[d] {
            return false;
        }
        k += 1;
    }
    true
}

/// Computes the order in which the modules are left; see [`post_order`].
pub fn compute_post_order(
    edges: &Vec<Vec<usize>>,
    dynamic_edges: &Vec<Vec<usize>>,
    roots: &Vec<usize>,
) -> (exits: Vec<usize>)
    requires
        edges_wf(edges.deep_view()),
        edges_wf(dynamic_edges.deep_view()),
        edges.len() == dynamic_edges.len(),
        forall|p: int| 0 <= p < roots.len() ==> (#[trigger] roots[p]) < edges.len(),
    ensures
        exits@ == post_order(edges.deep_view(), dynamic_edges.deep_view(), roots@),
        forall|p: int| 0 <= p < exits.len() ==> (#[trigger] exits[p]) < edges.len(),
{
    let n = edges.len();
    let ghost e = edges.deep_view();
    let ghost d = dynamic_edges.deep_view();
    let mut entered: Vec<bool> = Vec::new();
    let mut i: usize = 0;
    while i < n
        invariant
            i <= n,
            entered.len() == i,
            forall|j: int| 0 <= j < i ==> !(#[trigger] entered[j]),
        decreases n - i,
    {
        entered.push(false);
        i += 1;
    }
    assert(entered@ =~= Seq::new(n as nat, |i: int| false));
    let mut stack: Vec<(Action, usize)> = Vec::new();
    push_enters(&mut stack, roots);
    assert(stack@ =~= enters_reversed(roots@));
    let mut dynamic: Vec<usize> = Vec::new();
    let mut exits: Vec<usize> = Vec::new();
    sweep(edges, dynamic_edges, &mut stack, &mut entered, &mut dynamic, &mut exits);
    let ghost first = first_sweep(e, d, roots@);
    let ghost mut rounds: nat = 0;
    proof {
        lemma_first_sweep_rested(e, d, roots@);
        lemma_count_unentered_bound(entered@);
    }
    while !all_entered(&dynamic, &entered)
        invariant
            e == edges.deep_view(),
            d == dynamic_edges.deep_view(),
            edges_wf(e),
            edges_wf(d),
            n == edges.len(),
            edges.len() == dynamic_edges.len(),
            first == first_sweep(e, d, roots@),
            (Sweep { stack: stack@, entered: entered@, dynamic: dynamic@, exits: exits@ }) == first.follow(
                e,
                d,
                rounds,
            ),
            rested(
                Sweep { stack: stack@, entered: entered@, dynamic: dynamic@, exits: exits@ },
                e,
                d,
                roots@,
            ),
            rounds + count_unentered(entered@) <= n,
        decreases count_unentered(entered@),
    {
        let ghost before = Sweep { stack: stack@, entered: entered@, dynamic: dynamic@, exits: exits@ };
        assert(!before.settled());
        push_enters(&mut stack, &dynamic);
        assert(stack@ =~= enters_reversed(dynamic@));
        assert(Sweep { stack: stack@, ..before }.bounded(n as nat)) by {
            assert forall|p: int| 0 <= p < stack@.len() implies (#[trigger] stack@[p]).1 < n by {
                assert(stack@[p] == enters_reversed(dynamic@)[p]);
            }
        }
        sweep(edges, dynamic_edges, &mut stack, &mut entered, &mut dynamic, &mut exits);
        proof {
            lemma_round_rested(before, e, d, roots@);
            lemma_follow_add(first, e, d, rounds, 1);
            assert(before.follow(e, d, 1) == before.round(e, d).follow(e, d, 0));
            rounds = rounds + 1;
        }
    }
    proof {
        let last = Sweep { stack: stack@, entered: entered@, dynamic: dynamic@, exits: exits@ };
        assert(last.settled());
        lemma_follow_add(first, e, d, rounds, (n - rounds) as nat);
        lemma_follow_settled(last, e, d, (n - rounds) as nat);
    }
    exits
}

} // verus!
