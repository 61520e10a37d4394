//! What the execution order guarantees: each module is left once, and a module is left
//! after each of its static dependencies unless the two lie on a cycle.

use vstd::prelude::*;
use crate::graph::order::{
    count_unentered, edges_wf, enters_reversed, first_sweep, lemma_count_unentered_bound,
    lemma_count_unentered_less, lemma_count_unentered_update, lemma_follow_settled,
    lemma_step_bounded, post_order, Action, Sweep,
};

verus! {

/// `p` is a walk along the dependencies `edges`.
pub open spec fn is_path(edges: Seq<Seq<usize>>, p: Seq<usize>) -> bool {
    &&& p.len() > 0
    &&& forall|k: int| 0 <= k < p.len() ==> (#[trigger] p[k]) < edges.len()
    &&& forall|k: int| 0 <= k < p.len() - 1 ==> edges[p[k] as int].contains(#[trigger] p[k + 1])
}

/// Module `b` can be reached from module `a` along the dependencies `edges`.
pub open spec fn reaches(edges: Seq<Seq<usize>>, a: usize, b: usize) -> bool {
    exists|p: Seq<usize>| #[trigger] is_path(edges, p) && p.first() == a && p.last() == b
}

pub proof fn lemma_reaches_self(edges: Seq<Seq<usize>>, a: usize)
    requires
        a < edges.len(),
    ensures
        reaches(edges, a, a),
{
    let p = seq![a];
    assert(is_path(edges, p));
    assert(p.first() == a && p.last() == a);
}

pub proof fn lemma_reaches_step(edges: Seq<Seq<usize>>, a: usize, b: usize, c: usize)
    requires
        reaches(edges, a, b),
        edges_wf(edges),
        edges[b as int].contains(c),
    ensures
        reaches(edges, a, c),
{
    let p = choose|p: Seq<usize>| #[trigger] is_path(edges, p) && p.first() == a && p.last() == b;
    let q = p.push(c);
    assert(b < edges.len()) by {
        assert(p[p.len() - 1] < edges.len());
    }
    let w = choose|w: int| 0 <= w < edges[b as int].len() && edges[b as int][w] == c;
    assert(edges[b as int][w] < edges.len());
    assert forall|k: int| 0 <= k < q.len() implies (#[trigger] q[k]) < edges.len() by {
        if k < p.len() {
            assert(q[k] == p[k]);
        }
    }
    assert forall|k: int| 0 <= k < q.len() - 1 implies edges[q[k] as int].contains(
        #[trigger] q[k + 1],
    ) by {
        if k < p.len() - 1 {
            assert(q[k] == p[k]);
            assert(q[k + 1] == p[k + 1]);
        } else {
            assert(q[k] == b);
            assert(q[k + 1] == c);
        }
    }
    assert(is_path(edges, q));
    assert(q.first() == a && q.last() == c);
}

/// The dependency `d` of the `i`-th module left was left before it, or lies on a cycle
/// with it.
pub open spec fn dep_settled(edges: Seq<Seq<usize>>, exits: Seq<usize>, i: int, d: usize) -> bool {
    (exists|j: int| 0 <= j < i && #[trigger] exits[j] == d) || reaches(edges, d, exits[i])
}

/// The dependency `d` of the module whose `Exit` is at `p` is entered or waits above it.
pub open spec fn dep_pending(s: Sweep, p: int, d: usize) -> bool {
    s.entered[d as int] || exists|q: int|
        p < q < s.stack.len() && #[trigger] s.stack[q] == (Action::Enter, d)
}

/// The module `x` is entered or waits on the stack.
pub open spec fn seed_pending(s: Sweep, x: usize) -> bool {
    x < s.entered.len() && (s.entered[x as int] || exists|q: int|
        0 <= q < s.stack.len() && #[trigger] s.stack[q] == (Action::Enter, x))
}

pub open spec fn exit_on_stack(s: Sweep, x: usize) -> bool {
    exists|p: int| 0 <= p < s.stack.len() && #[trigger] s.stack[p] == (Action::Exit, x)
}

/// What holds of a sweep at every step.
pub open spec fn ordered(s: Sweep, edges: Seq<Seq<usize>>, seeds: Seq<usize>) -> bool {
    &&& s.bounded(edges.len())
    &&& s.exits.no_duplicates()
    &&& forall|k: int| 0 <= k < s.exits.len() ==> s.entered[(#[trigger] s.exits[k]) as int]
    &&& forall|p: int|
        0 <= p < s.stack.len() && (#[trigger] s.stack[p]).0 == Action::Exit ==> s.entered[s.stack[p].1 as int]
            && !s.exits.contains(s.stack[p].1)
    &&& forall|p: int, q: int|
        0 <= p < q < s.stack.len() && (#[trigger] s.stack[p]).0 == Action::Exit && (
        #[trigger] s.stack[q]).0 == Action::Exit ==> s.stack[p].1 != s.stack[q].1
    &&& forall|x: usize|
        x < edges.len() && #[trigger] s.entered[x as int] ==> s.exits.contains(x) || exit_on_stack(
            s,
            x,
        )
    &&& forall|p: int, q: int|
        0 <= p < q < s.stack.len() && (#[trigger] s.stack[p]).0 == Action::Exit ==> reaches(
            edges,
            s.stack[p].1,
            (#[trigger] s.stack[q]).1,
        )
    &&& forall|p: int, k: int|
        0 <= p < s.stack.len() && (#[trigger] s.stack[p]).0 == Action::Exit && 0 <= k
            < edges[s.stack[p].1 as int].len() ==> dep_pending(
            s,
            p,
            #[trigger] edges[s.stack[p].1 as int][k],
        )
    &&& forall|i: int, k: int|
        0 <= i < s.exits.len() && 0 <= k < edges[s.exits[i] as int].len() ==> #[trigger] dep_settled(
            edges,
            s.exits,
            i,
            edges[s.exits[i] as int][k],
        )
    &&& forall|i: int, k: int|
        0 <= i < s.exits.len() && 0 <= k < edges[s.exits[i] as int].len()
            ==> s.entered[(#[trigger] edges[(#[trigger] s.exits[i]) as int][k]) as int]
    &&& forall|r: int| 0 <= r < seeds.len() ==> seed_pending(s, #[trigger] seeds[r])
}

proof fn lemma_step_enter_new(
    s: Sweep,
    edges: Seq<Seq<usize>>,
    dynamic_edges: Seq<Seq<usize>>,
    seeds: Seq<usize>,
)
    requires
        s.stack.len() > 0,
        s.enters_new(),
        ordered(s, edges, seeds),
        edges_wf(edges),
        edges_wf(dynamic_edges),
        edges.len() == dynamic_edges.len(),
    ensures
        ordered(s.step(edges, dynamic_edges), edges, seeds),
{
    let t = s.step(edges, dynamic_edges);
    lemma_step_bounded(s, edges, dynamic_edges);
    let y = s.stack.last().1;
    let top = s.stack.len() - 1;
    let deps = edges[y as int];
    let n = s.stack.len() as int;
    assert(s.stack[top] == (Action::Enter, y));
    // shape of the new stack
    assert forall|p: int| 0 <= p < top implies #[trigger] t.stack[p] == s.stack[p] by {}
    assert(t.stack[top] == (Action::Exit, y));
    assert forall|p: int| n <= p < t.stack.len() implies #[trigger] t.stack[p] == (
        Action::Enter,
        deps[deps.len() - 1 - (p - n)],
    ) by {
        assert(t.stack[p] == enters_reversed(deps)[p - n]);
    }
    assert(t.stack.len() == n + deps.len());
    assert(!s.exits.contains(y)) by {
        if s.exits.contains(y) {
            let k = choose|k: int| 0 <= k < s.exits.len() && s.exits[k] == y;
            assert(s.entered[s.exits[k] as int]);
        }
    }
    assert forall|p: int|
        0 <= p < t.stack.len() && (#[trigger] t.stack[p]).0 == Action::Exit implies t.entered[t.stack[p].1 as int]
        && !t.exits.contains(t.stack[p].1) by {
        if p < top {
            assert(s.stack[p].0 == Action::Exit);
        }
    }
    assert forall|p: int, q: int|
        0 <= p < q < t.stack.len() && (#[trigger] t.stack[p]).0 == Action::Exit && (
        #[trigger] t.stack[q]).0 == Action::Exit implies t.stack[p].1 != t.stack[q].1 by {
        if q < top {
            assert(s.stack[p].0 == Action::Exit && s.stack[q].0 == Action::Exit);
        } else {
            assert(q == top);
            assert(s.stack[p].0 == Action::Exit);
            assert(s.entered[s.stack[p].1 as int]);
        }
    }
    assert forall|x: usize| x < edges.len() && #[trigger] t.entered[x as int] implies t.exits.contains(
        x,
    ) || exit_on_stack(t, x) by {
        if x == y {
            assert(t.stack[top] == (Action::Exit, x));
        } else {
            assert(s.entered[x as int]);
            if !s.exits.contains(x) {
                let p = choose|p: int| 0 <= p < s.stack.len() && #[trigger] s.stack[p] == (Action::Exit, x);
                assert(p < top);
                assert(t.stack[p] == (Action::Exit, x));
            }
        }
    }
    assert forall|p: int, q: int|
        0 <= p < q < t.stack.len() && (#[trigger] t.stack[p]).0 == Action::Exit implies reaches(
        edges,
        t.stack[p].1,
        (#[trigger] t.stack[q]).1,
    ) by {
        if p < top {
            assert(s.stack[p].0 == Action::Exit);
            assert(reaches(edges, s.stack[p].1, s.stack[top].1));
            if q < top {
                assert(reaches(edges, s.stack[p].1, s.stack[q].1));
            } else if q == top {
            } else {
                let c = deps[deps.len() - 1 - (q - n)];
                assert(deps.contains(c));
                lemma_reaches_step(edges, s.stack[p].1, y, c);
            }
        } else {
            assert(p == top);
            let c = deps[deps.len() - 1 - (q - n)];
            assert(deps.contains(c));
            lemma_reaches_self(edges, y);
            lemma_reaches_step(edges, y, y, c);
        }
    }
    assert forall|p: int, k: int|
        0 <= p < t.stack.len() && (#[trigger] t.stack[p]).0 == Action::Exit && 0 <= k
            < edges[t.stack[p].1 as int].len() implies dep_pending(
        t,
        p,
        #[trigger] edges[t.stack[p].1 as int][k],
    ) by {
        let d = edges[t.stack[p].1 as int][k];
        if p < top {
            assert(s.stack[p].0 == Action::Exit);
            assert(dep_pending(s, p, edges[s.stack[p].1 as int][k]));
            if !s.entered[d as int] {
                let q = choose|q: int| p < q < s.stack.len() && #[trigger] s.stack[q] == (Action::Enter, d);
                if q == top {
                    assert(d == y);
                } else {
                    assert(t.stack[q] == (Action::Enter, d));
                }
            }
        } else {
            assert(p == top);
            let q = n + (deps.len() - 1 - k);
            assert(t.stack[q] == (Action::Enter, deps[k]));
        }
    }
    assert forall|i: int, k: int|
        0 <= i < t.exits.len() && 0 <= k < edges[t.exits[i] as int].len() implies #[trigger] dep_settled(
        edges,
        t.exits,
        i,
        edges[t.exits[i] as int][k],
    ) by {
        assert(dep_settled(edges, s.exits, i, edges[s.exits[i] as int][k]));
    }
    assert forall|r: int| 0 <= r < seeds.len() implies seed_pending(t, #[trigger] seeds[r]) by {
        let x = seeds[r];
        assert(seed_pending(s, x));
        if !s.entered[x as int] {
            let q = choose|q: int| 0 <= q < s.stack.len() && #[trigger] s.stack[q] == (Action::Enter, x);
            if q == top {
                assert(x == y);
            } else {
                assert(t.stack[q] == (Action::Enter, x));
            }
        }
    }
}

proof fn lemma_step_enter_again(
    s: Sweep,
    edges: Seq<Seq<usize>>,
    dynamic_edges: Seq<Seq<usize>>,
    seeds: Seq<usize>,
)
    requires
        s.stack.len() > 0,
        !s.enters_new(),
        s.stack.last().0 == Action::Enter,
        ordered(s, edges, seeds),
        edges_wf(edges),
        edges_wf(dynamic_edges),
        edges.len() == dynamic_edges.len(),
    ensures
        ordered(s.step(edges, dynamic_edges), edges, seeds),
{
    let t = s.step(edges, dynamic_edges);
    lemma_step_bounded(s, edges, dynamic_edges);
    let y = s.stack.last().1;
    let top = s.stack.len() - 1;
    assert(s.stack[top] == (Action::Enter, y));
    assert(s.entered[y as int]);
    assert forall|p: int| 0 <= p < top implies #[trigger] t.stack[p] == s.stack[p] by {}
    assert forall|p: int|
        0 <= p < t.stack.len() && (#[trigger] t.stack[p]).0 == Action::Exit implies t.entered[t.stack[p].1 as int]
        && !t.exits.contains(t.stack[p].1) by {
        assert(s.stack[p].0 == Action::Exit);
    }
    assert forall|p: int, q: int|
        0 <= p < q < t.stack.len() && (#[trigger] t.stack[p]).0 == Action::Exit && (
        #[trigger] t.stack[q]).0 == Action::Exit implies t.stack[p].1 != t.stack[q].1 by {
        assert(s.stack[p].0 == Action::Exit && s.stack[q].0 == Action::Exit);
    }
    assert forall|x: usize| x < edges.len() && #[trigger] t.entered[x as int] implies t.exits.contains(
        x,
    ) || exit_on_stack(t, x) by {
        if !s.exits.contains(x) {
            let p = choose|p: int| 0 <= p < s.stack.len() && #[trigger] s.stack[p] == (Action::Exit, x);
            assert(p < top);
            assert(t.stack[p] == (Action::Exit, x));
        }
    }
    assert forall|p: int, q: int|
        0 <= p < q < t.stack.len() && (#[trigger] t.stack[p]).0 == Action::Exit implies reaches(
        edges,
        t.stack[p].1,
        (#[trigger] t.stack[q]).1,
    ) by {
        assert(s.stack[p].0 == Action::Exit);
        assert(reaches(edges, s.stack[p].1, s.stack[q].1));
    }
    assert forall|p: int, k: int|
        0 <= p < t.stack.len() && (#[trigger] t.stack[p]).0 == Action::Exit && 0 <= k
            < edges[t.stack[p].1 as int].len() implies dep_pending(
        t,
        p,
        #[trigger] edges[t.stack[p].1 as int][k],
    ) by {
        let d = edges[t.stack[p].1 as int][k];
        assert(s.stack[p].0 == Action::Exit);
        assert(dep_pending(s, p, edges[s.stack[p].1 as int][k]));
        if !s.entered[d as int] {
            let q = choose|q: int| p < q < s.stack.len() && #[trigger] s.stack[q] == (Action::Enter, d);
            assert(q != top);
            assert(t.stack[q] == (Action::Enter, d));
        }
    }
    assert forall|i: int, k: int|
        0 <= i < t.exits.len() && 0 <= k < edges[t.exits[i] as int].len() implies #[trigger] dep_settled(
        edges,
        t.exits,
        i,
        edges[t.exits[i] as int][k],
    ) by {
        assert(dep_settled(edges, s.exits, i, edges[s.exits[i] as int][k]));
    }
    assert forall|r: int| 0 <= r < seeds.len() implies seed_pending(t, #[trigger] seeds[r]) by {
        let x = seeds[r];
        assert(seed_pending(s, x));
        if !s.entered[x as int] {
            let q = choose|q: int| 0 <= q < s.stack.len() && #[trigger] s.stack[q] == (Action::Enter, x);
            assert(q != top);
            assert(t.stack[q] == (Action::Enter, x));
        }
    }
}

proof fn lemma_step_exit(
    s: Sweep,
    edges: Seq<Seq<usize>>,
    dynamic_edges: Seq<Seq<usize>>,
    seeds: Seq<usize>,
)
    requires
        s.stack.len() > 0,
        s.stack.last().0 == Action::Exit,
        ordered(s, edges, seeds),
        edges_wf(edges),
        edges_wf(dynamic_edges),
        edges.len() == dynamic_edges.len(),
    ensures
        ordered(s.step(edges, dynamic_edges), edges, seeds),
{
    let t = s.step(edges, dynamic_edges);
    lemma_step_bounded(s, edges, dynamic_edges);
    let x = s.stack.last().1;
    let top = s.stack.len() - 1;
    let m = s.exits.len() as int;
    assert(s.stack[top] == (Action::Exit, x));
    assert(s.stack[top].0 == Action::Exit);
    assert(!s.exits.contains(x));
    assert(t.exits == s.exits.push(x));
    assert forall|p: int| 0 <= p < top implies #[trigger] t.stack[p] == s.stack[p] by {}
    assert(t.exits.no_duplicates()) by {
        assert forall|i: int, j: int| 0 <= i < t.exits.len() && 0 <= j < t.exits.len() && i != j implies t.exits[i] != t.exits[j] by {
            if i < m && j < m {
            } else if i < m {
                assert(s.exits[i] != x);
            } else {
                assert(s.exits[j] != x);
            }
        }
    }
    assert forall|k: int| 0 <= k < t.exits.len() implies t.entered[(#[trigger] t.exits[k]) as int] by {
        if k < m {
            assert(t.exits[k] == s.exits[k]);
        }
    }
    assert forall|p: int|
        0 <= p < t.stack.len() && (#[trigger] t.stack[p]).0 == Action::Exit implies t.entered[t.stack[p].1 as int]
        && !t.exits.contains(t.stack[p].1) by {
        assert(s.stack[p].0 == Action::Exit);
        assert(s.stack[p].1 != s.stack[top].1);
        let z = t.stack[p].1;
        if t.exits.contains(z) {
            let k = choose|k: int| 0 <= k < t.exits.len() && t.exits[k] == z;
            if k < m {
                assert(s.exits[k] == z);
            }
        }
    }
    assert forall|p: int, q: int|
        0 <= p < q < t.stack.len() && (#[trigger] t.stack[p]).0 == Action::Exit && (
        #[trigger] t.stack[q]).0 == Action::Exit implies t.stack[p].1 != t.stack[q].1 by {
        assert(s.stack[p].0 == Action::Exit && s.stack[q].0 == Action::Exit);
    }
    assert forall|z: usize| z < edges.len() && #[trigger] t.entered[z as int] implies t.exits.contains(
        z,
    ) || exit_on_stack(t, z) by {
        if z == x {
            assert(t.exits[m] == x);
        } else if s.exits.contains(z) {
            let k = choose|k: int| 0 <= k < s.exits.len() && s.exits[k] == z;
            assert(t.exits[k] == z);
        } else {
            let p = choose|p: int| 0 <= p < s.stack.len() && #[trigger] s.stack[p] == (Action::Exit, z);
            assert(p < top);
            assert(t.stack[p] == (Action::Exit, z));
        }
    }
    assert forall|p: int, q: int|
        0 <= p < q < t.stack.len() && (#[trigger] t.stack[p]).0 == Action::Exit implies reaches(
        edges,
        t.stack[p].1,
        (#[trigger] t.stack[q]).1,
    ) by {
        assert(s.stack[p].0 == Action::Exit);
        assert(reaches(edges, s.stack[p].1, s.stack[q].1));
    }
    assert forall|p: int, k: int|
        0 <= p < t.stack.len() && (#[trigger] t.stack[p]).0 == Action::Exit && 0 <= k
            < edges[t.stack[p].1 as int].len() implies dep_pending(
        t,
        p,
        #[trigger] edges[t.stack[p].1 as int][k],
    ) by {
        let d = edges[t.stack[p].1 as int][k];
        assert(s.stack[p].0 == Action::Exit);
        assert(dep_pending(s, p, edges[s.stack[p].1 as int][k]));
        if !s.entered[d as int] {
            let q = choose|q: int| p < q < s.stack.len() && #[trigger] s.stack[q] == (Action::Enter, d);
            assert(q != top);
            assert(t.stack[q] == (Action::Enter, d));
        }
    }
    // the dependencies of the module that is left
    assert forall|k: int| 0 <= k < edges[x as int].len() implies s.entered[(
    #[trigger] edges[x as int][k]) as int] by {
        let d = edges[x as int][k];
        assert(dep_pending(s, top, edges[s.stack[top].1 as int][k]));
    }
    assert forall|i: int, k: int|
        0 <= i < t.exits.len() && 0 <= k < edges[t.exits[i] as int].len() implies #[trigger] dep_settled(
        edges,
        t.exits,
        i,
        edges[t.exits[i] as int][k],
    ) by {
        let d = edges[t.exits[i] as int][k];
        if i < m {
            assert(t.exits[i] == s.exits[i]);
            assert(dep_settled(edges, s.exits, i, edges[s.exits[i] as int][k]));
            if exists|j: int| 0 <= j < i && #[trigger] s.exits[j] == d {
                let j = choose|j: int| 0 <= j < i && #[trigger] s.exits[j] == d;
                assert(t.exits[j] == d);
            }
        } else {
            assert(t.exits[i] == x);
            assert(s.entered[edges[x as int][k] as int]);
            assert(d < edges.len());
            if s.exits.contains(d) {
                let j = choose|j: int| 0 <= j < s.exits.len() && s.exits[j] == d;
                assert(t.exits[j] == d);
            } else {
                assert(exit_on_stack(s, d));
                let p = choose|p: int| 0 <= p < s.stack.len() && #[trigger] s.stack[p] == (Action::Exit, d);
                if p == top {
                    lemma_reaches_self(edges, x);
                } else {
                    assert(s.stack[p].0 == Action::Exit);
                    assert(reaches(edges, s.stack[p].1, s.stack[top].1));
                }
            }
        }
    }
    assert forall|i: int, k: int|
        0 <= i < t.exits.len() && 0 <= k < edges[t.exits[i] as int].len() implies t.entered[(
    #[trigger] edges[(#[trigger] t.exits[i]) as int][k]) as int] by {
        if i < m {
            assert(t.exits[i] == s.exits[i]);
        }
    }
    assert forall|r: int| 0 <= r < seeds.len() implies seed_pending(t, #[trigger] seeds[r]) by {
        let z = seeds[r];
        assert(seed_pending(s, z));
        if !s.entered[z as int] {
            let q = choose|q: int| 0 <= q < s.stack.len() && #[trigger] s.stack[q] == (Action::Enter, z);
            assert(q != top);
            assert(t.stack[q] == (Action::Enter, z));
        }
    }
}

/// What holds of a sweep before a step holds after it.
pub proof fn lemma_step_ordered(
    s: Sweep,
    edges: Seq<Seq<usize>>,
    dynamic_edges: Seq<Seq<usize>>,
    seeds: Seq<usize>,
)
    requires
        s.stack.len() > 0,
        ordered(s, edges, seeds),
        edges_wf(edges),
        edges_wf(dynamic_edges),
        edges.len() == dynamic_edges.len(),
    ensures
        ordered(s.step(edges, dynamic_edges), edges, seeds),
{
    if s.enters_new() {
        lemma_step_enter_new(s, edges, dynamic_edges, seeds);
    } else if s.stack.last().0 == Action::Enter {
        lemma_step_enter_again(s, edges, dynamic_edges, seeds);
    } else {
        lemma_step_exit(s, edges, dynamic_edges, seeds);
    }
}

/// What holds of a sweep at its start holds when its stack has run empty.
pub proof fn lemma_run_ordered(
    s: Sweep,
    edges: Seq<Seq<usize>>,
    dynamic_edges: Seq<Seq<usize>>,
    seeds: Seq<usize>,
)
    requires
        ordered(s, edges, seeds),
        edges_wf(edges),
        edges_wf(dynamic_edges),
        edges.len() == dynamic_edges.len(),
    ensures
        ordered(s.run(edges, dynamic_edges), edges, seeds),
        s.run(edges, dynamic_edges).stack.len() == 0,
    decreases count_unentered(s.entered), s.stack.len(),
{
    if s.stack.len() > 0 {
        lemma_step_ordered(s, edges, dynamic_edges, seeds);
        if s.enters_new() {
            lemma_count_unentered_update(s.entered, s.stack.last().1 as int);
        }
        lemma_run_ordered(s.step(edges, dynamic_edges), edges, dynamic_edges, seeds);
    }
}

/// What holds of a sweep between two rounds: it is in order, its stack is empty, and every
/// dynamic import of every module that was entered is noted.
pub open spec fn rested(s: Sweep, edges: Seq<Seq<usize>>, dynamic_edges: Seq<Seq<usize>>, seeds: Seq<usize>) -> bool {
    &&& ordered(s, edges, seeds)
    &&& s.stack.len() == 0
    &&& collected(s, dynamic_edges)
}

/// A sweep that has come to rest is in order again when the dynamic imports that it has
/// noted are put on its stack.
proof fn lemma_again_ordered(s: Sweep, edges: Seq<Seq<usize>>, seeds: Seq<usize>)
    requires
        ordered(s, edges, seeds),
        s.stack.len() == 0,
    ensures
        ordered(Sweep { stack: enters_reversed(s.dynamic), ..s }, edges, seeds),
        ordered(Sweep { stack: enters_reversed(s.dynamic), ..s }, edges, s.dynamic),
{
    let again = Sweep { stack: enters_reversed(s.dynamic), ..s };
    assert forall|p: int| 0 <= p < again.stack.len() implies (#[trigger] again.stack[p]).1 < edges.len()
        && again.stack[p].0 == Action::Enter by {
        assert(again.stack[p] == enters_reversed(s.dynamic)[p]);
    }
    assert forall|y: usize| y < edges.len() && #[trigger] again.entered[y as int] implies again.exits.contains(
        y,
    ) || exit_on_stack(again, y) by {
        assert(s.entered[y as int]);
        assert(!exit_on_stack(s, y));
    }
    assert forall|i: int, k: int|
        0 <= i < again.exits.len() && 0 <= k < edges[again.exits[i] as int].len() implies #[trigger] dep_settled(
        edges,
        again.exits,
        i,
        edges[again.exits[i] as int][k],
    ) by {
        assert(dep_settled(edges, s.exits, i, edges[s.exits[i] as int][k]));
    }
    assert forall|r: int| 0 <= r < seeds.len() implies seed_pending(again, #[trigger] seeds[r]) by {
        assert(seed_pending(s, seeds[r]));
    }
    assert forall|q: int| 0 <= q < s.dynamic.len() implies seed_pending(again, #[trigger] s.dynamic[q]) by {
        let p = s.dynamic.len() - 1 - q;
        assert(again.stack[p] == (Action::Enter, s.dynamic[q]));
    }
}

/// The sweep from the roots comes to rest.
pub proof fn lemma_first_sweep_rested(
    edges: Seq<Seq<usize>>,
    dynamic_edges: Seq<Seq<usize>>,
    roots: Seq<usize>,
)
    requires
        edges_wf(edges),
        edges_wf(dynamic_edges),
        edges.len() == dynamic_edges.len(),
        forall|p: int| 0 <= p < roots.len() ==> (#[trigger] roots[p]) < edges.len(),
    ensures
        rested(first_sweep(edges, dynamic_edges, roots), edges, dynamic_edges, roots),
{
    let start = Sweep {
        stack: enters_reversed(roots),
        entered: Seq::new(edges.len(), |i: int| false),
        dynamic: Seq::empty(),
        exits: Seq::empty(),
    };
    assert(ordered(start, edges, roots)) by {
        assert forall|r: int| 0 <= r < roots.len() implies seed_pending(start, #[trigger] roots[r]) by {
            let q = roots.len() - 1 - r;
            assert(start.stack[q] == (Action::Enter, roots[r]));
        }
    }
    lemma_run_ordered(start, edges, dynamic_edges, roots);
    assert(collected(start, dynamic_edges));
    lemma_run_keeps(start, edges, dynamic_edges);
}

/// A round brings a sweep at rest to rest again. It enters every dynamic import that was
/// noted before it; where one of them was not entered, fewer modules are unentered after
/// the round.
pub proof fn lemma_round_rested(
    s: Sweep,
    edges: Seq<Seq<usize>>,
    dynamic_edges: Seq<Seq<usize>>,
    seeds: Seq<usize>,
)
    requires
        rested(s, edges, dynamic_edges, seeds),
        edges_wf(edges),
        edges_wf(dynamic_edges),
        edges.len() == dynamic_edges.len(),
    ensures
        rested(s.round(edges, dynamic_edges), edges, dynamic_edges, seeds),
        entered_kept(s, s.round(edges, dynamic_edges)),
        forall|k: int|
            0 <= k < s.dynamic.len() ==> s.round(edges, dynamic_edges).entered[(#[trigger] s.dynamic[k]) as int],
        !s.settled() ==> count_unentered(s.round(edges, dynamic_edges).entered) < count_unentered(
            s.entered,
        ),
{
    let again = Sweep { stack: enters_reversed(s.dynamic), ..s };
    lemma_again_ordered(s, edges, seeds);
    lemma_run_ordered(again, edges, dynamic_edges, seeds);
    lemma_run_ordered(again, edges, dynamic_edges, s.dynamic);
    assert(collected(again, dynamic_edges));
    lemma_run_keeps(again, edges, dynamic_edges);
    let last = again.run(edges, dynamic_edges);
    assert(last == s.round(edges, dynamic_edges));
    assert forall|k: int| 0 <= k < s.dynamic.len() implies last.entered[(#[trigger] s.dynamic[k]) as int] by {
        assert(seed_pending(last, s.dynamic[k]));
    }
    assert(entered_kept(s, last));
    if !s.settled() {
        let k = choose|k: int|
            0 <= k < s.dynamic.len() && !((#[trigger] s.dynamic[k]) < s.entered.len()
                && s.entered[s.dynamic[k] as int]);
        assert(s.dynamic[k] < edges.len());
        assert(last.entered[s.dynamic[k] as int]);
        assert forall|i: int| 0 <= i < s.entered.len() && s.entered[i] implies last.entered[i] by {}
        lemma_count_unentered_less(s.entered, last.entered, s.dynamic[k] as int);
    }
}

/// Rounds bring a sweep at rest to rest again.
pub proof fn lemma_follow_rested(
    s: Sweep,
    edges: Seq<Seq<usize>>,
    dynamic_edges: Seq<Seq<usize>>,
    seeds: Seq<usize>,
    rounds: nat,
)
    requires
        rested(s, edges, dynamic_edges, seeds),
        edges_wf(edges),
        edges_wf(dynamic_edges),
        edges.len() == dynamic_edges.len(),
    ensures
        rested(s.follow(edges, dynamic_edges, rounds), edges, dynamic_edges, seeds),
    decreases rounds,
{
    if rounds > 0 {
        lemma_round_rested(s, edges, dynamic_edges, seeds);
        lemma_follow_rested(s.round(edges, dynamic_edges), edges, dynamic_edges, seeds, (rounds - 1) as nat);
    }
}

/// After as many rounds as modules are unentered, every dynamic import noted is entered.
pub proof fn lemma_follow_settles(
    s: Sweep,
    edges: Seq<Seq<usize>>,
    dynamic_edges: Seq<Seq<usize>>,
    seeds: Seq<usize>,
    rounds: nat,
)
    requires
        rested(s, edges, dynamic_edges, seeds),
        edges_wf(edges),
        edges_wf(dynamic_edges),
        edges.len() == dynamic_edges.len(),
        rounds >= count_unentered(s.entered),
    ensures
        s.follow(edges, dynamic_edges, rounds).settled(),
    decreases rounds,
{
    if s.settled() {
        lemma_follow_settled(s, edges, dynamic_edges, rounds);
    } else {
        lemma_round_rested(s, edges, dynamic_edges, seeds);
        lemma_follow_settles(s.round(edges, dynamic_edges), edges, dynamic_edges, seeds, (rounds - 1) as nat);
    }
}

/// The sweep whose order of leaving is the post-order is at rest, and every dynamic import
/// that it has noted is entered.
pub proof fn lemma_post_order_rested(
    edges: Seq<Seq<usize>>,
    dynamic_edges: Seq<Seq<usize>>,
    roots: Seq<usize>,
)
    requires
        edges_wf(edges),
        edges_wf(dynamic_edges),
        edges.len() == dynamic_edges.len(),
        forall|p: int| 0 <= p < roots.len() ==> (#[trigger] roots[p]) < edges.len(),
    ensures
        rested(
            first_sweep(edges, dynamic_edges, roots).follow(edges, dynamic_edges, edges.len()),
            edges,
            dynamic_edges,
            roots,
        ),
        first_sweep(edges, dynamic_edges, roots).follow(edges, dynamic_edges, edges.len()).settled(),
{
    let first = first_sweep(edges, dynamic_edges, roots);
    lemma_first_sweep_rested(edges, dynamic_edges, roots);
    lemma_follow_rested(first, edges, dynamic_edges, roots, edges.len());
    lemma_count_unentered_bound(first.entered);
    lemma_follow_settles(first, edges, dynamic_edges, roots, edges.len());
}

/// The order of leaving is a valid execution order.
///
/// No module is left twice. Every root is left, and with a module each of its static
/// dependencies. A static dependency of a module is left before the module, unless the
/// module can be reached from it, so that the two lie on a cycle.
pub proof fn lemma_post_order_valid(
    edges: Seq<Seq<usize>>,
    dynamic_edges: Seq<Seq<usize>>,
    roots: Seq<usize>,
)
    requires
        edges_wf(edges),
        edges_wf(dynamic_edges),
        edges.len() == dynamic_edges.len(),
        forall|p: int| 0 <= p < roots.len() ==> (#[trigger] roots[p]) < edges.len(),
    ensures
        ({
            let exits = post_order(edges, dynamic_edges, roots);
            &&& exits.no_duplicates()
            &&& forall|i: int| 0 <= i < exits.len() ==> (#[trigger] exits[i]) < edges.len()
            &&& forall|r: int| 0 <= r < roots.len() ==> exits.contains(#[trigger] roots[r])
            &&& forall|i: int, k: int|
                0 <= i < exits.len() && 0 <= k < edges[exits[i] as int].len() ==> exits.contains(
                    #[trigger] edges[(#[trigger] exits[i]) as int][k],
                )
            &&& forall|i: int, k: int|
                0 <= i < exits.len() && 0 <= k < edges[exits[i] as int].len()
                    ==> #[trigger] dep_settled(edges, exits, i, edges[exits[i] as int][k])
        }),
{
    lemma_post_order_rested(edges, dynamic_edges, roots);
    let last = first_sweep(edges, dynamic_edges, roots).follow(edges, dynamic_edges, edges.len());
    let exits = post_order(edges, dynamic_edges, roots);
    assert(exits == last.exits);
    assert forall|r: int| 0 <= r < roots.len() implies exits.contains(#[trigger] roots[r]) by {
        assert(seed_pending(last, roots[r]));
        assert(last.entered[roots[r] as int]);
        assert(!exit_on_stack(last, roots[r]));
    }
    assert forall|i: int, k: int|
        0 <= i < exits.len() && 0 <= k < edges[exits[i] as int].len() implies exits.contains(
        #[trigger] edges[(#[trigger] exits[i]) as int][k],
    ) by {
        let d = edges[exits[i] as int][k];
        assert(last.entered[d as int]);
        assert(!exit_on_stack(last, d));
    }
}

/// Every dynamic import of every module that was entered is noted.
pub open spec fn collected(s: Sweep, dynamic_edges: Seq<Seq<usize>>) -> bool {
    forall|x: int, k: int|
        0 <= x < s.entered.len() && s.entered[x] && 0 <= k < dynamic_edges[x].len()
            ==> s.dynamic.contains(#[trigger] dynamic_edges[x][k])
}

/// Every module that was entered before is entered.
pub open spec fn entered_kept(s: Sweep, t: Sweep) -> bool {
    s.entered.len() == t.entered.len() && forall|x: int|
        0 <= x < s.entered.len() && s.entered[x] ==> #[trigger] t.entered[x]
}

proof fn lemma_step_keeps(s: Sweep, edges: Seq<Seq<usize>>, dynamic_edges: Seq<Seq<usize>>)
    requires
        s.stack.len() > 0,
        s.bounded(edges.len()),
        edges_wf(edges),
        edges_wf(dynamic_edges),
        edges.len() == dynamic_edges.len(),
    ensures
        entered_kept(s, s.step(edges, dynamic_edges)),
        collected(s, dynamic_edges) ==> collected(
            s.step(edges, dynamic_edges),
            dynamic_edges,
        ),
{
    let t = s.step(edges, dynamic_edges);
    if collected(s, dynamic_edges) {
        assert forall|x: int, k: int|
            0 <= x < t.entered.len() && t.entered[x] && 0 <= k < dynamic_edges[x].len() implies t.dynamic.contains(
            #[trigger] dynamic_edges[x][k],
        ) by {
            let d = dynamic_edges[x][k];
            if s.enters_new() {
                let y = s.stack.last().1 as int;
                crate::table::lemma_insert_all_members(s.dynamic, dynamic_edges[y], d);
                if x == y {
                    assert(dynamic_edges[y].contains(d));
                } else {
                    assert(s.entered[x]);
                    assert(s.dynamic.contains(dynamic_edges[x][k]));
                }
            } else {
                assert(s.dynamic.contains(dynamic_edges[x][k]));
            }
        }
    }
}

/// A sweep forgets no module that it entered and no dynamic import
/// of such a module.
pub proof fn lemma_run_keeps(s: Sweep, edges: Seq<Seq<usize>>, dynamic_edges: Seq<Seq<usize>>)
    requires
        s.bounded(edges.len()),
        edges_wf(edges),
        edges_wf(dynamic_edges),
        edges.len() == dynamic_edges.len(),
    ensures
        entered_kept(s, s.run(edges, dynamic_edges)),
        collected(s, dynamic_edges) ==> collected(
            s.run(edges, dynamic_edges),
            dynamic_edges,
        ),
    decreases count_unentered(s.entered), s.stack.len(),
{
    if s.stack.len() > 0 {
        lemma_step_keeps(s, edges, dynamic_edges);
        lemma_step_bounded(s, edges, dynamic_edges);
        if s.enters_new() {
            lemma_count_unentered_update(s.entered, s.stack.last().1 as int);
        }
        let t = s.step(edges, dynamic_edges);
        lemma_run_keeps(t, edges, dynamic_edges);
        let r = t.run(edges, dynamic_edges);
        assert forall|x: int| 0 <= x < s.entered.len() && s.entered[x] implies #[trigger] r.entered[x] by {
            assert(t.entered[x]);
        }
    }
}

/// A walk that starts at a module that was left, among modules that are left with all
/// their static dependencies, ends at a module that was left.
pub proof fn lemma_path_in_exits(edges: Seq<Seq<usize>>, exits: Seq<usize>, p: Seq<usize>)
    requires
        is_path(edges, p),
        exits.contains(p.first()),
        forall|i: int, k: int|
            0 <= i < exits.len() && 0 <= k < edges[exits[i] as int].len() ==> exits.contains(
                #[trigger] edges[(#[trigger] exits[i]) as int][k],
            ),
    ensures
        exits.contains(p.last()),
    decreases p.len(),
{
    if p.len() > 1 {
        let q = p.drop_last();
        assert(is_path(edges, q)) by {
            assert forall|k: int| 0 <= k < q.len() implies (#[trigger] q[k]) < edges.len() by {
                assert(q[k] == p[k]);
            }
            assert forall|k: int| 0 <= k < q.len() - 1 implies edges[q[k] as int].contains(
                #[trigger] q[k + 1],
            ) by {
                assert(q[k] == p[k]);
                assert(q[k + 1] == p[k + 1]);
            }
        }
        assert(q.first() == p.first());
        lemma_path_in_exits(edges, exits, q);
        let from = q.last();
        assert(from == p[p.len() - 2]);
        assert(edges[p[p.len() - 2] as int].contains(p[p.len() - 2 + 1]));
        let to = p.last();
        let i = choose|i: int| 0 <= i < exits.len() && exits[i] == from;
        let k = choose|k: int| 0 <= k < edges[from as int].len() && edges[from as int][k] == to;
        assert(exits.contains(edges[exits[i] as int][k]));
    }
}

/// The static and the dynamic dependencies of each module, taken together.
pub open spec fn all_edges(edges: Seq<Seq<usize>>, dynamic_edges: Seq<Seq<usize>>) -> Seq<Seq<usize>> {
    Seq::new(edges.len(), |i: int| edges[i] + dynamic_edges[i])
}

/// Every module that can be reached from a root along dependencies, static or dynamic, is
/// left.
pub proof fn lemma_post_order_reaches(
    edges: Seq<Seq<usize>>,
    dynamic_edges: Seq<Seq<usize>>,
    roots: Seq<usize>,
    r: int,
    x: usize,
)
    requires
        edges_wf(edges),
        edges_wf(dynamic_edges),
        edges.len() == dynamic_edges.len(),
        forall|p: int| 0 <= p < roots.len() ==> (#[trigger] roots[p]) < edges.len(),
        0 <= r < roots.len(),
        reaches(all_edges(edges, dynamic_edges), roots[r], x),
    ensures
        post_order(edges, dynamic_edges, roots).contains(x),
{
    lemma_post_order_rested(edges, dynamic_edges, roots);
    lemma_post_order_valid(edges, dynamic_edges, roots);
    let last = first_sweep(edges, dynamic_edges, roots).follow(edges, dynamic_edges, edges.len());
    let exits = post_order(edges, dynamic_edges, roots);
    let all = all_edges(edges, dynamic_edges);
    assert(exits == last.exits);
    assert forall|i: int, k: int|
        0 <= i < exits.len() && 0 <= k < all[exits[i] as int].len() implies exits.contains(
        #[trigger] all[(#[trigger] exits[i]) as int][k],
    ) by {
        let m = exits[i] as int;
        let d = all[m][k];
        assert(last.entered[m]);
        if k < edges[m].len() {
            assert(d == edges[m][k]);
            assert(exits.contains(edges[exits[i] as int][k]));
        } else {
            let j = k - edges[m].len();
            assert(d == dynamic_edges[m][j]);
            assert(last.dynamic.contains(dynamic_edges[m][j]));
            let q = choose|q: int| 0 <= q < last.dynamic.len() && last.dynamic[q] == d;
            assert(last.entered[last.dynamic[q] as int]);
            assert(!exit_on_stack(last, d));
        }
    }
    let path = choose|p: Seq<usize>| #[trigger] is_path(all, p) && p.first() == roots[r] && p.last() == x;
    lemma_path_in_exits(all, exits, path);
}

/// `pi` gives each of `n` modules another position, no two the same.
pub open spec fn is_renaming(pi: Seq<usize>, n: nat) -> bool {
    &&& pi.len() == n
    &&& forall|i: int| 0 <= i < n ==> (#[trigger] pi[i]) < n
    &&& forall|i: int, j: int| 0 <= i < j < n ==> (#[trigger] pi[i]) != (#[trigger] pi[j])
}

/// The positions `s` after the renaming `pi`.
pub open spec fn rename(pi: Seq<usize>, s: Seq<usize>) -> Seq<usize> {
    Seq::new(s.len(), |k: int| pi[s[k] as int])
}

/// `edges2` are the edges `edges` after the renaming `pi`.
pub open spec fn renamed_edges(pi: Seq<usize>, edges: Seq<Seq<usize>>, edges2: Seq<Seq<usize>>) -> bool {
    edges2.len() == edges.len() && forall|i: int|
        0 <= i < edges.len() ==> #[trigger] edges2[pi[i] as int] == rename(pi, edges[i])
}

/// `t` is the sweep `s` after the renaming `pi`.
pub open spec fn renamed(pi: Seq<usize>, s: Sweep, t: Sweep) -> bool {
    &&& t.stack == Seq::new(s.stack.len(), |k: int| (s.stack[k].0, pi[s.stack[k].1 as int]))
    &&& t.entered.len() == s.entered.len()
    &&& forall|i: int| 0 <= i < s.entered.len() ==> #[trigger] t.entered[pi[i] as int] == s.entered[i]
    &&& t.dynamic == rename(pi, s.dynamic)
    &&& t.exits == rename(pi, s.exits)
}

proof fn lemma_rename_contains(pi: Seq<usize>, n: nat, s: Seq<usize>, x: usize)
    requires
        is_renaming(pi, n),
        forall|k: int| 0 <= k < s.len() ==> (#[trigger] s[k]) < n,
        x < n,
    ensures
        rename(pi, s).contains(pi[x as int]) == s.contains(x),
{
    let r = rename(pi, s);
    if s.contains(x) {
        let k = choose|k: int| 0 <= k < s.len() && s[k] == x;
        assert(r[k] == pi[x as int]);
    }
    if r.contains(pi[x as int]) {
        let k = choose|k: int| 0 <= k < r.len() && r[k] == pi[x as int];
        assert(r[k] == pi[s[k] as int]);
        assert(s[k] < n);
        if s[k] != x {
            if (s[k] as int) < (x as int) {
                assert(pi[s[k] as int] != pi[x as int]);
            } else {
                assert(pi[x as int] != pi[s[k] as int]);
            }
        }
        assert(s[k] == x);
    }
}

proof fn lemma_rename_insert_all(pi: Seq<usize>, n: nat, set: Seq<usize>, items: Seq<usize>)
    requires
        is_renaming(pi, n),
        forall|k: int| 0 <= k < set.len() ==> (#[trigger] set[k]) < n,
        forall|k: int| 0 <= k < items.len() ==> (#[trigger] items[k]) < n,
    ensures
        rename(pi, crate::table::insert_all(set, items)) == crate::table::insert_all(
            rename(pi, set),
            rename(pi, items),
        ),
    decreases items.len(),
{
    if items.len() == 0 {
        assert(rename(pi, items).len() == 0);
    } else {
        let shorter = items.drop_last();
        let x = items.last();
        lemma_rename_insert_all(pi, n, set, shorter);
        crate::graph::order::lemma_insert_all_bounded(set, shorter, n);
        let prev = crate::table::insert_all(set, shorter);
        assert(x == items[items.len() - 1]);
        lemma_rename_contains(pi, n, prev, x);
        assert(rename(pi, items).drop_last() =~= rename(pi, shorter));
        assert(rename(pi, items).last() == pi[x as int]);
        if prev.contains(x) {
        } else {
            assert(rename(pi, prev.push(x)) =~= rename(pi, prev).push(pi[x as int]));
        }
    }
}

proof fn lemma_step_renamed(
    pi: Seq<usize>,
    s: Sweep,
    t: Sweep,
    edges: Seq<Seq<usize>>,
    dynamic_edges: Seq<Seq<usize>>,
    edges2: Seq<Seq<usize>>,
    dynamic_edges2: Seq<Seq<usize>>,
)
    requires
        s.stack.len() > 0,
        is_renaming(pi, edges.len()),
        s.bounded(edges.len()),
        edges_wf(edges),
        edges_wf(dynamic_edges),
        edges.len() == dynamic_edges.len(),
        renamed_edges(pi, edges, edges2),
        renamed_edges(pi, dynamic_edges, dynamic_edges2),
        renamed(pi, s, t),
    ensures
        renamed(
            pi,
            s.step(edges, dynamic_edges),
            t.step(edges2, dynamic_edges2),
        ),
{
    let n = edges.len();
    let id = s.stack.last().1;
    let top = s.stack.len() - 1;
    assert(s.stack[top].1 < n);
    assert(t.stack.last() == (s.stack.last().0, pi[id as int]));
    assert(t.entered[pi[id as int] as int] == s.entered[id as int]);
    let s1 = s.step(edges, dynamic_edges);
    let t1 = t.step(edges2, dynamic_edges2);
    assert(t.stack.drop_last() =~= Seq::new(
        s.stack.drop_last().len(),
        |k: int| (s.stack.drop_last()[k].0, pi[s.stack.drop_last()[k].1 as int]),
    ));
    if s.enters_new() {
        assert(t.enters_new());
        let deps = edges[id as int];
        assert(edges2[pi[id as int] as int] == rename(pi, deps));
        assert(t1.stack =~= Seq::new(s1.stack.len(), |k: int| (s1.stack[k].0, pi[s1.stack[k].1 as int])))
            by {
            assert(t1.stack.len() == s1.stack.len());
            assert forall|k: int| 0 <= k < s1.stack.len() implies t1.stack[k] == (
                s1.stack[k].0,
                pi[s1.stack[k].1 as int],
            ) by {
                if k < top {
                    assert(s1.stack[k] == s.stack[k]);
                    assert(t1.stack[k] == t.stack[k]);
                } else if k == top {
                } else {
                    let w = k - top - 1;
                    assert(s1.stack[k] == enters_reversed(deps)[w]);
                    assert(t1.stack[k] == enters_reversed(rename(pi, deps))[w]);
                }
            }
        }
        assert forall|i: int| 0 <= i < s1.entered.len() implies #[trigger] t1.entered[pi[i] as int]
            == s1.entered[i] by {
            if i != id as int {
                if i < id as int {
                    assert(pi[i] != pi[id as int]);
                } else {
                    assert(pi[id as int] != pi[i]);
                }
                assert(t.entered[pi[i] as int] == s.entered[i]);
            }
        }
        assert(dynamic_edges2[pi[id as int] as int] == rename(pi, dynamic_edges[id as int]));
        lemma_rename_insert_all(pi, n, s.dynamic, dynamic_edges[id as int]);
    } else if s.stack.last().0 == Action::Enter {
        assert(!t.enters_new());
        assert forall|i: int| 0 <= i < s1.entered.len() implies #[trigger] t1.entered[pi[i] as int]
            == s1.entered[i] by {
            assert(t.entered[pi[i] as int] == s.entered[i]);
        }
    } else {
        assert(!t.enters_new());
        assert(t1.exits =~= rename(pi, s1.exits));
        assert forall|i: int| 0 <= i < s1.entered.len() implies #[trigger] t1.entered[pi[i] as int]
            == s1.entered[i] by {
            assert(t.entered[pi[i] as int] == s.entered[i]);
        }
    }
}

/// A sweep over renamed modules is the renamed sweep.
pub proof fn lemma_run_renamed(
    pi: Seq<usize>,
    s: Sweep,
    t: Sweep,
    edges: Seq<Seq<usize>>,
    dynamic_edges: Seq<Seq<usize>>,
    edges2: Seq<Seq<usize>>,
    dynamic_edges2: Seq<Seq<usize>>,
)
    requires
        is_renaming(pi, edges.len()),
        s.bounded(edges.len()),
        edges_wf(edges),
        edges_wf(dynamic_edges),
        edges.len() == dynamic_edges.len(),
        renamed_edges(pi, edges, edges2),
        renamed_edges(pi, dynamic_edges, dynamic_edges2),
        renamed(pi, s, t),
    ensures
        renamed(
            pi,
            s.run(edges, dynamic_edges),
            t.run(edges2, dynamic_edges2),
        ),
        s.run(edges, dynamic_edges).bounded(edges.len()),
    decreases count_unentered(s.entered), s.stack.len(),
{
    if s.stack.len() > 0 {
        assert(t.stack.len() > 0);
        lemma_step_renamed(pi, s, t, edges, dynamic_edges, edges2, dynamic_edges2);
        lemma_step_bounded(s, edges, dynamic_edges);
        if s.enters_new() {
            lemma_count_unentered_update(s.entered, s.stack.last().1 as int);
        }
        lemma_run_renamed(
            pi,
            s.step(edges, dynamic_edges),
            t.step(edges2, dynamic_edges2),
            edges,
            dynamic_edges,
            edges2,
            dynamic_edges2,
        );
    } else {
        assert(t.stack.len() == 0);
    }
}

proof fn lemma_round_renamed(
    pi: Seq<usize>,
    s: Sweep,
    t: Sweep,
    edges: Seq<Seq<usize>>,
    dynamic_edges: Seq<Seq<usize>>,
    edges2: Seq<Seq<usize>>,
    dynamic_edges2: Seq<Seq<usize>>,
)
    requires
        is_renaming(pi, edges.len()),
        s.bounded(edges.len()),
        edges_wf(edges),
        edges_wf(dynamic_edges),
        edges.len() == dynamic_edges.len(),
        renamed_edges(pi, edges, edges2),
        renamed_edges(pi, dynamic_edges, dynamic_edges2),
        renamed(pi, s, t),
    ensures
        renamed(pi, s.round(edges, dynamic_edges), t.round(edges2, dynamic_edges2)),
        s.round(edges, dynamic_edges).bounded(edges.len()),
{
    let s2 = Sweep { stack: enters_reversed(s.dynamic), ..s };
    let t2 = Sweep { stack: enters_reversed(t.dynamic), ..t };
    assert(renamed(pi, s2, t2)) by {
        assert(t2.stack =~= Seq::new(s2.stack.len(), |k: int| (s2.stack[k].0, pi[s2.stack[k].1 as int])));
    }
    assert(s2.bounded(edges.len())) by {
        assert forall|p: int| 0 <= p < s2.stack.len() implies (#[trigger] s2.stack[p]).1 < edges.len() by {
            assert(s2.stack[p] == enters_reversed(s.dynamic)[p]);
        }
    }
    lemma_run_renamed(pi, s2, t2, edges, dynamic_edges, edges2, dynamic_edges2);
}

proof fn lemma_follow_renamed(
    pi: Seq<usize>,
    s: Sweep,
    t: Sweep,
    edges: Seq<Seq<usize>>,
    dynamic_edges: Seq<Seq<usize>>,
    edges2: Seq<Seq<usize>>,
    dynamic_edges2: Seq<Seq<usize>>,
    rounds: nat,
)
    requires
        is_renaming(pi, edges.len()),
        s.bounded(edges.len()),
        edges_wf(edges),
        edges_wf(dynamic_edges),
        edges.len() == dynamic_edges.len(),
        renamed_edges(pi, edges, edges2),
        renamed_edges(pi, dynamic_edges, dynamic_edges2),
        renamed(pi, s, t),
    ensures
        renamed(
            pi,
            s.follow(edges, dynamic_edges, rounds),
            t.follow(edges2, dynamic_edges2, rounds),
        ),
    decreases rounds,
{
    if rounds > 0 {
        lemma_round_renamed(pi, s, t, edges, dynamic_edges, edges2, dynamic_edges2);
        lemma_follow_renamed(
            pi,
            s.round(edges, dynamic_edges),
            t.round(edges2, dynamic_edges2),
            edges,
            dynamic_edges,
            edges2,
            dynamic_edges2,
            (rounds - 1) as nat,
        );
    }
}

/// The order of leaving does not depend on the positions of the modules: over renamed
/// modules it is the renamed order.
pub proof fn lemma_post_order_renamed(
    pi: Seq<usize>,
    edges: Seq<Seq<usize>>,
    dynamic_edges: Seq<Seq<usize>>,
    roots: Seq<usize>,
    edges2: Seq<Seq<usize>>,
    dynamic_edges2: Seq<Seq<usize>>,
)
    requires
        is_renaming(pi, edges.len()),
        edges_wf(edges),
        edges_wf(dynamic_edges),
        edges.len() == dynamic_edges.len(),
        forall|p: int| 0 <= p < roots.len() ==> (#[trigger] roots[p]) < edges.len(),
        renamed_edges(pi, edges, edges2),
        renamed_edges(pi, dynamic_edges, dynamic_edges2),
    ensures
        post_order(edges2, dynamic_edges2, rename(pi, roots)) == rename(
            pi,
            post_order(edges, dynamic_edges, roots),
        ),
{
    let n = edges.len();
    let s0 = Sweep {
        stack: enters_reversed(roots),
        entered: Seq::new(n, |i: int| false),
        dynamic: Seq::empty(),
        exits: Seq::empty(),
    };
    let t0 = Sweep {
        stack: enters_reversed(rename(pi, roots)),
        entered: Seq::new(edges2.len(), |i: int| false),
        dynamic: Seq::empty(),
        exits: Seq::empty(),
    };
    assert(renamed(pi, s0, t0)) by {
        assert(t0.stack =~= Seq::new(s0.stack.len(), |k: int| (s0.stack[k].0, pi[s0.stack[k].1 as int])));
        assert(t0.dynamic =~= rename(pi, s0.dynamic));
        assert(t0.exits =~= rename(pi, s0.exits));
    }
    assert(s0.bounded(n)) by {
        assert forall|p: int| 0 <= p < s0.stack.len() implies (#[trigger] s0.stack[p]).1 < n by {
            assert(s0.stack[p] == enters_reversed(roots)[p]);
        }
    }
    lemma_run_renamed(pi, s0, t0, edges, dynamic_edges, edges2, dynamic_edges2);
    let s1 = s0.run(edges, dynamic_edges);
    let t1 = t0.run(edges2, dynamic_edges2);
    assert(s1 == first_sweep(edges, dynamic_edges, roots));
    assert(t1 == first_sweep(edges2, dynamic_edges2, rename(pi, roots)));
    lemma_follow_renamed(pi, s1, t1, edges, dynamic_edges, edges2, dynamic_edges2, n);
}

} // verus!
