//! Disjoint sets of symbols.
//!
//! The linker declares that two symbols are one runtime value by joining their classes.
//! A partition is modelled as a map from each symbol it has seen to the leader of its class;
//! a symbol it has not seen is alone in its class.

use vstd::prelude::*;
use crate::ident::{Symbol, SymbolView};
use crate::table::{has_key, key_index, lemma_key_index_first, lemma_key_index_none, lemma_key_index_some, lookup};

verus! {

pub type Partition = Map<SymbolView, SymbolView>;

/// The leader of the class of `x`.
pub open spec fn leader_of(p: Partition, x: SymbolView) -> SymbolView {
    if p.dom().contains(x) {
        p[x]
    } else {
        x
    }
}

/// Whether `x` and `y` are in one class.
pub open spec fn same_class(p: Partition, x: SymbolView, y: SymbolView) -> bool {
    leader_of(p, x) == leader_of(p, y)
}

/// Every leader is itself a symbol that the partition has seen.
pub open spec fn leaders_known(p: Partition) -> bool {
    forall|x: SymbolView| #[trigger] p.dom().contains(x) ==> p.dom().contains(p[x])
}

/// The partition after the classes of `a` and `b` are joined: the members of the class of
/// `a` move under the leader of `b`.
pub open spec fn merged(p: Partition, a: SymbolView, b: SymbolView) -> Partition {
    Map::new(
        |x: SymbolView| p.dom().contains(x) || x == a || x == b,
        |x: SymbolView|
            if leader_of(p, x) == leader_of(p, a) {
                leader_of(p, b)
            } else {
                leader_of(p, x)
            },
    )
}

/// Joining two classes relates exactly the pairs that were related before and the pairs
/// with one member in each of the joined classes.
pub proof fn lemma_merged_classes(p: Partition, a: SymbolView, b: SymbolView)
    requires
        leaders_known(p),
    ensures
        leaders_known(merged(p, a, b)),
        forall|x: SymbolView, y: SymbolView| #[trigger]
            same_class(merged(p, a, b), x, y) <==> (same_class(p, x, y) || (same_class(p, x, a)
                && same_class(p, y, b)) || (same_class(p, x, b) && same_class(p, y, a))),
{
    let m = merged(p, a, b);
    assert forall|x: SymbolView| leader_of(m, x) == (if leader_of(p, x) == leader_of(p, a) {
        leader_of(p, b)
    } else {
        leader_of(p, x)
    }) by {
        if !m.dom().contains(x) {
            if leader_of(p, x) == leader_of(p, a) {
                assert(p.dom().contains(a));
                assert(p.dom().contains(p[a]));
            }
        }
    }
    assert forall|x: SymbolView| #[trigger] m.dom().contains(x) implies m.dom().contains(m[x]) by {
        if p.dom().contains(b) {
            assert(p.dom().contains(p[b]));
        }
        if p.dom().contains(x) {
            assert(p.dom().contains(p[x]));
        }
    }
}

/// Being in one class is an equivalence.
pub proof fn lemma_same_class_equivalence(p: Partition, x: SymbolView, y: SymbolView, z: SymbolView)
    ensures
        same_class(p, x, x),
        same_class(p, x, y) ==> same_class(p, y, x),
        same_class(p, x, y) && same_class(p, y, z) ==> same_class(p, x, z),
{
}

/// Joining never separates: a pair in one class stays in one class.
pub proof fn lemma_merged_keeps(p: Partition, a: SymbolView, b: SymbolView, x: SymbolView, y: SymbolView)
    requires
        leaders_known(p),
        same_class(p, x, y),
    ensures
        same_class(merged(p, a, b), x, y),
        same_class(merged(p, a, b), a, b),
{
    lemma_merged_classes(p, a, b);
    assert(same_class(merged(p, a, b), x, y));
    assert(same_class(p, a, a) && same_class(p, b, b));
    assert(same_class(merged(p, a, b), a, b));
}

/// The order of two joins does not matter: joining the classes of `a` and `b` and then
/// those of `c` and `d` relates the same symbols as joining them the other way round.
pub proof fn lemma_union_order_irrelevant(
    p: Partition,
    a: SymbolView,
    b: SymbolView,
    c: SymbolView,
    d: SymbolView,
    x: SymbolView,
    y: SymbolView,
)
    requires
        leaders_known(p),
    ensures
        same_class(merged(merged(p, a, b), c, d), x, y) == same_class(
            merged(merged(p, c, d), a, b),
            x,
            y,
        ),
        same_class(merged(p, a, b), x, y) == same_class(merged(p, b, a), x, y),
{
    let ab = merged(p, a, b);
    let cd = merged(p, c, d);
    lemma_merged_classes(p, a, b);
    lemma_merged_classes(p, b, a);
    lemma_merged_classes(p, c, d);
    lemma_merged_classes(ab, c, d);
    lemma_merged_classes(cd, a, b);
    let one = merged(ab, c, d);
    let two = merged(cd, a, b);
    assert(same_class(one, x, y) <==> (same_class(ab, x, y) || (same_class(ab, x, c) && same_class(
        ab,
        y,
        d,
    )) || (same_class(ab, x, d) && same_class(ab, y, c))));
    assert(same_class(two, x, y) <==> (same_class(cd, x, y) || (same_class(cd, x, a) && same_class(
        cd,
        y,
        b,
    )) || (same_class(cd, x, b) && same_class(cd, y, a))));
    assert(same_class(ab, x, y) <==> (same_class(p, x, y) || (same_class(p, x, a) && same_class(p, y, b))
        || (same_class(p, x, b) && same_class(p, y, a))));
    assert(same_class(ab, x, c) <==> (same_class(p, x, c) || (same_class(p, x, a) && same_class(p, c, b))
        || (same_class(p, x, b) && same_class(p, c, a))));
    assert(same_class(ab, y, d) <==> (same_class(p, y, d) || (same_class(p, y, a) && same_class(p, d, b))
        || (same_class(p, y, b) && same_class(p, d, a))));
    assert(same_class(ab, x, d) <==> (same_class(p, x, d) || (same_class(p, x, a) && same_class(p, d, b))
        || (same_class(p, x, b) && same_class(p, d, a))));
    assert(same_class(ab, y, c) <==> (same_class(p, y, c) || (same_class(p, y, a) && same_class(p, c, b))
        || (same_class(p, y, b) && same_class(p, c, a))));
    assert(same_class(cd, x, y) <==> (same_class(p, x, y) || (same_class(p, x, c) && same_class(p, y, d))
        || (same_class(p, x, d) && same_class(p, y, c))));
    assert(same_class(cd, x, a) <==> (same_class(p, x, a) || (same_class(p, x, c) && same_class(p, a, d))
        || (same_class(p, x, d) && same_class(p, a, c))));
    assert(same_class(cd, y, b) <==> (same_class(p, y, b) || (same_class(p, y, c) && same_class(p, b, d))
        || (same_class(p, y, d) && same_class(p, b, c))));
    assert(same_class(cd, x, b) <==> (same_class(p, x, b) || (same_class(p, x, c) && same_class(p, b, d))
        || (same_class(p, x, d) && same_class(p, b, c))));
    assert(same_class(cd, y, a) <==> (same_class(p, y, a) || (same_class(p, y, c) && same_class(p, a, d))
        || (same_class(p, y, d) && same_class(p, a, c))));
    assert(same_class(merged(p, a, b), x, y) <==> same_class(merged(p, b, a), x, y));
}

/// The map that a sequence of symbol-leader pairs stands for.
pub open spec fn partition_of(e: Seq<(SymbolView, SymbolView)>) -> Partition {
    Map::new(|x: SymbolView| has_key(e, x), |x: SymbolView| lookup(e, x).unwrap())
}

/// The pairs `e` with every member led by `la` moved under `lb`.
pub open spec fn relabel(e: Seq<(SymbolView, SymbolView)>, la: SymbolView, lb: SymbolView) -> Seq<
    (SymbolView, SymbolView),
> {
    Seq::new(
        e.len(),
        |j: int|
            (
                e[j].0,
                if e[j].1 == la {
                    lb
                } else {
                    e[j].1
                },
            ),
    )
}

/// The pairs after the classes of `a` and `b` are joined.
pub open spec fn joined(e: Seq<(SymbolView, SymbolView)>, a: SymbolView, b: SymbolView) -> Seq<
    (SymbolView, SymbolView),
> {
    let la = leader_of(partition_of(e), a);
    let lb = leader_of(partition_of(e), b);
    let e1 = relabel(e, la, lb);
    let e2 = if has_key(e, a) {
        e1
    } else {
        e1.push((a, lb))
    };
    if has_key(e, b) || a == b {
        e2
    } else {
        e2.push((b, lb))
    }
}

proof fn lemma_relabel(e: Seq<(SymbolView, SymbolView)>, la: SymbolView, lb: SymbolView, x: SymbolView)
    ensures
        has_key(relabel(e, la, lb), x) == has_key(e, x),
        lookup(relabel(e, la, lb), x) == match lookup(e, x) {
            Some(l) => Some(if l == la {
                lb
            } else {
                l
            }),
            None => None,
        },
{
    let e1 = relabel(e, la, lb);
    if has_key(e, x) {
        lemma_key_index_some(e, x);
        let k = key_index(e, x).unwrap();
        assert(e1[k].0 == x);
        assert forall|j: int| 0 <= j < k implies (#[trigger] e1[j]).0 != x by {
            assert(e[j].0 != x);
        }
        lemma_key_index_first(e1, x, k);
    } else {
        assert forall|j: int| 0 <= j < e1.len() implies (#[trigger] e1[j]).0 != x by {
            assert(e[j].0 != x);
        }
        lemma_key_index_none(e1, x);
        lemma_key_index_none(e, x);
    }
}

proof fn lemma_push_new_key(e: Seq<(SymbolView, SymbolView)>, k: SymbolView, v: SymbolView, x: SymbolView)
    requires
        !has_key(e, k),
    ensures
        has_key(e.push((k, v)), x) == (has_key(e, x) || x == k),
        lookup(e.push((k, v)), x) == if x == k {
            Some(v)
        } else {
            lookup(e, x)
        },
{
    let t = e.push((k, v));
    let n = e.len() as int;
    if has_key(e, x) {
        lemma_key_index_some(e, x);
        let a = key_index(e, x).unwrap();
        assert(t[a] == e[a]);
        assert forall|j: int| 0 <= j < a implies (#[trigger] t[j]).0 != x by {
            assert(e[j].0 != x);
        }
        lemma_key_index_first(t, x, a);
    } else if x == k {
        assert(t[n].0 == k);
        assert forall|j: int| 0 <= j < n implies (#[trigger] t[j]).0 != x by {
            assert(e[j].0 != x);
        }
        lemma_key_index_first(t, x, n);
    } else {
        assert forall|j: int| 0 <= j < t.len() implies (#[trigger] t[j]).0 != x by {
            if j < n {
                assert(e[j].0 != x);
            }
        }
        lemma_key_index_none(t, x);
        lemma_key_index_none(e, x);
    }
}

/// The leader that pairs `e` give to `x`.
spec fn led(e: Seq<(SymbolView, SymbolView)>, x: SymbolView) -> SymbolView {
    match lookup(e, x) {
        Some(l) => l,
        None => x,
    }
}

proof fn lemma_led(e: Seq<(SymbolView, SymbolView)>, x: SymbolView)
    ensures
        led(e, x) == leader_of(partition_of(e), x),
        partition_of(e).dom().contains(x) == has_key(e, x),
        has_key(e, x) == (lookup(e, x) is Some),
{
    if has_key(e, x) {
        lemma_key_index_some(e, x);
    }
}

proof fn lemma_joined_at(e: Seq<(SymbolView, SymbolView)>, a: SymbolView, b: SymbolView, x: SymbolView)
    requires
        has_key(e, a) ==> has_key(e, led(e, a)),
    ensures
        has_key(joined(e, a, b), x) == (has_key(e, x) || x == a || x == b),
        has_key(joined(e, a, b), x) ==> lookup(joined(e, a, b), x) == Some(
            if led(e, x) == led(e, a) {
                led(e, b)
            } else {
                led(e, x)
            },
        ),
{
    lemma_led(e, a);
    lemma_led(e, b);
    lemma_led(e, x);
    lemma_led(e, led(e, a));
    let la = led(e, a);
    let lb = led(e, b);
    let e1 = relabel(e, la, lb);
    lemma_relabel(e, la, lb, x);
    lemma_relabel(e, la, lb, a);
    lemma_relabel(e, la, lb, b);
    let e2 = if has_key(e, a) {
        e1
    } else {
        e1.push((a, lb))
    };
    if !has_key(e, a) {
        lemma_push_new_key(e1, a, lb, x);
        lemma_push_new_key(e1, a, lb, b);
    }
    if !(has_key(e, b) || a == b) {
        lemma_push_new_key(e2, b, lb, x);
    }
}

proof fn lemma_joined(e: Seq<(SymbolView, SymbolView)>, a: SymbolView, b: SymbolView)
    requires
        leaders_known(partition_of(e)),
    ensures
        partition_of(joined(e, a, b)) == merged(partition_of(e), a, b),
{
    let p = partition_of(e);
    let m = merged(p, a, b);
    let q = partition_of(joined(e, a, b));
    lemma_led(e, a);
    lemma_led(e, b);
    if has_key(e, a) {
        assert(p.dom().contains(a));
        assert(p.dom().contains(p[a]));
    }
    assert forall|x: SymbolView| #[trigger] q.dom().contains(x) == m.dom().contains(x) by {
        lemma_joined_at(e, a, b, x);
        lemma_led(e, x);
        lemma_led(joined(e, a, b), x);
    }
    assert forall|x: SymbolView| #[trigger] q.dom().contains(x) implies q[x] == m[x] by {
        lemma_joined_at(e, a, b, x);
        lemma_led(e, x);
        lemma_led(joined(e, a, b), x);
    }
    assert(q.dom() =~= m.dom());
    assert(q =~= m);
}

/// Disjoint sets of symbols, supporting `union` and the question whether two symbols are joined.
pub struct UnionFind {
    entries: Vec<(Symbol, Symbol)>,
}

impl View for UnionFind {
    type V = Partition;

    closed spec fn view(&self) -> Partition {
        partition_of(self.entries.deep_view())
    }
}

impl UnionFind {
    /// Every leader is a symbol that the structure has seen.
    pub open spec fn wf(&self) -> bool {
        leaders_known(self@)
    }

    /// The structure in which every symbol is alone.
    pub fn new() -> (r: Self)
        ensures
            r@ == Map::<SymbolView, SymbolView>::empty(),
            r.wf(),
    {
        let r = UnionFind { entries: Vec::new() };
        assert(partition_of(r.entries.deep_view()) =~= Map::<SymbolView, SymbolView>::empty());
        r
    }

    /// The leader of the class of `a`.
    pub fn find(&self, a: &Symbol) -> (r: Symbol)
        ensures
            r@ == leader_of(self@, a@),
    {
        let mut i: usize = 0;
        while i < self.entries.len()
            invariant
                i <= self.entries.len(),
                forall|j: int| 0 <= j < i ==> (#[trigger] self.entries.deep_view()[j]).0 != a@,
            decreases self.entries.len() - i,
        {
            if self.entries[i].0 == *a {
                proof {
                    assert(self.entries.deep_view()[i as int].0 == a@);
                    lemma_key_index_first(self.entries.deep_view(), a@, i as int);
                }
                return self.entries[i].1.clone();
            }
            assert(self.entries.deep_view()[i as int].0 != a@);
            i += 1;
        }
        proof {
            lemma_key_index_none(self.entries.deep_view(), a@);
        }
        a.clone()
    }

    /// Whether `a` and `b` are in one class.
    pub fn same(&self, a: &Symbol, b: &Symbol) -> (r: bool)
        ensures
            r == same_class(self@, a@, b@),
    {
        let la = self.find(a);
        let lb = self.find(b);
        la == lb
    }

    /// Joins the classes of `a` and `b`.
    pub fn union(&mut self, a: &Symbol, b: &Symbol)
        requires
            old(self).wf(),
        ensures
            final(self)@ == merged(old(self)@, a@, b@),
            final(self).wf(),
    {
        let la = self.find(a);
        let lb = self.find(b);
        let ghost e0 = self.entries.deep_view();
        let mut next = self.relabelled(&la, &lb);
        if !self.entries_has(a) {
            next.push((a.clone(), lb.clone()));
            assert(next.deep_view() =~= relabel(e0, la@, lb@).push((a@, lb@)));
        }
        if !(self.entries_has(b) || *a == *b) {
            let ghost before = next.deep_view();
            next.push((b.clone(), lb.clone()));
            assert(next.deep_view() =~= before.push((b@, lb@)));
        }
        proof {
            assert(next.deep_view() == joined(e0, a@, b@));
            lemma_joined(e0, a@, b@);
            lemma_merged_classes(self@, a@, b@);
        }
        self.entries = next;
    }

    /// A copy of the entries in which the class led by `la` is led by `lb`.
    fn relabelled(&self, la: &Symbol, lb: &Symbol) -> (next: Vec<(Symbol, Symbol)>)
        ensures
            next.deep_view() == relabel(self.entries.deep_view(), la@, lb@),
    {
        let ghost e0 = self.entries.deep_view();
        let mut next: Vec<(Symbol, Symbol)> = Vec::new();
        let mut i: usize = 0;
        while i < self.entries.len()
            invariant
                i <= self.entries.len(),
                e0 == self.entries.deep_view(),
                next.len() == i,
                forall|j: int| 0 <= j < i ==> #[trigger] next.deep_view()[j] == relabel(e0, la@, lb@)[j],
            decreases self.entries.len() - i,
        {
            let ghost before = next.deep_view();
            let member = self.entries[i].0.clone();
            let leader = if self.entries[i].1 == *la {
                lb.clone()
            } else {
                self.entries[i].1.clone()
            };
            assert(member@ == e0[i as int].0);
            assert(leader@ == relabel(e0, la@, lb@)[i as int].1);
            next.push((member, leader));
            assert(next.deep_view() =~= before.push((member@, leader@)));
            i += 1;
        }
        assert(next.deep_view() =~= relabel(e0, la@, lb@));
        next
    }

    fn entries_has(&self, a: &Symbol) -> (r: bool)
        ensures
            r == has_key(self.entries.deep_view(), a@),
    {
        let mut i: usize = 0;
        while i < self.entries.len()
            invariant
                i <= self.entries.len(),
                forall|j: int| 0 <= j < i ==> (#[trigger] self.entries.deep_view()[j]).0 != a@,
            decreases self.entries.len() - i,
        {
            if self.entries[i].0 == *a {
                assert(self.entries.deep_view()[i as int].0 == a@);
                return true;
            }
            assert(self.entries.deep_view()[i as int].0 != a@);
            i += 1;
        }
        false
    }
}

} // verus!
