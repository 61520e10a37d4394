//! Insertion-ordered sets and maps as sequences, with the searches that implement them.
//!
//! A set is a sequence in which membership is asked by `contains`; a map is a sequence of
//! key-value pairs in which the first pair with a key is the binding of that key.

use vstd::prelude::*;
use crate::ident::{str_eq, ModuleId};
use crate::specifier::ImportedSpecifier;

verus! {

/// `i` is the first position of a pair with key `k`.
pub open spec fn is_first_key<K, V>(s: Seq<(K, V)>, k: K, i: int) -> bool {
    &&& 0 <= i < s.len()
    &&& s[i].0 == k
    &&& forall|j: int| 0 <= j < i ==> (#[trigger] s[j]).0 != k
}

pub open spec fn has_key<K, V>(s: Seq<(K, V)>, k: K) -> bool {
    exists|i: int| 0 <= i < s.len() && (#[trigger] s[i]).0 == k
}

/// Position of the binding of `k`, if it has one.
pub open spec fn key_index<K, V>(s: Seq<(K, V)>, k: K) -> Option<int> {
    if has_key(s, k) {
        Some(choose|i: int| is_first_key(s, k, i))
    } else {
        None
    }
}

/// The value bound to `k`, if any.
pub open spec fn lookup<K, V>(s: Seq<(K, V)>, k: K) -> Option<V> {
    match key_index(s, k) {
        Some(i) => Some(s[i].1),
        None => None,
    }
}

/// Binds `k` to `v`: in place where `k` is bound already, at the end otherwise.
pub open spec fn put<K, V>(s: Seq<(K, V)>, k: K, v: V) -> Seq<(K, V)> {
    match key_index(s, k) {
        Some(i) => s.update(i, (k, v)),
        None => s.push((k, v)),
    }
}

/// Adds `x` at the end unless it is a member already.
pub open spec fn insert<T>(s: Seq<T>, x: T) -> Seq<T> {
    if s.contains(x) {
        s
    } else {
        s.push(x)
    }
}

/// The set `set` after each of `items` is added in turn.
pub open spec fn insert_all<T>(set: Seq<T>, items: Seq<T>) -> Seq<T>
    decreases items.len(),
{
    if items.len() == 0 {
        set
    } else {
        insert(insert_all(set, items.drop_last()), items.last())
    }
}

/// Adding keeps what was there and adds nothing but the items.
pub proof fn lemma_insert_all_members<T>(set: Seq<T>, items: Seq<T>, x: T)
    ensures
        insert_all(set, items).contains(x) == (set.contains(x) || items.contains(x)),
    decreases items.len(),
{
    if items.len() > 0 {
        let prev = insert_all(set, items.drop_last());
        lemma_insert_all_members(set, items.drop_last(), x);
        let all = insert_all(set, items);
        if items.contains(x) {
            let w = choose|w: int| 0 <= w < items.len() && items[w] == x;
            if w < items.len() - 1 {
                assert(items.drop_last()[w] == x);
            }
        }
        if items.drop_last().contains(x) {
            let w = choose|w: int| 0 <= w < items.drop_last().len() && items.drop_last()[w] == x;
            assert(items[w] == x);
        }
        if prev.contains(x) {
            let w = choose|w: int| 0 <= w < prev.len() && prev[w] == x;
            assert(all[w] == x);
        }
        if all.contains(x) && !prev.contains(x) {
            let w = choose|w: int| 0 <= w < all.len() && all[w] == x;
            if w < prev.len() {
                assert(prev[w] == x);
            }
            assert(x == items.last());
            assert(items[items.len() - 1] == x);
        }
        if x == items.last() {
            assert(items[items.len() - 1] == x);
            if !prev.contains(x) {
                assert(all[prev.len() as int] == x);
            }
        }
    }
}

/// No key is bound twice.
pub open spec fn keys_distinct<K, V>(s: Seq<(K, V)>) -> bool {
    forall|i: int, j: int|
        0 <= i < j < s.len() ==> (#[trigger] s[i]).0 != (#[trigger] s[j]).0
}

/// No key is bound twice, and under no key a member stands twice.
pub open spec fn grouped_distinct<K, V>(s: Seq<(K, Seq<V>)>) -> bool {
    keys_distinct(s) && forall|i: int| 0 <= i < s.len() ==> (#[trigger] s[i]).1.no_duplicates()
}

/// Adding to a set in which nothing occurs twice leaves one in which nothing occurs twice.
pub proof fn lemma_insert_distinct<T>(s: Seq<T>, x: T)
    requires
        s.no_duplicates(),
    ensures
        insert(s, x).no_duplicates(),
{
}

pub proof fn lemma_insert_all_distinct<T>(set: Seq<T>, items: Seq<T>)
    requires
        set.no_duplicates(),
    ensures
        insert_all(set, items).no_duplicates(),
    decreases items.len(),
{
    if items.len() > 0 {
        lemma_insert_all_distinct(set, items.drop_last());
        lemma_insert_distinct(insert_all(set, items.drop_last()), items.last());
    }
}

pub proof fn lemma_key_index_first<K, V>(s: Seq<(K, V)>, k: K, i: int)
    requires
        is_first_key(s, k, i),
    ensures
        key_index(s, k) == Some(i),
        lookup(s, k) == Some(s[i].1),
{
    assert(has_key(s, k));
    let c = choose|c: int| is_first_key(s, k, c);
    if c < i {
        assert(s[c].0 != k);
    }
    if i < c {
        assert(s[i].0 != k);
    }
}

pub proof fn lemma_key_index_none<K, V>(s: Seq<(K, V)>, k: K)
    requires
        forall|j: int| 0 <= j < s.len() ==> (#[trigger] s[j]).0 != k,
    ensures
        key_index(s, k) == None::<int>,
        lookup(s, k) == None::<V>,
{
}

/// A bound key has a first binding.
pub proof fn lemma_key_index_some<K, V>(s: Seq<(K, V)>, k: K)
    requires
        has_key(s, k),
    ensures
        key_index(s, k) is Some,
        is_first_key(s, k, key_index(s, k).unwrap()),
    decreases s.len(),
{
    let w = choose|i: int| 0 <= i < s.len() && (#[trigger] s[i]).0 == k;
    lemma_first_key_below(s, k, w);
}

proof fn lemma_first_key_below<K, V>(s: Seq<(K, V)>, k: K, w: int)
    requires
        0 <= w < s.len(),
        s[w].0 == k,
    ensures
        exists|i: int| is_first_key(s, k, i),
    decreases w,
{
    if exists|j: int| 0 <= j < w && (#[trigger] s[j]).0 == k {
        let j = choose|j: int| 0 <= j < w && (#[trigger] s[j]).0 == k;
        lemma_first_key_below(s, k, j);
    } else {
        assert(is_first_key(s, k, w));
    }
}

/// What a map answers after `put`.
pub proof fn lemma_lookup_put<K, V>(s: Seq<(K, V)>, k: K, v: V, q: K)
    ensures
        lookup(put(s, k, v), q) == if q == k {
            Some(v)
        } else {
            lookup(s, q)
        },
        has_key(put(s, k, v), q) == (q == k || has_key(s, q)),
{
    let t = put(s, k, v);
    if has_key(s, k) {
        lemma_key_index_some(s, k);
        let i = key_index(s, k).unwrap();
        assert(t == s.update(i, (k, v)));
        if q == k {
            assert(is_first_key(t, k, i)) by {
                assert forall|j: int| 0 <= j < i implies (#[trigger] t[j]).0 != k by {
                    assert(s[j].0 != k);
                }
            }
            lemma_key_index_first(t, k, i);
        } else {
            if has_key(s, q) {
                lemma_key_index_some(s, q);
                let a = key_index(s, q).unwrap();
                assert(is_first_key(t, q, a)) by {
                    assert forall|j: int| 0 <= j < a implies (#[trigger] t[j]).0 != q by {
                        assert(s[j].0 != q);
                    }
                }
                lemma_key_index_first(t, q, a);
            } else {
                assert forall|j: int| 0 <= j < t.len() implies (#[trigger] t[j]).0 != q by {
                    if j != i {
                        assert(s[j].0 != q);
                    }
                }
                lemma_key_index_none(t, q);
            }
        }
    } else {
        assert(t == s.push((k, v)));
        let n = s.len() as int;
        if q == k {
            assert(is_first_key(t, k, n)) by {
                assert forall|j: int| 0 <= j < n implies (#[trigger] t[j]).0 != k by {
                    assert(s[j].0 != k);
                }
            }
            lemma_key_index_first(t, k, n);
        } else {
            if has_key(s, q) {
                lemma_key_index_some(s, q);
                let a = key_index(s, q).unwrap();
                assert(is_first_key(t, q, a)) by {
                    assert forall|j: int| 0 <= j < a implies (#[trigger] t[j]).0 != q by {
                        assert(s[j].0 != q);
                    }
                }
                lemma_key_index_first(t, q, a);
            } else {
                assert forall|j: int| 0 <= j < t.len() implies (#[trigger] t[j]).0 != q by {
                    if j < n {
                        assert(s[j].0 != q);
                    }
                }
                lemma_key_index_none(t, q);
            }
        }
    }
    if has_key(t, q) {
        lemma_key_index_some(t, q);
    }
}

/// `put` keeps keys distinct.
pub proof fn lemma_put_keys_distinct<K, V>(s: Seq<(K, V)>, k: K, v: V)
    requires
        keys_distinct(s),
    ensures
        keys_distinct(put(s, k, v)),
{
    let t = put(s, k, v);
    if has_key(s, k) {
        lemma_key_index_some(s, k);
        let a = key_index(s, k).unwrap();
        assert forall|i: int, j: int| 0 <= i < j < t.len() implies (#[trigger] t[i]).0 != (
        #[trigger] t[j]).0 by {
            assert(s[i].0 != s[j].0);
            assert(s[a].0 == k);
        }
    } else {
        assert forall|i: int, j: int| 0 <= i < j < t.len() implies (#[trigger] t[i]).0 != (
        #[trigger] t[j]).0 by {
            if j < s.len() {
                assert(s[i].0 != s[j].0);
            } else {
                assert(s[i].0 != k);
            }
        }
    }
}

/// `i` is the first position of `x` in `s`.
pub open spec fn is_first<T>(s: Seq<T>, x: T, i: int) -> bool {
    &&& 0 <= i < s.len()
    &&& s[i] == x
    &&& forall|j: int| 0 <= j < i ==> #[trigger] s[j] != x
}

/// First position of `x` in `s`, if it is a member.
pub open spec fn position<T>(s: Seq<T>, x: T) -> Option<int> {
    if s.contains(x) {
        Some(choose|i: int| is_first(s, x, i))
    } else {
        None
    }
}

pub proof fn lemma_position_first<T>(s: Seq<T>, x: T, i: int)
    requires
        is_first(s, x, i),
    ensures
        position(s, x) == Some(i),
{
    assert(s.contains(x));
    let c = choose|c: int| is_first(s, x, c);
    if c < i {
        assert(s[c] != x);
    }
    if i < c {
        assert(s[i] != x);
    }
}

pub proof fn lemma_position_none<T>(s: Seq<T>, x: T)
    requires
        forall|j: int| 0 <= j < s.len() ==> #[trigger] s[j] != x,
    ensures
        position(s, x) == None::<int>,
{
}

/// A member has a first position.
pub proof fn lemma_position_some<T>(s: Seq<T>, x: T)
    requires
        s.contains(x),
    ensures
        position(s, x) is Some,
        is_first(s, x, position(s, x).unwrap()),
{
    let w = choose|i: int| 0 <= i < s.len() && s[i] == x;
    lemma_first_below(s, x, w);
}

proof fn lemma_first_below<T>(s: Seq<T>, x: T, w: int)
    requires
        0 <= w < s.len(),
        s[w] == x,
    ensures
        exists|i: int| is_first(s, x, i),
    decreases w,
{
    if exists|j: int| 0 <= j < w && #[trigger] s[j] == x {
        let j = choose|j: int| 0 <= j < w && #[trigger] s[j] == x;
        lemma_first_below(s, x, j);
    } else {
        assert(is_first(s, x, w));
    }
}

/// Position of the first pair of `v` whose key is `name`.
pub fn find_name<V: DeepView>(v: &Vec<(String, V)>, name: &str) -> (r: Option<usize>)
    ensures
        match r {
            Some(i) => key_index(v.deep_view(), name@) == Some(i as int) && i < v.len()
                && v.deep_view()[i as int].0 == name@,
            None => key_index(v.deep_view(), name@) == None::<int>,
        },
{
    let mut i: usize = 0;
    while i < v.len()
        invariant
            i <= v.len(),
            forall|j: int| 0 <= j < i ==> (#[trigger] v.deep_view()[j]).0 != name@,
        decreases v.len() - i,
    {
        if str_eq(v[i].0.as_str(), name) {
            proof {
                assert(v.deep_view()[i as int].0 == name@);
                lemma_key_index_first(v.deep_view(), name@, i as int);
            }
            return Some(i);
        }
        assert(v.deep_view()[i as int].0 != name@);
        i += 1;
    }
    proof {
        lemma_key_index_none(v.deep_view(), name@);
    }
    None
}

/// Position of the first pair of `v` whose key is `id`.
pub fn find_module<V: DeepView>(v: &Vec<(ModuleId, V)>, id: &ModuleId) -> (r: Option<usize>)
    ensures
        match r {
            Some(i) => key_index(v.deep_view(), id@) == Some(i as int) && i < v.len()
                && v.deep_view()[i as int].0 == id@,
            None => key_index(v.deep_view(), id@) == None::<int>,
        },
{
    let mut i: usize = 0;
    while i < v.len()
        invariant
            i <= v.len(),
            forall|j: int| 0 <= j < i ==> (#[trigger] v.deep_view()[j]).0 != id@,
        decreases v.len() - i,
    {
        if v[i].0 == *id {
            proof {
                assert(v.deep_view()[i as int].0 == id@);
                lemma_key_index_first(v.deep_view(), id@, i as int);
            }
            return Some(i);
        }
        assert(v.deep_view()[i as int].0 != id@);
        i += 1;
    }
    proof {
        lemma_key_index_none(v.deep_view(), id@);
    }
    None
}

/// Whether `id` is a member of `v`.
pub fn contains_module(v: &Vec<ModuleId>, id: &ModuleId) -> (r: bool)
    ensures
        r == v.deep_view().contains(id@),
{
    let mut i: usize = 0;
    while i < v.len()
        invariant
            i <= v.len(),
            forall|j: int| 0 <= j < i ==> #[trigger] v.deep_view()[j] != id@,
        decreases v.len() - i,
    {
        if v[i] == *id {
            assert(v.deep_view()[i as int] == id@);
            return true;
        }
        assert(v.deep_view()[i as int] != id@);
        i += 1;
    }
    false
}

/// Adds `id` to the set `v` unless it is a member already.
pub fn insert_module(v: &mut Vec<ModuleId>, id: &ModuleId)
    ensures
        final(v).deep_view() == insert(old(v).deep_view(), id@),
{
    if !contains_module(v, id) {
        v.push(id.clone());
        assert(v.deep_view() =~= old(v).deep_view().push(id@));
    }
}

/// Whether `x` is a member of `v`.
pub fn contains_specifier(v: &Vec<ImportedSpecifier>, x: &ImportedSpecifier) -> (r: bool)
    ensures
        r == v.deep_view().contains(x@),
{
    let mut i: usize = 0;
    while i < v.len()
        invariant
            i <= v.len(),
            forall|j: int| 0 <= j < i ==> #[trigger] v.deep_view()[j] != x@,
        decreases v.len() - i,
    {
        if v[i] == *x {
            assert(v.deep_view()[i as int] == x@);
            return true;
        }
        assert(v.deep_view()[i as int] != x@);
        i += 1;
    }
    false
}


/// Adds each of `items` to the set `v`.
pub fn extend_modules(v: &mut Vec<ModuleId>, items: &Vec<ModuleId>)
    ensures
        final(v).deep_view() == insert_all(old(v).deep_view(), items.deep_view()),
{
    let mut k: usize = 0;
    while k < items.len()
        invariant
            k <= items.len(),
            v.deep_view() == insert_all(old(v).deep_view(), items.deep_view().take(k as int)),
        decreases items.len() - k,
    {
        insert_module(v, &items[k]);
        proof {
            let longer = items.deep_view().take(k as int + 1);
            assert(longer.drop_last() =~= items.deep_view().take(k as int));
            assert(longer.last() == items[k as int]@);
        }
        k += 1;
    }
    assert(items.deep_view().take(items.len() as int) =~= items.deep_view());
}

/// A copy of a list of module ids.
pub fn clone_modules(v: &Vec<ModuleId>) -> (r: Vec<ModuleId>)
    ensures
        r.deep_view() == v.deep_view(),
{
    let mut r: Vec<ModuleId> = Vec::new();
    let mut k: usize = 0;
    while k < v.len()
        invariant
            k <= v.len(),
            r.len() == k,
            forall|j: int| 0 <= j < k ==> #[trigger] r.deep_view()[j] == v.deep_view()[j],
        decreases v.len() - k,
    {
        let ghost before = r.deep_view();
        r.push(v[k].clone());
        assert(r.deep_view() =~= before.push(v[k as int]@));
        k += 1;
    }
    assert(r.deep_view() =~= v.deep_view());
    r
}

} // verus!
