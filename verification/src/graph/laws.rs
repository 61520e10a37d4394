//! What the ordering pass guarantees of a graph.

use vstd::prelude::*;
use crate::graph::order::edges_wf;
use crate::graph::order_laws::{
    all_edges, dep_settled, is_renaming, lemma_post_order_reaches, lemma_post_order_renamed,
    lemma_post_order_valid, reaches, rename, renamed_edges,
};
use crate::graph::{lemma_index_of, GraphView};
use crate::ident::ModuleIdView;
use crate::table::{is_first, lemma_position_first};
use vstd::set_lib::{lemma_int_range, lemma_len_subset, set_int_range};

verus! {

/// The positions of modules of the graph are positions in the graph.
pub proof fn lemma_targets_bounded(g: GraphView, ids: Seq<ModuleIdView>)
    requires
        forall|k: int| 0 <= k < ids.len() ==> g.contains(#[trigger] ids[k]),
    ensures
        forall|k: int| 0 <= k < ids.len() ==> (#[trigger] g.targets(ids)[k]) < g.modules.len(),
        g.targets(ids).len() == ids.len(),
{
    assert forall|k: int| 0 <= k < ids.len() implies (#[trigger] g.targets(ids)[k])
        < g.modules.len() by {
        assert(g.contains(ids[k]));
        lemma_index_of(g, ids[k]);
    }
}

/// In a closed graph every dependency leads to a module of the graph.
pub proof fn lemma_edges_wf(g: GraphView)
    requires
        g.closed(),
    ensures
        edges_wf(g.static_edges()),
        edges_wf(g.dynamic_edges()),
        g.static_edges().len() == g.modules.len(),
        g.dynamic_edges().len() == g.modules.len(),
        forall|k: int|
            0 <= k < g.entries.len() ==> (#[trigger] g.targets(g.entries)[k]) < g.modules.len(),
{
    assert forall|i: int, k: int|
        0 <= i < g.static_edges().len() && 0 <= k < g.static_edges()[i].len() implies (
    #[trigger] g.static_edges()[i][k]) < g.static_edges().len() by {
        match g.modules[i] {
            crate::module::ModuleView::Normal(m) => {
                assert(g.module_closed(m));
                lemma_targets_bounded(g, m.dependencies);
            },
            crate::module::ModuleView::External(_) => {},
        }
    }
    assert forall|i: int, k: int|
        0 <= i < g.dynamic_edges().len() && 0 <= k < g.dynamic_edges()[i].len() implies (
    #[trigger] g.dynamic_edges()[i][k]) < g.dynamic_edges().len() by {
        match g.modules[i] {
            crate::module::ModuleView::Normal(m) => {
                assert(g.module_closed(m));
                lemma_targets_bounded(g, m.dynamic_dependencies);
            },
            crate::module::ModuleView::External(_) => {},
        }
    }
    lemma_targets_bounded(g, g.entries);
}

/// A list of positions below `n` in which none occurs twice has at most `n` members.
pub proof fn lemma_distinct_positions(sequence: Seq<usize>, n: nat)
    requires
        sequence.no_duplicates(),
        forall|k: int| 0 <= k < sequence.len() ==> (#[trigger] sequence[k]) < n,
    ensures
        sequence.len() <= n,
{
    let ints = Seq::new(sequence.len(), |k: int| sequence[k] as int);
    assert(ints.no_duplicates()) by {
        assert forall|i: int, j: int| 0 <= i < ints.len() && 0 <= j < ints.len() && i != j implies ints[i]
            != ints[j] by {
            assert(sequence[i] != sequence[j]);
        }
    }
    ints.unique_seq_to_set();
    lemma_int_range(0, n as int);
    assert(ints.to_set().subset_of(set_int_range(0, n as int))) by {
        assert forall|x: int| ints.to_set().contains(x) implies set_int_range(0, n as int).contains(
            x,
        ) by {
            let k = choose|k: int| 0 <= k < ints.len() && ints[k] == x;
            assert(sequence[k] < n);
        }
    }
    lemma_len_subset(ints.to_set(), set_int_range(0, n as int));
}

/// The execution order is valid.
///
/// The modules that the ordering pass reaches get the orders 0, 1, 2 and so on, each
/// module one order of its own. Every entry is reached, and with a module each of its
/// static dependencies. A static dependency of a reached module has a lower order than
/// the module, unless the module can be reached from it along static dependencies, so
/// that the two lie on a cycle.
pub proof fn lemma_sort_modules_valid(g: GraphView)
    requires
        g.inv(),
        g.modules.len() <= usize::MAX,
    ensures
        ({
            let h = g.sort_modules();
            let sequence = g.exec_sequence();
            &&& sequence.no_duplicates()
            &&& forall|k: int|
                0 <= k < sequence.len() ==> (#[trigger] sequence[k]) < g.modules.len()
                    && h.modules[sequence[k] as int].exec_order() == k
            &&& forall|r: int|
                0 <= r < g.entries.len() ==> sequence.contains(
                    g.index_of(#[trigger] g.entries[r]).unwrap() as usize,
                )
            &&& forall|i: int, d: int|
                0 <= i < sequence.len() && 0 <= d < g.modules[sequence[i] as int].dependencies().len()
                    ==> {
                    let dep = g.index_of(
                        #[trigger] g.modules[(#[trigger] sequence[i]) as int].dependencies()[d],
                    ).unwrap() as usize;
                    &&& sequence.contains(dep)
                    &&& h.modules[dep as int].exec_order() < h.modules[sequence[i] as int].exec_order()
                        || reaches(g.static_edges(), dep, sequence[i])
                }
        }),
{
    let h = g.sort_modules();
    let sequence = g.exec_sequence();
    let edges = g.static_edges();
    lemma_edges_wf(g);
    lemma_post_order_valid(edges, g.dynamic_edges(), g.targets(g.entries));
    lemma_distinct_positions(sequence, g.modules.len());
    assert forall|k: int| 0 <= k < sequence.len() implies (#[trigger] sequence[k]) < g.modules.len()
        && h.modules[sequence[k] as int].exec_order() == k by {
        assert(is_first(sequence, sequence[k], k)) by {
            assert forall|j: int| 0 <= j < k implies #[trigger] sequence[j] != sequence[k] by {}
        }
        lemma_position_first(sequence, sequence[k], k);
    }
    assert forall|r: int| 0 <= r < g.entries.len() implies sequence.contains(
        g.index_of(#[trigger] g.entries[r]).unwrap() as usize,
    ) by {
        assert(g.targets(g.entries)[r] == g.index_of(g.entries[r]).unwrap() as usize);
        assert(sequence.contains(g.targets(g.entries)[r]));
    }
    assert forall|i: int, d: int|
        0 <= i < sequence.len() && 0 <= d < g.modules[sequence[i] as int].dependencies().len() implies {
        let dep = g.index_of(
            #[trigger] g.modules[(#[trigger] sequence[i]) as int].dependencies()[d],
        ).unwrap() as usize;
        &&& sequence.contains(dep)
        &&& h.modules[dep as int].exec_order() < h.modules[sequence[i] as int].exec_order()
            || reaches(g.static_edges(), dep, sequence[i])
    } by {
        let x = sequence[i];
        let dep = g.index_of(g.modules[x as int].dependencies()[d]).unwrap() as usize;
        assert(edges[x as int][d] == dep);
        assert(sequence.contains(edges[sequence[i] as int][d]));
        assert(dep_settled(edges, sequence, i, edges[sequence[i] as int][d]));
        if exists|j: int| 0 <= j < i && #[trigger] sequence[j] == dep {
            let j = choose|j: int| 0 <= j < i && #[trigger] sequence[j] == dep;
            assert(h.modules[sequence[j] as int].exec_order() == j);
            assert(h.modules[sequence[i] as int].exec_order() == i);
        }
    }
}

/// A list of positions below `n` in which none occurs twice and each occurs has `n`
/// members.
pub proof fn lemma_all_positions(sequence: Seq<usize>, n: nat)
    requires
        sequence.no_duplicates(),
        forall|k: int| 0 <= k < sequence.len() ==> (#[trigger] sequence[k]) < n,
        forall|x: usize| x < n ==> #[trigger] sequence.contains(x),
        n <= usize::MAX,
    ensures
        sequence.len() == n,
{
    lemma_distinct_positions(sequence, n);
    let ints = Seq::new(sequence.len(), |k: int| sequence[k] as int);
    assert(ints.no_duplicates()) by {
        assert forall|i: int, j: int| 0 <= i < ints.len() && 0 <= j < ints.len() && i != j implies ints[i]
            != ints[j] by {
            assert(sequence[i] != sequence[j]);
        }
    }
    ints.unique_seq_to_set();
    lemma_int_range(0, n as int);
    vstd::seq_lib::seq_to_set_is_finite(ints);
    assert(set_int_range(0, n as int).subset_of(ints.to_set())) by {
        assert forall|x: int| set_int_range(0, n as int).contains(x) implies ints.to_set().contains(
            x,
        ) by {
            assert(sequence.contains(x as usize));
            let k = choose|k: int| 0 <= k < sequence.len() && sequence[k] == x as usize;
            assert(ints[k] == x);
        }
    }
    lemma_len_subset(set_int_range(0, n as int), ints.to_set());
}

impl GraphView {
    /// The static and the dynamic dependencies of each module together, as positions.
    pub open spec fn dependency_edges(self) -> Seq<Seq<usize>> {
        all_edges(self.static_edges(), self.dynamic_edges())
    }

    /// Whether the module at position `x` can be reached from an entry along
    /// dependencies, static or dynamic.
    pub open spec fn reached_from_entry(self, x: usize) -> bool {
        exists|r: int|
            0 <= r < self.entries.len() && reaches(
                self.dependency_edges(),
                self.index_of(#[trigger] self.entries[r]).unwrap() as usize,
                x,
            )
    }
}

proof fn lemma_sort_modules_reached(g: GraphView, x: usize)
    requires
        g.inv(),
        g.modules.len() <= usize::MAX,
    ensures
        g.exec_sequence().contains(x) ==> g.sort_modules().modules[x as int].exec_order()
            < g.exec_sequence().len() && g.exec_sequence()[g.sort_modules().modules[x as int].exec_order() as int]
            == x,
{
    lemma_sort_modules_valid(g);
    let sequence = g.exec_sequence();
    if sequence.contains(x) {
        let k = choose|k: int| 0 <= k < sequence.len() && sequence[k] == x;
        assert(g.sort_modules().modules[sequence[k] as int].exec_order() == k);
    }
}

/// Every module that can be reached from an entry along dependencies, static or dynamic,
/// gets an execution order: behind a dynamic import, behind one that such a module makes,
/// and so on.
pub proof fn lemma_sort_modules_reaches(g: GraphView, x: usize)
    requires
        g.inv(),
        g.modules.len() <= usize::MAX,
        g.reached_from_entry(x),
    ensures
        g.exec_sequence().contains(x),
        g.sort_modules().modules[x as int].exec_order() < g.exec_sequence().len(),
        g.exec_sequence()[g.sort_modules().modules[x as int].exec_order() as int] == x,
{
    lemma_edges_wf(g);
    lemma_sort_modules_reached(g, x);
    let roots = g.targets(g.entries);
    let r = choose|r: int|
        0 <= r < g.entries.len() && reaches(
            g.dependency_edges(),
            g.index_of(#[trigger] g.entries[r]).unwrap() as usize,
            x,
        );
    assert(roots[r] == g.index_of(g.entries[r]).unwrap() as usize);
    lemma_post_order_reaches(g.static_edges(), g.dynamic_edges(), roots, r, x);
}

/// Where every module can be reached from an entry, every module gets an execution
/// order.
pub proof fn lemma_sort_modules_complete(g: GraphView)
    requires
        g.inv(),
        g.modules.len() <= usize::MAX,
        forall|x: usize| x < g.modules.len() ==> #[trigger] g.reached_from_entry(x),
    ensures
        g.exec_sequence().len() == g.modules.len(),
        forall|x: usize| x < g.modules.len() ==> #[trigger] g.exec_sequence().contains(x),
{
    lemma_edges_wf(g);
    lemma_post_order_valid(g.static_edges(), g.dynamic_edges(), g.targets(g.entries));
    assert forall|x: usize| x < g.modules.len() implies #[trigger] g.exec_sequence().contains(x) by {
        assert(g.reached_from_entry(x));
        lemma_sort_modules_reaches(g, x);
    }
    lemma_all_positions(g.exec_sequence(), g.modules.len());
}

/// `h` holds the modules of `g`, each at the position that `pi` gives it, and has the
/// entries of `g`.
pub open spec fn rearranged(pi: Seq<usize>, g: GraphView, h: GraphView) -> bool {
    &&& is_renaming(pi, g.modules.len())
    &&& h.modules.len() == g.modules.len()
    &&& h.entries == g.entries
    &&& forall|i: int| 0 <= i < g.modules.len() ==> #[trigger] h.modules[pi[i] as int] == g.modules[i]
}

proof fn lemma_rearranged_index(pi: Seq<usize>, g: GraphView, h: GraphView, id: ModuleIdView)
    requires
        h.wf(),
        rearranged(pi, g, h),
        g.contains(id),
    ensures
        h.contains(id),
        h.index_of(id) == Some(pi[g.index_of(id).unwrap()] as int),
{
    lemma_index_of(g, id);
    let i = g.index_of(id).unwrap();
    let j = pi[i] as int;
    assert(h.modules[pi[i] as int] == g.modules[i]);
    assert(h.ids()[j] == id);
    crate::graph::lemma_index_of_own(h, j);
}

proof fn lemma_rearranged_targets(pi: Seq<usize>, g: GraphView, h: GraphView, ids: Seq<ModuleIdView>)
    requires
        h.wf(),
        rearranged(pi, g, h),
        g.modules.len() <= usize::MAX,
        forall|k: int| 0 <= k < ids.len() ==> g.contains(#[trigger] ids[k]),
    ensures
        h.targets(ids) == rename(pi, g.targets(ids)),
{
    assert forall|k: int| 0 <= k < ids.len() implies h.targets(ids)[k] == rename(
        pi,
        g.targets(ids),
    )[k] by {
        assert(g.contains(ids[k]));
        lemma_rearranged_index(pi, g, h, ids[k]);
        lemma_index_of(g, ids[k]);
    }
    assert(h.targets(ids) =~= rename(pi, g.targets(ids)));
}

proof fn lemma_rename_position(pi: Seq<usize>, n: nat, s: Seq<usize>, x: usize)
    requires
        is_renaming(pi, n),
        forall|k: int| 0 <= k < s.len() ==> (#[trigger] s[k]) < n,
        x < n,
    ensures
        crate::table::position(rename(pi, s), pi[x as int]) == crate::table::position(s, x),
{
    let r = rename(pi, s);
    assert forall|k: int| 0 <= k < s.len() implies (#[trigger] r[k] == pi[x as int]) == (s[k] == x) by {
        assert(s[k] < n);
        if s[k] != x {
            if (s[k] as int) < (x as int) {
                assert(pi[s[k] as int] != pi[x as int]);
            } else {
                assert(pi[x as int] != pi[s[k] as int]);
            }
        }
    }
    if s.contains(x) {
        crate::table::lemma_position_some(s, x);
        let k = crate::table::position(s, x).unwrap();
        assert(is_first(r, pi[x as int], k)) by {
            assert(r[k] == pi[x as int]);
            assert forall|j: int| 0 <= j < k implies #[trigger] r[j] != pi[x as int] by {
                assert(s[j] != x);
                assert((r[j] == pi[x as int]) == (s[j] == x));
            }
        }
        lemma_position_first(r, pi[x as int], k);
    } else {
        assert forall|j: int| 0 <= j < r.len() implies #[trigger] r[j] != pi[x as int] by {
            assert((r[j] == pi[x as int]) == (s[j] == x));
        }
        crate::table::lemma_position_none(r, pi[x as int]);
    }
}

/// The execution order does not depend on the order in which the modules came into the
/// graph: in a graph that holds the same modules at other positions, every module gets
/// the execution order that it gets here.
pub proof fn lemma_sort_modules_any_arrival(pi: Seq<usize>, g: GraphView, h: GraphView)
    requires
        g.inv(),
        h.inv(),
        g.modules.len() <= usize::MAX,
        rearranged(pi, g, h),
    ensures
        forall|i: int|
            0 <= i < g.modules.len() ==> #[trigger] h.sort_modules().modules[pi[i] as int]
                == g.sort_modules().modules[i],
{
    let n = g.modules.len();
    lemma_edges_wf(g);
    lemma_edges_wf(h);
    let edges = g.static_edges();
    let dynamic = g.dynamic_edges();
    assert(renamed_edges(pi, edges, h.static_edges())) by {
        assert forall|i: int| 0 <= i < edges.len() implies #[trigger] h.static_edges()[pi[i] as int]
            == rename(pi, edges[i]) by {
            assert(h.modules[pi[i] as int] == g.modules[i]);
            match g.modules[i] {
                crate::module::ModuleView::Normal(m) => {
                    assert(g.module_closed(m));
                    lemma_rearranged_targets(pi, g, h, m.dependencies);
                },
                crate::module::ModuleView::External(_) => {
                    assert(h.static_edges()[pi[i] as int] =~= rename(pi, edges[i]));
                },
            }
        }
    }
    assert(renamed_edges(pi, dynamic, h.dynamic_edges())) by {
        assert forall|i: int| 0 <= i < dynamic.len() implies #[trigger] h.dynamic_edges()[pi[i] as int]
            == rename(pi, dynamic[i]) by {
            assert(h.modules[pi[i] as int] == g.modules[i]);
            match g.modules[i] {
                crate::module::ModuleView::Normal(m) => {
                    assert(g.module_closed(m));
                    lemma_rearranged_targets(pi, g, h, m.dynamic_dependencies);
                },
                crate::module::ModuleView::External(_) => {
                    assert(h.dynamic_edges()[pi[i] as int] =~= rename(pi, dynamic[i]));
                },
            }
        }
    }
    lemma_rearranged_targets(pi, g, h, g.entries);
    lemma_targets_bounded(g, g.entries);
    lemma_post_order_renamed(pi, edges, dynamic, g.targets(g.entries), h.static_edges(), h.dynamic_edges());
    lemma_post_order_valid(edges, dynamic, g.targets(g.entries));
    let sequence = g.exec_sequence();
    assert(h.exec_sequence() == rename(pi, sequence));
    assert forall|i: int| 0 <= i < g.modules.len() implies #[trigger] h.sort_modules().modules[pi[i] as int]
        == g.sort_modules().modules[i] by {
        lemma_rename_position(pi, n, sequence, i as usize);
        assert(h.modules[pi[i] as int] == g.modules[i]);
        assert((pi[i] as int) as usize == pi[i]);
    }
}

} // verus!
