//! Depth-first and breadth-first traversal of an entity graph.
//!
//! Each traversal is defined as a small machine: a state, and a step that
//! visits one entity. The traversal's result is what the machine has visited
//! when nothing is left to do.

use crate::graph::{next_of, neighbors_in, AdjacencyView, EntityGraph};
use crate::table::{contains_text, texts};
use std::collections::VecDeque;
use vstd::prelude::*;
use vstd::set_lib::lemma_len_subset;

verus! {

/// Those of `list` that `seen` does not hold, in order, each as often as it
/// occurs.
pub open spec fn fresh_of(list: Seq<Seq<char>>, seen: Seq<Seq<char>>) -> Seq<Seq<char>>
    decreases list.len(),
{
    if list.len() == 0 {
        Seq::empty()
    } else {
        let rest = fresh_of(list.drop_last(), seen);
        if seen.contains(list.last()) {
            rest
        } else {
            rest.push(list.last())
        }
    }
}

/// `order` followed by those of `list` that it does not hold yet, each once.
pub open spec fn discover(order: Seq<Seq<char>>, list: Seq<Seq<char>>) -> Seq<Seq<char>>
    decreases list.len(),
{
    if list.len() == 0 {
        order
    } else {
        let known = discover(order, list.drop_last());
        if known.contains(list.last()) {
            known
        } else {
            known.push(list.last())
        }
    }
}

/// The state of a depth-first traversal: the stack, its top last, and the
/// entities visited so far.
pub struct Descent {
    pub pending: Seq<Seq<char>>,
    pub visited: Seq<Seq<char>>,
}

/// One step of a depth-first traversal: the top of the stack is popped; if
/// it was not visited yet, it is visited now and its unvisited neighbours are
/// pushed in the order of its edges, so that the last of them is next.
pub open spec fn dfs_step(relations: Seq<AdjacencyView>, state: Descent) -> Descent {
    if state.pending.len() == 0 {
        state
    } else {
        let current = state.pending.last();
        let rest = state.pending.drop_last();
        if state.visited.contains(current) {
            Descent { pending: rest, visited: state.visited }
        } else {
            let seen = state.visited.push(current);
            Descent { pending: rest + fresh_of(next_of(relations, current), seen), visited: seen }
        }
    }
}

/// The state of a depth-first traversal from `start` after `n` steps.
pub open spec fn dfs_walk(relations: Seq<AdjacencyView>, start: Seq<char>, n: nat) -> Descent
    decreases n,
{
    if n == 0 {
        Descent { pending: seq![start], visited: Seq::empty() }
    } else {
        dfs_step(relations, dfs_walk(relations, start, (n - 1) as nat))
    }
}

/// Whether `order` is what a depth-first traversal from `start` has visited
/// when its stack is empty.
pub open spec fn is_dfs_order(relations: Seq<AdjacencyView>, start: Seq<char>, order: Seq<Seq<char>>) -> bool {
    exists|n: nat|
        (#[trigger] dfs_walk(relations, start, n)).pending.len() == 0 && dfs_walk(relations, start, n).visited
            == order
}

/// The state of a breadth-first traversal: the entities discovered so far in
/// the order of their discovery, and how many of them were visited. Those
/// behind `head` are the queue.
pub struct Sweep {
    pub order: Seq<Seq<char>>,
    pub head: nat,
}

/// One step of a breadth-first traversal: the front of the queue is visited,
/// and those of its neighbours that were not discovered yet join the queue in
/// the order of its edges.
pub open spec fn bfs_step(relations: Seq<AdjacencyView>, state: Sweep) -> Sweep {
    if state.head >= state.order.len() {
        state
    } else {
        Sweep {
            order: discover(state.order, next_of(relations, state.order[state.head as int])),
            head: state.head + 1,
        }
    }
}

/// The state of a breadth-first traversal from `start` after `n` steps.
pub open spec fn bfs_walk(relations: Seq<AdjacencyView>, start: Seq<char>, n: nat) -> Sweep
    decreases n,
{
    if n == 0 {
        Sweep { order: seq![start], head: 0 }
    } else {
        bfs_step(relations, bfs_walk(relations, start, (n - 1) as nat))
    }
}

/// Whether `order` is what a breadth-first traversal from `start` has visited
/// when its queue is empty.
pub open spec fn is_bfs_order(relations: Seq<AdjacencyView>, start: Seq<char>, order: Seq<Seq<char>>) -> bool {
    exists|n: nat|
        (#[trigger] bfs_walk(relations, start, n)).head == bfs_walk(relations, start, n).order.len() && bfs_walk(
            relations,
            start,
            n,
        ).order == order
}

/// A finished depth-first traversal stays as it is.
proof fn lemma_dfs_settled(relations: Seq<AdjacencyView>, start: Seq<char>, n: nat, m: nat)
    requires
        dfs_walk(relations, start, n).pending.len() == 0,
        n <= m,
    ensures
        dfs_walk(relations, start, m) == dfs_walk(relations, start, n),
    decreases m,
{
    if m > n {
        lemma_dfs_settled(relations, start, n, (m - 1) as nat);
    }
}

/// A finished breadth-first traversal stays as it is.
proof fn lemma_bfs_settled(relations: Seq<AdjacencyView>, start: Seq<char>, n: nat, m: nat)
    requires
        bfs_walk(relations, start, n).head == bfs_walk(relations, start, n).order.len(),
        n <= m,
    ensures
        bfs_walk(relations, start, m) == bfs_walk(relations, start, n),
    decreases m,
{
    if m > n {
        lemma_bfs_settled(relations, start, n, (m - 1) as nat);
    }
}

/// `discover` keeps what was discovered, in its place.
pub proof fn lemma_discover_keeps(order: Seq<Seq<char>>, list: Seq<Seq<char>>)
    ensures
        discover(order, list).len() >= order.len(),
        forall|i: int| 0 <= i < order.len() ==> discover(order, list)[i] == order[i],
    decreases list.len(),
{
    if list.len() > 0 {
        lemma_discover_keeps(order, list.drop_last());
    }
}

/// From its first step on, a depth-first traversal has visited its start
/// first.
pub proof fn lemma_dfs_starts_at_start(relations: Seq<AdjacencyView>, start: Seq<char>, n: nat)
    requires
        n >= 1,
    ensures
        dfs_walk(relations, start, n).visited.len() >= 1,
        dfs_walk(relations, start, n).visited[0] == start,
    decreases n,
{
    let before = dfs_walk(relations, start, (n - 1) as nat);
    if n == 1 {
        assert(before.pending.last() == start);
        assert(!before.visited.contains(start));
    } else {
        lemma_dfs_starts_at_start(relations, start, (n - 1) as nat);
    }
}

/// A breadth-first traversal has discovered its start first.
pub proof fn lemma_bfs_starts_at_start(relations: Seq<AdjacencyView>, start: Seq<char>, n: nat)
    ensures
        bfs_walk(relations, start, n).order.len() >= 1,
        bfs_walk(relations, start, n).order[0] == start,
    decreases n,
{
    if n > 0 {
        let before = bfs_walk(relations, start, (n - 1) as nat);
        lemma_bfs_starts_at_start(relations, start, (n - 1) as nat);
        if before.head < before.order.len() {
            lemma_discover_keeps(before.order, next_of(relations, before.order[before.head as int]));
        }
    }
}

/// A graph and a start have one depth-first order.
pub proof fn lemma_dfs_order_unique(
    relations: Seq<AdjacencyView>,
    start: Seq<char>,
    first: Seq<Seq<char>>,
    second: Seq<Seq<char>>,
)
    requires
        is_dfs_order(relations, start, first),
        is_dfs_order(relations, start, second),
    ensures
        first == second,
{
    let n = choose|n: nat|
        (#[trigger] dfs_walk(relations, start, n)).pending.len() == 0 && dfs_walk(relations, start, n).visited
            == first;
    let m = choose|m: nat|
        (#[trigger] dfs_walk(relations, start, m)).pending.len() == 0 && dfs_walk(relations, start, m).visited
            == second;
    if n <= m {
        lemma_dfs_settled(relations, start, n, m);
    } else {
        lemma_dfs_settled(relations, start, m, n);
    }
}

/// A graph and a start have one breadth-first order.
pub proof fn lemma_bfs_order_unique(
    relations: Seq<AdjacencyView>,
    start: Seq<char>,
    first: Seq<Seq<char>>,
    second: Seq<Seq<char>>,
)
    requires
        is_bfs_order(relations, start, first),
        is_bfs_order(relations, start, second),
    ensures
        first == second,
{
    let n = choose|n: nat|
        (#[trigger] bfs_walk(relations, start, n)).head == bfs_walk(relations, start, n).order.len() && bfs_walk(
            relations,
            start,
            n,
        ).order == first;
    let m = choose|m: nat|
        (#[trigger] bfs_walk(relations, start, m)).head == bfs_walk(relations, start, m).order.len() && bfs_walk(
            relations,
            start,
            m,
        ).order == second;
    if n <= m {
        lemma_bfs_settled(relations, start, n, m);
    } else {
        lemma_bfs_settled(relations, start, m, n);
    }
}

/// With the edges a→b, a→c and b→d, added in this order under one
/// relationship, the depth-first order from a is a, c, b, d and the
/// breadth-first order is a, b, c, d.
pub proof fn lemma_diamond_orders(a: Seq<char>, b: Seq<char>, c: Seq<char>, d: Seq<char>)
    requires
        a != b,
        a != c,
        a != d,
        b != c,
        b != d,
        c != d,
    ensures
        ({
            let none = AdjacencyView { sources: Seq::empty(), targets: Seq::empty() };
            let relations = seq![none.with_edge(a, b).with_edge(a, c).with_edge(b, d)];
            &&& is_dfs_order(relations, a, seq![a, c, b, d])
            &&& is_bfs_order(relations, a, seq![a, b, c, d])
        }),
{
    let none = AdjacencyView { sources: Seq::<Seq<char>>::empty(), targets: Seq::<Seq<Seq<char>>>::empty() };
    let first = none.with_edge(a, b);
    assert(first.sources =~= seq![a]);
    assert(first.targets =~= seq![seq![b]]);
    assert(first.sources[0] == a);
    assert(first.sources.index_of(a) == 0);
    let second = first.with_edge(a, c);
    assert(second.sources =~= seq![a]);
    assert(second.targets[0] =~= seq![b, c]);
    assert(second.targets =~= seq![seq![b, c]]);
    assert(!second.sources.contains(b));
    let all = second.with_edge(b, d);
    assert(all.sources =~= seq![a, b]);
    assert(all.targets =~= seq![seq![b, c], seq![d]]);
    let relations = seq![all];
    assert(relations.first() == all);
    assert(relations.drop_first() =~= Seq::<AdjacencyView>::empty());
    assert(all.sources[0] == a && all.sources[1] == b);
    assert(all.sources.index_of(a) == 0);
    assert(all.sources.index_of(b) == 1);
    assert(!all.sources.contains(c));
    assert(!all.sources.contains(d));
    let none_next = Seq::<Seq<char>>::empty();
    assert(neighbors_in(relations.drop_first(), c).is_none());
    assert(neighbors_in(relations.drop_first(), d).is_none());
    assert(next_of(relations, a) == seq![b, c]);
    assert(next_of(relations, b) == seq![d]);
    assert(next_of(relations, c) == none_next);
    assert(next_of(relations, d) == none_next);

    // depth first
    let s0 = dfs_walk(relations, a, 0);
    assert(s0.pending.last() == a);
    assert(s0.pending.drop_last() =~= none_next);
    let seen1 = seq![a];
    assert(s0.visited.push(a) =~= seen1);
    assert(seq![b, c].drop_last() =~= seq![b]);
    assert(seq![b].drop_last() =~= none_next);
    assert(fresh_of(none_next, seen1) =~= none_next);
    assert(fresh_of(seq![b], seen1) =~= seq![b]);
    assert(fresh_of(seq![b, c], seen1) =~= seq![b, c]);
    let s1 = dfs_walk(relations, a, 1);
    assert(s1 == dfs_step(relations, s0));
    assert(s1.pending =~= seq![b, c]);
    assert(s1.visited =~= seen1);
    let seen2 = seq![a, c];
    assert(s1.pending.last() == c);
    assert(s1.pending.drop_last() =~= seq![b]);
    assert(!s1.visited.contains(c));
    assert(s1.visited.push(c) =~= seen2);
    assert(fresh_of(none_next, seen2) =~= none_next);
    let s2 = dfs_walk(relations, a, 2);
    assert(s2 == dfs_step(relations, s1));
    assert(s2.pending =~= seq![b]);
    assert(s2.visited =~= seen2);
    let seen3 = seq![a, c, b];
    assert(s2.pending.last() == b);
    assert(s2.pending.drop_last() =~= none_next);
    assert(!s2.visited.contains(b));
    assert(s2.visited.push(b) =~= seen3);
    assert(seq![d].drop_last() =~= none_next);
    assert(fresh_of(none_next, seen3) =~= none_next);
    assert(!seen3.contains(d));
    assert(fresh_of(seq![d], seen3) =~= seq![d]);
    let s3 = dfs_walk(relations, a, 3);
    assert(s3 == dfs_step(relations, s2));
    assert(s3.pending =~= seq![d]);
    assert(s3.visited =~= seen3);
    let seen4 = seq![a, c, b, d];
    assert(s3.pending.last() == d);
    assert(s3.pending.drop_last() =~= none_next);
    assert(s3.visited.push(d) =~= seen4);
    assert(fresh_of(none_next, seen4) =~= none_next);
    let s4 = dfs_walk(relations, a, 4);
    assert(s4 == dfs_step(relations, s3));
    assert(s4.pending =~= none_next);
    assert(s4.visited =~= seen4);

    // breadth first
    let q0 = bfs_walk(relations, a, 0);
    assert(q0.order[0] == a);
    assert(discover(seq![a], none_next) =~= seq![a]);
    assert(discover(seq![a], seq![b]) =~= seq![a, b]);
    assert(discover(seq![a], seq![b, c]) =~= seq![a, b, c]);
    let q1 = bfs_walk(relations, a, 1);
    assert(q1 == bfs_step(relations, q0));
    assert(q1.order =~= seq![a, b, c]);
    assert(q1.order[1] == b);
    assert(discover(seq![a, b, c], none_next) =~= seq![a, b, c]);
    assert(!seq![a, b, c].contains(d));
    assert(discover(seq![a, b, c], seq![d]) =~= seq![a, b, c, d]);
    let q2 = bfs_walk(relations, a, 2);
    assert(q2 == bfs_step(relations, q1));
    assert(q2.order =~= seq![a, b, c, d]);
    assert(q2.order[2] == c);
    assert(discover(seq![a, b, c, d], none_next) =~= seq![a, b, c, d]);
    let q3 = bfs_walk(relations, a, 3);
    assert(q3 == bfs_step(relations, q2));
    assert(q3.order =~= seq![a, b, c, d]);
    assert(q3.order[3] == d);
    let q4 = bfs_walk(relations, a, 4);
    assert(q4 == bfs_step(relations, q3));
    assert(q4.order =~= seq![a, b, c, d]);
    assert(q4.head == 4);
}

/// Every id that is the target of some edge in `targets`.
spec fn targets_set(targets: Seq<Seq<Seq<char>>>) -> Set<Seq<char>>
    decreases targets.len(),
{
    if targets.len() == 0 {
        Set::empty()
    } else {
        targets_set(targets.drop_last()).union(targets.last().to_set())
    }
}

/// Every id that is the target of some edge in `relations`.
spec fn mentioned(relations: Seq<AdjacencyView>) -> Set<Seq<char>>
    decreases relations.len(),
{
    if relations.len() == 0 {
        Set::empty()
    } else {
        mentioned(relations.drop_last()).union(targets_set(relations.last().targets))
    }
}

proof fn lemma_targets_set(targets: Seq<Seq<Seq<char>>>)
    ensures
        targets_set(targets).finite(),
        forall|j: int, k: int|
            0 <= j < targets.len() && 0 <= k < targets[j].len() ==> targets_set(targets).contains(
                #[trigger] targets[j][k],
            ),
    decreases targets.len(),
{
    broadcast use vstd::seq_lib::seq_to_set_is_finite;

    if targets.len() > 0 {
        lemma_targets_set(targets.drop_last());
        assert forall|j: int, k: int| 0 <= j < targets.len() && 0 <= k < targets[j].len() implies targets_set(
            targets,
        ).contains(#[trigger] targets[j][k]) by {
            if j < targets.len() - 1 {
                assert(targets.drop_last()[j] == targets[j]);
            } else {
                assert(targets.last().contains(targets[j][k]));
            }
        }
    }
}

proof fn lemma_mentioned(relations: Seq<AdjacencyView>)
    ensures
        mentioned(relations).finite(),
        forall|i: int, j: int, k: int|
            0 <= i < relations.len() && 0 <= j < relations[i].targets.len() && 0 <= k
                < relations[i].targets[j].len() ==> mentioned(relations).contains(
                #[trigger] relations[i].targets[j][k],
            ),
    decreases relations.len(),
{
    if relations.len() > 0 {
        lemma_mentioned(relations.drop_last());
        lemma_targets_set(relations.last().targets);
        assert forall|i: int, j: int, k: int|
            0 <= i < relations.len() && 0 <= j < relations[i].targets.len() && 0 <= k
                < relations[i].targets[j].len() implies mentioned(relations).contains(
            #[trigger] relations[i].targets[j][k],
        ) by {
            if i < relations.len() - 1 {
                assert(relations.drop_last()[i] == relations[i]);
            }
        }
    }
}

/// The neighbours of any id are among the mentioned ids.
proof fn lemma_neighbors_mentioned(relations: Seq<AdjacencyView>, id: Seq<char>)
    requires
        forall|i: int| 0 <= i < relations.len() ==> (#[trigger] relations[i]).sources.len() == relations[i].targets.len(),
    ensures
        mentioned(relations).finite(),
        forall|k: int| 0 <= k < next_of(relations, id).len() ==> mentioned(relations).contains(
            #[trigger] next_of(relations, id)[k],
        ),
{
    lemma_mentioned(relations);
    assert forall|k: int| 0 <= k < next_of(relations, id).len() implies mentioned(relations).contains(
        #[trigger] next_of(relations, id)[k],
    ) by {
        lemma_neighbors_reach(relations, id, k);
        let (i, j) = choose|i: int, j: int|
            0 <= i < relations.len() && 0 <= j < relations[i].targets.len() && relations[i].targets[j] == next_of(
                relations,
                id,
            );
        assert(relations[i].targets[j][k] == next_of(relations, id)[k]);
    }
}

/// Where `id` has neighbours, they are the targets of one source of one
/// relationship.
proof fn lemma_neighbors_reach(relations: Seq<AdjacencyView>, id: Seq<char>, k: int)
    requires
        forall|i: int| 0 <= i < relations.len() ==> (#[trigger] relations[i]).sources.len() == relations[i].targets.len(),
        0 <= k < next_of(relations, id).len(),
    ensures
        exists|i: int, j: int|
            0 <= i < relations.len() && 0 <= j < relations[i].targets.len() && relations[i].targets[j] == next_of(
                relations,
                id,
            ),
    decreases relations.len(),
{
    if relations.len() > 0 {
        let head = relations.first();
        if head.sources.contains(id) {
            let j = head.sources.index_of(id);
            assert(head.sources[j] == id);
            assert(relations[0].targets[j] == next_of(relations, id));
        } else {
            let rest = relations.drop_first();
            assert forall|i: int| 0 <= i < rest.len() implies (#[trigger] rest[i]).sources.len()
                == rest[i].targets.len() by {
                assert(rest[i] == relations[i + 1]);
            }
            lemma_neighbors_reach(rest, id, k);
            let (i, j) = choose|i: int, j: int|
                0 <= i < rest.len() && 0 <= j < rest[i].targets.len() && rest[i].targets[j] == next_of(rest, id);
            assert(rest[i] == relations[i + 1]);
            assert(relations[i + 1].targets[j] == next_of(relations, id));
        }
    }
}

/// Distinct members of a finite set are no more than the set has.
proof fn lemma_bounded(items: Seq<Seq<char>>, universe: Set<Seq<char>>)
    requires
        items.no_duplicates(),
        universe.finite(),
        forall|i: int| 0 <= i < items.len() ==> universe.contains(#[trigger] items[i]),
    ensures
        items.len() <= universe.len(),
{
    items.unique_seq_to_set();
    assert forall|x: Seq<char>| items.to_set().contains(x) implies universe.contains(x) by {
        let i = choose|i: int| 0 <= i < items.len() && items[i] == x;
        assert(universe.contains(items[i]));
    }
    lemma_len_subset(items.to_set(), universe);
}

impl EntityGraph {
    /// The entities reached from `start` in depth-first order: `start`
    /// first, then from each visited entity the neighbour whose edge was
    /// added last, before its earlier siblings. `start` need not be an
    /// entity; the result is never `None`.
    pub fn traverse_dfs(&self, start: String) -> (result: Option<Vec<String>>)
        requires
            self.wf(),
        ensures
            result.is_some(),
            is_dfs_order(self.relations(), start@, texts(result.unwrap()@)),
            result.unwrap()@.len() >= 1,
            result.unwrap()@[0]@ == start@,
    {
        let ghost relations = self.relations();
        let ghost universe = mentioned(relations).insert(start@);
        let ghost mut steps: nat = 0;
        let mut stack: Vec<String> = Vec::new();
        let mut result: Vec<String> = Vec::new();
        stack.push(start);
        proof {
            self.lemma_wf();
            lemma_mentioned(relations);
            assert(texts(stack@) =~= seq![start@]);
            assert(texts(result@) =~= Seq::<Seq<char>>::empty());
        }
        while stack.len() > 0
            invariant
                self.wf(),
                relations == self.relations(),
                universe == mentioned(relations).insert(start@),
                universe.finite(),
                dfs_walk(relations, start@, steps) == (Descent { pending: texts(stack@), visited: texts(result@) }),
                texts(result@).no_duplicates(),
                forall|i: int| 0 <= i < result@.len() ==> universe.contains(#[trigger] texts(result@)[i]),
                forall|i: int| 0 <= i < stack@.len() ==> universe.contains(#[trigger] texts(stack@)[i]),
                result@.len() <= universe.len(),
            decreases universe.len() - result@.len(), stack@.len(),
        {
            let ghost before = Descent { pending: texts(stack@), visited: texts(result@) };
            let current = stack.pop().unwrap();
            proof {
                assert(current@ == before.pending.last());
                assert(texts(stack@) =~= before.pending.drop_last());
                assert(universe.contains(before.pending[before.pending.len() - 1]));
            }
            if !contains_text(&result, &current) {
                let ghost held = result@;
                result.push(current.clone());
                let ghost seen = texts(result@);
                let ghost rest = texts(stack@);
                proof {
                    assert(seen =~= before.visited.push(current@));
                    assert forall|a: int, b: int| 0 <= a < seen.len() && 0 <= b < seen.len() && a != b implies seen[a]
                        != seen[b] by {
                        if a < before.visited.len() {
                            assert(before.visited.contains(before.visited[a]));
                        }
                        if b < before.visited.len() {
                            assert(before.visited.contains(before.visited[b]));
                        }
                    }
                    assert forall|i: int| 0 <= i < seen.len() implies universe.contains(#[trigger] seen[i]) by {
                        if i < before.visited.len() {
                            assert(seen[i] == before.visited[i]);
                        }
                    }
                    lemma_bounded(seen, universe);
                    self.lemma_wf();
                    lemma_neighbors_mentioned(relations, current@);
                }
                match self.get_neighbors(&current) {
                    Some(neighbors) => {
                        let ghost list = texts(neighbors@);
                        let mut k: usize = 0;
                        proof {
                            assert(list == next_of(relations, current@));
                            assert(list.take(0) =~= Seq::<Seq<char>>::empty());
                            assert(rest + Seq::<Seq<char>>::empty() =~= rest);
                        }
                        while k < neighbors.len()
                            invariant
                                k <= neighbors@.len(),
                                list == texts(neighbors@),
                                seen == texts(result@),
                                texts(stack@) == rest + fresh_of(list.take(k as int), seen),
                                forall|i: int| 0 <= i < list.len() ==> universe.contains(#[trigger] list[i]),
                                forall|i: int| 0 <= i < stack@.len() ==> universe.contains(#[trigger] texts(stack@)[i]),
                            decreases neighbors@.len() - k,
                        {
                            proof {
                                let upto = list.take(k as int + 1);
                                assert(upto.drop_last() =~= list.take(k as int));
                                assert(upto.last() == neighbors@[k as int]@);
                            }
                            if !contains_text(&result, &neighbors[k]) {
                                let ghost piled = stack@;
                                let next = neighbors[k].clone();
                                stack.push(next);
                                proof {
                                    assert(texts(stack@) =~= texts(piled).push(next@));
                                    assert(next@ == list[k as int]);
                                    assert(texts(stack@) =~= rest + fresh_of(list.take(k as int + 1), seen));
                                    assert forall|i: int| 0 <= i < stack@.len() implies universe.contains(
                                        #[trigger] texts(stack@)[i],
                                    ) by {
                                        if i < piled.len() {
                                            assert(texts(stack@)[i] == texts(piled)[i]);
                                        }
                                    }
                                }
                            }
                            k += 1;
                        }
                        assert(list.take(neighbors@.len() as int) =~= list);
                    },
                    None => {
                        assert(rest + fresh_of(next_of(relations, current@), seen) =~= rest);
                    },
                }
            }
            proof {
                steps = steps + 1;
            }
        }
        proof {
            assert(dfs_walk(relations, start@, 0).pending.len() == 1);
            lemma_dfs_starts_at_start(relations, start@, steps);
            assert(texts(result@)[0] == start@);
        }
        Some(result)
    }

    /// The entities reached from `start` in breadth-first order: `start`
    /// first, then the entities in the order in which they were first
    /// discovered, the neighbours of an entity in the order of its edges.
    /// `start` need not be an entity; the result is never `None`.
    pub fn traverse_bfs(&self, start: String) -> (result: Option<Vec<String>>)
        requires
            self.wf(),
        ensures
            result.is_some(),
            is_bfs_order(self.relations(), start@, texts(result.unwrap()@)),
            result.unwrap()@.len() >= 1,
            result.unwrap()@[0]@ == start@,
    {
        let ghost relations = self.relations();
        let ghost universe = mentioned(relations).insert(start@);
        let ghost mut steps: nat = 0;
        let mut visited: Vec<String> = Vec::new();
        let mut queue: VecDeque<String> = VecDeque::new();
        let mut result: Vec<String> = Vec::new();
        queue.push_back(start.clone());
        visited.push(start);
        proof {
            self.lemma_wf();
            lemma_mentioned(relations);
            assert(texts(visited@) =~= seq![start@]);
            assert(texts(queue@) =~= texts(visited@).skip(0));
            assert(texts(result@) =~= texts(visited@).take(0));
            lemma_bounded(texts(visited@), universe);
        }
        while queue.len() > 0
            invariant
                self.wf(),
                relations == self.relations(),
                universe == mentioned(relations).insert(start@),
                universe.finite(),
                bfs_walk(relations, start@, steps) == (Sweep { order: texts(visited@), head: result@.len() as nat }),
                result@.len() <= visited@.len(),
                texts(result@) == texts(visited@).take(result@.len() as int),
                texts(queue@) == texts(visited@).skip(result@.len() as int),
                texts(visited@).no_duplicates(),
                forall|i: int| 0 <= i < visited@.len() ==> universe.contains(#[trigger] texts(visited@)[i]),
                visited@.len() <= universe.len(),
            decreases universe.len() - result@.len(),
        {
            let ghost order = texts(visited@);
            let ghost head = result@.len() as int;
            let ghost waiting = texts(queue@);
            proof {
                assert(waiting.len() == queue@.len());
                assert(order.len() == visited@.len());
                assert(order.skip(head).len() == order.len() - head);
                assert(head < order.len());
                assert(waiting[0] == order.skip(head)[0]);
            }
            let ghost lined_up = queue@;
            let current = queue.pop_front().unwrap();
            let ghost behind = texts(queue@);
            let ghost done = result@;
            result.push(current.clone());
            proof {
                assert(current@ == lined_up[0]@);
                assert(current@ == order[head]);
                assert(behind =~= waiting.skip(1));
                assert(behind =~= order.skip(head + 1));
                assert(texts(result@) =~= texts(done).push(current@));
                assert(texts(result@) =~= order.take(head + 1));
                self.lemma_wf();
                lemma_neighbors_mentioned(relations, current@);
            }
            match self.get_neighbors(&current) {
                Some(neighbors) => {
                    let ghost list = texts(neighbors@);
                    let mut k: usize = 0;
                    proof {
                        assert(list == next_of(relations, current@));
                        assert(list.take(0) =~= Seq::<Seq<char>>::empty());
                    }
                    while k < neighbors.len()
                        invariant
                            k <= neighbors@.len(),
                            list == texts(neighbors@),
                            universe.finite(),
                            head + 1 <= visited@.len(),
                            head + 1 == result@.len(),
                            texts(visited@) == discover(order, list.take(k as int)),
                            texts(queue@) == texts(visited@).skip(head + 1),
                            texts(result@) == texts(visited@).take(head + 1),
                            texts(visited@).no_duplicates(),
                            forall|i: int| 0 <= i < list.len() ==> universe.contains(#[trigger] list[i]),
                            forall|i: int| 0 <= i < visited@.len() ==> universe.contains(#[trigger] texts(visited@)[i]),
                            visited@.len() <= universe.len(),
                        decreases neighbors@.len() - k,
                    {
                        proof {
                            let upto = list.take(k as int + 1);
                            assert(upto.drop_last() =~= list.take(k as int));
                            assert(upto.last() == neighbors@[k as int]@);
                        }
                        if !contains_text(&visited, &neighbors[k]) {
                            let ghost known = texts(visited@);
                            let ghost lined = texts(queue@);
                            let ghost marked = visited@;
                            let ghost queued = queue@;
                            let next = neighbors[k].clone();
                            visited.push(next.clone());
                            queue.push_back(next);
                            proof {
                                let grown = texts(visited@);
                                assert(grown =~= known.push(list[k as int]));
                                assert(texts(queue@) =~= lined.push(list[k as int]));
                                assert(texts(queue@) =~= grown.skip(head + 1));
                                assert(texts(result@) =~= grown.take(head + 1));
                                assert forall|a: int, b: int|
                                    0 <= a < grown.len() && 0 <= b < grown.len() && a != b implies grown[a]
                                    != grown[b] by {
                                    if a < known.len() {
                                        assert(known.contains(known[a]));
                                    }
                                    if b < known.len() {
                                        assert(known.contains(known[b]));
                                    }
                                }
                                assert forall|i: int| 0 <= i < grown.len() implies universe.contains(
                                    #[trigger] grown[i],
                                ) by {
                                    if i < known.len() {
                                        assert(grown[i] == known[i]);
                                    }
                                }
                                lemma_bounded(grown, universe);
                            }
                        }
                        k += 1;
                    }
                    assert(list.take(neighbors@.len() as int) =~= list);
                },
                None => {},
            }
            proof {
                steps = steps + 1;
            }
        }
        proof {
            assert(texts(result@) =~= texts(visited@));
            lemma_bfs_starts_at_start(relations, start@, steps);
            assert(texts(result@)[0] == start@);
        }
        Some(result)
    }
}

} // verus!
