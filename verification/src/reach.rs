//! What the traversals visit: the entities that can be reached from the
//! start, each once.

use crate::graph::{next_of, AdjacencyView};
use crate::traverse::{
    bfs_step, bfs_walk, dfs_step, dfs_walk, discover, fresh_of, is_bfs_order, is_dfs_order,
    lemma_discover_keeps, Descent, Sweep,
};
use vstd::prelude::*;

verus! {

/// Whether each entity of `path` but the first is a neighbour of the one
/// before it.
pub open spec fn is_path(relations: Seq<AdjacencyView>, path: Seq<Seq<char>>) -> bool {
    &&& path.len() >= 1
    &&& forall|i: int| 0 <= i < path.len() - 1 ==> next_of(relations, #[trigger] path[i]).contains(path[i + 1])
}

/// Whether a path leads from `start` to `id`; the path of `start` alone
/// leads to `start`.
pub open spec fn reaches(relations: Seq<AdjacencyView>, start: Seq<char>, id: Seq<char>) -> bool {
    exists|path: Seq<Seq<char>>| #[trigger] is_path(relations, path) && path[0] == start && path.last() == id
}

proof fn lemma_reaches_self(relations: Seq<AdjacencyView>, start: Seq<char>)
    ensures
        reaches(relations, start, start),
{
    let path = seq![start];
    assert(is_path(relations, path));
    assert(path[0] == start && path.last() == start);
}

proof fn lemma_reaches_step(relations: Seq<AdjacencyView>, start: Seq<char>, via: Seq<char>, id: Seq<char>)
    requires
        reaches(relations, start, via),
        next_of(relations, via).contains(id),
    ensures
        reaches(relations, start, id),
{
    let path = choose|path: Seq<Seq<char>>| #[trigger]
        is_path(relations, path) && path[0] == start && path.last() == via;
    let longer = path.push(id);
    assert forall|i: int| 0 <= i < longer.len() - 1 implies next_of(relations, #[trigger] longer[i]).contains(
        longer[i + 1],
    ) by {
        if i < path.len() - 1 {
            assert(longer[i] == path[i]);
            assert(longer[i + 1] == path[i + 1]);
        } else {
            assert(longer[i] == via);
        }
    }
    assert(is_path(relations, longer));
    assert(longer[0] == start && longer.last() == id);
}

proof fn lemma_push_contains(items: Seq<Seq<char>>, last: Seq<char>, id: Seq<char>)
    ensures
        items.push(last).contains(id) <==> items.contains(id) || id == last,
{
    let all = items.push(last);
    if all.contains(id) {
        let i = choose|i: int| 0 <= i < all.len() && all[i] == id;
        if i < items.len() {
            assert(items[i] == id);
        }
    }
    if items.contains(id) {
        let i = choose|i: int| 0 <= i < items.len() && items[i] == id;
        assert(all[i] == id);
    }
    if id == last {
        assert(all[items.len() as int] == id);
    }
}

proof fn lemma_drop_last_contains(items: Seq<Seq<char>>, id: Seq<char>)
    requires
        items.len() > 0,
    ensures
        items.contains(id) <==> items.drop_last().contains(id) || id == items.last(),
{
    assert(items =~= items.drop_last().push(items.last()));
    lemma_push_contains(items.drop_last(), items.last(), id);
}

proof fn lemma_concat_contains(front: Seq<Seq<char>>, back: Seq<Seq<char>>, id: Seq<char>)
    ensures
        (front + back).contains(id) <==> front.contains(id) || back.contains(id),
{
    let all = front + back;
    if all.contains(id) {
        let i = choose|i: int| 0 <= i < all.len() && all[i] == id;
        if i < front.len() {
            assert(front[i] == id);
        } else {
            assert(back[i - front.len()] == id);
        }
    }
    if front.contains(id) {
        let i = choose|i: int| 0 <= i < front.len() && front[i] == id;
        assert(all[i] == id);
    }
    if back.contains(id) {
        let i = choose|i: int| 0 <= i < back.len() && back[i] == id;
        assert(all[front.len() + i] == id);
    }
}

/// `fresh_of` holds those of the list that were not seen.
proof fn lemma_fresh_of_members(list: Seq<Seq<char>>, seen: Seq<Seq<char>>, id: Seq<char>)
    ensures
        fresh_of(list, seen).contains(id) <==> list.contains(id) && !seen.contains(id),
    decreases list.len(),
{
    if list.len() > 0 {
        lemma_fresh_of_members(list.drop_last(), seen, id);
        lemma_drop_last_contains(list, id);
        lemma_push_contains(fresh_of(list.drop_last(), seen), list.last(), id);
    } else {
        assert(!fresh_of(list, seen).contains(id));
        assert(!list.contains(id));
    }
}

/// `discover` holds what was discovered and the list, and nothing twice.
proof fn lemma_discover_members(order: Seq<Seq<char>>, list: Seq<Seq<char>>, id: Seq<char>)
    ensures
        discover(order, list).contains(id) <==> order.contains(id) || list.contains(id),
        order.no_duplicates() ==> discover(order, list).no_duplicates(),
    decreases list.len(),
{
    if list.len() > 0 {
        let known = discover(order, list.drop_last());
        lemma_discover_members(order, list.drop_last(), id);
        lemma_drop_last_contains(list, id);
        lemma_push_contains(known, list.last(), id);
        if order.no_duplicates() && !known.contains(list.last()) {
            let all = known.push(list.last());
            assert forall|a: int, b: int| 0 <= a < all.len() && 0 <= b < all.len() && a != b implies all[a]
                != all[b] by {
                if a < known.len() {
                    assert(known.contains(known[a]));
                }
                if b < known.len() {
                    assert(known.contains(known[b]));
                }
            }
        }
    } else {
        assert(!list.contains(id));
    }
}

/// Whether a set of visited entities holds every neighbour of each of them.
spec fn closed(relations: Seq<AdjacencyView>, visited: Seq<Seq<char>>) -> bool {
    forall|via: Seq<char>, id: Seq<char>|
        #![trigger visited.contains(via), next_of(relations, via).contains(id)]
        visited.contains(via) && next_of(relations, via).contains(id) ==> visited.contains(id)
}

/// A closed set that holds the start of a path holds all of it.
proof fn lemma_closed_holds_path(relations: Seq<AdjacencyView>, visited: Seq<Seq<char>>, path: Seq<Seq<char>>, i: int)
    requires
        closed(relations, visited),
        is_path(relations, path),
        visited.contains(path[0]),
        0 <= i < path.len(),
    ensures
        visited.contains(path[i]),
    decreases i,
{
    if i > 0 {
        lemma_closed_holds_path(relations, visited, path, i - 1);
        assert(next_of(relations, path[i - 1]).contains(path[i - 1 + 1]));
    }
}

/// What holds of a depth-first traversal in each of its states: nothing is
/// visited twice, the start is visited or pending, what is visited or
/// pending can be reached, and each neighbour of a visited entity is
/// visited or pending.
spec fn dfs_sane(relations: Seq<AdjacencyView>, start: Seq<char>, state: Descent) -> bool {
    &&& state.visited.no_duplicates()
    &&& state.visited.contains(start) || state.pending.contains(start)
    &&& forall|id: Seq<char>| #[trigger] state.visited.contains(id) ==> reaches(relations, start, id)
    &&& forall|id: Seq<char>| #[trigger] state.pending.contains(id) ==> reaches(relations, start, id)
    &&& forall|via: Seq<char>, id: Seq<char>|
        #![trigger state.visited.contains(via), next_of(relations, via).contains(id)]
        state.visited.contains(via) && next_of(relations, via).contains(id) ==> state.visited.contains(id)
            || state.pending.contains(id)
}

proof fn lemma_dfs_step_sane(relations: Seq<AdjacencyView>, start: Seq<char>, before: Descent)
    requires
        dfs_sane(relations, start, before),
    ensures
        dfs_sane(relations, start, dfs_step(relations, before)),
{
    let after = dfs_step(relations, before);
    if before.pending.len() > 0 {
        let current = before.pending.last();
        let rest = before.pending.drop_last();
        assert(before.pending.contains(current)) by {
            assert(before.pending[before.pending.len() - 1] == current);
        }
        assert forall|id: Seq<char>| before.pending.contains(id) <==> rest.contains(id) || id == current by {
            lemma_drop_last_contains(before.pending, id);
        }
        if before.visited.contains(current) {
            assert forall|id: Seq<char>| #[trigger] after.pending.contains(id) implies reaches(
                relations,
                start,
                id,
            ) by {
                assert(before.pending.contains(id));
            }
            assert forall|via: Seq<char>, id: Seq<char>|
                #![trigger after.visited.contains(via), next_of(relations, via).contains(id)]
                after.visited.contains(via) && next_of(relations, via).contains(id) implies after.visited.contains(
                id,
            ) || after.pending.contains(id) by {
                if before.pending.contains(id) && !rest.contains(id) {
                    assert(id == current);
                }
            }
            if !before.visited.contains(start) {
                assert(before.pending.contains(start));
                assert(rest.contains(start));
            }
        } else {
            let seen = before.visited.push(current);
            let list = next_of(relations, current);
            let fresh = fresh_of(list, seen);
            assert(after.visited == seen);
            assert(after.pending == rest + fresh);
            assert forall|id: Seq<char>| seen.contains(id) <==> before.visited.contains(id) || id == current by {
                lemma_push_contains(before.visited, current, id);
            }
            assert forall|id: Seq<char>| after.pending.contains(id) <==> rest.contains(id) || (list.contains(id)
                && !seen.contains(id)) by {
                lemma_concat_contains(rest, fresh, id);
                lemma_fresh_of_members(list, seen, id);
            }
            assert forall|a: int, b: int| 0 <= a < seen.len() && 0 <= b < seen.len() && a != b implies seen[a]
                != seen[b] by {
                if a < before.visited.len() {
                    assert(before.visited.contains(before.visited[a]));
                }
                if b < before.visited.len() {
                    assert(before.visited.contains(before.visited[b]));
                }
            }
            assert forall|id: Seq<char>| #[trigger] after.visited.contains(id) implies reaches(
                relations,
                start,
                id,
            ) by {
                if !before.visited.contains(id) {
                    assert(id == current);
                }
            }
            assert forall|id: Seq<char>| #[trigger] after.pending.contains(id) implies reaches(
                relations,
                start,
                id,
            ) by {
                if rest.contains(id) {
                    assert(before.pending.contains(id));
                } else {
                    lemma_reaches_step(relations, start, current, id);
                }
            }
            assert forall|via: Seq<char>, id: Seq<char>|
                #![trigger after.visited.contains(via), next_of(relations, via).contains(id)]
                after.visited.contains(via) && next_of(relations, via).contains(id) implies after.visited.contains(
                id,
            ) || after.pending.contains(id) by {
                if before.visited.contains(via) {
                    if !before.visited.contains(id) {
                        assert(before.pending.contains(id));
                    }
                } else {
                    assert(via == current);
                }
            }
            if !before.visited.contains(start) {
                assert(before.pending.contains(start));
            }
        }
    }
}

proof fn lemma_dfs_sane(relations: Seq<AdjacencyView>, start: Seq<char>, n: nat)
    ensures
        dfs_sane(relations, start, dfs_walk(relations, start, n)),
    decreases n,
{
    if n == 0 {
        let first = dfs_walk(relations, start, 0);
        assert(first.pending[0] == start);
        lemma_reaches_self(relations, start);
        assert forall|id: Seq<char>| #[trigger] first.pending.contains(id) implies reaches(relations, start, id) by {
            let i = choose|i: int| 0 <= i < first.pending.len() && first.pending[i] == id;
            assert(id == start);
        }
    } else {
        lemma_dfs_sane(relations, start, (n - 1) as nat);
        lemma_dfs_step_sane(relations, start, dfs_walk(relations, start, (n - 1) as nat));
    }
}

/// A depth-first traversal visits the entities that can be reached from its
/// start, and each of them once.
pub proof fn lemma_dfs_visits_what_is_reached(relations: Seq<AdjacencyView>, start: Seq<char>, order: Seq<Seq<char>>)
    requires
        is_dfs_order(relations, start, order),
    ensures
        order.no_duplicates(),
        forall|id: Seq<char>| #[trigger] order.contains(id) <==> reaches(relations, start, id),
{
    let n = choose|n: nat|
        (#[trigger] dfs_walk(relations, start, n)).pending.len() == 0 && dfs_walk(relations, start, n).visited
            == order;
    let end = dfs_walk(relations, start, n);
    lemma_dfs_sane(relations, start, n);
    assert forall|id: Seq<char>| !end.pending.contains(id) by {
        if end.pending.contains(id) {
            let i = choose|i: int| 0 <= i < end.pending.len() && end.pending[i] == id;
        }
    }
    assert(closed(relations, order));
    assert forall|id: Seq<char>| #[trigger] order.contains(id) <==> reaches(relations, start, id) by {
        if reaches(relations, start, id) {
            let path = choose|path: Seq<Seq<char>>| #[trigger]
                is_path(relations, path) && path[0] == start && path.last() == id;
            lemma_closed_holds_path(relations, order, path, path.len() - 1);
        }
    }
}

/// What holds of a breadth-first traversal in each of its states: nothing
/// is discovered twice, the start is discovered, what is discovered can be
/// reached, and each neighbour of a visited entity is discovered.
spec fn bfs_sane(relations: Seq<AdjacencyView>, start: Seq<char>, state: Sweep) -> bool {
    &&& state.order.no_duplicates()
    &&& state.order.contains(start)
    &&& state.head <= state.order.len()
    &&& forall|id: Seq<char>| #[trigger] state.order.contains(id) ==> reaches(relations, start, id)
    &&& forall|i: int, id: Seq<char>|
        #![trigger next_of(relations, state.order[i]).contains(id)]
        0 <= i < state.head && next_of(relations, state.order[i]).contains(id) ==> state.order.contains(id)
}

proof fn lemma_bfs_step_sane(relations: Seq<AdjacencyView>, start: Seq<char>, before: Sweep)
    requires
        bfs_sane(relations, start, before),
    ensures
        bfs_sane(relations, start, bfs_step(relations, before)),
{
    let after = bfs_step(relations, before);
    if before.head < before.order.len() {
        let current = before.order[before.head as int];
        let list = next_of(relations, current);
        assert(before.order.contains(current));
        lemma_discover_keeps(before.order, list);
        assert forall|id: Seq<char>| after.order.contains(id) <==> before.order.contains(id) || list.contains(
            id,
        ) by {
            lemma_discover_members(before.order, list, id);
        }
        lemma_discover_members(before.order, list, start);
        assert forall|id: Seq<char>| #[trigger] after.order.contains(id) implies reaches(relations, start, id) by {
            if !before.order.contains(id) {
                lemma_reaches_step(relations, start, current, id);
            }
        }
        assert forall|i: int, id: Seq<char>|
            #![trigger next_of(relations, after.order[i]).contains(id)]
            0 <= i < after.head && next_of(relations, after.order[i]).contains(id) implies after.order.contains(
            id,
        ) by {
            assert(after.order[i] == before.order[i]);
            if i < before.head {
                assert(before.order.contains(id));
            }
        }
    }
}

proof fn lemma_bfs_sane(relations: Seq<AdjacencyView>, start: Seq<char>, n: nat)
    ensures
        bfs_sane(relations, start, bfs_walk(relations, start, n)),
    decreases n,
{
    if n == 0 {
        let first = bfs_walk(relations, start, 0);
        assert(first.order[0] == start);
        lemma_reaches_self(relations, start);
        assert forall|id: Seq<char>| #[trigger] first.order.contains(id) implies reaches(relations, start, id) by {
            let i = choose|i: int| 0 <= i < first.order.len() && first.order[i] == id;
            assert(id == start);
        }
    } else {
        lemma_bfs_sane(relations, start, (n - 1) as nat);
        lemma_bfs_step_sane(relations, start, bfs_walk(relations, start, (n - 1) as nat));
    }
}

/// A breadth-first traversal visits the entities that can be reached from
/// its start, and each of them once.
pub proof fn lemma_bfs_visits_what_is_reached(relations: Seq<AdjacencyView>, start: Seq<char>, order: Seq<Seq<char>>)
    requires
        is_bfs_order(relations, start, order),
    ensures
        order.no_duplicates(),
        forall|id: Seq<char>| #[trigger] order.contains(id) <==> reaches(relations, start, id),
{
    let n = choose|n: nat|
        (#[trigger] bfs_walk(relations, start, n)).head == bfs_walk(relations, start, n).order.len() && bfs_walk(
            relations,
            start,
            n,
        ).order == order;
    let end = bfs_walk(relations, start, n);
    lemma_bfs_sane(relations, start, n);
    assert forall|via: Seq<char>, id: Seq<char>|
        #![trigger order.contains(via), next_of(relations, via).contains(id)]
        order.contains(via) && next_of(relations, via).contains(id) implies order.contains(id) by {
        let i = choose|i: int| 0 <= i < order.len() && order[i] == via;
        assert(next_of(relations, end.order[i]).contains(id));
    }
    assert(closed(relations, order));
    assert forall|id: Seq<char>| #[trigger] order.contains(id) <==> reaches(relations, start, id) by {
        if reaches(relations, start, id) {
            let path = choose|path: Seq<Seq<char>>| #[trigger]
                is_path(relations, path) && path[0] == start && path.last() == id;
            lemma_closed_holds_path(relations, order, path, path.len() - 1);
        }
    }
}

/// The two traversals from one start visit the same entities, each once:
/// one order is the other rearranged.
pub proof fn lemma_traversals_visit_the_same(
    relations: Seq<AdjacencyView>,
    start: Seq<char>,
    depth_first: Seq<Seq<char>>,
    breadth_first: Seq<Seq<char>>,
)
    requires
        is_dfs_order(relations, start, depth_first),
        is_bfs_order(relations, start, breadth_first),
    ensures
        depth_first.no_duplicates(),
        breadth_first.no_duplicates(),
        depth_first.len() == breadth_first.len(),
        forall|id: Seq<char>| #[trigger] depth_first.contains(id) <==> breadth_first.contains(id),
{
    lemma_dfs_visits_what_is_reached(relations, start, depth_first);
    lemma_bfs_visits_what_is_reached(relations, start, breadth_first);
    assert forall|id: Seq<char>| #[trigger] depth_first.contains(id) <==> breadth_first.contains(id) by {
        assert(depth_first.contains(id) <==> reaches(relations, start, id));
        assert(breadth_first.contains(id) <==> reaches(relations, start, id));
    }
    depth_first.unique_seq_to_set();
    breadth_first.unique_seq_to_set();
    assert(depth_first.to_set() =~= breadth_first.to_set());
}

} // verus!
