//! Heads of a range of an index under a filter: of the ancestors of given
//! heads that are no ancestors of given roots and that the filter accepts,
//! those of which no other is a descendant.

use super::common::heap_of;
use super::common::lemma_heads_of_matches;
use super::common::lemma_matches_push;
use super::common::lemma_side_expand;
use super::common::lemma_side_start;
use super::common::side_invariant;
use super::composite::CompositeIndex;
use super::composite::IndexEntry;
use super::composite::IndexPosition;
use super::graph::Graph;
use super::heads::below_head;
use super::heads::extend_with_parents;
use super::heads::is_head_among;
use super::heads::lemma_parent_is_proper_ancestor;
use super::heads::parent_set;
use super::heads::position_set;
use super::heads::reached;
use super::heads::shift_to_parents;
use super::heads::strictly_descending;
use super::heap::dedup_pop;
use super::heap::PositionHeap;
use vstd::prelude::*;

verus! {

/// What is unwanted: the ancestors of the roots, the roots themselves, and
/// the ancestors of the heads found.
pub open spec fn is_unwanted(graph: Graph, roots: Set<int>, found: Set<int>, x: int) -> bool {
    reached(graph, roots, x) || below_head(graph, found, x)
}

/// From `start` exactly the unwanted positions are reached.
pub open spec fn unwanted_from(graph: Graph, roots: Set<int>, found: Set<int>, start: Set<int>) -> bool {
    forall|x: int| #[trigger] reached(graph, start, x) <==> is_unwanted(graph, roots, found, x)
}

/// Every wanted position from the frontier on is a head found or an
/// ancestor of one.
pub open spec fn wanted_passed(graph: Graph, wanted: Set<int>, found: Set<int>, frontier: int) -> bool {
    forall|y: int| frontier <= y && #[trigger] wanted.contains(y) ==> reached(graph, found, y)
}

/// No head found is an ancestor of another.
pub open spec fn found_are_heads(graph: Graph, found: Set<int>) -> bool {
    forall|d: int| #[trigger] found.contains(d) ==> !below_head(graph, found, d)
}

/// What the queue of unwanted positions has passed without holding it is
/// not unwanted.
pub proof fn lemma_not_reached(graph: Graph, start: Set<int>, queue: Set<int>, frontier: int, p: int)
    requires
        graph.wf(),
        side_invariant(graph, start, Set::<int>::empty(), queue, frontier),
        0 <= p < frontier,
        p < graph.len(),
        forall|x: int| queue.contains(x) ==> x < p,
    ensures
        !reached(graph, start, p),
{
    if reached(graph, start, p) {
        assert(!reached(graph, Set::<int>::empty(), p));
        assert(reached(graph, queue, p));
        let w = choose|w: int| queue.contains(w) && #[trigger] graph.is_ancestor(p, w);
        graph.lemma_ancestor_bounds(p, w);
    }
}

/// The wanted positions between the greatest position of the queue and the
/// frontier are ancestors of heads found.
pub proof fn lemma_wanted_passed(
    graph: Graph,
    heads: Set<int>,
    roots: Set<int>,
    wanted: Set<int>,
    found: Set<int>,
    start: Set<int>,
    queue: Set<int>,
    frontier: int,
    p: int,
)
    requires
        graph.wf(),
        side_invariant(graph, heads, start, queue, frontier),
        unwanted_from(graph, roots, found, start),
        wanted_passed(graph, wanted, found, frontier),
        forall|x: int| #[trigger] wanted.contains(x) ==> reached(graph, heads, x) && !reached(graph, roots, x),
        forall|x: int| queue.contains(x) ==> x <= p,
    ensures
        forall|y: int| p < y && #[trigger] wanted.contains(y) ==> reached(graph, found, y),
        wanted.contains(p) && reached(graph, start, p) ==> reached(graph, found, p),
{
    assert forall|y: int| p <= y && #[trigger] wanted.contains(y) && (y > p || reached(
        graph,
        start,
        p,
    )) implies reached(graph, found, y) by {
        if y < frontier {
            let s = choose|s: int| heads.contains(s) && #[trigger] graph.is_ancestor(y, s);
            graph.lemma_ancestor_bounds(y, s);
            if !reached(graph, start, y) {
                assert(reached(graph, heads, y));
                assert(reached(graph, queue, y));
                let w = choose|w: int| queue.contains(w) && #[trigger] graph.is_ancestor(y, w);
                graph.lemma_ancestor_bounds(y, w);
                assert(y == p);
            }
            assert(reached(graph, start, y));
            assert(is_unwanted(graph, roots, found, y));
            let d = choose|d: int| found.contains(d) && #[trigger] graph.is_proper_ancestor(y, d);
            assert(graph.is_ancestor(y, d));
        }
    }
}

/// An unwanted position leaves the queue of wanted positions.
pub proof fn lemma_wanted_drop(
    graph: Graph,
    heads: Set<int>,
    start: Set<int>,
    queue: Set<int>,
    frontier: int,
    p: int,
    after: Set<int>,
)
    requires
        graph.wf(),
        side_invariant(graph, heads, start, queue, frontier),
        queue.contains(p),
        forall|x: int| queue.contains(x) ==> x <= p,
        reached(graph, start, p),
        after == queue.remove(p),
    ensures
        side_invariant(graph, heads, start, after, p),
{
    assert forall|x: int|
        0 <= x < p && x < graph.len() && #[trigger] reached(graph, heads, x) && !reached(
            graph,
            start,
            x,
        ) implies reached(graph, after, x) by {
        assert(reached(graph, queue, x));
        let w = choose|w: int| queue.contains(w) && #[trigger] graph.is_ancestor(x, w);
        if w == p {
            let s = choose|s: int| start.contains(s) && #[trigger] graph.is_ancestor(p, s);
            graph.lemma_ancestor_transitive(x, p, s);
            assert(reached(graph, start, x));
        }
        assert(after.contains(w));
    }
}

/// A head is found: it leaves the queue of wanted positions, and its
/// ancestors are unwanted from now on.
pub proof fn lemma_head_found(
    graph: Graph,
    heads: Set<int>,
    roots: Set<int>,
    found: Set<int>,
    start: Set<int>,
    queue: Set<int>,
    frontier: int,
    p: int,
    after: Set<int>,
    unwanted_queue: Set<int>,
    unwanted_frontier: int,
)
    requires
        graph.wf(),
        side_invariant(graph, heads, start, queue, frontier),
        unwanted_from(graph, roots, found, start),
        found_are_heads(graph, found),
        forall|d: int| #[trigger] found.contains(d) ==> d > p,
        queue.contains(p),
        forall|x: int| queue.contains(x) ==> x <= p,
        !reached(graph, start, p),
        after == queue.remove(p),
        side_invariant(graph, start, Set::<int>::empty(), unwanted_queue, unwanted_frontier),
        p < unwanted_frontier,
    ensures
        side_invariant(graph, heads, start.union(parent_set(graph, p)), after, p),
        unwanted_from(graph, roots, found.insert(p), start.union(parent_set(graph, p))),
        found_are_heads(graph, found.insert(p)),
        side_invariant(
            graph,
            start.union(parent_set(graph, p)),
            Set::<int>::empty(),
            unwanted_queue.union(parent_set(graph, p)),
            unwanted_frontier,
        ),
{
    let more = start.union(parent_set(graph, p));
    let all = found.insert(p);
    assert(graph.is_ancestor(p, p));
    // What is reached from the parents of `p` lies below `p`.
    assert forall|x: int| #[trigger] reached(graph, more, x) <==> is_unwanted(
        graph,
        roots,
        all,
        x,
    ) by {
        if reached(graph, more, x) {
            let s = choose|s: int| more.contains(s) && #[trigger] graph.is_ancestor(x, s);
            if start.contains(s) {
                assert(reached(graph, start, x));
                assert(is_unwanted(graph, roots, found, x));
                if !reached(graph, roots, x) {
                    let d = choose|d: int| found.contains(d) && #[trigger] graph.is_proper_ancestor(
                        x,
                        d,
                    );
                    assert(all.contains(d));
                }
            } else {
                assert(graph.is_parent(s, p));
                lemma_parent_is_proper_ancestor(graph, s, p);
                graph.lemma_ancestor_transitive(x, s, p);
                graph.lemma_ancestor_bounds(x, s);
                assert(all.contains(p));
                assert(graph.is_proper_ancestor(x, p));
            }
        }
        if is_unwanted(graph, roots, all, x) {
            if reached(graph, roots, x) {
                assert(is_unwanted(graph, roots, found, x));
                assert(reached(graph, start, x));
                let s = choose|s: int| start.contains(s) && #[trigger] graph.is_ancestor(x, s);
                assert(more.contains(s));
            } else {
                let d = choose|d: int| all.contains(d) && #[trigger] graph.is_proper_ancestor(x, d);
                if d == p {
                    graph.lemma_proper_ancestor(x, p);
                    let k = choose|k: int|
                        0 <= k < graph.parents[p].len() && #[trigger] graph.is_ancestor(
                            x,
                            graph.parents[p][k],
                        );
                    let s = graph.parents[p][k];
                    assert(graph.is_parent(s, p));
                    assert(more.contains(s));
                    assert(graph.is_ancestor(x, s));
                } else {
                    assert(is_unwanted(graph, roots, found, x));
                    assert(reached(graph, start, x));
                    let s = choose|s: int| start.contains(s) && #[trigger] graph.is_ancestor(x, s);
                    assert(more.contains(s));
                }
            }
        }
    }
    assert forall|x: int|
        0 <= x < p && x < graph.len() && #[trigger] reached(graph, heads, x) && !reached(
            graph,
            more,
            x,
        ) implies reached(graph, after, x) by {
        if reached(graph, start, x) {
            let s = choose|s: int| start.contains(s) && #[trigger] graph.is_ancestor(x, s);
            assert(more.contains(s));
        }
        assert(reached(graph, queue, x));
        let w = choose|w: int| queue.contains(w) && #[trigger] graph.is_ancestor(x, w);
        if w == p {
            assert(graph.is_proper_ancestor(x, p));
            assert(all.contains(p));
            assert(is_unwanted(graph, roots, all, x));
        }
        assert(after.contains(w));
    }
    assert forall|d: int| #[trigger] all.contains(d) implies !below_head(graph, all, d) by {
        if below_head(graph, all, d) {
            let e = choose|e: int| all.contains(e) && #[trigger] graph.is_proper_ancestor(d, e);
            graph.lemma_ancestor_bounds(d, e);
            if d == p {
                assert(found.contains(e));
                assert(is_unwanted(graph, roots, found, p));
            } else if e == p {
                assert(d > p);
            } else {
                assert(below_head(graph, found, d));
            }
        }
    }
    let longer = unwanted_queue.union(parent_set(graph, p));
    assert forall|x: int| #[trigger] longer.contains(x) implies 0 <= x < unwanted_frontier && x
        < graph.len() && reached(graph, more, x) by {
        if unwanted_queue.contains(x) {
            let s = choose|s: int| start.contains(s) && #[trigger] graph.is_ancestor(x, s);
            assert(more.contains(s));
        } else {
            assert(graph.is_parent(x, p));
            lemma_parent_is_proper_ancestor(graph, x, p);
            assert(more.contains(x));
            assert(graph.is_ancestor(x, x));
        }
    }
    assert forall|x: int|
        0 <= x < unwanted_frontier && x < graph.len() && #[trigger] reached(graph, more, x)
            && !reached(graph, Set::<int>::empty(), x) implies reached(graph, longer, x) by {
        let s = choose|s: int| more.contains(s) && #[trigger] graph.is_ancestor(x, s);
        if start.contains(s) {
            assert(reached(graph, start, x));
            assert(reached(graph, unwanted_queue, x));
            let w = choose|w: int| unwanted_queue.contains(w) && #[trigger] graph.is_ancestor(x, w);
            assert(longer.contains(w));
        } else {
            assert(longer.contains(s));
        }
    }
}

/// When no wanted position is left, every wanted position is a head found
/// or an ancestor of one.
pub proof fn lemma_wanted_done(
    graph: Graph,
    heads: Set<int>,
    roots: Set<int>,
    wanted: Set<int>,
    found: Set<int>,
    start: Set<int>,
    frontier: int,
)
    requires
        graph.wf(),
        side_invariant(graph, heads, start, Set::<int>::empty(), frontier),
        unwanted_from(graph, roots, found, start),
        wanted_passed(graph, wanted, found, frontier),
        forall|x: int| #[trigger] wanted.contains(x) ==> reached(graph, heads, x) && !reached(graph, roots, x),
    ensures
        forall|c: int| #[trigger] wanted.contains(c) ==> reached(graph, found, c),
{
    assert forall|c: int| #[trigger] wanted.contains(c) implies reached(graph, found, c) by {
        if c < frontier {
            let s = choose|s: int| heads.contains(s) && #[trigger] graph.is_ancestor(c, s);
            graph.lemma_ancestor_bounds(c, s);
            if !reached(graph, start, c) {
                assert(reached(graph, heads, c));
                assert(reached(graph, Set::<int>::empty(), c));
                let w = choose|w: int|
                    Set::<int>::empty().contains(w) && #[trigger] graph.is_ancestor(c, w);
            }
            assert(is_unwanted(graph, roots, found, c));
            let d = choose|d: int| found.contains(d) && #[trigger] graph.is_proper_ancestor(c, d);
            assert(graph.is_ancestor(c, d));
        }
    }
}

/// Repeatedly `shift_to_parents` until reaching a target position. Returns
/// true if the target position matched a position in the queue.
pub(crate) fn shift_to_parents_until(
    queue: &mut PositionHeap,
    index: &CompositeIndex,
    target_pos: IndexPosition,
    Ghost(start): Ghost<Set<int>>,
    Ghost(frontier): Ghost<int>,
) -> (result: (bool, Ghost<int>))
    requires
        index.wf(),
        old(queue).wf(),
        target_pos.0 < index.entries().len(),
        target_pos.0 < frontier,
        side_invariant(index.graph(), start, Set::<int>::empty(), old(queue).set(), frontier),
    ensures
        final(queue).wf(),
        side_invariant(index.graph(), start, Set::<int>::empty(), final(queue).set(), result.1@),
        result.0 == reached(index.graph(), start, target_pos.0 as int),
        target_pos.0 <= result.1@ <= frontier,
        !result.0 ==> target_pos.0 < result.1@,
{
    let ghost graph = index.graph();
    let ghost mut frontier: int = frontier;
    let ghost limit = frontier;
    let mut found: bool = false;
    loop
        invariant_except_break
            index.wf(),
            graph == index.graph(),
            queue.wf(),
            target_pos.0 < graph.len(),
            target_pos.0 < frontier <= limit,
            !found,
            side_invariant(graph, start, Set::<int>::empty(), queue.set(), frontier),
        ensures
            queue.wf(),
            side_invariant(graph, start, Set::<int>::empty(), queue.set(), frontier),
            target_pos.0 <= frontier <= limit,
            found ==> reached(graph, start, target_pos.0 as int),
            !found ==> target_pos.0 < frontier && forall|x: int|
                queue.set().contains(x) ==> x < target_pos.0,
        decreases frontier,
    {
        proof {
            queue.lemma_max();
        }
        let pos: u32 = match queue.peek() {
            Some(pos) => pos,
            None => {
                break ;
            },
        };
        if pos < target_pos.0 {
            break ;
        }
        let ghost before = queue.set();
        let entry: IndexEntry = index.entry_by_pos(IndexPosition(pos));
        shift_to_parents(queue, &entry, Ghost(graph));
        proof {
            lemma_side_expand(
                graph,
                start,
                Set::<int>::empty(),
                before,
                frontier,
                pos as int,
                queue.set(),
            );
            frontier = pos as int;
        }
        if pos == target_pos.0 {
            found = true;
            break ;
        }
    }
    proof {
        if !found {
            lemma_not_reached(graph, start, queue.set(), frontier, target_pos.0 as int);
        }
    }
    (found, Ghost(frontier))
}

/// The positions that are wanted: the ancestors of the heads, the heads
/// included, that are no ancestors of a root nor a root, and for which the
/// filter may answer that it accepts them.
pub open spec fn wanted_positions<E, F: Fn(IndexPosition) -> Result<bool, E>>(
    graph: Graph,
    roots: Set<int>,
    heads: Set<int>,
    filter: F,
) -> Set<int> {
    Set::new(
        |x: int|
            0 <= x <= u32::MAX && reached(graph, heads, x) && !reached(graph, roots, x)
                && call_ensures(filter, (IndexPosition(x as u32),), Ok::<bool, E>(true)),
    )
}

/// The filter can be asked of every position, and never both accepts and
/// refuses one.
pub open spec fn is_filter<E, F: Fn(IndexPosition) -> Result<bool, E>>(filter: F) -> bool {
    &&& forall|p: IndexPosition| #[trigger] call_requires(filter, (p,))
    &&& forall|p: IndexPosition|
        !(#[trigger] call_ensures(filter, (p,), Ok::<bool, E>(true)) && call_ensures(
            filter,
            (p,),
            Ok::<bool, E>(false),
        ))
}

/// What the search for the heads of a range keeps between its steps.
pub open spec fn range_state(
    graph: Graph,
    roots: Set<int>,
    heads: Set<int>,
    wanted: Set<int>,
    found: Seq<IndexPosition>,
    start: Set<int>,
    wanted_queue: Set<int>,
    unwanted_queue: Set<int>,
    frontier: int,
    unwanted_frontier: int,
) -> bool {
    &&& 0 <= frontier <= unwanted_frontier
    &&& side_invariant(graph, heads, start, wanted_queue, frontier)
    &&& side_invariant(graph, start, Set::<int>::empty(), unwanted_queue, unwanted_frontier)
    &&& unwanted_from(graph, roots, position_set(found), start)
    &&& wanted_passed(graph, wanted, position_set(found), frontier)
    &&& found_are_heads(graph, position_set(found))
    &&& position_set(found).subset_of(wanted)
    &&& strictly_descending(found)
    &&& forall|d: int| #[trigger] position_set(found).contains(d) ==> d >= frontier
    &&& forall|x: int| #[trigger]
        wanted.contains(x) ==> reached(graph, heads, x) && !reached(graph, roots, x)
}

/// The state at the start of the search.
pub proof fn lemma_range_start(graph: Graph, roots: Set<int>, heads: Set<int>, wanted: Set<int>)
    requires
        graph.wf(),
        graph.len() <= u32::MAX + 1,
        forall|x: int| roots.contains(x) ==> 0 <= x < graph.len() && x <= u32::MAX,
        forall|x: int| heads.contains(x) ==> 0 <= x < graph.len() && x <= u32::MAX,
        forall|x: int| #[trigger]
            wanted.contains(x) ==> reached(graph, heads, x) && !reached(graph, roots, x),
    ensures
        range_state(
            graph,
            roots,
            heads,
            wanted,
            Seq::<IndexPosition>::empty(),
            roots,
            heads,
            roots,
            u32::MAX + 1,
            u32::MAX + 1,
        ),
{
    let none = Seq::<IndexPosition>::empty();
    lemma_side_start(graph, roots);
    lemma_side_start(graph, heads);
    assert(position_set(none) =~= Set::<int>::empty());
    assert forall|y: int| u32::MAX + 1 <= y && #[trigger] wanted.contains(y) implies reached(
        graph,
        position_set(none),
        y,
    ) by {
        let s = choose|s: int| heads.contains(s) && #[trigger] graph.is_ancestor(y, s);
        graph.lemma_ancestor_bounds(y, s);
    }
    assert forall|x: int| #[trigger] reached(graph, roots, x) <==> is_unwanted(
        graph,
        roots,
        position_set(none),
        x,
    ) by {}
    assert forall|x: int| #[trigger]
        heads.contains(x) implies 0 <= x < u32::MAX + 1 && x < graph.len() && reached(
        graph,
        heads,
        x,
    ) by {
        assert(graph.is_ancestor(x, x));
    }
}

/// The greatest wanted position is unwanted, and is dropped.
pub proof fn lemma_range_drop(
    graph: Graph,
    roots: Set<int>,
    heads: Set<int>,
    wanted: Set<int>,
    found: Seq<IndexPosition>,
    start: Set<int>,
    wanted_queue: Set<int>,
    unwanted_queue: Set<int>,
    frontier: int,
    unwanted_frontier: int,
    p: int,
    after: Set<int>,
    unwanted_after: Set<int>,
    passed: int,
)
    requires
        graph.wf(),
        range_state(
            graph,
            roots,
            heads,
            wanted,
            found,
            start,
            wanted_queue,
            unwanted_queue,
            frontier,
            unwanted_frontier,
        ),
        wanted_queue.contains(p),
        forall|x: int| wanted_queue.contains(x) ==> x <= p,
        reached(graph, start, p),
        after == wanted_queue.remove(p),
        side_invariant(graph, start, Set::<int>::empty(), unwanted_after, passed),
        p <= passed,
    ensures
        range_state(
            graph,
            roots,
            heads,
            wanted,
            found,
            start,
            after,
            unwanted_after,
            p,
            passed,
        ),
{
    lemma_wanted_passed(
        graph,
        heads,
        roots,
        wanted,
        position_set(found),
        start,
        wanted_queue,
        frontier,
        p,
    );
    lemma_wanted_drop(graph, heads, start, wanted_queue, frontier, p, after);
}

/// The greatest wanted position is refused by the filter, and is replaced
/// by its parents.
pub proof fn lemma_range_refuse(
    graph: Graph,
    roots: Set<int>,
    heads: Set<int>,
    wanted: Set<int>,
    found: Seq<IndexPosition>,
    start: Set<int>,
    wanted_queue: Set<int>,
    unwanted_queue: Set<int>,
    frontier: int,
    unwanted_frontier: int,
    p: int,
    after: Set<int>,
    unwanted_after: Set<int>,
    passed: int,
)
    requires
        graph.wf(),
        range_state(
            graph,
            roots,
            heads,
            wanted,
            found,
            start,
            wanted_queue,
            unwanted_queue,
            frontier,
            unwanted_frontier,
        ),
        wanted_queue.contains(p),
        forall|x: int| wanted_queue.contains(x) ==> x <= p,
        !wanted.contains(p),
        after == wanted_queue.remove(p).union(parent_set(graph, p)),
        side_invariant(graph, start, Set::<int>::empty(), unwanted_after, passed),
        p <= passed,
    ensures
        range_state(
            graph,
            roots,
            heads,
            wanted,
            found,
            start,
            after,
            unwanted_after,
            p,
            passed,
        ),
{
    lemma_wanted_passed(
        graph,
        heads,
        roots,
        wanted,
        position_set(found),
        start,
        wanted_queue,
        frontier,
        p,
    );
    lemma_side_expand(graph, heads, start, wanted_queue, frontier, p, after);
}

/// The greatest wanted position is not unwanted and the filter accepts it:
/// it is a head.
pub proof fn lemma_range_accept(
    graph: Graph,
    roots: Set<int>,
    heads: Set<int>,
    wanted: Set<int>,
    found: Seq<IndexPosition>,
    start: Set<int>,
    wanted_queue: Set<int>,
    unwanted_queue: Set<int>,
    frontier: int,
    unwanted_frontier: int,
    p: IndexPosition,
    after: Set<int>,
    unwanted_before: Set<int>,
    passed: int,
)
    requires
        graph.wf(),
        range_state(
            graph,
            roots,
            heads,
            wanted,
            found,
            start,
            wanted_queue,
            unwanted_queue,
            frontier,
            unwanted_frontier,
        ),
        wanted_queue.contains(p.0 as int),
        forall|x: int| wanted_queue.contains(x) ==> x <= p.0,
        !reached(graph, start, p.0 as int),
        wanted.contains(p.0 as int),
        after == wanted_queue.remove(p.0 as int),
        side_invariant(graph, start, Set::<int>::empty(), unwanted_before, passed),
        p.0 < passed,
    ensures
        range_state(
            graph,
            roots,
            heads,
            wanted,
            found.push(p),
            start.union(parent_set(graph, p.0 as int)),
            after,
            unwanted_before.union(parent_set(graph, p.0 as int)),
            p.0 as int,
            passed,
        ),
{
    let y = p.0 as int;
    let old_found = position_set(found);
    lemma_wanted_passed(graph, heads, roots, wanted, old_found, start, wanted_queue, frontier, y);
    lemma_matches_push(found, p);
    assert forall|d: int| #[trigger] old_found.contains(d) implies d > y by {
        if d == y {
            assert(graph.is_ancestor(y, y));
            assert(!is_unwanted(graph, roots, old_found, y));
            // A head found lies in the queue no more: it was passed.
            assert(d >= frontier);
        }
    }
    lemma_head_found(
        graph,
        heads,
        roots,
        old_found,
        start,
        wanted_queue,
        frontier,
        y,
        after,
        unwanted_before,
        passed,
    );
    let more = found.push(p);
    assert(graph.is_ancestor(y, y));
    assert forall|z: int| y <= z && #[trigger] wanted.contains(z) implies reached(
        graph,
        position_set(more),
        z,
    ) by {
        if z > y {
            let d = choose|d: int| old_found.contains(d) && #[trigger] graph.is_ancestor(z, d);
            assert(position_set(more).contains(d));
        } else {
            assert(position_set(more).contains(y));
        }
    }
    assert forall|a: int, b: int| 0 <= a < b < more.len() implies (#[trigger] more[a]).0 > (
    #[trigger] more[b]).0 by {
        assert(more[a] == found[a]);
        if b < found.len() {
            assert(more[b] == found[b]);
        } else {
            assert(old_found.contains(found[a].0 as int));
        }
    }
}

/// In the queue of wanted positions, a head found is no more.
pub proof fn lemma_found_not_queued(
    graph: Graph,
    roots: Set<int>,
    heads: Set<int>,
    wanted: Set<int>,
    found: Seq<IndexPosition>,
    start: Set<int>,
    wanted_queue: Set<int>,
    unwanted_queue: Set<int>,
    frontier: int,
    unwanted_frontier: int,
    p: int,
)
    requires
        range_state(
            graph,
            roots,
            heads,
            wanted,
            found,
            start,
            wanted_queue,
            unwanted_queue,
            frontier,
            unwanted_frontier,
        ),
        wanted_queue.contains(p),
    ensures
        p < frontier,
        !position_set(found).contains(p),
{
}

/// The filter failed with `e` at some position.
pub open spec fn filter_failed<E, F: Fn(IndexPosition) -> Result<bool, E>>(filter: F, e: E) -> bool {
    exists|p: IndexPosition| #[trigger] call_ensures(filter, (p,), Err::<bool, E>(e))
}

/// The position lies in the range: it is an ancestor of a head, or a
/// head, and no ancestor of a root nor a root.
pub open spec fn in_range(graph: Graph, roots: Set<int>, heads: Set<int>, p: IndexPosition) -> bool {
    reached(graph, heads, p.0 as int) && !reached(graph, roots, p.0 as int)
}

/// The filter failed with `e` at a position of the range.
pub open spec fn filter_failed_in_range<E, F: Fn(IndexPosition) -> Result<bool, E>>(
    graph: Graph,
    roots: Set<int>,
    heads: Set<int>,
    filter: F,
    e: E,
) -> bool {
    exists|p: IndexPosition| #[trigger]
        call_ensures(filter, (p,), Err::<bool, E>(e)) && in_range(graph, roots, heads, p)
}

/// The filter fails at no position of the range.
pub open spec fn filter_never_fails<E, F: Fn(IndexPosition) -> Result<bool, E>>(
    graph: Graph,
    roots: Set<int>,
    heads: Set<int>,
    filter: F,
) -> bool {
    forall|p: IndexPosition, e: E|
        in_range(graph, roots, heads, p) ==> !#[trigger] call_ensures(
            filter,
            (p,),
            Err::<bool, E>(e),
        )
}

impl CompositeIndex {
    /// Find the heads of a range of positions `roots..heads`, applying a
    /// filter to the commits in the range. The heads are sorted in
    /// descending order. The filter will also be called in descending index
    /// position order. Where the filter fails, its error is returned.
    pub fn heads_from_range_and_filter<E, F: Fn(IndexPosition) -> Result<bool, E>>(
        &self,
        roots: Vec<IndexPosition>,
        heads: Vec<IndexPosition>,
        filter: F,
    ) -> (result: Result<Vec<IndexPosition>, E>)
        requires
            self.wf(),
            is_filter(filter),
            forall|i: int| 0 <= i < roots.len() ==> (#[trigger] roots[i]).0 < self.entries().len(),
            forall|i: int| 0 <= i < heads.len() ==> (#[trigger] heads[i]).0 < self.entries().len(),
        ensures
            match result {
                Ok(found) => strictly_descending(found@) && forall|x: int|
                    position_set(found@).contains(x) <==> is_head_among(
                        self.graph(),
                        wanted_positions(
                            self.graph(),
                            position_set(roots@),
                            position_set(heads@),
                            filter,
                        ),
                        x,
                    ),
                Err(e) => filter_failed_in_range(
                    self.graph(),
                    position_set(roots@),
                    position_set(heads@),
                    filter,
                    e,
                ),
            },
            filter_never_fails(self.graph(), position_set(roots@), position_set(heads@), filter)
                ==> result is Ok,
    {
        let ghost graph = self.graph();
        let ghost root_set = position_set(roots@);
        let ghost head_set = position_set(heads@);
        let ghost wanted = wanted_positions(graph, root_set, head_set, filter);
        let mut wanted_queue: PositionHeap = heap_of(&heads);
        let mut unwanted_queue: PositionHeap = heap_of(&roots);
        let mut found_heads: Vec<IndexPosition> = Vec::new();
        let ghost mut start: Set<int> = root_set;
        let ghost mut frontier: int = u32::MAX + 1;
        let ghost mut unwanted_frontier: int = u32::MAX + 1;
        proof {
            assert forall|x: int| root_set.contains(x) implies 0 <= x < graph.len() && x
                <= u32::MAX by {
                let k = choose|k: int| 0 <= k < roots.len() && (#[trigger] roots[k]).0 == x;
            }
            assert forall|x: int| head_set.contains(x) implies 0 <= x < graph.len() && x
                <= u32::MAX by {
                let k = choose|k: int| 0 <= k < heads.len() && (#[trigger] heads[k]).0 == x;
            }
            lemma_range_start(graph, root_set, head_set, wanted);
        }
        loop
            invariant_except_break
                self.wf(),
                graph == self.graph(),
                root_set == position_set(roots@),
                head_set == position_set(heads@),
                is_filter(filter),
                wanted == wanted_positions(graph, root_set, head_set, filter),
                wanted_queue.wf(),
                unwanted_queue.wf(),
                range_state(
                    graph,
                    root_set,
                    head_set,
                    wanted,
                    found_heads@,
                    start,
                    wanted_queue.set(),
                    unwanted_queue.set(),
                    frontier,
                    unwanted_frontier,
                ),
            ensures
                strictly_descending(found_heads@),
                found_are_heads(graph, position_set(found_heads@)),
                position_set(found_heads@).subset_of(wanted),
                forall|c: int| #[trigger]
                    wanted.contains(c) ==> reached(graph, position_set(found_heads@), c),
            decreases frontier,
        {
            let ghost queue = wanted_queue.set();
            let ghost unwanted_start = unwanted_queue.set();
            proof {
                wanted_queue.lemma_max();
            }
            let pos: u32 = match wanted_queue.peek() {
                Some(pos) => pos,
                None => {
                    proof {
                        assert(queue =~= Set::<int>::empty());
                        lemma_wanted_done(
                            graph,
                            head_set,
                            root_set,
                            wanted,
                            position_set(found_heads@),
                            start,
                            frontier,
                        );
                    }
                    break ;
                },
            };
            proof {
                lemma_found_not_queued(
                    graph,
                    root_set,
                    head_set,
                    wanted,
                    found_heads@,
                    start,
                    queue,
                    unwanted_start,
                    frontier,
                    unwanted_frontier,
                    pos as int,
                );
            }
            let (unwanted, Ghost(passed)) = shift_to_parents_until(
                &mut unwanted_queue,
                self,
                IndexPosition(pos),
                Ghost(start),
                Ghost(unwanted_frontier),
            );
            if unwanted {
                dedup_pop(&mut wanted_queue);
                proof {
                    lemma_range_drop(
                        graph,
                        root_set,
                        head_set,
                        wanted,
                        found_heads@,
                        start,
                        queue,
                        unwanted_start,
                        frontier,
                        unwanted_frontier,
                        pos as int,
                        wanted_queue.set(),
                        unwanted_queue.set(),
                        passed,
                    );
                    frontier = pos as int;
                    unwanted_frontier = passed;
                }
                continue ;
            }
            let entry: IndexEntry = self.entry_by_pos(IndexPosition(pos));
            proof {
                assert(graph.is_ancestor(pos as int, pos as int));
                assert(reached(graph, head_set, pos as int));
                assert(!is_unwanted(graph, root_set, position_set(found_heads@), pos as int));
                assert(in_range(graph, root_set, head_set, IndexPosition(pos)));
            }
            let answer: Result<bool, E> = filter(IndexPosition(pos));
            let accepted: bool = match answer {
                Ok(accepted) => accepted,
                Err(e) => {
                    proof {
                        assert(call_ensures(filter, (IndexPosition(pos),), Err::<bool, E>(e)));
                        assert(filter_failed_in_range(graph, root_set, head_set, filter, e));
                    }
                    return Err(e);
                },
            };
            if accepted {
                dedup_pop(&mut wanted_queue);
                let ghost unwanted_before = unwanted_queue.set();
                extend_with_parents(&mut unwanted_queue, &entry, Ghost(graph));
                proof {
                    assert(graph.is_ancestor(pos as int, pos as int));
                    assert(reached(graph, head_set, pos as int));
                    assert(!is_unwanted(
                        graph,
                        root_set,
                        position_set(found_heads@),
                        pos as int,
                    ));
                    assert(wanted.contains(pos as int));
                    lemma_range_accept(
                        graph,
                        root_set,
                        head_set,
                        wanted,
                        found_heads@,
                        start,
                        queue,
                        unwanted_start,
                        frontier,
                        unwanted_frontier,
                        IndexPosition(pos),
                        wanted_queue.set(),
                        unwanted_before,
                        passed,
                    );
                    start = start.union(parent_set(graph, pos as int));
                }
                found_heads.push(IndexPosition(pos));
            } else {
                shift_to_parents(&mut wanted_queue, &entry, Ghost(graph));
                proof {
                    assert(!wanted.contains(pos as int));
                    lemma_range_refuse(
                        graph,
                        root_set,
                        head_set,
                        wanted,
                        found_heads@,
                        start,
                        queue,
                        unwanted_start,
                        frontier,
                        unwanted_frontier,
                        pos as int,
                        wanted_queue.set(),
                        unwanted_queue.set(),
                        passed,
                    );
                }
            }
            proof {
                frontier = pos as int;
                unwanted_frontier = passed;
            }
        }
        proof {
            let found = position_set(found_heads@);
            assert forall|x: int| found.contains(x) <==> is_head_among(graph, wanted, x) by {
                lemma_heads_of_matches(graph, wanted, found, x);
            }
        }
        Ok(found_heads)
    }
}

} // verus!
