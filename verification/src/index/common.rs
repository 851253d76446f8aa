//! The greatest common ancestors of two sets of positions.

use super::composite::CompositeIndex;
use super::composite::IndexEntry;
use super::composite::IndexPosition;
use super::graph::Graph;
use super::heads::below_head;
use super::heads::is_head_among;
use super::heads::parent_set;
use super::heads::position_set;
use super::heads::reached;
use super::heads::shift_to_parents;
use super::heads::strictly_descending;
use super::heap::dedup_pop;
use super::heap::PositionHeap;
use vstd::prelude::*;

verus! {

/// The ancestors that both sets have in common: each is an ancestor of a
/// position of the one set and of a position of the other, or is such a
/// position itself.
pub open spec fn common_ancestors(graph: Graph, set1: Set<int>, set2: Set<int>) -> Set<int> {
    Set::new(|x: int| reached(graph, set1, x) && reached(graph, set2, x))
}

/// What the walk from one of the sets keeps: the queue holds only ancestors
/// of the set, all before the frontier; and from the queue every ancestor of
/// the set is reached that lies before the frontier, unless it is an
/// ancestor of a match.
pub open spec fn side_invariant(
    graph: Graph,
    start: Set<int>,
    matches: Set<int>,
    queue: Set<int>,
    frontier: int,
) -> bool {
    &&& forall|x: int| #[trigger]
        queue.contains(x) ==> 0 <= x < frontier && x < graph.len() && reached(graph, start, x)
    &&& forall|x: int|
        0 <= x < frontier && x < graph.len() && #[trigger] reached(graph, start, x) && !reached(
            graph,
            matches,
            x,
        ) ==> reached(graph, queue, x)
}

/// Every common ancestor from the frontier on is an ancestor of a match.
pub open spec fn passed_invariant(
    graph: Graph,
    set1: Set<int>,
    set2: Set<int>,
    matches: Set<int>,
    frontier: int,
) -> bool {
    forall|x: int|
        frontier <= x && #[trigger] reached(graph, set1, x) && reached(graph, set2, x) ==> reached(
            graph,
            matches,
            x,
        )
}

/// What is reached from fewer positions is reached from more.
pub proof fn lemma_reached_more(graph: Graph, fewer: Set<int>, more: Set<int>, x: int)
    requires
        fewer.subset_of(more),
        reached(graph, fewer, x),
    ensures
        reached(graph, more, x),
{
    let w = choose|w: int| fewer.contains(w) && #[trigger] graph.is_ancestor(x, w);
    assert(more.contains(w));
}

/// The greatest position of a queue is replaced by its parents.
pub proof fn lemma_side_expand(
    graph: Graph,
    start: Set<int>,
    matches: Set<int>,
    queue: Set<int>,
    frontier: int,
    y: int,
    after: Set<int>,
)
    requires
        graph.wf(),
        side_invariant(graph, start, matches, queue, frontier),
        queue.contains(y),
        forall|x: int| queue.contains(x) ==> x <= y,
        after == queue.remove(y).union(parent_set(graph, y)),
    ensures
        side_invariant(graph, start, matches, after, y),
{
    assert forall|x: int| #[trigger] after.contains(x) implies 0 <= x < y && x < graph.len()
        && reached(graph, start, x) by {
        if queue.contains(x) {
        } else {
            assert(graph.is_parent(x, y));
            super::heads::lemma_parent_is_proper_ancestor(graph, x, y);
            assert(reached(graph, start, y));
            let s = choose|s: int| start.contains(s) && #[trigger] graph.is_ancestor(y, s);
            graph.lemma_ancestor_transitive(x, y, s);
        }
    }
    assert forall|x: int|
        0 <= x < y && x < graph.len() && #[trigger] reached(graph, start, x) && !reached(
            graph,
            matches,
            x,
        ) implies reached(graph, after, x) by {
        assert(reached(graph, queue, x));
        let w = choose|w: int| queue.contains(w) && #[trigger] graph.is_ancestor(x, w);
        if w != y {
            assert(after.contains(w));
        } else {
            graph.lemma_proper_ancestor(x, y);
            let k = choose|k: int|
                0 <= k < graph.parents[y].len() && #[trigger] graph.is_ancestor(
                    x,
                    graph.parents[y][k],
                );
            let p = graph.parents[y][k];
            assert(graph.is_parent(p, y));
            assert(after.contains(p));
            assert(graph.is_ancestor(x, p));
        }
    }
}

/// When one queue lets its greatest position go, which is greater than
/// every position of the other queue, every common ancestor from that
/// position on is an ancestor of a match.
pub proof fn lemma_passed_expand(
    graph: Graph,
    set1: Set<int>,
    set2: Set<int>,
    matches: Set<int>,
    queue1: Set<int>,
    frontier1: int,
    queue2: Set<int>,
    frontier2: int,
    y: int,
)
    requires
        graph.wf(),
        side_invariant(graph, set1, matches, queue1, frontier1),
        side_invariant(graph, set2, matches, queue2, frontier2),
        passed_invariant(graph, set1, set2, matches, frontier1),
        passed_invariant(graph, set1, set2, matches, frontier2),
        queue1.contains(y),
        forall|x: int| queue1.contains(x) ==> x <= y,
        forall|x: int| queue2.contains(x) ==> x < y,
    ensures
        passed_invariant(graph, set1, set2, matches, y),
{
    assert forall|x: int|
        y <= x && #[trigger] reached(graph, set1, x) && reached(graph, set2, x) implies reached(
        graph,
        matches,
        x,
    ) by {
        if x < frontier1 && !reached(graph, matches, x) {
            let s = choose|s: int| set1.contains(s) && #[trigger] graph.is_ancestor(x, s);
            graph.lemma_ancestor_bounds(x, s);
            assert(reached(graph, queue1, x));
            let w = choose|w: int| queue1.contains(w) && #[trigger] graph.is_ancestor(x, w);
            graph.lemma_ancestor_bounds(x, w);
            assert(x == y);
            if y < frontier2 {
                assert(reached(graph, queue2, y));
                let w2 = choose|w2: int| queue2.contains(w2) && #[trigger] graph.is_ancestor(y, w2);
                graph.lemma_ancestor_bounds(y, w2);
            }
        }
    }
}

/// The greatest position of a queue is a match: it leaves the queue, and
/// its ancestors are no longer looked for.
pub proof fn lemma_side_match(
    graph: Graph,
    start: Set<int>,
    matches: Set<int>,
    queue: Set<int>,
    frontier: int,
    y: int,
    after: Set<int>,
)
    requires
        graph.wf(),
        side_invariant(graph, start, matches, queue, frontier),
        queue.contains(y),
        forall|x: int| queue.contains(x) ==> x <= y,
        after == queue.remove(y),
    ensures
        side_invariant(graph, start, matches.insert(y), after, y),
{
    let more = matches.insert(y);
    assert forall|x: int|
        0 <= x < y && x < graph.len() && #[trigger] reached(graph, start, x) && !reached(
            graph,
            more,
            x,
        ) implies reached(graph, after, x) by {
        if reached(graph, matches, x) {
            lemma_reached_more(graph, matches, more, x);
        }
        assert(reached(graph, queue, x));
        let w = choose|w: int| queue.contains(w) && #[trigger] graph.is_ancestor(x, w);
        if w == y {
            assert(more.contains(y));
            assert(reached(graph, more, x));
        }
        assert(after.contains(w));
    }
}

/// After a match at the greatest position of a queue, every common
/// ancestor from that position on is an ancestor of a match.
pub proof fn lemma_passed_match(
    graph: Graph,
    set1: Set<int>,
    set2: Set<int>,
    matches: Set<int>,
    start: Set<int>,
    queue: Set<int>,
    frontier: int,
    y: int,
)
    requires
        graph.wf(),
        start == set1 || start == set2,
        side_invariant(graph, start, matches, queue, frontier),
        passed_invariant(graph, set1, set2, matches, frontier),
        queue.contains(y),
        forall|x: int| queue.contains(x) ==> x <= y,
    ensures
        passed_invariant(graph, set1, set2, matches.insert(y), y),
{
    let more = matches.insert(y);
    assert forall|x: int|
        y <= x && #[trigger] reached(graph, set1, x) && reached(graph, set2, x) implies reached(
        graph,
        more,
        x,
    ) by {
        if reached(graph, matches, x) {
            lemma_reached_more(graph, matches, more, x);
        } else if x < frontier {
            let s = choose|s: int| start.contains(s) && #[trigger] graph.is_ancestor(x, s);
            graph.lemma_ancestor_bounds(x, s);
            assert(reached(graph, start, x));
            assert(reached(graph, queue, x));
            let w = choose|w: int| queue.contains(w) && #[trigger] graph.is_ancestor(x, w);
            graph.lemma_ancestor_bounds(x, w);
            assert(x == y);
            assert(more.contains(y));
            assert(graph.is_ancestor(y, y));
        }
    }
}

/// When a queue is empty, every common ancestor is an ancestor of a match.
pub proof fn lemma_walk_done(
    graph: Graph,
    set1: Set<int>,
    set2: Set<int>,
    matches: Set<int>,
    start: Set<int>,
    queue: Set<int>,
    frontier: int,
)
    requires
        graph.wf(),
        start == set1 || start == set2,
        side_invariant(graph, start, matches, queue, frontier),
        passed_invariant(graph, set1, set2, matches, frontier),
        queue == Set::<int>::empty(),
    ensures
        forall|x: int| #[trigger]
            common_ancestors(graph, set1, set2).contains(x) ==> reached(graph, matches, x),
{
    assert forall|x: int| #[trigger]
        common_ancestors(graph, set1, set2).contains(x) implies reached(graph, matches, x) by {
        if !reached(graph, matches, x) {
            assert(reached(graph, set1, x) && reached(graph, set2, x));
            let s = choose|s: int| start.contains(s) && #[trigger] graph.is_ancestor(x, s);
            graph.lemma_ancestor_bounds(x, s);
            assert(reached(graph, start, x));
            if x < frontier {
                assert(reached(graph, queue, x));
                let w = choose|w: int| queue.contains(w) && #[trigger] graph.is_ancestor(x, w);
            }
        }
    }
}

/// The heads among the matches are the heads among all common ancestors.
pub proof fn lemma_heads_of_matches(
    graph: Graph,
    common: Set<int>,
    matches: Set<int>,
    x: int,
)
    requires
        graph.wf(),
        matches.subset_of(common),
        forall|c: int| #[trigger] common.contains(c) ==> reached(graph, matches, c),
    ensures
        is_head_among(graph, matches, x) == is_head_among(graph, common, x),
{
    if is_head_among(graph, matches, x) {
        if below_head(graph, common, x) {
            let c = choose|c: int| common.contains(c) && #[trigger] graph.is_proper_ancestor(x, c);
            assert(reached(graph, matches, c));
            let m = choose|m: int| matches.contains(m) && #[trigger] graph.is_ancestor(c, m);
            graph.lemma_ancestor_transitive(x, c, m);
            graph.lemma_ancestor_bounds(x, c);
            graph.lemma_ancestor_bounds(c, m);
            assert(graph.is_proper_ancestor(x, m));
        }
    }
    if is_head_among(graph, common, x) {
        assert(reached(graph, matches, x));
        let m = choose|m: int| matches.contains(m) && #[trigger] graph.is_ancestor(x, m);
        if m != x {
            assert(graph.is_proper_ancestor(x, m));
            assert(common.contains(m));
        }
        if below_head(graph, matches, x) {
            let m2 = choose|m2: int| matches.contains(m2) && #[trigger] graph.is_proper_ancestor(
                x,
                m2,
            );
            assert(common.contains(m2));
        }
    }
}

/// A queue of the given positions.
pub fn heap_of(positions: &Vec<IndexPosition>) -> (heap: PositionHeap)
    ensures
        heap.wf(),
        heap.set() == position_set(positions@),
{
    let mut heap = PositionHeap::new();
    let mut i: usize = 0;
    proof {
        assert(position_set(positions@.take(0)) =~= Set::<int>::empty());
    }
    while i < positions.len()
        invariant
            heap.wf(),
            i <= positions.len(),
            heap.set() == position_set(positions@.take(i as int)),
        decreases positions.len() - i,
    {
        proof {
            let before = positions@.take(i as int);
            let after = positions@.take(i + 1);
            assert forall|x: int| position_set(after).contains(x) <==> position_set(before).insert(
                positions[i as int].0 as int,
            ).contains(x) by {
                if position_set(after).contains(x) {
                    let k = choose|k: int| 0 <= k < after.len() && (#[trigger] after[k]).0 == x;
                    if k < i {
                        assert(before[k].0 == x);
                    }
                }
                if position_set(before).contains(x) {
                    let k = choose|k: int| 0 <= k < before.len() && (#[trigger] before[k]).0 == x;
                    assert(after[k].0 == x);
                }
                if x == positions[i as int].0 {
                    assert(after[i as int].0 == x);
                }
            }
            assert(position_set(after) =~= position_set(before).insert(
                positions[i as int].0 as int,
            ));
        }
        heap.push(positions[i].0);
        i += 1;
    }
    proof {
        assert(positions@.take(positions.len() as int) =~= positions@);
    }
    heap
}

/// At the start of the walk the queue of a set is the set itself.
pub proof fn lemma_side_start(graph: Graph, start: Set<int>)
    requires
        graph.wf(),
        forall|x: int| start.contains(x) ==> 0 <= x < graph.len() && x <= u32::MAX,
    ensures
        side_invariant(graph, start, Set::<int>::empty(), start, u32::MAX + 1),
{
    assert forall|x: int| #[trigger] start.contains(x) implies reached(graph, start, x) by {
        assert(graph.is_ancestor(x, x));
    }
}

/// No common ancestor lies behind every position.
pub proof fn lemma_passed_start(graph: Graph, set1: Set<int>, set2: Set<int>)
    requires
        graph.wf(),
        graph.len() <= u32::MAX + 1,
    ensures
        passed_invariant(graph, set1, set2, Set::<int>::empty(), u32::MAX + 1),
{
    assert forall|x: int|
        u32::MAX + 1 <= x && #[trigger] reached(graph, set1, x) && reached(
            graph,
            set2,
            x,
        ) implies reached(graph, Set::<int>::empty(), x) by {
        let s = choose|s: int| set1.contains(s) && #[trigger] graph.is_ancestor(x, s);
        graph.lemma_ancestor_bounds(x, s);
    }
}

/// One more match is one more position of the list of matches.
pub proof fn lemma_matches_push(matches: Seq<IndexPosition>, y: IndexPosition)
    ensures
        position_set(matches.push(y)) == position_set(matches).insert(y.0 as int),
{
    let more = matches.push(y);
    assert forall|x: int| position_set(more).contains(x) <==> position_set(matches).insert(
        y.0 as int,
    ).contains(x) by {
        if position_set(more).contains(x) {
            let k = choose|k: int| 0 <= k < more.len() && (#[trigger] more[k]).0 == x;
            if k < matches.len() {
                assert(matches[k].0 == x);
            }
        }
        if position_set(matches).contains(x) {
            let k = choose|k: int| 0 <= k < matches.len() && (#[trigger] matches[k]).0 == x;
            assert(more[k].0 == x);
        }
        if x == y.0 {
            assert(more[matches.len() as int].0 == x);
        }
    }
    assert(position_set(more) =~= position_set(matches).insert(y.0 as int));
}

impl CompositeIndex {
    /// Computes the greatest common ancestors: the common ancestors of the
    /// two sets of which no other common ancestor is a descendant.
    ///
    /// The returned index positions are sorted in descending order.
    pub fn common_ancestors_pos(&self, set1: Vec<IndexPosition>, set2: Vec<IndexPosition>) -> (result:
        Vec<IndexPosition>)
        requires
            self.wf(),
            forall|i: int| 0 <= i < set1.len() ==> (#[trigger] set1[i]).0 < self.entries().len(),
            forall|i: int| 0 <= i < set2.len() ==> (#[trigger] set2[i]).0 < self.entries().len(),
        ensures
            strictly_descending(result@),
            forall|x: int|
                position_set(result@).contains(x) <==> is_head_among(
                    self.graph(),
                    common_ancestors(self.graph(), position_set(set1@), position_set(set2@)),
                    x,
                ),
    {
        let ghost graph = self.graph();
        let ghost s1 = position_set(set1@);
        let ghost s2 = position_set(set2@);
        let ghost common = common_ancestors(graph, s1, s2);
        let mut items1: PositionHeap = heap_of(&set1);
        let mut items2: PositionHeap = heap_of(&set2);
        let mut matches: Vec<IndexPosition> = Vec::new();
        let ghost mut frontier1: int = u32::MAX + 1;
        let ghost mut frontier2: int = u32::MAX + 1;
        proof {
            assert forall|x: int| s1.contains(x) implies 0 <= x < graph.len() && x <= u32::MAX by {
                let k = choose|k: int| 0 <= k < set1.len() && (#[trigger] set1[k]).0 == x;
            }
            assert forall|x: int| s2.contains(x) implies 0 <= x < graph.len() && x <= u32::MAX by {
                let k = choose|k: int| 0 <= k < set2.len() && (#[trigger] set2[k]).0 == x;
            }
            lemma_side_start(graph, s1);
            lemma_side_start(graph, s2);
            lemma_passed_start(graph, s1, s2);
            assert(position_set(matches@) =~= Set::<int>::empty());
        }
        loop
            invariant_except_break
                self.wf(),
                graph == self.graph(),
                common == common_ancestors(graph, s1, s2),
                items1.wf(),
                items2.wf(),
                0 <= frontier1,
                0 <= frontier2,
                side_invariant(graph, s1, position_set(matches@), items1.set(), frontier1),
                side_invariant(graph, s2, position_set(matches@), items2.set(), frontier2),
                passed_invariant(graph, s1, s2, position_set(matches@), frontier1),
                passed_invariant(graph, s1, s2, position_set(matches@), frontier2),
                position_set(matches@).subset_of(common),
                strictly_descending(matches@),
                forall|i: int| 0 <= i < matches.len() ==> (#[trigger] matches[i]).0 < graph.len(),
                matches.len() > 0 ==> frontier1 <= matches@.last().0 && frontier2
                    <= matches@.last().0,
            ensures
                strictly_descending(matches@),
                forall|i: int| 0 <= i < matches.len() ==> (#[trigger] matches[i]).0 < graph.len(),
                position_set(matches@).subset_of(common),
                forall|x: int| #[trigger]
                    common.contains(x) ==> reached(graph, position_set(matches@), x),
            decreases frontier1 + frontier2,
        {
            let ghost found = position_set(matches@);
            let ghost queue1 = items1.set();
            let ghost queue2 = items2.set();
            proof {
                items1.lemma_max();
                items2.lemma_max();
            }
            let pos1: u32 = match items1.peek() {
                Some(pos1) => pos1,
                None => {
                    proof {
                        lemma_walk_done(graph, s1, s2, found, s1, queue1, frontier1);
                    }
                    break ;
                },
            };
            let pos2: u32 = match items2.peek() {
                Some(pos2) => pos2,
                None => {
                    proof {
                        lemma_walk_done(graph, s1, s2, found, s2, queue2, frontier2);
                    }
                    break ;
                },
            };
            if pos1 > pos2 {
                let entry: IndexEntry = self.entry_by_pos(IndexPosition(pos1));
                shift_to_parents(&mut items1, &entry, Ghost(graph));
                proof {
                    lemma_side_expand(
                        graph,
                        s1,
                        found,
                        queue1,
                        frontier1,
                        pos1 as int,
                        items1.set(),
                    );
                    lemma_passed_expand(
                        graph,
                        s1,
                        s2,
                        found,
                        queue1,
                        frontier1,
                        queue2,
                        frontier2,
                        pos1 as int,
                    );
                    frontier1 = pos1 as int;
                }
            } else if pos1 < pos2 {
                let entry: IndexEntry = self.entry_by_pos(IndexPosition(pos2));
                shift_to_parents(&mut items2, &entry, Ghost(graph));
                proof {
                    lemma_side_expand(
                        graph,
                        s2,
                        found,
                        queue2,
                        frontier2,
                        pos2 as int,
                        items2.set(),
                    );
                    lemma_passed_expand_other(
                        graph,
                        s1,
                        s2,
                        found,
                        queue1,
                        frontier1,
                        queue2,
                        frontier2,
                        pos2 as int,
                    );
                    frontier2 = pos2 as int;
                }
            } else {
                let ghost before = matches@;
                matches.push(IndexPosition(pos1));
                dedup_pop(&mut items1);
                dedup_pop(&mut items2);
                proof {
                    let y = pos1 as int;
                    lemma_matches_push(before, IndexPosition(pos1));
                    lemma_side_match(graph, s1, found, queue1, frontier1, y, items1.set());
                    lemma_side_match(graph, s2, found, queue2, frontier2, y, items2.set());
                    lemma_passed_match(graph, s1, s2, found, s1, queue1, frontier1, y);
                    assert(common.contains(y));
                    assert forall|a: int, b: int| 0 <= a < b < matches.len() implies (
                    #[trigger] matches[a]).0 > (#[trigger] matches[b]).0 by {
                        if b < before.len() {
                            assert(matches[a] == before[a] && matches[b] == before[b]);
                        } else {
                            assert(matches[a] == before[a]);
                            if a < before.len() - 1 {
                                assert(before[a].0 > before[before.len() - 1].0);
                            }
                        }
                    }
                    frontier1 = y;
                    frontier2 = y;
                }
            }
        }
        let ghost found = position_set(matches@);
        let heads: Vec<IndexPosition> = self.heads_pos(matches);
        proof {
            assert forall|x: int| position_set(heads@).contains(x) <==> is_head_among(
                graph,
                common,
                x,
            ) by {
                lemma_heads_of_matches(graph, common, found, x);
            }
        }
        heads
    }
}

/// As `lemma_passed_expand`, for the second queue.
pub proof fn lemma_passed_expand_other(
    graph: Graph,
    set1: Set<int>,
    set2: Set<int>,
    matches: Set<int>,
    queue1: Set<int>,
    frontier1: int,
    queue2: Set<int>,
    frontier2: int,
    y: int,
)
    requires
        graph.wf(),
        side_invariant(graph, set1, matches, queue1, frontier1),
        side_invariant(graph, set2, matches, queue2, frontier2),
        passed_invariant(graph, set1, set2, matches, frontier1),
        passed_invariant(graph, set1, set2, matches, frontier2),
        queue2.contains(y),
        forall|x: int| queue2.contains(x) ==> x <= y,
        forall|x: int| queue1.contains(x) ==> x < y,
    ensures
        passed_invariant(graph, set1, set2, matches, y),
{
    assert forall|x: int|
        y <= x && #[trigger] reached(graph, set1, x) && reached(graph, set2, x) implies reached(
        graph,
        matches,
        x,
    ) by {
        if x < frontier2 && !reached(graph, matches, x) {
            let s = choose|s: int| set2.contains(s) && #[trigger] graph.is_ancestor(x, s);
            graph.lemma_ancestor_bounds(x, s);
            assert(reached(graph, queue2, x));
            let w = choose|w: int| queue2.contains(w) && #[trigger] graph.is_ancestor(x, w);
            graph.lemma_ancestor_bounds(x, w);
            assert(x == y);
            if y < frontier1 {
                assert(reached(graph, queue1, y));
                let w1 = choose|w1: int| queue1.contains(w1) && #[trigger] graph.is_ancestor(y, w1);
                graph.lemma_ancestor_bounds(y, w1);
            }
        }
    }
}

} // verus!
