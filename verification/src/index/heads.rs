//! Heads among positions of an index: the positions of which no other of
//! them is a descendant.

use super::composite::positions_view;
use super::composite::CompositeIndex;
use super::composite::IndexEntry;
use super::composite::IndexPosition;
use super::graph::Graph;
use super::heap::dedup_pop;
use super::heap::dedup_replace;
use super::heap::PositionHeap;
use vstd::prelude::*;

verus! {

/// The positions of a list, as a set.
pub open spec fn position_set(positions: Seq<IndexPosition>) -> Set<int> {
    Set::new(|x: int| exists|k: int| 0 <= k < positions.len() && (#[trigger] positions[k]).0 == x)
}

/// The positions descend strictly: the greatest comes first, none twice.
pub open spec fn strictly_descending(positions: Seq<IndexPosition>) -> bool {
    forall|i: int, j: int|
        0 <= i < j < positions.len() ==> (#[trigger] positions[i]).0 > (#[trigger] positions[j]).0
}

/// `x` is an ancestor, other than itself, of one of `heads`.
pub open spec fn below_head(graph: Graph, heads: Set<int>, x: int) -> bool {
    exists|h: int| heads.contains(h) && #[trigger] graph.is_proper_ancestor(x, h)
}

/// `x` is an ancestor of one of `queue`, or one of them.
pub open spec fn reached(graph: Graph, queue: Set<int>, x: int) -> bool {
    exists|y: int| queue.contains(y) && #[trigger] graph.is_ancestor(x, y)
}

/// `x` is one of `candidates`, and no other of them is its descendant.
pub open spec fn is_head_among(graph: Graph, candidates: Set<int>, x: int) -> bool {
    candidates.contains(x) && !below_head(graph, candidates, x)
}

/// What the walk from the heads found so far keeps: the queue holds only
/// ancestors of heads, all before the frontier; and from the queue every
/// ancestor of a head is reached that lies before the frontier and whose
/// generation number is not below the least in question.
pub open spec fn walk_invariant(
    graph: Graph,
    min_generation: int,
    heads: Set<int>,
    queue: Set<int>,
    frontier: int,
) -> bool {
    &&& forall|x: int| #[trigger]
        queue.contains(x) ==> 0 <= x < frontier && x < graph.len() && below_head(graph, heads, x)
    &&& forall|x: int|
        0 <= x < frontier && x < graph.len() && graph.generations[x] >= min_generation
            && #[trigger] below_head(graph, heads, x) ==> reached(graph, queue, x)
}

/// The parents of the commit at `y`, as a set.
pub open spec fn parent_set(graph: Graph, y: int) -> Set<int> {
    Set::new(|p: int| graph.is_parent(p, y))
}

/// A parent is an ancestor of its child other than the child itself.
pub proof fn lemma_parent_is_proper_ancestor(graph: Graph, p: int, y: int)
    requires
        graph.wf(),
        graph.is_parent(p, y),
    ensures
        graph.is_proper_ancestor(p, y),
        0 <= p < y,
{
    let k = choose|k: int| 0 <= k < graph.parents[y].len() && graph.parents[y][k] == p;
    assert(0 <= graph.parents[y][k] < y);
    assert(graph.is_ancestor(p, p));
    graph.lemma_ancestor_step(p, y, k);
}

/// The greatest position of the queue is replaced by its parents: the walk
/// goes on from there.
pub proof fn lemma_walk_expand(
    graph: Graph,
    min_generation: int,
    heads: Set<int>,
    queue: Set<int>,
    frontier: int,
    y: int,
    after: Set<int>,
)
    requires
        graph.wf(),
        walk_invariant(graph, min_generation, heads, queue, frontier),
        queue.contains(y),
        forall|x: int| queue.contains(x) ==> x <= y,
        after == queue.remove(y).union(parent_set(graph, y)),
    ensures
        walk_invariant(graph, min_generation, heads, after, y),
{
    assert forall|x: int| #[trigger] after.contains(x) implies 0 <= x < y && x < graph.len()
        && below_head(graph, heads, x) by {
        if queue.contains(x) {
        } else {
            assert(graph.is_parent(x, y));
            lemma_parent_is_proper_ancestor(graph, x, y);
            assert(below_head(graph, heads, y));
            let h = choose|h: int| heads.contains(h) && #[trigger] graph.is_proper_ancestor(y, h);
            graph.lemma_ancestor_transitive(x, y, h);
            graph.lemma_ancestor_bounds(y, h);
            assert(graph.is_proper_ancestor(x, h));
        }
    }
    assert forall|x: int|
        0 <= x < y && x < graph.len() && graph.generations[x] >= min_generation
            && #[trigger] below_head(graph, heads, x) implies reached(graph, after, x) by {
        assert(reached(graph, queue, x));
        let w = choose|w: int| queue.contains(w) && #[trigger] graph.is_ancestor(x, w);
        if w != y {
            assert(after.contains(w));
        } else {
            graph.lemma_proper_ancestor(x, y);
            let k = choose|k: int|
                0 <= k < graph.parents[y].len() && #[trigger] graph.is_ancestor(
                    x,
                    graph.parents[y][k],
                );
            let p = graph.parents[y][k];
            assert(graph.is_parent(p, y));
            assert(after.contains(p));
            assert(graph.is_ancestor(x, p));
        }
    }
}

/// The greatest position of the queue is dropped because its generation
/// number is not above the least in question: what lies behind it is of no
/// interest.
pub proof fn lemma_walk_prune(
    graph: Graph,
    min_generation: int,
    heads: Set<int>,
    queue: Set<int>,
    frontier: int,
    y: int,
    after: Set<int>,
)
    requires
        graph.wf(),
        walk_invariant(graph, min_generation, heads, queue, frontier),
        queue.contains(y),
        forall|x: int| queue.contains(x) ==> x <= y,
        graph.generations[y] <= min_generation,
        after == queue.remove(y),
    ensures
        walk_invariant(graph, min_generation, heads, after, y),
{
    assert forall|x: int|
        0 <= x < y && x < graph.len() && graph.generations[x] >= min_generation
            && #[trigger] below_head(graph, heads, x) implies reached(graph, after, x) by {
        assert(reached(graph, queue, x));
        let w = choose|w: int| queue.contains(w) && #[trigger] graph.is_ancestor(x, w);
        if w != y {
            assert(after.contains(w));
        } else {
            graph.lemma_ancestor_bounds(x, y);
        }
    }
}

/// A position before the frontier that the queue has passed without
/// holding it is no ancestor of a head.
pub proof fn lemma_walk_passed(
    graph: Graph,
    min_generation: int,
    heads: Set<int>,
    queue: Set<int>,
    frontier: int,
    c: int,
)
    requires
        graph.wf(),
        walk_invariant(graph, min_generation, heads, queue, frontier),
        0 <= c < frontier,
        c < graph.len(),
        graph.generations[c] >= min_generation,
        forall|x: int| queue.contains(x) ==> x < c,
    ensures
        !below_head(graph, heads, c),
{
    if below_head(graph, heads, c) {
        assert(reached(graph, queue, c));
        let w = choose|w: int| queue.contains(w) && #[trigger] graph.is_ancestor(c, w);
        graph.lemma_ancestor_bounds(c, w);
    }
}

/// A new head is found, and its parents join the queue.
pub proof fn lemma_walk_add_head(
    graph: Graph,
    min_generation: int,
    heads: Set<int>,
    queue: Set<int>,
    frontier: int,
    c: int,
    after: Set<int>,
)
    requires
        graph.wf(),
        walk_invariant(graph, min_generation, heads, queue, frontier),
        0 <= c < frontier,
        c < graph.len(),
        forall|x: int| queue.contains(x) ==> x < c,
        after == queue.union(parent_set(graph, c)),
    ensures
        walk_invariant(graph, min_generation, heads.insert(c), after, c),
{
    let more = heads.insert(c);
    assert forall|x: int| #[trigger] after.contains(x) implies 0 <= x < c && x < graph.len()
        && below_head(graph, more, x) by {
        if queue.contains(x) {
            let h = choose|h: int| heads.contains(h) && #[trigger] graph.is_proper_ancestor(x, h);
            assert(more.contains(h));
        } else {
            assert(graph.is_parent(x, c));
            lemma_parent_is_proper_ancestor(graph, x, c);
            assert(more.contains(c));
        }
    }
    assert forall|x: int|
        0 <= x < c && x < graph.len() && graph.generations[x] >= min_generation
            && #[trigger] below_head(graph, more, x) implies reached(graph, after, x) by {
        let h = choose|h: int| more.contains(h) && #[trigger] graph.is_proper_ancestor(x, h);
        if h == c {
            graph.lemma_proper_ancestor(x, c);
            let k = choose|k: int|
                0 <= k < graph.parents[c].len() && #[trigger] graph.is_ancestor(
                    x,
                    graph.parents[c][k],
                );
            let p = graph.parents[c][k];
            assert(graph.is_parent(p, c));
            assert(after.contains(p));
            assert(graph.is_ancestor(x, p));
        } else {
            assert(below_head(graph, heads, x));
            assert(reached(graph, queue, x));
            let w = choose|w: int| queue.contains(w) && #[trigger] graph.is_ancestor(x, w);
            assert(after.contains(w));
        }
    }
}

/// Removes an entry from the queue and replace it with its parents.
pub(crate) fn shift_to_parents(items: &mut PositionHeap, entry: &IndexEntry, Ghost(graph): Ghost<Graph>)
    requires
        old(items).wf(),
        graph.wf(),
        old(items).max() == Some(entry.pos.0 as int),
        entry.pos.0 < graph.len(),
        graph.parents[entry.pos.0 as int] == positions_view(entry.data.parent_positions@),
    ensures
        final(items).wf(),
        final(items).set() == old(items).set().remove(entry.pos.0 as int).union(
            parent_set(graph, entry.pos.0 as int),
        ),
{
    let parents: &[IndexPosition] = entry.parent_positions();
    let ghost y = entry.pos.0 as int;
    let ghost views = graph.parents[y];
    let ghost start = items.set();
    proof {
        assert forall|k: int| 0 <= k < parents.len() implies 0 <= (#[trigger] parents[k]).0 < y by {
            assert(views[k] == parents[k].0);
            assert(0 <= graph.parents[y][k] < y);
        }
    }
    if parents.len() == 0 {
        dedup_pop(items);
        proof {
            assert(parent_set(graph, y) =~= Set::<int>::empty());
            assert(items.set() =~= start.remove(y).union(parent_set(graph, y)));
        }
        return ;
    }
    dedup_replace(items, parents[0].0);
    proof {
        let first = parents@.take(1);
        assert forall|x: int| position_set(first).contains(x) <==> x == parents[0].0 by {
            if position_set(first).contains(x) {
                let i = choose|i: int| 0 <= i < first.len() && (#[trigger] first[i]).0 == x;
            }
            if x == parents[0].0 {
                assert(first[0].0 == x);
            }
        }
        assert(items.set() =~= start.remove(y).union(position_set(first)));
    }
    let mut k: usize = 1;
    while k < parents.len()
        invariant
            items.wf(),
            1 <= k <= parents.len(),
            views == positions_view(parents@),
            items.set() == start.remove(y).union(position_set(parents@.take(k as int))),
        decreases parents.len() - k,
    {
        proof {
            let before = parents@.take(k as int);
            let after = parents@.take(k + 1);
            assert forall|x: int| position_set(after).contains(x) <==> position_set(before).insert(
                parents[k as int].0 as int,
            ).contains(x) by {
                if position_set(after).contains(x) {
                    let i = choose|i: int| 0 <= i < after.len() && (#[trigger] after[i]).0 == x;
                    if i < k {
                        assert(before[i].0 == x);
                    }
                }
                if position_set(before).contains(x) {
                    let i = choose|i: int| 0 <= i < before.len() && (#[trigger] before[i]).0 == x;
                    assert(after[i].0 == x);
                }
                if x == parents[k as int].0 {
                    assert(after[k as int].0 == x);
                }
            }
            assert(position_set(after) =~= position_set(before).insert(parents[k as int].0 as int));
        }
        items.push(parents[k].0);
        proof {
            assert(items.set() =~= start.remove(y).union(position_set(parents@.take(k + 1))));
        }
        k += 1;
    }
    proof {
        assert(parents@.take(parents.len() as int) =~= parents@);
        assert forall|x: int| position_set(parents@).contains(x) <==> parent_set(graph, y).contains(
            x,
        ) by {
            if position_set(parents@).contains(x) {
                let i = choose|i: int| 0 <= i < parents.len() && (#[trigger] parents[i]).0 == x;
                assert(views[i] == x);
                assert(graph.parents[y].contains(x));
            }
            if parent_set(graph, y).contains(x) {
                let i = choose|i: int| 0 <= i < views.len() && views[i] == x;
                assert(parents[i].0 == x);
            }
        }
        assert(position_set(parents@) =~= parent_set(graph, y));
    }
}

/// Adds the parents of an entry to the queue.
pub(crate) fn extend_with_parents(items: &mut PositionHeap, entry: &IndexEntry, Ghost(graph): Ghost<Graph>)
    requires
        old(items).wf(),
        graph.wf(),
        entry.pos.0 < graph.len(),
        graph.parents[entry.pos.0 as int] == positions_view(entry.data.parent_positions@),
    ensures
        final(items).wf(),
        final(items).set() == old(items).set().union(parent_set(graph, entry.pos.0 as int)),
{
    let parents: &[IndexPosition] = entry.parent_positions();
    let ghost y = entry.pos.0 as int;
    let ghost views = graph.parents[y];
    let ghost start = items.set();
    let mut k: usize = 0;
    proof {
        assert(position_set(parents@.take(0)) =~= Set::<int>::empty());
        assert(items.set() =~= start.union(position_set(parents@.take(0))));
    }
    while k < parents.len()
        invariant
            items.wf(),
            k <= parents.len(),
            items.set() == start.union(position_set(parents@.take(k as int))),
        decreases parents.len() - k,
    {
        proof {
            let before = parents@.take(k as int);
            let after = parents@.take(k + 1);
            assert forall|x: int| position_set(after).contains(x) <==> position_set(before).insert(
                parents[k as int].0 as int,
            ).contains(x) by {
                if position_set(after).contains(x) {
                    let i = choose|i: int| 0 <= i < after.len() && (#[trigger] after[i]).0 == x;
                    if i < k {
                        assert(before[i].0 == x);
                    }
                }
                if position_set(before).contains(x) {
                    let i = choose|i: int| 0 <= i < before.len() && (#[trigger] before[i]).0 == x;
                    assert(after[i].0 == x);
                }
                if x == parents[k as int].0 {
                    assert(after[k as int].0 == x);
                }
            }
            assert(position_set(after) =~= position_set(before).insert(parents[k as int].0 as int));
        }
        items.push(parents[k].0);
        proof {
            assert(items.set() =~= start.union(position_set(parents@.take(k + 1))));
        }
        k += 1;
    }
    proof {
        assert(parents@.take(parents.len() as int) =~= parents@);
        assert forall|x: int| position_set(parents@).contains(x) <==> parent_set(graph, y).contains(
            x,
        ) by {
            if position_set(parents@).contains(x) {
                let i = choose|i: int| 0 <= i < parents.len() && (#[trigger] parents[i]).0 == x;
                assert(views[i] == x);
                assert(graph.parents[y].contains(x));
            }
            if parent_set(graph, y).contains(x) {
                let i = choose|i: int| 0 <= i < views.len() && views[i] == x;
                assert(parents[i].0 == x);
            }
        }
        assert(position_set(parents@) =~= parent_set(graph, y));
    }
}

/// Whether a candidate lies below a head found among the candidates before
/// it decides whether it lies below any candidate.
pub proof fn lemma_decide_candidate(
    graph: Graph,
    candidates: Seq<IndexPosition>,
    i: int,
    heads: Set<int>,
)
    requires
        graph.wf(),
        strictly_descending(candidates),
        0 <= i < candidates.len(),
        forall|j: int| 0 <= j < i ==> reached(graph, heads, (#[trigger] candidates[j]).0 as int),
        heads.subset_of(position_set(candidates)),
    ensures
        below_head(graph, position_set(candidates), candidates[i].0 as int) == below_head(
            graph,
            heads,
            candidates[i].0 as int,
        ),
{
    let c = candidates[i].0 as int;
    let all = position_set(candidates);
    if below_head(graph, all, c) {
        let c2 = choose|c2: int| all.contains(c2) && #[trigger] graph.is_proper_ancestor(c, c2);
        let j = choose|j: int| 0 <= j < candidates.len() && (#[trigger] candidates[j]).0 == c2;
        graph.lemma_ancestor_bounds(c, c2);
        if j >= i {
            if j > i {
                assert(candidates[i].0 > candidates[j].0);
            }
        }
        assert(j < i);
        assert(reached(graph, heads, candidates[j].0 as int));
        let h = choose|h: int| heads.contains(h) && #[trigger] graph.is_ancestor(c2, h);
        graph.lemma_ancestor_transitive(c, c2, h);
        graph.lemma_ancestor_bounds(c2, h);
        assert(graph.is_proper_ancestor(c, h));
    }
    if below_head(graph, heads, c) {
        let h = choose|h: int| heads.contains(h) && #[trigger] graph.is_proper_ancestor(c, h);
        assert(all.contains(h));
    }
}

impl CompositeIndex {
    /// The least generation number among the candidates.
    fn min_generation(&self, candidate_positions: &Vec<IndexPosition>) -> (min: u32)
        requires
            self.wf(),
            candidate_positions.len() > 0,
            forall|i: int|
                0 <= i < candidate_positions.len() ==> (#[trigger] candidate_positions[i]).0
                    < self.entries().len(),
        ensures
            forall|i: int|
                0 <= i < candidate_positions.len() ==> min
                    <= self.graph().generations[(#[trigger] candidate_positions[i]).0 as int],
            exists|i: int|
                0 <= i < candidate_positions.len() && min
                    == self.graph().generations[(#[trigger] candidate_positions[i]).0 as int],
    {
        let mut min: u32 = self.entry_by_pos(candidate_positions[0]).generation_number();
        let mut i: usize = 1;
        let ghost mut at: int = 0;
        while i < candidate_positions.len()
            invariant
                self.wf(),
                1 <= i <= candidate_positions.len(),
                0 <= at < i,
                min == self.graph().generations[candidate_positions[at].0 as int],
                forall|j: int|
                    0 <= j < candidate_positions.len() ==> (#[trigger] candidate_positions[j]).0
                        < self.entries().len(),
                forall|j: int|
                    0 <= j < i ==> min <= self.graph().generations[(
                    #[trigger] candidate_positions[j]).0 as int],
            decreases candidate_positions.len() - i,
        {
            let generation: u32 = self.entry_by_pos(candidate_positions[i]).generation_number();
            if generation < min {
                min = generation;
                proof {
                    at = i as int;
                }
            }
            i += 1;
        }
        min
    }

    /// Lets the queue pass every position from `candidate` on: each is
    /// replaced by its parents, or dropped where its generation number is not
    /// above the least in question. Returns whether the candidate itself was
    /// in the queue, and the position that the queue has passed last.
    fn drain_queue(
        &self,
        parents: &mut PositionHeap,
        candidate: IndexPosition,
        min_generation: u32,
        Ghost(found_heads): Ghost<Set<int>>,
        Ghost(frontier): Ghost<int>,
    ) -> (result: (bool, Ghost<int>))
        requires
            self.wf(),
            old(parents).wf(),
            candidate.0 < self.entries().len(),
            candidate.0 < frontier,
            walk_invariant(
                self.graph(),
                min_generation as int,
                found_heads,
                old(parents).set(),
                frontier,
            ),
        ensures
            final(parents).wf(),
            walk_invariant(
                self.graph(),
                min_generation as int,
                found_heads,
                final(parents).set(),
                result.1@,
            ),
            result.0 ==> result.1@ == candidate.0 && below_head(
                self.graph(),
                found_heads,
                candidate.0 as int,
            ),
            !result.0 ==> candidate.0 < result.1@ && forall|x: int|
                final(parents).set().contains(x) ==> x < candidate.0,
    {
        let ghost graph = self.graph();
        let ghost c = candidate.0 as int;
        let ghost mut frontier: int = frontier;
        let mut found: bool = false;
        loop
            invariant_except_break
                self.wf(),
                graph == self.graph(),
                parents.wf(),
                c == candidate.0,
                c < graph.len(),
                c < frontier,
                !found,
                walk_invariant(graph, min_generation as int, found_heads, parents.set(), frontier),
            ensures
                parents.wf(),
                walk_invariant(graph, min_generation as int, found_heads, parents.set(), frontier),
                found ==> frontier == c && below_head(graph, found_heads, c),
                !found ==> c < frontier && forall|x: int| parents.set().contains(x) ==> x < c,
            decreases frontier,
        {
            proof {
                parents.lemma_max();
            }
            let parent: u32 = match parents.peek() {
                Some(parent) => parent,
                None => {
                    break ;
                },
            };
            if parent < candidate.0 {
                break ;
            }
            let ghost queue = parents.set();
            let entry: IndexEntry = self.entry_by_pos(IndexPosition(parent));
            if entry.generation_number() <= min_generation {
                dedup_pop(parents);
                proof {
                    lemma_walk_prune(
                        graph,
                        min_generation as int,
                        found_heads,
                        queue,
                        frontier,
                        parent as int,
                        parents.set(),
                    );
                }
            } else {
                shift_to_parents(parents, &entry, Ghost(graph));
                proof {
                    lemma_walk_expand(
                        graph,
                        min_generation as int,
                        found_heads,
                        queue,
                        frontier,
                        parent as int,
                        parents.set(),
                    );
                }
            }
            proof {
                frontier = parent as int;
            }
            if parent == candidate.0 {
                // The candidate is an ancestor of an existing head, so it
                // can be skipped.
                found = true;
                break ;
            }
        }
        (found, Ghost(frontier))
    }

    /// Returns the subset of positions in `candidate_positions` which refer
    /// to entries that are heads among them: of which no other candidate is
    /// a descendant.
    ///
    /// The `candidate_positions` must be sorted in descending order, and
    /// have no duplicates. The returned head positions are also sorted in
    /// descending order.
    pub fn heads_pos(&self, candidate_positions: Vec<IndexPosition>) -> (heads: Vec<IndexPosition>)
        requires
            self.wf(),
            strictly_descending(candidate_positions@),
            forall|i: int|
                0 <= i < candidate_positions.len() ==> (#[trigger] candidate_positions[i]).0
                    < self.entries().len(),
        ensures
            strictly_descending(heads@),
            forall|x: int|
                position_set(heads@).contains(x) <==> is_head_among(
                    self.graph(),
                    position_set(candidate_positions@),
                    x,
                ),
    {
        let ghost graph = self.graph();
        let ghost all = position_set(candidate_positions@);
        if candidate_positions.len() == 0 {
            proof {
                assert forall|x: int| position_set(candidate_positions@).contains(x) <==> is_head_among(
                    graph,
                    all,
                    x,
                ) by {}
            }
            return candidate_positions;
        }
        let min_generation: u32 = self.min_generation(&candidate_positions);
        // Iterate though the candidates by reverse index position, keeping
        // track of the ancestors of already-found heads. If a candidate is
        // an ancestor of an already-found head, then it can be removed.
        let mut parents: PositionHeap = PositionHeap::new();
        let mut heads: Vec<IndexPosition> = Vec::new();
        let ghost mut frontier: int = u32::MAX + 1;
        let mut i: usize = 0;
        proof {
            assert(position_set(heads@) =~= Set::<int>::empty());
        }
        while i < candidate_positions.len()
            invariant
                self.wf(),
                graph == self.graph(),
                strictly_descending(candidate_positions@),
                forall|j: int|
                    0 <= j < candidate_positions.len() ==> (#[trigger] candidate_positions[j]).0
                        < graph.len(),
                i <= candidate_positions.len(),
                parents.wf(),
                walk_invariant(
                    graph,
                    min_generation as int,
                    position_set(heads@),
                    parents.set(),
                    frontier,
                ),
                forall|j: int|
                    i <= j < candidate_positions.len() ==> (#[trigger] candidate_positions[j]).0
                        < frontier && min_generation
                        <= graph.generations[candidate_positions[j].0 as int],
                heads_progress(graph, candidate_positions@, i as int, heads@),
            decreases candidate_positions.len() - i,
        {
            let candidate: IndexPosition = candidate_positions[i];
            let ghost found_heads = position_set(heads@);
            let (found, Ghost(passed)) = self.drain_queue(
                &mut parents,
                candidate,
                min_generation,
                Ghost(found_heads),
                Ghost(frontier),
            );
            if !found {
                proof {
                    lemma_walk_passed(
                        graph,
                        min_generation as int,
                        found_heads,
                        parents.set(),
                        passed,
                        candidate.0 as int,
                    );
                }
                // No parents matched, so this commit is a head.
                let entry: IndexEntry = self.entry_by_pos(candidate);
                let ghost queue = parents.set();
                extend_with_parents(&mut parents, &entry, Ghost(graph));
                proof {
                    lemma_walk_add_head(
                        graph,
                        min_generation as int,
                        found_heads,
                        queue,
                        passed,
                        candidate.0 as int,
                        parents.set(),
                    );
                    lemma_progress_add(graph, candidate_positions@, i as int, heads@);
                }
                heads.push(candidate);
            } else {
                proof {
                    lemma_progress_skip(graph, candidate_positions@, i as int, heads@);
                }
            }
            proof {
                frontier = candidate.0 as int;
                assert forall|j: int| i + 1 <= j < candidate_positions.len() implies (
                #[trigger] candidate_positions[j]).0 < frontier by {
                    assert(candidate_positions[i as int].0 > candidate_positions[j].0);
                }
            }
            i += 1;
        }
        proof {
            assert forall|x: int| position_set(heads@).contains(x) <==> is_head_among(
                graph,
                all,
                x,
            ) by {
                if position_set(heads@).contains(x) {
                    let k = choose|k: int| 0 <= k < heads.len() && (#[trigger] heads[k]).0 == x;
                    let j = choose|j: int|
                        0 <= j < candidate_positions.len() && candidate_positions[j] == heads[k];
                    assert(candidate_positions[j].0 == x);
                }
                if is_head_among(graph, all, x) {
                    let j = choose|j: int|
                        0 <= j < candidate_positions.len() && (#[trigger] candidate_positions[j]).0
                            == x;
                    assert(position_set(heads@).contains(candidate_positions[j].0 as int));
                }
            }
        }
        heads
    }
}

/// After the first `i` candidates: the heads found are candidates among
/// them, in descending order; each of those candidates is a head or an
/// ancestor of one; and it is a head exactly if no candidate is its
/// descendant.
pub open spec fn heads_progress(
    graph: Graph,
    candidates: Seq<IndexPosition>,
    i: int,
    heads: Seq<IndexPosition>,
) -> bool {
    &&& strictly_descending(heads)
    &&& forall|k: int|
        0 <= k < heads.len() ==> exists|j: int| 0 <= j < i && candidates[j] == #[trigger] heads[k]
    &&& forall|j: int|
        0 <= j < i ==> reached(graph, position_set(heads), (#[trigger] candidates[j]).0 as int)
    &&& forall|j: int|
        0 <= j < i ==> (position_set(heads).contains((#[trigger] candidates[j]).0 as int)
            <==> !below_head(graph, position_set(candidates), candidates[j].0 as int))
}

/// The heads found so far are candidates.
pub proof fn lemma_heads_are_candidates(
    graph: Graph,
    candidates: Seq<IndexPosition>,
    i: int,
    heads: Seq<IndexPosition>,
)
    requires
        heads_progress(graph, candidates, i, heads),
        0 <= i <= candidates.len(),
    ensures
        position_set(heads).subset_of(position_set(candidates)),
{
    assert forall|x: int| position_set(heads).contains(x) implies position_set(candidates).contains(
        x,
    ) by {
        let k = choose|k: int| 0 <= k < heads.len() && (#[trigger] heads[k]).0 == x;
        let j = choose|j: int| 0 <= j < i && candidates[j] == heads[k];
        assert(candidates[j].0 == x);
    }
}

/// A candidate that lies below a head is passed over.
pub proof fn lemma_progress_skip(
    graph: Graph,
    candidates: Seq<IndexPosition>,
    i: int,
    heads: Seq<IndexPosition>,
)
    requires
        graph.wf(),
        strictly_descending(candidates),
        0 <= i < candidates.len(),
        heads_progress(graph, candidates, i, heads),
        below_head(graph, position_set(heads), candidates[i].0 as int),
    ensures
        heads_progress(graph, candidates, i + 1, heads),
{
    let c = candidates[i].0 as int;
    let found = position_set(heads);
    lemma_heads_are_candidates(graph, candidates, i, heads);
    lemma_decide_candidate(graph, candidates, i, found);
    assert forall|k: int| 0 <= k < heads.len() implies exists|j: int|
        0 <= j < i + 1 && candidates[j] == #[trigger] heads[k] by {
        let j = choose|j: int| 0 <= j < i && candidates[j] == heads[k];
        assert(0 <= j < i + 1 && candidates[j] == heads[k]);
    }
    assert forall|j: int| 0 <= j < i + 1 implies reached(
        graph,
        found,
        (#[trigger] candidates[j]).0 as int,
    ) by {
        if j == i {
            let h = choose|h: int| found.contains(h) && #[trigger] graph.is_proper_ancestor(c, h);
            assert(graph.is_ancestor(c, h));
        }
    }
    assert forall|j: int| 0 <= j < i + 1 implies (found.contains(
        (#[trigger] candidates[j]).0 as int,
    ) <==> !below_head(graph, position_set(candidates), candidates[j].0 as int)) by {
        if j == i {
            if found.contains(c) {
                let k = choose|k: int| 0 <= k < heads.len() && (#[trigger] heads[k]).0 == c;
                let j2 = choose|j2: int| 0 <= j2 < i && candidates[j2] == heads[k];
                assert(candidates[j2].0 > candidates[i].0);
            }
        }
    }
}

/// A candidate that lies below no head is a head.
#[verifier::rlimit(40)]
pub proof fn lemma_progress_add(
    graph: Graph,
    candidates: Seq<IndexPosition>,
    i: int,
    heads: Seq<IndexPosition>,
)
    requires
        graph.wf(),
        strictly_descending(candidates),
        0 <= i < candidates.len(),
        candidates[i].0 < graph.len(),
        heads_progress(graph, candidates, i, heads),
        !below_head(graph, position_set(heads), candidates[i].0 as int),
    ensures
        heads_progress(graph, candidates, i + 1, heads.push(candidates[i])),
        position_set(heads.push(candidates[i])) == position_set(heads).insert(
            candidates[i].0 as int,
        ),
{
    let c = candidates[i].0 as int;
    let found = position_set(heads);
    let more = heads.push(candidates[i]);
    lemma_heads_are_candidates(graph, candidates, i, heads);
    lemma_decide_candidate(graph, candidates, i, found);
    assert forall|x: int| position_set(more).contains(x) <==> found.insert(c).contains(x) by {
        if position_set(more).contains(x) {
            let k = choose|k: int| 0 <= k < more.len() && (#[trigger] more[k]).0 == x;
            if k < heads.len() {
                assert(heads[k].0 == x);
            }
        }
        if found.contains(x) {
            let k = choose|k: int| 0 <= k < heads.len() && (#[trigger] heads[k]).0 == x;
            assert(more[k].0 == x);
        }
        if x == c {
            assert(more[heads.len() as int].0 == x);
        }
    }
    assert(position_set(more) =~= found.insert(c));
    assert forall|a: int, b: int| 0 <= a < b < more.len() implies (#[trigger] more[a]).0 > (
    #[trigger] more[b]).0 by {
        if b < heads.len() {
            assert(more[a] == heads[a] && more[b] == heads[b]);
        } else {
            assert(more[a] == heads[a]);
            let j = choose|j: int| 0 <= j < i && candidates[j] == heads[a];
            assert(candidates[j].0 > candidates[i].0);
        }
    }
    assert forall|k: int| 0 <= k < more.len() implies exists|j: int|
        0 <= j < i + 1 && candidates[j] == #[trigger] more[k] by {
        if k < heads.len() {
            assert(more[k] == heads[k]);
            let j = choose|j: int| 0 <= j < i && candidates[j] == heads[k];
            assert(0 <= j < i + 1 && candidates[j] == more[k]);
        } else {
            assert(candidates[i] == more[k]);
        }
    }
    assert(graph.is_ancestor(c, c));
    assert forall|j: int| 0 <= j < i + 1 implies reached(
        graph,
        position_set(more),
        (#[trigger] candidates[j]).0 as int,
    ) by {
        if j < i {
            assert(reached(graph, found, candidates[j].0 as int));
            let h = choose|h: int|
                found.contains(h) && #[trigger] graph.is_ancestor(candidates[j].0 as int, h);
            assert(position_set(more).contains(h));
        } else {
            assert(position_set(more).contains(c));
        }
    }
    assert forall|j: int| 0 <= j < i + 1 implies (position_set(more).contains(
        (#[trigger] candidates[j]).0 as int,
    ) <==> !below_head(graph, position_set(candidates), candidates[j].0 as int)) by {
        if j < i {
            assert(candidates[j].0 > candidates[i].0);
        }
    }
}

} // verus!
