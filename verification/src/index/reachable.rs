//! The commits that are reached from given heads, marked once for all
//! lookups.

use super::composite::positions_view;
use super::composite::CompositeIndex;
use super::composite::IndexEntry;
use super::composite::IndexPosition;
use super::graph::Graph;
use super::heads::position_set;
use super::heads::reached;
use vstd::prelude::*;

verus! {

/// `x` is an ancestor, other than itself, of a marked commit before `p`.
pub open spec fn below_marked(graph: Graph, marks: Seq<bool>, p: int, x: int) -> bool {
    exists|y: int| 0 <= y < p && y < marks.len() && marks[y] && #[trigger] graph.is_proper_ancestor(x, y)
}

/// What the marks are while the commits from `p` on have passed their
/// marks on to their parents: only commits that are reached are marked,
/// and a commit that is reached is marked, or is an ancestor of a marked
/// commit before `p`.
pub open spec fn marks_upto(graph: Graph, heads: Set<int>, marks: Seq<bool>, p: int) -> bool {
    &&& marks.len() == graph.len()
    &&& forall|x: int| 0 <= x < marks.len() && #[trigger] marks[x] ==> reached(graph, heads, x)
    &&& forall|x: int|
        #[trigger] reached(graph, heads, x) ==> (0 <= x < marks.len() && marks[x]) || below_marked(
            graph,
            marks,
            p,
            x,
        )
}

/// The marks of the heads alone are the marks before any commit has
/// passed its mark on.
proof fn lemma_marks_start(graph: Graph, heads: Set<int>, marks: Seq<bool>)
    requires
        graph.wf(),
        marks.len() == graph.len(),
        forall|h: int| heads.contains(h) ==> 0 <= h < graph.len(),
        forall|x: int| 0 <= x < marks.len() ==> (#[trigger] marks[x] <==> heads.contains(x)),
    ensures
        marks_upto(graph, heads, marks, graph.len()),
{
    assert forall|x: int| 0 <= x < marks.len() && #[trigger] marks[x] implies reached(
        graph,
        heads,
        x,
    ) by {
        assert(graph.is_ancestor(x, x));
    }
    assert forall|x: int| #[trigger] reached(graph, heads, x) implies (0 <= x < marks.len()
        && marks[x]) || below_marked(graph, marks, graph.len(), x) by {
        let h = choose|h: int| heads.contains(h) && #[trigger] graph.is_ancestor(x, h);
        graph.lemma_ancestor_bounds(x, h);
        if x != h {
            assert(marks[h]);
            assert(graph.is_proper_ancestor(x, h));
        }
    }
}

/// Once the commit before `p` has passed its mark on to its parents, or
/// has none, the marks are those for the commits from there on.
proof fn lemma_marks_step(
    graph: Graph,
    heads: Set<int>,
    before: Seq<bool>,
    after: Seq<bool>,
    p: int,
)
    requires
        graph.wf(),
        0 < p <= graph.len(),
        marks_upto(graph, heads, before, p),
        after.len() == before.len(),
        forall|x: int| 0 <= x < before.len() && before[x] ==> #[trigger] after[x],
        forall|x: int| 0 <= x < after.len() && #[trigger] after[x] ==> reached(graph, heads, x),
        before[p - 1] ==> forall|k: int|
            0 <= k < graph.parents[p - 1].len() ==> after[#[trigger] graph.parents[p - 1][k]],
    ensures
        marks_upto(graph, heads, after, p - 1),
{
    let q = p - 1;
    assert forall|x: int| #[trigger] reached(graph, heads, x) implies (0 <= x < after.len()
        && after[x]) || below_marked(graph, after, q, x) by {
        if 0 <= x < before.len() && before[x] {
        } else {
            assert(below_marked(graph, before, p, x));
            let y = choose|y: int|
                0 <= y < p && y < before.len() && before[y] && #[trigger] graph.is_proper_ancestor(
                    x,
                    y,
                );
            if y < q {
                assert(after[y]);
                assert(graph.is_proper_ancestor(x, y));
            } else {
                graph.lemma_proper_ancestor(x, q);
                let k = choose|k: int|
                    0 <= k < graph.parents[q].len() && #[trigger] graph.is_ancestor(
                        x,
                        graph.parents[q][k],
                    );
                let r = graph.parents[q][k];
                assert(0 <= r < q);
                assert(after[r]);
                graph.lemma_ancestor_bounds(x, r);
                if x != r {
                    assert(graph.is_proper_ancestor(x, r));
                }
            }
        }
    }
}

/// A parent of a commit that is reached is reached.
proof fn lemma_parent_reached(graph: Graph, heads: Set<int>, q: int, k: int)
    requires
        graph.wf(),
        0 <= q < graph.len(),
        0 <= k < graph.parents[q].len(),
        reached(graph, heads, q),
    ensures
        reached(graph, heads, graph.parents[q][k]),
        0 <= graph.parents[q][k] < q,
{
    let r = graph.parents[q][k];
    let h = choose|h: int| heads.contains(h) && #[trigger] graph.is_ancestor(q, h);
    assert(0 <= r < q);
    assert(graph.is_ancestor(r, r));
    graph.lemma_ancestor_step(r, q, k);
    graph.lemma_ancestor_transitive(r, q, h);
}

impl CompositeIndex {
    /// Marks the commits that are ancestors of the heads, and the heads.
    pub fn mark_ancestors(&self, heads: &Vec<IndexPosition>) -> (marks: Vec<bool>)
        requires
            self.wf(),
            forall|i: int| 0 <= i < heads.len() ==> (#[trigger] heads[i]).0 < self.entries().len(),
        ensures
            marks.len() == self.entries().len(),
            forall|p: int|
                0 <= p < marks.len() ==> (#[trigger] marks[p] <==> reached(
                    self.graph(),
                    position_set(heads@),
                    p,
                )),
    {
        let ghost graph = self.graph();
        let ghost head_set = position_set(heads@);
        let n: u32 = self.num_commits();
        let mut marks: Vec<bool> = Vec::new();
        while marks.len() < n as usize
            invariant
                marks.len() <= n,
                forall|x: int| 0 <= x < marks.len() ==> !#[trigger] marks[x],
            decreases n - marks.len(),
        {
            marks.push(false);
        }
        let mut i: usize = 0;
        while i < heads.len()
            invariant
                i <= heads.len(),
                marks.len() == n,
                n == self.entries().len(),
                forall|j: int| 0 <= j < heads.len() ==> (#[trigger] heads[j]).0 < n,
                forall|x: int|
                    0 <= x < marks.len() ==> (#[trigger] marks[x] <==> position_set(
                        heads@.take(i as int),
                    ).contains(x)),
            decreases heads.len() - i,
        {
            let ghost before = marks@;
            marks.set(heads[i].0 as usize, true);
            proof {
                let h = heads[i as int].0 as int;
                assert forall|x: int| 0 <= x < marks.len() implies (#[trigger] marks[x]
                    <==> position_set(heads@.take(i + 1)).contains(x)) by {
                    if position_set(heads@.take(i + 1)).contains(x) {
                        let k = choose|k: int|
                            0 <= k < heads@.take(i + 1).len() && (#[trigger] heads@.take(
                                i + 1,
                            )[k]).0 == x;
                        if k < i {
                            assert(heads@.take(i as int)[k].0 == x);
                        }
                    }
                    if position_set(heads@.take(i as int)).contains(x) {
                        let k = choose|k: int|
                            0 <= k < heads@.take(i as int).len() && (#[trigger] heads@.take(
                                i as int,
                            )[k]).0 == x;
                        assert(heads@.take(i + 1)[k].0 == x);
                    }
                    if x == h {
                        assert(heads@.take(i + 1)[i as int].0 == x);
                    }
                }
            }
            i += 1;
        }
        proof {
            assert(heads@.take(heads.len() as int) =~= heads@);
            assert forall|h: int| head_set.contains(h) implies 0 <= h < graph.len() by {
                let k = choose|k: int| 0 <= k < heads.len() && (#[trigger] heads[k]).0 == h;
            }
            lemma_marks_start(graph, head_set, marks@);
        }
        let mut p: u32 = n;
        while p > 0
            invariant
                self.wf(),
                graph == self.graph(),
                p <= n,
                n == self.entries().len(),
                marks.len() == n,
                marks_upto(graph, head_set, marks@, p as int),
            decreases p,
        {
            let q: u32 = p - 1;
            let ghost before = marks@;
            if marks[q as usize] {
                let entry: IndexEntry = self.entry_by_pos(IndexPosition(q));
                let parents: &[IndexPosition] = entry.parent_positions();
                proof {
                    assert(graph.parents[q as int] == positions_view(parents@));
                }
                let mut k: usize = 0;
                while k < parents.len()
                    invariant
                        graph.wf(),
                        k <= parents.len(),
                        q < n,
                        n == graph.len(),
                        marks.len() == n,
                        before.len() == n,
                        graph.parents[q as int] == positions_view(parents@),
                        reached(graph, head_set, q as int),
                        forall|x: int| 0 <= x < before.len() && before[x] ==> #[trigger] marks[x],
                        forall|x: int|
                            0 <= x < marks.len() && #[trigger] marks[x] ==> reached(
                                graph,
                                head_set,
                                x,
                            ),
                        forall|j: int| 0 <= j < k ==> marks[#[trigger] graph.parents[q as int][j]],
                    decreases parents.len() - k,
                {
                    proof {
                        assert(graph.parents[q as int][k as int] == parents[k as int].0);
                        lemma_parent_reached(graph, head_set, q as int, k as int);
                    }
                    marks.set(parents[k].0 as usize, true);
                    k += 1;
                }
            }
            proof {
                lemma_marks_step(graph, head_set, before, marks@, p as int);
            }
            p = q;
        }
        proof {
            assert forall|x: int| 0 <= x < marks.len() implies (#[trigger] marks[x] <==> reached(
                graph,
                head_set,
                x,
            )) by {
                if reached(graph, head_set, x) {
                    assert(!below_marked(graph, marks@, 0, x));
                }
            }
        }
        marks
    }
}

} // verus!
