//! Ancestry in an index: whether one commit is an ancestor of another.

use super::composite::positions_view;
use super::composite::CompositeIndex;
use super::composite::IndexEntry;
use super::composite::IndexPosition;
use super::graph::Graph;
use std::collections::HashSet;
use vstd::prelude::*;
use vstd::set_lib::lemma_len_subset;
use vstd::std_specs::hash::*;

verus! {

/// The positions below `n`.
pub open spec fn positions_below(n: nat) -> Set<u32> {
    Set::new(|x: u32| x < n)
}

/// There are `n` positions below `n`.
pub proof fn lemma_positions_below(n: nat)
    requires
        n <= u32::MAX,
    ensures
        positions_below(n).finite(),
        positions_below(n).len() == n,
    decreases n,
{
    if n == 0 {
        assert(positions_below(0) =~= Set::<u32>::empty());
    } else {
        lemma_positions_below((n - 1) as nat);
        assert(positions_below(n) =~= positions_below((n - 1) as nat).insert((n - 1) as u32));
    }
}

/// Every commit that was visited and has `ancestor` for an ancestor other
/// than itself has a parent that was visited or is still to be visited, and
/// that has `ancestor` for an ancestor.
pub open spec fn search_invariant(
    graph: Graph,
    ancestor: int,
    visited: Set<u32>,
    work: Seq<IndexPosition>,
) -> bool {
    forall|v: u32| #[trigger]
        visited.contains(v) && graph.is_proper_ancestor(ancestor, v as int) ==> exists|k: int|
            0 <= k < graph.parents[v as int].len() && graph.is_ancestor(
                ancestor,
                #[trigger] graph.parents[v as int][k],
            ) && is_touched(visited, work, graph.parents[v as int][k])
}

/// The position was visited or is still to be visited.
pub open spec fn is_touched(visited: Set<u32>, work: Seq<IndexPosition>, position: int) -> bool {
    (0 <= position <= u32::MAX && visited.contains(position as u32)) || exists|i: int|
        0 <= i < work.len() && (#[trigger] work[i]).0 == position
}

/// When no commit is left to be visited and `ancestor` was not visited, no
/// visited commit has `ancestor` for an ancestor.
pub proof fn lemma_search_done(graph: Graph, ancestor: int, visited: Set<u32>, v: int)
    requires
        graph.wf(),
        search_invariant(graph, ancestor, visited, Seq::empty()),
        0 <= ancestor <= u32::MAX,
        !visited.contains(ancestor as u32),
        0 <= v <= u32::MAX,
        visited.contains(v as u32),
    ensures
        !graph.is_ancestor(ancestor, v),
    decreases v,
{
    if graph.is_ancestor(ancestor, v) {
        assert(graph.is_proper_ancestor(ancestor, v));
        graph.lemma_ancestor_bounds(ancestor, v);
        let k = choose|k: int|
            0 <= k < graph.parents[v].len() && graph.is_ancestor(
                ancestor,
                #[trigger] graph.parents[v][k],
            ) && is_touched(visited, Seq::empty(), graph.parents[v][k]);
        let p = graph.parents[v][k];
        assert(0 <= p < v);
        lemma_search_done(graph, ancestor, visited, p);
    }
}

impl CompositeIndex {
    /// Whether the commit at `ancestor_pos` is an ancestor of the commit at
    /// `descendant_pos`, or the commit itself. Walks from the descendant
    /// towards the ancestor, and leaves a branch as soon as its generation
    /// number is not greater than the ancestor's.
    pub fn is_ancestor_pos(&self, ancestor_pos: IndexPosition, descendant_pos: IndexPosition) -> (r:
        bool)
        requires
            self.wf(),
            ancestor_pos.0 < self.entries().len(),
            descendant_pos.0 < self.entries().len(),
        ensures
            r == self.graph().is_ancestor(ancestor_pos.0 as int, descendant_pos.0 as int),
    {
        let ghost graph = self.graph();
        let ghost a = ancestor_pos.0 as int;
        let ghost d = descendant_pos.0 as int;
        let ghost n = self.entries().len();
        let ancestor_generation: u32 = self.entry_by_pos(ancestor_pos).generation_number();
        let mut work: Vec<IndexPosition> = Vec::new();
        work.push(descendant_pos);
        let mut visited: HashSet<u32> = HashSet::new();
        proof {
            lemma_positions_below(n);
            assert(work@[0].0 == d);
        }
        loop
            invariant
                self.wf(),
                graph == self.graph(),
                n == self.entries().len(),
                n <= u32::MAX,
                d == descendant_pos.0,
                a == ancestor_pos.0,
                a < n,
                ancestor_generation == graph.generations[a],
                visited@.subset_of(positions_below(n)),
                visited@.finite(),
                !visited@.contains(ancestor_pos.0),
                forall|i: int|
                    0 <= i < work.len() ==> (#[trigger] work[i]).0 < n && graph.is_ancestor(
                        work[i].0 as int,
                        d,
                    ),
                forall|v: u32| visited@.contains(v) ==> graph.is_ancestor(v as int, d),
                graph.is_ancestor(a, d) ==> is_touched(visited@, work@, d),
                search_invariant(graph, a, visited@, work@),
            decreases n - visited@.len(), work.len(),
        {
            let ghost before_work = work@;
            let position: IndexPosition = match work.pop() {
                Some(position) => position,
                None => {
                    proof {
                        assert(work@ =~= Seq::<IndexPosition>::empty());
                        if graph.is_ancestor(a, d) {
                            assert(is_touched(visited@, work@, d));
                            assert(visited@.contains(d as u32));
                            lemma_search_done(graph, a, visited@, d);
                        }
                    }
                    return false;
                },
            };
            let ghost rest = work@;
            let ghost seen = visited@;
            proof {
                assert(before_work =~= rest.push(position));
            }
            let entry: IndexEntry = self.entry_by_pos(position);
            if position.0 == ancestor_pos.0 {
                return true;
            }
            proof {
                lemma_positions_below(n);
                lemma_len_subset(seen, positions_below(n));
            }
            let fresh: bool = visited.insert(position.0);
            proof {
                assert(visited@.subset_of(positions_below(n)));
                lemma_len_subset(visited@, positions_below(n));
                // What was touched before is touched now.
                assert forall|x: int| is_touched(seen, rest.push(position), x) implies is_touched(
                    visited@,
                    rest,
                    x,
                ) by {
                    if !(0 <= x <= u32::MAX && seen.contains(x as u32)) {
                        let i = choose|i: int|
                            0 <= i < rest.push(position).len() && (#[trigger] rest.push(
                                position,
                            )[i]).0 == x;
                        if i < rest.len() {
                            assert(rest[i].0 == x);
                        }
                    }
                }
            }
            if !fresh {
                proof {
                    assert(visited@ =~= seen);
                    assert forall|v: u32| #[trigger]
                        visited@.contains(v) && graph.is_proper_ancestor(
                            a,
                            v as int,
                        ) implies exists|k: int|
                        0 <= k < graph.parents[v as int].len() && graph.is_ancestor(
                            a,
                            #[trigger] graph.parents[v as int][k],
                        ) && is_touched(visited@, rest, graph.parents[v as int][k]) by {
                        let k = choose|k: int|
                            0 <= k < graph.parents[v as int].len() && graph.is_ancestor(
                                a,
                                #[trigger] graph.parents[v as int][k],
                            ) && is_touched(seen, rest.push(position), graph.parents[v as int][k]);
                        assert(is_touched(visited@, rest, graph.parents[v as int][k]));
                    }
                }
                continue ;
            }
            if entry.generation_number() <= ancestor_generation {
                proof {
                    if graph.is_proper_ancestor(a, position.0 as int) {
                        graph.lemma_ancestor_bounds(a, position.0 as int);
                    }
                    assert forall|v: u32| #[trigger]
                        visited@.contains(v) && graph.is_proper_ancestor(
                            a,
                            v as int,
                        ) implies exists|k: int|
                        0 <= k < graph.parents[v as int].len() && graph.is_ancestor(
                            a,
                            #[trigger] graph.parents[v as int][k],
                        ) && is_touched(visited@, rest, graph.parents[v as int][k]) by {
                        assert(seen.contains(v));
                        let k = choose|k: int|
                            0 <= k < graph.parents[v as int].len() && graph.is_ancestor(
                                a,
                                #[trigger] graph.parents[v as int][k],
                            ) && is_touched(seen, rest.push(position), graph.parents[v as int][k]);
                        assert(is_touched(visited@, rest, graph.parents[v as int][k]));
                    }
                }
                continue ;
            }
            let parents: &[IndexPosition] = entry.parent_positions();
            let ghost parent_views = graph.parents[position.0 as int];
            proof {
                assert(parent_views == positions_view(parents@));
            }
            let mut k: usize = 0;
            while k < parents.len()
                invariant
                    graph.wf(),
                    graph == self.graph(),
                    n == graph.len(),
                    position.0 < n,
                    parent_views == positions_view(parents@),
                    parent_views == graph.parents[position.0 as int],
                    graph.is_ancestor(position.0 as int, d),
                    k <= parents.len(),
                    work@ == rest + parents@.take(k as int),
                    forall|i: int|
                        0 <= i < work.len() ==> (#[trigger] work[i]).0 < n && graph.is_ancestor(
                            work[i].0 as int,
                            d,
                        ),
                decreases parents.len() - k,
            {
                proof {
                    assert(parent_views[k as int] == parents[k as int].0);
                    assert(0 <= graph.parents[position.0 as int][k as int] < position.0);
                    assert(graph.is_ancestor(parents[k as int].0 as int, parents[k as int].0 as int));
                    graph.lemma_ancestor_step(
                        parents[k as int].0 as int,
                        position.0 as int,
                        k as int,
                    );
                    graph.lemma_ancestor_transitive(
                        parents[k as int].0 as int,
                        position.0 as int,
                        d,
                    );
                    assert(parents@.take(k + 1) =~= parents@.take(k as int).push(parents[k as int]));
                }
                work.push(parents[k]);
                k += 1;
            }
            proof {
                assert(parents@.take(parents.len() as int) =~= parents@);
                assert forall|x: int| is_touched(visited@, rest, x) implies is_touched(
                    visited@,
                    work@,
                    x,
                ) by {
                    if !(0 <= x <= u32::MAX && visited@.contains(x as u32)) {
                        let i = choose|i: int| 0 <= i < rest.len() && (#[trigger] rest[i]).0 == x;
                        assert(work@[i].0 == x);
                    }
                }
                if graph.is_ancestor(a, d) {
                    assert(is_touched(seen, rest.push(position), d));
                    assert(is_touched(visited@, rest, d));
                    assert(is_touched(visited@, work@, d));
                }
                assert forall|v: u32| #[trigger]
                    visited@.contains(v) && graph.is_proper_ancestor(a, v as int) implies exists|
                    k: int,
                |
                    0 <= k < graph.parents[v as int].len() && graph.is_ancestor(
                        a,
                        #[trigger] graph.parents[v as int][k],
                    ) && is_touched(visited@, work@, graph.parents[v as int][k]) by {
                    if v == position.0 {
                        graph.lemma_proper_ancestor(a, v as int);
                        let k = choose|k: int|
                            0 <= k < graph.parents[v as int].len() && #[trigger] graph.is_ancestor(
                                a,
                                graph.parents[v as int][k],
                            );
                        assert(parent_views[k] == parents[k].0);
                        assert(work@[rest.len() + k] == parents[k]);
                        assert(is_touched(visited@, work@, graph.parents[v as int][k]));
                    } else {
                        assert(seen.contains(v));
                        let k = choose|k: int|
                            0 <= k < graph.parents[v as int].len() && graph.is_ancestor(
                                a,
                                #[trigger] graph.parents[v as int][k],
                            ) && is_touched(seen, rest.push(position), graph.parents[v as int][k]);
                        assert(is_touched(visited@, rest, graph.parents[v as int][k]));
                    }
                }
            }
        }
    }
}

} // verus!
