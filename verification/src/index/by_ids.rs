//! Heads and common ancestors of commits that are given by their ids.

use super::change_ids::has_commit;
use super::common::common_ancestors;
use super::common::heap_of;
use super::composite::CompositeIndex;
use super::composite::IndexEntryData;
use super::composite::IndexPosition;
use super::heads::is_head_among;
use super::heads::position_set;
use super::heads::reached;
use super::heads::strictly_descending;
use super::heap::dedup_pop;
use super::heap::PositionHeap;
use crate::object_id::CommitId;
use vstd::prelude::*;

verus! {

/// The commits at the positions are the commits of the ids, one by one.
pub open spec fn are_positions_of(
    entries: Seq<IndexEntryData>,
    ids: Seq<CommitId>,
    positions: Seq<IndexPosition>,
) -> bool {
    &&& positions.len() == ids.len()
    &&& forall|i: int|
        0 <= i < ids.len() ==> (#[trigger] positions[i]).0 < entries.len()
            && entries[positions[i].0 as int].commit_id@ == ids[i]@
}

/// Every commit of the list is indexed.
pub open spec fn all_indexed(entries: Seq<IndexEntryData>, ids: Seq<CommitId>) -> bool {
    forall|i: int| 0 <= i < ids.len() ==> has_commit(entries, (#[trigger] ids[i])@)
}

/// The positions in descending order, each once.
pub fn descending_positions(positions: &Vec<IndexPosition>) -> (sorted: Vec<IndexPosition>)
    ensures
        strictly_descending(sorted@),
        position_set(sorted@) == position_set(positions@),
{
    let mut heap: PositionHeap = heap_of(positions);
    let ghost all = position_set(positions@);
    let mut sorted: Vec<IndexPosition> = Vec::new();
    let ghost mut frontier: int = u32::MAX + 1;
    loop
        invariant_except_break
            heap.wf(),
            0 <= frontier <= u32::MAX + 1,
            strictly_descending(sorted@),
            forall|x: int| heap.set().contains(x) ==> x < frontier,
            forall|k: int| 0 <= k < sorted.len() ==> (#[trigger] sorted[k]).0 >= frontier,
            forall|x: int| all.contains(x) <==> heap.set().contains(x) || position_set(
                sorted@,
            ).contains(x),
        ensures
            strictly_descending(sorted@),
            position_set(sorted@) =~= all,
        decreases frontier,
    {
        let ghost before = sorted@;
        let ghost held = heap.set();
        proof {
            heap.lemma_max();
        }
        match dedup_pop(&mut heap) {
            Some(top) => {
                sorted.push(IndexPosition(top));
                proof {
                    assert(held.contains(top as int));
                    frontier = top as int;
                    assert forall|i: int, j: int| 0 <= i < j < sorted.len() implies (
                    #[trigger] sorted[i]).0 > (#[trigger] sorted[j]).0 by {
                        if j < before.len() {
                            assert(sorted[i] == before[i] && sorted[j] == before[j]);
                        } else {
                            assert(sorted[i] == before[i]);
                        }
                    }
                    assert forall|x: int| all.contains(x) <==> heap.set().contains(x)
                        || position_set(sorted@).contains(x) by {
                        if position_set(sorted@).contains(x) {
                            let k = choose|k: int|
                                0 <= k < sorted.len() && (#[trigger] sorted[k]).0 == x;
                            if k < before.len() {
                                assert(before[k].0 == x);
                                assert(position_set(before).contains(x));
                            }
                        }
                        if position_set(before).contains(x) {
                            let k = choose|k: int|
                                0 <= k < before.len() && (#[trigger] before[k]).0 == x;
                            assert(sorted[k].0 == x);
                        }
                        if x == top {
                            assert(sorted[sorted.len() - 1].0 == x);
                        }
                    }
                }
            },
            None => {
                proof {
                    assert forall|x: int| all.contains(x) <==> position_set(sorted@).contains(
                        x,
                    ) by {}
                }
                break ;
            },
        }
    }
    sorted
}

impl CompositeIndex {
    /// The positions of commits that are indexed.
    pub fn positions_of_ids(&self, ids: &[CommitId]) -> (positions: Vec<IndexPosition>)
        requires
            self.wf(),
            all_indexed(self.entries(), ids@),
        ensures
            are_positions_of(self.entries(), ids@, positions@),
    {
        let mut positions: Vec<IndexPosition> = Vec::new();
        let mut i: usize = 0;
        while i < ids.len()
            invariant
                self.wf(),
                all_indexed(self.entries(), ids@),
                i <= ids.len(),
                positions.len() == i,
                forall|k: int|
                    0 <= k < i ==> (#[trigger] positions[k]).0 < self.entries().len()
                        && self.entries()[positions[k].0 as int].commit_id@ == ids[k]@,
            decreases ids.len() - i,
        {
            proof {
                assert(has_commit(self.entries(), ids[i as int]@));
            }
            match self.commit_id_to_pos(&ids[i]) {
                Some(pos) => {
                    positions.push(pos);
                },
                None => {
                    proof {
                        let p = choose|p: int|
                            0 <= p < self.entries().len() && (#[trigger] self.entries()[p]).commit_id@
                                == ids[i as int]@;
                        assert(false);
                    }
                },
            }
            i += 1;
        }
        positions
    }

    /// The ids of the commits at the positions.
    pub fn ids_of_positions(&self, positions: &[IndexPosition]) -> (ids: Vec<CommitId>)
        requires
            self.wf(),
            forall|k: int|
                0 <= k < positions.len() ==> (#[trigger] positions[k]).0 < self.entries().len(),
        ensures
            are_positions_of(self.entries(), ids@, positions@),
    {
        let mut ids: Vec<CommitId> = Vec::new();
        let mut i: usize = 0;
        while i < positions.len()
            invariant
                self.wf(),
                i <= positions.len(),
                ids.len() == i,
                forall|k: int|
                    0 <= k < positions.len() ==> (#[trigger] positions[k]).0 < self.entries().len(),
                forall|k: int|
                    0 <= k < i ==> self.entries()[(#[trigger] positions[k]).0 as int].commit_id@
                        == ids[k]@,
            decreases positions.len() - i,
        {
            ids.push(self.entry_by_pos(positions[i]).commit_id());
            i += 1;
        }
        ids
    }

    /// The greatest common ancestors of two sets of commits, which must be
    /// indexed: the common ancestors of which no other common ancestor is
    /// a descendant, the last indexed first.
    pub fn common_ancestors(&self, set1: &[CommitId], set2: &[CommitId]) -> (ids: Vec<CommitId>)
        requires
            self.wf(),
            all_indexed(self.entries(), set1@),
            all_indexed(self.entries(), set2@),
        ensures
            exists|pos1: Seq<IndexPosition>, pos2: Seq<IndexPosition>, found: Seq<IndexPosition>|
                #![trigger are_positions_of(self.entries(), set1@, pos1), are_positions_of(self.entries(), set2@, pos2), are_positions_of(self.entries(), ids@, found)]
                are_positions_of(self.entries(), set1@, pos1) && are_positions_of(
                    self.entries(),
                    set2@,
                    pos2,
                ) && are_positions_of(self.entries(), ids@, found) && strictly_descending(found)
                    && forall|x: int|
                    position_set(found).contains(x) <==> is_head_among(
                        self.graph(),
                        common_ancestors(self.graph(), position_set(pos1), position_set(pos2)),
                        x,
                    ),
    {
        let pos1 = self.positions_of_ids(set1);
        let pos2 = self.positions_of_ids(set2);
        let ghost p1 = pos1@;
        let ghost p2 = pos2@;
        let found = self.common_ancestors_pos(pos1, pos2);
        proof {
            let graph = self.graph();
            assert forall|k: int| 0 <= k < found.len() implies (#[trigger] found[k]).0
                < self.entries().len() by {
                let x = found[k].0 as int;
                assert(position_set(found@).contains(x));
                assert(common_ancestors(graph, position_set(p1), position_set(p2)).contains(x));
                assert(reached(graph, position_set(p1), x));
                let y = choose|y: int|
                    position_set(p1).contains(y) && #[trigger] graph.is_ancestor(x, y);
                graph.lemma_ancestor_bounds(x, y);
            }
        }
        let ids = self.ids_of_positions(found.as_slice());
        proof {
            assert(are_positions_of(self.entries(), set1@, p1));
            assert(are_positions_of(self.entries(), set2@, p2));
            assert(are_positions_of(self.entries(), ids@, found@));
        }
        ids
    }

    /// The heads among commits, which must be indexed: the candidates of
    /// which no other candidate is a descendant, the last indexed first.
    pub fn heads(&self, candidate_ids: &[CommitId]) -> (ids: Vec<CommitId>)
        requires
            self.wf(),
            all_indexed(self.entries(), candidate_ids@),
        ensures
            exists|candidates: Seq<IndexPosition>, found: Seq<IndexPosition>|
                #![trigger are_positions_of(self.entries(), candidate_ids@, candidates), are_positions_of(self.entries(), ids@, found)]
                are_positions_of(self.entries(), candidate_ids@, candidates) && are_positions_of(
                    self.entries(),
                    ids@,
                    found,
                ) && strictly_descending(found) && forall|x: int|
                    position_set(found).contains(x) <==> is_head_among(
                        self.graph(),
                        position_set(candidates),
                        x,
                    ),
    {
        let candidate_positions = self.positions_of_ids(candidate_ids);
        let sorted = descending_positions(&candidate_positions);
        proof {
            assert forall|k: int| 0 <= k < sorted.len() implies (#[trigger] sorted[k]).0
                < self.entries().len() by {
                assert(position_set(sorted@).contains(sorted[k].0 as int));
                let j = choose|j: int|
                    0 <= j < candidate_positions.len() && (#[trigger] candidate_positions[j]).0
                        == sorted[k].0;
            }
        }
        let found = self.heads_pos(sorted);
        proof {
            assert forall|k: int| 0 <= k < found.len() implies (#[trigger] found[k]).0
                < self.entries().len() by {
                assert(position_set(found@).contains(found[k].0 as int));
            }
        }
        let ids = self.ids_of_positions(found.as_slice());
        proof {
            assert(are_positions_of(self.entries(), candidate_ids@, candidate_positions@));
            assert(are_positions_of(self.entries(), ids@, found@));
        }
        ids
    }
}

} // verus!
