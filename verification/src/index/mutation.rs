//! Growing an index: commits are added to the newest segment, and a new
//! segment is begun when the newest is to change no more.

use super::composite::entries_upto;
use super::composite::graph_of;
use super::composite::ids_unique;
use super::composite::segment_offset_ok;
use super::composite::CompositeIndex;
use super::composite::IndexEntryData;
use super::composite::IndexPosition;
use super::composite::IndexSegment;
use crate::object_id::ChangeId;
use crate::object_id::CommitId;
use vstd::prelude::*;

verus! {

/// The entries of the first segments depend on those segments only.
pub proof fn lemma_entries_upto_same(a: Seq<IndexSegment>, b: Seq<IndexSegment>, n: int)
    requires
        0 <= n <= a.len(),
        n <= b.len(),
        a.take(n) == b.take(n),
    ensures
        entries_upto(a, n) == entries_upto(b, n),
    decreases n,
{
    if n > 0 {
        assert(a.take(n - 1) =~= a.take(n).take(n - 1));
        assert(b.take(n - 1) =~= b.take(n).take(n - 1));
        lemma_entries_upto_same(a, b, n - 1);
        assert(a[n - 1] == a.take(n)[n - 1]);
        assert(b[n - 1] == b.take(n)[n - 1]);
    }
}

/// The generation number of a commit with the given parents: one more than
/// the greatest generation number of a parent; zero without parents.
pub open spec fn spec_generation(entries: Seq<IndexEntryData>, parents: Seq<IndexPosition>, k: int) -> int
    decreases k,
{
    if k <= 0 {
        0
    } else {
        let rest = spec_generation(entries, parents, k - 1);
        let here = entries[parents[k - 1].0 as int].generation_number + 1;
        if here > rest {
            here
        } else {
            rest
        }
    }
}

/// The segments with one more entry in the last of them, or with one more
/// segment without entries behind them, keep what each segment knows of the
/// segments before it.
pub proof fn lemma_segments_changed(before: Seq<IndexSegment>, after: Seq<IndexSegment>, kept: int)
    requires
        0 <= kept <= before.len(),
        kept < after.len() <= kept + 1,
        after.take(kept) == before.take(kept),
        forall|i: int| 0 <= i < before.len() ==> #[trigger] segment_offset_ok(before, i),
        after[kept].num_parent_commits == entries_upto(before, kept).len(),
    ensures
        forall|i: int| 0 <= i < after.len() ==> #[trigger] segment_offset_ok(after, i),
        entries_upto(after, after.len() as int) == entries_upto(before, kept) + after[kept].entries@,
{
    lemma_entries_upto_same(after, before, kept);
    assert forall|i: int| 0 <= i < after.len() implies #[trigger] segment_offset_ok(after, i) by {
        if i < kept {
            assert(segment_offset_ok(before, i));
            assert(after.take(i) =~= after.take(kept).take(i));
            assert(before.take(i) =~= before.take(kept).take(i));
            lemma_entries_upto_same(after, before, i);
            assert(after[i] == after.take(kept)[i]);
            assert(before[i] == before.take(kept)[i]);
        }
    }
    assert(entries_upto(after, kept + 1) == entries_upto(after, kept) + after[kept].entries@);
}

/// One more entry, of a commit that is new, behind its parents and of a
/// greater generation number than they, keeps the entries well formed.
pub proof fn lemma_entries_push(before: Seq<IndexEntryData>, entry: IndexEntryData)
    requires
        ids_unique(before),
        graph_of(before).wf(),
        forall|p: int| 0 <= p < before.len() ==> (#[trigger] before[p]).commit_id@ != entry.commit_id@,
        forall|j: int|
            0 <= j < entry.parent_positions@.len() ==> (#[trigger] entry.parent_positions@[j]).0
                < before.len() && before[entry.parent_positions@[j].0 as int].generation_number
                < entry.generation_number,
    ensures
        ids_unique(before.push(entry)),
        graph_of(before.push(entry)).wf(),
{
    let after = before.push(entry);
    assert forall|p: int, q: int| 0 <= p < q < after.len() implies (#[trigger] after[p]).commit_id@ != (
    #[trigger] after[q]).commit_id@ by {
        if q < before.len() {
            assert(after[p] == before[p] && after[q] == before[q]);
        } else {
            assert(after[p] == before[p]);
        }
    }
    let graph = graph_of(after);
    let old_graph = graph_of(before);
    assert forall|child: int, j: int|
        0 <= child < graph.len() && 0 <= j < graph.parents[child].len() implies 0 <= (
    #[trigger] graph.parents[child][j]) < child && graph.generations[graph.parents[child][j]]
        < graph.generations[child] by {
        if child < before.len() {
            assert(after[child] == before[child]);
            assert(graph.parents[child] == old_graph.parents[child]);
            let parent = old_graph.parents[child][j];
            assert(0 <= parent < child);
            assert(after[parent] == before[parent]);
            assert(old_graph.generations[parent] < old_graph.generations[child]);
        } else {
            assert(after[child] == entry);
            let parent = entry.parent_positions@[j].0 as int;
            assert(graph.parents[child][j] == parent);
            assert(after[parent] == before[parent]);
        }
    }
}

/// The parent is indexed, and a generation is left behind its own.
pub open spec fn parent_fits(entries: Seq<IndexEntryData>, parent: IndexPosition) -> bool {
    parent.0 < entries.len() && entries[parent.0 as int].generation_number < u32::MAX
}

/// Every parent is indexed, and a generation is left behind theirs.
pub open spec fn parents_fit(entries: Seq<IndexEntryData>, parents: Seq<IndexPosition>) -> bool {
    forall|j: int| 0 <= j < parents.len() ==> parent_fits(entries, #[trigger] parents[j])
}

/// The commit can be added: a position is left, the commit is not indexed
/// yet, and its parents are.
pub open spec fn can_add(
    entries: Seq<IndexEntryData>,
    commit_id: Seq<u8>,
    parents: Seq<IndexPosition>,
) -> bool {
    &&& entries.len() < u32::MAX
    &&& !exists|p: int| 0 <= p < entries.len() && (#[trigger] entries[p]).commit_id@ == commit_id
    &&& parents_fit(entries, parents)
}

impl CompositeIndex {
    /// The generation number for a commit with the given parents, if all of
    /// them are indexed.
    fn generation_for(&self, parent_positions: &Vec<IndexPosition>) -> (generation: Option<u32>)
        requires
            self.wf(),
        ensures
            match generation {
                Some(g) => g == spec_generation(
                    self.entries(),
                    parent_positions@,
                    parent_positions@.len() as int,
                ) && forall|j: int|
                    0 <= j < parent_positions.len() ==> (#[trigger] parent_positions[j]).0
                        < self.entries().len() && self.entries()[parent_positions[j].0 as int].generation_number
                        < g,
                None => !parents_fit(self.entries(), parent_positions@),
            },
    {
        let n: u32 = self.num_commits();
        let mut generation: u32 = 0;
        let mut k: usize = 0;
        while k < parent_positions.len()
            invariant
                self.wf(),
                n == self.entries().len(),
                k <= parent_positions.len(),
                generation == spec_generation(self.entries(), parent_positions@, k as int),
                forall|j: int|
                    0 <= j < k ==> (#[trigger] parent_positions[j]).0 < n
                        && self.entries()[parent_positions[j].0 as int].generation_number
                        < generation,
            decreases parent_positions.len() - k,
        {
            let parent: IndexPosition = parent_positions[k];
            if parent.0 >= n {
                proof {
                    assert(!parent_fits(self.entries(), parent_positions@[k as int]));
                }
                return None;
            }
            let parent_generation: u32 = self.entry_by_pos(parent).generation_number();
            if parent_generation == u32::MAX {
                proof {
                    assert(!parent_fits(self.entries(), parent_positions@[k as int]));
                }
                return None;
            }
            if parent_generation + 1 > generation {
                generation = parent_generation + 1;
            }
            k += 1;
        }
        Some(generation)
    }

    /// Adds a commit behind all others. Returns its position; `None`, and
    /// leaves the index as it is, if the commit is indexed already, if a
    /// parent is not indexed, or if no position is left.
    pub fn add_commit(
        &mut self,
        commit_id: CommitId,
        change_id: ChangeId,
        parent_positions: Vec<IndexPosition>,
    ) -> (pos: Option<IndexPosition>)
        requires
            old(self).wf(),
        ensures
            final(self).wf(),
            pos.is_some() <==> can_add(old(self).entries(), commit_id@, parent_positions@),
            match pos {
                Some(p) => {
                    &&& p.0 == old(self).entries().len()
                    &&& final(self).entries().len() == old(self).entries().len() + 1
                    &&& final(self).entries().drop_last() == old(self).entries()
                    &&& final(self).entries().last().commit_id@ == commit_id@
                    &&& final(self).entries().last().change_id@ == change_id@
                    &&& final(self).entries().last().parent_positions@ == parent_positions@
                    &&& final(self).entries().last().generation_number == spec_generation(
                        old(self).entries(),
                        parent_positions@,
                        parent_positions@.len() as int,
                    )
                },
                None => final(self).entries() == old(self).entries(),
            },
    {
        let n: u32 = self.num_commits();
        if n == u32::MAX || self.has_id(&commit_id) {
            return None;
        }
        let generation: u32 = match self.generation_for(&parent_positions) {
            Some(generation) => generation,
            None => {
                return None;
            },
        };
        let ghost before = self.entries();
        let ghost old_segments = self.segments@;
        let entry = IndexEntryData {
            commit_id,
            change_id,
            generation_number: generation,
            parent_positions,
        };
        let mut segment: IndexSegment = match self.segments.pop() {
            Some(segment) => segment,
            None => IndexSegment { num_parent_commits: 0, entries: Vec::new(), name: None },
        };
        let ghost last = old_segments.len() - 1;
        proof {
            assert(segment == old_segments[last]);
            assert(segment_offset_ok(old_segments, last));
            assert(before == entries_upto(old_segments, last) + old_segments[last].entries@);
            lemma_entries_push(before, entry);
        }
        segment.entries.push(entry);
        self.segments.push(segment);
        proof {
            let segments = self.segments@;
            assert(segments.take(last) =~= old_segments.take(last));
            lemma_segments_changed(old_segments, segments, last);
            assert(self.entries() =~= before.push(entry));
            assert(self.entries().drop_last() =~= before);
        }
        Some(IndexPosition(n))
    }

    /// Begins a new segment with the given name: the segments so far change
    /// no more.
    pub fn begin_segment(&mut self, name: Option<String>)
        requires
            old(self).wf(),
        ensures
            final(self).wf(),
            final(self).entries() == old(self).entries(),
            final(self).segments@.len() == old(self).segments@.len() + 1,
    {
        let n: u32 = self.num_commits();
        let ghost old_segments = self.segments@;
        let ghost count = old_segments.len() as int;
        self.segments.push(IndexSegment { num_parent_commits: n, entries: Vec::new(), name });
        proof {
            let segments = self.segments@;
            assert(segments.take(count) =~= old_segments.take(count));
            assert(old_segments.take(count) =~= old_segments);
            lemma_segments_changed(old_segments, segments, count);
            assert(self.entries() =~= entries_upto(old_segments, count));
        }
    }
}

} // verus!
