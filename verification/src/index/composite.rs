//! An index of both commit ids and change ids, made of segments: each
//! segment holds the commits that were added after those of the segments
//! before it.

use super::graph::Graph;
use crate::object_id::ChangeId;
use crate::object_id::CommitId;
use vstd::prelude::*;

verus! {

/// The position of a commit in an index: commits are numbered in the order
/// in which they were added, parents before children.
#[derive(Clone, Copy, Debug, PartialEq, Eq, Structural, Hash)]
pub struct IndexPosition(pub u32);

/// The position of a commit in its segment.
#[derive(Clone, Copy, Debug, PartialEq, Eq, Structural, Hash)]
pub struct LocalPosition(pub u32);

/// What the index holds of a commit.
#[derive(Debug)]
pub struct IndexEntryData {
    pub commit_id: CommitId,
    pub change_id: ChangeId,
    pub generation_number: u32,
    pub parent_positions: Vec<IndexPosition>,
}

/// A block of an index: the commits added after those of the segments
/// before it, never changed once another segment follows.
#[derive(Debug)]
pub struct IndexSegment {
    /// The number of commits in the segments before this one.
    pub num_parent_commits: u32,
    pub entries: Vec<IndexEntryData>,
    pub name: Option<String>,
}

/// `CompositeIndex` provides an index of both commit IDs and change IDs.
///
/// It is a composite of segments, the oldest first. A parent segment is
/// meant to be roughly twice as large as its child, which gives a good
/// balance between read and write performance.
#[derive(Debug)]
pub struct CompositeIndex {
    pub segments: Vec<IndexSegment>,
}

/// An entry of an index with its position.
pub struct IndexEntry<'a> {
    pub pos: IndexPosition,
    pub data: &'a IndexEntryData,
}

/// The entries of the first `n` segments, in order.
pub open spec fn entries_upto(segments: Seq<IndexSegment>, n: int) -> Seq<IndexEntryData>
    decreases n,
{
    if n <= 0 {
        Seq::empty()
    } else {
        entries_upto(segments, n - 1) + segments[n - 1].entries@
    }
}

/// The positions of a list as integers.
pub open spec fn positions_view(positions: Seq<IndexPosition>) -> Seq<int> {
    Seq::new(positions.len(), |i: int| positions[i].0 as int)
}

/// The commit graph that entries describe.
pub open spec fn graph_of(entries: Seq<IndexEntryData>) -> Graph {
    Graph {
        parents: Seq::new(entries.len(), |p: int| positions_view(entries[p].parent_positions@)),
        generations: Seq::new(entries.len(), |p: int| entries[p].generation_number as int),
    }
}

/// No two entries are of one commit.
pub open spec fn ids_unique(entries: Seq<IndexEntryData>) -> bool {
    forall|p: int, q: int|
        0 <= p < q < entries.len() ==> (#[trigger] entries[p]).commit_id@ != (
        #[trigger] entries[q]).commit_id@
}

/// The segment at `i` knows how many commits the segments before it hold.
pub open spec fn segment_offset_ok(segments: Seq<IndexSegment>, i: int) -> bool {
    segments[i].num_parent_commits == entries_upto(segments, i).len()
}

/// The number of entries of the first segments grows with their number.
pub proof fn lemma_entries_upto_grows(segments: Seq<IndexSegment>, m: int, n: int)
    requires
        0 <= m <= n,
    ensures
        entries_upto(segments, m).len() <= entries_upto(segments, n).len(),
        forall|p: int|
            0 <= p < entries_upto(segments, m).len() ==> #[trigger] entries_upto(segments, n)[p]
                == entries_upto(segments, m)[p],
    decreases n - m,
{
    if m < n {
        lemma_entries_upto_grows(segments, m, n - 1);
    }
}

/// The entry at a position of the segment at `i` is the entry at that
/// position behind the entries of the segments before.
pub proof fn lemma_entry_in_segment(segments: Seq<IndexSegment>, i: int, local: int)
    requires
        0 <= i < segments.len(),
        0 <= local < segments[i].entries@.len(),
    ensures
        entries_upto(segments, i).len() + local < entries_upto(segments, segments.len() as int).len(),
        entries_upto(segments, segments.len() as int)[entries_upto(segments, i).len() + local]
            == segments[i].entries@[local],
{
    lemma_entries_upto_grows(segments, i + 1, segments.len() as int);
    assert(entries_upto(segments, i + 1) == entries_upto(segments, i) + segments[i].entries@);
    assert(entries_upto(segments, i + 1)[entries_upto(segments, i).len() + local]
        == segments[i].entries@[local]);
}

impl<'a> IndexEntry<'a> {
    pub fn position(&self) -> (pos: IndexPosition)
        ensures
            pos == self.pos,
    {
        self.pos
    }

    pub fn generation_number(&self) -> (generation: u32)
        ensures
            generation == self.data.generation_number,
    {
        self.data.generation_number
    }

    pub fn commit_id(&self) -> (id: CommitId)
        ensures
            id@ == self.data.commit_id@,
    {
        self.data.commit_id.clone()
    }

    pub fn change_id(&self) -> (id: ChangeId)
        ensures
            id@ == self.data.change_id@,
    {
        self.data.change_id.clone()
    }

    pub fn num_parents(&self) -> (n: usize)
        ensures
            n == self.data.parent_positions@.len(),
    {
        self.data.parent_positions.len()
    }

    pub fn parent_positions(&self) -> (parents: &'a [IndexPosition])
        ensures
            parents@ == self.data.parent_positions@,
    {
        self.data.parent_positions.as_slice()
    }
}

impl CompositeIndex {
    /// All entries, in the order of their positions.
    pub open spec fn entries(&self) -> Seq<IndexEntryData> {
        entries_upto(self.segments@, self.segments@.len() as int)
    }

    /// The commit graph of the index.
    pub open spec fn graph(&self) -> Graph {
        graph_of(self.entries())
    }

    /// There is a segment; each segment knows how many commits come before
    /// it; positions fit the machine; each commit is there once, behind its
    /// parents, with a generation number greater than theirs.
    pub open spec fn wf(&self) -> bool {
        &&& self.segments@.len() >= 1
        &&& forall|i: int|
            0 <= i < self.segments@.len() ==> #[trigger] segment_offset_ok(self.segments@, i)
        &&& self.entries().len() <= u32::MAX
        &&& ids_unique(self.entries())
        &&& self.graph().wf()
    }

    /// An index of one segment without commits.
    pub fn new() -> (index: Self)
        ensures
            index.wf(),
            index.entries().len() == 0,
    {
        let mut segments: Vec<IndexSegment> = Vec::new();
        segments.push(IndexSegment { num_parent_commits: 0, entries: Vec::new(), name: None });
        let index = CompositeIndex { segments };
        proof {
            assert(entries_upto(index.segments@, 0).len() == 0);
            assert(index.entries() =~= Seq::<IndexEntryData>::empty());
            assert(segment_offset_ok(index.segments@, 0));
        }
        index
    }

    pub fn num_commits(&self) -> (n: u32)
        requires
            self.wf(),
        ensures
            n == self.entries().len(),
    {
        let last: usize = self.segments.len() - 1;
        proof {
            assert(segment_offset_ok(self.segments@, last as int));
            lemma_entries_upto_grows(self.segments@, last as int, self.segments@.len() as int);
        }
        self.segments[last].num_parent_commits + (self.segments[last].entries.len() as u32)
    }

    /// The entry at a position. Segments are tried from the newest to the
    /// oldest.
    pub fn entry_by_pos(&self, pos: IndexPosition) -> (entry: IndexEntry<'_>)
        requires
            self.wf(),
            pos.0 < self.entries().len(),
        ensures
            entry.pos == pos,
            *entry.data == self.entries()[pos.0 as int],
    {
        let mut i: usize = self.segments.len() - 1;
        proof {
            assert(segment_offset_ok(self.segments@, i as int));
        }
        while self.segments[i].num_parent_commits > pos.0
            invariant
                self.wf(),
                i < self.segments.len(),
                pos.0 < entries_upto(self.segments@, i + 1).len(),
            decreases i,
        {
            proof {
                assert(segment_offset_ok(self.segments@, i as int));
                assert(i > 0);
            }
            i -= 1;
        }
        proof {
            assert(segment_offset_ok(self.segments@, i as int));
            lemma_entry_in_segment(
                self.segments@,
                i as int,
                pos.0 - self.segments[i as int].num_parent_commits,
            );
        }
        let local: u32 = pos.0 - self.segments[i].num_parent_commits;
        IndexEntry { pos, data: &self.segments[i].entries[local as usize] }
    }
}

} // verus!
