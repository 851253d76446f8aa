//! Figures of an index, and the heads of all its commits.

use super::composite::lemma_entry_in_segment;
use super::composite::positions_view;
use super::composite::CompositeIndex;
use super::composite::IndexEntry;
use super::composite::IndexEntryData;
use super::composite::IndexPosition;
use super::graph::Graph;
use crate::object_id::CommitId;
use vstd::prelude::*;

verus! {

/// The figures of one segment.
#[derive(Debug)]
pub struct IndexLevelStats {
    pub num_commits: u32,
    pub name: Option<String>,
}

/// The figures of an index.
#[derive(Debug)]
pub struct IndexStats {
    pub num_commits: u32,
    pub num_merges: u32,
    pub max_generation_number: u32,
    pub num_heads: u32,
    pub num_changes: u32,
    /// The segments, the oldest first.
    pub levels: Vec<IndexLevelStats>,
}

/// The number of commits among the first `n` that have more than one
/// parent.
pub open spec fn count_merges(entries: Seq<IndexEntryData>, n: int) -> int
    decreases n,
{
    if n <= 0 {
        0
    } else {
        count_merges(entries, n - 1) + if entries[n - 1].parent_positions@.len() > 1 {
            1int
        } else {
            0int
        }
    }
}

/// The greatest generation number among the first `n` commits; zero if
/// there is none.
pub open spec fn max_generation(entries: Seq<IndexEntryData>, n: int) -> int
    decreases n,
{
    if n <= 0 {
        0
    } else if entries[n - 1].generation_number > max_generation(entries, n - 1) {
        entries[n - 1].generation_number as int
    } else {
        max_generation(entries, n - 1)
    }
}

/// No commit before `p` is of the change of the commit at `p`.
pub open spec fn is_first_of_change(entries: Seq<IndexEntryData>, p: int) -> bool {
    forall|q: int| 0 <= q < p ==> (#[trigger] entries[q]).change_id@ != entries[p].change_id@
}

/// The number of changes among the first `n` commits.
pub open spec fn count_changes(entries: Seq<IndexEntryData>, n: int) -> int
    decreases n,
{
    if n <= 0 {
        0
    } else {
        count_changes(entries, n - 1) + if is_first_of_change(entries, n - 1) {
            1int
        } else {
            0int
        }
    }
}

/// The commit at `x` is no parent of a commit, and `id` is its identifier.
pub open spec fn is_head_with_id(
    entries: Seq<IndexEntryData>,
    graph: Graph,
    id: Seq<u8>,
    x: int,
) -> bool {
    0 <= x < entries.len() && is_childless(graph, x) && entries[x].commit_id@ == id
}

/// `id` is the identifier of a commit that is no parent of a commit.
pub open spec fn is_head_id(entries: Seq<IndexEntryData>, graph: Graph, id: Seq<u8>) -> bool {
    exists|x: int| #[trigger] is_head_with_id(entries, graph, id, x)
}

/// The commit at `x` is no parent of a commit.
pub open spec fn is_childless(graph: Graph, x: int) -> bool {
    forall|c: int| 0 <= c < graph.len() ==> !#[trigger] graph.is_parent(x, c)
}

pub proof fn lemma_counts_bounded(entries: Seq<IndexEntryData>, n: int)
    requires
        0 <= n,
    ensures
        0 <= count_merges(entries, n) <= n,
        0 <= count_changes(entries, n) <= n,
    decreases n,
{
    if n > 0 {
        lemma_counts_bounded(entries, n - 1);
    }
}

/// The positions are those of the commits that no commit has for a
/// parent, each once, in ascending order.
pub open spec fn are_all_heads(graph: Graph, num_commits: int, heads: Seq<IndexPosition>) -> bool {
    &&& forall|i: int, j: int|
        0 <= i < j < heads.len() ==> (#[trigger] heads[i]).0 < (#[trigger] heads[j]).0
    &&& forall|i: int|
        0 <= i < heads.len() ==> (#[trigger] heads[i]).0 < num_commits && is_childless(
            graph,
            heads[i].0 as int,
        )
    &&& forall|x: int|
        0 <= x < num_commits && is_childless(graph, x) ==> exists|i: int|
            0 <= i < heads.len() && (#[trigger] heads[i]).0 == x
}

/// A position in an ascending list is no less than its place there.
pub proof fn lemma_ascending_from(positions: Seq<IndexPosition>, i: int)
    requires
        forall|a: int, b: int|
            0 <= a < b < positions.len() ==> (#[trigger] positions[a]).0 < (
            #[trigger] positions[b]).0,
        0 <= i < positions.len(),
    ensures
        positions[i].0 >= i,
    decreases i,
{
    if i > 0 {
        lemma_ascending_from(positions, i - 1);
    }
}

impl CompositeIndex {
    /// Whether the commit at `pos` is the first of its change.
    fn first_of_change(&self, pos: u32) -> (r: bool)
        requires
            self.wf(),
            pos < self.entries().len(),
        ensures
            r == is_first_of_change(self.entries(), pos as int),
    {
        let entry: IndexEntry = self.entry_by_pos(IndexPosition(pos));
        let mut q: u32 = 0;
        while q < pos
            invariant
                self.wf(),
                pos < self.entries().len(),
                *entry.data == self.entries()[pos as int],
                q <= pos,
                forall|k: int|
                    0 <= k < q ==> (#[trigger] self.entries()[k]).change_id@
                        != self.entries()[pos as int].change_id@,
            decreases pos - q,
        {
            let other: IndexEntry = self.entry_by_pos(IndexPosition(q));
            if other.data.change_id == entry.data.change_id {
                return false;
            }
            q += 1;
        }
        true
    }

    /// The positions of the commits that no commit has for a parent, in
    /// ascending order.
    pub fn all_heads_pos(&self) -> (heads: Vec<IndexPosition>)
        requires
            self.wf(),
        ensures
            forall|i: int, j: int|
                0 <= i < j < heads.len() ==> (#[trigger] heads[i]).0 < (#[trigger] heads[j]).0,
            forall|i: int|
                0 <= i < heads.len() ==> (#[trigger] heads[i]).0 < self.entries().len()
                    && is_childless(self.graph(), heads[i].0 as int),
            forall|x: int|
                0 <= x < self.entries().len() && is_childless(self.graph(), x) ==> exists|i: int|
                    0 <= i < heads.len() && (#[trigger] heads[i]).0 == x,
    {
        let ghost graph = self.graph();
        let num_commits: u32 = self.num_commits();
        let mut not_head: Vec<bool> = Vec::new();
        while not_head.len() < num_commits as usize
            invariant
                not_head.len() <= num_commits,
                forall|i: int| 0 <= i < not_head.len() ==> !not_head[i],
            decreases num_commits - not_head.len(),
        {
            not_head.push(false);
        }
        let mut pos: u32 = 0;
        while pos < num_commits
            invariant
                self.wf(),
                graph == self.graph(),
                num_commits == self.entries().len(),
                not_head.len() == num_commits,
                pos <= num_commits,
                forall|x: int|
                    0 <= x < num_commits ==> (#[trigger] not_head[x] <==> exists|c: int|
                        0 <= c < pos && #[trigger] graph.is_parent(x, c)),
            decreases num_commits - pos,
        {
            let entry: IndexEntry = self.entry_by_pos(IndexPosition(pos));
            let parents: &[IndexPosition] = entry.parent_positions();
            let ghost views = graph.parents[pos as int];
            let ghost start = not_head@;
            let mut k: usize = 0;
            while k < parents.len()
                invariant
                    graph.wf(),
                    pos < graph.len(),
                    graph.len() == num_commits,
                    views == graph.parents[pos as int],
                    views == positions_view(parents@),
                    not_head.len() == num_commits,
                    k <= parents.len(),
                    forall|x: int|
                        0 <= x < num_commits ==> (#[trigger] not_head[x] <==> (start[x] || exists|
                            j: int,
                        |
                            0 <= j < k && #[trigger] views[j] == x)),
                decreases parents.len() - k,
            {
                let parent: u32 = parents[k].0;
                proof {
                    assert(views[k as int] == parent);
                    assert(0 <= graph.parents[pos as int][k as int] < pos);
                }
                let ghost before = not_head@;
                not_head.set(parent as usize, true);
                proof {
                    assert forall|x: int| 0 <= x < num_commits implies (#[trigger] not_head[x] <==> (
                    start[x] || exists|j: int| 0 <= j < k + 1 && #[trigger] views[j] == x)) by {
                        if x == parent {
                            assert(views[k as int] == x);
                        } else {
                            assert(not_head[x] == before[x]);
                            if exists|j: int| 0 <= j < k + 1 && #[trigger] views[j] == x {
                                let j = choose|j: int| 0 <= j < k + 1 && #[trigger] views[j] == x;
                                assert(j < k);
                            }
                        }
                    }
                }
                k += 1;
            }
            proof {
                assert forall|x: int| 0 <= x < num_commits implies (#[trigger] not_head[x]
                    <==> exists|c: int| 0 <= c < pos + 1 && #[trigger] graph.is_parent(x, c)) by {
                    if not_head[x] {
                        if start[x] {
                            let c = choose|c: int| 0 <= c < pos && #[trigger] graph.is_parent(x, c);
                            assert(0 <= c < pos + 1 && graph.is_parent(x, c));
                        } else {
                            let j = choose|j: int| 0 <= j < parents.len() && #[trigger] views[j] == x;
                            assert(graph.parents[pos as int].contains(x));
                            assert(graph.is_parent(x, pos as int));
                        }
                    }
                    if exists|c: int| 0 <= c < pos + 1 && #[trigger] graph.is_parent(x, c) {
                        let c = choose|c: int| 0 <= c < pos + 1 && #[trigger] graph.is_parent(x, c);
                        if c < pos {
                            assert(start[x]);
                        } else {
                            let j = choose|j: int| 0 <= j < views.len() && views[j] == x;
                            assert(0 <= j < parents.len() && views[j] == x);
                        }
                    }
                }
            }
            pos += 1;
        }
        let mut heads: Vec<IndexPosition> = Vec::new();
        let mut x: u32 = 0;
        while x < num_commits
            invariant
                graph == self.graph(),
                graph.len() == num_commits,
                not_head.len() == num_commits,
                x <= num_commits,
                forall|y: int|
                    0 <= y < num_commits ==> (#[trigger] not_head[y] <==> exists|c: int|
                        0 <= c < num_commits && #[trigger] graph.is_parent(y, c)),
                forall|i: int, j: int|
                    0 <= i < j < heads.len() ==> (#[trigger] heads[i]).0 < (#[trigger] heads[j]).0,
                forall|i: int|
                    0 <= i < heads.len() ==> (#[trigger] heads[i]).0 < x && is_childless(
                        graph,
                        heads[i].0 as int,
                    ),
                forall|y: int|
                    0 <= y < x && is_childless(graph, y) ==> exists|i: int|
                        0 <= i < heads.len() && (#[trigger] heads[i]).0 == y,
            decreases num_commits - x,
        {
            let ghost before = heads@;
            if !not_head[x as usize] {
                heads.push(IndexPosition(x));
                proof {
                    assert(is_childless(graph, x as int)) by {
                        assert forall|c: int| 0 <= c < graph.len() implies !#[trigger] graph.is_parent(
                            x as int,
                            c,
                        ) by {}
                    }
                    assert(heads[before.len() as int].0 == x);
                }
            } else {
                proof {
                    let c = choose|c: int|
                        0 <= c < num_commits && #[trigger] graph.is_parent(x as int, c);
                    assert(!is_childless(graph, x as int));
                }
            }
            proof {
                assert forall|y: int| 0 <= y < x + 1 && is_childless(graph, y) implies exists|
                    i: int,
                | 0 <= i < heads.len() && (#[trigger] heads[i]).0 == y by {
                    if y < x {
                        let i = choose|i: int| 0 <= i < before.len() && (#[trigger] before[i]).0 == y;
                        assert(heads[i].0 == y);
                    } else {
                        assert(heads[before.len() as int].0 == y);
                    }
                }
            }
            x += 1;
        }
        heads
    }

    /// The commits that no commit has for a parent.
    pub fn all_heads(&self) -> (heads: Vec<CommitId>)
        requires
            self.wf(),
        ensures
            forall|i: int|
                0 <= i < heads.len() ==> is_head_id(
                    self.entries(),
                    self.graph(),
                    (#[trigger] heads[i])@,
                ),
            forall|x: int|
                0 <= x < self.entries().len() && is_childless(self.graph(), x) ==> exists|i: int|
                    0 <= i < heads.len() && (#[trigger] heads[i])@ == self.entries()[x].commit_id@,
    {
        let positions: Vec<IndexPosition> = self.all_heads_pos();
        let mut heads: Vec<CommitId> = Vec::new();
        let mut i: usize = 0;
        while i < positions.len()
            invariant
                self.wf(),
                i <= positions.len(),
                heads.len() == i,
                forall|j: int|
                    0 <= j < positions.len() ==> (#[trigger] positions[j]).0 < self.entries().len(),
                forall|j: int|
                    0 <= j < i ==> (#[trigger] heads[j])@
                        == self.entries()[positions[j].0 as int].commit_id@,
            decreases positions.len() - i,
        {
            heads.push(self.entry_by_pos(positions[i]).commit_id());
            i += 1;
        }
        proof {
            assert forall|j: int| 0 <= j < heads.len() implies is_head_id(
                self.entries(),
                self.graph(),
                (#[trigger] heads[j])@,
            ) by {
                let x = positions[j].0 as int;
                assert(is_childless(self.graph(), x));
                assert(is_head_with_id(self.entries(), self.graph(), heads[j]@, x));
            }
            assert forall|x: int|
                0 <= x < self.entries().len() && is_childless(self.graph(), x) implies exists|
                i: int,
            | 0 <= i < heads.len() && (#[trigger] heads[i])@ == self.entries()[x].commit_id@ by {
                let i = choose|i: int| 0 <= i < positions.len() && (#[trigger] positions[i]).0 == x;
                assert(heads[i]@ == self.entries()[x].commit_id@);
            }
        }
        heads
    }

    /// The figures of the index: how many commits, merges, heads and
    /// changes it holds, the greatest generation number, and the size of
    /// each segment, the oldest first.
    pub fn stats(&self) -> (stats: IndexStats)
        requires
            self.wf(),
        ensures
            stats.num_commits == self.entries().len(),
            stats.num_merges == count_merges(self.entries(), self.entries().len() as int),
            stats.max_generation_number == max_generation(
                self.entries(),
                self.entries().len() as int,
            ),
            stats.num_changes == count_changes(self.entries(), self.entries().len() as int),
            exists|heads: Seq<IndexPosition>| #[trigger]
                are_all_heads(self.graph(), self.entries().len() as int, heads) && stats.num_heads
                    == heads.len(),
            stats.levels@.len() == self.segments@.len(),
            forall|i: int|
                0 <= i < self.segments@.len() ==> (#[trigger] stats.levels[i]).num_commits
                    == self.segments[i].entries@.len() && stats.levels[i].name
                    == self.segments[i].name,
    {
        let num_commits: u32 = self.num_commits();
        let mut num_merges: u32 = 0;
        let mut max_generation_number: u32 = 0;
        let mut num_changes: u32 = 0;
        let mut pos: u32 = 0;
        while pos < num_commits
            invariant
                self.wf(),
                num_commits == self.entries().len(),
                pos <= num_commits,
                num_merges == count_merges(self.entries(), pos as int),
                max_generation_number == max_generation(self.entries(), pos as int),
                num_changes == count_changes(self.entries(), pos as int),
            decreases num_commits - pos,
        {
            proof {
                lemma_counts_bounded(self.entries(), pos as int);
            }
            let entry: IndexEntry = self.entry_by_pos(IndexPosition(pos));
            if entry.generation_number() > max_generation_number {
                max_generation_number = entry.generation_number();
            }
            if entry.num_parents() > 1 {
                num_merges += 1;
            }
            if self.first_of_change(pos) {
                num_changes += 1;
            }
            pos += 1;
        }
        let heads: Vec<IndexPosition> = self.all_heads_pos();
        proof {
            assert(are_all_heads(self.graph(), self.entries().len() as int, heads@));
            if heads.len() > 0 {
                lemma_ascending_from(heads@, heads.len() - 1);
            }
        }
        let num_heads: u32 = if heads.len() > u32::MAX as usize {
            u32::MAX
        } else {
            heads.len() as u32
        };
        let mut levels: Vec<IndexLevelStats> = Vec::new();
        let mut i: usize = 0;
        proof {
            assert forall|j: int| 0 <= j < self.segments@.len() implies self.segments[j].entries@.len()
                <= u32::MAX by {
                if self.segments[j].entries@.len() > 0 {
                    lemma_entry_in_segment(
                        self.segments@,
                        j,
                        self.segments[j].entries@.len() - 1,
                    );
                }
            }
        }
        while i < self.segments.len()
            invariant
                i <= self.segments.len(),
                levels.len() == i,
                forall|j: int| 0 <= j < self.segments@.len() ==> self.segments[j].entries@.len()
                    <= u32::MAX,
                forall|j: int|
                    0 <= j < i ==> (#[trigger] levels[j]).num_commits
                        == self.segments[j].entries@.len() && levels[j].name
                        == self.segments[j].name,
            decreases self.segments.len() - i,
        {
            levels.push(
                IndexLevelStats {
                    num_commits: self.segments[i].entries.len() as u32,
                    name: match &self.segments[i].name {
                        Some(name) => Some(name.clone()),
                        None => None,
                    },
                },
            );
            i += 1;
        }
        IndexStats {
            num_commits,
            num_merges,
            max_generation_number,
            num_heads,
            num_changes,
            levels,
        }
    }
}

} // verus!
