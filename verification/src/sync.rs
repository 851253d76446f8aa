//! What a sync with remotes decides: which bookmarks moved, and what the
//! rebases of the local commits on them add up to.

use crate::object_id::CommitId;
use vstd::prelude::*;

verus! {

/// A bookmark of a remote as it was before a fetch and as it is after it.
pub struct FetchedBookmark {
    /// The bookmark with its remote, as it is shown.
    pub symbol: String,
    /// The commit that the bookmark pointed to before the fetch.
    pub old_head: CommitId,
    /// The commit that the bookmark points to now, unless it is gone or
    /// conflicted.
    pub new_head: Option<CommitId>,
    /// Whether the bookmark is one of those that were asked for.
    pub matches_filter: bool,
}

/// The local commits on the bookmark are to be rebased: the bookmark
/// points to one commit now, that is another than before, and the
/// bookmark is one of those that were asked for, if any were.
pub open spec fn needs_rebase(bookmark: FetchedBookmark, has_filter: bool) -> bool {
    match bookmark.new_head {
        Some(new_head) => new_head@ != bookmark.old_head@ && (!has_filter
            || bookmark.matches_filter),
        None => false,
    }
}

/// The places of the bookmarks among the first `upto` on which local
/// commits are to be rebased, in their order.
pub open spec fn rebase_places(bookmarks: Seq<FetchedBookmark>, has_filter: bool, upto: int) -> Seq<
    int,
>
    decreases upto,
{
    if upto <= 0 {
        Seq::empty()
    } else if needs_rebase(bookmarks[upto - 1], has_filter) {
        rebase_places(bookmarks, has_filter, upto - 1).push(upto - 1)
    } else {
        rebase_places(bookmarks, has_filter, upto - 1)
    }
}

/// Identifies what needs to be rebased: the places of the bookmarks that
/// moved, in their order.
pub fn rebase_operations(bookmarks: &[FetchedBookmark], has_filter: bool) -> (places: Vec<usize>)
    ensures
        places@.len() == rebase_places(bookmarks@, has_filter, bookmarks.len() as int).len(),
        forall|k: int|
            0 <= k < places.len() ==> (#[trigger] places[k]) as int == rebase_places(
                bookmarks@,
                has_filter,
                bookmarks.len() as int,
            )[k],
        forall|k: int| 0 <= k < places.len() ==> (#[trigger] places[k]) < bookmarks.len(),
{
    let mut places: Vec<usize> = Vec::new();
    let mut i: usize = 0;
    while i < bookmarks.len()
        invariant
            i <= bookmarks.len(),
            places@.len() == rebase_places(bookmarks@, has_filter, i as int).len(),
            forall|k: int|
                0 <= k < places.len() ==> (#[trigger] places[k]) as int == rebase_places(
                    bookmarks@,
                    has_filter,
                    i as int,
                )[k],
            forall|k: int| 0 <= k < places.len() ==> (#[trigger] places[k]) < i,
        decreases bookmarks.len() - i,
    {
        let bookmark = &bookmarks[i];
        let moved: bool = match &bookmark.new_head {
            Some(new_head) => !(*new_head == bookmark.old_head) && (!has_filter
                || bookmark.matches_filter),
            None => false,
        };
        if moved {
            places.push(i);
        }
        i += 1;
    }
    places
}

/// What the rebases of a sync add up to.
#[derive(Clone, Copy, Debug, PartialEq, Eq, Structural)]
pub struct SyncTotals {
    /// The bookmarks with local commits that were rebased.
    pub num_rebased_stacks: usize,
    /// The commits that were rebased.
    pub total_rebased_commits: usize,
    /// The commits that were dropped because they are merged upstream.
    pub total_abandoned_commits: usize,
}

impl SyncTotals {
    /// No rebase yet.
    pub fn new() -> (totals: Self)
        ensures
            totals == (SyncTotals {
                num_rebased_stacks: 0,
                total_rebased_commits: 0,
                total_abandoned_commits: 0,
            }),
    {
        SyncTotals { num_rebased_stacks: 0, total_rebased_commits: 0, total_abandoned_commits: 0 }
    }

    /// Records the rebase of the local commits on one bookmark: of
    /// `to_rebase` commits, `rebased` were rebased and the others dropped.
    /// Nothing is recorded where a total would pass the greatest number.
    pub fn record_stack(&mut self, to_rebase: usize, rebased: usize) -> (recorded: bool)
        ensures
            recorded == (rebased <= to_rebase && old(self).num_rebased_stacks < usize::MAX && old(
                self,
            ).total_rebased_commits + rebased <= usize::MAX && old(self).total_abandoned_commits
                + (to_rebase - rebased) <= usize::MAX),
            recorded ==> *final(self) == (SyncTotals {
                num_rebased_stacks: (old(self).num_rebased_stacks + 1) as usize,
                total_rebased_commits: (old(self).total_rebased_commits + rebased) as usize,
                total_abandoned_commits: (old(self).total_abandoned_commits + (to_rebase
                    - rebased)) as usize,
            }),
            !recorded ==> *final(self) == *old(self),
    {
        if rebased > to_rebase || self.num_rebased_stacks == usize::MAX {
            return false;
        }
        if rebased > usize::MAX - self.total_rebased_commits {
            return false;
        }
        if to_rebase - rebased > usize::MAX - self.total_abandoned_commits {
            return false;
        }
        self.num_rebased_stacks = self.num_rebased_stacks + 1;
        self.total_rebased_commits = self.total_rebased_commits + rebased;
        self.total_abandoned_commits = self.total_abandoned_commits + (to_rebase - rebased);
        true
    }

    /// Whether any local commits were rebased.
    pub fn any_rebased(&self) -> (r: bool)
        ensures
            r == (self.num_rebased_stacks > 0),
    {
        self.num_rebased_stacks > 0
    }
}

} // verus!
