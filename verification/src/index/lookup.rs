//! Looking commits up in an index: by identifier and by prefix.

use super::composite::CompositeIndex;
use super::composite::IndexEntry;
use super::composite::IndexEntryData;
use super::composite::IndexPosition;
use super::prefix::digits_match;
use super::prefix::extends;
use super::prefix::lemma_match_extends;
use super::prefix::HexPrefix;
use super::prefix::PrefixResolution;
use crate::object_id::CommitId;
use vstd::prelude::*;

verus! {

/// No commit of the entries begins with the digits.
pub open spec fn no_commit_matches(entries: Seq<IndexEntryData>, digits: Seq<u8>) -> bool {
    forall|p: int| 0 <= p < entries.len() ==> !digits_match(digits, (#[trigger] entries[p]).commit_id@)
}

/// The commit at `p`, and no other commit of the entries, begins with the
/// digits.
pub open spec fn one_commit_matches(entries: Seq<IndexEntryData>, digits: Seq<u8>, p: int) -> bool {
    &&& 0 <= p < entries.len()
    &&& digits_match(digits, entries[p].commit_id@)
    &&& forall|q: int|
        0 <= q < entries.len() && q != p ==> !digits_match(
            digits,
            (#[trigger] entries[q]).commit_id@,
        )
}

/// Two commits of the entries begin with the digits.
pub open spec fn two_commits_match(entries: Seq<IndexEntryData>, digits: Seq<u8>) -> bool {
    exists|p: int, q: int|
        0 <= p < q < entries.len() && digits_match(digits, (#[trigger] entries[p]).commit_id@)
            && digits_match(digits, (#[trigger] entries[q]).commit_id@)
}

/// A prefix that resolves to one commit resolves, when digits are added to
/// it, to the same commit or to none.
pub proof fn lemma_commit_prefix_monotone(
    entries: Seq<IndexEntryData>,
    shorter: Seq<u8>,
    longer: Seq<u8>,
    p: int,
)
    requires
        extends(shorter, longer),
        one_commit_matches(entries, shorter, p),
    ensures
        no_commit_matches(entries, longer) || one_commit_matches(entries, longer, p),
        !two_commits_match(entries, longer),
{
    assert forall|q: int| 0 <= q < entries.len() && q != p implies !digits_match(
        longer,
        (#[trigger] entries[q]).commit_id@,
    ) by {
        if digits_match(longer, entries[q].commit_id@) {
            lemma_match_extends(shorter, longer, entries[q].commit_id@);
        }
    }
    if two_commits_match(entries, longer) {
        let (a, b) = choose|a: int, b: int|
            0 <= a < b < entries.len() && digits_match(longer, (#[trigger] entries[a]).commit_id@)
                && digits_match(longer, (#[trigger] entries[b]).commit_id@);
        assert(a == p && b == p);
    }
}

impl CompositeIndex {
    /// The position of the commit, if it is indexed.
    pub fn commit_id_to_pos(&self, commit_id: &CommitId) -> (pos: Option<IndexPosition>)
        requires
            self.wf(),
        ensures
            match pos {
                Some(p) => p.0 < self.entries().len() && self.entries()[p.0 as int].commit_id@
                    == commit_id@,
                None => forall|p: int|
                    0 <= p < self.entries().len() ==> (#[trigger] self.entries()[p]).commit_id@
                        != commit_id@,
            },
    {
        let n: u32 = self.num_commits();
        let mut p: u32 = n;
        while p > 0
            invariant
                self.wf(),
                n == self.entries().len(),
                p <= n,
                forall|q: int|
                    p <= q < n ==> (#[trigger] self.entries()[q]).commit_id@ != commit_id@,
            decreases p,
        {
            p -= 1;
            let entry: IndexEntry = self.entry_by_pos(IndexPosition(p));
            if entry.data.commit_id == *commit_id {
                return Some(IndexPosition(p));
            }
        }
        None
    }

    /// The entry of the commit, if it is indexed.
    pub fn entry_by_id(&self, commit_id: &CommitId) -> (entry: Option<IndexEntry<'_>>)
        requires
            self.wf(),
        ensures
            match entry {
                Some(e) => e.pos.0 < self.entries().len() && *e.data == self.entries()[e.pos.0 as int]
                    && e.data.commit_id@ == commit_id@,
                None => forall|p: int|
                    0 <= p < self.entries().len() ==> (#[trigger] self.entries()[p]).commit_id@
                        != commit_id@,
            },
    {
        match self.commit_id_to_pos(commit_id) {
            Some(pos) => Some(self.entry_by_pos(pos)),
            None => None,
        }
    }

    /// Whether the commit is indexed.
    pub fn has_id(&self, commit_id: &CommitId) -> (r: bool)
        requires
            self.wf(),
        ensures
            r == exists|p: int|
                0 <= p < self.entries().len() && (#[trigger] self.entries()[p]).commit_id@
                    == commit_id@,
    {
        self.commit_id_to_pos(commit_id).is_some()
    }

    /// Resolves a prefix of a commit id among all indexed commits: to no
    /// commit, to the one commit that begins with it, or to none because
    /// several do.
    pub fn resolve_commit_id_prefix(&self, prefix: &HexPrefix) -> (r: PrefixResolution<CommitId>)
        requires
            self.wf(),
        ensures
            match r {
                PrefixResolution::NoMatch => no_commit_matches(self.entries(), prefix@),
                PrefixResolution::SingleMatch(id) => exists|p: int|
                    #[trigger] one_commit_matches(self.entries(), prefix@, p) && id@
                        == self.entries()[p].commit_id@,
                PrefixResolution::AmbiguousMatch => two_commits_match(self.entries(), prefix@),
            },
    {
        let n: u32 = self.num_commits();
        let mut found: Option<u32> = None;
        let mut p: u32 = n;
        while p > 0
            invariant
                self.wf(),
                n == self.entries().len(),
                p <= n,
                match found {
                    Some(f) => p <= f < n && digits_match(
                        prefix@,
                        self.entries()[f as int].commit_id@,
                    ) && forall|q: int|
                        p <= q < n && q != f ==> !digits_match(
                            prefix@,
                            (#[trigger] self.entries()[q]).commit_id@,
                        ),
                    None => forall|q: int|
                        p <= q < n ==> !digits_match(
                            prefix@,
                            (#[trigger] self.entries()[q]).commit_id@,
                        ),
                },
            decreases p,
        {
            p -= 1;
            let entry: IndexEntry = self.entry_by_pos(IndexPosition(p));
            if prefix.matches(entry.data.commit_id.as_bytes()) {
                match found {
                    Some(f) => {
                        proof {
                            assert(digits_match(prefix@, self.entries()[p as int].commit_id@));
                            assert(digits_match(prefix@, self.entries()[f as int].commit_id@));
                        }
                        return PrefixResolution::AmbiguousMatch;
                    },
                    None => {
                        found = Some(p);
                    },
                }
            }
        }
        match found {
            Some(f) => {
                let id: CommitId = self.entry_by_pos(IndexPosition(f)).commit_id();
                proof {
                    assert(one_commit_matches(self.entries(), prefix@, f as int));
                }
                PrefixResolution::SingleMatch(id)
            },
            None => PrefixResolution::NoMatch,
        }
    }
}

} // verus!
