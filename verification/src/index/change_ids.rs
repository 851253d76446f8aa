//! Resolving change ids: to the commits of a change, as far as they are
//! ancestors of given heads.

use super::composite::CompositeIndex;
use super::composite::IndexEntry;
use super::composite::IndexEntryData;
use super::composite::IndexPosition;
use super::heads::position_set;
use super::heads::reached;
use super::composite::graph_of;
use super::prefix::digits_match;
use super::prefix::extends;
use super::prefix::lemma_match_extends;
use super::prefix::HexPrefix;
use super::prefix::PrefixResolution;
use crate::object_id::ChangeId;
use crate::object_id::CommitId;
use super::neighbors::change_ids;
use super::neighbors::is_next;
use super::neighbors::is_previous;
use super::neighbors::spec_shortest_prefix_len;
use super::prefix::spec_bytes_less;
use vstd::prelude::*;

verus! {

/// The change id of the commit at `p` begins with the digits.
pub open spec fn change_matches_at(entries: Seq<IndexEntryData>, digits: Seq<u8>, p: int) -> bool {
    0 <= p < entries.len() && digits_match(digits, entries[p].change_id@)
}

/// Two commits of different changes have change ids that begin with the
/// digits.
pub open spec fn two_changes_match(entries: Seq<IndexEntryData>, digits: Seq<u8>) -> bool {
    exists|p: int, q: int|
        #[trigger] change_matches_at(entries, digits, p) && #[trigger] change_matches_at(
            entries,
            digits,
            q,
        ) && entries[p].change_id@ != entries[q].change_id@
}

/// The positions are those of the commits below `n` whose change id begins
/// with the digits, in ascending order; all of them are of the change
/// `change_id`.
pub open spec fn one_change_matches(
    entries: Seq<IndexEntryData>,
    digits: Seq<u8>,
    n: int,
    change_id: Seq<u8>,
    positions: Seq<IndexPosition>,
) -> bool {
    &&& forall|i: int, j: int|
        0 <= i < j < positions.len() ==> (#[trigger] positions[i]).0 < (#[trigger] positions[j]).0
    &&& forall|i: int|
        0 <= i < positions.len() ==> (#[trigger] positions[i]).0 < n && change_matches_at(
            entries,
            digits,
            positions[i].0 as int,
        )
    &&& forall|p: int|
        0 <= p < n && #[trigger] change_matches_at(entries, digits, p) ==> entries[p].change_id@
            == change_id && position_set(positions).contains(p)
}

impl CompositeIndex {
    /// Resolves the given change id `prefix` to the associated entries. The
    /// returned entries may be hidden.
    ///
    /// The returned index positions are sorted in ascending order.
    pub fn resolve_change_id_prefix(&self, prefix: &HexPrefix) -> (r: PrefixResolution<
        (ChangeId, Vec<IndexPosition>),
    >)
        requires
            self.wf(),
        ensures
            match r {
                PrefixResolution::NoMatch => forall|p: int|
                    !#[trigger] change_matches_at(self.entries(), prefix@, p),
                PrefixResolution::SingleMatch((change_id, positions)) => positions@.len() > 0
                    && one_change_matches(
                    self.entries(),
                    prefix@,
                    self.entries().len() as int,
                    change_id@,
                    positions@,
                ),
                PrefixResolution::AmbiguousMatch => two_changes_match(self.entries(), prefix@),
            },
    {
        let ghost entries = self.entries();
        let n: u32 = self.num_commits();
        let mut found: Option<ChangeId> = None;
        let mut positions: Vec<IndexPosition> = Vec::new();
        let mut p: u32 = 0;
        while p < n
            invariant
                self.wf(),
                entries == self.entries(),
                n == entries.len(),
                p <= n,
                match found {
                    Some(change_id) => positions@.len() > 0 && one_change_matches(
                        entries,
                        prefix@,
                        p as int,
                        change_id@,
                        positions@,
                    ),
                    None => positions@.len() == 0 && forall|q: int|
                        0 <= q < p ==> !#[trigger] change_matches_at(entries, prefix@, q),
                },
            decreases n - p,
        {
            let entry: IndexEntry = self.entry_by_pos(IndexPosition(p));
            let ghost before = positions@;
            if prefix.matches(entry.data.change_id.as_bytes()) {
                proof {
                    assert(change_matches_at(entries, prefix@, p as int));
                }
                let same: bool = match &found {
                    Some(change_id) => *change_id == entry.data.change_id,
                    None => true,
                };
                if !same {
                    proof {
                        let q = before[0].0 as int;
                        assert(change_matches_at(entries, prefix@, q));
                        assert(entries[q].change_id@ != entries[p as int].change_id@);
                    }
                    return PrefixResolution::AmbiguousMatch;
                }
                if found.is_none() {
                    found = Some(entry.data.change_id.clone());
                }
                positions.push(IndexPosition(p));
                proof {
                    let after = positions@;
                    assert forall|i: int, j: int| 0 <= i < j < after.len() implies (
                    #[trigger] after[i]).0 < (#[trigger] after[j]).0 by {
                        if j < before.len() {
                            assert(after[i] == before[i] && after[j] == before[j]);
                        } else {
                            assert(after[i] == before[i]);
                        }
                    }
                    assert forall|i: int| 0 <= i < after.len() implies (#[trigger] after[i]).0 < p
                        + 1 && change_matches_at(entries, prefix@, after[i].0 as int) by {
                        if i < before.len() {
                            assert(after[i] == before[i]);
                        }
                    }
                    assert forall|q: int|
                        0 <= q < p + 1 && #[trigger] change_matches_at(
                            entries,
                            prefix@,
                            q,
                        ) implies entries[q].change_id@ == found.unwrap()@ && position_set(
                        after,
                    ).contains(q) by {
                        if q < p {
                            assert(position_set(before).contains(q));
                            let i = choose|i: int|
                                0 <= i < before.len() && (#[trigger] before[i]).0 == q;
                            assert(after[i].0 == q);
                        } else {
                            assert(after[before.len() as int].0 == q);
                        }
                    }
                }
            } else {
                proof {
                    assert(!change_matches_at(entries, prefix@, p as int));
                }
            }
            p += 1;
        }
        match found {
            Some(change_id) => PrefixResolution::SingleMatch((change_id, positions)),
            None => PrefixResolution::NoMatch,
        }
    }

    /// Whether the commit `ancestor_id` is an ancestor of the commit
    /// `descendant_id`, or the commit itself. Both must be indexed.
    pub fn is_ancestor(&self, ancestor_id: &CommitId, descendant_id: &CommitId) -> (r: bool)
        requires
            self.wf(),
            exists|p: int|
                0 <= p < self.entries().len() && (#[trigger] self.entries()[p]).commit_id@
                    == ancestor_id@,
            exists|p: int|
                0 <= p < self.entries().len() && (#[trigger] self.entries()[p]).commit_id@
                    == descendant_id@,
        ensures
            exists|a: int, d: int|
                0 <= a < self.entries().len() && 0 <= d < self.entries().len()
                    && self.entries()[a].commit_id@ == ancestor_id@ && self.entries()[d].commit_id@
                    == descendant_id@ && r == #[trigger] self.graph().is_ancestor(a, d),
    {
        let ancestor_pos: IndexPosition = match self.commit_id_to_pos(ancestor_id) {
            Some(pos) => pos,
            None => IndexPosition(0),
        };
        let descendant_pos: IndexPosition = match self.commit_id_to_pos(descendant_id) {
            Some(pos) => pos,
            None => IndexPosition(0),
        };
        self.is_ancestor_pos(ancestor_pos, descendant_pos)
    }
}

/// The commit `id` is indexed.
pub open spec fn has_commit(entries: Seq<IndexEntryData>, id: Seq<u8>) -> bool {
    exists|p: int| 0 <= p < entries.len() && (#[trigger] entries[p]).commit_id@ == id
}

/// Resolves change ids among the commits that are ancestors of given heads.
pub struct ChangeIdIndexImpl<'a> {
    pub index: &'a CompositeIndex,
    pub heads: Vec<IndexPosition>,
    /// For each position, whether the commit there is an ancestor of a
    /// head, or a head: the set is computed once, for all lookups.
    pub reachable: Vec<bool>,
}

/// The positions of the given commits, in their order.
pub open spec fn positions_of_ids(
    entries: Seq<IndexEntryData>,
    ids: Seq<CommitId>,
    positions: Seq<IndexPosition>,
) -> bool {
    &&& positions.len() == ids.len()
    &&& forall|i: int|
        0 <= i < ids.len() ==> (#[trigger] positions[i]).0 < entries.len()
            && entries[positions[i].0 as int].commit_id@ == ids[i]@
}

/// The identifiers of the commits below `n` that are ancestors of the
/// heads, or heads, and whose change id begins with the digits, in the
/// order of their positions.
pub open spec fn visible_matches(
    entries: Seq<IndexEntryData>,
    heads: Seq<IndexPosition>,
    digits: Seq<u8>,
    n: int,
) -> Seq<Seq<u8>>
    decreases n,
{
    if n <= 0 {
        Seq::empty()
    } else {
        let before = visible_matches(entries, heads, digits, n - 1);
        if change_matches_at(entries, digits, n - 1) && reached(
            graph_of(entries),
            position_set(heads),
            n - 1,
        ) {
            before.push(entries[n - 1].commit_id@)
        } else {
            before
        }
    }
}

/// The identifiers of the commits at the first `upto` positions that are
/// ancestors of the heads, or heads.
pub open spec fn visible_ids(
    entries: Seq<IndexEntryData>,
    heads: Seq<IndexPosition>,
    positions: Seq<IndexPosition>,
    upto: int,
) -> Seq<Seq<u8>>
    decreases upto,
{
    if upto <= 0 {
        Seq::empty()
    } else {
        let before = visible_ids(entries, heads, positions, upto - 1);
        if reached(graph_of(entries), position_set(heads), positions[upto - 1].0 as int) {
            before.push(entries[positions[upto - 1].0 as int].commit_id@)
        } else {
            before
        }
    }
}

/// The identifiers of commits, as sequences of bytes.
pub open spec fn commit_ids_view(ids: Seq<CommitId>) -> Seq<Seq<u8>> {
    Seq::new(ids.len(), |i: int| ids[i]@)
}

/// What is visible among the first positions does not depend on the
/// positions behind them.
proof fn lemma_visible_ids_prefix(
    entries: Seq<IndexEntryData>,
    heads: Seq<IndexPosition>,
    short: Seq<IndexPosition>,
    long: Seq<IndexPosition>,
    upto: int,
)
    requires
        upto <= short.len() <= long.len(),
        forall|i: int| 0 <= i < short.len() ==> short[i] == long[i],
    ensures
        visible_ids(entries, heads, short, upto) == visible_ids(entries, heads, long, upto),
    decreases upto,
{
    if upto > 0 {
        lemma_visible_ids_prefix(entries, heads, short, long, upto - 1);
    }
}

/// The visible commits among all the positions of the commits that match
/// are the visible commits that match.
pub proof fn lemma_visible_ids(
    entries: Seq<IndexEntryData>,
    heads: Seq<IndexPosition>,
    digits: Seq<u8>,
    n: int,
    change_id: Seq<u8>,
    positions: Seq<IndexPosition>,
)
    requires
        0 <= n <= entries.len(),
        one_change_matches(entries, digits, n, change_id, positions),
    ensures
        visible_ids(entries, heads, positions, positions.len() as int) == visible_matches(
            entries,
            heads,
            digits,
            n,
        ),
    decreases n,
{
    if n == 0 {
        if positions.len() > 0 {
            assert(positions[0].0 < 0);
        }
    } else if change_matches_at(entries, digits, n - 1) {
        assert(position_set(positions).contains(n - 1));
        let k = choose|k: int| 0 <= k < positions.len() && (#[trigger] positions[k]).0 == n - 1;
        if k < positions.len() - 1 {
            assert(positions[k].0 < positions[positions.len() - 1].0);
        }
        let shorter = positions.drop_last();
        assert(one_change_matches(entries, digits, n - 1, change_id, shorter)) by {
            assert forall|i: int, j: int| 0 <= i < j < shorter.len() implies (
            #[trigger] shorter[i]).0 < (#[trigger] shorter[j]).0 by {
                assert(shorter[i] == positions[i] && shorter[j] == positions[j]);
            }
            assert forall|i: int| 0 <= i < shorter.len() implies (#[trigger] shorter[i]).0 < n - 1
                && change_matches_at(entries, digits, shorter[i].0 as int) by {
                assert(shorter[i] == positions[i]);
                assert(positions[i].0 < positions[positions.len() - 1].0);
            }
            assert forall|p: int|
                0 <= p < n - 1 && #[trigger] change_matches_at(entries, digits, p) implies entries[p].change_id@
                == change_id && position_set(shorter).contains(p) by {
                assert(position_set(positions).contains(p));
                let i = choose|i: int| 0 <= i < positions.len() && (#[trigger] positions[i]).0 == p;
                assert(shorter[i].0 == p);
            }
        }
        lemma_visible_ids(entries, heads, digits, n - 1, change_id, shorter);
        lemma_visible_ids_prefix(entries, heads, shorter, positions, shorter.len() as int);
    } else {
        assert(one_change_matches(entries, digits, n - 1, change_id, positions)) by {
            assert forall|i: int| 0 <= i < positions.len() implies (#[trigger] positions[i]).0 < n
                - 1 && change_matches_at(entries, digits, positions[i].0 as int) by {
                assert(change_matches_at(entries, digits, positions[i].0 as int));
            }
        }
        lemma_visible_ids(entries, heads, digits, n - 1, change_id, positions);
    }
}

/// A prefix of change ids that resolves to the commits of one change
/// resolves, when digits are added to it, to the same visible commits if
/// it still matches the change, and to none if it does not.
pub proof fn lemma_change_prefix_monotone(
    entries: Seq<IndexEntryData>,
    heads: Seq<IndexPosition>,
    shorter: Seq<u8>,
    longer: Seq<u8>,
    n: int,
)
    requires
        extends(shorter, longer),
        !two_changes_match(entries, shorter),
        0 <= n <= entries.len(),
    ensures
        !two_changes_match(entries, longer),
        visible_matches(entries, heads, longer, n) == visible_matches(entries, heads, shorter, n)
            || visible_matches(entries, heads, longer, n).len() == 0,
        (exists|p: int| change_matches_at(entries, longer, p)) ==> visible_matches(
            entries,
            heads,
            longer,
            n,
        ) == visible_matches(entries, heads, shorter, n),
    decreases n,
{
    assert forall|p: int| change_matches_at(entries, longer, p) implies change_matches_at(
        entries,
        shorter,
        p,
    ) by {
        lemma_match_extends(shorter, longer, entries[p].change_id@);
    }
    if two_changes_match(entries, longer) {
        let (p, q) = choose|p: int, q: int|
            #[trigger] change_matches_at(entries, longer, p) && #[trigger] change_matches_at(
                entries,
                longer,
                q,
            ) && entries[p].change_id@ != entries[q].change_id@;
        assert(change_matches_at(entries, shorter, p) && change_matches_at(entries, shorter, q));
    }
    if exists|p: int| change_matches_at(entries, longer, p) {
        let w = choose|p: int| change_matches_at(entries, longer, p);
        lemma_same_change_matches(entries, heads, shorter, longer, w, n);
    } else {
        lemma_no_visible_matches(entries, heads, longer, n);
    }
}

/// Where no commit matches, no visible commit does.
proof fn lemma_no_visible_matches(
    entries: Seq<IndexEntryData>,
    heads: Seq<IndexPosition>,
    digits: Seq<u8>,
    n: int,
)
    requires
        forall|p: int| !change_matches_at(entries, digits, p),
    ensures
        visible_matches(entries, heads, digits, n).len() == 0,
    decreases n,
{
    if n > 0 {
        lemma_no_visible_matches(entries, heads, digits, n - 1);
    }
}

/// Where the longer prefix matches the one change that the shorter prefix
/// matches, both match the same commits.
proof fn lemma_same_change_matches(
    entries: Seq<IndexEntryData>,
    heads: Seq<IndexPosition>,
    shorter: Seq<u8>,
    longer: Seq<u8>,
    w: int,
    n: int,
)
    requires
        extends(shorter, longer),
        !two_changes_match(entries, shorter),
        change_matches_at(entries, longer, w),
        change_matches_at(entries, shorter, w),
        0 <= n <= entries.len(),
    ensures
        visible_matches(entries, heads, longer, n) == visible_matches(entries, heads, shorter, n),
    decreases n,
{
    if n > 0 {
        lemma_same_change_matches(entries, heads, shorter, longer, w, n - 1);
        if change_matches_at(entries, shorter, n - 1) {
            assert(entries[n - 1].change_id@ == entries[w].change_id@);
        }
        if change_matches_at(entries, longer, n - 1) {
            lemma_match_extends(shorter, longer, entries[n - 1].change_id@);
        }
    }
}

impl<'a> ChangeIdIndexImpl<'a> {
    pub open spec fn wf(&self) -> bool {
        &&& self.index.wf()
        &&& forall|i: int|
            0 <= i < self.heads@.len() ==> (#[trigger] self.heads@[i]).0 < self.index.entries().len()
        &&& self.reachable@.len() == self.index.entries().len()
        &&& forall|p: int|
            0 <= p < self.reachable@.len() ==> (#[trigger] self.reachable@[p] <==> self.is_visible(
                p,
            ))
    }

    /// The commit at `p` is visible: an ancestor of a head, or a head.
    pub open spec fn is_visible(&self, p: int) -> bool {
        reached(self.index.graph(), position_set(self.heads@), p)
    }

    /// `id` is the identifier of a visible commit whose change id begins
    /// with the digits.
    pub open spec fn is_visible_match(&self, digits: Seq<u8>, id: Seq<u8>) -> bool {
        exists|p: int|
            #[trigger] change_matches_at(self.index.entries(), digits, p) && self.is_visible(p)
                && self.index.entries()[p].commit_id@ == id
    }

    /// An index of the changes whose commits are ancestors of `heads`. The
    /// heads must be indexed.
    pub fn new(index: &'a CompositeIndex, heads: &[CommitId]) -> (r: Self)
        requires
            index.wf(),
            forall|i: int| 0 <= i < heads.len() ==> has_commit(index.entries(), (#[trigger] heads[i])@),
        ensures
            r.wf(),
            r.index == index,
            positions_of_ids(index.entries(), heads@, r.heads@),
    {
        let mut positions: Vec<IndexPosition> = Vec::new();
        let mut i: usize = 0;
        while i < heads.len()
            invariant
                index.wf(),
                i <= heads.len(),
                forall|k: int|
                    0 <= k < heads.len() ==> has_commit(index.entries(), (#[trigger] heads[k])@),
                positions_of_ids(index.entries(), heads@.take(i as int), positions@),
            decreases heads.len() - i,
        {
            let ghost before = positions@;
            match index.commit_id_to_pos(&heads[i]) {
                Some(pos) => {
                    positions.push(pos);
                },
                None => {
                    proof {
                        assert(has_commit(index.entries(), heads[i as int]@));
                        let p = choose|p: int|
                            0 <= p < index.entries().len() && (#[trigger] index.entries()[p]).commit_id@
                                == heads[i as int]@;
                        assert(false);
                    }
                    positions.push(IndexPosition(0));
                },
            }
            proof {
                let ids = heads@.take(i + 1);
                assert forall|k: int| 0 <= k < ids.len() implies (#[trigger] positions[k]).0
                    < index.entries().len() && index.entries()[positions[k].0 as int].commit_id@
                    == ids[k]@ by {
                    if k < i {
                        assert(positions[k] == before[k]);
                        assert(ids[k] == heads@.take(i as int)[k]);
                    }
                }
            }
            i += 1;
        }
        proof {
            assert(heads@.take(heads.len() as int) =~= heads@);
        }
        let reachable: Vec<bool> = index.mark_ancestors(&positions);
        ChangeIdIndexImpl { index, heads: positions, reachable }
    }

    /// Whether the commit at `pos` is an ancestor of a head, or a head.
    pub fn is_reachable(&self, pos: IndexPosition) -> (r: bool)
        requires
            self.wf(),
            pos.0 < self.index.entries().len(),
        ensures
            r == self.is_visible(pos.0 as int),
    {
        self.reachable[pos.0 as usize]
    }

    /// Resolves change id prefix among all ids, then filters out hidden
    /// entries.
    ///
    /// If `SingleMatch` is returned, the commits including in the set are
    /// all visible. `AmbiguousMatch` may be returned even if the prefix is
    /// unique within the visible entries.
    pub fn resolve_prefix(&self, prefix: &HexPrefix) -> (r: PrefixResolution<Vec<CommitId>>)
        requires
            self.wf(),
        ensures
            match r {
                PrefixResolution::NoMatch => forall|p: int|
                    #[trigger] change_matches_at(self.index.entries(), prefix@, p)
                        ==> !self.is_visible(p),
                PrefixResolution::SingleMatch(ids) => ids@.len() > 0 && !two_changes_match(
                    self.index.entries(),
                    prefix@,
                ) && commit_ids_view(ids@) == visible_matches(
                    self.index.entries(),
                    self.heads@,
                    prefix@,
                    self.index.entries().len() as int,
                ) && forall|i: int|
                    0 <= i < ids@.len() ==> self.is_visible_match(prefix@, (#[trigger] ids@[i])@),
                PrefixResolution::AmbiguousMatch => two_changes_match(
                    self.index.entries(),
                    prefix@,
                ),
            },
    {
        let ghost entries = self.index.entries();
        match self.index.resolve_change_id_prefix(prefix) {
            PrefixResolution::NoMatch => {
                proof {
                    assert forall|p: int| #[trigger]
                        change_matches_at(entries, prefix@, p) implies !self.is_visible(p) by {}
                }
                PrefixResolution::NoMatch
            },
            PrefixResolution::SingleMatch((change_id, positions)) => {
                let mut reachable_commit_ids: Vec<CommitId> = Vec::new();
                let mut i: usize = 0;
                while i < positions.len()
                    invariant
                        self.wf(),
                        entries == self.index.entries(),
                        i <= positions.len(),
                        forall|k: int|
                            0 <= k < positions.len() ==> (#[trigger] positions[k]).0 < entries.len()
                                && change_matches_at(entries, prefix@, positions[k].0 as int),
                        forall|k: int|
                            0 <= k < i && self.is_visible((#[trigger] positions[k]).0 as int)
                                ==> reachable_commit_ids@.len() > 0,
                        commit_ids_view(reachable_commit_ids@) == visible_ids(
                            entries,
                            self.heads@,
                            positions@,
                            i as int,
                        ),
                        forall|k: int|
                            0 <= k < reachable_commit_ids@.len() ==> self.is_visible_match(
                                prefix@,
                                (#[trigger] reachable_commit_ids@[k])@,
                            ),
                    decreases positions.len() - i,
                {
                    let pos: IndexPosition = positions[i];
                    if self.is_reachable(pos) {
                        let ghost before = reachable_commit_ids@;
                        reachable_commit_ids.push(self.index.entry_by_pos(pos).commit_id());
                        proof {
                            assert(commit_ids_view(reachable_commit_ids@) =~= commit_ids_view(
                                before,
                            ).push(entries[pos.0 as int].commit_id@));
                            assert forall|k: int|
                                0 <= k < reachable_commit_ids@.len() implies self.is_visible_match(
                                prefix@,
                                (#[trigger] reachable_commit_ids@[k])@,
                            ) by {
                                if k < before.len() {
                                    assert(reachable_commit_ids@[k] == before[k]);
                                } else {
                                    assert(change_matches_at(entries, prefix@, pos.0 as int));
                                }
                            }
                        }
                    }
                    i += 1;
                }
                proof {
                    lemma_visible_ids(
                        entries,
                        self.heads@,
                        prefix@,
                        entries.len() as int,
                        change_id@,
                        positions@,
                    );
                    if two_changes_match(entries, prefix@) {
                        let (p, q) = choose|p: int, q: int|
                            #[trigger] change_matches_at(entries, prefix@, p)
                                && #[trigger] change_matches_at(entries, prefix@, q)
                                && entries[p].change_id@ != entries[q].change_id@;
                        assert(entries[p].change_id@ == change_id@);
                        assert(entries[q].change_id@ == change_id@);
                    }
                }
                if reachable_commit_ids.len() == 0 {
                    proof {
                        assert forall|p: int| #[trigger]
                            change_matches_at(entries, prefix@, p) implies !self.is_visible(p) by {
                            assert(position_set(positions@).contains(p));
                            let k = choose|k: int|
                                0 <= k < positions.len() && (#[trigger] positions[k]).0 == p;
                        }
                    }
                    PrefixResolution::NoMatch
                } else {
                    PrefixResolution::SingleMatch(reachable_commit_ids)
                }
            },
            PrefixResolution::AmbiguousMatch => PrefixResolution::AmbiguousMatch,
        }
    }

    /// Calculates the shortest prefix length of the given `change_id` among
    /// all IDs, including hidden entries.
    pub fn shortest_unique_prefix_len(&self, change_id: &ChangeId) -> (len: usize)
        requires
            self.wf(),
            2 * change_id@.len() < usize::MAX,
        ensures
            exists|previous: Option<Seq<u8>>, next: Option<Seq<u8>>|
                len == #[trigger] spec_shortest_prefix_len(change_id@, previous, next) && (match previous {
                    Some(x) => is_previous(change_ids(self.index.entries()), change_id@, x),
                    None => forall|p: int|
                        0 <= p < self.index.entries().len() ==> !spec_bytes_less(
                            #[trigger] change_ids(self.index.entries())[p],
                            change_id@,
                        ),
                }) && (match next {
                    Some(x) => is_next(change_ids(self.index.entries()), change_id@, x),
                    None => forall|p: int|
                        0 <= p < self.index.entries().len() ==> !spec_bytes_less(
                            change_id@,
                            #[trigger] change_ids(self.index.entries())[p],
                        ),
                }),
    {
        self.index.shortest_unique_change_id_prefix_len(change_id)
    }
}

} // verus!
