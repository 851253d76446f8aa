//! The neighbours of an identifier among the indexed ones, in the order of
//! their bytes, and the shortest prefix that tells it from them.

use super::composite::CompositeIndex;
use super::composite::IndexEntry;
use super::composite::IndexEntryData;
use super::composite::IndexPosition;
use super::prefix::bytes_less;
use super::prefix::common_hex_len;
use super::prefix::spec_bytes_less;
use super::prefix::spec_common_hex_len;
use crate::object_id::ChangeId;
use crate::object_id::CommitId;
use vstd::prelude::*;

verus! {

/// What comes before something that comes before a third comes before the
/// third.
pub proof fn lemma_bytes_less_transitive(a: Seq<u8>, b: Seq<u8>, c: Seq<u8>)
    requires
        spec_bytes_less(a, b),
        spec_bytes_less(b, c),
    ensures
        spec_bytes_less(a, c),
{
    let k1 = choose|k: int|
        0 <= k <= a.len() && k <= b.len() && #[trigger] a.take(k) == b.take(k) && (if k == a.len() {
            k < b.len()
        } else {
            k < b.len() && a[k] < b[k]
        });
    let k2 = choose|k: int|
        0 <= k <= b.len() && k <= c.len() && #[trigger] b.take(k) == c.take(k) && (if k == b.len() {
            k < c.len()
        } else {
            k < c.len() && b[k] < c[k]
        });
    let k = if k1 < k2 {
        k1
    } else {
        k2
    };
    assert(a.take(k) =~= c.take(k)) by {
        assert forall|i: int| 0 <= i < k implies a[i] == c[i] by {
            assert(a.take(k1)[i] == a[i] && b.take(k1)[i] == b[i]);
            assert(b.take(k2)[i] == b[i] && c.take(k2)[i] == c[i]);
        }
    }
    if k1 < k2 {
        assert(b.take(k2)[k1] == b[k1] && c.take(k2)[k1] == c[k1]);
    } else if k2 < k1 {
        assert(a.take(k1)[k2] == a[k2] && b.take(k1)[k2] == b[k2]);
    }
}

/// One of the identifiers is `candidate`, which comes before `id`, and none
/// of them lies between the two.
pub open spec fn is_previous(ids: Seq<Seq<u8>>, id: Seq<u8>, candidate: Seq<u8>) -> bool {
    &&& ids.contains(candidate)
    &&& spec_bytes_less(candidate, id)
    &&& forall|i: int|
        0 <= i < ids.len() && spec_bytes_less(#[trigger] ids[i], id) ==> !spec_bytes_less(
            candidate,
            ids[i],
        )
}

/// One of the identifiers is `candidate`, which comes behind `id`, and none
/// of them lies between the two.
pub open spec fn is_next(ids: Seq<Seq<u8>>, id: Seq<u8>, candidate: Seq<u8>) -> bool {
    &&& ids.contains(candidate)
    &&& spec_bytes_less(id, candidate)
    &&& forall|i: int|
        0 <= i < ids.len() && spec_bytes_less(id, #[trigger] ids[i]) ==> !spec_bytes_less(
            ids[i],
            candidate,
        )
}

/// The commit ids of the entries.
pub open spec fn commit_ids(entries: Seq<IndexEntryData>) -> Seq<Seq<u8>> {
    Seq::new(entries.len(), |p: int| entries[p].commit_id@)
}

/// The change ids of the entries.
pub open spec fn change_ids(entries: Seq<IndexEntryData>) -> Seq<Seq<u8>> {
    Seq::new(entries.len(), |p: int| entries[p].change_id@)
}

/// The commit ids of the entries, or their change ids.
pub open spec fn ids_of(entries: Seq<IndexEntryData>, by_change: bool) -> Seq<Seq<u8>> {
    if by_change {
        change_ids(entries)
    } else {
        commit_ids(entries)
    }
}

/// The number of digits that tell `id` from its neighbours: one more than
/// it has in common with the neighbour that it has more in common with;
/// zero if it has no neighbour.
pub open spec fn spec_shortest_prefix_len(
    id: Seq<u8>,
    previous: Option<Seq<u8>>,
    next: Option<Seq<u8>>,
) -> int {
    let before = match previous {
        Some(x) => spec_common_hex_len(id, x, 0) + 1,
        None => 0,
    };
    let behind = match next {
        Some(x) => spec_common_hex_len(id, x, 0) + 1,
        None => 0,
    };
    if before > behind {
        before
    } else {
        behind
    }
}

/// Whether `candidate` is a better neighbour than `best`: between `best`
/// and `id`.
fn improves(best: &Option<Vec<u8>>, candidate: &[u8], before: bool) -> (r: bool)
    ensures
        r == match best {
            Some(b) => if before {
                spec_bytes_less(b@, candidate@)
            } else {
                spec_bytes_less(candidate@, b@)
            },
            None => true,
        },
{
    match best {
        Some(b) => if before {
            bytes_less(b.as_slice(), candidate)
        } else {
            bytes_less(candidate, b.as_slice())
        },
        None => true,
    }
}

impl CompositeIndex {
    /// The identifiers next to `id` among those that `key` gives for the
    /// indexed commits: the greatest that comes before `id`, and the least
    /// that comes behind it.
    fn resolve_neighbors(&self, id: &[u8], by_change: bool) -> (neighbors: (
        Option<Vec<u8>>,
        Option<Vec<u8>>,
    ))
        requires
            self.wf(),
        ensures
            match neighbors.0 {
                Some(x) => is_previous(ids_of(self.entries(), by_change), id@, x@),
                None => forall|p: int|
                    0 <= p < self.entries().len() ==> !spec_bytes_less(
                        #[trigger] ids_of(self.entries(), by_change)[p],
                        id@,
                    ),
            },
            match neighbors.1 {
                Some(x) => is_next(ids_of(self.entries(), by_change), id@, x@),
                None => forall|p: int|
                    0 <= p < self.entries().len() ==> !spec_bytes_less(
                        id@,
                        #[trigger] ids_of(self.entries(), by_change)[p],
                    ),
            },
    {
        let ghost ids = ids_of(self.entries(), by_change);
        let n: u32 = self.num_commits();
        let mut previous: Option<Vec<u8>> = None;
        let mut next: Option<Vec<u8>> = None;
        let mut p: u32 = 0;
        while p < n
            invariant
                self.wf(),
                n == self.entries().len(),
                ids == ids_of(self.entries(), by_change),
                p <= n,
                match previous {
                    Some(x) => is_previous(ids.take(p as int), id@, x@),
                    None => forall|q: int| 0 <= q < p ==> !spec_bytes_less(#[trigger] ids[q], id@),
                },
                match next {
                    Some(x) => is_next(ids.take(p as int), id@, x@),
                    None => forall|q: int| 0 <= q < p ==> !spec_bytes_less(id@, #[trigger] ids[q]),
                },
            decreases n - p,
        {
            let entry: IndexEntry = self.entry_by_pos(IndexPosition(p));
            let candidate: &[u8] = if by_change {
                entry.data.change_id.as_bytes()
            } else {
                entry.data.commit_id.as_bytes()
            };
            let ghost seen = ids.take(p as int);
            let ghost more = ids.take(p + 1);
            proof {
                assert(candidate@ == ids[p as int]);
                assert(more =~= seen.push(candidate@));
            }
            if bytes_less(candidate, id) {
                if improves(&previous, candidate, true) {
                    proof {
                        assert(more[p as int] == candidate@);
                        assert forall|i: int|
                            0 <= i < more.len() && spec_bytes_less(
                                #[trigger] more[i],
                                id@,
                            ) implies !spec_bytes_less(candidate@, more[i]) by {
                            if i < p {
                                assert(more[i] == seen[i]);
                                if spec_bytes_less(candidate@, more[i]) {
                                    match &previous {
                                        Some(x) => {
                                            lemma_bytes_less_transitive(x@, candidate@, more[i]);
                                        },
                                        None => {},
                                    }
                                }
                            } else {
                                lemma_bytes_less_irreflexive(candidate@);
                            }
                        }
                    }
                    previous = Some(vstd::slice::slice_to_vec(candidate));
                } else {
                    proof {
                        let x = previous.unwrap()@;
                        let k = choose|k: int| 0 <= k < seen.len() && seen[k] == x;
                        assert(more[k] == x);
                        assert forall|i: int|
                            0 <= i < more.len() && spec_bytes_less(
                                #[trigger] more[i],
                                id@,
                            ) implies !spec_bytes_less(x, more[i]) by {
                            if i < p {
                                assert(more[i] == seen[i]);
                            }
                        }
                    }
                }
            } else {
                proof {
                    match &previous {
                        Some(x) => {
                            let k = choose|k: int| 0 <= k < seen.len() && seen[k] == x@;
                            assert(more[k] == x@);
                            assert forall|i: int|
                                0 <= i < more.len() && spec_bytes_less(
                                    #[trigger] more[i],
                                    id@,
                                ) implies !spec_bytes_less(x@, more[i]) by {
                                if i < p {
                                    assert(more[i] == seen[i]);
                                }
                            }
                        },
                        None => {},
                    }
                }
            }
            if bytes_less(id, candidate) {
                if improves(&next, candidate, false) {
                    proof {
                        assert(more[p as int] == candidate@);
                        assert forall|i: int|
                            0 <= i < more.len() && spec_bytes_less(
                                id@,
                                #[trigger] more[i],
                            ) implies !spec_bytes_less(more[i], candidate@) by {
                            if i < p {
                                assert(more[i] == seen[i]);
                                if spec_bytes_less(more[i], candidate@) {
                                    match &next {
                                        Some(x) => {
                                            lemma_bytes_less_transitive(more[i], candidate@, x@);
                                        },
                                        None => {},
                                    }
                                }
                            } else {
                                lemma_bytes_less_irreflexive(candidate@);
                            }
                        }
                    }
                    next = Some(vstd::slice::slice_to_vec(candidate));
                } else {
                    proof {
                        let x = next.unwrap()@;
                        let k = choose|k: int| 0 <= k < seen.len() && seen[k] == x;
                        assert(more[k] == x);
                        assert forall|i: int|
                            0 <= i < more.len() && spec_bytes_less(
                                id@,
                                #[trigger] more[i],
                            ) implies !spec_bytes_less(more[i], x) by {
                            if i < p {
                                assert(more[i] == seen[i]);
                            }
                        }
                    }
                }
            } else {
                proof {
                    match &next {
                        Some(x) => {
                            let k = choose|k: int| 0 <= k < seen.len() && seen[k] == x@;
                            assert(more[k] == x@);
                            assert forall|i: int|
                                0 <= i < more.len() && spec_bytes_less(
                                    id@,
                                    #[trigger] more[i],
                                ) implies !spec_bytes_less(more[i], x@) by {
                                if i < p {
                                    assert(more[i] == seen[i]);
                                }
                            }
                        },
                        None => {},
                    }
                }
            }
            p += 1;
        }
        proof {
            assert(ids.take(n as int) =~= ids);
        }
        (previous, next)
    }

    /// Suppose the given `commit_id` exists, returns the previous and next
    /// commit ids in lexicographical order.
    pub fn resolve_neighbor_commit_ids(&self, commit_id: &CommitId) -> (neighbors: (
        Option<CommitId>,
        Option<CommitId>,
    ))
        requires
            self.wf(),
        ensures
            match neighbors.0 {
                Some(x) => is_previous(commit_ids(self.entries()), commit_id@, x@),
                None => forall|p: int|
                    0 <= p < self.entries().len() ==> !spec_bytes_less(
                        #[trigger] commit_ids(self.entries())[p],
                        commit_id@,
                    ),
            },
            match neighbors.1 {
                Some(x) => is_next(commit_ids(self.entries()), commit_id@, x@),
                None => forall|p: int|
                    0 <= p < self.entries().len() ==> !spec_bytes_less(
                        commit_id@,
                        #[trigger] commit_ids(self.entries())[p],
                    ),
            },
    {
        let (previous, next) = self.resolve_neighbors(commit_id.as_bytes(), false);
        (
            match previous {
                Some(id) => Some(CommitId::new(id)),
                None => None,
            },
            match next {
                Some(id) => Some(CommitId::new(id)),
                None => None,
            },
        )
    }

    /// Suppose the given `change_id` exists, returns the previous and next
    /// change ids in lexicographical order. The returned change ids may be
    /// hidden.
    pub fn resolve_neighbor_change_ids(&self, change_id: &ChangeId) -> (neighbors: (
        Option<ChangeId>,
        Option<ChangeId>,
    ))
        requires
            self.wf(),
        ensures
            match neighbors.0 {
                Some(x) => is_previous(change_ids(self.entries()), change_id@, x@),
                None => forall|p: int|
                    0 <= p < self.entries().len() ==> !spec_bytes_less(
                        #[trigger] change_ids(self.entries())[p],
                        change_id@,
                    ),
            },
            match neighbors.1 {
                Some(x) => is_next(change_ids(self.entries()), change_id@, x@),
                None => forall|p: int|
                    0 <= p < self.entries().len() ==> !spec_bytes_less(
                        change_id@,
                        #[trigger] change_ids(self.entries())[p],
                    ),
            },
    {
        let (previous, next) = self.resolve_neighbors(change_id.as_bytes(), true);
        (
            match previous {
                Some(id) => Some(ChangeId::new(id)),
                None => None,
            },
            match next {
                Some(id) => Some(ChangeId::new(id)),
                None => None,
            },
        )
    }

    /// Suppose the given `commit_id` exists, returns the minimum prefix
    /// length to disambiguate it. The length to be returned is a number of
    /// hexadecimal digits.
    ///
    /// If the given `commit_id` doesn't exist, this will return the prefix
    /// length that never matches with any commit ids.
    pub fn shortest_unique_commit_id_prefix_len(&self, commit_id: &CommitId) -> (len: usize)
        requires
            self.wf(),
            2 * commit_id@.len() < usize::MAX,
        ensures
            exists|previous: Option<Seq<u8>>, next: Option<Seq<u8>>|
                len == #[trigger] spec_shortest_prefix_len(commit_id@, previous, next) && (match previous {
                    Some(x) => is_previous(commit_ids(self.entries()), commit_id@, x),
                    None => forall|p: int|
                        0 <= p < self.entries().len() ==> !spec_bytes_less(
                            #[trigger] commit_ids(self.entries())[p],
                            commit_id@,
                        ),
                }) && (match next {
                    Some(x) => is_next(commit_ids(self.entries()), commit_id@, x),
                    None => forall|p: int|
                        0 <= p < self.entries().len() ==> !spec_bytes_less(
                            commit_id@,
                            #[trigger] commit_ids(self.entries())[p],
                        ),
                }),
    {
        let (previous, next) = self.resolve_neighbors(commit_id.as_bytes(), false);
        let len: usize = shortest_len(commit_id.as_bytes(), &previous, &next);
        proof {
            let pv: Option<Seq<u8>> = match &previous {
                Some(x) => Some(x@),
                None => None,
            };
            let nv: Option<Seq<u8>> = match &next {
                Some(x) => Some(x@),
                None => None,
            };
            assert(len == spec_shortest_prefix_len(commit_id@, pv, nv));
        }
        len
    }

    /// Suppose the given `change_id` exists, returns the minimum prefix
    /// length to disambiguate it within all the indexed ids including
    /// hidden ones.
    pub fn shortest_unique_change_id_prefix_len(&self, change_id: &ChangeId) -> (len: usize)
        requires
            self.wf(),
            2 * change_id@.len() < usize::MAX,
        ensures
            exists|previous: Option<Seq<u8>>, next: Option<Seq<u8>>|
                len == #[trigger] spec_shortest_prefix_len(change_id@, previous, next) && (match previous {
                    Some(x) => is_previous(change_ids(self.entries()), change_id@, x),
                    None => forall|p: int|
                        0 <= p < self.entries().len() ==> !spec_bytes_less(
                            #[trigger] change_ids(self.entries())[p],
                            change_id@,
                        ),
                }) && (match next {
                    Some(x) => is_next(change_ids(self.entries()), change_id@, x),
                    None => forall|p: int|
                        0 <= p < self.entries().len() ==> !spec_bytes_less(
                            change_id@,
                            #[trigger] change_ids(self.entries())[p],
                        ),
                }),
    {
        let (previous, next) = self.resolve_neighbors(change_id.as_bytes(), true);
        let len: usize = shortest_len(change_id.as_bytes(), &previous, &next);
        proof {
            let pv: Option<Seq<u8>> = match &previous {
                Some(x) => Some(x@),
                None => None,
            };
            let nv: Option<Seq<u8>> = match &next {
                Some(x) => Some(x@),
                None => None,
            };
            assert(len == spec_shortest_prefix_len(change_id@, pv, nv));
        }
        len
    }
}

/// Nothing comes before itself.
pub proof fn lemma_bytes_less_irreflexive(a: Seq<u8>)
    ensures
        !spec_bytes_less(a, a),
{
}

/// The number of digits that tell `id` from the given neighbours.
fn shortest_len(id: &[u8], previous: &Option<Vec<u8>>, next: &Option<Vec<u8>>) -> (len: usize)
    requires
        2 * id@.len() < usize::MAX,
    ensures
        len == spec_shortest_prefix_len(
            id@,
            match previous {
                Some(x) => Some(x@),
                None => None,
            },
            match next {
                Some(x) => Some(x@),
                None => None,
            },
        ),
{
    let before: usize = match previous {
        Some(x) => common_hex_len(id, x.as_slice()) + 1,
        None => 0,
    };
    let behind: usize = match next {
        Some(x) => common_hex_len(id, x.as_slice()) + 1,
        None => 0,
    };
    if before > behind {
        before
    } else {
        behind
    }
}

} // verus!
