//! The data of stored commits.

use crate::merge::Merge;
use crate::object_id::copy_bytes;
use crate::object_id::same_bytes;
use crate::object_id::ChangeId;
use crate::object_id::CommitId;
use vstd::prelude::*;
use vstd::string::*;

verus! {

/// Identifier of a tree.
#[derive(Debug, Hash, PartialOrd, Ord)]
pub struct TreeId {
    pub id: Vec<u8>,
}

impl View for TreeId {
    type V = Seq<u8>;

    open spec fn view(&self) -> Seq<u8> {
        self.id@
    }
}

impl PartialEq for TreeId {
    fn eq(&self, other: &Self) -> (r: bool) {
        same_bytes(&self.id, &other.id)
    }
}

impl Eq for TreeId {

}

impl vstd::std_specs::cmp::PartialEqSpecImpl for TreeId {
    open spec fn obeys_eq_spec() -> bool {
        true
    }

    open spec fn eq_spec(&self, other: &Self) -> bool {
        self.id@ == other.id@
    }
}

impl Clone for TreeId {
    fn clone(&self) -> (copy: Self)
        ensures
            copy@ == self@,
    {
        TreeId { id: copy_bytes(&self.id) }
    }
}

impl TreeId {
    pub fn new(id: Vec<u8>) -> (r: Self)
        ensures
            r@ == id@,
    {
        TreeId { id }
    }

    pub fn as_bytes(&self) -> (bytes: &[u8])
        ensures
            bytes@ == self@,
    {
        self.id.as_slice()
    }
}

/// The tree identifiers of a merge as sequences of bytes.
pub open spec fn tree_ids_view(ids: Seq<TreeId>) -> Seq<Seq<u8>> {
    Seq::new(ids.len(), |i: int| ids[i]@)
}

/// Identifier of the tree of a commit: the identifier of one tree where the
/// commit has no conflict, and else those of the trees in conflict.
#[derive(Debug, PartialEq, Eq)]
pub struct MergedTreeId {
    pub tree_ids: Merge<TreeId>,
}

impl View for MergedTreeId {
    type V = Seq<Seq<u8>>;

    open spec fn view(&self) -> Seq<Seq<u8>> {
        tree_ids_view(self.tree_ids.values())
    }
}

impl MergedTreeId {
    /// The identifier of a tree without conflicts.
    pub fn resolved(tree_id: TreeId) -> (r: Self)
        ensures
            r@ == seq![tree_id@],
            r.tree_ids.wf(),
    {
        let r = MergedTreeId { tree_ids: Merge::resolved(tree_id) };
        proof {
            assert(r@ =~= seq![tree_id@]);
        }
        r
    }

    /// Whether both identify the same trees.
    pub fn same(&self, other: &Self) -> (r: bool)
        ensures
            r == (self@ == other@),
    {
        let left: &[TreeId] = self.tree_ids.as_slice();
        let right: &[TreeId] = other.tree_ids.as_slice();
        if left.len() != right.len() {
            proof {
                assert(self@.len() != other@.len());
            }
            return false;
        }
        let mut i: usize = 0;
        while i < left.len()
            invariant
                left@ == self.tree_ids.values(),
                right@ == other.tree_ids.values(),
                left.len() == right.len(),
                i <= left.len(),
                forall|k: int| 0 <= k < i ==> left[k]@ == right[k]@,
            decreases left.len() - i,
        {
            if !same_bytes(&left[i].id, &right[i].id) {
                proof {
                    assert(self@[i as int] != other@[i as int]);
                }
                return false;
            }
            i += 1;
        }
        proof {
            assert(self@ =~= other@);
        }
        true
    }

    /// A copy of the identifier.
    pub fn duplicate(&self) -> (copy: Self)
        ensures
            copy@ == self@,
            self.tree_ids.wf() ==> copy.tree_ids.wf(),
    {
        let ids: &[TreeId] = self.tree_ids.as_slice();
        let mut copies: Vec<TreeId> = Vec::new();
        let mut i: usize = 0;
        while i < ids.len()
            invariant
                i <= ids.len(),
                copies.len() == i,
                forall|k: int| 0 <= k < i ==> copies[k]@ == ids[k]@,
            decreases ids.len() - i,
        {
            copies.push(ids[i].clone());
            i += 1;
        }
        if copies.len() % 2 == 1 {
            let copy = MergedTreeId { tree_ids: Merge::from_vec(copies) };
            proof {
                assert(copy@ =~= self@);
            }
            copy
        } else {
            // A merge never holds an even number of terms; keep the terms
            // as they are.
            let copy = MergedTreeId { tree_ids: Merge::from_terms(copies) };
            proof {
                assert(copy@ =~= self@);
            }
            copy
        }
    }
}

/// A point in time with the offset of a time zone.
#[derive(Clone, Copy, Debug, PartialEq, Eq, Structural, PartialOrd, Ord, Hash)]
pub struct Timestamp {
    /// Milliseconds since the epoch.
    pub timestamp: i64,
    /// The time zone's offset in minutes.
    pub tz_offset: i32,
}

/// Who wrote or committed a commit, and when.
#[derive(Debug, PartialEq, Eq)]
pub struct Signature {
    pub name: String,
    pub email: String,
    pub timestamp: Timestamp,
}

impl Signature {
    /// A copy of the signature.
    pub fn duplicate(&self) -> (copy: Self)
        ensures
            copy == *self,
    {
        Signature {
            name: self.name.clone(),
            email: self.email.clone(),
            timestamp: self.timestamp,
        }
    }
}

/// A cryptographic signature of a commit, with the data it signs.
#[derive(Debug, PartialEq, Eq)]
pub struct SecureSig {
    pub data: Vec<u8>,
    pub sig: Vec<u8>,
}

/// A commit as the backend stores it.
#[derive(Debug, PartialEq, Eq)]
pub struct Commit {
    pub parents: Vec<CommitId>,
    pub predecessors: Vec<CommitId>,
    pub root_tree: MergedTreeId,
    pub change_id: ChangeId,
    pub description: String,
    pub author: Signature,
    pub committer: Signature,
    pub secure_sig: Option<SecureSig>,
}

/// Commit identifiers as sequences of bytes.
pub open spec fn ids_view(ids: Seq<CommitId>) -> Seq<Seq<u8>> {
    Seq::new(ids.len(), |i: int| ids[i]@)
}

/// A copy of a list of commit identifiers.
pub fn copy_ids(ids: &Vec<CommitId>) -> (copy: Vec<CommitId>)
    ensures
        ids_view(copy@) == ids_view(ids@),
{
    let mut copy: Vec<CommitId> = Vec::new();
    let mut i: usize = 0;
    while i < ids.len()
        invariant
            i <= ids.len(),
            copy.len() == i,
            forall|k: int| 0 <= k < i ==> copy[k]@ == ids[k]@,
        decreases ids.len() - i,
    {
        copy.push(ids[i].clone());
        i += 1;
    }
    proof {
        assert(ids_view(copy@) =~= ids_view(ids@));
    }
    copy
}

/// Whether `id` is among `ids`.
pub fn contains_id(ids: &Vec<CommitId>, id: &CommitId) -> (r: bool)
    ensures
        r == ids_view(ids@).contains(id@),
{
    let mut i: usize = 0;
    while i < ids.len()
        invariant
            i <= ids.len(),
            forall|k: int| 0 <= k < i ==> ids[k]@ != id@,
        decreases ids.len() - i,
    {
        if ids[i] == *id {
            proof {
                assert(ids_view(ids@)[i as int] == id@);
            }
            return true;
        }
        i += 1;
    }
    proof {
        if ids_view(ids@).contains(id@) {
            let k = choose|k: int| 0 <= k < ids.len() && ids_view(ids@)[k] == id@;
            assert(ids[k]@ == id@);
        }
    }
    false
}

/// What went wrong in the backend.
#[derive(Debug, PartialEq, Eq)]
pub enum BackendError {
    /// An object was not found.
    ObjectNotFound { object_type: String, hash: String },
    /// An object could not be read.
    ReadObject { object_type: String, hash: String, source: String },
    /// Reading an object was not permitted.
    ReadAccessDenied { object_type: String, hash: String, source: String },
    /// An object could not be written.
    WriteObject { object_type: String, source: String },
    /// Any other failure, in words.
    Other(String),
}

pub type BackendResult<T> = Result<T, BackendError>;

} // verus!
