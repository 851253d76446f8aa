//! Commits as the repository hands them out: the stored data with its
//! identifier.

use crate::backend;
use crate::backend::copy_ids;
use crate::backend::ids_view;
use crate::backend::MergedTreeId;
use crate::backend::SecureSig;
use crate::backend::Signature;
use crate::object_id::copy_bytes;
use crate::object_id::ChangeId;
use crate::object_id::CommitId;
use vstd::prelude::*;
use vstd::string::*;

verus! {

/// What a stored commit holds, as plain values.
pub struct CommitView {
    pub parents: Seq<Seq<u8>>,
    pub predecessors: Seq<Seq<u8>>,
    pub root_tree: Seq<Seq<u8>>,
    pub change_id: Seq<u8>,
    pub description: Seq<char>,
    pub author: Signature,
    pub committer: Signature,
    pub secure_sig: Option<(Seq<u8>, Seq<u8>)>,
}

impl View for backend::Commit {
    type V = CommitView;

    open spec fn view(&self) -> CommitView {
        CommitView {
            parents: ids_view(self.parents@),
            predecessors: ids_view(self.predecessors@),
            root_tree: self.root_tree@,
            change_id: self.change_id@,
            description: self.description@,
            author: self.author,
            committer: self.committer,
            secure_sig: match self.secure_sig {
                Some(sig) => Some((sig.data@, sig.sig@)),
                None => None,
            },
        }
    }
}

impl backend::Commit {
    /// A copy of the commit's data.
    pub fn duplicate(&self) -> (copy: Self)
        ensures
            copy@ == self@,
            self.root_tree.tree_ids.wf() ==> copy.root_tree.tree_ids.wf(),
    {
        backend::Commit {
            parents: copy_ids(&self.parents),
            predecessors: copy_ids(&self.predecessors),
            root_tree: self.root_tree.duplicate(),
            change_id: self.change_id.clone(),
            description: self.description.clone(),
            author: self.author.duplicate(),
            committer: self.committer.duplicate(),
            secure_sig: match &self.secure_sig {
                Some(sig) => Some(
                    SecureSig { data: copy_bytes(&sig.data), sig: copy_bytes(&sig.sig) },
                ),
                None => None,
            },
        }
    }
}

/// A commit of the repository: what is stored, and the identifier under
/// which it is stored.
#[derive(Debug, PartialEq, Eq)]
pub struct Commit {
    pub id: CommitId,
    pub data: backend::Commit,
}

impl Commit {
    pub fn new(id: CommitId, data: backend::Commit) -> (commit: Self)
        ensures
            commit.id == id,
            commit.data == data,
    {
        Commit { id, data }
    }

    pub fn id(&self) -> (id: &CommitId)
        ensures
            *id == self.id,
    {
        &self.id
    }

    pub fn parent_ids(&self) -> (ids: &[CommitId])
        ensures
            ids@ == self.data.parents@,
    {
        self.data.parents.as_slice()
    }

    pub fn change_id(&self) -> (id: &ChangeId)
        ensures
            *id == self.data.change_id,
    {
        &self.data.change_id
    }

    pub fn tree_id(&self) -> (id: &MergedTreeId)
        ensures
            *id == self.data.root_tree,
    {
        &self.data.root_tree
    }

    pub fn description(&self) -> (description: &str)
        ensures
            description@ == self.data.description@,
    {
        self.data.description.as_str()
    }

    pub fn store_commit(&self) -> (data: &backend::Commit)
        ensures
            *data == self.data,
    {
        &self.data
    }

    /// A copy of the commit.
    pub fn duplicate(&self) -> (copy: Self)
        ensures
            copy.id@ == self.id@,
            copy.data@ == self.data@,
            self.data.root_tree.tree_ids.wf() ==> copy.data.root_tree.tree_ids.wf(),
    {
        Commit { id: self.id.clone(), data: self.data.duplicate() }
    }
}

} // verus!
