//! The bookkeeping of a transaction: which commits are indexed, and what
//! the commits written in it ask of the repository.

use crate::backend::contains_id;
use crate::backend::ids_view;
use crate::commit::Commit;
use crate::commit::CommitView;
use crate::object_id::CommitId;
use vstd::prelude::*;

verus! {

/// What a written or abandoned commit asks of the repository.
#[derive(Debug, PartialEq, Eq)]
pub enum RepoAction {
    /// Make the commit a head, in place of its parents.
    AddHead(Commit),
    /// Record the predecessors of a commit.
    SetPredecessors(CommitId, Vec<CommitId>),
    /// Record that the first commit was rewritten as the second.
    SetRewrittenCommit(CommitId, CommitId),
    /// Record that the commit was abandoned, and the commits that its
    /// children are to have for parents in its place.
    RecordAbandonedCommitWithParents(CommitId, Vec<CommitId>),
}

/// A `RepoAction` as plain values.
pub enum RepoActionView {
    AddHead(Seq<u8>, CommitView),
    SetPredecessors(Seq<u8>, Seq<Seq<u8>>),
    SetRewrittenCommit(Seq<u8>, Seq<u8>),
    RecordAbandonedCommitWithParents(Seq<u8>, Seq<Seq<u8>>),
}

impl View for RepoAction {
    type V = RepoActionView;

    open spec fn view(&self) -> RepoActionView {
        match self {
            RepoAction::AddHead(commit) => RepoActionView::AddHead(commit.id@, commit.data@),
            RepoAction::SetPredecessors(id, predecessors) => RepoActionView::SetPredecessors(
                id@,
                ids_view(predecessors@),
            ),
            RepoAction::SetRewrittenCommit(old_id, new_id) => RepoActionView::SetRewrittenCommit(
                old_id@,
                new_id@,
            ),
            RepoAction::RecordAbandonedCommitWithParents(
                old_id,
                parents,
            ) => RepoActionView::RecordAbandonedCommitWithParents(old_id@, ids_view(parents@)),
        }
    }
}

/// The actions of a list as plain values.
pub open spec fn actions_view(actions: Seq<RepoAction>) -> Seq<RepoActionView> {
    Seq::new(actions.len(), |i: int| actions[i]@)
}

/// The repository within a transaction, as far as writing commits goes.
#[derive(Debug)]
pub struct MutableRepo {
    pub default_index: bool,
    pub indexed_ids: Vec<CommitId>,
    pub actions: Vec<RepoAction>,
}

/// A `MutableRepo` as plain values.
pub struct RepoView {
    pub default_index: bool,
    pub indexed: Seq<Seq<u8>>,
    pub actions: Seq<RepoActionView>,
}

impl View for MutableRepo {
    type V = RepoView;

    open spec fn view(&self) -> RepoView {
        RepoView {
            default_index: self.default_index,
            indexed: ids_view(self.indexed_ids@),
            actions: actions_view(self.actions@),
        }
    }
}

impl MutableRepo {
    /// A repository in which the given commits are indexed and nothing is
    /// asked yet.
    pub fn new(default_index: bool, indexed_ids: Vec<CommitId>) -> (repo: Self)
        ensures
            repo@ == (RepoView {
                default_index,
                indexed: ids_view(indexed_ids@),
                actions: Seq::empty(),
            }),
    {
        let repo = MutableRepo { default_index, indexed_ids, actions: Vec::new() };
        proof {
            assert(repo@.actions =~= Seq::empty());
        }
        repo
    }

    /// Whether the index is of the kind that knows exactly which commits it
    /// holds.
    pub fn is_backed_by_default_index(&self) -> (r: bool)
        ensures
            r == self@.default_index,
    {
        self.default_index
    }

    /// Whether the commit is indexed.
    pub fn has_id(&self, id: &CommitId) -> (r: bool)
        ensures
            r == self@.indexed.contains(id@),
    {
        contains_id(&self.indexed_ids, id)
    }

    fn record(&mut self, action: RepoAction)
        ensures
            final(self)@ == (RepoView { actions: old(self)@.actions.push(action@), ..old(self)@ }),
    {
        self.actions.push(action);
        proof {
            assert(self@.actions =~= old(self)@.actions.push(action@));
        }
    }

    /// Indexes the commit and asks for it to become a head.
    pub fn add_head(&mut self, commit: &Commit)
        ensures
            final(self)@ == (RepoView {
                indexed: old(self)@.indexed.push(commit.id@),
                actions: old(self)@.actions.push(
                    RepoActionView::AddHead(commit.id@, commit.data@),
                ),
                ..old(self)@
            }),
    {
        self.indexed_ids.push(commit.id.clone());
        proof {
            assert(ids_view(self.indexed_ids@) =~= old(self)@.indexed.push(commit.id@));
        }
        self.record(RepoAction::AddHead(commit.duplicate()));
    }

    /// Asks for the predecessors of a commit to be recorded.
    pub fn set_predecessors(&mut self, id: CommitId, predecessors: Vec<CommitId>)
        ensures
            final(self)@ == (RepoView {
                actions: old(self)@.actions.push(
                    RepoActionView::SetPredecessors(id@, ids_view(predecessors@)),
                ),
                ..old(self)@
            }),
    {
        self.record(RepoAction::SetPredecessors(id, predecessors));
    }

    /// Asks for it to be recorded that `old_id` was rewritten as `new_id`.
    pub fn set_rewritten_commit(&mut self, old_id: CommitId, new_id: CommitId)
        ensures
            final(self)@ == (RepoView {
                actions: old(self)@.actions.push(
                    RepoActionView::SetRewrittenCommit(old_id@, new_id@),
                ),
                ..old(self)@
            }),
    {
        self.record(RepoAction::SetRewrittenCommit(old_id, new_id));
    }

    /// Asks for it to be recorded that `old_id` was abandoned in favour of
    /// the given parents.
    pub fn record_abandoned_commit_with_parents(
        &mut self,
        old_id: CommitId,
        new_parent_ids: Vec<CommitId>,
    )
        ensures
            final(self)@ == (RepoView {
                actions: old(self)@.actions.push(
                    RepoActionView::RecordAbandonedCommitWithParents(
                        old_id@,
                        ids_view(new_parent_ids@),
                    ),
                ),
                ..old(self)@
            }),
    {
        self.record(RepoAction::RecordAbandonedCommitWithParents(old_id, new_parent_ids));
    }

    /// Hands out what was asked so far, and forgets it.
    pub fn take_actions(&mut self) -> (actions: Vec<RepoAction>)
        ensures
            actions_view(actions@) == old(self)@.actions,
            final(self)@ == (RepoView { actions: Seq::empty(), ..old(self)@ }),
    {
        let mut actions: Vec<RepoAction> = Vec::new();
        std::mem::swap(&mut actions, &mut self.actions);
        proof {
            assert(self@.actions =~= Seq::empty());
        }
        actions
    }
}

} // verus!
