//! The view of a repository at one operation: its heads, bookmarks, tags
//! and working copies.

use crate::merge::Merge;
use crate::object_id::CommitId;
use vstd::prelude::*;

verus! {

/// What a reference points to: a commit, none, or the terms of a conflict.
pub type RefTarget = Merge<Option<CommitId>>;

/// A bookmark of a remote, and whether it is new: whether no local
/// bookmark follows it yet.
#[derive(Debug, PartialEq, Eq)]
pub struct RemoteRef {
    pub target: RefTarget,
    pub is_new: bool,
}

/// The bookmarks of one remote.
#[derive(Debug, PartialEq, Eq)]
pub struct RemoteView {
    pub bookmarks: Vec<(String, RemoteRef)>,
}

/// The state of a repository at one operation.
#[derive(Debug, PartialEq, Eq)]
pub struct OperationView {
    /// All head commits.
    pub head_ids: Vec<CommitId>,
    pub local_bookmarks: Vec<(String, RefTarget)>,
    pub tags: Vec<(String, RefTarget)>,
    pub remote_views: Vec<(String, RemoteView)>,
    pub git_refs: Vec<(String, RefTarget)>,
    /// The commit the Git HEAD points to.
    pub git_head: RefTarget,
    /// The commit that is checked out in each workspace.
    pub wc_commit_ids: Vec<(String, CommitId)>,
}

/// A portion of a view that an undo can restore.
#[derive(Clone, Copy, Debug, PartialEq, Eq, Structural)]
pub enum UndoWhatToRestore {
    /// The repo state and local bookmarks
    Repo,
    /// The remote-tracking bookmarks. Do not restore these if you'd like to
    /// push after the undo
    RemoteTracking,
}

/// Whether `what` names the portion.
pub fn names_portion(what: &[UndoWhatToRestore], portion: UndoWhatToRestore) -> (r: bool)
    ensures
        r == what@.contains(portion),
{
    let mut i: usize = 0;
    while i < what.len()
        invariant
            i <= what.len(),
            forall|k: int| 0 <= k < i ==> what[k] != portion,
        decreases what.len() - i,
    {
        if what[i] == portion {
            return true;
        }
        i += 1;
    }
    false
}

/// Restore only the portions of the view specified by the `what` argument:
/// the heads, the local bookmarks, the tags and the working copies come
/// from the view being restored if the repo is named, the bookmarks of the
/// remotes if the remote tracking is named, and the references and the
/// head of Git always stay as they are now.
pub fn view_with_desired_portions_restored(
    view_being_restored: OperationView,
    current_view: OperationView,
    what: &[UndoWhatToRestore],
) -> (view: OperationView)
    ensures
        view.head_ids == if what@.contains(UndoWhatToRestore::Repo) {
            view_being_restored.head_ids
        } else {
            current_view.head_ids
        },
        view.local_bookmarks == if what@.contains(UndoWhatToRestore::Repo) {
            view_being_restored.local_bookmarks
        } else {
            current_view.local_bookmarks
        },
        view.tags == if what@.contains(UndoWhatToRestore::Repo) {
            view_being_restored.tags
        } else {
            current_view.tags
        },
        view.wc_commit_ids == if what@.contains(UndoWhatToRestore::Repo) {
            view_being_restored.wc_commit_ids
        } else {
            current_view.wc_commit_ids
        },
        view.remote_views == if what@.contains(UndoWhatToRestore::RemoteTracking) {
            view_being_restored.remote_views
        } else {
            current_view.remote_views
        },
        view.git_refs == current_view.git_refs,
        view.git_head == current_view.git_head,
{
    let restore_repo: bool = names_portion(what, UndoWhatToRestore::Repo);
    let restore_remotes: bool = names_portion(what, UndoWhatToRestore::RemoteTracking);
    let OperationView {
        head_ids: old_head_ids,
        local_bookmarks: old_local_bookmarks,
        tags: old_tags,
        remote_views: old_remote_views,
        git_refs: _,
        git_head: _,
        wc_commit_ids: old_wc_commit_ids,
    } = view_being_restored;
    let OperationView { head_ids, local_bookmarks, tags, remote_views, git_refs, git_head, wc_commit_ids } =
        current_view;
    OperationView {
        head_ids: if restore_repo {
            old_head_ids
        } else {
            head_ids
        },
        local_bookmarks: if restore_repo {
            old_local_bookmarks
        } else {
            local_bookmarks
        },
        tags: if restore_repo {
            old_tags
        } else {
            tags
        },
        remote_views: if restore_remotes {
            old_remote_views
        } else {
            remote_views
        },
        git_refs,
        git_head,
        wc_commit_ids: if restore_repo {
            old_wc_commit_ids
        } else {
            wc_commit_ids
        },
    }
}

} // verus!
