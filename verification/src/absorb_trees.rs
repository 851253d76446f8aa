//! What absorbing does with trees and commits: which paths are skipped,
//! what each destination's tree is to hold, and what becomes of the commits
//! that are visited.

use crate::absorb::combine_texts;
use crate::absorb::combined;
use crate::absorb::selection_fits;
use crate::absorb::SelectedRange;
use crate::backend::ids_view;
use crate::backend::BackendError;
use crate::backend::BackendResult;
use crate::backend::MergedTreeId;
use crate::commit::Commit;
use crate::commit_builder::already_exists_message;
use crate::commit_builder::is_refused;
use crate::commit_builder::rewrites_source;
use crate::commit_builder::written_actions;
use crate::commit_builder::DetachedCommitBuilder;
use crate::object_id::CommitId;
use crate::repo::MutableRepo;
use crate::repo::RepoActionView;
use crate::repo::RepoView;
use crate::absorb::annotation_keys_of;
use crate::absorb::annotation_ranges_of;
use crate::absorb::annotation_wf;
use crate::absorb::file_selections;
use crate::absorb::is_grouping;
use crate::absorb::split_file_hunks;
use crate::diff::compare::CompareBytesExactly;
use crate::diff::engine::is_diff_under;
use crate::diff::tokens::find_line_ranges;
use crate::diff::Diff;
use crate::files::is_by_line;
use std::ops::Range;
use vstd::prelude::*;
use vstd::string::*;

verus! {

/// The source commit to absorb into its ancestry.
#[derive(Debug, PartialEq, Eq)]
pub struct AbsorbSource {
    pub commit: Commit,
    pub parent_tree: MergedTreeId,
}

impl AbsorbSource {
    /// Create an absorb source from a single commit. `parent_tree` is the
    /// tree of the commit's parents as the repository gave it, or why it
    /// gave none.
    pub fn from_commit(commit: Commit, parent_tree: BackendResult<MergedTreeId>) -> (source:
        BackendResult<Self>)
        ensures
            match parent_tree {
                Ok(tree) => source == Ok::<Self, BackendError>(
                    (AbsorbSource { commit, parent_tree: tree }),
                ),
                Err(e) => source == Err::<Self, BackendError>(e),
            },
    {
        match parent_tree {
            Ok(parent_tree) => Ok(AbsorbSource { commit, parent_tree }),
            Err(e) => Err(e),
        }
    }
}

/// What went wrong when a set of revisions was evaluated.
#[derive(Debug, PartialEq, Eq)]
pub struct RevsetEvaluationError {
    pub message: String,
}

/// Error splitting an absorb source into modified ancestry trees.
#[derive(Debug, PartialEq, Eq)]
pub enum AbsorbError {
    /// Error while contacting the Backend.
    Backend(BackendError),
    /// Error resolving commit ancestry.
    RevsetEvaluation(RevsetEvaluationError),
}

impl AbsorbError {
    pub fn from_backend(error: BackendError) -> (r: Self)
        ensures
            r == AbsorbError::Backend(error),
    {
        AbsorbError::Backend(error)
    }

    pub fn from_revset(error: RevsetEvaluationError) -> (r: Self)
        ensures
            r == AbsorbError::RevsetEvaluation(error),
    {
        AbsorbError::RevsetEvaluation(error)
    }
}

/// A file as it is read from a tree.
#[derive(Debug, PartialEq, Eq)]
pub struct MaterializedFileValue {
    pub contents: Vec<u8>,
    pub executable: bool,
    pub copy_id: Vec<u8>,
}

/// What stands at a path of a tree.
#[derive(Debug, PartialEq, Eq)]
pub enum MaterializedTreeValue {
    Absent,
    AccessDenied(String),
    File(MaterializedFileValue),
    Symlink,
    FileConflict,
    OtherConflict,
    GitSubmodule,
    Tree,
}

/// What a value that is no file is skipped for, in words; `None` for a
/// file and for an absent value.
pub open spec fn skip_reason(value: MaterializedTreeValue) -> Option<Seq<char>> {
    match value {
        MaterializedTreeValue::Absent => None,
        MaterializedTreeValue::File(_) => None,
        MaterializedTreeValue::AccessDenied(error) => Some("Access is denied: "@ + error@),
        MaterializedTreeValue::Symlink => Some("Is a symlink"@),
        MaterializedTreeValue::FileConflict => Some("Is a conflict"@),
        MaterializedTreeValue::OtherConflict => Some("Is a conflict"@),
        MaterializedTreeValue::GitSubmodule => Some("Is a Git submodule"@),
        MaterializedTreeValue::Tree => None,
    }
}

/// The file at a path, `None` where the path is absent, or why the path is
/// skipped. A diff never holds a tree.
pub fn to_file_value(value: MaterializedTreeValue) -> (r: Result<
    Option<MaterializedFileValue>,
    String,
>)
    requires
        !(value is Tree),
    ensures
        match r {
            Ok(Some(file)) => value == MaterializedTreeValue::File(file),
            Ok(None) => value is Absent,
            Err(reason) => skip_reason(value) == Some(reason@),
        },
{
    match value {
        MaterializedTreeValue::Absent => Ok(None),  // New or deleted file
        MaterializedTreeValue::AccessDenied(error) => {
            let mut reason: String = String::from_str("Access is denied: ");
            reason.append(error.as_str());
            Err(reason)
        },
        MaterializedTreeValue::File(file) => Ok(Some(file)),
        MaterializedTreeValue::Symlink => Err(String::from_str("Is a symlink")),
        MaterializedTreeValue::FileConflict => Err(String::from_str("Is a conflict")),
        MaterializedTreeValue::OtherConflict => Err(String::from_str("Is a conflict")),
        MaterializedTreeValue::GitSubmodule => Err(String::from_str("Is a Git submodule")),
        MaterializedTreeValue::Tree => Ok(None),
    }
}

/// What a destination's tree is to hold at a path.
#[derive(Debug, PartialEq, Eq)]
pub enum NewTreeValue {
    /// Nothing: the file is deleted.
    Absent,
    /// A file of the given content.
    File { contents: Vec<u8>, executable: bool, copy_id: Vec<u8> },
}

/// The tree of a destination in the making: the tree of the source's
/// parents with other values at some paths.
#[derive(Debug, PartialEq, Eq)]
pub struct MergedTreeBuilder {
    pub base_tree_id: MergedTreeId,
    pub overrides: Vec<(String, NewTreeValue)>,
}

impl MergedTreeBuilder {
    pub fn new(base_tree_id: MergedTreeId) -> (builder: Self)
        ensures
            builder.base_tree_id == base_tree_id,
            builder.overrides@.len() == 0,
    {
        MergedTreeBuilder { base_tree_id, overrides: Vec::new() }
    }

    /// Sets what the tree holds at a path.
    pub fn set_or_remove(&mut self, path: String, value: NewTreeValue)
        ensures
            final(self).base_tree_id == old(self).base_tree_id,
            final(self).overrides@ == old(self).overrides@.push((path, value)),
    {
        self.overrides.push((path, value));
    }
}

/// An absorb 'plan' indicating which commits should be modified and what
/// they should be modified to.
#[derive(Debug, PartialEq, Eq)]
pub struct SelectedTrees {
    /// Commits to be modified, to be passed to `absorb_hunks`. No commit
    /// comes twice.
    pub target_commits: Vec<(CommitId, MergedTreeBuilder)>,
    /// Paths that were not absorbed for various error reasons.
    pub skipped_paths: Vec<(String, String)>,
}

impl Default for SelectedTrees {
    fn default() -> (trees: Self)
        ensures
            trees.target_commits@.len() == 0,
            trees.skipped_paths@.len() == 0,
    {
        SelectedTrees { target_commits: Vec::new(), skipped_paths: Vec::new() }
    }
}

/// The commits of a list of targets.
pub open spec fn target_ids(targets: Seq<(CommitId, MergedTreeBuilder)>) -> Seq<Seq<u8>> {
    Seq::new(targets.len(), |i: int| targets[i].0@)
}

/// The index of a commit among the targets, if it is among them.
pub fn find_target(targets: &Vec<(CommitId, MergedTreeBuilder)>, commit_id: &CommitId) -> (found:
    Option<usize>)
    ensures
        match found {
            Some(i) => i < targets.len() && targets[i as int].0@ == commit_id@ && forall|j: int|
                0 <= j < i ==> (#[trigger] targets[j]).0@ != commit_id@,
            None => !target_ids(targets@).contains(commit_id@),
        },
{
    let mut i: usize = 0;
    while i < targets.len()
        invariant
            i <= targets.len(),
            forall|j: int| 0 <= j < i ==> (#[trigger] targets[j]).0@ != commit_id@,
        decreases targets.len() - i,
    {
        if targets[i].0 == *commit_id {
            return Some(i);
        }
        i += 1;
    }
    proof {
        if target_ids(targets@).contains(commit_id@) {
            let j = choose|j: int| 0 <= j < targets.len() && target_ids(targets@)[j] == commit_id@;
            assert(targets[j].0@ == commit_id@);
        }
    }
    None
}

/// What the tree of a destination holds at the path of a file after the
/// selected ranges of the file are absorbed: nothing if the source deletes
/// the file and nothing is left of it; else the file with the ranges
/// replaced.
pub open spec fn absorbed_value(
    left: MaterializedFileValue,
    right_text: Seq<u8>,
    deleted: bool,
    selected: Seq<SelectedRange>,
    value: NewTreeValue,
) -> bool {
    let text = combined(left.contents@, right_text, selected);
    if text.len() == 0 && deleted {
        value is Absent
    } else {
        value matches NewTreeValue::File { contents, executable, copy_id } && contents@ == text
            && executable == left.executable && copy_id@ == left.copy_id@
    }
}

/// Builds what a destination's tree holds at the path of a file: the
/// parent's content with the selected hunks of the source.
///
/// Since changes to be absorbed are represented as diffs relative to the
/// source parent, file deletion is propagated only if the whole file
/// content is deleted at a single destination commit.
pub fn absorbed_tree_value(
    left: &MaterializedFileValue,
    right_text: &[u8],
    deleted: bool,
    selected_ranges: &[SelectedRange],
) -> (value: NewTreeValue)
    requires
        selection_fits(left.contents@.len() as int, right_text@.len() as int, selected_ranges@),
    ensures
        absorbed_value(*left, right_text@, deleted, selected_ranges@, value),
{
    let new_text: Vec<u8> = combine_texts(left.contents.as_slice(), right_text, selected_ranges);
    if new_text.len() == 0 && deleted {
        NewTreeValue::Absent
    } else {
        NewTreeValue::File {
            contents: new_text,
            executable: left.executable,
            copy_id: crate::object_id::copy_bytes(&left.copy_id),
        }
    }
}

/// Describes changes made by `absorb_hunks`.
#[derive(Debug, PartialEq, Eq)]
pub struct AbsorbStats {
    /// Rewritten source commit which the absorbed hunks were removed, or
    /// `None` if the source commit was abandoned or no hunks were moved.
    pub rewritten_source: Option<Commit>,
    /// Rewritten commits which the source hunks were absorbed into, in
    /// forward topological order.
    pub rewritten_destinations: Vec<Commit>,
    /// Number of descendant commits which were rebased. The number of
    /// rewritten destination commits are not included.
    pub num_rebased: usize,
}

impl AbsorbStats {
    /// Nothing is rewritten yet.
    pub fn new() -> (stats: Self)
        ensures
            stats.rewritten_source.is_none(),
            stats.rewritten_destinations@.len() == 0,
            stats.num_rebased == 0,
    {
        AbsorbStats { rewritten_source: None, rewritten_destinations: Vec::new(), num_rebased: 0 }
    }
}

/// What becomes of a commit that is visited while hunks are absorbed.
#[derive(Debug, PartialEq, Eq)]
pub enum AbsorbRole {
    /// The source: it is reparented, so that the absorbed hunks leave it,
    /// and abandoned if nothing is left of it.
    Source,
    /// A destination: the hunks selected for it are merged into its tree.
    Destination(MergedTreeBuilder),
    /// Any other commit: it is rebased.
    Descendant,
}

/// Decides what becomes of the commit `old_commit_id`, and takes its tree
/// out of the selected trees if it is a destination. The source is never a
/// destination.
pub fn absorb_role(
    source: &AbsorbSource,
    selected_trees: &mut Vec<(CommitId, MergedTreeBuilder)>,
    old_commit_id: &CommitId,
) -> (role: AbsorbRole)
    ensures
        old_commit_id@ == source.commit.id@ ==> role is Source && final(selected_trees)@ == old(selected_trees)@,
        old_commit_id@ != source.commit.id@ && !target_ids(old(selected_trees)@).contains(
            old_commit_id@,
        ) ==> role is Descendant && final(selected_trees)@ == old(selected_trees)@,
        old_commit_id@ != source.commit.id@ && target_ids(old(selected_trees)@).contains(
            old_commit_id@,
        ) ==> exists|i: int|
            0 <= i < old(selected_trees)@.len() && #[trigger] old(selected_trees)@[i].0@
                == old_commit_id@ && role == AbsorbRole::Destination(old(selected_trees)@[i].1)
                && final(selected_trees)@ == old(selected_trees)@.remove(i),
{
    if *old_commit_id == source.commit.id {
        return AbsorbRole::Source;
    }
    match find_target(selected_trees, old_commit_id) {
        Some(i) => {
            proof {
                assert(target_ids(selected_trees@)[i as int] == old_commit_id@);
            }
            let (_, tree_builder) = selected_trees.remove(i);
            AbsorbRole::Destination(tree_builder)
        },
        None => AbsorbRole::Descendant,
    }
}

/// Makes the builder of a rebased destination the builder of the commit
/// that holds the absorbed hunks: `new_tree` is the tree of the destination
/// merged with the selected hunks, and the source becomes one more
/// predecessor.
pub fn absorb_into_destination(
    builder: DetachedCommitBuilder,
    source: &AbsorbSource,
    new_tree: MergedTreeId,
) -> (result: DetachedCommitBuilder)
    ensures
        result.commit.root_tree == new_tree,
        ids_view(result.commit.predecessors@) == ids_view(builder.commit.predecessors@).push(
            source.commit.id@,
        ),
        result.commit.parents == builder.commit.parents,
        result.commit.change_id == builder.commit.change_id,
        result.commit.description == builder.commit.description,
        result.commit.author == builder.commit.author,
        result.commit.committer == builder.commit.committer,
        result.commit.secure_sig == builder.commit.secure_sig,
        result.rewrite_source == builder.rewrite_source,
        result.sign_settings == builder.sign_settings,
{
    let mut builder = builder;
    let mut predecessors: Vec<CommitId> = crate::backend::copy_ids(&builder.commit.predecessors);
    predecessors.push(source.commit.id.clone());
    proof {
        assert(ids_view(predecessors@) =~= ids_view(builder.commit.predecessors@).push(
            source.commit.id@,
        ));
    }
    builder.set_tree_id(new_tree);
    builder.set_predecessors(predecessors);
    builder
}

/// One commit that was visited, with what the repository and the store
/// answered for it.
#[derive(Debug)]
pub enum AbsorbStep {
    /// The source, reparented; `parent_tree` is the tree of its new
    /// parents, and `written` what the store answers if the commit is
    /// written.
    Source { builder: DetachedCommitBuilder, parent_tree: BackendResult<MergedTreeId>, written:
        BackendResult<Commit> },
    /// A destination with the absorbed hunks, as the store has written it.
    Destination { builder: DetachedCommitBuilder, written: BackendResult<Commit> },
    /// Another commit, rebased, as the store has written it.
    Descendant { builder: DetachedCommitBuilder, written: BackendResult<Commit> },
}

/// The repository after the commit that the store has written for the
/// builder is made visible.
pub open spec fn repo_after_write(
    before: RepoView,
    builder: DetachedCommitBuilder,
    commit: Commit,
) -> RepoView {
    RepoView {
        indexed: before.indexed.push(commit.id@),
        actions: before.actions + written_actions(builder, commit),
        ..before
    }
}

/// The repository after the commit of the builder is abandoned: the
/// commit that the builder rewrites, if it rewrites one, is recorded as
/// abandoned with the parents of the new commit.
pub open spec fn repo_after_abandon(before: RepoView, builder: DetachedCommitBuilder) -> RepoView {
    if rewrites_source(builder, builder.commit.change_id@) {
        RepoView {
            actions: before.actions.push(
                RepoActionView::RecordAbandonedCommitWithParents(
                    builder.rewrite_source.unwrap().id@,
                    builder.commit@.parents,
                ),
            ),
            ..before
        }
    } else {
        before
    }
}

/// What the store answered for the commit of the step.
pub open spec fn step_written(step: AbsorbStep) -> BackendResult<Commit> {
    match step {
        AbsorbStep::Source { builder, parent_tree, written } => written,
        AbsorbStep::Destination { builder, written } => written,
        AbsorbStep::Descendant { builder, written } => written,
    }
}

/// The builder of the commit of the step.
pub open spec fn step_builder(step: AbsorbStep) -> DetachedCommitBuilder {
    match step {
        AbsorbStep::Source { builder, parent_tree, written } => builder,
        AbsorbStep::Destination { builder, written } => builder,
        AbsorbStep::Descendant { builder, written } => builder,
    }
}

/// The step is the source without a description, so that the tree of its
/// new parents decides whether it is abandoned.
pub open spec fn asks_parent_tree(step: AbsorbStep) -> bool {
    step matches AbsorbStep::Source { builder, parent_tree, written }
        && builder.commit.description@.len() == 0
}

/// The step is the source, and it has become discardable: it has no
/// description, and its tree is the tree of its new parents.
pub open spec fn is_discarded(step: AbsorbStep) -> bool {
    step matches AbsorbStep::Source { builder, parent_tree, written }
        && builder.commit.description@.len() == 0 && parent_tree is Ok
        && builder.commit.root_tree@ == parent_tree->Ok_0@
}

/// The figures after the commit of the step is written: the source is the
/// rewritten source and counts as rebased, a destination is one more
/// rewritten destination, and any other commit counts as rebased.
pub open spec fn stats_after(before: AbsorbStats, after: AbsorbStats, step: AbsorbStep) -> bool {
    let commit = step_written(step)->Ok_0;
    match step {
        AbsorbStep::Source { builder, parent_tree, written } => {
            &&& after.rewritten_source == Some(commit)
            &&& after.num_rebased == before.num_rebased + 1
            &&& after.rewritten_destinations == before.rewritten_destinations
        },
        AbsorbStep::Destination { builder, written } => {
            &&& after.rewritten_destinations@ == before.rewritten_destinations@.push(commit)
            &&& after.num_rebased == before.num_rebased
            &&& after.rewritten_source == before.rewritten_source
        },
        AbsorbStep::Descendant { builder, written } => {
            &&& after.num_rebased == before.num_rebased + 1
            &&& after.rewritten_destinations == before.rewritten_destinations
            &&& after.rewritten_source == before.rewritten_source
        },
    }
}

/// What a step leaves behind. The source without a description fails
/// with the repository's error where the tree of its new parents cannot
/// be had, and is abandoned where that tree is its own. Every other
/// commit is written: the step fails with the store's error where the
/// store gave no commit, and with a message that names the commit where
/// the index holds it already; else the commit is made visible in the
/// repository and counted. A step that fails changes nothing.
pub open spec fn is_absorbed(
    repo_before: MutableRepo,
    repo_after: MutableRepo,
    stats_before: AbsorbStats,
    stats_after_step: AbsorbStats,
    step: AbsorbStep,
    result: BackendResult<()>,
) -> bool {
    if asks_parent_tree(step) && step->Source_parent_tree is Err {
        &&& result == Err::<(), BackendError>(step->Source_parent_tree->Err_0)
        &&& repo_after == repo_before
        &&& stats_after_step == stats_before
    } else if is_discarded(step) {
        &&& result is Ok
        &&& repo_after@ == repo_after_abandon(repo_before@, step_builder(step))
        &&& stats_after_step == stats_before
    } else {
        match step_written(step) {
            Err(e) => {
                &&& result == Err::<(), BackendError>(e)
                &&& repo_after == repo_before
                &&& stats_after_step == stats_before
            },
            Ok(commit) => if is_refused(repo_before@, commit.id@) {
                &&& result matches Err(BackendError::Other(message))
                &&& message@ == already_exists_message(commit.id@)
                &&& repo_after == repo_before
                &&& stats_after_step == stats_before
            } else {
                &&& result is Ok
                &&& repo_after@ == repo_after_write(repo_before@, step_builder(step), commit)
                &&& stats_after(stats_before, stats_after_step, step)
            },
        }
    }
}

/// Merges selected trees into the specified commits, one commit at a call:
/// records in `repo` and in `stats` what was done with the commit of
/// `step`. Abandons the source commit if it becomes discardable.
pub fn absorb_hunks(repo: &mut MutableRepo, stats: &mut AbsorbStats, step: AbsorbStep) -> (result:
    BackendResult<()>)
    requires
        old(stats).num_rebased < usize::MAX,
    ensures
        is_absorbed(*old(repo), *final(repo), *old(stats), *final(stats), step, result),
{
    match step {
        AbsorbStep::Source { builder, parent_tree, written } => {
            // Remove selected hunks from the source commit by reparenting.
            let discardable: bool = match builder.is_discardable(parent_tree) {
                Ok(discardable) => discardable,
                Err(e) => {
                    return Err(e);
                },
            };
            if discardable {
                builder.abandon(repo);
            } else {
                let commit: Commit = match builder.write(repo, written) {
                    Ok(commit) => commit,
                    Err(e) => {
                        return Err(e);
                    },
                };
                stats.rewritten_source = Some(commit);
                stats.num_rebased = stats.num_rebased + 1;
            }
            Ok(())
        },
        AbsorbStep::Destination { builder, written } => {
            let commit: Commit = match builder.write(repo, written) {
                Ok(commit) => commit,
                Err(e) => {
                    return Err(e);
                },
            };
            stats.rewritten_destinations.push(commit);
            Ok(())
        },
        AbsorbStep::Descendant { builder, written } => {
            match builder.write(repo, written) {
                Ok(_) => {},
                Err(e) => {
                    return Err(e);
                },
            }
            stats.num_rebased = stats.num_rebased + 1;
            Ok(())
        },
    }
}

} // verus!

verus! {

impl SelectedTrees {
    /// Records what the tree of a destination is to hold at a path. A
    /// destination that is new gets a tree builder on the tree of the
    /// source's parents.
    pub fn select(
        &mut self,
        commit_id: &CommitId,
        parent_tree: &MergedTreeId,
        path: String,
        value: NewTreeValue,
    )
        ensures
            final(self).skipped_paths == old(self).skipped_paths,
            is_selected(
                old(self).target_commits@,
                final(self).target_commits@,
                commit_id@,
                parent_tree@,
                path,
                value,
            ),
    {
        let ghost before = self.target_commits@;
        match find_target(&self.target_commits, commit_id) {
            Some(i) => {
                proof {
                    lemma_first_target(target_ids(before), commit_id@, 0, i as int);
                }
                let (id, mut builder) = self.target_commits.remove(i);
                builder.set_or_remove(path, value);
                self.target_commits.insert(i, (id, builder));
                proof {
                    let after = self.target_commits@;
                    assert(after.len() == before.len());
                    assert(after[i as int].0 == before[i as int].0);
                    assert forall|j: int| 0 <= j < before.len() && j != i implies after[j]
                        == before[j] by {}
                }
            },
            None => {
                proof {
                    lemma_no_target(target_ids(before), commit_id@, 0);
                }
                let mut builder = MergedTreeBuilder::new(parent_tree.duplicate());
                builder.set_or_remove(path, value);
                let id = commit_id.clone();
                assert(id@ == commit_id@);
                self.target_commits.push((id, builder));
                proof {
                    let after = self.target_commits@;
                    assert(after.last().1.overrides@ =~= seq![(path, value)]);
                    assert forall|j: int| 0 <= j < before.len() implies after[j] == before[j] by {}
                }
            },
        }
    }
}

/// The destinations after a value is recorded for a commit. Where the
/// commit is a destination already, its tree builder has the value behind
/// the others; where it is not, it is one now, the last, with a tree
/// builder on the given tree that has this value. The other destinations
/// are as they were.
pub open spec fn is_selected(
    before: Seq<(CommitId, MergedTreeBuilder)>,
    after: Seq<(CommitId, MergedTreeBuilder)>,
    id: Seq<u8>,
    parent_tree: Seq<Seq<u8>>,
    path: String,
    value: NewTreeValue,
) -> bool {
    match first_target(target_ids(before), id, 0) {
        Some(i) => {
            &&& after.len() == before.len()
            &&& after[i].0 == before[i].0
            &&& after[i].1.base_tree_id == before[i].1.base_tree_id
            &&& after[i].1.overrides@ == before[i].1.overrides@.push((path, value))
            &&& forall|j: int| 0 <= j < before.len() && j != i ==> after[j] == before[j]
        },
        None => {
            &&& after.len() == before.len() + 1
            &&& after.last().0@ == id
            &&& after.last().1.base_tree_id@ == parent_tree
            &&& after.last().1.overrides@ == seq![(path, value)]
            &&& forall|j: int| 0 <= j < before.len() ==> after[j] == before[j]
        },
    }
}

/// The first place from `from` on at which the commit stands among the
/// destinations.
pub open spec fn first_target(ids: Seq<Seq<u8>>, id: Seq<u8>, from: int) -> Option<int>
    decreases ids.len() - from,
{
    if from < 0 || from >= ids.len() {
        None
    } else if ids[from] == id {
        Some(from)
    } else {
        first_target(ids, id, from + 1)
    }
}

/// The first place of a commit is the place before which it does not
/// stand.
pub proof fn lemma_first_target(ids: Seq<Seq<u8>>, id: Seq<u8>, from: int, i: int)
    requires
        0 <= from <= i < ids.len(),
        ids[i] == id,
        forall|j: int| from <= j < i ==> ids[j] != id,
    ensures
        first_target(ids, id, from) == Some(i),
    decreases i - from,
{
    if from < i {
        lemma_first_target(ids, id, from + 1, i);
    }
}

/// A commit that stands nowhere has no first place.
pub proof fn lemma_no_target(ids: Seq<Seq<u8>>, id: Seq<u8>, from: int)
    requires
        0 <= from,
        !ids.contains(id),
    ensures
        first_target(ids, id, from).is_none(),
    decreases ids.len() - from,
{
    if from < ids.len() {
        assert(ids[from] != id);
        lemma_no_target(ids, id, from + 1);
    }
}

} // verus!

verus! {

/// The destinations after the first `upto` groups of sub-hunks of a file
/// are recorded: for each group, in turn, the tree builder of its commit
/// has the file with the sub-hunks of the group absorbed.
pub open spec fn file_selected(
    before: Seq<(CommitId, MergedTreeBuilder)>,
    after: Seq<(CommitId, MergedTreeBuilder)>,
    groups: Seq<(&CommitId, Vec<SelectedRange>)>,
    upto: int,
    parent_tree: Seq<Seq<u8>>,
    path: String,
    left: MaterializedFileValue,
    right_text: Seq<u8>,
    deleted: bool,
) -> bool
    decreases upto,
{
    if upto <= 0 {
        after == before
    } else {
        exists|middle: Seq<(CommitId, MergedTreeBuilder)>, value: NewTreeValue|
            #![trigger is_selected(middle, after, groups[upto - 1].0@, parent_tree, path, value)]
            file_selected(
                before,
                middle,
                groups,
                upto - 1,
                parent_tree,
                path,
                left,
                right_text,
                deleted,
            ) && absorbed_value(left, right_text, deleted, groups[upto - 1].1@, value)
                && is_selected(middle, after, groups[upto - 1].0@, parent_tree, path, value)
    }
}

/// Diffs two texts by line.
fn pair_by_line<'a>(left: &'a [u8], right: &'a [u8]) -> (diff: Diff<'a>)
    ensures
        diff.wf(),
        diff.agrees(),
        diff.inputs() == seq![left@, right@],
        is_by_line(diff.inputs(), diff.regions()),
{
    let mut inputs: Vec<&'a [u8]> = Vec::new();
    inputs.push(left);
    inputs.push(right);
    let diff = Diff::by_line(inputs.as_slice());
    proof {
        assert(diff.inputs() =~= seq![left@, right@]);
        assert(is_diff_under(&find_line_ranges, &&CompareBytesExactly, inputs@, diff.regions()));
    }
    diff
}

impl SelectedTrees {
    /// Splits the changes of one file by the annotation of its content in
    /// the source's parents, and records for each destination what its
    /// tree is to hold at the path: the parent's content with the hunks
    /// that go to the destination.
    pub fn select_file_hunks(
        &mut self,
        parent_tree: &MergedTreeId,
        path: &String,
        left: &MaterializedFileValue,
        right_text: &[u8],
        deleted: bool,
        annotation_ranges: &[(&CommitId, Range<usize>)],
    )
        requires
            annotation_wf(annotation_ranges_of(annotation_ranges@)),
        ensures
            final(self).skipped_paths == old(self).skipped_paths,
            exists|groups: Seq<(&CommitId, Vec<SelectedRange>)>, diff: Diff|
                #![trigger is_grouping(groups, annotation_keys_of(annotation_ranges@), file_selections(annotation_ranges_of(annotation_ranges@), diff))]
                diff.wf() && diff.agrees() && diff.inputs() == seq![left.contents@, right_text@]
                    && is_by_line(diff.inputs(), diff.regions()) && is_grouping(
                    groups,
                    annotation_keys_of(annotation_ranges@),
                    file_selections(annotation_ranges_of(annotation_ranges@), diff),
                ) && file_selected(
                    old(self).target_commits@,
                    final(self).target_commits@,
                    groups,
                    groups.len() as int,
                    parent_tree@,
                    *path,
                    *left,
                    right_text@,
                    deleted,
                ),
    {
        let ghost before = self.target_commits@;
        let diff = pair_by_line(left.contents.as_slice(), right_text);
        let selected_ranges = split_file_hunks(annotation_ranges, &diff);
        let mut i: usize = 0;
        // Build trees containing parent (= left) contents + selected hunks
        while i < selected_ranges.len()
            invariant
                i <= selected_ranges.len(),
                self.skipped_paths == old(self).skipped_paths,
                forall|e: int|
                    0 <= e < selected_ranges.len() ==> selection_fits(
                        left.contents@.len() as int,
                        right_text@.len() as int,
                        (#[trigger] selected_ranges[e]).1@,
                    ),
                file_selected(
                    before,
                    self.target_commits@,
                    selected_ranges@,
                    i as int,
                    parent_tree@,
                    *path,
                    *left,
                    right_text@,
                    deleted,
                ),
            decreases selected_ranges.len() - i,
        {
            let ghost middle = self.target_commits@;
            let new_tree_value = absorbed_tree_value(
                left,
                right_text,
                deleted,
                selected_ranges[i].1.as_slice(),
            );
            let ghost value = new_tree_value;
            let path_copy: String = path.clone();
            assert(path_copy == *path);
            self.select(selected_ranges[i].0, parent_tree, path_copy, new_tree_value);
            proof {
                assert(absorbed_value(
                    *left,
                    right_text@,
                    deleted,
                    selected_ranges[i as int].1@,
                    value,
                ));
                assert(file_selected(
                    before,
                    middle,
                    selected_ranges@,
                    i as int,
                    parent_tree@,
                    *path,
                    *left,
                    right_text@,
                    deleted,
                ));
                let groups = selected_ranges@;
                let upto = i as int + 1;
                assert(groups[upto - 1] == selected_ranges[i as int]);
                assert(is_selected(
                    middle,
                    self.target_commits@,
                    groups[upto - 1].0@,
                    parent_tree@,
                    *path,
                    value,
                ));
                assert(file_selected(
                    before,
                    self.target_commits@,
                    groups,
                    upto,
                    parent_tree@,
                    *path,
                    *left,
                    right_text@,
                    deleted,
                ));
            }
            i += 1;
        }
    }
}

} // verus!

verus! {

/// The skipped paths with one more: `path`, for the reason in words.
pub open spec fn with_skipped(
    before: Seq<(String, String)>,
    after: Seq<(String, String)>,
    path: String,
    reason: Seq<char>,
) -> bool {
    exists|words: String| words@ == reason && after == #[trigger] before.push((path, words))
}

/// What an entry of the changed paths comes to. A left value that is no
/// file is skipped under the left path, for its reason; a left value that
/// is absent is passed over, as a new file has no destinations. Then a
/// right value that is no file is skipped under the right path. Else the
/// file on the left is wanted with the text on the right, which is empty,
/// and marked as deleted, where the right value is absent.
pub open spec fn is_entry_selected(
    before: Seq<(String, String)>,
    after: Seq<(String, String)>,
    left_path: String,
    right_path: String,
    left: MaterializedTreeValue,
    right: MaterializedTreeValue,
    wanted: Option<(MaterializedFileValue, Vec<u8>, bool)>,
) -> bool {
    match left {
        MaterializedTreeValue::File(left_file) => match right {
            MaterializedTreeValue::File(right_file) => {
                &&& after == before
                &&& wanted matches Some((file, text, deleted))
                &&& file == left_file
                &&& text@ == right_file.contents@
                &&& !deleted
            },
            MaterializedTreeValue::Absent => {
                &&& after == before
                &&& wanted matches Some((file, text, deleted))
                &&& file == left_file
                &&& text@.len() == 0
                &&& deleted
            },
            _ => {
                &&& wanted.is_none()
                &&& skip_reason(right).is_some()
                &&& with_skipped(before, after, right_path, skip_reason(right).unwrap())
            },
        },
        MaterializedTreeValue::Absent => wanted.is_none() && after == before,
        _ => {
            &&& wanted.is_none()
            &&& skip_reason(left).is_some()
            &&& with_skipped(before, after, left_path, skip_reason(left).unwrap())
        },
    }
}

impl SelectedTrees {
    /// Looks at one entry of the paths that the source changes: records
    /// the path as skipped where a value is no file, and returns the file
    /// of the parents, the text of the source and whether the source
    /// deletes the file where the changes of the entry can be absorbed.
    pub fn select_entry(
        &mut self,
        left_path: String,
        right_path: String,
        left: MaterializedTreeValue,
        right: MaterializedTreeValue,
    ) -> (wanted: Option<(MaterializedFileValue, Vec<u8>, bool)>)
        requires
            !(left is Tree),
            !(right is Tree),
        ensures
            final(self).target_commits == old(self).target_commits,
            is_entry_selected(
                old(self).skipped_paths@,
                final(self).skipped_paths@,
                left_path,
                right_path,
                left,
                right,
                wanted,
            ),
    {
        let left_file: MaterializedFileValue = match to_file_value(left) {
            Ok(Some(value)) => value,
            // New file should have no destinations
            Ok(None) => {
                return None;
            },
            Err(reason) => {
                self.skipped_paths.push((left_path, reason));
                return None;
            },
        };
        match to_file_value(right) {
            Ok(Some(value)) => Some((left_file, value.contents, false)),
            Ok(None) => Some((left_file, Vec::new(), true)),
            Err(reason) => {
                self.skipped_paths.push((right_path, reason));
                None
            },
        }
    }
}

} // verus!

