use jj_lib::absorb::is_ascending_annotation;
use jj_lib::absorb_trees::MaterializedFileValue;
use jj_lib::absorb_trees::MaterializedTreeValue;
use jj_lib::absorb_trees::MergedTreeBuilder;
use jj_lib::absorb_trees::NewTreeValue;
use jj_lib::absorb_trees::SelectedTrees;
use jj_lib::backend::MergedTreeId;
use jj_lib::backend::TreeId;
use jj_lib::merge::Merge;
use jj_lib::object_id::CommitId;
use jj_lib::op_store::names_portion;
use jj_lib::op_store::view_with_desired_portions_restored;
use jj_lib::op_store::OperationView;
use jj_lib::op_store::RemoteRef;
use jj_lib::op_store::RemoteView;
use jj_lib::op_store::UndoWhatToRestore;
use jj_lib::sync::rebase_operations;
use jj_lib::sync::FetchedBookmark;
use jj_lib::sync::SyncTotals;
use jj_lib::workspace::first_unknown;
use jj_lib::workspace::sparse_patterns_for;
use jj_lib::workspace::workspaces_to_forget;
use jj_lib::workspace::SparseInheritance;

fn commit(byte: u8) -> CommitId {
    CommitId::new(vec![byte])
}

fn tree(byte: u8) -> MergedTreeId {
    MergedTreeId { tree_ids: Merge::resolved(TreeId::new(vec![byte])) }
}

fn file(text: &str) -> NewTreeValue {
    NewTreeValue::File { contents: text.as_bytes().to_vec(), executable: false, copy_id: vec![] }
}

fn view(byte: u8) -> OperationView {
    let name = format!("name{byte}");
    OperationView {
        head_ids: vec![commit(byte)],
        local_bookmarks: vec![(name.clone(), Merge::normal(commit(byte)))],
        tags: vec![(name.clone(), Merge::normal(commit(byte + 1)))],
        remote_views: vec![(
            "origin".to_string(),
            RemoteView {
                bookmarks: vec![(
                    name.clone(),
                    RemoteRef { target: Merge::normal(commit(byte + 2)), is_new: false },
                )],
            },
        )],
        git_refs: vec![(name.clone(), Merge::normal(commit(byte + 3)))],
        git_head: Merge::normal(commit(byte + 4)),
        wc_commit_ids: vec![(name, commit(byte + 5))],
    }
}

#[test]
fn test_restore_repo_and_remote_portions() {
    let all = [UndoWhatToRestore::Repo, UndoWhatToRestore::RemoteTracking];
    let restored = view_with_desired_portions_restored(view(10), view(20), &all);
    assert_eq!(restored.head_ids, view(10).head_ids);
    assert_eq!(restored.local_bookmarks, view(10).local_bookmarks);
    assert_eq!(restored.tags, view(10).tags);
    assert_eq!(restored.wc_commit_ids, view(10).wc_commit_ids);
    assert_eq!(restored.remote_views, view(10).remote_views);
    // What Git holds is never restored.
    assert_eq!(restored.git_refs, view(20).git_refs);
    assert_eq!(restored.git_head, view(20).git_head);
}

#[test]
fn test_restore_one_portion_only() {
    let repo_only = view_with_desired_portions_restored(view(10), view(20), &[UndoWhatToRestore::Repo]);
    assert_eq!(repo_only.head_ids, view(10).head_ids);
    assert_eq!(repo_only.remote_views, view(20).remote_views);
    let remotes_only =
        view_with_desired_portions_restored(view(10), view(20), &[UndoWhatToRestore::RemoteTracking]);
    assert_eq!(remotes_only.head_ids, view(20).head_ids);
    assert_eq!(remotes_only.local_bookmarks, view(20).local_bookmarks);
    assert_eq!(remotes_only.remote_views, view(10).remote_views);
    let nothing = view_with_desired_portions_restored(view(10), view(20), &[]);
    assert_eq!(nothing, view(20));
    assert!(names_portion(&[UndoWhatToRestore::Repo], UndoWhatToRestore::Repo));
    assert!(!names_portion(&[UndoWhatToRestore::Repo], UndoWhatToRestore::RemoteTracking));
}

fn bookmark(symbol: &str, old: u8, new: Option<u8>, matches_filter: bool) -> FetchedBookmark {
    FetchedBookmark {
        symbol: symbol.to_string(),
        old_head: commit(old),
        new_head: new.map(commit),
        matches_filter,
    }
}

#[test]
fn test_rebase_operations_pick_moved_bookmarks() {
    let bookmarks = [
        bookmark("main@origin", 1, Some(2), false),
        bookmark("same@origin", 3, Some(3), true),
        bookmark("gone@origin", 4, None, true),
        bookmark("push-a@origin", 5, Some(6), true),
    ];
    assert_eq!(rebase_operations(&bookmarks, false), vec![0, 3]);
    assert_eq!(rebase_operations(&bookmarks, true), vec![3]);
    assert_eq!(rebase_operations(&[], true), Vec::<usize>::new());
}

#[test]
fn test_sync_totals_add_up() {
    let mut totals = SyncTotals::new();
    assert!(!totals.any_rebased());
    assert!(totals.record_stack(5, 3));
    assert!(totals.record_stack(2, 2));
    assert_eq!(
        totals,
        SyncTotals { num_rebased_stacks: 2, total_rebased_commits: 5, total_abandoned_commits: 2 }
    );
    assert!(totals.any_rebased());
    // More commits cannot be rebased than were to be.
    assert!(!totals.record_stack(1, 2));
    assert!(!totals.record_stack(usize::MAX, usize::MAX));
    assert_eq!(totals.num_rebased_stacks, 2);
}

#[test]
fn test_workspace_decisions() {
    let current = vec!["src".to_string()];
    assert_eq!(sparse_patterns_for(SparseInheritance::Copy, current.clone()), Some(current.clone()));
    assert_eq!(sparse_patterns_for(SparseInheritance::Full, current.clone()), None);
    assert_eq!(sparse_patterns_for(SparseInheritance::Empty, current), Some(vec![]));
    assert_eq!(workspaces_to_forget(vec![], "default".to_string()), vec!["default".to_string()]);
    assert_eq!(
        workspaces_to_forget(vec!["a".to_string(), "b".to_string()], "default".to_string()),
        vec!["a".to_string(), "b".to_string()]
    );
    assert_eq!(first_unknown(&[true, true]), None);
    assert_eq!(first_unknown(&[true, false, false]), Some(1));
    assert_eq!(first_unknown(&[]), None);
}

#[test]
fn test_selected_trees_gather_values_by_destination() {
    let mut trees = SelectedTrees::default();
    trees.select(&commit(1), &tree(9), "a".to_string(), file("one"));
    trees.select(&commit(2), &tree(9), "a".to_string(), NewTreeValue::Absent);
    trees.select(&commit(1), &tree(9), "b".to_string(), file("two"));
    let mut first = MergedTreeBuilder::new(tree(9));
    first.set_or_remove("a".to_string(), file("one"));
    first.set_or_remove("b".to_string(), file("two"));
    let mut second = MergedTreeBuilder::new(tree(9));
    second.set_or_remove("a".to_string(), NewTreeValue::Absent);
    assert_eq!(trees.target_commits, vec![(commit(1), first), (commit(2), second)]);
    assert!(trees.skipped_paths.is_empty());
}

#[test]
fn test_select_file_hunks_builds_a_tree_for_each_destination() {
    let first = commit(1);
    let second = commit(2);
    // Lines "1a\n", "1b\n" are of the first commit, "2a\n", "2b\n" of the
    // second.
    let annotation = [(&first, 0..6), (&second, 6..12)];
    assert!(is_ascending_annotation(&annotation));
    assert!(!is_ascending_annotation(&[(&first, 0..6), (&second, 5..12)]));
    assert!(!is_ascending_annotation(&[(&first, 3..3)]));
    let left = MaterializedFileValue {
        contents: b"1a\n1b\n2a\n2b\n".to_vec(),
        executable: true,
        copy_id: vec![7],
    };
    let mut trees = SelectedTrees::default();
    trees.select_file_hunks(
        &tree(9),
        &"file".to_string(),
        &left,
        b"1a\n1B\n2a\n2B\n",
        false,
        &annotation,
    );
    let value = |text: &str| NewTreeValue::File {
        contents: text.as_bytes().to_vec(),
        executable: true,
        copy_id: vec![7],
    };
    let mut for_first = MergedTreeBuilder::new(tree(9));
    for_first.set_or_remove("file".to_string(), value("1a\n1B\n2a\n2b\n"));
    let mut for_second = MergedTreeBuilder::new(tree(9));
    for_second.set_or_remove("file".to_string(), value("1a\n1b\n2a\n2B\n"));
    assert_eq!(trees.target_commits, vec![(commit(1), for_first), (commit(2), for_second)]);

    // A file that the source deletes is absent where all of it goes to
    // one destination.
    let only = [(&first, 0..12)];
    let mut trees = SelectedTrees::default();
    trees.select_file_hunks(&tree(9), &"file".to_string(), &left, b"", true, &only);
    let mut deleted = MergedTreeBuilder::new(tree(9));
    deleted.set_or_remove("file".to_string(), NewTreeValue::Absent);
    assert_eq!(trees.target_commits, vec![(commit(1), deleted)]);
}

#[test]
fn test_select_entry_skips_what_is_no_file() {
    let file = |text: &str| MaterializedFileValue {
        contents: text.as_bytes().to_vec(),
        executable: false,
        copy_id: vec![],
    };
    let mut trees = SelectedTrees::default();
    // A file on both sides is wanted with the text on the right.
    assert_eq!(
        trees.select_entry(
            "a".to_string(),
            "a".to_string(),
            MaterializedTreeValue::File(file("old")),
            MaterializedTreeValue::File(file("new")),
        ),
        Some((file("old"), b"new".to_vec(), false))
    );
    // A file that the source deletes is wanted with no text.
    assert_eq!(
        trees.select_entry(
            "b".to_string(),
            "b".to_string(),
            MaterializedTreeValue::File(file("old")),
            MaterializedTreeValue::Absent,
        ),
        Some((file("old"), vec![], true))
    );
    // A new file is passed over.
    assert_eq!(
        trees.select_entry(
            "c".to_string(),
            "c".to_string(),
            MaterializedTreeValue::Absent,
            MaterializedTreeValue::Symlink,
        ),
        None
    );
    assert!(trees.skipped_paths.is_empty());
    // Values that are no files are skipped, the left one first.
    assert_eq!(
        trees.select_entry(
            "left".to_string(),
            "right".to_string(),
            MaterializedTreeValue::Symlink,
            MaterializedTreeValue::GitSubmodule,
        ),
        None
    );
    assert_eq!(
        trees.select_entry(
            "left".to_string(),
            "right".to_string(),
            MaterializedTreeValue::File(file("old")),
            MaterializedTreeValue::AccessDenied("no".to_string()),
        ),
        None
    );
    assert_eq!(
        trees.skipped_paths,
        vec![
            ("left".to_string(), "Is a symlink".to_string()),
            ("right".to_string(), "Access is denied: no".to_string()),
        ]
    );
    assert!(trees.target_commits.is_empty());
}
