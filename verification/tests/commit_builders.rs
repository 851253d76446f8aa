use jj_lib::absorb_trees::absorb_hunks;
use jj_lib::absorb_trees::absorb_into_destination;
use jj_lib::absorb_trees::absorb_role;
use jj_lib::absorb_trees::absorbed_tree_value;
use jj_lib::absorb_trees::to_file_value;
use jj_lib::absorb_trees::AbsorbRole;
use jj_lib::absorb_trees::AbsorbSource;
use jj_lib::absorb_trees::AbsorbStats;
use jj_lib::absorb_trees::AbsorbStep;
use jj_lib::absorb_trees::MaterializedFileValue;
use jj_lib::absorb_trees::MaterializedTreeValue;
use jj_lib::absorb_trees::MergedTreeBuilder;
use jj_lib::absorb_trees::NewTreeValue;
use jj_lib::backend;
use jj_lib::backend::BackendError;
use jj_lib::backend::MergedTreeId;
use jj_lib::backend::SecureSig;
use jj_lib::backend::Signature;
use jj_lib::backend::Timestamp;
use jj_lib::backend::TreeId;
use jj_lib::commit::Commit;
use jj_lib::commit_builder::write_to_store;
use jj_lib::commit_builder::DetachedCommitBuilder;
use jj_lib::object_id::decode_hex;
use jj_lib::object_id::encode_hex;
use jj_lib::object_id::ChangeId;
use jj_lib::object_id::CommitId;
use jj_lib::repo::MutableRepo;
use jj_lib::repo::RepoAction;
use jj_lib::settings::SignBehavior;
use jj_lib::settings::SignSettings;
use jj_lib::settings::UserSettings;
use jj_lib::settings::USER_EMAIL_PLACEHOLDER;
use jj_lib::settings::USER_NAME_PLACEHOLDER;

fn id(hex: &str) -> CommitId {
    CommitId::from_hex(hex)
}

fn tree(byte: u8) -> MergedTreeId {
    MergedTreeId::resolved(TreeId::new(vec![byte; 2]))
}

fn signature(name: &str, email: &str, millis: i64) -> Signature {
    Signature {
        name: name.to_string(),
        email: email.to_string(),
        timestamp: Timestamp { timestamp: millis, tz_offset: 60 },
    }
}

fn settings(behavior: SignBehavior) -> UserSettings {
    UserSettings {
        user_name: "Test User".to_string(),
        user_email: "test.user@example.com".to_string(),
        commit_timestamp: Timestamp { timestamp: 1000, tz_offset: 60 },
        sign_settings: SignSettings {
            behavior,
            user_email: "test.user@example.com".to_string(),
            key: None,
        },
    }
}

fn stored(hex: &str, data: backend::Commit) -> Commit {
    Commit::new(id(hex), data)
}

fn new_builder() -> DetachedCommitBuilder {
    DetachedCommitBuilder::for_new_commit(
        &settings(SignBehavior::Own),
        vec![id("aaaa")],
        tree(1),
        ChangeId::new(vec![9; 4]),
    )
}

#[test]
fn test_hex_round_trip() {
    assert_eq!(encode_hex(&[0x00, 0x1f, 0xa0, 0xff]), b"001fa0ff".to_vec());
    assert_eq!(decode_hex(b"001fA0ff"), Some(vec![0x00, 0x1f, 0xa0, 0xff]));
    assert_eq!(decode_hex(b"001"), None);
    assert_eq!(decode_hex(b"0g"), None);
    assert_eq!(decode_hex(b""), Some(vec![]));
    assert_eq!(id("111111").as_bytes(), &[0x11, 0x11, 0x11]);
    assert_eq!(id("12ab").hex(), "12ab");
    assert_eq!(CommitId::try_from_hex("12a"), None);
    assert_eq!(CommitId::try_from_hex("12AB"), Some(id("12ab")));
}

#[test]
fn test_for_new_commit() {
    let builder = new_builder();
    assert_eq!(builder.parents(), &[id("aaaa")]);
    assert!(builder.predecessors().is_empty());
    assert_eq!(builder.tree_id(), &tree(1));
    assert_eq!(builder.change_id(), &ChangeId::new(vec![9; 4]));
    assert_eq!(builder.description(), "");
    assert_eq!(builder.author(), &signature("Test User", "test.user@example.com", 1000));
    assert_eq!(builder.committer(), builder.author());
    assert_eq!(builder.sign_settings().behavior, SignBehavior::Own);
    assert!(builder.rewrite_source.is_none());
}

#[test]
fn test_builder_setters() {
    let mut builder = new_builder();
    builder
        .set_parents(vec![id("bbbb"), id("cccc")])
        .set_predecessors(vec![id("dddd")])
        .set_tree_id(tree(2))
        .set_change_id(ChangeId::new(vec![3; 4]))
        .set_description("hello".to_string())
        .set_author(signature("A", "a@example.com", 1))
        .set_committer(signature("C", "c@example.com", 2))
        .set_sign_behavior(SignBehavior::Force)
        .set_sign_key("key".to_string());
    assert_eq!(builder.parents(), &[id("bbbb"), id("cccc")]);
    assert_eq!(builder.predecessors(), &[id("dddd")]);
    assert_eq!(builder.tree_id(), &tree(2));
    assert_eq!(builder.change_id(), &ChangeId::new(vec![3; 4]));
    assert_eq!(builder.description(), "hello");
    assert_eq!(builder.author(), &signature("A", "a@example.com", 1));
    assert_eq!(builder.committer(), &signature("C", "c@example.com", 2));
    assert_eq!(builder.sign_settings().behavior, SignBehavior::Force);
    assert_eq!(builder.sign_settings().key, Some("key".to_string()));
    builder.clear_sign_key();
    assert_eq!(builder.sign_settings().key, None);
    builder.generate_new_change_id(ChangeId::new(vec![5; 4]));
    assert_eq!(builder.change_id(), &ChangeId::new(vec![5; 4]));
}

#[test]
fn test_is_empty_and_is_discardable() {
    let mut builder = new_builder();
    assert_eq!(builder.is_empty(Ok(tree(1))), Ok(true));
    assert_eq!(builder.is_empty(Ok(tree(2))), Ok(false));
    let error = BackendError::Other("gone".to_string());
    assert_eq!(
        builder.is_empty(Err(BackendError::Other("gone".to_string()))),
        Err(BackendError::Other("gone".to_string()))
    );
    assert_eq!(builder.is_discardable(Ok(tree(1))), Ok(true));
    assert_eq!(builder.is_discardable(Ok(tree(2))), Ok(false));
    assert_eq!(builder.is_discardable(Err(error)), Err(BackendError::Other("gone".to_string())));
    builder.set_description("described".to_string());
    // The tree of the parents is not looked at where there is a description.
    assert_eq!(builder.is_discardable(Ok(tree(1))), Ok(false));
    assert_eq!(builder.is_discardable(Err(BackendError::Other("gone".to_string()))), Ok(false));
}

fn predecessor(author: Signature) -> Commit {
    stored(
        "1234",
        backend::Commit {
            parents: vec![id("aaaa")],
            predecessors: vec![id("0000")],
            root_tree: tree(1),
            change_id: ChangeId::new(vec![9; 4]),
            description: "old".to_string(),
            author,
            committer: signature("Other", "other@example.com", 5),
            secure_sig: None,
        },
    )
}

#[test]
fn test_for_rewrite_from_keeps_author() {
    let old = predecessor(signature("Someone", "someone@example.com", 7));
    let builder = DetachedCommitBuilder::for_rewrite_from(&settings(SignBehavior::Own), &old, true);
    assert_eq!(builder.parents(), &[id("aaaa")]);
    assert_eq!(builder.predecessors(), &[id("1234")]);
    assert_eq!(builder.description(), "old");
    assert_eq!(builder.author(), &signature("Someone", "someone@example.com", 7));
    assert_eq!(builder.committer(), &signature("Test User", "test.user@example.com", 1000));
    assert_eq!(builder.rewrite_source, Some(old));
}

#[test]
fn test_for_rewrite_from_fills_missing_author() {
    let old = predecessor(signature("", USER_EMAIL_PLACEHOLDER, 7));
    let builder =
        DetachedCommitBuilder::for_rewrite_from(&settings(SignBehavior::Own), &old, false);
    assert_eq!(builder.author(), &signature("Test User", "test.user@example.com", 7));

    let old = predecessor(signature(USER_NAME_PLACEHOLDER, "", 7));
    let builder = DetachedCommitBuilder::for_rewrite_from(&settings(SignBehavior::Own), &old, true);
    // The author is the committer now, and the predecessor can be discarded.
    assert_eq!(builder.author(), &signature("Test User", "test.user@example.com", 1000));

    let old = predecessor(signature("Test User", "test.user@example.com", 7));
    let builder =
        DetachedCommitBuilder::for_rewrite_from(&settings(SignBehavior::Own), &old, false);
    assert_eq!(builder.author(), &signature("Test User", "test.user@example.com", 7));
}

#[test]
fn test_write_to_store_signing() {
    let commit = |email: &str, signed: bool| backend::Commit {
        parents: vec![id("aaaa")],
        predecessors: vec![],
        root_tree: tree(1),
        change_id: ChangeId::new(vec![9; 4]),
        description: String::new(),
        author: signature("A", email, 1),
        committer: signature("A", email, 1),
        secure_sig: signed.then(|| SecureSig { data: vec![1], sig: vec![2] }),
    };
    let sign = |behavior: SignBehavior, can_sign: bool, email: &str, signed: bool| {
        let request =
            write_to_store(can_sign, commit(email, signed), &settings(behavior).sign_settings);
        assert_eq!(request.commit, commit(email, false));
        request.should_sign
    };
    let me = "test.user@example.com";
    assert!(!sign(SignBehavior::Drop, true, me, true));
    assert!(sign(SignBehavior::Keep, true, me, true));
    assert!(!sign(SignBehavior::Keep, true, me, false));
    assert!(!sign(SignBehavior::Keep, true, "x@example.com", true));
    assert!(sign(SignBehavior::Own, true, me, false));
    assert!(!sign(SignBehavior::Own, true, "x@example.com", false));
    assert!(sign(SignBehavior::Force, true, "x@example.com", false));
    assert!(!sign(SignBehavior::Force, false, me, true));
    let builder = new_builder();
    let request = builder.write_hidden(true);
    assert!(request.should_sign);
    assert_eq!(request.commit, builder.commit);
}

#[test]
fn test_write_records_head_and_predecessors() {
    let mut repo = MutableRepo::new(true, vec![id("aaaa")]);
    let mut builder = new_builder();
    builder.set_predecessors(vec![id("0001")]);
    let written = stored("beef", builder.write_hidden(false).commit);
    let commit = builder.attach(&mut repo).write(Ok(written)).unwrap();
    assert_eq!(commit.id(), &id("beef"));
    assert!(repo.has_id(&id("beef")));
    assert_eq!(
        repo.take_actions(),
        vec![
            RepoAction::AddHead(commit.duplicate()),
            RepoAction::SetPredecessors(id("beef"), vec![id("0001")]),
        ]
    );
    assert!(repo.take_actions().is_empty());
}

#[test]
fn test_write_refuses_existing_commit() {
    let mut repo = MutableRepo::new(true, vec![id("aaaa"), id("beef")]);
    let builder = new_builder();
    let written = stored("beef", builder.write_hidden(false).commit);
    assert_eq!(
        builder.write(&mut repo, Ok(written)),
        Err(BackendError::Other("Newly-created commit beef already exists".to_string()))
    );
    assert!(repo.take_actions().is_empty());

    // The kind of the index makes no difference.
    let mut repo = MutableRepo::new(false, vec![id("beef")]);
    let builder = new_builder();
    let written = stored("beef", builder.write_hidden(false).commit);
    assert_eq!(
        builder.write(&mut repo, Ok(written)),
        Err(BackendError::Other("Newly-created commit beef already exists".to_string()))
    );
    assert!(repo.take_actions().is_empty());
}

#[test]
fn test_write_passes_store_error_on() {
    let mut repo = MutableRepo::new(true, vec![]);
    assert_eq!(
        new_builder().write(&mut repo, Err(BackendError::Other("disk full".to_string()))),
        Err(BackendError::Other("disk full".to_string()))
    );
    assert!(repo.take_actions().is_empty());
}

#[test]
fn test_write_and_abandon_of_rewrite() {
    let old = predecessor(signature("Someone", "someone@example.com", 7));
    let rewrite = || DetachedCommitBuilder::for_rewrite_from(&settings(SignBehavior::Own), &old, false);

    let mut repo = MutableRepo::new(true, vec![id("1234")]);
    let builder = rewrite();
    let written = stored("5678", builder.write_hidden(false).commit);
    builder.write(&mut repo, Ok(written.duplicate())).unwrap();
    assert_eq!(
        repo.take_actions(),
        vec![
            RepoAction::AddHead(written),
            RepoAction::SetPredecessors(id("5678"), vec![id("1234")]),
            RepoAction::SetRewrittenCommit(id("1234"), id("5678")),
        ]
    );

    // With another change id the old commit is not rewritten.
    let mut builder = rewrite();
    builder.generate_new_change_id(ChangeId::new(vec![7; 4]));
    let written = stored("9abc", builder.write_hidden(false).commit);
    builder.write(&mut repo, Ok(written)).unwrap();
    assert_eq!(repo.take_actions().len(), 2);
    let mut builder = rewrite();
    builder.generate_new_change_id(ChangeId::new(vec![7; 4]));
    builder.abandon(&mut repo);
    assert!(repo.take_actions().is_empty());

    rewrite().attach(&mut repo).abandon();
    assert_eq!(
        repo.take_actions(),
        vec![RepoAction::RecordAbandonedCommitWithParents(id("1234"), vec![id("aaaa")])]
    );
    new_builder().abandon(&mut repo);
    assert!(repo.take_actions().is_empty());
}

#[test]
fn test_attached_builder_setters() {
    let mut repo = MutableRepo::new(true, vec![]);
    let builder = new_builder()
        .attach(&mut repo)
        .set_parents(vec![id("bbbb")])
        .set_predecessors(vec![id("dddd")])
        .set_tree_id(tree(2))
        .set_change_id(ChangeId::new(vec![3; 4]))
        .generate_new_change_id(ChangeId::new(vec![4; 4]))
        .set_description("hello".to_string())
        .set_author(signature("A", "a@example.com", 1))
        .set_committer(signature("C", "c@example.com", 2))
        .set_sign_behavior(SignBehavior::Keep)
        .set_sign_key("key".to_string())
        .clear_sign_key();
    assert_eq!(builder.parents(), &[id("bbbb")]);
    assert_eq!(builder.predecessors(), &[id("dddd")]);
    assert_eq!(builder.tree_id(), &tree(2));
    assert_eq!(builder.change_id(), &ChangeId::new(vec![4; 4]));
    assert_eq!(builder.description(), "hello");
    assert_eq!(builder.author(), &signature("A", "a@example.com", 1));
    assert_eq!(builder.committer(), &signature("C", "c@example.com", 2));
    assert_eq!(builder.sign_settings().behavior, SignBehavior::Keep);
    assert_eq!(builder.sign_settings().key, None);
    assert_eq!(builder.is_empty(Ok(tree(2))), Ok(true));
    assert_eq!(builder.is_discardable(Ok(tree(2))), Ok(false));
    let detached = builder.detach();
    assert_eq!(detached.description(), "hello");
}

fn file(contents: &str) -> MaterializedFileValue {
    MaterializedFileValue { contents: contents.as_bytes().to_vec(), executable: true, copy_id: vec![4] }
}

#[test]
fn test_to_file_value() {
    assert_eq!(to_file_value(MaterializedTreeValue::Absent), Ok(None));
    assert_eq!(to_file_value(MaterializedTreeValue::File(file("a"))), Ok(Some(file("a"))));
    assert_eq!(
        to_file_value(MaterializedTreeValue::AccessDenied("no".to_string())),
        Err("Access is denied: no".to_string())
    );
    assert_eq!(to_file_value(MaterializedTreeValue::Symlink), Err("Is a symlink".to_string()));
    assert_eq!(to_file_value(MaterializedTreeValue::FileConflict), Err("Is a conflict".to_string()));
    assert_eq!(to_file_value(MaterializedTreeValue::OtherConflict), Err("Is a conflict".to_string()));
    assert_eq!(
        to_file_value(MaterializedTreeValue::GitSubmodule),
        Err("Is a Git submodule".to_string())
    );
}

#[test]
fn test_absorbed_tree_value() {
    assert_eq!(
        absorbed_tree_value(&file("1a\n1b\n"), b"1a\n1B\n", false, &[(3..6, 3..6)]),
        NewTreeValue::File { contents: b"1a\n1B\n".to_vec(), executable: true, copy_id: vec![4] }
    );
    // The whole content is deleted at one destination.
    assert_eq!(absorbed_tree_value(&file("1a\n"), b"", true, &[(0..3, 0..0)]), NewTreeValue::Absent);
    // Only a part of the deleted content goes to this destination.
    assert_eq!(
        absorbed_tree_value(&file("1a\n2a\n"), b"", true, &[(0..3, 0..0)]),
        NewTreeValue::File { contents: b"2a\n".to_vec(), executable: true, copy_id: vec![4] }
    );
    // An emptied file that is not deleted stays.
    assert_eq!(
        absorbed_tree_value(&file("1a\n"), b"", false, &[(0..3, 0..0)]),
        NewTreeValue::File { contents: vec![], executable: true, copy_id: vec![4] }
    );
}

#[test]
fn test_absorb_roles_and_steps() {
    let old = predecessor(signature("Someone", "someone@example.com", 7));
    let source = AbsorbSource::from_commit(old.duplicate(), Ok(tree(1))).unwrap();
    assert_eq!(
        AbsorbSource::from_commit(old.duplicate(), Err(BackendError::Other("x".to_string()))),
        Err(BackendError::Other("x".to_string()))
    );
    let mut selected = vec![
        (id("d001"), MergedTreeBuilder::new(tree(1))),
        (id("d002"), MergedTreeBuilder::new(tree(1))),
    ];
    selected[1].1.set_or_remove("path".to_string(), NewTreeValue::Absent);
    assert_eq!(absorb_role(&source, &mut selected, &id("1234")), AbsorbRole::Source);
    assert_eq!(absorb_role(&source, &mut selected, &id("eeee")), AbsorbRole::Descendant);
    let role = absorb_role(&source, &mut selected, &id("d002"));
    assert_eq!(
        role,
        AbsorbRole::Destination(MergedTreeBuilder {
            base_tree_id: tree(1),
            overrides: vec![("path".to_string(), NewTreeValue::Absent)],
        })
    );
    assert_eq!(selected.len(), 1);
    assert_eq!(absorb_role(&source, &mut selected, &id("d002")), AbsorbRole::Descendant);

    let rewrite = |hex: &str| {
        let destination = stored(hex, predecessor(signature("D", "d@example.com", 1)).data);
        DetachedCommitBuilder::for_rewrite_from(&settings(SignBehavior::Own), &destination, false)
    };
    let builder = absorb_into_destination(rewrite("d002"), &source, tree(5));
    assert_eq!(builder.tree_id(), &tree(5));
    assert_eq!(builder.predecessors(), &[id("d002"), id("1234")]);

    let mut repo = MutableRepo::new(true, vec![]);
    let mut stats = AbsorbStats::new();
    let written = stored("e002", builder.write_hidden(false).commit);
    absorb_hunks(
        &mut repo,
        &mut stats,
        AbsorbStep::Destination { builder, written: Ok(written.duplicate()) },
    )
    .unwrap();
    assert_eq!(stats.rewritten_destinations, vec![written]);
    assert_eq!(stats.num_rebased, 0);

    let builder = rewrite("eeee");
    let written = stored("e003", builder.write_hidden(false).commit);
    absorb_hunks(&mut repo, &mut stats, AbsorbStep::Descendant { builder, written: Ok(written) })
        .unwrap();
    assert_eq!(stats.num_rebased, 1);

    // The source keeps its description, so it is written.
    let builder = DetachedCommitBuilder::for_rewrite_from(&settings(SignBehavior::Own), &old, false);
    let written = stored("e004", builder.write_hidden(false).commit);
    absorb_hunks(
        &mut repo,
        &mut stats,
        AbsorbStep::Source { builder, parent_tree: Ok(tree(1)), written: Ok(written.duplicate()) },
    )
    .unwrap();
    assert_eq!(stats.rewritten_source, Some(written));
    assert_eq!(stats.num_rebased, 2);
    repo.take_actions();

    // A source without description of which nothing is left is abandoned.
    let mut stats = AbsorbStats::new();
    let mut builder =
        DetachedCommitBuilder::for_rewrite_from(&settings(SignBehavior::Own), &old, false);
    builder.set_description(String::new());
    absorb_hunks(
        &mut repo,
        &mut stats,
        AbsorbStep::Source {
            builder,
            parent_tree: Ok(tree(1)),
            written: Err(BackendError::Other("not written".to_string())),
        },
    )
    .unwrap();
    assert_eq!(stats, AbsorbStats::new());
    assert_eq!(
        repo.take_actions(),
        vec![RepoAction::RecordAbandonedCommitWithParents(id("1234"), vec![id("aaaa")])]
    );
}
