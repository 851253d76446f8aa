//! Builders of commits: the data of a commit that is to be written, and
//! what writing it asks of the repository.

use crate::backend;
use crate::backend::ids_view;
use crate::backend::BackendError;
use crate::backend::BackendResult;
use crate::backend::MergedTreeId;
use crate::backend::Signature;
use crate::commit::Commit;
use crate::commit::CommitView;
use crate::object_id::spec_hex_chars;
use crate::object_id::ChangeId;
use crate::object_id::CommitId;
use crate::repo::MutableRepo;
use crate::repo::RepoActionView;
use crate::repo::RepoView;
use crate::settings::is_text;
use crate::settings::SignBehavior;
use crate::settings::SignSettings;
use crate::settings::UserSettings;
use crate::settings::USER_EMAIL_PLACEHOLDER;
use crate::settings::USER_NAME_PLACEHOLDER;
use vstd::prelude::*;
use vstd::string::*;

verus! {

/// Like `CommitBuilder`, but doesn't mutably borrow `MutableRepo`.
#[derive(Debug, PartialEq, Eq)]
pub struct DetachedCommitBuilder {
    pub commit: backend::Commit,
    pub rewrite_source: Option<Commit>,
    pub sign_settings: SignSettings,
}

/// A commit in the making, bound to the repository that it is written to.
#[must_use]
pub struct CommitBuilder<'repo> {
    pub mut_repo: &'repo mut MutableRepo,
    pub inner: DetachedCommitBuilder,
}

/// What is handed to the store to write a commit.
#[derive(Debug, PartialEq, Eq)]
pub struct StoreWrite {
    /// The commit, without the signature of the commit it may rewrite.
    pub commit: backend::Commit,
    /// Whether the store is to sign the commit.
    pub should_sign: bool,
}

/// Prepares a commit for the store: the store signs it if it can and the
/// settings ask for it; a signature that the commit brings along is never
/// written.
pub fn write_to_store(can_sign: bool, commit: backend::Commit, sign_settings: &SignSettings) -> (request:
    StoreWrite)
    ensures
        request.should_sign == (can_sign && sign_settings.spec_should_sign(&commit)),
        request.commit@ == (CommitView { secure_sig: None, ..commit@ }),
{
    let should_sign: bool = can_sign && sign_settings.should_sign(&commit);
    let mut commit = commit;
    // The backend does not use the signature for writing, but the test
    // above wants to know if a signed commit is rewritten.
    commit.secure_sig = None;
    StoreWrite { commit, should_sign }
}

impl DetachedCommitBuilder {
    /// The builder of a new commit: of the user, at the time of the
    /// settings, without description or predecessors, and with the given
    /// change id, which the caller has drawn.
    pub fn for_new_commit(
        settings: &UserSettings,
        parents: Vec<CommitId>,
        tree_id: MergedTreeId,
        change_id: ChangeId,
    ) -> (builder: Self)
        requires
            parents.len() > 0,
        ensures
            builder.commit.parents == parents,
            builder.commit.predecessors@.len() == 0,
            builder.commit.root_tree == tree_id,
            builder.commit.change_id == change_id,
            builder.commit.description@.len() == 0,
            builder.commit.author.name@ == settings.user_name@,
            builder.commit.author.email@ == settings.user_email@,
            builder.commit.author.timestamp == settings.commit_timestamp,
            builder.commit.committer == builder.commit.author,
            builder.commit.secure_sig.is_none(),
            builder.rewrite_source.is_none(),
            builder.sign_settings.behavior == settings.sign_settings.behavior,
            builder.sign_settings.key == settings.sign_settings.key,
    {
        let signature: Signature = settings.signature();
        let commit = backend::Commit {
            parents,
            predecessors: Vec::new(),
            root_tree: tree_id,
            change_id,
            description: String::new(),
            author: signature.duplicate(),
            committer: signature,
            secure_sig: None,
        };
        DetachedCommitBuilder {
            commit,
            rewrite_source: None,
            sign_settings: settings.sign_settings(),
        }
    }

    /// Whether a name or an address is missing: empty, or the placeholder.
    pub open spec fn is_missing(text: Seq<char>, placeholder: Seq<char>) -> bool {
        text.len() == 0 || text == placeholder
    }

    /// The author of a rewritten commit: the predecessor's author, with a
    /// missing name or address taken from the committer, and with the
    /// committer's time if the author is the committer and the predecessor
    /// can be discarded.
    pub open spec fn rewritten_author(
        author: Signature,
        committer: Signature,
        discardable: bool,
    ) -> Signature {
        let name = if Self::is_missing(author.name@, USER_NAME_PLACEHOLDER@) {
            committer.name
        } else {
            author.name
        };
        let email = if Self::is_missing(author.email@, USER_EMAIL_PLACEHOLDER@) {
            committer.email
        } else {
            author.email
        };
        let timestamp = if name@ == committer.name@ && email@ == committer.email@ && discardable {
            committer.timestamp
        } else {
            author.timestamp
        };
        Signature { name, email, timestamp }
    }

    /// The builder of a commit that rewrites `predecessor`: the
    /// predecessor's data with the predecessor for its one predecessor and
    /// the user for its committer. `predecessor_discardable` says whether the
    /// predecessor has no description and changes nothing.
    pub fn for_rewrite_from(
        settings: &UserSettings,
        predecessor: &Commit,
        predecessor_discardable: bool,
    ) -> (builder: Self)
        ensures
            builder.commit@.parents == predecessor.data@.parents,
            builder.commit@.predecessors == seq![predecessor.id@],
            builder.commit@.root_tree == predecessor.data@.root_tree,
            builder.commit@.change_id == predecessor.data@.change_id,
            builder.commit@.description == predecessor.data@.description,
            builder.commit@.secure_sig == predecessor.data@.secure_sig,
            builder.commit.committer.name@ == settings.user_name@,
            builder.commit.committer.email@ == settings.user_email@,
            builder.commit.committer.timestamp == settings.commit_timestamp,
            builder.commit.author.name@ == Self::rewritten_author(
                predecessor.data.author,
                builder.commit.committer,
                predecessor_discardable,
            ).name@,
            builder.commit.author.email@ == Self::rewritten_author(
                predecessor.data.author,
                builder.commit.committer,
                predecessor_discardable,
            ).email@,
            builder.commit.author.timestamp == Self::rewritten_author(
                predecessor.data.author,
                builder.commit.committer,
                predecessor_discardable,
            ).timestamp,
            builder.rewrite_source.is_some(),
            builder.rewrite_source.unwrap().id@ == predecessor.id@,
            builder.rewrite_source.unwrap().data@ == predecessor.data@,
            builder.sign_settings.behavior == settings.sign_settings.behavior,
            builder.sign_settings.key == settings.sign_settings.key,
    {
        let mut commit: backend::Commit = predecessor.store_commit().duplicate();
        let mut predecessors: Vec<CommitId> = Vec::new();
        predecessors.push(predecessor.id().clone());
        proof {
            assert(ids_view(predecessors@) =~= seq![predecessor.id@]);
        }
        commit.predecessors = predecessors;
        commit.committer = settings.signature();
        // If the user had not configured a name and email before but now
        // they have, update the author fields with the new information.
        if commit.author.name.as_str().is_empty() || is_text(
            &commit.author.name,
            USER_NAME_PLACEHOLDER,
        ) {
            commit.author.name = commit.committer.name.clone();
        }
        if commit.author.email.as_str().is_empty() || is_text(
            &commit.author.email,
            USER_EMAIL_PLACEHOLDER,
        ) {
            commit.author.email = commit.committer.email.clone();
        }
        // Reset author timestamp on discardable commits if the author is the
        // committer.
        if commit.author.name == commit.committer.name && commit.author.email
            == commit.committer.email && predecessor_discardable {
            commit.author.timestamp = commit.committer.timestamp;
        }
        DetachedCommitBuilder {
            commit,
            rewrite_source: Some(predecessor.duplicate()),
            sign_settings: settings.sign_settings(),
        }
    }

    /// Attaches the underlying `mut_repo`.
    pub fn attach(self, mut_repo: &mut MutableRepo) -> (builder: CommitBuilder<'_>)
        ensures
            builder.inner == self,
            *builder.mut_repo == *old(mut_repo),
            *final(mut_repo) == *final(builder.mut_repo),
    {
        CommitBuilder { mut_repo, inner: self }
    }
}

/// What is reported where a commit is made that exists already.
pub open spec fn already_exists_message(id: Seq<u8>) -> Seq<char> {
    "Newly-created commit "@ + spec_hex_chars(id) + " already exists"@
}

/// Whether writing `commit` with the builder rewrites the builder's source:
/// whether there is a source, of the same change as the commit.
pub open spec fn rewrites_source(builder: DetachedCommitBuilder, change_id: Seq<u8>) -> bool {
    builder.rewrite_source.is_some() && builder.rewrite_source.unwrap().data.change_id@
        == change_id
}

/// What a commit that was written with the builder asks of the repository.
pub open spec fn written_actions(builder: DetachedCommitBuilder, commit: Commit) -> Seq<
    RepoActionView,
> {
    seq![
        RepoActionView::AddHead(commit.id@, commit.data@),
        RepoActionView::SetPredecessors(commit.id@, builder.commit@.predecessors),
    ] + if rewrites_source(builder, commit.data.change_id@) {
        seq![RepoActionView::SetRewrittenCommit(builder.rewrite_source.unwrap().id@, commit.id@)]
    } else {
        Seq::empty()
    }
}

/// The commit is refused: the index holds a commit of this identifier
/// already.
pub open spec fn is_refused(repo: RepoView, id: Seq<u8>) -> bool {
    repo.indexed.contains(id)
}

impl DetachedCommitBuilder {
    pub fn parents(&self) -> (parents: &[CommitId])
        ensures
            parents@ == self.commit.parents@,
    {
        self.commit.parents.as_slice()
    }

    pub fn set_parents(&mut self, parents: Vec<CommitId>) -> (ret: &mut Self)
        requires
            parents.len() > 0,
        ensures
            *ret == (DetachedCommitBuilder {
                commit: backend::Commit { parents, ..old(self).commit },
                ..*old(self)
            }),
            *final(self) == *final(ret),
    {
        self.commit.parents = parents;
        self
    }

    pub fn predecessors(&self) -> (predecessors: &[CommitId])
        ensures
            predecessors@ == self.commit.predecessors@,
    {
        self.commit.predecessors.as_slice()
    }

    pub fn set_predecessors(&mut self, predecessors: Vec<CommitId>) -> (ret: &mut Self)
        ensures
            *ret == (DetachedCommitBuilder {
                commit: backend::Commit { predecessors, ..old(self).commit },
                ..*old(self)
            }),
            *final(self) == *final(ret),
    {
        self.commit.predecessors = predecessors;
        self
    }

    pub fn tree_id(&self) -> (tree_id: &MergedTreeId)
        ensures
            *tree_id == self.commit.root_tree,
    {
        &self.commit.root_tree
    }

    pub fn set_tree_id(&mut self, tree_id: MergedTreeId) -> (ret: &mut Self)
        ensures
            *ret == (DetachedCommitBuilder {
                commit: backend::Commit { root_tree: tree_id, ..old(self).commit },
                ..*old(self)
            }),
            *final(self) == *final(ret),
    {
        self.commit.root_tree = tree_id;
        self
    }

    /// Whether the new commit changes nothing: whether its tree is the tree
    /// of its parents, merged. `parent_tree` is that tree as the repository
    /// gave it, or why it gave none.
    pub fn is_empty(&self, parent_tree: BackendResult<MergedTreeId>) -> (empty: BackendResult<bool>)
        ensures
            match parent_tree {
                Ok(tree_id) => empty == Ok::<bool, BackendError>(
                    self.commit.root_tree@ == tree_id@,
                ),
                Err(e) => empty == Err::<bool, BackendError>(e),
            },
    {
        match parent_tree {
            Ok(tree_id) => Ok(self.commit.root_tree.same(&tree_id)),
            Err(e) => Err(e),
        }
    }

    pub fn change_id(&self) -> (change_id: &ChangeId)
        ensures
            *change_id == self.commit.change_id,
    {
        &self.commit.change_id
    }

    pub fn set_change_id(&mut self, change_id: ChangeId) -> (ret: &mut Self)
        ensures
            *ret == (DetachedCommitBuilder {
                commit: backend::Commit { change_id, ..old(self).commit },
                ..*old(self)
            }),
            *final(self) == *final(ret),
    {
        self.commit.change_id = change_id;
        self
    }

    /// Gives the commit a change id of its own: `change_id`, which the
    /// caller has drawn at random.
    pub fn generate_new_change_id(&mut self, change_id: ChangeId) -> (ret: &mut Self)
        ensures
            *ret == (DetachedCommitBuilder {
                commit: backend::Commit { change_id, ..old(self).commit },
                ..*old(self)
            }),
            *final(self) == *final(ret),
    {
        self.commit.change_id = change_id;
        self
    }

    pub fn description(&self) -> (description: &str)
        ensures
            description@ == self.commit.description@,
    {
        self.commit.description.as_str()
    }

    pub fn set_description(&mut self, description: String) -> (ret: &mut Self)
        ensures
            *ret == (DetachedCommitBuilder {
                commit: backend::Commit { description, ..old(self).commit },
                ..*old(self)
            }),
            *final(self) == *final(ret),
    {
        self.commit.description = description;
        self
    }

    pub fn author(&self) -> (author: &Signature)
        ensures
            *author == self.commit.author,
    {
        &self.commit.author
    }

    pub fn set_author(&mut self, author: Signature) -> (ret: &mut Self)
        ensures
            *ret == (DetachedCommitBuilder {
                commit: backend::Commit { author, ..old(self).commit },
                ..*old(self)
            }),
            *final(self) == *final(ret),
    {
        self.commit.author = author;
        self
    }

    pub fn committer(&self) -> (committer: &Signature)
        ensures
            *committer == self.commit.committer,
    {
        &self.commit.committer
    }

    pub fn set_committer(&mut self, committer: Signature) -> (ret: &mut Self)
        ensures
            *ret == (DetachedCommitBuilder {
                commit: backend::Commit { committer, ..old(self).commit },
                ..*old(self)
            }),
            *final(self) == *final(ret),
    {
        self.commit.committer = committer;
        self
    }

    /// Whether the new commit can be discarded: whether it has no
    /// description and changes nothing. The repository is not asked for the
    /// tree of the parents where there is a description.
    pub fn is_discardable(&self, parent_tree: BackendResult<MergedTreeId>) -> (discardable:
        BackendResult<bool>)
        ensures
            self.commit.description@.len() > 0 ==> discardable == Ok::<bool, BackendError>(false),
            self.commit.description@.len() == 0 ==> match parent_tree {
                Ok(tree_id) => discardable == Ok::<bool, BackendError>(
                    self.commit.root_tree@ == tree_id@,
                ),
                Err(e) => discardable == Err::<bool, BackendError>(e),
            },
    {
        if !self.commit.description.as_str().is_empty() {
            return Ok(false);
        }
        self.is_empty(parent_tree)
    }

    pub fn sign_settings(&self) -> (settings: &SignSettings)
        ensures
            *settings == self.sign_settings,
    {
        &self.sign_settings
    }

    pub fn set_sign_behavior(&mut self, sign_behavior: SignBehavior) -> (ret: &mut Self)
        ensures
            *ret == (DetachedCommitBuilder {
                sign_settings: SignSettings { behavior: sign_behavior, ..old(self).sign_settings },
                ..*old(self)
            }),
            *final(self) == *final(ret),
    {
        self.sign_settings.behavior = sign_behavior;
        self
    }

    pub fn set_sign_key(&mut self, sign_key: String) -> (ret: &mut Self)
        ensures
            *ret == (DetachedCommitBuilder {
                sign_settings: SignSettings { key: Some(sign_key), ..old(self).sign_settings },
                ..*old(self)
            }),
            *final(self) == *final(ret),
    {
        self.sign_settings.key = Some(sign_key);
        self
    }

    pub fn clear_sign_key(&mut self) -> (ret: &mut Self)
        ensures
            *ret == (DetachedCommitBuilder {
                sign_settings: SignSettings { key: None, ..old(self).sign_settings },
                ..*old(self)
            }),
            *final(self) == *final(ret),
    {
        self.sign_settings.key = None;
        self
    }

    /// Makes the commit that the store has written visible in `mut_repo`.
    /// `written` is what the store answered to the request of
    /// `write_hidden`: the commit, or why there is none.
    ///
    /// A commit that the index holds already is refused: to record it as
    /// new would make a cycle among predecessors.
    pub fn write(self, mut_repo: &mut MutableRepo, written: BackendResult<Commit>) -> (result:
        BackendResult<Commit>)
        ensures
            match written {
                Err(e) => result == Err::<Commit, BackendError>(e) && *final(mut_repo) == *old(
                    mut_repo,
                ),
                Ok(commit) => if is_refused(old(mut_repo)@, commit.id@) {
                    &&& *final(mut_repo) == *old(mut_repo)
                    &&& result matches Err(BackendError::Other(message))
                    &&& message@ == already_exists_message(commit.id@)
                } else {
                    &&& result == Ok::<Commit, BackendError>(commit)
                    &&& final(mut_repo)@ == (RepoView {
                        indexed: old(mut_repo)@.indexed.push(commit.id@),
                        actions: old(mut_repo)@.actions + written_actions(self, commit),
                        ..old(mut_repo)@
                    })
                },
            },
    {
        let commit: Commit = match written {
            Ok(commit) => commit,
            Err(e) => {
                return Err(e);
            },
        };
        if mut_repo.has_id(commit.id()) {
            // Recording existing commit as new would create cycle in
            // predecessors/parent mappings within the current transaction,
            // and in predecessors graph globally.
            let mut message: String = String::from_str("Newly-created commit ");
            let hex: String = commit.id().hex();
            message.append(hex.as_str());
            message.append(" already exists");
            return Err(BackendError::Other(message));
        }
        let ghost start = mut_repo@;
        mut_repo.add_head(&commit);
        mut_repo.set_predecessors(commit.id().clone(), self.commit.predecessors);
        let mut rewritten: bool = false;
        match self.rewrite_source {
            Some(rewrite_source) => {
                if *rewrite_source.change_id() == *commit.change_id() {
                    mut_repo.set_rewritten_commit(rewrite_source.id, commit.id().clone());
                    rewritten = true;
                }
            },
            None => {},
        }
        proof {
            assert(rewritten == rewrites_source(self, commit.data.change_id@));
            assert(mut_repo@.actions =~= start.actions + written_actions(self, commit));
        }
        Ok(commit)
    }

    /// What is handed to the store to write the commit, without making it
    /// visible in the repository. The builder stays, so that another commit
    /// can be made of it.
    pub fn write_hidden(&self, can_sign: bool) -> (request: StoreWrite)
        ensures
            request.should_sign == (can_sign && self.sign_settings.spec_should_sign(&self.commit)),
            request.commit@ == (CommitView { secure_sig: None, ..self.commit@ }),
    {
        let copy: backend::Commit = self.commit.duplicate();
        proof {
            assert(self.sign_settings.spec_should_sign(&copy) == self.sign_settings.spec_should_sign(
                &self.commit,
            )) by {
                assert(copy@ == self.commit@);
                assert(copy.author.email@ == self.commit.author.email@);
            }
        }
        write_to_store(can_sign, copy, &self.sign_settings)
    }

    /// Records the old commit as abandoned in the `mut_repo`.
    ///
    /// This is noop if there's no old commit that would be rewritten to the
    /// new commit by `write()`.
    pub fn abandon(self, mut_repo: &mut MutableRepo)
        ensures
            final(mut_repo)@ == if rewrites_source(self, self.commit.change_id@) {
                RepoView {
                    actions: old(mut_repo)@.actions.push(
                        RepoActionView::RecordAbandonedCommitWithParents(
                            self.rewrite_source.unwrap().id@,
                            self.commit@.parents,
                        ),
                    ),
                    ..old(mut_repo)@
                }
            } else {
                old(mut_repo)@
            },
    {
        let commit: backend::Commit = self.commit;
        match self.rewrite_source {
            Some(rewrite_source) => {
                if *rewrite_source.change_id() == commit.change_id {
                    mut_repo.record_abandoned_commit_with_parents(
                        rewrite_source.id,
                        commit.parents,
                    );
                }
            },
            None => {},
        }
    }
}

impl<'repo> CommitBuilder<'repo> {
    /// Detaches from `&'repo mut` lifetime. The returned builder can be used
    /// in order to obtain a temporary commit object.
    pub fn detach(self) -> (builder: DetachedCommitBuilder)
        ensures
            builder == self.inner,
            *final(self.mut_repo) == *old(self.mut_repo),
    {
        self.inner
    }

    pub fn parents(&self) -> (parents: &[CommitId])
        ensures
            parents@ == self.inner.commit.parents@,
    {
        self.inner.parents()
    }

    pub fn predecessors(&self) -> (predecessors: &[CommitId])
        ensures
            predecessors@ == self.inner.commit.predecessors@,
    {
        self.inner.predecessors()
    }

    pub fn tree_id(&self) -> (tree_id: &MergedTreeId)
        ensures
            *tree_id == self.inner.commit.root_tree,
    {
        self.inner.tree_id()
    }

    pub fn change_id(&self) -> (change_id: &ChangeId)
        ensures
            *change_id == self.inner.commit.change_id,
    {
        self.inner.change_id()
    }

    pub fn description(&self) -> (description: &str)
        ensures
            description@ == self.inner.commit.description@,
    {
        self.inner.description()
    }

    pub fn author(&self) -> (author: &Signature)
        ensures
            *author == self.inner.commit.author,
    {
        self.inner.author()
    }

    pub fn committer(&self) -> (committer: &Signature)
        ensures
            *committer == self.inner.commit.committer,
    {
        self.inner.committer()
    }

    pub fn sign_settings(&self) -> (settings: &SignSettings)
        ensures
            *settings == self.inner.sign_settings,
    {
        self.inner.sign_settings()
    }

    pub fn set_parents(self, parents: Vec<CommitId>) -> (builder: Self)
        requires
            parents.len() > 0,
        ensures
            builder.inner == (DetachedCommitBuilder {
                commit: backend::Commit { parents, ..self.inner.commit },
                ..self.inner
            }),
            builder.mut_repo == self.mut_repo,
    {
        let mut builder = self;
        builder.inner.set_parents(parents);
        builder
    }

    pub fn set_predecessors(self, predecessors: Vec<CommitId>) -> (builder: Self)
        ensures
            builder.inner == (DetachedCommitBuilder {
                commit: backend::Commit { predecessors, ..self.inner.commit },
                ..self.inner
            }),
            builder.mut_repo == self.mut_repo,
    {
        let mut builder = self;
        builder.inner.set_predecessors(predecessors);
        builder
    }

    pub fn set_tree_id(self, tree_id: MergedTreeId) -> (builder: Self)
        ensures
            builder.inner == (DetachedCommitBuilder {
                commit: backend::Commit { root_tree: tree_id, ..self.inner.commit },
                ..self.inner
            }),
            builder.mut_repo == self.mut_repo,
    {
        let mut builder = self;
        builder.inner.set_tree_id(tree_id);
        builder
    }

    pub fn set_change_id(self, change_id: ChangeId) -> (builder: Self)
        ensures
            builder.inner == (DetachedCommitBuilder {
                commit: backend::Commit { change_id, ..self.inner.commit },
                ..self.inner
            }),
            builder.mut_repo == self.mut_repo,
    {
        let mut builder = self;
        builder.inner.set_change_id(change_id);
        builder
    }

    /// Gives the commit a change id of its own: `change_id`, which the
    /// caller has drawn at random.
    pub fn generate_new_change_id(self, change_id: ChangeId) -> (builder: Self)
        ensures
            builder.inner == (DetachedCommitBuilder {
                commit: backend::Commit { change_id, ..self.inner.commit },
                ..self.inner
            }),
            builder.mut_repo == self.mut_repo,
    {
        let mut builder = self;
        builder.inner.generate_new_change_id(change_id);
        builder
    }

    pub fn set_description(self, description: String) -> (builder: Self)
        ensures
            builder.inner == (DetachedCommitBuilder {
                commit: backend::Commit { description, ..self.inner.commit },
                ..self.inner
            }),
            builder.mut_repo == self.mut_repo,
    {
        let mut builder = self;
        builder.inner.set_description(description);
        builder
    }

    pub fn set_author(self, author: Signature) -> (builder: Self)
        ensures
            builder.inner == (DetachedCommitBuilder {
                commit: backend::Commit { author, ..self.inner.commit },
                ..self.inner
            }),
            builder.mut_repo == self.mut_repo,
    {
        let mut builder = self;
        builder.inner.set_author(author);
        builder
    }

    pub fn set_committer(self, committer: Signature) -> (builder: Self)
        ensures
            builder.inner == (DetachedCommitBuilder {
                commit: backend::Commit { committer, ..self.inner.commit },
                ..self.inner
            }),
            builder.mut_repo == self.mut_repo,
    {
        let mut builder = self;
        builder.inner.set_committer(committer);
        builder
    }

    pub fn set_sign_behavior(self, sign_behavior: SignBehavior) -> (builder: Self)
        ensures
            builder.inner == (DetachedCommitBuilder {
                sign_settings: SignSettings { behavior: sign_behavior, ..self.inner.sign_settings },
                ..self.inner
            }),
            builder.mut_repo == self.mut_repo,
    {
        let mut builder = self;
        builder.inner.set_sign_behavior(sign_behavior);
        builder
    }

    pub fn set_sign_key(self, sign_key: String) -> (builder: Self)
        ensures
            builder.inner == (DetachedCommitBuilder {
                sign_settings: SignSettings { key: Some(sign_key), ..self.inner.sign_settings },
                ..self.inner
            }),
            builder.mut_repo == self.mut_repo,
    {
        let mut builder = self;
        builder.inner.set_sign_key(sign_key);
        builder
    }

    pub fn clear_sign_key(self) -> (builder: Self)
        ensures
            builder.inner == (DetachedCommitBuilder {
                sign_settings: SignSettings { key: None, ..self.inner.sign_settings },
                ..self.inner
            }),
            builder.mut_repo == self.mut_repo,
    {
        let mut builder = self;
        builder.inner.clear_sign_key();
        builder
    }

    /// Whether the new commit changes nothing: see
    /// `DetachedCommitBuilder::is_empty`.
    pub fn is_empty(&self, parent_tree: BackendResult<MergedTreeId>) -> (empty: BackendResult<bool>)
        ensures
            match parent_tree {
                Ok(tree_id) => empty == Ok::<bool, BackendError>(
                    self.inner.commit.root_tree@ == tree_id@,
                ),
                Err(e) => empty == Err::<bool, BackendError>(e),
            },
    {
        self.inner.is_empty(parent_tree)
    }

    /// Whether the new commit can be discarded: see
    /// `DetachedCommitBuilder::is_discardable`.
    pub fn is_discardable(&self, parent_tree: BackendResult<MergedTreeId>) -> (discardable:
        BackendResult<bool>)
        ensures
            self.inner.commit.description@.len() > 0 ==> discardable == Ok::<bool, BackendError>(
                false,
            ),
            self.inner.commit.description@.len() == 0 ==> match parent_tree {
                Ok(tree_id) => discardable == Ok::<bool, BackendError>(
                    self.inner.commit.root_tree@ == tree_id@,
                ),
                Err(e) => discardable == Err::<bool, BackendError>(e),
            },
    {
        self.inner.is_discardable(parent_tree)
    }

    /// Makes the commit that the store has written visible in the
    /// repository: see `DetachedCommitBuilder::write`.
    pub fn write(self, written: BackendResult<Commit>) -> (result: BackendResult<Commit>)
        ensures
            match written {
                Err(e) => result == Err::<Commit, BackendError>(e) && *final(self.mut_repo)
                    == *old(self.mut_repo),
                Ok(commit) => if is_refused(old(self.mut_repo)@, commit.id@) {
                    &&& *final(self.mut_repo) == *old(self.mut_repo)
                    &&& result matches Err(BackendError::Other(message))
                    &&& message@ == already_exists_message(commit.id@)
                } else {
                    &&& result == Ok::<Commit, BackendError>(commit)
                    &&& final(self.mut_repo)@ == (RepoView {
                        indexed: old(self.mut_repo)@.indexed.push(commit.id@),
                        actions: old(self.mut_repo)@.actions + written_actions(self.inner, commit),
                        ..old(self.mut_repo)@
                    })
                },
            },
    {
        self.inner.write(self.mut_repo, written)
    }

    /// Records the old commit as abandoned instead of writing new commit.
    /// This is noop for the builder of a new commit.
    pub fn abandon(self)
        ensures
            final(self.mut_repo)@ == if rewrites_source(self.inner, self.inner.commit.change_id@) {
                RepoView {
                    actions: old(self.mut_repo)@.actions.push(
                        RepoActionView::RecordAbandonedCommitWithParents(
                            self.inner.rewrite_source.unwrap().id@,
                            self.inner.commit@.parents,
                        ),
                    ),
                    ..old(self.mut_repo)@
                }
            } else {
                old(self.mut_repo)@
            },
    {
        self.inner.abandon(self.mut_repo);
    }
}

} // verus!
