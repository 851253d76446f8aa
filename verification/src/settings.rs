//! What the user has configured for new commits.

use crate::backend::Commit;
use crate::backend::Signature;
use crate::backend::Timestamp;
use vstd::prelude::*;
use vstd::string::*;

verus! {

/// When commits are signed.
#[derive(Clone, Copy, Debug, PartialEq, Eq, Structural)]
pub enum SignBehavior {
    /// Drop existing signatures.
    Drop,
    /// Keep existing signatures of commits that the user wrote.
    Keep,
    /// Sign commits that the user wrote.
    Own,
    /// Sign every commit.
    Force,
}

/// How commits are signed.
#[derive(Debug, PartialEq, Eq)]
pub struct SignSettings {
    pub behavior: SignBehavior,
    pub user_email: String,
    pub key: Option<String>,
}

/// The name written where the user has configured none.
pub const USER_NAME_PLACEHOLDER: &'static str = "(no name configured)";

/// The address written where the user has configured none.
pub const USER_EMAIL_PLACEHOLDER: &'static str = "(no email configured)";

/// Whether a string holds the given text.
pub fn is_text(s: &String, text: &str) -> (r: bool)
    ensures
        r == (s@ == text@),
{
    let other: String = String::from_str(text);
    *s == other
}

impl SignSettings {
    /// Whether a commit is signed: never where signatures are dropped,
    /// always where they are forced; else if the user is its author, and,
    /// where signatures are only kept, if it is signed already.
    pub open spec fn spec_should_sign(&self, commit: &Commit) -> bool {
        match self.behavior {
            SignBehavior::Drop => false,
            SignBehavior::Keep => commit.secure_sig.is_some() && commit.author.email@
                == self.user_email@,
            SignBehavior::Own => commit.author.email@ == self.user_email@,
            SignBehavior::Force => true,
        }
    }

    /// Whether the commit is to be signed.
    pub fn should_sign(&self, commit: &Commit) -> (r: bool)
        ensures
            r == self.spec_should_sign(commit),
    {
        match self.behavior {
            SignBehavior::Drop => false,
            SignBehavior::Keep => commit.secure_sig.is_some() && commit.author.email
                == self.user_email,
            SignBehavior::Own => commit.author.email == self.user_email,
            SignBehavior::Force => true,
        }
    }

    /// A copy of the settings.
    pub fn duplicate(&self) -> (copy: Self)
        ensures
            copy.behavior == self.behavior,
            copy.user_email@ == self.user_email@,
            copy.key == self.key,
    {
        SignSettings {
            behavior: self.behavior,
            user_email: self.user_email.clone(),
            key: match &self.key {
                Some(key) => Some(key.clone()),
                None => None,
            },
        }
    }
}

/// The user's settings, as far as commits need them.
#[derive(Debug)]
pub struct UserSettings {
    pub user_name: String,
    pub user_email: String,
    /// The time that new signatures bear.
    pub commit_timestamp: Timestamp,
    pub sign_settings: SignSettings,
}

impl UserSettings {
    /// The signature of the user at the time of the settings.
    pub fn signature(&self) -> (signature: Signature)
        ensures
            signature.name@ == self.user_name@,
            signature.email@ == self.user_email@,
            signature.timestamp == self.commit_timestamp,
    {
        Signature {
            name: self.user_name.clone(),
            email: self.user_email.clone(),
            timestamp: self.commit_timestamp,
        }
    }

    /// How the user wants commits signed.
    pub fn sign_settings(&self) -> (settings: SignSettings)
        ensures
            settings.behavior == self.sign_settings.behavior,
            settings.user_email@ == self.sign_settings.user_email@,
            settings.key == self.sign_settings.key,
    {
        self.sign_settings.duplicate()
    }
}

} // verus!
