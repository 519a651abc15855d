//! Errors that the bridge reports.
use vstd::prelude::*;

verus! {

/// An error of a bridge command.
#[derive(Debug)]
pub enum CliError {
    /// A Git-side failure or refusal.
    GitError { message: String },
    /// A repository-side refusal.
    InvalidOperation { message: String },
    /// The named view does not exist.
    ViewNotFound { name: String },
    /// A failure of the bridge itself.
    Internal { message: String },
}

impl CliError {
    /// Whether this is the Git error with the message `m`.
    pub open spec fn is_git_error(&self, m: Seq<char>) -> bool {
        self matches CliError::GitError { message } && message@ == m
    }

    /// Whether this is the refused operation with the message `m`.
    pub open spec fn is_invalid_operation(&self, m: Seq<char>) -> bool {
        self matches CliError::InvalidOperation { message } && message@ == m
    }
}

impl CliError {
    /// Whether this is the internal error with the message `m`.
    pub open spec fn is_internal(&self, m: Seq<char>) -> bool {
        self matches CliError::Internal { message } && message@ == m
    }
}

/// The internal error with this message.
pub fn internal_error(message: String) -> (r: CliError)
    ensures
        r.is_internal(message@),
{
    CliError::Internal { message }
}

/// The Git error with this message.
pub fn git_error(message: String) -> (r: CliError)
    ensures
        r.is_git_error(message@),
{
    CliError::GitError { message }
}

/// A failure, as contracts speak of it.
pub enum Failure {
    Git(Seq<char>),
    Internal(Seq<char>),
}

impl CliError {
    /// Whether this error tells of the failure `f`.
    pub open spec fn tells(&self, f: Failure) -> bool {
        match f {
            Failure::Git(m) => self.is_git_error(m),
            Failure::Internal(m) => self.is_internal(m),
        }
    }
}

} // verus!
