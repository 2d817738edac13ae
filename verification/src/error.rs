//! Error types of the Git client and their text forms.
use vstd::prelude::*;
use vstd::utf8::encode_utf8;

use crate::search_engine::{contains_bytes, contains_bytes_exec};

verus! {

/// Core error type for all Git operations.
#[derive(Debug, Clone, PartialEq)]
pub enum GitError {
    RepositoryNotFound { path: String },
    NotARepository { path: String },
    MergeConflict { files: Vec<String> },
    AuthenticationFailed,
    RemoteRejected { reason: String },
    NetworkError { message: String },
    Git2(String),
    Io(String),
    InvalidArgument(String),
}

/// The identifier of each error variant, as sent to the frontend.
pub open spec fn spec_error_type_name(e: GitError) -> Seq<char> {
    match e {
        GitError::RepositoryNotFound { .. } => "RepositoryNotFound"@,
        GitError::NotARepository { .. } => "NotARepository"@,
        GitError::MergeConflict { .. } => "MergeConflict"@,
        GitError::AuthenticationFailed => "AuthenticationFailed"@,
        GitError::RemoteRejected { .. } => "RemoteRejected"@,
        GitError::NetworkError { .. } => "NetworkError"@,
        GitError::Git2(_) => "Git2"@,
        GitError::Io(_) => "Io"@,
        GitError::InvalidArgument(_) => "InvalidArgument"@,
    }
}

/// The human-readable text of an error.
pub open spec fn spec_error_message(e: GitError) -> Seq<char> {
    match e {
        GitError::RepositoryNotFound { path } => "Repository not found: "@ + path@,
        GitError::NotARepository { path } => "Not a git repository: "@ + path@,
        GitError::MergeConflict { .. } => "Merge conflict"@,
        GitError::AuthenticationFailed => "Authentication failed"@,
        GitError::RemoteRejected { reason } => "Remote rejected: "@ + reason@,
        GitError::NetworkError { message } => "Network error: "@ + message@,
        GitError::Git2(m) => "git2 error: "@ + m@,
        GitError::Io(m) => "IO error: "@ + m@,
        GitError::InvalidArgument(m) => "Invalid argument: "@ + m@,
    }
}

/// Concatenation of a literal prefix and a string.
pub fn prefixed(prefix: &str, s: &str) -> (r: String)
    ensures
        r@ == prefix@ + s@,
{
    let mut r = prefix.to_owned();
    r.append(s);
    r
}

impl GitError {
    /// Returns a string identifier for each error variant.
    pub fn error_type_name(&self) -> (r: &'static str)
        ensures
            r@ == spec_error_type_name(*self),
    {
        match self {
            GitError::RepositoryNotFound { .. } => "RepositoryNotFound",
            GitError::NotARepository { .. } => "NotARepository",
            GitError::MergeConflict { .. } => "MergeConflict",
            GitError::AuthenticationFailed => "AuthenticationFailed",
            GitError::RemoteRejected { .. } => "RemoteRejected",
            GitError::NetworkError { .. } => "NetworkError",
            GitError::Git2(_) => "Git2",
            GitError::Io(_) => "Io",
            GitError::InvalidArgument(_) => "InvalidArgument",
        }
    }

    /// The human-readable text of the error.
    pub fn to_string(&self) -> (r: String)
        ensures
            r@ == spec_error_message(*self),
    {
        match self {
            GitError::RepositoryNotFound { path } => prefixed("Repository not found: ", path.as_str()),
            GitError::NotARepository { path } => prefixed("Not a git repository: ", path.as_str()),
            GitError::MergeConflict { .. } => "Merge conflict".to_owned(),
            GitError::AuthenticationFailed => "Authentication failed".to_owned(),
            GitError::RemoteRejected { reason } => prefixed("Remote rejected: ", reason.as_str()),
            GitError::NetworkError { message } => prefixed("Network error: ", message.as_str()),
            GitError::Git2(m) => prefixed("git2 error: ", m.as_str()),
            GitError::Io(m) => prefixed("IO error: ", m.as_str()),
            GitError::InvalidArgument(m) => prefixed("Invalid argument: ", m.as_str()),
        }
    }
}

/// Neither the identifier nor the text of an error is ever empty.
pub proof fn lemma_error_texts_nonempty(e: GitError)
    ensures
        spec_error_type_name(e).len() > 0,
        spec_error_message(e).len() > 0,
{
    reveal_strlit("RepositoryNotFound");
    reveal_strlit("NotARepository");
    reveal_strlit("MergeConflict");
    reveal_strlit("AuthenticationFailed");
    reveal_strlit("RemoteRejected");
    reveal_strlit("NetworkError");
    reveal_strlit("Git2");
    reveal_strlit("Io");
    reveal_strlit("InvalidArgument");
    reveal_strlit("Repository not found: ");
    reveal_strlit("Not a git repository: ");
    reveal_strlit("Merge conflict");
    reveal_strlit("Authentication failed");
    reveal_strlit("Remote rejected: ");
    reveal_strlit("Network error: ");
    reveal_strlit("git2 error: ");
    reveal_strlit("IO error: ");
    reveal_strlit("Invalid argument: ");
}

/// `r` is the frontend form of `e`: its variant name and its text.
pub open spec fn ipc_form_of(e: GitError, r: IpcError) -> bool {
    &&& r.error_type@ == spec_error_type_name(e)
    &&& r.message@ == spec_error_message(e)
}

/// Structured error sent from the backend to the frontend.
#[derive(Debug, Clone)]
pub struct IpcError {
    pub error_type: String,
    pub message: String,
}

impl IpcError {
    /// Converts a `GitError` into its frontend form: its variant name and its text.
    pub fn from_git_error(e: GitError) -> (r: IpcError)
        ensures
            r.error_type@ == spec_error_type_name(e),
            r.message@ == spec_error_message(e),
            r.error_type@.len() > 0,
            r.message@.len() > 0,
    {
        proof {
            lemma_error_texts_nonempty(e);
        }
        IpcError { error_type: e.error_type_name().to_owned(), message: e.to_string() }
    }

    /// The text form `[error_type] message`.
    pub fn to_string(&self) -> (r: String)
        ensures
            r@ == "["@ + self.error_type@ + "] "@ + self.message@,
    {
        let mut r = "[".to_owned();
        r.append(self.error_type.as_str());
        r.append("] ");
        r.append(self.message.as_str());
        r
    }
}

impl From<GitError> for IpcError {
    fn from(e: GitError) -> (r: Self)
        ensures
            ipc_form_of(e, r),
    {
        IpcError::from_git_error(e)
    }
}

/// The text of an error is built at run time, which no spec function can
/// produce as a `String`; `from` states its result through `ipc_form_of`.
impl vstd::std_specs::convert::FromSpecImpl<GitError> for IpcError {
    open spec fn obeys_from_spec() -> bool {
        false
    }

    open spec fn from_spec(v: GitError) -> IpcError {
        choose|r: IpcError| ipc_form_of(v, r)
    }
}

/// Every error reaches the frontend with a non-empty type and a non-empty message.
pub proof fn lemma_ipc_error_structure_preserved(e: GitError)
    ensures
        spec_error_type_name(e).len() > 0,
        spec_error_message(e).len() > 0,
{
    reveal_strlit("RepositoryNotFound");
    reveal_strlit("NotARepository");
    reveal_strlit("MergeConflict");
    reveal_strlit("AuthenticationFailed");
    reveal_strlit("RemoteRejected");
    reveal_strlit("NetworkError");
    reveal_strlit("Git2");
    reveal_strlit("Io");
    reveal_strlit("InvalidArgument");
    reveal_strlit("Repository not found: ");
    reveal_strlit("Not a git repository: ");
    reveal_strlit("Merge conflict");
    reveal_strlit("Authentication failed");
    reveal_strlit("Remote rejected: ");
    reveal_strlit("Network error: ");
    reveal_strlit("git2 error: ");
    reveal_strlit("IO error: ");
    reveal_strlit("Invalid argument: ");
}


/// The kind of failure the Git library reports.
#[derive(Debug, Clone, Copy, PartialEq, Eq)]
pub enum Git2ErrorClass {
    Net,
    Ssh,
    Repository,
    Index,
    Other,
}

/// The text mentions `word`.
pub open spec fn mentions(message: Seq<char>, word: Seq<char>) -> bool {
    contains_bytes(encode_utf8(message), encode_utf8(word))
}

/// The error a failure of the Git library becomes: a network failure keeps
/// its message; an SSH failure is an authentication failure; a repository
/// failure whose message says "not found" is a missing repository; an index
/// failure that mentions a conflict is a merge conflict; anything else keeps
/// its message as a library error.
pub open spec fn git2_error_matches(class: Git2ErrorClass, message: Seq<char>, e: GitError) -> bool {
    match class {
        Git2ErrorClass::Net => e matches GitError::NetworkError { message: m } && m@ == message,
        Git2ErrorClass::Ssh => e is AuthenticationFailed,
        Git2ErrorClass::Repository => if mentions(message, "not found"@) {
            e matches GitError::RepositoryNotFound { path } && path@ == message
        } else {
            e matches GitError::Git2(m) && m@ == message
        },
        Git2ErrorClass::Index => if mentions(message, "conflict"@) {
            e matches GitError::MergeConflict { files } && files@.len() == 0
        } else {
            e matches GitError::Git2(m) && m@ == message
        },
        Git2ErrorClass::Other => e matches GitError::Git2(m) && m@ == message,
    }
}

/// Convert a failure of the Git library, given by its class and message, into a `GitError`.
pub fn git_error_from_git2(class: Git2ErrorClass, message: &str) -> (e: GitError)
    ensures
        git2_error_matches(class, message@, e),
{
    match class {
        Git2ErrorClass::Net => GitError::NetworkError { message: message.to_owned() },
        Git2ErrorClass::Ssh => GitError::AuthenticationFailed,
        Git2ErrorClass::Repository => {
            if contains_bytes_exec(message.as_bytes(), "not found".as_bytes()) {
                GitError::RepositoryNotFound { path: message.to_owned() }
            } else {
                GitError::Git2(message.to_owned())
            }
        },
        Git2ErrorClass::Index => {
            if contains_bytes_exec(message.as_bytes(), "conflict".as_bytes()) {
                GitError::MergeConflict { files: Vec::new() }
            } else {
                GitError::Git2(message.to_owned())
            }
        },
        Git2ErrorClass::Other => GitError::Git2(message.to_owned()),
    }
}

/// Convert an I/O failure, given by its text, into a `GitError`.
pub fn git_error_from_io(message: String) -> (e: GitError)
    ensures
        e == GitError::Io(message),
{
    GitError::Io(message)
}

} // verus!
