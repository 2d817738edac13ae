//! The repository core: the head reference, the state of a repository, and
//! how a failure to open one is reported.
use vstd::prelude::*;
use vstd::utf8::{decode_utf8, valid_utf8};

use crate::error::{git2_error_matches, git_error_from_git2, Git2ErrorClass, GitError};
use crate::models::RepositoryState;

verus! {

/// A reference returned by `head()`, without any type of the Git library.
#[derive(Debug, Clone)]
pub struct GitReference {
    /// The full reference name, e.g. "refs/heads/main".
    pub name: Option<String>,
    /// The short human-readable name, e.g. "main".
    pub shorthand: Option<String>,
    /// The OID (SHA-1) the reference points to, if it can be resolved.
    pub target: Option<String>,
    /// Whether this reference is a branch.
    pub is_branch: bool,
    /// Whether this reference is a tag.
    pub is_tag: bool,
}

/// The states the Git library reports a repository in.
#[derive(Debug, Clone, Copy, PartialEq, Eq)]
pub enum LibRepositoryState {
    Clean,
    Merge,
    Revert,
    RevertSequence,
    CherryPick,
    CherryPickSequence,
    Bisect,
    Rebase,
    RebaseInteractive,
    RebaseMerge,
    ApplyMailbox,
    ApplyMailboxOrRebase,
}

/// The state shown for a repository: a rebase of any kind is a rebase at no
/// known step; apply and bisect states count as clean.
pub open spec fn spec_repository_state(s: LibRepositoryState) -> RepositoryState {
    match s {
        LibRepositoryState::Merge => RepositoryState::Merging,
        LibRepositoryState::Rebase | LibRepositoryState::RebaseInteractive | LibRepositoryState::RebaseMerge => {
            RepositoryState::Rebasing { current: 0, total: 0 }
        },
        LibRepositoryState::CherryPick | LibRepositoryState::CherryPickSequence => RepositoryState::CherryPicking,
        LibRepositoryState::Revert | LibRepositoryState::RevertSequence => RepositoryState::Reverting,
        _ => RepositoryState::Clean,
    }
}

/// The current repository state mapped to our domain enum.
pub fn repository_state(s: LibRepositoryState) -> (r: RepositoryState)
    ensures
        r == spec_repository_state(s),
{
    match s {
        LibRepositoryState::Merge => RepositoryState::Merging,
        LibRepositoryState::Rebase | LibRepositoryState::RebaseInteractive | LibRepositoryState::RebaseMerge => {
            RepositoryState::Rebasing { current: 0, total: 0 }
        },
        LibRepositoryState::CherryPick | LibRepositoryState::CherryPickSequence => RepositoryState::CherryPicking,
        LibRepositoryState::Revert | LibRepositoryState::RevertSequence => RepositoryState::Reverting,
        _ => RepositoryState::Clean,
    }
}

/// The error for a repository that could not be opened at `path`: a
/// repository failure means the path is not a repository; any other failure
/// is converted as usual.
pub fn open_error(class: Git2ErrorClass, message: &str, path: String) -> (e: GitError)
    ensures
        class is Repository ==> e == (GitError::NotARepository { path }),
        !(class is Repository) ==> git2_error_matches(class, message@, e),
{
    match class {
        Git2ErrorClass::Repository => GitError::NotARepository { path },
        _ => git_error_from_git2(class, message),
    }
}

/// Calls `String::from_utf8`: the text of `b` when it is valid UTF-8, else nothing.
#[verifier::external_body]
fn utf8_string(b: Vec<u8>) -> (r: Option<String>)
    ensures
        r is Some <==> valid_utf8(b@),
        r matches Some(s) ==> s@ == decode_utf8(b@),
{
    String::from_utf8(b).ok()
}

/// The path a conflicted index entry is reported under: the path of our side
/// if there is one, else that of their side, as text; nothing when the path
/// chosen is not valid UTF-8 or neither side is there.
pub fn conflict_path(ours: Option<Vec<u8>>, theirs: Option<Vec<u8>>) -> (r: Option<String>)
    ensures
        ({
            let chosen = if ours is Some {
                ours
            } else {
                theirs
            };
            match chosen {
                Some(p) => (r is Some <==> valid_utf8(p@)) && (r matches Some(s) ==> s@ == decode_utf8(p@)),
                None => r is None,
            }
        }),
{
    let chosen = match ours {
        Some(p) => Some(p),
        None => theirs,
    };
    match chosen {
        Some(p) => utf8_string(p),
        None => None,
    }
}

// ---------------------------------------------------------------------------
// Commit ids
// ---------------------------------------------------------------------------

/// The value of a hexadecimal digit (either case), or -1 for any other character.
pub open spec fn hex_value(c: char) -> int {
    let n = c as u32 as int;
    if 48 <= n <= 57 {
        n - 48
    } else if 97 <= n <= 102 {
        n - 87
    } else if 65 <= n <= 70 {
        n - 55
    } else {
        -1
    }
}

/// A commit id as text: one to forty hexadecimal digits.
pub open spec fn oid_text_ok(s: Seq<char>) -> bool {
    &&& 0 < s.len() <= 40
    &&& forall|i: int| 0 <= i < s.len() ==> hex_value(#[trigger] s[i]) >= 0
}

/// Digit `p` of an id, a missing digit counting as zero.
pub open spec fn hex_digit_at(s: Seq<char>, p: int) -> int {
    if p < s.len() {
        hex_value(s[p])
    } else {
        0
    }
}

/// The twenty bytes of the object id written as `s`: byte `k` is made of
/// digits `2k` and `2k + 1`, high digit first; a shorter id is padded with zeros.
pub open spec fn oid_of(s: Seq<char>) -> Seq<u8> {
    Seq::new(20, |k: int| (hex_digit_at(s, 2 * k) * 16 + hex_digit_at(s, 2 * k + 1)) as u8)
}

/// Calls `git2::Oid::from_str` and hands out the id's bytes. By the crate's
/// documentation and libgit2's `git_oid__fromstrn`, it fails exactly on empty
/// text, on more than forty characters and on a character that is not a
/// hexadecimal digit, and otherwise writes the digits into twenty zeroed bytes,
/// high digit first. The failure's message is libgit2's and is left unsaid.
#[verifier::external_body]
pub(crate) fn oid_bytes(id: &str) -> (r: Result<Vec<u8>, String>)
    ensures
        r is Ok <==> oid_text_ok(id@),
        r matches Ok(b) ==> b@ == oid_of(id@),
{
    match git2::Oid::from_str(id) {
        Ok(oid) => Ok(oid.as_bytes().to_vec()),
        Err(e) => Err(e.message().to_owned()),
    }
}

/// The object id a user gives for a commit, as its twenty bytes; text that is
/// not an id is an invalid argument naming it.
pub fn parse_commit_id(id: &str) -> (r: Result<Vec<u8>, GitError>)
    ensures
        r is Ok <==> oid_text_ok(id@),
        r matches Ok(b) ==> b@ == oid_of(id@),
        r matches Err(e) ==> e matches GitError::InvalidArgument(m) && m@ == "Invalid commit id: "@ + id@,
{
    match oid_bytes(id) {
        Ok(b) => Ok(b),
        Err(_) => {
            let mut m = "Invalid commit id: ".to_owned();
            m.append(id);
            Err(GitError::InvalidArgument(m))
        },
    }
}

} // verus!
