//! Credentials for remote operations: which kind of credential to try, and
//! with which user name, on each request of the remote.
use vstd::prelude::*;

verus! {

/// Manages credential callbacks for remote operations.
/// Supports SSH key auth (ssh-agent, default key paths) and HTTPS basic auth.
pub struct CredentialManager;

/// The kinds of credential a remote accepts.
#[derive(Debug, Clone, Copy, PartialEq, Eq)]
pub struct AllowedCredentials {
    pub ssh_key: bool,
    pub user_pass_plaintext: bool,
    pub default: bool,
}

/// What to answer a credential request with.
#[derive(Debug, Clone, PartialEq, Eq)]
pub enum CredentialPlan {
    /// Give up: the request came too many times.
    TooManyAttempts,
    /// An SSH key: from the agent, else one of the default key files, in order.
    SshKey { username: String, key_names: Vec<String> },
    /// User name and password from the configured credential helper.
    CredentialHelper,
    /// The default credential.
    Default,
    /// No accepted kind is supported.
    Unsupported,
}

/// The default SSH key files, in the order they are tried.
pub open spec fn default_key_names() -> Seq<Seq<char>> {
    seq!["id_ed25519"@, "id_rsa"@]
}

impl CredentialManager {
    pub fn new() -> Self {
        CredentialManager
    }

    /// Decide how to answer credential request number `attempt` (counted
    /// from 0): at most four attempts are answered; an SSH key is preferred,
    /// then a user name and password, then the default credential. The user
    /// name is the one in the URL, else `git`.
    pub fn plan(&self, attempt: u32, username_from_url: Option<&str>, allowed: AllowedCredentials) -> (p: CredentialPlan)
        ensures
            attempt > 3 ==> p is TooManyAttempts,
            attempt <= 3 && allowed.ssh_key ==> (p matches CredentialPlan::SshKey { username, key_names } && username@
                == (match username_from_url {
                Some(u) => u@,
                None => "git"@,
            }) && key_names@.map_values(|s: String| s@) == default_key_names()),
            attempt <= 3 && !allowed.ssh_key && allowed.user_pass_plaintext ==> p is CredentialHelper,
            attempt <= 3 && !allowed.ssh_key && !allowed.user_pass_plaintext && allowed.default ==> p is Default,
            attempt <= 3 && !allowed.ssh_key && !allowed.user_pass_plaintext && !allowed.default ==> p is Unsupported,
    {
        if attempt > 3 {
            return CredentialPlan::TooManyAttempts;
        }
        if allowed.ssh_key {
            let username = match username_from_url {
                Some(u) => u.to_owned(),
                None => "git".to_owned(),
            };
            let mut key_names: Vec<String> = Vec::new();
            key_names.push("id_ed25519".to_owned());
            key_names.push("id_rsa".to_owned());
            assert(key_names@.map_values(|s: String| s@) =~= default_key_names());
            CredentialPlan::SshKey { username, key_names }
        } else if allowed.user_pass_plaintext {
            CredentialPlan::CredentialHelper
        } else if allowed.default {
            CredentialPlan::Default
        } else {
            CredentialPlan::Unsupported
        }
    }

    /// The public key file that goes with a private key file: `{name}.pub`.
    pub fn public_key_name(&self, key_name: &str) -> (r: String)
        ensures
            r@ == key_name@ + ".pub"@,
    {
        let mut r = key_name.to_owned();
        r.append(".pub");
        r
    }
}

} // verus!
