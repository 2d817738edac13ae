use git_gui::error::GitError;
use git_gui::host_integration::{
    get_host_provider, parse_owner_repo, parse_path_segments, GitHubProvider, GitLabProvider, HostError,
    HostIntegration, HostPlatform, HostProvider,
};
use git_gui::models::CreatePrParams;

// === parse_owner_repo tests ===

#[test]
fn test_parse_ssh_url() {
    let result = parse_owner_repo("git@github.com:user/repo.git");
    assert_eq!(result, Some(("user".into(), "repo".into())));
}

#[test]
fn test_parse_ssh_url_no_git_suffix() {
    let result = parse_owner_repo("git@github.com:user/repo");
    assert_eq!(result, Some(("user".into(), "repo".into())));
}

#[test]
fn test_parse_https_url() {
    let result = parse_owner_repo("https://github.com/user/repo.git");
    assert_eq!(result, Some(("user".into(), "repo".into())));
}

#[test]
fn test_parse_https_url_no_git_suffix() {
    let result = parse_owner_repo("https://github.com/user/repo");
    assert_eq!(result, Some(("user".into(), "repo".into())));
}

#[test]
fn test_parse_http_url() {
    let result = parse_owner_repo("http://gitlab.com/org/project.git");
    assert_eq!(result, Some(("org".into(), "project".into())));
}

#[test]
fn test_parse_invalid_url_returns_none() {
    assert_eq!(parse_owner_repo("not-a-url"), None);
    assert_eq!(parse_owner_repo(""), None);
    assert_eq!(parse_owner_repo("https://github.com/"), None);
    assert_eq!(parse_owner_repo("git@github.com:"), None);
}

#[test]
fn test_parse_trailing_slash() {
    let result = parse_owner_repo("https://github.com/user/repo/");
    assert_eq!(result, Some(("user".into(), "repo".into())));
}

// === GitHub URL generation tests ===

#[test]
fn test_github_repo_web_url_ssh() {
    let gh = GitHubProvider::new();
    assert_eq!(gh.repo_web_url("git@github.com:user/repo.git"), Some("https://github.com/user/repo".into()));
}

#[test]
fn test_github_repo_web_url_https() {
    let gh = GitHubProvider::new();
    assert_eq!(gh.repo_web_url("https://github.com/user/repo.git"), Some("https://github.com/user/repo".into()));
}

#[test]
fn test_github_commit_web_url() {
    let gh = GitHubProvider::new();
    assert_eq!(
        gh.commit_web_url("git@github.com:user/repo.git", "abc123"),
        Some("https://github.com/user/repo/commit/abc123".into())
    );
}

#[test]
fn test_github_branch_web_url() {
    let gh = GitHubProvider::new();
    assert_eq!(
        gh.branch_web_url("git@github.com:user/repo.git", "main"),
        Some("https://github.com/user/repo/tree/main".into())
    );
}

#[test]
fn test_github_url_invalid_remote() {
    let gh = GitHubProvider::new();
    assert_eq!(gh.repo_web_url("not-a-url"), None);
    assert_eq!(gh.commit_web_url("not-a-url", "abc"), None);
    assert_eq!(gh.branch_web_url("not-a-url", "main"), None);
}

// === GitLab URL generation tests ===

#[test]
fn test_gitlab_repo_web_url_ssh() {
    let gl = GitLabProvider::new();
    assert_eq!(gl.repo_web_url("git@gitlab.com:org/project.git"), Some("https://gitlab.com/org/project".into()));
}

#[test]
fn test_gitlab_repo_web_url_https() {
    let gl = GitLabProvider::new();
    assert_eq!(gl.repo_web_url("https://gitlab.com/org/project.git"), Some("https://gitlab.com/org/project".into()));
}

#[test]
fn test_gitlab_commit_web_url() {
    let gl = GitLabProvider::new();
    assert_eq!(
        gl.commit_web_url("git@gitlab.com:org/project.git", "def456"),
        Some("https://gitlab.com/org/project/-/commit/def456".into())
    );
}

#[test]
fn test_gitlab_branch_web_url() {
    let gl = GitLabProvider::new();
    assert_eq!(
        gl.branch_web_url("git@gitlab.com:org/project.git", "develop"),
        Some("https://gitlab.com/org/project/-/tree/develop".into())
    );
}

#[test]
fn test_gitlab_url_invalid_remote() {
    let gl = GitLabProvider::new();
    assert_eq!(gl.repo_web_url("not-a-url"), None);
    assert_eq!(gl.commit_web_url("not-a-url", "abc"), None);
    assert_eq!(gl.branch_web_url("not-a-url", "main"), None);
}

// === HostIntegration facade tests ===

#[test]
fn test_host_integration_delegates_url_generation() {
    let integration = HostIntegration::new(Box::new(GitHubProvider::new()));
    assert_eq!(integration.repo_web_url("git@github.com:user/repo.git"), Some("https://github.com/user/repo".into()));
    assert_eq!(
        integration.commit_web_url("git@github.com:user/repo.git", "sha1"),
        Some("https://github.com/user/repo/commit/sha1".into())
    );
    assert_eq!(
        integration.branch_web_url("git@github.com:user/repo.git", "feat"),
        Some("https://github.com/user/repo/tree/feat".into())
    );
}

#[test]
fn test_host_integration_stub_methods_return_not_implemented() {
    let mut integration = HostIntegration::new(Box::new(GitHubProvider::new()));

    let auth_err = integration.authenticate("token123").unwrap_err();
    assert!(matches!(auth_err, HostError::NotImplemented { .. }));

    let list_err = integration.list_pull_requests("https://github.com/u/r").unwrap_err();
    assert!(matches!(list_err, HostError::NotImplemented { .. }));

    let create_err = integration
        .create_pull_request(CreatePrParams {
            title: "t".into(),
            description: "d".into(),
            source_branch: "s".into(),
            target_branch: "m".into(),
        })
        .unwrap_err();
    assert!(matches!(create_err, HostError::NotImplemented { .. }));
}

// === HostError -> GitError conversion test ===

#[test]
fn test_host_error_converts_to_git_error() {
    let err: GitError = HostError::AuthFailed { reason: "bad token".into() }.into();
    assert!(matches!(err, GitError::AuthenticationFailed));

    let err: GitError = HostError::NotImplemented { message: "stub".into() }.into();
    assert!(matches!(err, GitError::InvalidArgument(_)));

    let err: GitError = HostError::InvalidUrl { url: "bad".into() }.into();
    assert!(matches!(err, GitError::InvalidArgument(_)));
}

// --- Further cases ---

#[test]
fn parse_strips_repeated_git_suffixes_and_deeper_paths() {
    assert_eq!(parse_owner_repo("https://host/o/r.git.git"), Some(("o".into(), "r".into())));
    assert_eq!(parse_owner_repo("https://host/o/r/tree/main"), Some(("o".into(), "r".into())));
    assert_eq!(parse_owner_repo("git@host:o/.git"), None);
    assert_eq!(parse_owner_repo("ftp://host/o/r"), None);
    assert_eq!(parse_path_segments("owner//"), None);
    assert_eq!(parse_path_segments("/repo"), None);
    assert_eq!(parse_path_segments("a/b"), Some(("a".into(), "b".into())));
}

#[test]
fn ssh_and_https_remotes_give_the_same_page() {
    let gl = GitLabProvider::new();
    assert_eq!(gl.repo_web_url("git@gitlab.com:a/b.git"), gl.repo_web_url("https://gitlab.com/a/b"));
}

#[test]
fn conversion_messages_are_kept() {
    let err: GitError = HostError::InvalidUrl { url: "bad".into() }.into();
    match err {
        GitError::InvalidArgument(m) => assert_eq!(m, "Invalid remote URL: bad"),
        _ => panic!("expected an invalid argument"),
    }
    let err: GitError = HostError::NotImplemented { message: "stub".into() }.into();
    match err {
        GitError::InvalidArgument(m) => assert_eq!(m, "stub"),
        _ => panic!("expected an invalid argument"),
    }
    assert_eq!(HostError::AuthFailed { reason: "x".into() }.to_string(), "Authentication failed: x");
}

#[test]
fn gitlab_stubs_and_platform_names() {
    let mut integration = HostIntegration::new(Box::new(GitLabProvider::new()));
    match integration.authenticate("t").unwrap_err() {
        HostError::NotImplemented { message } => {
            assert_eq!(message, "GitLab authentication requires HTTP client (not yet integrated)")
        }
        _ => panic!("expected not implemented"),
    }
    assert_eq!(get_host_provider("github").unwrap(), HostPlatform::GitHub);
    assert_eq!(get_host_provider("gitlab").unwrap(), HostPlatform::GitLab);
    let e = get_host_provider("bitbucket").unwrap_err();
    assert_eq!(e.error_type, "InvalidArgument");
    assert_eq!(e.message, "Unknown platform: 'bitbucket'. Expected 'github' or 'gitlab'.");
}

#[test]
fn platform_gives_its_providers_web_urls() {
    let gitlab = get_host_provider("gitlab").unwrap();
    assert_eq!(
        gitlab.branch_web_url("git@gitlab.com:org/project.git", "develop"),
        Some("https://gitlab.com/org/project/-/tree/develop".to_string())
    );
    assert_eq!(
        gitlab.commit_web_url("https://gitlab.com/org/project.git", "abc"),
        Some("https://gitlab.com/org/project/-/commit/abc".to_string())
    );
    let github = get_host_provider("github").unwrap();
    assert_eq!(
        github.repo_web_url("git@github.com:owner/repo.git"),
        Some("https://github.com/owner/repo".to_string())
    );
    assert_eq!(
        github.branch_web_url("git@github.com:owner/repo.git", "main"),
        Some("https://github.com/owner/repo/tree/main".to_string())
    );
}
