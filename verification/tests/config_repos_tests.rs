use tend::config::{
    default_clone_method, default_provider, filter_workspaces, starter_config, CloneMethod,
    Workspace,
};
use tend::graph::DepsMap;
use tend::repos::{
    classify_repo, is_not_found, resolve_repo_list, select_active_repos, status_counts,
    unknown_repo_names, RepoEntry, RepoStatus,
};

fn ws(name: &str, org: Option<&str>, method: CloneMethod) -> Workspace {
    Workspace {
        name: name.to_string(),
        provider: "github".to_string(),
        base_dir: "/srv/code".to_string(),
        clone_method: method,
        discover: false,
        org: org.map(|s| s.to_string()),
        exclude: Vec::new(),
        extra_repos: Vec::new(),
        flake_deps: DepsMap { entries: Vec::new() },
    }
}

#[test]
fn defaults_are_github_over_ssh() {
    assert_eq!(default_provider(), "github");
    assert!(matches!(default_clone_method(), CloneMethod::Ssh));
}

#[test]
fn clone_url_uses_org_and_method() {
    let w = ws("acme", Some("the-org"), CloneMethod::Ssh);
    assert_eq!(w.clone_url("repo"), "git@github.com:the-org/repo.git");
    let w = ws("acme", None, CloneMethod::Https);
    assert_eq!(w.clone_url("repo"), "https://github.com/acme/repo.git");
}

#[test]
fn base_dir_without_tilde_is_kept() {
    let w = ws("acme", None, CloneMethod::Ssh);
    assert_eq!(w.resolved_base_dir(), "/srv/code");
}

#[test]
fn workspaces_are_filtered_by_name() {
    let all = vec![
        ws("one", None, CloneMethod::Ssh),
        ws("two", None, CloneMethod::Ssh),
        ws("one", None, CloneMethod::Https),
    ];
    let hit = filter_workspaces(&all, Some(&"one".to_string()));
    assert_eq!(hit.len(), 2);
    assert!(hit.iter().all(|w| w.name == "one"));
    let none = filter_workspaces(&all, Some(&"three".to_string()));
    assert!(none.is_empty());
    let every = filter_workspaces(&all, None);
    assert_eq!(every.len(), 3);
}

#[test]
fn starter_config_has_one_discovering_workspace() {
    let c = starter_config();
    assert_eq!(c.workspaces.len(), 1);
    let w = &c.workspaces[0];
    assert_eq!(w.name, "my-org");
    assert_eq!(w.provider, "github");
    assert_eq!(w.base_dir, "~/code/github/my-org");
    assert!(matches!(w.clone_method, CloneMethod::Ssh));
    assert!(w.discover);
    assert_eq!(w.org.as_deref(), Some("my-org"));
    assert_eq!(w.exclude, vec![".github".to_string()]);
    assert!(w.extra_repos.is_empty());
}

fn strings(v: &[&str]) -> Vec<String> {
    v.iter().map(|s| s.to_string()).collect()
}

#[test]
fn repo_list_merges_sorts_dedups_and_excludes() {
    let discovered = strings(&["zeta", "alpha", "beta"]);
    let extras = strings(&["alpha", "gamma"]);
    let exclude = strings(&["beta"]);
    let r = resolve_repo_list(&discovered, &extras, &exclude);
    assert_eq!(r, strings(&["alpha", "gamma", "zeta"]));
}

#[test]
fn unknown_names_skip_hidden_and_expected() {
    let on_disk = strings(&[".git", "zoo", "app", "lib"]);
    let expected = strings(&["lib"]);
    let r = unknown_repo_names(&on_disk, &expected);
    assert_eq!(r, strings(&["app", "zoo"]));
}

#[test]
fn discovery_keeps_only_active_repositories_sorted() {
    let found = vec![
        ("beta".to_string(), false),
        ("old".to_string(), true),
        ("alpha".to_string(), false),
    ];
    let r = select_active_repos(&found);
    assert_eq!(r, strings(&["alpha", "beta"]));
}

#[test]
fn classification_follows_existence_then_cleanliness() {
    assert!(matches!(classify_repo(false, false), RepoStatus::Missing));
    assert!(matches!(classify_repo(false, true), RepoStatus::Missing));
    assert!(matches!(classify_repo(true, true), RepoStatus::Dirty));
    assert!(matches!(classify_repo(true, false), RepoStatus::Clean));
}

#[test]
fn status_counts_add_up() {
    let entries = vec![
        RepoEntry { name: "a".to_string(), status: RepoStatus::Clean },
        RepoEntry { name: "b".to_string(), status: RepoStatus::Dirty },
        RepoEntry { name: "c".to_string(), status: RepoStatus::Clean },
        RepoEntry { name: "d".to_string(), status: RepoStatus::Missing },
        RepoEntry { name: "e".to_string(), status: RepoStatus::Unknown },
    ];
    assert_eq!(status_counts(&entries), (2, 1, 1, 1));
}

#[test]
fn not_found_is_recognized_in_error_text() {
    assert!(is_not_found("GitHub API returned 404 Not Found: no such org"));
    assert!(!is_not_found("GitHub API returned 500 Internal Server Error"));
    assert!(!is_not_found(""));
    assert!(is_not_found("404 Not Found"));
}
