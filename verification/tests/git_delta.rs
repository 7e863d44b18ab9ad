use shortcut_release_helper::git::{
    find_unreleased_commits, AccessError, CommitNode, RefEntry, RepositorySnapshot,
};
use shortcut_release_helper::types::{
    CommitSha, RepositoryConfiguration, RepositoryLocation, RepositoryReference,
};

fn node(id: &str, message: Option<&str>, parents: Vec<usize>) -> CommitNode {
    CommitNode {
        id: CommitSha::new(id.to_string()),
        message: message.map(|m| m.to_string()),
        parents,
    }
}

fn reference(name: &str, target: usize) -> RefEntry {
    RefEntry { name: RepositoryReference::new(name.to_string()), target }
}

fn config(release: &str, next: &str) -> RepositoryConfiguration {
    RepositoryConfiguration {
        location: RepositoryLocation::new("repo".to_string()),
        release_branch: RepositoryReference::new(release.to_string()),
        next_branch: RepositoryReference::new(next.to_string()),
    }
}

/// A linear history with two commits past the released one.
fn linear_snapshot() -> RepositorySnapshot {
    RepositorySnapshot {
        commits: vec![
            node("a0", Some("base"), vec![]),
            node("a1", Some("released work"), vec![0]),
            node("a2", Some("fix bug sc-101"), vec![1]),
            node("a3", Some("cleanup"), vec![2]),
        ],
        refs: vec![reference("master", 1), reference("next", 3)],
    }
}

#[test]
fn linear_history_delta() {
    let snapshot = linear_snapshot();
    assert!(snapshot.check_well_formed());
    let result = find_unreleased_commits(&config("master", "next"), &snapshot).unwrap();
    let ids: Vec<&str> = result
        .unreleased_commits
        .iter()
        .map(|c| c.id.as_str())
        .collect();
    assert_eq!(ids, vec!["a2", "a3"]);
    assert_eq!(result.next_head.id.as_str(), "a3");
    assert_eq!(result.next_head.message.as_deref(), Some("cleanup"));
}

#[test]
fn same_reference_yields_empty_delta() {
    let snapshot = linear_snapshot();
    let result = find_unreleased_commits(&config("next", "next"), &snapshot).unwrap();
    assert!(result.unreleased_commits.is_empty());
    assert_eq!(result.next_head.id.as_str(), "a3");
}

#[test]
fn merge_base_history_is_shared() {
    // 0 <- 1 (release)  and  0 <- 2 <- 3 (next): only 2 and 3 are unreleased.
    let snapshot = RepositorySnapshot {
        commits: vec![
            node("b0", Some("base"), vec![]),
            node("b1", Some("shipped"), vec![0]),
            node("b2", Some("sc-7"), vec![0]),
            node("b3", Some("merge prep"), vec![2]),
        ],
        refs: vec![reference("release", 1), reference("next", 3)],
    };
    assert!(snapshot.check_well_formed());
    let result = find_unreleased_commits(&config("release", "next"), &snapshot).unwrap();
    let ids: Vec<&str> = result
        .unreleased_commits
        .iter()
        .map(|c| c.id.as_str())
        .collect();
    assert_eq!(ids, vec!["b2", "b3"]);
}

#[test]
fn merge_commit_sees_both_parents() {
    // 0 (release) ; 1 and 2 on top of 0; 3 merges 1 and 2 (next).
    let snapshot = RepositorySnapshot {
        commits: vec![
            node("c0", Some("base"), vec![]),
            node("c1", Some("left sc-1"), vec![0]),
            node("c2", Some("right sc-2"), vec![0]),
            node("c3", Some("merge"), vec![1, 2]),
        ],
        refs: vec![reference("release", 0), reference("next", 3)],
    };
    let result = find_unreleased_commits(&config("release", "next"), &snapshot).unwrap();
    let ids: Vec<&str> = result
        .unreleased_commits
        .iter()
        .map(|c| c.id.as_str())
        .collect();
    assert_eq!(ids, vec!["c1", "c2", "c3"]);
}

#[test]
fn unresolved_release_reference_is_named() {
    let snapshot = linear_snapshot();
    let err = find_unreleased_commits(&config("missing", "next"), &snapshot).unwrap_err();
    let AccessError::ReferenceResolutionError(name) = err;
    assert_eq!(name.as_str(), "missing");
}

#[test]
fn unresolved_next_reference_is_named() {
    let snapshot = linear_snapshot();
    let err = find_unreleased_commits(&config("master", "absent"), &snapshot).unwrap_err();
    let AccessError::ReferenceResolutionError(name) = err;
    assert_eq!(name.as_str(), "absent");
}

#[test]
fn malformed_snapshot_is_detected() {
    let snapshot = RepositorySnapshot {
        commits: vec![node("d0", None, vec![0])],
        refs: vec![reference("next", 0)],
    };
    assert!(!snapshot.check_well_formed());
    let bad_ref = RepositorySnapshot {
        commits: vec![node("d0", None, vec![])],
        refs: vec![reference("next", 5)],
    };
    assert!(!bad_ref.check_well_formed());
}
