use shortcut_release_helper::parse::{extract_story_ids, ParseError};
use shortcut_release_helper::shortcut::{parse_commits, RepoCommits, StoryId};
use shortcut_release_helper::types::{CommitSha, RepositoryName, UnreleasedCommit};

fn commit(id: &str, message: Option<&str>) -> UnreleasedCommit {
    UnreleasedCommit {
        id: CommitSha::new(id.to_string()),
        message: message.map(|m| m.to_string()),
    }
}

fn repo(name: &str, commits: Vec<UnreleasedCommit>) -> RepoCommits {
    RepoCommits { name: RepositoryName::new(name.to_string()), commits }
}

fn ids(v: &[u64]) -> Vec<StoryId> {
    v.iter().map(|n| StoryId::new(*n)).collect()
}

#[test]
fn single_reference() {
    assert_eq!(extract_story_ids("fix bug sc-101").unwrap(), vec![101]);
}

#[test]
fn reference_is_case_insensitive() {
    assert_eq!(extract_story_ids("SC-33 and Sc-34 and sC-35").unwrap(), vec![33, 34, 35]);
}

#[test]
fn reference_embedded_in_words() {
    assert_eq!(extract_story_ids("abcsc-7def").unwrap(), vec![7]);
}

#[test]
fn multiple_references_sorted_and_deduplicated() {
    assert_eq!(extract_story_ids("sc-9 then sc-2, sc-9 again").unwrap(), vec![2, 9]);
}

#[test]
fn marker_without_digits_is_no_reference() {
    assert_eq!(extract_story_ids("sc- and sc-x and s-1 and c-2").unwrap(), Vec::<u64>::new());
}

#[test]
fn maximal_digit_run_is_taken() {
    assert_eq!(extract_story_ids("sc-1019x").unwrap(), vec![1019]);
}

#[test]
fn no_references_in_plain_text() {
    assert_eq!(extract_story_ids("cleanup").unwrap(), Vec::<u64>::new());
}

#[test]
fn oversized_identifier_is_an_error() {
    let err = extract_story_ids("sc-99999999999999999999999").unwrap_err();
    assert_eq!(err, ParseError::StoryIdOutOfRange);
}

#[test]
fn largest_identifier_fits() {
    // u64::MAX itself is representable.
    assert_eq!(
        extract_story_ids("sc-18446744073709551615").unwrap(),
        vec![18446744073709551615]
    );
    assert_eq!(
        extract_story_ids("sc-18446744073709551616").unwrap_err(),
        ParseError::StoryIdOutOfRange
    );
}

#[test]
fn commits_split_into_parsed_and_unparsed() {
    // Repository "A" with one referencing commit and one unparsed commit.
    let repos = vec![repo(
        "A",
        vec![commit("a1", Some("fix bug sc-101")), commit("a2", Some("cleanup"))],
    )];
    let parsed = parse_commits(&repos, &ids(&[])).unwrap();
    assert_eq!(parsed.repos.len(), 1);
    assert_eq!(parsed.repos[0].name.as_str(), "A");
    assert_eq!(parsed.repos[0].story_ids, ids(&[101]));
    assert_eq!(parsed.repos[0].unparsed_commits.len(), 1);
    assert_eq!(parsed.repos[0].unparsed_commits[0].id.as_str(), "a2");
}

#[test]
fn excluded_identifier_makes_commit_unparsed() {
    // The commit's only reference is excluded before classification.
    let repos = vec![repo("A", vec![commit("a1", Some("sc-101"))])];
    let parsed = parse_commits(&repos, &ids(&[101])).unwrap();
    assert_eq!(parsed.repos[0].story_ids, ids(&[]));
    assert_eq!(parsed.repos[0].unparsed_commits.len(), 1);
    assert_eq!(parsed.repos[0].unparsed_commits[0].id.as_str(), "a1");
}

#[test]
fn exclusion_keeps_other_identifiers() {
    let repos = vec![repo("A", vec![commit("a1", Some("sc-101 sc-102"))])];
    let parsed = parse_commits(&repos, &ids(&[101])).unwrap();
    assert_eq!(parsed.repos[0].story_ids, ids(&[102]));
    assert!(parsed.repos[0].unparsed_commits.is_empty());
}

#[test]
fn commit_without_message_is_unparsed() {
    let repos = vec![repo("A", vec![commit("a1", None)])];
    let parsed = parse_commits(&repos, &ids(&[])).unwrap();
    assert_eq!(parsed.repos[0].story_ids, ids(&[]));
    assert_eq!(parsed.repos[0].unparsed_commits.len(), 1);
}

#[test]
fn parse_commits_reports_oversized_identifier() {
    let repos = vec![repo("A", vec![commit("a1", Some("sc-111111111111111111111111"))])];
    let err = parse_commits(&repos, &ids(&[])).unwrap_err();
    assert_eq!(err, ParseError::StoryIdOutOfRange);
}

#[test]
fn order_of_unparsed_commits_is_preserved() {
    let repos = vec![repo(
        "A",
        vec![
            commit("a1", Some("one")),
            commit("a2", Some("sc-5")),
            commit("a3", Some("two")),
        ],
    )];
    let parsed = parse_commits(&repos, &ids(&[])).unwrap();
    let unparsed: Vec<&str> = parsed.repos[0]
        .unparsed_commits
        .iter()
        .map(|c| c.id.as_str())
        .collect();
    assert_eq!(unparsed, vec!["a1", "a3"]);
}
