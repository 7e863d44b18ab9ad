use shortcut_release_helper::release::{assemble_release, RepoHeadCommit};
use shortcut_release_helper::shortcut::{
    collect_story_ids, epic_ids_of, parse_commits, select_epics, select_stories, AggregationError,
    Epic, EpicFetchOutcome, ReleaseContent, RepoCommits, Story, StoryFetchOutcome, StoryId,
    StoryLabelFilter,
};
use shortcut_release_helper::types::{
    CommitSha, HeadCommit, RepositoryName, ShortcutApiKey, UnreleasedCommit,
};

fn commit(id: &str, message: Option<&str>) -> UnreleasedCommit {
    UnreleasedCommit {
        id: CommitSha::new(id.to_string()),
        message: message.map(|m| m.to_string()),
    }
}

fn repo(name: &str, commits: Vec<UnreleasedCommit>) -> RepoCommits {
    RepoCommits { name: RepositoryName::new(name.to_string()), commits }
}

fn story(id: u64, name: &str, labels: &[&str], epic_id: Option<u64>) -> Story {
    Story {
        id: StoryId::new(id),
        name: name.to_string(),
        labels: labels.iter().map(|l| l.to_string()).collect(),
        epic_id,
    }
}

fn strings(v: &[&str]) -> Vec<String> {
    v.iter().map(|s| s.to_string()).collect()
}

fn filter(exclude: &[&str], includes: &[&str]) -> StoryLabelFilter {
    StoryLabelFilter::new(strings(exclude), strings(includes))
}

#[test]
fn story_kept_without_any_filter() {
    // Story 101 with label "backend", empty filters: kept.
    let f = filter(&[], &[]);
    let outcomes = vec![StoryFetchOutcome::Found(story(101, "A story", &["backend"], Some(9)))];
    let stories = select_stories(outcomes, &f).unwrap();
    assert_eq!(stories.len(), 1);
    assert_eq!(stories[0].id, StoryId::new(101));
    assert_eq!(epic_ids_of(&stories), vec![9]);
}

#[test]
fn excluded_label_drops_story_entirely() {
    // Same setup, exclude-labels = ["backend"]: story dropped.
    let f = filter(&["backend"], &[]);
    let outcomes = vec![StoryFetchOutcome::Found(story(101, "A story", &["backend"], Some(9)))];
    let stories = select_stories(outcomes, &f).unwrap();
    assert!(stories.is_empty());
    assert_eq!(epic_ids_of(&stories), Vec::<u64>::new());
}

#[test]
fn exclusion_wins_over_inclusion() {
    let f = filter(&["backend"], &["frontend"]);
    let outcomes = vec![StoryFetchOutcome::Found(story(
        5,
        "Tagged both ways",
        &["backend", "frontend"],
        None,
    ))];
    let stories = select_stories(outcomes, &f).unwrap();
    assert!(stories.is_empty());
}

#[test]
fn inclusion_keeps_matching_story() {
    let f = filter(&[], &["frontend"]);
    let outcomes = vec![
        StoryFetchOutcome::Found(story(1, "In", &["frontend"], None)),
        StoryFetchOutcome::Found(story(2, "Out", &["backend"], None)),
    ];
    let stories = select_stories(outcomes, &f).unwrap();
    assert_eq!(stories.len(), 1);
    assert_eq!(stories[0].id, StoryId::new(1));
}

#[test]
fn unlabeled_story_depends_on_inclusion_list() {
    let unlabeled = story(3, "Plain", &[], None);
    let kept = select_stories(
        vec![StoryFetchOutcome::Found(unlabeled.clone())],
        &filter(&[], &[]),
    )
    .unwrap();
    assert_eq!(kept.len(), 1);
    let dropped = select_stories(
        vec![StoryFetchOutcome::Found(unlabeled)],
        &filter(&[], &["frontend"]),
    )
    .unwrap();
    assert!(dropped.is_empty());
}

#[test]
fn stories_deduplicated_and_sorted() {
    let f = filter(&[], &[]);
    let outcomes = vec![
        StoryFetchOutcome::Found(story(20, "Second", &[], None)),
        StoryFetchOutcome::Found(story(10, "First", &[], None)),
        StoryFetchOutcome::Found(story(20, "Second again", &[], None)),
    ];
    let stories = select_stories(outcomes, &f).unwrap();
    let ids: Vec<StoryId> = stories.iter().map(|s| s.id).collect();
    assert_eq!(ids, vec![StoryId::new(10), StoryId::new(20)]);
}

#[test]
fn missing_story_is_skipped() {
    let f = filter(&[], &[]);
    let outcomes = vec![
        StoryFetchOutcome::Missing,
        StoryFetchOutcome::Found(story(4, "There", &[], None)),
    ];
    let stories = select_stories(outcomes, &f).unwrap();
    assert_eq!(stories.len(), 1);
}

#[test]
fn authentication_failure_is_fatal() {
    let f = filter(&[], &[]);
    let outcomes = vec![
        StoryFetchOutcome::Found(story(4, "There", &[], None)),
        StoryFetchOutcome::AuthFailure,
    ];
    let err = select_stories(outcomes, &f).unwrap_err();
    assert_eq!(err, AggregationError::AuthenticationFailure);
    let epic_err = select_epics(vec![EpicFetchOutcome::AuthFailure]).unwrap_err();
    assert_eq!(epic_err, AggregationError::AuthenticationFailure);
}

#[test]
fn story_referenced_from_two_repositories_counts_once() {
    // Both repositories reference story 202 in different commits.
    let repos = vec![
        repo("first", vec![commit("a1", Some("sc-202 work"))]),
        repo("second", vec![commit("b1", Some("more sc-202"))]),
    ];
    let parsed = parse_commits(&repos, &Vec::new()).unwrap();
    let unique = collect_story_ids(&parsed);
    assert_eq!(unique, vec![StoryId::new(202)]);
    let f = filter(&[], &[]);
    let outcomes = vec![StoryFetchOutcome::Found(story(202, "Shared", &[], None))];
    let stories = select_stories(outcomes, &f).unwrap();
    assert_eq!(stories.len(), 1);
    assert_eq!(stories[0].id, StoryId::new(202));
}

#[test]
fn epics_of_dropped_stories_are_absent() {
    // Story 1 (epic 7) survives, story 2 (epic 8) is excluded: only epic 7
    // must be fetched.
    let f = filter(&["obsolete"], &[]);
    let outcomes = vec![
        StoryFetchOutcome::Found(story(1, "Keep", &[], Some(7))),
        StoryFetchOutcome::Found(story(2, "Drop", &["obsolete"], Some(8))),
    ];
    let stories = select_stories(outcomes, &f).unwrap();
    assert_eq!(epic_ids_of(&stories), vec![7]);
}

#[test]
fn epics_deduplicated_and_sorted() {
    let stories = vec![
        story(1, "One", &[], Some(9)),
        story(2, "Two", &[], Some(3)),
        story(3, "Three", &[], Some(9)),
        story(4, "Four", &[], None),
    ];
    assert_eq!(epic_ids_of(&stories), vec![3, 9]);
    let outcomes = vec![
        EpicFetchOutcome::Found(Epic { id: 9, name: "Later".to_string() }),
        EpicFetchOutcome::Missing,
        EpicFetchOutcome::Found(Epic { id: 3, name: "Sooner".to_string() }),
    ];
    let epics = select_epics(outcomes).unwrap();
    let ids: Vec<u64> = epics.iter().map(|e| e.id).collect();
    assert_eq!(ids, vec![3, 9]);
}

#[test]
fn excluded_story_leaves_unparsed_commits_in_place() {
    // Repository "A": one commit referencing story 101, one unparsed
    // commit. Story 101 carries the excluded label "backend", so the
    // stories are empty, while "cleanup" stays reported as unparsed.
    let repos = vec![repo(
        "A",
        vec![commit("a1", Some("fix bug sc-101")), commit("a2", Some("cleanup"))],
    )];
    let parsed = parse_commits(&repos, &Vec::new()).unwrap();
    assert_eq!(collect_story_ids(&parsed), vec![StoryId::new(101)]);
    let f = filter(&["backend"], &[]);
    let outcomes = vec![StoryFetchOutcome::Found(story(101, "A story", &["backend"], Some(9)))];
    let stories = select_stories(outcomes, &f).unwrap();
    assert!(stories.is_empty());
    let content = ReleaseContent {
        stories,
        epics: vec![],
        unparsed_commits: parsed
            .repos
            .into_iter()
            .map(|r| RepoCommits { name: r.name, commits: r.unparsed_commits })
            .collect(),
    };
    assert_eq!(content.unparsed_commits.len(), 1);
    assert_eq!(content.unparsed_commits[0].name.as_str(), "A");
    assert_eq!(content.unparsed_commits[0].commits.len(), 1);
    assert_eq!(content.unparsed_commits[0].commits[0].id.as_str(), "a2");
}

#[test]
fn release_assembly_carries_everything_through() {
    let content = ReleaseContent {
        stories: vec![story(101, "A story", &["backend"], None)],
        epics: vec![],
        unparsed_commits: vec![repo("A", vec![commit("a2", Some("cleanup"))])],
    };
    let heads = vec![RepoHeadCommit {
        name: RepositoryName::new("A".to_string()),
        head: HeadCommit { id: CommitSha::new("a3".to_string()), message: None },
    }];
    let release = assemble_release(
        Some("Super release".to_string()),
        Some("3.4.0".to_string()),
        None,
        content,
        heads,
        false,
    );
    assert_eq!(release.name.as_deref(), Some("Super release"));
    assert_eq!(release.version.as_deref(), Some("3.4.0"));
    assert_eq!(release.description, None);
    assert_eq!(release.stories.len(), 1);
    assert_eq!(release.unparsed_commits.len(), 1);
    assert_eq!(release.next_heads.len(), 1);
}

#[test]
fn release_assembly_can_drop_unparsed_commits() {
    let content = ReleaseContent {
        stories: vec![],
        epics: vec![],
        unparsed_commits: vec![repo("A", vec![commit("a2", None)])],
    };
    let release = assemble_release(None, None, None, content, vec![], true);
    assert!(release.unparsed_commits.is_empty());
}

#[test]
fn api_key_round_trip() {
    let key = ShortcutApiKey::new("SECRET-REDACTED".to_string());
    assert_eq!(key.as_str(), "SECRET-REDACTED");
}
