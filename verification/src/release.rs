//! Release bundle assembly: the final immutable structure handed to the
//! rendering stage.

use vstd::prelude::*;

use crate::shortcut::{Epic, ReleaseContent, RepoCommits, Story};
use crate::types::{HeadCommit, RepositoryName};

verus! {

/// The head of one repository's next branch, keyed by repository name.
#[derive(Debug, Clone, PartialEq, Eq)]
pub struct RepoHeadCommit {
    pub name: RepositoryName,
    pub head: HeadCommit,
}

/// The final artifact: the release content together with caller-supplied
/// metadata and the per-repository head commits of the next branch.
#[derive(Debug, Clone, PartialEq, Eq)]
pub struct Release {
    pub name: Option<String>,
    pub version: Option<String>,
    pub description: Option<String>,
    pub stories: Vec<Story>,
    pub epics: Vec<Epic>,
    pub unparsed_commits: Vec<RepoCommits>,
    pub next_heads: Vec<RepoHeadCommit>,
}

/// Combines the aggregated content with the caller's metadata and the
/// per-repository heads. The unparsed commits are carried through
/// unchanged, or left out entirely when the caller asked to exclude them;
/// everything else is taken as given.
pub fn assemble_release(
    name: Option<String>,
    version: Option<String>,
    description: Option<String>,
    content: ReleaseContent,
    next_heads: Vec<RepoHeadCommit>,
    exclude_unparsed_commits: bool,
) -> (r: Release)
    ensures
        r.name == name,
        r.version == version,
        r.description == description,
        r.stories == content.stories,
        r.epics == content.epics,
        r.next_heads == next_heads,
        !exclude_unparsed_commits ==> r.unparsed_commits == content.unparsed_commits,
        exclude_unparsed_commits ==> r.unparsed_commits@.len() == 0,
{
    let unparsed_commits: Vec<RepoCommits> = if exclude_unparsed_commits {
        Vec::new()
    } else {
        content.unparsed_commits
    };
    Release {
        name,
        version,
        description,
        stories: content.stories,
        epics: content.epics,
        unparsed_commits,
        next_heads,
    }
}

} // verus!
