//! Core value types shared by the pipeline stages.

use vstd::prelude::*;

verus! {

/// Authentication token for the issue tracker's API.
#[derive(Debug, Clone, PartialEq, Eq, Hash)]
pub struct ShortcutApiKey(String);

impl View for ShortcutApiKey {
    type V = Seq<char>;

    closed spec fn view(&self) -> Seq<char> {
        self.0@
    }
}

impl ShortcutApiKey {
    pub fn new(key: String) -> (r: Self)
        ensures
            r@ == key@,
    {
        ShortcutApiKey(key)
    }

    pub fn as_str(&self) -> (r: &str)
        ensures
            r@ == self@,
    {
        self.0.as_str()
    }
}

/// Name of a repository; the join key across all per-repository maps,
/// unique within a run.
#[derive(Debug, Clone, PartialEq, Eq, Hash)]
pub struct RepositoryName(String);

impl View for RepositoryName {
    type V = Seq<char>;

    closed spec fn view(&self) -> Seq<char> {
        self.0@
    }
}

impl RepositoryName {
    pub fn new(name: String) -> (r: Self)
        ensures
            r@ == name@,
    {
        RepositoryName(name)
    }

    pub fn as_str(&self) -> (r: &str)
        ensures
            r@ == self@,
    {
        self.0.as_str()
    }

    /// A copy that is equal to `self`, usable in contracts (the derived
    /// `Clone` says nothing to the verifier).
    pub fn duplicate(&self) -> (r: Self)
        ensures
            r == *self,
    {
        RepositoryName(self.0.clone())
    }
}

/// Filesystem location of a repository.
#[derive(Debug, Clone, PartialEq, Eq)]
pub struct RepositoryLocation(String);

impl View for RepositoryLocation {
    type V = Seq<char>;

    closed spec fn view(&self) -> Seq<char> {
        self.0@
    }
}

impl RepositoryLocation {
    pub fn new(path: String) -> (r: Self)
        ensures
            r@ == path@,
    {
        RepositoryLocation(path)
    }

    pub fn as_str(&self) -> (r: &str)
        ensures
            r@ == self@,
    {
        self.0.as_str()
    }
}

/// Name of a branch or commit reference within a repository.
#[derive(Debug, Clone, PartialEq, Eq)]
pub struct RepositoryReference(String);

impl View for RepositoryReference {
    type V = Seq<char>;

    closed spec fn view(&self) -> Seq<char> {
        self.0@
    }
}

impl RepositoryReference {
    pub fn new(name: String) -> (r: Self)
        ensures
            r@ == name@,
    {
        RepositoryReference(name)
    }

    pub fn as_str(&self) -> (r: &str)
        ensures
            r@ == self@,
    {
        self.0.as_str()
    }

    /// Whether two reference names are the same text.
    pub fn same_name(&self, other: &RepositoryReference) -> (r: bool)
        ensures
            r == (self@ == other@),
    {
        self.0 == other.0
    }

    /// A copy that is equal to `self`, usable in contracts (the derived
    /// `Clone` says nothing to the verifier).
    pub fn duplicate(&self) -> (r: Self)
        ensures
            r == *self,
    {
        RepositoryReference(self.0.clone())
    }
}

/// Configuration of one repository: where it lives and which two
/// references to compare.
#[derive(Debug, Clone, PartialEq, Eq)]
pub struct RepositoryConfiguration {
    /// Path to the location of the repository on disk.
    pub location: RepositoryLocation,
    /// Branch or commit name which has been released.
    pub release_branch: RepositoryReference,
    /// Branch or commit name which has not been released.
    pub next_branch: RepositoryReference,
}

/// A commit identifier: the content-addressed hash, in hexadecimal text.
#[derive(Debug, Clone, PartialEq, Eq, Hash)]
pub struct CommitSha(String);

impl View for CommitSha {
    type V = Seq<char>;

    closed spec fn view(&self) -> Seq<char> {
        self.0@
    }
}

impl CommitSha {
    pub fn new(sha: String) -> (r: Self)
        ensures
            r@ == sha@,
    {
        CommitSha(sha)
    }

    pub fn as_str(&self) -> (r: &str)
        ensures
            r@ == self@,
    {
        self.0.as_str()
    }

    /// A copy that is equal to `self`, usable in contracts (the derived
    /// `Clone` says nothing to the verifier).
    pub fn duplicate(&self) -> (r: Self)
        ensures
            r == *self,
    {
        CommitSha(self.0.clone())
    }
}

/// A copy of an optional commit message that is equal to the original.
pub fn duplicate_message(m: &Option<String>) -> (r: Option<String>)
    ensures
        r == *m,
{
    match m {
        Some(text) => Some(text.clone()),
        None => None,
    }
}

/// Head commit of the next branch. May or may not have been released.
#[derive(Debug, Clone, PartialEq, Eq)]
pub struct HeadCommit {
    pub id: CommitSha,
    pub message: Option<String>,
}

/// A commit only present in the next branch.
#[derive(Debug, Clone, PartialEq, Eq)]
pub struct UnreleasedCommit {
    pub id: CommitSha,
    pub message: Option<String>,
}

impl UnreleasedCommit {
    /// A copy that is equal to `self`, usable in contracts (the derived
    /// `Clone` says nothing to the verifier).
    pub fn duplicate(&self) -> (r: Self)
        ensures
            r == *self,
    {
        UnreleasedCommit { id: self.id.duplicate(), message: duplicate_message(&self.message) }
    }
}

/// The view of an optional commit message: the character sequence, if any.
pub open spec fn message_view(m: Option<String>) -> Option<Seq<char>> {
    match m {
        Some(s) => Some(s@),
        None => None,
    }
}

} // verus!
