//! Issue-tracker aggregation: splitting commits into story references and
//! unparsed commits, deduplicating story identifiers across repositories,
//! and label-filtering fetched stories and their owning epics.

use vstd::prelude::*;

use crate::parse::{
    extract_story_ids, insert_sorted_unique, sorted_unique, text_has_oversized_id, text_story_ids,
    ParseError,
};
use crate::types::{RepositoryName, UnreleasedCommit};

verus! {

/// Identifier of an issue-tracker story; equality is by value.
#[derive(Debug, Clone, Copy, PartialEq, Eq, Structural, Hash)]
pub struct StoryId(u64);

impl View for StoryId {
    type V = int;

    closed spec fn view(&self) -> int {
        self.0 as int
    }
}

impl StoryId {
    pub fn new(id: u64) -> (r: Self)
        ensures
            r@ == id as int,
    {
        StoryId(id)
    }

    pub fn value(&self) -> (r: u64)
        ensures
            r as int == self@,
    {
        self.0
    }
}

/// The set of identifier values in a list of story identifiers.
pub open spec fn story_id_set(v: Seq<StoryId>) -> Set<int> {
    Set::new(|n: int| exists|t: int| 0 <= t < v.len() && v[t]@ == n)
}

/// The identifiers are strictly ascending (hence duplicate-free).
pub open spec fn story_ids_sorted(v: Seq<StoryId>) -> bool {
    forall|a: int, b: int| 0 <= a < b < v.len() ==> v[a]@ < v[b]@
}

/// Story identifiers referenced by a commit's message.
pub open spec fn commit_text_ids(c: UnreleasedCommit) -> Set<int> {
    match c.message {
        Some(m) => text_story_ids(m@),
        None => Set::empty(),
    }
}

/// Story identifiers of a commit that survive the exclusion set.
pub open spec fn commit_surviving(c: UnreleasedCommit, excl: Set<int>) -> Set<int> {
    commit_text_ids(c).difference(excl)
}

/// The commit is unparsed: no surviving identifier after exclusion.
pub open spec fn commit_is_unparsed(c: UnreleasedCommit, excl: Set<int>) -> bool {
    forall|n: int| !commit_surviving(c, excl).contains(n)
}

/// Some identifier referenced by the commit is too large for the
/// identifier type.
pub open spec fn commit_has_oversized_id(c: UnreleasedCommit) -> bool {
    match c.message {
        Some(m) => text_has_oversized_id(m@),
        None => false,
    }
}

/// One repository's unreleased commits, keyed by the repository name.
#[derive(Debug, Clone, PartialEq, Eq)]
pub struct RepoCommits {
    pub name: RepositoryName,
    pub commits: Vec<UnreleasedCommit>,
}

/// One repository's parser output: the surviving story identifiers and
/// the commits left unparsed, in their original order.
#[derive(Debug, Clone, PartialEq, Eq)]
pub struct RepoParsedCommits {
    pub name: RepositoryName,
    pub story_ids: Vec<StoryId>,
    pub unparsed_commits: Vec<UnreleasedCommit>,
}

/// Parser output for every repository, in the input's repository order.
#[derive(Debug, Clone, PartialEq, Eq)]
pub struct ParsedCommits {
    pub repos: Vec<RepoParsedCommits>,
}

/// The parser's obligation for one repository: the identifier set is
/// exactly the union of the commits' surviving identifiers, strictly
/// ascending, and the unparsed commits are exactly the commits with no
/// surviving identifier, in order.
pub open spec fn repo_parsed_ok(inp: RepoCommits, outp: RepoParsedCommits, excl: Set<int>) -> bool {
    &&& outp.name@ == inp.name@
    &&& story_ids_sorted(outp.story_ids@)
    &&& forall|n: int|
        story_id_set(outp.story_ids@).contains(n) <==> exists|c: int|
            0 <= c < inp.commits@.len() && commit_surviving(
                #[trigger] inp.commits@[c],
                excl,
            ).contains(n)
    &&& outp.unparsed_commits@ == inp.commits@.filter(
        |c: UnreleasedCommit| commit_is_unparsed(c, excl),
    )
}

/// Surviving story identifiers of one commit, strictly ascending; fails
/// exactly when the message references an identifier that does not fit.
fn surviving_ids_of_commit(c: &UnreleasedCommit, exclude: &Vec<StoryId>) -> (r: Result<
    Vec<u64>,
    ParseError,
>)
    ensures
        match r {
            Ok(ids) => {
                &&& !commit_has_oversized_id(*c)
                &&& sorted_unique(ids@)
                &&& forall|n: u64|
                    ids@.contains(n) <==> commit_surviving(*c, story_id_set(exclude@)).contains(
                        n as int,
                    )
                &&& forall|n: int|
                    commit_surviving(*c, story_id_set(exclude@)).contains(n) ==> 0 <= n <= u64::MAX
            },
            Err(e) => {
                &&& commit_has_oversized_id(*c)
                &&& e == ParseError::StoryIdOutOfRange
            },
        },
{
    match &c.message {
        None => {
            let ids: Vec<u64> = Vec::new();
            Ok(ids)
        },
        Some(m) => {
            let extracted = match extract_story_ids(m.as_str()) {
                Ok(ids) => ids,
                Err(e) => {
                    return Err(e);
                },
            };
            let extracted_count = extracted.len();
            let mut kept: Vec<u64> = Vec::new();
            let mut u: usize = 0;
            while u < extracted_count
                invariant
                    extracted_count == extracted@.len(),
                    u <= extracted_count,
                    sorted_unique(extracted@),
                    sorted_unique(kept@),
                    forall|t: int|
                        #![trigger kept@[t]]
                        0 <= t < kept@.len() ==> (exists|w: int|
                            0 <= w < u && #[trigger] extracted@[w] == kept@[t]) && !story_id_set(
                            exclude@,
                        ).contains(kept@[t] as int),
                    forall|w: int|
                        #![trigger extracted@[w]]
                        0 <= w < u && !story_id_set(exclude@).contains(extracted@[w] as int)
                            ==> kept@.contains(extracted@[w]),
                decreases extracted_count - u,
            {
                let n = extracted[u];
                let is_excluded = excluded_contains(exclude, n);
                if !is_excluded {
                    let ghost kept0 = kept@;
                    kept.push(n);
                    proof {
                        assert forall|a: int, b: int| 0 <= a < b < kept@.len() implies kept@[a]
                            < kept@[b] by {
                            if b == kept@.len() - 1 {
                                let w = choose|w: int| 0 <= w < u && extracted@[w] == kept0[a];
                                assert(extracted@[w] < extracted@[u as int]);
                            }
                        }
                        assert(kept@[kept@.len() - 1] == n);
                        assert(kept@.contains(n));
                        assert forall|m: u64| kept0.contains(m) implies kept@.contains(m) by {
                            let t0 = choose|t0: int| 0 <= t0 < kept0.len() && kept0[t0] == m;
                            assert(kept@[t0] == m);
                        }
                    }
                }
                u += 1;
            }
            proof {
                assert forall|n: u64|
                    kept@.contains(n) <==> commit_surviving(*c, story_id_set(exclude@)).contains(
                        n as int,
                    ) by {
                    if kept@.contains(n) {
                        let t = choose|t: int| 0 <= t < kept@.len() && kept@[t] == n;
                        let w = choose|w: int| 0 <= w < extracted_count && extracted@[w] == n;
                        assert(extracted@.contains(n));
                    }
                    if commit_surviving(*c, story_id_set(exclude@)).contains(n as int) {
                        assert(extracted@.contains(n));
                        let w = choose|w: int|
                            0 <= w < extracted@.len() && extracted@[w] == n;
                        assert(kept@.contains(extracted@[w]));
                    }
                }
            }
            Ok(kept)
        },
    }
}

/// The exclusion list contains the identifier value.
fn excluded_contains(exclude: &Vec<StoryId>, n: u64) -> (r: bool)
    ensures
        r == story_id_set(exclude@).contains(n as int),
{
    let exclude_count = exclude.len();
    let mut t: usize = 0;
    while t < exclude_count
        invariant
            exclude_count == exclude@.len(),
            t <= exclude_count,
            forall|w: int| 0 <= w < t ==> exclude@[w]@ != n as int,
        decreases exclude_count - t,
    {
        if exclude[t].value() == n {
            proof {
                assert(exclude@[t as int]@ == n as int);
            }
            return true;
        }
        t += 1;
    }
    false
}

/// Wraps raw identifier values as story identifiers, in order.
fn to_story_ids(v: &Vec<u64>) -> (r: Vec<StoryId>)
    ensures
        r@.len() == v@.len(),
        forall|t: int| 0 <= t < v@.len() ==> r@[t]@ == v@[t] as int,
{
    let value_count = v.len();
    let mut r: Vec<StoryId> = Vec::new();
    let mut t: usize = 0;
    while t < value_count
        invariant
            value_count == v@.len(),
            t <= value_count,
            r@.len() == t,
            forall|w: int| 0 <= w < t ==> r@[w]@ == v@[w] as int,
        decreases value_count - t,
    {
        r.push(StoryId::new(v[t]));
        t += 1;
    }
    r
}

/// Splits every repository's commits into surviving story identifiers and
/// unparsed commits, applying the global exclusion set before
/// classification. Fails exactly when some commit message references an
/// identifier too large for the identifier type.
pub fn parse_commits(repos: &Vec<RepoCommits>, exclude_story_ids: &Vec<StoryId>) -> (r: Result<
    ParsedCommits,
    ParseError,
>)
    ensures
        match r {
            Ok(p) => {
                &&& p.repos@.len() == repos@.len()
                &&& forall|t: int|
                    0 <= t < repos@.len() ==> repo_parsed_ok(
                        repos@[t],
                        #[trigger] p.repos@[t],
                        story_id_set(exclude_story_ids@),
                    )
                &&& forall|t: int, k: int|
                    0 <= t < repos@.len() && 0 <= k < repos@[t].commits@.len()
                        ==> !commit_has_oversized_id(#[trigger] repos@[t].commits@[k])
            },
            Err(e) => {
                &&& e == ParseError::StoryIdOutOfRange
                &&& exists|t: int, k: int|
                    0 <= t < repos@.len() && 0 <= k < repos@[t].commits@.len()
                        && commit_has_oversized_id(#[trigger] repos@[t].commits@[k])
            },
        },
{
    let ghost excl = story_id_set(exclude_story_ids@);
    let repo_count = repos.len();
    let mut out: Vec<RepoParsedCommits> = Vec::new();
    let mut t: usize = 0;
    while t < repo_count
        invariant
            repo_count == repos@.len(),
            t <= repo_count,
            excl == story_id_set(exclude_story_ids@),
            out@.len() == t,
            forall|w: int| 0 <= w < t ==> repo_parsed_ok(repos@[w], #[trigger] out@[w], excl),
            forall|w: int, c: int|
                0 <= w < t && 0 <= c < repos@[w].commits@.len() ==> !commit_has_oversized_id(
                    #[trigger] repos@[w].commits@[c],
                ),
        decreases repo_count - t,
    {
        let repo = &repos[t];
        let commit_count = repo.commits.len();
        let mut raw_ids: Vec<u64> = Vec::new();
        let mut unparsed: Vec<UnreleasedCommit> = Vec::new();
        let mut k: usize = 0;
        while k < commit_count
            invariant
                repo_count == repos@.len(),
                t < repo_count,
                repo == &repos@[t as int],
                commit_count == repo.commits@.len(),
                k <= commit_count,
                excl == story_id_set(exclude_story_ids@),
                sorted_unique(raw_ids@),
                forall|n: u64|
                    raw_ids@.contains(n) <==> exists|w: int|
                        0 <= w < k && commit_surviving(
                            #[trigger] repo.commits@[w],
                            excl,
                        ).contains(n as int),
                forall|w: int, n: int|
                    0 <= w < k && #[trigger] commit_surviving(repo.commits@[w], excl).contains(n)
                        ==> 0 <= n <= u64::MAX,
                forall|w: int|
                    0 <= w < k ==> !commit_has_oversized_id(#[trigger] repo.commits@[w]),
                forall|w: int, c: int|
                    0 <= w < t && 0 <= c < repos@[w].commits@.len() ==> !commit_has_oversized_id(
                        #[trigger] repos@[w].commits@[c],
                    ),
                unparsed@ == repo.commits@.subrange(0, k as int).filter(
                    |c: UnreleasedCommit| commit_is_unparsed(c, excl),
                ),
            decreases commit_count - k,
        {
            let commit = &repo.commits[k];
            let surviving = match surviving_ids_of_commit(commit, exclude_story_ids) {
                Ok(ids) => ids,
                Err(e) => {
                    proof {
                        assert(commit_has_oversized_id(repos@[t as int].commits@[k as int]));
                    }
                    return Err(e);
                },
            };
            let ghost prefix0 = repo.commits@.subrange(0, k as int);
            let ghost prefix1 = repo.commits@.subrange(0, k as int + 1);
            if surviving.len() == 0 {
                unparsed.push(commit.duplicate());
                proof {
                    assert(commit_is_unparsed(*commit, excl)) by {
                        assert forall|n: int| !commit_surviving(*commit, excl).contains(n) by {
                            if commit_surviving(*commit, excl).contains(n) {
                                assert(0 <= n <= u64::MAX);
                                assert(surviving@.contains(n as u64));
                            }
                        }
                    }
                }
            } else {
                let surviving_count = surviving.len();
                let mut u: usize = 0;
                while u < surviving_count
                    invariant
                        surviving_count == surviving@.len(),
                        u <= surviving_count,
                        t < repo_count,
                        repo_count == repos@.len(),
                        repo == &repos@[t as int],
                        commit_count == repo.commits@.len(),
                        k < commit_count,
                        commit == &repo.commits@[k as int],
                        excl == story_id_set(exclude_story_ids@),
                        sorted_unique(surviving@),
                        forall|n: u64|
                            surviving@.contains(n) <==> commit_surviving(*commit, excl).contains(
                                n as int,
                            ),
                        sorted_unique(raw_ids@),
                        forall|n: u64|
                            raw_ids@.contains(n) <==> (exists|w: int|
                                0 <= w < k && commit_surviving(
                                    #[trigger] repo.commits@[w],
                                    excl,
                                ).contains(n as int)) || (exists|w: int|
                                0 <= w < u && #[trigger] surviving@[w] == n),
                    decreases surviving_count - u,
                {
                    insert_sorted_unique(&mut raw_ids, surviving[u]);
                    proof {
                        assert(surviving@.contains(surviving@[u as int]));
                    }
                    u += 1;
                }
                proof {
                    assert(!commit_is_unparsed(*commit, excl)) by {
                        assert(surviving@.contains(surviving@[0]));
                        assert(commit_surviving(*commit, excl).contains(surviving@[0] as int));
                    }
                    assert forall|n: u64|
                        raw_ids@.contains(n) <==> exists|w: int|
                            0 <= w < k + 1 && commit_surviving(
                                #[trigger] repo.commits@[w],
                                excl,
                            ).contains(n as int) by {
                        if raw_ids@.contains(n) {
                            if exists|w: int| 0 <= w < surviving@.len() && surviving@[w] == n {
                                assert(surviving@.contains(n));
                                assert(commit_surviving(repo.commits@[k as int], excl).contains(
                                    n as int,
                                ));
                            }
                        }
                        if exists|w: int|
                            0 <= w < k + 1 && commit_surviving(
                                #[trigger] repo.commits@[w],
                                excl,
                            ).contains(n as int) {
                            let w = choose|w: int|
                                0 <= w < k + 1 && commit_surviving(
                                    #[trigger] repo.commits@[w],
                                    excl,
                                ).contains(n as int);
                            if w == k as int {
                                assert(surviving@.contains(n));
                                let v = choose|v: int|
                                    0 <= v < surviving@.len() && surviving@[v] == n;
                                assert(raw_ids@.contains(n));
                            }
                        }
                    }
                }
            }
            proof {
                reveal(Seq::filter);
                assert(prefix1.drop_last() =~= prefix0);
                assert(prefix1.last() == repo.commits@[k as int]);
                let pred = |c: UnreleasedCommit| commit_is_unparsed(c, excl);
                if surviving@.len() == 0 {
                    assert(unparsed@ =~= prefix1.filter(pred));
                } else {
                    assert(unparsed@ =~= prefix1.filter(pred));
                }
            }
            k += 1;
        }
        let story_ids = to_story_ids(&raw_ids);
        let repo_name = repo.name.duplicate();
        let parsed = RepoParsedCommits { name: repo_name, story_ids, unparsed_commits: unparsed };
        proof {
            assert(repo.commits@.subrange(0, commit_count as int) =~= repo.commits@);
            assert forall|n: int|
                story_id_set(parsed.story_ids@).contains(n) <==> exists|c: int|
                    0 <= c < repos@[t as int].commits@.len() && commit_surviving(
                        #[trigger] repos@[t as int].commits@[c],
                        excl,
                    ).contains(n) by {
                if story_id_set(parsed.story_ids@).contains(n) {
                    let w = choose|w: int|
                        0 <= w < parsed.story_ids@.len() && parsed.story_ids@[w]@ == n;
                    assert(raw_ids@[w] as int == n);
                    assert(raw_ids@.contains(raw_ids@[w]));
                }
                if exists|c: int|
                    0 <= c < repos@[t as int].commits@.len() && commit_surviving(
                        #[trigger] repos@[t as int].commits@[c],
                        excl,
                    ).contains(n) {
                    let c0 = choose|c: int|
                        0 <= c < repos@[t as int].commits@.len() && commit_surviving(
                            #[trigger] repos@[t as int].commits@[c],
                            excl,
                        ).contains(n);
                    assert(0 <= n <= u64::MAX);
                    assert(raw_ids@.contains(n as u64));
                    let w = choose|w: int| 0 <= w < raw_ids@.len() && raw_ids@[w] == n as u64;
                    assert(parsed.story_ids@[w]@ == n);
                }
            }
            assert(story_ids_sorted(parsed.story_ids@)) by {
                assert forall|a: int, b: int|
                    0 <= a < b < parsed.story_ids@.len() implies parsed.story_ids@[a]@
                    < parsed.story_ids@[b]@ by {
                    assert(raw_ids@[a] < raw_ids@[b]);
                }
            }
            assert(repo_parsed_ok(repos@[t as int], parsed, excl));
        }
        out.push(parsed);
        t += 1;
    }
    Ok(ParsedCommits { repos: out })
}

/// An issue-tracker story, as an immutable snapshot of the fields the
/// aggregator reads: identifier, title, labels, and owning epic, if any.
#[derive(Debug, Clone, PartialEq, Eq)]
pub struct Story {
    pub id: StoryId,
    pub name: String,
    pub labels: Vec<String>,
    pub epic_id: Option<u64>,
}

/// An issue-tracker epic, as an immutable snapshot.
#[derive(Debug, Clone, PartialEq, Eq)]
pub struct Epic {
    pub id: u64,
    pub name: String,
}

/// Some entry of `v` has exactly the text `l`.
pub open spec fn contains_text(v: Seq<String>, l: Seq<char>) -> bool {
    exists|t: int| 0 <= t < v.len() && #[trigger] v[t]@ == l
}

/// Some label occurs in both lists.
pub open spec fn has_common_label(a: Seq<String>, b: Seq<String>) -> bool {
    exists|t: int| 0 <= t < a.len() && #[trigger] contains_text(b, a[t]@)
}

/// Label filter for stories: exclusion always wins over inclusion, and an
/// empty inclusion list keeps everything not excluded.
#[derive(Debug, Clone, PartialEq, Eq)]
pub struct StoryLabelFilter {
    pub exclude_labels: Vec<String>,
    pub include_labels: Vec<String>,
}

/// The filter keeps the story: no label of it is excluded, and, when the
/// inclusion list is not empty, some label of it is included.
pub open spec fn story_retained(s: Story, f: StoryLabelFilter) -> bool {
    &&& !has_common_label(s.labels@, f.exclude_labels@)
    &&& (f.include_labels@.len() == 0 || has_common_label(s.labels@, f.include_labels@))
}

impl StoryLabelFilter {
    pub fn new(exclude: Vec<String>, includes: Vec<String>) -> (r: Self)
        ensures
            r.exclude_labels == exclude,
            r.include_labels == includes,
    {
        StoryLabelFilter { exclude_labels: exclude, include_labels: includes }
    }

    /// Applies the filter to one story.
    pub fn retains(&self, story: &Story) -> (r: bool)
        ensures
            r == story_retained(*story, *self),
    {
        let excluded = labels_intersect(&story.labels, &self.exclude_labels);
        if excluded {
            false
        } else if self.include_labels.len() == 0 {
            true
        } else {
            labels_intersect(&story.labels, &self.include_labels)
        }
    }
}

/// Some entry of `v` has exactly the text of `l`.
fn text_list_contains(v: &Vec<String>, l: &String) -> (r: bool)
    ensures
        r == contains_text(v@, l@),
{
    let text_count = v.len();
    let mut t: usize = 0;
    while t < text_count
        invariant
            text_count == v@.len(),
            t <= text_count,
            forall|w: int| 0 <= w < t ==> #[trigger] v@[w]@ != l@,
        decreases text_count - t,
    {
        if v[t] == *l {
            return true;
        }
        t += 1;
    }
    false
}

/// Some label occurs in both lists.
fn labels_intersect(a: &Vec<String>, b: &Vec<String>) -> (r: bool)
    ensures
        r == has_common_label(a@, b@),
{
    let label_count = a.len();
    let mut t: usize = 0;
    while t < label_count
        invariant
            label_count == a@.len(),
            t <= label_count,
            forall|w: int| 0 <= w < t ==> !(#[trigger] contains_text(b@, a@[w]@)),
        decreases label_count - t,
    {
        if text_list_contains(b, &a[t]) {
            return true;
        }
        t += 1;
    }
    false
}

/// A story that carries any excluded label is dropped, whatever other
/// labels it carries: exclusion wins over inclusion.
pub proof fn lemma_exclude_wins(s: Story, f: StoryLabelFilter)
    requires
        has_common_label(s.labels@, f.exclude_labels@),
    ensures
        !story_retained(s, f),
{
}

/// With an empty exclusion list, a story carrying an included label is
/// kept.
pub proof fn lemma_included_kept(s: Story, f: StoryLabelFilter)
    requires
        f.exclude_labels@.len() == 0,
        has_common_label(s.labels@, f.include_labels@),
    ensures
        story_retained(s, f),
{
}

/// A story without labels is kept exactly when the inclusion list is
/// empty.
pub proof fn lemma_unlabeled_story(s: Story, f: StoryLabelFilter)
    requires
        s.labels@.len() == 0,
    ensures
        story_retained(s, f) <==> f.include_labels@.len() == 0,
{
}

/// The stories are strictly ascending by identifier (hence one story per
/// identifier).
pub open spec fn stories_sorted(v: Seq<Story>) -> bool {
    forall|a: int, b: int| 0 <= a < b < v.len() ==> v[a].id@ < v[b].id@
}

/// Some story in `v` has the identifier value `n`.
pub open spec fn has_story_id(v: Seq<Story>, n: int) -> bool {
    exists|k: int| 0 <= k < v.len() && #[trigger] v[k].id@ == n
}

/// Two distinct positions of an identifier-sorted story list never carry
/// the same identifier.
pub proof fn lemma_stories_dedup(v: Seq<Story>, a: int, b: int)
    requires
        stories_sorted(v),
        0 <= a < b < v.len(),
    ensures
        v[a].id@ != v[b].id@,
{
}

/// Inserts a story into an identifier-sorted vector; an identifier that is
/// already present keeps its existing story.
#[verifier::rlimit(50)]
fn insert_story_sorted(v: &mut Vec<Story>, s: Story)
    requires
        stories_sorted(old(v)@),
    ensures
        stories_sorted(final(v)@),
        forall|k: int|
            0 <= k < final(v)@.len() ==> old(v)@.contains(#[trigger] final(v)@[k]) || final(v)@[k]
                == s,
        forall|n: int| has_story_id(final(v)@, n) <==> (has_story_id(old(v)@, n) || n == s.id@),
{
    let mut pos: usize = 0;
    while pos < v.len() && v[pos].id.value() < s.id.value()
        invariant
            pos <= v@.len(),
            stories_sorted(v@),
            v == old(v),
            forall|t: int| 0 <= t < pos ==> v@[t].id@ < s.id@,
        decreases v@.len() - pos,
    {
        pos += 1;
    }
    if pos < v.len() {
        if v[pos].id.value() == s.id.value() {
            proof {
                assert(v@[pos as int].id@ == s.id@);
                assert forall|n: int|
                    has_story_id(v@, n) <==> (has_story_id(old(v)@, n) || n == s.id@) by {
                    if n == s.id@ {
                        assert(v@[pos as int].id@ == n);
                    }
                }
                assert forall|k: int|
                    0 <= k < v@.len() implies old(v)@.contains(#[trigger] v@[k]) || v@[k] == s by {
                    assert(old(v)@[k] == v@[k]);
                }
            }
            return ;
        }
    }
    let ghost before = v@;
    v.insert(pos, s);
    proof {
        before.insert_ensures(pos as int, s);
        assert(v@ =~= before.insert(pos as int, s));
        assert(pos < before.len() ==> before[pos as int].id@ > s.id@);
        assert forall|a: int, b: int| 0 <= a < b < v@.len() implies v@[a].id@ < v@[b].id@ by {
            if b < pos {
                assert(v@[a] == before[a] && v@[b] == before[b]);
            } else if b == pos {
                assert(v@[a] == before[a] && v@[b] == s);
            } else if a < pos {
                assert(v@[a] == before[a] && v@[b] == before[b - 1]);
                assert(before[a].id@ < s.id@);
                if b - 1 > pos {
                    assert(before[pos as int].id@ < before[b - 1].id@);
                }
            } else if a == pos {
                assert(v@[a] == s && v@[b] == before[b - 1]);
                if b - 1 > pos {
                    assert(before[pos as int].id@ < before[b - 1].id@);
                }
            } else {
                assert(v@[a] == before[a - 1] && v@[b] == before[b - 1]);
            }
        }
        assert forall|k: int|
            0 <= k < v@.len() implies before.contains(#[trigger] v@[k]) || v@[k] == s by {
            if k < pos {
                assert(v@[k] == before[k]);
            } else if k > pos {
                assert(v@[k] == before[k - 1]);
            }
        }
        assert forall|n: int|
            has_story_id(v@, n) <==> (has_story_id(before, n) || n == s.id@) by {
            if has_story_id(v@, n) {
                let k = choose|k: int| 0 <= k < v@.len() && v@[k].id@ == n;
                if k < pos {
                    assert(before[k].id@ == n);
                } else if k > pos {
                    assert(before[k - 1].id@ == n);
                }
            }
            if has_story_id(before, n) {
                let k = choose|k: int| 0 <= k < before.len() && before[k].id@ == n;
                if k < pos {
                    assert(v@[k].id@ == n);
                } else {
                    assert(v@[k + 1].id@ == n);
                }
            }
            if n == s.id@ {
                assert(v@[pos as int].id@ == n);
            }
        }
    }
}

/// The story was fetched by some lookup.
pub open spec fn story_found_in(outcomes: Seq<StoryFetchOutcome>, s: Story) -> bool {
    exists|t: int| 0 <= t < outcomes.len() && outcomes[t] == StoryFetchOutcome::Found(s)
}

/// The epic was fetched by some lookup.
pub open spec fn epic_found_in(outcomes: Seq<EpicFetchOutcome>, e: Epic) -> bool {
    exists|t: int| 0 <= t < outcomes.len() && outcomes[t] == EpicFetchOutcome::Found(e)
}

/// Result of one story lookup against the issue tracker.
#[derive(Debug, Clone, PartialEq, Eq)]
pub enum StoryFetchOutcome {
    /// The story exists and was fetched.
    Found(Story),
    /// The story could not be fetched for a reason that is not fatal:
    /// absent from the tracker, or a transient failure.
    Missing,
    /// The tracker rejected the credentials; no later fetch can succeed.
    AuthFailure,
}

/// Result of one epic lookup against the issue tracker.
#[derive(Debug, Clone, PartialEq, Eq)]
pub enum EpicFetchOutcome {
    Found(Epic),
    Missing,
    AuthFailure,
}

/// Fatal aggregation failure.
#[derive(Debug, Clone, Copy, PartialEq, Eq, Structural)]
pub enum AggregationError {
    /// The issue tracker rejected the credentials.
    AuthenticationFailure,
}

/// Keeps, of the fetched stories, exactly those the label filter retains,
/// deduplicated and sorted by ascending identifier. Fails exactly when
/// some lookup failed for authentication, which is fatal; a story that is
/// merely missing is skipped.
pub fn select_stories(outcomes: Vec<StoryFetchOutcome>, filter: &StoryLabelFilter) -> (r: Result<
    Vec<Story>,
    AggregationError,
>)
    ensures
        match r {
            Ok(v) => {
                &&& forall|t: int|
                    0 <= t < outcomes@.len() ==> !(#[trigger] outcomes@[t] is AuthFailure)
                &&& stories_sorted(v@)
                &&& forall|k: int|
                    0 <= k < v@.len() ==> story_retained(#[trigger] v@[k], *filter)
                        && story_found_in(outcomes@, v@[k])
                &&& forall|t: int|
                    0 <= t < outcomes@.len() ==> match #[trigger] outcomes@[t] {
                        StoryFetchOutcome::Found(s) => story_retained(s, *filter) ==> has_story_id(
                            v@,
                            s.id@,
                        ),
                        _ => true,
                    }
            },
            Err(e) => {
                &&& e == AggregationError::AuthenticationFailure
                &&& exists|t: int|
                    0 <= t < outcomes@.len() && (#[trigger] outcomes@[t] is AuthFailure)
            },
        },
{
    let mut remaining = outcomes;
    let mut v: Vec<Story> = Vec::new();
    while remaining.len() > 0
        invariant
            remaining@.len() <= outcomes@.len(),
            remaining@ =~= outcomes@.subrange(0, remaining@.len() as int),
            stories_sorted(v@),
            forall|k: int|
                0 <= k < v@.len() ==> story_retained(#[trigger] v@[k], *filter) && story_found_in(
                    outcomes@,
                    v@[k],
                ),
            forall|t: int|
                remaining@.len() <= t < outcomes@.len() ==> !(#[trigger] outcomes@[t] is AuthFailure),
            forall|t: int|
                remaining@.len() <= t < outcomes@.len() ==> match #[trigger] outcomes@[t] {
                    StoryFetchOutcome::Found(s) => story_retained(s, *filter) ==> has_story_id(
                        v@,
                        s.id@,
                    ),
                    _ => true,
                },
        decreases remaining@.len(),
    {
        let ghost t0 = remaining@.len() - 1;
        let outcome = remaining.pop().unwrap();
        proof {
            assert(outcome == outcomes@[t0]);
        }
        match outcome {
            StoryFetchOutcome::AuthFailure => {
                proof {
                    assert(outcomes@[t0] is AuthFailure);
                }
                return Err(AggregationError::AuthenticationFailure);
            },
            StoryFetchOutcome::Missing => {},
            StoryFetchOutcome::Found(s) => {
                let keep = filter.retains(&s);
                if keep {
                    let ghost v0 = v@;
                    proof {
                        assert(outcomes@[t0] == StoryFetchOutcome::Found(s));
                        assert(story_found_in(outcomes@, s));
                    }
                    insert_story_sorted(&mut v, s);
                    proof {
                        assert forall|k: int|
                            0 <= k < v@.len() implies story_retained(#[trigger] v@[k], *filter)
                            && story_found_in(outcomes@, v@[k]) by {
                            if v@[k] != s {
                                assert(v0.contains(v@[k]));
                                let i = choose|i: int| 0 <= i < v0.len() && v0[i] == v@[k];
                                assert(story_retained(v0[i], *filter));
                            }
                        }
                    }
                }
            },
        }
    }
    Ok(v)
}

/// The distinct owning-epic identifiers among the given stories, in
/// ascending order: exactly the epics the release bundle carries.
pub fn epic_ids_of(stories: &Vec<Story>) -> (r: Vec<u64>)
    ensures
        sorted_unique(r@),
        forall|n: u64|
            r@.contains(n) <==> exists|k: int|
                0 <= k < stories@.len() && #[trigger] stories@[k].epic_id == Some(n),
{
    let story_count = stories.len();
    let mut r: Vec<u64> = Vec::new();
    let mut k: usize = 0;
    while k < story_count
        invariant
            story_count == stories@.len(),
            k <= story_count,
            sorted_unique(r@),
            forall|n: u64|
                r@.contains(n) <==> exists|w: int|
                    0 <= w < k && #[trigger] stories@[w].epic_id == Some(n),
        decreases story_count - k,
    {
        match stories[k].epic_id {
            Some(e) => {
                insert_sorted_unique(&mut r, e);
                proof {
                    assert(stories@[k as int].epic_id == Some(e));
                }
            },
            None => {},
        }
        k += 1;
    }
    r
}

/// The epics are strictly ascending by identifier.
pub open spec fn epics_sorted(v: Seq<Epic>) -> bool {
    forall|a: int, b: int| 0 <= a < b < v.len() ==> v[a].id < v[b].id
}

/// Some epic in `v` has the identifier `n`.
pub open spec fn has_epic_id(v: Seq<Epic>, n: int) -> bool {
    exists|k: int| 0 <= k < v.len() && #[trigger] v[k].id as int == n
}

/// Inserts an epic into an identifier-sorted vector; an identifier that is
/// already present keeps its existing epic.
#[verifier::rlimit(50)]
fn insert_epic_sorted(v: &mut Vec<Epic>, e: Epic)
    requires
        epics_sorted(old(v)@),
    ensures
        epics_sorted(final(v)@),
        forall|k: int|
            0 <= k < final(v)@.len() ==> old(v)@.contains(#[trigger] final(v)@[k]) || final(v)@[k]
                == e,
        forall|n: int| has_epic_id(final(v)@, n) <==> (has_epic_id(old(v)@, n) || n == e.id as int),
{
    let mut pos: usize = 0;
    while pos < v.len() && v[pos].id < e.id
        invariant
            pos <= v@.len(),
            epics_sorted(v@),
            v == old(v),
            forall|t: int| 0 <= t < pos ==> v@[t].id < e.id,
        decreases v@.len() - pos,
    {
        pos += 1;
    }
    if pos < v.len() {
        if v[pos].id == e.id {
            proof {
                assert(v@[pos as int].id == e.id);
                assert forall|n: int|
                    has_epic_id(v@, n) <==> (has_epic_id(old(v)@, n) || n == e.id as int) by {
                    if n == e.id as int {
                        assert(v@[pos as int].id as int == n);
                    }
                }
                assert forall|k: int|
                    0 <= k < v@.len() implies old(v)@.contains(#[trigger] v@[k]) || v@[k] == e by {
                    assert(old(v)@[k] == v@[k]);
                }
            }
            return ;
        }
    }
    let ghost before = v@;
    v.insert(pos, e);
    proof {
        before.insert_ensures(pos as int, e);
        assert(v@ =~= before.insert(pos as int, e));
        assert(pos < before.len() ==> before[pos as int].id > e.id);
        assert forall|a: int, b: int| 0 <= a < b < v@.len() implies v@[a].id < v@[b].id by {
            if b < pos {
                assert(v@[a] == before[a] && v@[b] == before[b]);
            } else if b == pos {
                assert(v@[a] == before[a] && v@[b] == e);
            } else if a < pos {
                assert(v@[a] == before[a] && v@[b] == before[b - 1]);
                if b - 1 > pos {
                    assert(before[pos as int].id < before[b - 1].id);
                }
            } else if a == pos {
                assert(v@[a] == e && v@[b] == before[b - 1]);
                if b - 1 > pos {
                    assert(before[pos as int].id < before[b - 1].id);
                }
            } else {
                assert(v@[a] == before[a - 1] && v@[b] == before[b - 1]);
            }
        }
        assert forall|k: int|
            0 <= k < v@.len() implies before.contains(#[trigger] v@[k]) || v@[k] == e by {
            if k < pos {
                assert(v@[k] == before[k]);
            } else if k > pos {
                assert(v@[k] == before[k - 1]);
            }
        }
        assert forall|n: int|
            has_epic_id(v@, n) <==> (has_epic_id(before, n) || n == e.id as int) by {
            if has_epic_id(v@, n) {
                let k = choose|k: int| 0 <= k < v@.len() && v@[k].id as int == n;
                if k < pos {
                    assert(before[k].id as int == n);
                } else if k > pos {
                    assert(before[k - 1].id as int == n);
                }
            }
            if has_epic_id(before, n) {
                let k = choose|k: int| 0 <= k < before.len() && before[k].id as int == n;
                if k < pos {
                    assert(v@[k].id as int == n);
                } else {
                    assert(v@[k + 1].id as int == n);
                }
            }
            if n == e.id as int {
                assert(v@[pos as int].id as int == n);
            }
        }
    }
}

/// Keeps, of the fetched epics, one per identifier, sorted ascending.
/// Fails exactly when some lookup failed for authentication; a merely
/// missing epic is skipped.
pub fn select_epics(outcomes: Vec<EpicFetchOutcome>) -> (r: Result<Vec<Epic>, AggregationError>)
    ensures
        match r {
            Ok(v) => {
                &&& forall|t: int|
                    0 <= t < outcomes@.len() ==> !(#[trigger] outcomes@[t] is AuthFailure)
                &&& epics_sorted(v@)
                &&& forall|k: int|
                    0 <= k < v@.len() ==> epic_found_in(outcomes@, #[trigger] v@[k])
                &&& forall|t: int|
                    0 <= t < outcomes@.len() ==> match #[trigger] outcomes@[t] {
                        EpicFetchOutcome::Found(e) => has_epic_id(v@, e.id as int),
                        _ => true,
                    }
            },
            Err(e) => {
                &&& e == AggregationError::AuthenticationFailure
                &&& exists|t: int|
                    0 <= t < outcomes@.len() && (#[trigger] outcomes@[t] is AuthFailure)
            },
        },
{
    let mut remaining = outcomes;
    let mut v: Vec<Epic> = Vec::new();
    while remaining.len() > 0
        invariant
            remaining@.len() <= outcomes@.len(),
            remaining@ =~= outcomes@.subrange(0, remaining@.len() as int),
            epics_sorted(v@),
            forall|k: int|
                0 <= k < v@.len() ==> epic_found_in(outcomes@, #[trigger] v@[k]),
            forall|t: int|
                remaining@.len() <= t < outcomes@.len() ==> !(#[trigger] outcomes@[t] is AuthFailure),
            forall|t: int|
                remaining@.len() <= t < outcomes@.len() ==> match #[trigger] outcomes@[t] {
                    EpicFetchOutcome::Found(e) => has_epic_id(v@, e.id as int),
                    _ => true,
                },
        decreases remaining@.len(),
    {
        let ghost t0 = remaining@.len() - 1;
        let outcome = remaining.pop().unwrap();
        proof {
            assert(outcome == outcomes@[t0]);
        }
        match outcome {
            EpicFetchOutcome::AuthFailure => {
                proof {
                    assert(outcomes@[t0] is AuthFailure);
                }
                return Err(AggregationError::AuthenticationFailure);
            },
            EpicFetchOutcome::Missing => {},
            EpicFetchOutcome::Found(e) => {
                let ghost v0 = v@;
                proof {
                    assert(outcomes@[t0] == EpicFetchOutcome::Found(e));
                    assert(epic_found_in(outcomes@, e));
                }
                insert_epic_sorted(&mut v, e);
                proof {
                    assert forall|k: int|
                        0 <= k < v@.len() implies epic_found_in(outcomes@, #[trigger] v@[k]) by {
                        if v@[k] != e {
                            assert(v0.contains(v@[k]));
                            let i = choose|i: int| 0 <= i < v0.len() && v0[i] == v@[k];
                            assert(epic_found_in(outcomes@, v0[i]));
                        }
                    }
                }
            },
        }
    }
    Ok(v)
}

/// The deduplicated identifiers referenced anywhere, across all
/// repositories, in ascending order: the stories to fetch, each once.
pub fn collect_story_ids(parsed: &ParsedCommits) -> (r: Vec<StoryId>)
    ensures
        story_ids_sorted(r@),
        forall|n: int|
            story_id_set(r@).contains(n) <==> exists|t: int|
                0 <= t < parsed.repos@.len() && story_id_set(
                    #[trigger] parsed.repos@[t].story_ids@,
                ).contains(n),
{
    let repo_count = parsed.repos.len();
    let mut raw: Vec<u64> = Vec::new();
    let mut t: usize = 0;
    while t < repo_count
        invariant
            repo_count == parsed.repos@.len(),
            t <= repo_count,
            sorted_unique(raw@),
            forall|n: u64|
                raw@.contains(n) <==> exists|w: int|
                    0 <= w < t && story_id_set(#[trigger] parsed.repos@[w].story_ids@).contains(
                        n as int,
                    ),
        decreases repo_count - t,
    {
        let repo_ids = &parsed.repos[t].story_ids;
        let id_count = repo_ids.len();
        let mut k: usize = 0;
        while k < id_count
            invariant
                repo_count == parsed.repos@.len(),
                t < repo_count,
                repo_ids == &parsed.repos@[t as int].story_ids,
                id_count == repo_ids@.len(),
                k <= id_count,
                sorted_unique(raw@),
                forall|n: u64|
                    raw@.contains(n) <==> (exists|w: int|
                        0 <= w < t && story_id_set(#[trigger] parsed.repos@[w].story_ids@).contains(
                            n as int,
                        )) || (exists|w: int| 0 <= w < k && #[trigger] repo_ids@[w]@ == n as int),
            decreases id_count - k,
        {
            insert_sorted_unique(&mut raw, repo_ids[k].value());
            k += 1;
        }
        proof {
            assert forall|n: u64|
                raw@.contains(n) <==> exists|w: int|
                    0 <= w < t + 1 && story_id_set(#[trigger] parsed.repos@[w].story_ids@).contains(
                        n as int,
                    ) by {
                if raw@.contains(n) {
                    if exists|w: int| 0 <= w < id_count && #[trigger] repo_ids@[w]@ == n as int {
                        assert(story_id_set(parsed.repos@[t as int].story_ids@).contains(n as int));
                    }
                }
                if exists|w: int|
                    0 <= w < t + 1 && story_id_set(#[trigger] parsed.repos@[w].story_ids@).contains(
                        n as int,
                    ) {
                    let w = choose|w: int|
                        0 <= w < t + 1 && story_id_set(
                            #[trigger] parsed.repos@[w].story_ids@,
                        ).contains(n as int);
                    if w == t as int {
                        let k0 = choose|k0: int|
                            0 <= k0 < repo_ids@.len() && repo_ids@[k0]@ == n as int;
                        assert(repo_ids@[k0]@ == n as int);
                    }
                }
            }
        }
        t += 1;
    }
    let r = to_story_ids(&raw);
    proof {
        assert forall|n: int|
            story_id_set(r@).contains(n) <==> exists|t1: int|
                0 <= t1 < parsed.repos@.len() && story_id_set(
                    #[trigger] parsed.repos@[t1].story_ids@,
                ).contains(n) by {
            if story_id_set(r@).contains(n) {
                let w = choose|w: int| 0 <= w < r@.len() && r@[w]@ == n;
                assert(raw@[w] as int == n);
                assert(raw@.contains(raw@[w]));
            }
            if exists|t1: int|
                0 <= t1 < parsed.repos@.len() && story_id_set(
                    #[trigger] parsed.repos@[t1].story_ids@,
                ).contains(n) {
                let t1 = choose|t1: int|
                    0 <= t1 < parsed.repos@.len() && story_id_set(
                        #[trigger] parsed.repos@[t1].story_ids@,
                    ).contains(n);
                let k1 = choose|k1: int|
                    0 <= k1 < parsed.repos@[t1].story_ids@.len()
                        && parsed.repos@[t1].story_ids@[k1]@ == n;
                assert(0 <= n <= u64::MAX);
                assert(raw@.contains(n as u64));
                let w = choose|w: int| 0 <= w < raw@.len() && raw@[w] == n as u64;
                assert(r@[w]@ == n);
            }
        }
        assert(story_ids_sorted(r@)) by {
            assert forall|a: int, b: int| 0 <= a < b < r@.len() implies r@[a]@ < r@[b]@ by {
                assert(raw@[a] < raw@[b]);
            }
        }
    }
    r
}

/// The aggregator's output: the retained stories and their owning epics,
/// each deduplicated and sorted by identifier, and the unparsed commits
/// carried through per repository.
#[derive(Debug, Clone, PartialEq, Eq)]
pub struct ReleaseContent {
    pub stories: Vec<Story>,
    pub epics: Vec<Epic>,
    pub unparsed_commits: Vec<RepoCommits>,
}

/// In a parsed repository, every commit stands on exactly one side: it is
/// listed unparsed exactly when it has no surviving identifier, and
/// otherwise each of its surviving identifiers reaches the repository's
/// identifier set.
pub proof fn lemma_commit_partition(
    inp: RepoCommits,
    outp: RepoParsedCommits,
    excl: Set<int>,
    c: int,
)
    requires
        repo_parsed_ok(inp, outp, excl),
        0 <= c < inp.commits@.len(),
    ensures
        commit_is_unparsed(inp.commits@[c], excl) ==> outp.unparsed_commits@.contains(
            inp.commits@[c],
        ),
        forall|n: int|
            commit_surviving(inp.commits@[c], excl).contains(n) ==> story_id_set(
                outp.story_ids@,
            ).contains(n),
        forall|k: int|
            0 <= k < outp.unparsed_commits@.len() ==> commit_is_unparsed(
                #[trigger] outp.unparsed_commits@[k],
                excl,
            ),
{
    let pred = |cc: UnreleasedCommit| commit_is_unparsed(cc, excl);
    let commits = inp.commits@;
    if pred(commits[c]) {
        commits.lemma_filter_contains(pred, c);
    }
    assert forall|k: int|
        0 <= k < outp.unparsed_commits@.len() implies commit_is_unparsed(
        #[trigger] outp.unparsed_commits@[k],
        excl,
    ) by {
        commits.lemma_filter_pred(pred, k);
    }
}

} // verus!
