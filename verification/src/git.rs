//! Reference repository accessor.
//!
//! Works on a read-only snapshot of a repository's commit graph and
//! computes the one-sided ancestry difference between a *next* reference
//! and a *release* reference: the commits reachable from next but not from
//! release, together with the head commit of next.

use vstd::prelude::*;
use vstd::pervasive::VecAdditionalExecFns;

use crate::types::{
    duplicate_message, message_view, CommitSha, HeadCommit, RepositoryConfiguration,
    RepositoryReference, UnreleasedCommit,
};

verus! {

/// One commit in a repository snapshot. Parents are indices into the
/// snapshot's commit table; the table is in topological order, so every
/// parent index is smaller than the commit's own index.
#[derive(Debug, Clone, PartialEq, Eq)]
pub struct CommitNode {
    pub id: CommitSha,
    pub message: Option<String>,
    pub parents: Vec<usize>,
}

/// A named reference resolved to a commit index.
#[derive(Debug, Clone, PartialEq, Eq)]
pub struct RefEntry {
    pub name: RepositoryReference,
    pub target: usize,
}

/// Read-only snapshot of a repository: its commit graph in topological
/// order (parents first) and its named references.
#[derive(Debug, Clone, PartialEq, Eq)]
pub struct RepositorySnapshot {
    pub commits: Vec<CommitNode>,
    pub refs: Vec<RefEntry>,
}

/// Fatal accessor error: a reference name did not resolve to any commit.
#[derive(Debug, Clone, PartialEq, Eq)]
pub enum AccessError {
    ReferenceResolutionError(RepositoryReference),
}

/// The accessor's output: the ordered unreleased commits and the head of
/// the next reference.
#[derive(Debug, Clone, PartialEq, Eq)]
pub struct UnreleasedCommits {
    pub unreleased_commits: Vec<UnreleasedCommit>,
    pub next_head: HeadCommit,
}

impl RepositorySnapshot {
    /// Parent indices of the commit at index `i`.
    pub open spec fn parents_of(self, i: int) -> Seq<usize> {
        self.commits@[i].parents@
    }

    pub open spec fn commit_count(self) -> int {
        self.commits@.len() as int
    }

    /// Topological well-formedness: every parent index points at an
    /// earlier commit, and every reference targets a commit.
    pub open spec fn well_formed(self) -> bool {
        &&& forall|i: int, j: int|
            0 <= i < self.commit_count() && 0 <= j < self.parents_of(i).len() ==> (
            #[trigger] self.parents_of(i)[j]) < i
        &&& forall|r: int|
            0 <= r < self.refs@.len() ==> (#[trigger] self.refs@[r].target) < self.commit_count()
    }

    /// Runtime check for `well_formed`, for callers that assembled the
    /// snapshot outside verified code.
    pub fn check_well_formed(&self) -> (b: bool)
        ensures
            b == self.well_formed(),
    {
        let commit_count = self.commits.len();
        let mut i: usize = 0;
        while i < commit_count
            invariant
                i <= commit_count,
                commit_count == self.commit_count(),
                forall|i0: int, j0: int|
                    0 <= i0 < i && 0 <= j0 < self.parents_of(i0).len() ==> (
                    #[trigger] self.parents_of(i0)[j0]) < i0,
            decreases commit_count - i,
        {
            let parent_count = self.commits[i].parents.len();
            let mut j: usize = 0;
            while j < parent_count
                invariant
                    i < commit_count,
                    j <= parent_count,
                    commit_count == self.commit_count(),
                    parent_count == self.parents_of(i as int).len(),
                    forall|j0: int|
                        0 <= j0 < j ==> (#[trigger] self.parents_of(i as int)[j0]) < i,
                decreases parent_count - j,
            {
                if self.commits[i].parents[j] >= i {
                    return false;
                }
                j += 1;
            }
            i += 1;
        }
        let ref_count = self.refs.len();
        let mut r: usize = 0;
        while r < ref_count
            invariant
                r <= ref_count,
                ref_count == self.refs@.len(),
                commit_count == self.commit_count(),
                forall|i0: int, j0: int|
                    0 <= i0 < self.commit_count() && 0 <= j0 < self.parents_of(i0).len() ==> (
                    #[trigger] self.parents_of(i0)[j0]) < i0,
                forall|r0: int| 0 <= r0 < r ==> (#[trigger] self.refs@[r0].target) < self.commit_count(),
            decreases ref_count - r,
        {
            if self.refs[r].target >= commit_count {
                return false;
            }
            r += 1;
        }
        true
    }
}

/// Commit `to` is an ancestor of (or equal to) commit `from`.
pub open spec fn reachable(s: RepositorySnapshot, from: int, to: int) -> bool
    decreases from,
        when s.well_formed() && 0 <= from < s.commit_count()
{
    from == to || exists|k: int|
        0 <= k < s.parents_of(from).len() && reachable(s, s.parents_of(from)[k] as int, to)
}

/// Every parent of a commit is reachable from it.
proof fn lemma_reachable_step(s: RepositorySnapshot, from: int, k: int)
    requires
        s.well_formed(),
        0 <= from < s.commit_count(),
        0 <= k < s.parents_of(from).len(),
    ensures
        reachable(s, from, s.parents_of(from)[k] as int),
{
    let p = s.parents_of(from)[k] as int;
    assert(reachable(s, p, p));
    assert(reachable(s, from, p));
}

/// Reachability is transitive.
proof fn lemma_reachable_trans(s: RepositorySnapshot, a: int, b: int, c: int)
    requires
        s.well_formed(),
        0 <= a < s.commit_count(),
        reachable(s, a, b),
        reachable(s, b, c),
    ensures
        reachable(s, a, c),
    decreases a,
{
    if a != b {
        let k = choose|k: int|
            0 <= k < s.parents_of(a).len() && reachable(s, s.parents_of(a)[k] as int, b);
        lemma_reachable_trans(s, s.parents_of(a)[k] as int, b, c);
        assert(reachable(s, a, c));
    }
}

/// A per-commit flag set that is closed under the parent step: whatever it
/// holds, it also holds every parent of it.
pub open spec fn blocked_closed(s: RepositorySnapshot, blocked: Seq<bool>) -> bool {
    forall|i: int, j: int|
        #![trigger blocked[i], s.parents_of(i)[j]]
        0 <= i < s.commit_count() && blocked[i] && 0 <= j < s.parents_of(i).len()
            ==> blocked[s.parents_of(i)[j] as int]
}

/// A step-closed flag set holds everything reachable from a flagged commit.
proof fn lemma_blocked_reachable(s: RepositorySnapshot, blocked: Seq<bool>, a: int, b: int)
    requires
        s.well_formed(),
        blocked.len() == s.commit_count(),
        blocked_closed(s, blocked),
        0 <= a < s.commit_count(),
        blocked[a],
        reachable(s, a, b),
    ensures
        blocked[b],
    decreases a,
{
    if a != b {
        let k = choose|k: int|
            0 <= k < s.parents_of(a).len() && reachable(s, s.parents_of(a)[k] as int, b);
        assert(blocked[s.parents_of(a)[k] as int]);
        lemma_blocked_reachable(s, blocked, s.parents_of(a)[k] as int, b);
    }
}

/// The parents of every visited commit are visited or blocked.
pub open spec fn visited_closed(s: RepositorySnapshot, blocked: Seq<bool>, visited: Seq<bool>) -> bool {
    forall|y: int, j: int|
        #![trigger visited[y], s.parents_of(y)[j]]
        0 <= y < s.commit_count() && visited[y] && 0 <= j < s.parents_of(y).len()
            ==> blocked[s.parents_of(y)[j] as int] || visited[s.parents_of(y)[j] as int]
}

/// A visited set that contains the root and is closed modulo a step-closed
/// blocked set contains every reachable, unblocked commit.
proof fn lemma_visited_complete(
    s: RepositorySnapshot,
    blocked: Seq<bool>,
    visited: Seq<bool>,
    root: int,
    x: int,
)
    requires
        s.well_formed(),
        blocked.len() == s.commit_count(),
        visited.len() == s.commit_count(),
        blocked_closed(s, blocked),
        visited_closed(s, blocked, visited),
        0 <= root < s.commit_count(),
        !blocked[root] ==> visited[root],
        reachable(s, root, x),
        !blocked[x],
    ensures
        visited[x],
    decreases root,
{
    if blocked[root] {
        lemma_blocked_reachable(s, blocked, root, x);
    } else if root != x {
        let k = choose|k: int|
            0 <= k < s.parents_of(root).len() && reachable(s, s.parents_of(root)[k] as int, x);
        let p = s.parents_of(root)[k] as int;
        if blocked[p] {
            lemma_blocked_reachable(s, blocked, p, x);
        } else {
            assert(visited[p]);
            lemma_visited_complete(s, blocked, visited, p, x);
        }
    }
}

/// Number of set flags, used to bound the traversal.
spec fn count_true(s: Seq<bool>) -> int
    decreases s.len(),
{
    if s.len() == 0 {
        0
    } else {
        count_true(s.drop_last()) + if s.last() {
            1int
        } else {
            0int
        }
    }
}

proof fn lemma_count_true_bounds(s: Seq<bool>)
    ensures
        0 <= count_true(s) <= s.len(),
    decreases s.len(),
{
    if s.len() > 0 {
        lemma_count_true_bounds(s.drop_last());
    }
}

proof fn lemma_count_true_update(s: Seq<bool>, i: int)
    requires
        0 <= i < s.len(),
        !s[i],
    ensures
        count_true(s.update(i, true)) == count_true(s) + 1,
    decreases s.len(),
{
    let t = s.update(i, true);
    if i == s.len() - 1 {
        assert(t.drop_last() =~= s.drop_last());
        assert(t.last());
    } else {
        assert(t.drop_last() =~= s.drop_last().update(i, true));
        assert(t.last() == s.last());
        lemma_count_true_update(s.drop_last(), i);
    }
}

/// Marks every commit reachable from `root` whose path never enters the
/// step-closed `blocked` set; the traversal visits each such commit once,
/// so its cost is bounded by the size of that set, not the whole history.
fn reach_avoiding(s: &RepositorySnapshot, root: usize, blocked: &Vec<bool>) -> (visited: Vec<bool>)
    requires
        s.well_formed(),
        (root as int) < s.commit_count(),
        blocked@.len() == s.commit_count(),
        blocked_closed(*s, blocked@),
    ensures
        visited@.len() == s.commit_count(),
        forall|x: int|
            0 <= x < s.commit_count() ==> (visited@[x] <==> (reachable(*s, root as int, x)
                && !blocked@[x])),
{
    let commit_count = s.commits.len();
    let mut visited: Vec<bool> = Vec::new();
    let mut fill: usize = 0;
    while fill < commit_count
        invariant
            fill <= commit_count,
            visited@.len() == fill,
            forall|x: int| 0 <= x < fill ==> !visited@[x],
        decreases commit_count - fill,
    {
        visited.push(false);
        fill += 1;
    }
    let mut stack: Vec<usize> = Vec::new();
    let root_blocked = blocked[root];
    if !root_blocked {
        visited.set(root, true);
        stack.push(root);
        proof {
            lemma_reachable_self(*s, root as int);
            assert(stack@[0] == root);
            assert(stack@.contains(root));
        }
    }
    proof {
        lemma_count_true_bounds(visited@);
    }
    while stack.len() > 0
        invariant
            commit_count == s.commit_count(),
            s.well_formed(),
            (root as int) < s.commit_count(),
            blocked@.len() == s.commit_count(),
            blocked_closed(*s, blocked@),
            visited@.len() == commit_count,
            0 <= count_true(visited@) <= commit_count,
            forall|x: int|
                0 <= x < commit_count && visited@[x] ==> reachable(*s, root as int, x)
                    && !blocked@[x],
            forall|t: int|
                0 <= t < stack@.len() ==> (#[trigger] stack@[t] as int) < commit_count
                    && visited@[stack@[t] as int],
            !blocked@[root as int] ==> visited@[root as int],
            forall|y: int, j: int|
                #![trigger visited@[y], s.parents_of(y)[j]]
                0 <= y < commit_count && visited@[y] && !stack@.contains(y as usize) && 0 <= j
                    < s.parents_of(y).len() ==> blocked@[s.parents_of(y)[j] as int]
                    || visited@[s.parents_of(y)[j] as int],
        decreases commit_count - count_true(visited@), stack@.len(),
    {
        let ghost count0 = count_true(visited@);
        let ghost stack0 = stack@;
        let node = stack.pop().unwrap();
        proof {
            assert(stack0[stack0.len() - 1] == node);
            assert(visited@[node as int]);
            assert forall|y: int, j0: int|
                0 <= y < commit_count && visited@[y] && !stack@.contains(y as usize) && y
                    != node as int && 0 <= j0 < s.parents_of(y).len()
                implies blocked@[s.parents_of(y)[j0] as int] || visited@[s.parents_of(y)[j0] as int] by {
                if stack0.contains(y as usize) {
                    let t = choose|t: int| 0 <= t < stack0.len() && stack0[t] == y as usize;
                    if t < stack0.len() - 1 {
                        assert(stack@[t] == y as usize);
                        assert(stack@.contains(y as usize));
                    }
                    assert(false);
                }
            }
        }
        let parent_count = s.commits[node].parents.len();
        let mut j: usize = 0;
        while j < parent_count
            invariant
                commit_count == s.commit_count(),
                s.well_formed(),
                (root as int) < s.commit_count(),
                blocked@.len() == s.commit_count(),
                blocked_closed(*s, blocked@),
                visited@.len() == commit_count,
                (node as int) < commit_count,
                visited@[node as int],
                parent_count == s.parents_of(node as int).len(),
                j <= parent_count,
                count0 <= count_true(visited@) <= commit_count,
                stack@.len() == stack0.len() - 1 + (count_true(visited@) - count0),
                forall|x: int|
                    0 <= x < commit_count && visited@[x] ==> reachable(*s, root as int, x)
                        && !blocked@[x],
                forall|t: int|
                    0 <= t < stack@.len() ==> (#[trigger] stack@[t] as int) < commit_count
                        && visited@[stack@[t] as int],
                !blocked@[root as int] ==> visited@[root as int],
                forall|j0: int|
                    0 <= j0 < j ==> blocked@[s.parents_of(node as int)[j0] as int]
                        || visited@[s.parents_of(node as int)[j0] as int],
                forall|y: int, j0: int|
                    #![trigger visited@[y], s.parents_of(y)[j0]]
                    0 <= y < commit_count && visited@[y] && !stack@.contains(y as usize) && y
                        != node as int && 0 <= j0 < s.parents_of(y).len() ==> blocked@[s.parents_of(
                        y,
                    )[j0] as int] || visited@[s.parents_of(y)[j0] as int],
            decreases parent_count - j,
        {
            let ghost stack_in = stack@;
            let p = s.commits[node].parents[j];
            let p_blocked = blocked[p];
            let p_visited = visited[p];
            if !p_blocked && !p_visited {
                proof {
                    lemma_reachable_step(*s, node as int, j as int);
                    lemma_reachable_trans(*s, root as int, node as int, p as int);
                    lemma_count_true_update(visited@, p as int);
                }
                visited.set(p, true);
                stack.push(p);
                proof {
                    lemma_count_true_bounds(visited@);
                    assert forall|y: usize| stack_in.contains(y) implies stack@.contains(y) by {
                        let t = choose|t: int| 0 <= t < stack_in.len() && stack_in[t] == y;
                        assert(stack@[t] == y);
                    }
                    assert(stack@[stack@.len() - 1] == p);
                    assert(stack@.contains(p));
                }
            }
            j += 1;
        }
    }
    proof {
        assert forall|x: int|
            0 <= x < s.commit_count() && reachable(*s, root as int, x) && !blocked@[x]
            implies visited@[x] by {
            lemma_visited_complete(*s, blocked@, visited@, root as int, x);
        }
    }
    visited
}

/// A commit is trivially reachable from itself.
proof fn lemma_reachable_self(s: RepositorySnapshot, c: int)
    requires
        s.well_formed(),
        0 <= c < s.commit_count(),
    ensures
        reachable(s, c, c),
{
}

/// Resolution of a reference name, searching the reference table from
/// entry `r` on: the first entry whose name matches, if any.
pub open spec fn resolve_from(s: RepositorySnapshot, name: Seq<char>, r: int) -> Option<int>
    decreases s.refs@.len() - r,
        when 0 <= r
{
    if r >= s.refs@.len() {
        None
    } else if s.refs@[r].name@ == name {
        Some(s.refs@[r].target as int)
    } else {
        resolve_from(s, name, r + 1)
    }
}

/// The commit index a reference name resolves to, if any.
pub open spec fn resolve_spec(s: RepositorySnapshot, name: Seq<char>) -> Option<int> {
    resolve_from(s, name, 0)
}

/// In a well-formed snapshot, resolution yields a valid commit index.
pub proof fn lemma_resolve_in_range(s: RepositorySnapshot, name: Seq<char>, r: int)
    requires
        s.well_formed(),
        0 <= r,
    ensures
        resolve_from(s, name, r) is Some ==> 0 <= resolve_from(s, name, r)->Some_0
            < s.commit_count(),
    decreases s.refs@.len() - r,
{
    if r < s.refs@.len() && s.refs@[r].name@ != name {
        lemma_resolve_in_range(s, name, r + 1);
    }
}

/// Looks a reference name up in the snapshot's reference table.
fn resolve_reference(s: &RepositorySnapshot, name: &RepositoryReference) -> (r: Option<usize>)
    ensures
        match r {
            Some(t) => resolve_spec(*s, name@) == Some(t as int),
            None => resolve_spec(*s, name@) is None,
        },
{
    let ref_count = s.refs.len();
    let mut i: usize = 0;
    while i < ref_count
        invariant
            i <= ref_count,
            ref_count == s.refs@.len(),
            resolve_spec(*s, name@) == resolve_from(*s, name@, i as int),
        decreases ref_count - i,
    {
        if s.refs[i].name.same_name(name) {
            return Some(s.refs[i].target);
        }
        i += 1;
    }
    None
}

/// The commit at index `x` is unreleased: reachable from the commit the
/// next reference resolved to, but not from the commit the release
/// reference resolved to.
pub open spec fn is_unreleased_index(s: RepositorySnapshot, nxt: int, rel: int, x: int) -> bool {
    &&& 0 <= x < s.commit_count()
    &&& reachable(s, nxt, x)
    &&& !reachable(s, rel, x)
}

/// The reported commit carries the identifier and message of the graph node.
pub open spec fn commit_matches(c: UnreleasedCommit, node: CommitNode) -> bool {
    &&& c.id@ == node.id@
    &&& message_view(c.message) == message_view(node.message)
}

/// `out` lists, via the ascending index sequence `ixs`, exactly the
/// unreleased commits of the snapshot.
pub open spec fn unreleased_listing(
    s: RepositorySnapshot,
    nxt: int,
    rel: int,
    ixs: Seq<int>,
    out: Seq<UnreleasedCommit>,
) -> bool {
    &&& ixs.len() == out.len()
    &&& forall|a: int, b: int| 0 <= a < b < ixs.len() ==> ixs[a] < ixs[b]
    &&& forall|k: int|
        0 <= k < ixs.len() ==> is_unreleased_index(s, nxt, rel, #[trigger] ixs[k])
            && commit_matches(out[k], s.commits@[ixs[k]])
    &&& forall|x: int| is_unreleased_index(s, nxt, rel, x) ==> #[trigger] ixs.contains(x)
}

/// Resolves the release and next references of `repo_config` in the
/// snapshot and returns the unreleased commits — those reachable from next
/// but not from release, in ascending topological index order — together
/// with the head commit of next. Fails, naming the reference, when either
/// reference does not resolve; the release reference is checked first.
pub fn find_unreleased_commits(
    repo_config: &RepositoryConfiguration,
    snapshot: &RepositorySnapshot,
) -> (r: Result<UnreleasedCommits, AccessError>)
    requires
        snapshot.well_formed(),
    ensures
        match r {
            Ok(u) => {
                &&& resolve_spec(*snapshot, repo_config.release_branch@) is Some
                &&& resolve_spec(*snapshot, repo_config.next_branch@) is Some
                &&& {
                    let rel = resolve_spec(*snapshot, repo_config.release_branch@)->Some_0;
                    let nxt = resolve_spec(*snapshot, repo_config.next_branch@)->Some_0;
                    &&& u.next_head.id@ == snapshot.commits@[nxt].id@
                    &&& message_view(u.next_head.message) == message_view(
                        snapshot.commits@[nxt].message,
                    )
                    &&& exists|ixs: Seq<int>|
                        #[trigger] unreleased_listing(*snapshot, nxt, rel, ixs, u.unreleased_commits@)
                }
            },
            Err(e) => match e {
                AccessError::ReferenceResolutionError(name) => {
                    ||| (resolve_spec(*snapshot, repo_config.release_branch@) is None && name@
                        == repo_config.release_branch@)
                    ||| (resolve_spec(*snapshot, repo_config.release_branch@) is Some
                        && resolve_spec(*snapshot, repo_config.next_branch@) is None && name@
                        == repo_config.next_branch@)
                },
            },
        },
{
    let rel = match resolve_reference(snapshot, &repo_config.release_branch) {
        Some(t) => t,
        None => {
            return Err(
                AccessError::ReferenceResolutionError(repo_config.release_branch.duplicate()),
            );
        },
    };
    let nxt = match resolve_reference(snapshot, &repo_config.next_branch) {
        Some(t) => t,
        None => {
            return Err(AccessError::ReferenceResolutionError(repo_config.next_branch.duplicate()));
        },
    };
    proof {
        lemma_resolve_in_range(*snapshot, repo_config.release_branch@, 0);
        lemma_resolve_in_range(*snapshot, repo_config.next_branch@, 0);
    }
    let commit_count = snapshot.commits.len();
    let no_blocks = fill_false(commit_count);
    let released = reach_avoiding(snapshot, rel, &no_blocks);
    proof {
        assert forall|i: int, j: int|
            #![trigger released@[i], snapshot.parents_of(i)[j]]
            0 <= i < snapshot.commit_count() && released@[i] && 0 <= j
                < snapshot.parents_of(i).len()
            implies released@[snapshot.parents_of(i)[j] as int] by {
            lemma_reachable_step(*snapshot, i, j);
            lemma_reachable_trans(*snapshot, rel as int, i, snapshot.parents_of(i)[j] as int);
        }
    }
    let unreleased = reach_avoiding(snapshot, nxt, &released);
    let mut out: Vec<UnreleasedCommit> = Vec::new();
    let ghost mut ixs: Seq<int> = Seq::empty();
    let mut x: usize = 0;
    while x < commit_count
        invariant
            commit_count == snapshot.commit_count(),
            snapshot.well_formed(),
            (rel as int) < snapshot.commit_count(),
            (nxt as int) < snapshot.commit_count(),
            unreleased@.len() == commit_count,
            x <= commit_count,
            forall|t: int|
                0 <= t < commit_count ==> (unreleased@[t] <==> is_unreleased_index(
                    *snapshot,
                    nxt as int,
                    rel as int,
                    t,
                )),
            ixs.len() == out@.len(),
            forall|a: int, b: int| 0 <= a < b < ixs.len() ==> ixs[a] < ixs[b],
            forall|k: int|
                0 <= k < ixs.len() ==> 0 <= #[trigger] ixs[k] < x && is_unreleased_index(
                    *snapshot,
                    nxt as int,
                    rel as int,
                    ixs[k],
                ) && commit_matches(out@[k], snapshot.commits@[ixs[k]]),
            forall|t: int|
                0 <= t < x && is_unreleased_index(*snapshot, nxt as int, rel as int, t)
                    ==> #[trigger] ixs.contains(t),
        decreases commit_count - x,
    {
        let hit = unreleased[x];
        if hit {
            let node_id = snapshot.commits[x].id.duplicate();
            let node_message = duplicate_message(&snapshot.commits[x].message);
            out.push(UnreleasedCommit { id: node_id, message: node_message });
            let ghost ixs0 = ixs;
            proof {
                ixs = ixs0.push(x as int);
                assert forall|t: int|
                    0 <= t < x as int + 1 && is_unreleased_index(*snapshot, nxt as int, rel as int, t)
                    implies #[trigger] ixs.contains(t) by {
                    if t < x as int {
                        assert(ixs0.contains(t));
                        let k = choose|k: int| 0 <= k < ixs0.len() && ixs0[k] == t;
                        assert(ixs[k] == t);
                    } else {
                        assert(ixs[ixs.len() - 1] == t);
                    }
                }
                assert forall|a: int, b: int| 0 <= a < b < ixs.len() implies ixs[a] < ixs[b] by {
                    if b < ixs.len() - 1 {
                        assert(ixs0[a] < ixs0[b]);
                    } else if a < ixs.len() - 1 {
                        assert(ixs0[a] < x as int);
                    }
                }
            }
        }
        x += 1;
    }
    let head_id = snapshot.commits[nxt].id.duplicate();
    let head_message = duplicate_message(&snapshot.commits[nxt].message);
    let result = UnreleasedCommits {
        unreleased_commits: out,
        next_head: HeadCommit { id: head_id, message: head_message },
    };
    proof {
        let rel_r = resolve_spec(*snapshot, repo_config.release_branch@)->Some_0;
        let nxt_r = resolve_spec(*snapshot, repo_config.next_branch@)->Some_0;
        assert(unreleased_listing(*snapshot, nxt_r, rel_r, ixs, result.unreleased_commits@));
    }
    Ok(result)
}

/// A vector of `n` cleared flags.
fn fill_false(n: usize) -> (v: Vec<bool>)
    ensures
        v@.len() == n,
        forall|x: int| 0 <= x < n ==> !v@[x],
{
    let mut v: Vec<bool> = Vec::new();
    let mut i: usize = 0;
    while i < n
        invariant
            i <= n,
            v@.len() == i,
            forall|x: int| 0 <= x < i ==> !v@[x],
        decreases n - i,
    {
        v.push(false);
        i += 1;
    }
    v
}

/// When the next reference and the release reference resolve to the same
/// commit, no commit is unreleased: whatever next can reach, release
/// reaches too.
pub proof fn lemma_same_commit_no_unreleased(s: RepositorySnapshot, c: int, x: int)
    ensures
        !is_unreleased_index(s, c, c, x),
{
}

/// Under an unreleased-commit listing for equal next and release commits,
/// the listed commit sequence is empty.
pub proof fn lemma_same_commit_empty_listing(
    s: RepositorySnapshot,
    c: int,
    ixs: Seq<int>,
    out: Seq<UnreleasedCommit>,
)
    requires
        unreleased_listing(s, c, c, ixs, out),
    ensures
        out.len() == 0,
{
    if out.len() > 0 {
        assert(is_unreleased_index(s, c, c, ixs[0]));
    }
}

} // verus!
