//! The branch lineage of a commit, and the replay sequence of several
//! repositories.

use crate::git::types::{
    commit_views, has_hash, repo_views, CommitView, GitCommit, GitRepo, RepoView, TreeView,
};
use crate::merger::commands::default_branch;
use crate::order::{
    arranged, is_stable_order, lemma_stable_order_exists, lemma_stable_order_is_permutation,
    names_position, precedes, stable_order, stable_order_of,
};
use vstd::prelude::*;

verus! {

/// A commit names a parent that its repository's commit table does not hold.
#[derive(Debug, PartialEq, Eq)]
pub struct UnresolvedParent {
    /// The hash that was looked for.
    pub hash: String,
}

/// The logical branch of the commit before `commit` in the table `tree`:
/// the branch of its parent, found by one lookup, and the default branch for
/// a commit without a parent. `None` where the parent's hash leads to no
/// commit of the table.
pub open spec fn parent_branch_of(commit: CommitView, tree: TreeView) -> Option<Seq<char>> {
    match commit.parent_hash {
        None => Some(default_branch()),
        Some(hash) => if tree.lookup.contains_key(hash) && tree.lookup[hash] < tree.commits.len() {
            Some(tree.commits[tree.lookup[hash] as int].branch)
        } else {
            None
        },
    }
}

/// Whether an entry of a replay sequence can be replayed from `repos`: it is
/// from one of them, and the branch of its parent is found there.
pub open spec fn entry_resolves(repos: Seq<RepoView>, entry: (usize, CommitView)) -> bool {
    entry.0 < repos.len() && parent_branch_of(entry.1, repos[entry.0 as int].tree) is Some
}

/// The first position from `position` on whose entry does not resolve; the
/// length of the history if every entry from there on resolves.
pub open spec fn first_unresolved(
    repos: Seq<RepoView>,
    history: Seq<(usize, CommitView)>,
    position: int,
) -> int
    decreases history.len() - position,
{
    if position < 0 || position >= history.len() {
        history.len() as int
    } else if !entry_resolves(repos, history[position]) {
        position
    } else {
        first_unresolved(repos, history, position + 1)
    }
}

/// The first unresolved position is where its name says: every entry from
/// `position` up to it resolves, and the entry there, if there is one, does
/// not.
pub proof fn lemma_first_unresolved(
    repos: Seq<RepoView>,
    history: Seq<(usize, CommitView)>,
    position: int,
)
    requires
        0 <= position <= history.len(),
    ensures
        position <= first_unresolved(repos, history, position) <= history.len(),
        forall|e: int|
            position <= e < first_unresolved(repos, history, position) ==> entry_resolves(
                repos,
                #[trigger] history[e],
            ),
        first_unresolved(repos, history, position) < history.len() ==> !entry_resolves(
            repos,
            history[first_unresolved(repos, history, position)],
        ),
    decreases history.len() - position,
{
    if position < history.len() && entry_resolves(repos, history[position]) {
        lemma_first_unresolved(repos, history, position + 1);
    }
}

/// The logical branch of `commit`.
pub fn get_into_branch(commit: &GitCommit) -> (branch: String)
    ensures
        branch@ == commit@.branch,
{
    commit.branch.clone()
}

/// The logical branch of the parent of `commit`, which is a commit of `repo`.
pub fn get_into_parent_branch(commit: &GitCommit, repo: &GitRepo) -> (result: Result<
    String,
    UnresolvedParent,
>)
    ensures
        match result {
            Ok(branch) => parent_branch_of(commit@, repo@.tree) == Some(branch@),
            Err(error) => parent_branch_of(commit@, repo@.tree) is None && commit@.parent_hash
                == Some(error.hash@),
        },
{
    match &commit.parent_hash {
        None => Ok(String::from_str("main")),
        Some(hash) => {
            match repo.tree.lookup.get(hash.as_str()) {
                Some(position) => {
                    if *position < repo.tree.commits.len() {
                        Ok(repo.tree.commits[*position].branch.clone())
                    } else {
                        Err(UnresolvedParent { hash: hash.clone() })
                    }
                },
                None => Err(UnresolvedParent { hash: hash.clone() }),
            }
        },
    }
}

/// In a well-formed commit table the parent of a commit is found exactly
/// where the table holds a commit of that hash, and the branch given is that
/// commit's own. A commit without a parent is given the default branch; a
/// commit with a parent is given the default branch only where that is the
/// parent's own.
pub proof fn lemma_parent_branch(commit: CommitView, tree: TreeView)
    requires
        tree.wf(),
    ensures
        commit.parent_hash is None ==> parent_branch_of(commit, tree) == Some(default_branch()),
        commit.parent_hash matches Some(hash) ==> (parent_branch_of(commit, tree) is Some
            <==> has_hash(tree.commits, hash)),
        commit.parent_hash matches Some(hash) ==> (has_hash(tree.commits, hash) ==> {
            &&& tree.lookup[hash] < tree.commits.len()
            &&& tree.commits[tree.lookup[hash] as int].hash == hash
            &&& parent_branch_of(commit, tree) == Some(
                tree.commits[tree.lookup[hash] as int].branch,
            )
        }),
{
    if let Some(hash) = commit.parent_hash {
        assert(tree.lookup.contains_key(hash) <==> has_hash(tree.commits, hash));
    }
}

/// A commit together with the position of the repository that it is from.
pub open spec fn tagged(repository: usize, commits: Seq<CommitView>) -> Seq<(usize, CommitView)> {
    Seq::new(commits.len(), |i: int| (repository, commits[i]))
}

/// The commits of all repositories, each with the position of its
/// repository: first those of the first repository in the order of its
/// table, then those of the second, and so on.
pub open spec fn all_entries(repos: Seq<RepoView>) -> Seq<(usize, CommitView)>
    decreases repos.len(),
{
    if repos.len() == 0 {
        Seq::empty()
    } else {
        all_entries(repos.drop_last()) + tagged(
            (repos.len() - 1) as usize,
            repos.last().tree.commits,
        )
    }
}

/// How many commits the first `upto` repositories hold together.
pub open spec fn commits_before(repos: Seq<RepoView>, upto: int) -> int
    decreases upto,
{
    if upto <= 0 {
        0
    } else {
        commits_before(repos, upto - 1) + repos[upto - 1].tree.commits.len()
    }
}

/// Where the commit at position `j` of the table of repository `r` stands
/// among all entries.
pub open spec fn entry_position(repos: Seq<RepoView>, r: int, j: int) -> int {
    commits_before(repos, r) + j
}

/// The timestamps of a list of entries.
pub open spec fn entry_times(entries: Seq<(usize, CommitView)>) -> Seq<i64> {
    Seq::new(entries.len(), |i: int| entries[i].1.time)
}

/// The replay sequence: the commits of all repositories in ascending order
/// of time. Commits of the same time stand in the order of their
/// repositories, and within one repository in the order of its table.
pub open spec fn replay_sequence(repos: Seq<RepoView>) -> Seq<(usize, CommitView)> {
    arranged(all_entries(repos), stable_order_of(entry_times(all_entries(repos))))
}

/// The views of a list of entries.
pub open spec fn entry_views(entries: Seq<(usize, GitCommit)>) -> Seq<(usize, CommitView)> {
    Seq::new(entries.len(), |i: int| (entries[i].0, entries[i].1@))
}

/// Where the commits of each repository stand among all entries: the commit
/// at position `j` of repository `r` stands at `entry_position(repos, r, j)`.
pub proof fn lemma_all_entries(repos: Seq<RepoView>)
    requires
        repos.len() <= usize::MAX,
    ensures
        all_entries(repos).len() == commits_before(repos, repos.len() as int),
        forall|r: int, j: int|
            0 <= r < repos.len() && 0 <= j < repos[r].tree.commits.len() ==> {
                &&& 0 <= #[trigger] entry_position(repos, r, j) < all_entries(repos).len()
                &&& all_entries(repos)[entry_position(repos, r, j)] == (
                    r as usize,
                    repos[r].tree.commits[j],
                )
            },
        forall|r: int, s: int|
            0 <= r <= s <= repos.len() ==> 0 <= #[trigger] commits_before(repos, r)
                <= #[trigger] commits_before(repos, s),
        forall|p: int|
            0 <= p < all_entries(repos).len() ==> (#[trigger] all_entries(repos)[p]).0
                < repos.len(),
    decreases repos.len(),
{
    if repos.len() > 0 {
        let shorter = repos.drop_last();
        let n = repos.len() as int;
        lemma_all_entries(shorter);
        lemma_commits_before_prefix(repos, n - 1);
        assert forall|r: int| 0 <= r < n implies commits_before(shorter, r) == commits_before(
            repos,
            r,
        ) by {
            lemma_commits_before_prefix(repos, r);
        }
        assert forall|r: int, s: int| 0 <= r <= s <= repos.len() implies 0
            <= #[trigger] commits_before(repos, r) <= #[trigger] commits_before(repos, s) by {
            lemma_commits_before_grows(repos, r, s);
        }
        assert forall|r: int, j: int|
            0 <= r < repos.len() && 0 <= j < repos[r].tree.commits.len() implies 0
            <= #[trigger] entry_position(repos, r, j) < all_entries(repos).len() && all_entries(
            repos,
        )[entry_position(repos, r, j)] == (r as usize, repos[r].tree.commits[j]) by {
            lemma_commits_before_grows(repos, 0, r);
            if r < n - 1 {
                assert(shorter[r] == repos[r]);
                assert(commits_before(shorter, r) == commits_before(repos, r));
                let found = shorter[r].tree.commits[j];
                assert(0 <= entry_position(shorter, r, j) < all_entries(shorter).len());
                assert(all_entries(shorter)[entry_position(shorter, r, j)] == (r as usize, found));
            } else {
                assert(all_entries(shorter).len() == commits_before(repos, r));
                assert(repos.last() == repos[r]);
                assert(tagged(r as usize, repos[r].tree.commits)[j] == (
                    r as usize,
                    repos[r].tree.commits[j],
                ));
            }
        }
    }
}

/// Among all entries a commit stands before another exactly if it is from
/// an earlier repository, or from the same repository and earlier in its
/// table.
pub proof fn lemma_entry_position_order(repos: Seq<RepoView>, r: int, j: int, s: int, k: int)
    requires
        0 <= r < repos.len(),
        0 <= s < repos.len(),
        0 <= j < repos[r].tree.commits.len(),
        0 <= k < repos[s].tree.commits.len(),
    ensures
        entry_position(repos, r, j) < entry_position(repos, s, k) <==> r < s || (r == s && j < k),
{
    if r < s {
        lemma_commits_before_grows(repos, r + 1, s);
    } else if s < r {
        lemma_commits_before_grows(repos, s + 1, r);
    }
}

/// Repositories after the first `upto` do not count among the commits
/// before position `upto`.
proof fn lemma_commits_before_prefix(repos: Seq<RepoView>, upto: int)
    requires
        0 <= upto < repos.len(),
    ensures
        commits_before(repos.drop_last(), upto) == commits_before(repos, upto),
    decreases upto,
{
    if upto > 0 {
        lemma_commits_before_prefix(repos, upto - 1);
        assert(repos.drop_last()[upto - 1] == repos[upto - 1]);
    }
}

/// The count of commits before a position does not fall as the position
/// rises.
proof fn lemma_commits_before_grows(repos: Seq<RepoView>, r: int, s: int)
    requires
        0 <= r <= s,
    ensures
        0 <= commits_before(repos, r) <= commits_before(repos, s),
    decreases s,
{
    if s > r {
        lemma_commits_before_grows(repos, r, s - 1);
    } else if r > 0 {
        lemma_commits_before_grows(repos, r - 1, r - 1);
    }
}

/// The replay sequence has one entry for each commit of each repository; no
/// entry is older than one before it; and of two entries of the same time
/// the one that stands first among all entries comes first, that is the one
/// of the earlier repository, or of the earlier position in the same table.
pub proof fn lemma_replay_sequence(repos: Seq<RepoView>)
    requires
        repos.len() <= usize::MAX,
        commits_before(repos, repos.len() as int) <= usize::MAX,
    ensures
        replay_sequence(repos).len() == commits_before(repos, repos.len() as int),
        is_stable_order(
            entry_times(all_entries(repos)),
            stable_order_of(entry_times(all_entries(repos))),
        ),
        forall|a: int, b: int|
            0 <= a <= b < replay_sequence(repos).len() ==> (#[trigger] replay_sequence(
                repos,
            )[a]).1.time <= (#[trigger] replay_sequence(repos)[b]).1.time,
        forall|a: int, b: int|
            0 <= a < b < replay_sequence(repos).len() && replay_sequence(repos)[a].1.time
                == replay_sequence(repos)[b].1.time ==> (#[trigger] stable_order_of(
                entry_times(all_entries(repos)),
            )[a]) < (#[trigger] stable_order_of(entry_times(all_entries(repos)))[b]),
        forall|a: int|
            0 <= a < replay_sequence(repos).len() ==> (#[trigger] replay_sequence(repos)[a]).0
                < repos.len(),
{
    lemma_all_entries(repos);
    let entries = all_entries(repos);
    let times = entry_times(entries);
    lemma_stable_order_exists(times);
    let order = stable_order_of(times);
    let sequence = replay_sequence(repos);
    assert forall|a: int, b: int| 0 <= a <= b < sequence.len() implies (#[trigger] sequence[a]).1.time
        <= (#[trigger] sequence[b]).1.time by {
        if a < b {
            assert(precedes(times, order[a] as int, order[b] as int));
        }
    }
    assert forall|a: int, b: int|
        0 <= a < b < sequence.len() && sequence[a].1.time == sequence[b].1.time implies (
    #[trigger] order[a]) < (#[trigger] order[b]) by {
        assert(precedes(times, order[a] as int, order[b] as int));
    }
    assert forall|a: int| 0 <= a < sequence.len() implies (#[trigger] sequence[a]).0
        < repos.len() by {
        assert(order[a] < entries.len());
        assert(entries[order[a] as int].0 < repos.len());
    }
}

/// Where the commit at position `j` of the table of repository `r` stands in
/// the replay sequence.
pub open spec fn replay_place(repos: Seq<RepoView>, r: int, j: int) -> int {
    choose|a: int|
        0 <= a < replay_sequence(repos).len() && #[trigger] stable_order_of(
            entry_times(all_entries(repos)),
        )[a] == entry_position(repos, r, j)
}

/// The order of the replay sequence. Every commit of every repository has
/// its place in it. An older commit comes before a younger one; of two commits
/// of the same time the one of the earlier repository comes first, and within
/// one repository the one that is earlier in its table.
pub proof fn lemma_replay_order(repos: Seq<RepoView>, r: int, j: int, s: int, k: int)
    requires
        repos.len() <= usize::MAX,
        commits_before(repos, repos.len() as int) <= usize::MAX,
        0 <= r < repos.len(),
        0 <= s < repos.len(),
        0 <= j < repos[r].tree.commits.len(),
        0 <= k < repos[s].tree.commits.len(),
    ensures
        0 <= replay_place(repos, r, j) < replay_sequence(repos).len(),
        replay_sequence(repos)[replay_place(repos, r, j)] == (r as usize, repos[r].tree.commits[j]),
        repos[r].tree.commits[j].time < repos[s].tree.commits[k].time || (
        repos[r].tree.commits[j].time == repos[s].tree.commits[k].time && (r < s || (r == s && j
            < k))) ==> replay_place(repos, r, j) < replay_place(repos, s, k),
{
    lemma_all_entries(repos);
    lemma_replay_sequence(repos);
    lemma_entry_position_order(repos, r, j, s, k);
    let entries = all_entries(repos);
    let times = entry_times(entries);
    let order = stable_order_of(times);
    lemma_stable_order_is_permutation(times, order);
    let p = entry_position(repos, r, j);
    let q = entry_position(repos, s, k);
    assert(names_position(order, p));
    assert(names_position(order, q));
    let a = replay_place(repos, r, j);
    let b = replay_place(repos, s, k);
    assert(order[a] == p && order[b] == q);
    assert(entries[p] == (r as usize, repos[r].tree.commits[j]));
    assert(entries[q] == (s as usize, repos[s].tree.commits[k]));
    if a > b {
        assert(precedes(times, order[b] as int, order[a] as int));
    }
}

/// The replay sequence of `repos`: one entry for each commit of each
/// repository, none older than one before it, and entries of the same time in
/// the order in which they stand among all entries, which is that of
/// [`lemma_entry_position_order`].
pub fn build_full_commit_history(repos: &Vec<GitRepo>) -> (history: Vec<(usize, GitCommit)>)
    ensures
        entry_views(history@) == replay_sequence(repo_views(repos@)),
        history.len() == commits_before(repo_views(repos@), repos.len() as int),
        is_stable_order(
            entry_times(all_entries(repo_views(repos@))),
            stable_order_of(entry_times(all_entries(repo_views(repos@)))),
        ),
        forall|e: int| 0 <= e < history.len() ==> (#[trigger] history[e]).0 < repos.len(),
        forall|a: int, b: int|
            0 <= a <= b < history.len() ==> (#[trigger] history[a]).1.time
                <= (#[trigger] history[b]).1.time,
        forall|a: int, b: int|
            0 <= a < b < history.len() && history[a].1.time == history[b].1.time ==> (
            #[trigger] stable_order_of(entry_times(all_entries(repo_views(repos@))))[a]) < (
            #[trigger] stable_order_of(entry_times(all_entries(repo_views(repos@))))[b]),
{
    let ghost given = repo_views(repos@);
    let mut entries: Vec<(usize, GitCommit)> = Vec::new();
    let mut times: Vec<i64> = Vec::new();
    let mut r: usize = 0;
    while r < repos.len()
        invariant
            r <= repos.len(),
            given == repo_views(repos@),
            entry_views(entries@) == all_entries(given.take(r as int)),
            times@ == entry_times(entry_views(entries@)),
            forall|e: int| 0 <= e < entries.len() ==> (#[trigger] entries[e]).0 < repos.len(),
        decreases repos.len() - r,
    {
        let repo = &repos[r];
        let ghost before = entry_views(entries@);
        let ghost table = given[r as int].tree.commits;
        assert(table == commit_views(repo.tree.commits@));
        let mut j: usize = 0;
        while j < repo.tree.commits.len()
            invariant
                j <= repo.tree.commits.len(),
                r < repos.len(),
                table == commit_views(repo.tree.commits@),
                entry_views(entries@) == before + tagged(r, table).take(j as int),
                times@ == entry_times(entry_views(entries@)),
                forall|e: int| 0 <= e < entries.len() ==> (#[trigger] entries[e]).0 < repos.len(),
            decreases repo.tree.commits.len() - j,
        {
            let ghost previous = entry_views(entries@);
            let commit = repo.tree.commits[j].clone();
            times.push(commit.time);
            entries.push((r, commit));
            assert(entry_views(entries@) =~= previous.push((r, table[j as int])));
            assert(previous.push((r, table[j as int])) =~= before + tagged(r, table).take(j + 1));
            assert(times@ =~= entry_times(entry_views(entries@)));
            j += 1;
        }
        assert(tagged(r, table).take(table.len() as int) == tagged(r, table));
        assert(given.take(r + 1).drop_last() == given.take(r as int));
        assert(given.take(r + 1).last() == given[r as int]);
        r += 1;
    }
    assert(given.take(repos.len() as int) == given);
    let order = stable_order(&times);
    let mut history: Vec<(usize, GitCommit)> = Vec::new();
    let mut k: usize = 0;
    while k < order.len()
        invariant
            k <= order.len(),
            order.len() == entries.len(),
            history.len() == k,
            forall|i: int| 0 <= i < order.len() ==> (#[trigger] order[i]) < entries.len(),
            forall|i: int|
                0 <= i < k ==> (#[trigger] history[i]).0 == entries[order[i] as int].0
                    && history[i].1@ == entries[order[i] as int].1@,
            forall|e: int| 0 <= e < entries.len() ==> (#[trigger] entries[e]).0 < repos.len(),
        decreases order.len() - k,
    {
        let entry = &entries[order[k]];
        history.push((entry.0, entry.1.clone()));
        k += 1;
    }
    assert(entry_views(history@) =~= arranged(entry_views(entries@), order@));
    proof {
        assert(repos@.len() == repos.len());
        lemma_all_entries(given);
        assert forall|a: int, b: int| 0 <= a <= b < history.len() implies (
        #[trigger] history[a]).1.time <= (#[trigger] history[b]).1.time by {
            assert(history[a].1@ == entries[order[a] as int].1@);
            assert(history[b].1@ == entries[order[b] as int].1@);
            if a < b {
                assert(precedes(times@, order[a] as int, order[b] as int));
            }
        }
        assert forall|a: int, b: int|
            0 <= a < b < history.len() && history[a].1.time == history[b].1.time implies (
        #[trigger] order[a]) < (#[trigger] order[b]) by {
            assert(history[a].1@ == entries[order[a] as int].1@);
            assert(history[b].1@ == entries[order[b] as int].1@);
            assert(precedes(times@, order[a] as int, order[b] as int));
        }
    }
    history
}

} // verus!
