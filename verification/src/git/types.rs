//! Commits, commit tables and repository handles.

use vstd::hash_map::StringHashMap;
use vstd::prelude::*;

verus! {

/// One recorded change of a repository.
#[derive(Debug, PartialEq, Eq)]
pub struct GitCommit {
    /// The logical branch, without reference-namespace prefixes.
    pub branch: String,
    /// The commit's identifier within its repository.
    pub hash: String,
    /// The identifier of the commit before it; a root commit has none.
    pub parent_hash: Option<String>,
    pub author_name: String,
    pub author_email: String,
    /// Seconds since 1970-01-01 00:00:00 UTC.
    pub time: i64,
    pub committer_name: String,
    pub committer_email: String,
    pub commit_message: String,
}

/// What a commit holds, as mathematical values.
pub struct CommitView {
    pub branch: Seq<char>,
    pub hash: Seq<char>,
    pub parent_hash: Option<Seq<char>>,
    pub author_name: Seq<char>,
    pub author_email: Seq<char>,
    pub time: i64,
    pub committer_name: Seq<char>,
    pub committer_email: Seq<char>,
    pub commit_message: Seq<char>,
}

impl View for GitCommit {
    type V = CommitView;

    open spec fn view(&self) -> CommitView {
        CommitView {
            branch: self.branch@,
            hash: self.hash@,
            parent_hash: match self.parent_hash {
                Some(hash) => Some(hash@),
                None => None,
            },
            author_name: self.author_name@,
            author_email: self.author_email@,
            time: self.time,
            committer_name: self.committer_name@,
            committer_email: self.committer_email@,
            commit_message: self.commit_message@,
        }
    }
}

impl Clone for GitCommit {
    fn clone(&self) -> (copy: Self)
        ensures
            copy@ == self@,
    {
        GitCommit {
            branch: self.branch.clone(),
            hash: self.hash.clone(),
            parent_hash: match &self.parent_hash {
                Some(hash) => Some(hash.clone()),
                None => None,
            },
            author_name: self.author_name.clone(),
            author_email: self.author_email.clone(),
            time: self.time,
            committer_name: self.committer_name.clone(),
            committer_email: self.committer_email.clone(),
            commit_message: self.commit_message.clone(),
        }
    }
}

/// The views of a list of commits.
pub open spec fn commit_views(commits: Seq<GitCommit>) -> Seq<CommitView> {
    Seq::new(commits.len(), |i: int| commits[i]@)
}

/// The timestamps of a list of commits.
pub open spec fn commit_times(commits: Seq<CommitView>) -> Seq<i64> {
    Seq::new(commits.len(), |i: int| commits[i].time)
}

/// Whether no commit of the list is older than one before it.
pub open spec fn sorted_by_time(commits: Seq<CommitView>) -> bool {
    forall|i: int, j: int| 0 <= i <= j < commits.len() ==> commits[i].time <= commits[j].time
}

/// Whether some commit of the list has the hash `hash`.
pub open spec fn has_hash(commits: Seq<CommitView>, hash: Seq<char>) -> bool {
    exists|i: int| 0 <= i < commits.len() && (#[trigger] commits[i]).hash == hash
}

/// Whether `lookup` finds the commits of the list by their hash: its keys are
/// the hashes that occur, and each leads to the last position that holds it.
pub open spec fn lookup_matches(commits: Seq<CommitView>, lookup: Map<Seq<char>, usize>) -> bool {
    &&& forall|hash: Seq<char>| #[trigger] lookup.contains_key(hash) <==> has_hash(commits, hash)
    &&& forall|hash: Seq<char>| #[trigger]
        lookup.contains_key(hash) ==> {
            &&& lookup[hash] < commits.len()
            &&& commits[lookup[hash] as int].hash == hash
            &&& forall|j: int|
                lookup[hash] < j < commits.len() ==> (#[trigger] commits[j]).hash != hash
        }
}

/// A repository's commits in time order, with the position of each hash.
pub struct GitTree {
    pub commits: Vec<GitCommit>,
    pub lookup: StringHashMap<usize>,
}

/// What a commit table holds, as mathematical values.
pub struct TreeView {
    pub commits: Seq<CommitView>,
    pub lookup: Map<Seq<char>, usize>,
}

impl View for GitTree {
    type V = TreeView;

    open spec fn view(&self) -> TreeView {
        TreeView { commits: commit_views(self.commits@), lookup: self.lookup@ }
    }
}

impl TreeView {
    /// The invariant of a commit table: the commits stand in time order and
    /// the lookup agrees with them.
    pub open spec fn wf(self) -> bool {
        &&& sorted_by_time(self.commits)
        &&& lookup_matches(self.commits, self.lookup)
    }
}

/// In a well-formed commit table no commit is older than one before it, and
/// looking up the hash of any commit leads to a commit of that hash, at that
/// position or, where a later commit has the same hash, at the last such
/// position. Where no two commits share a hash, it leads to that very commit.
pub proof fn lemma_lookup_round_trip(tree: TreeView, i: int)
    requires
        tree.wf(),
        0 <= i < tree.commits.len(),
    ensures
        forall|j: int| i <= j < tree.commits.len() ==> tree.commits[i].time <= tree.commits[j].time,
        tree.lookup.contains_key(tree.commits[i].hash),
        i <= tree.lookup[tree.commits[i].hash] < tree.commits.len(),
        tree.commits[tree.lookup[tree.commits[i].hash] as int].hash == tree.commits[i].hash,
        (forall|a: int, b: int|
            0 <= a < b < tree.commits.len() ==> tree.commits[a].hash != tree.commits[b].hash)
            ==> tree.lookup[tree.commits[i].hash] == i,
{
    let hash = tree.commits[i].hash;
    assert(has_hash(tree.commits, hash));
    assert(tree.lookup.contains_key(hash));
    let found = tree.lookup[hash] as int;
    if found < i {
        assert(tree.commits[i].hash != hash);
    }
}

/// A repository to work on: its name and where it is cloned from.
#[derive(Debug, PartialEq, Eq)]
pub struct GitRepoInput {
    pub name: String,
    pub url: String,
}

/// What a repository descriptor holds, as mathematical values.
pub struct RepoInputView {
    pub name: Seq<char>,
    pub url: Seq<char>,
}

impl View for GitRepoInput {
    type V = RepoInputView;

    open spec fn view(&self) -> RepoInputView {
        RepoInputView { name: self.name@, url: self.url@ }
    }
}

/// A cloned repository: its descriptor, its commit table, and the branch or
/// commit that its working copy has checked out.
pub struct GitRepo {
    pub name: String,
    pub url: String,
    pub tree: GitTree,
    pub head: String,
}

/// What a repository handle holds, as mathematical values.
pub struct RepoView {
    pub name: Seq<char>,
    pub url: Seq<char>,
    pub tree: TreeView,
    pub head: Seq<char>,
}

impl View for GitRepo {
    type V = RepoView;

    open spec fn view(&self) -> RepoView {
        RepoView { name: self.name@, url: self.url@, tree: self.tree@, head: self.head@ }
    }
}

/// The views of a list of repository handles.
pub open spec fn repo_views(repos: Seq<GitRepo>) -> Seq<RepoView> {
    Seq::new(repos.len(), |i: int| repos[i]@)
}

} // verus!
