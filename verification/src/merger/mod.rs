//! The merge of several repositories' histories into one.
//!
//! The merge is a state machine. It names the operation it waits for; the
//! caller carries that operation out and reports back: a success with what
//! the operation printed, or a failure. The first operation that fails ends
//! the merge: nothing is undone and nothing is tried again.

pub mod commands;
pub mod history;
pub mod replay;

use crate::git::tree::{build_tree_for_repo, log_command, log_invocation, log_tree, ParseError};
use crate::git::types::{
    has_hash, repo_views, CommitView, GitCommit, GitRepo, GitRepoInput, GitTree, RepoInputView,
    RepoView, TreeView,
};
use crate::merger::commands::{
    checkout_branch, checkout_operation, clone_command, clone_operation, commit_operation,
    copy_operation, default_branch, delete_operation, fs_recursive_copy, fs_recursive_delete,
    get_repo_dest_path, git_commit, git_stage_all, path_of, repo_dest_path, repo_path,
    stage_operation, workspace, Operation, OperationView,
};
use crate::merger::history::{
    build_full_commit_history, entry_resolves, entry_views, first_unresolved,
    get_into_parent_branch, lemma_first_unresolved, parent_branch_of, replay_sequence,
};
use vstd::hash_map::StringHashMap;
use vstd::prelude::*;

verus! {

/// What to merge: the source repositories and the destination.
#[derive(Debug, PartialEq, Eq)]
pub struct MergerConfig {
    pub repos: Vec<GitRepoInput>,
    pub into: GitRepoInput,
}

/// What a configuration holds, as mathematical values.
pub struct ConfigView {
    pub repos: Seq<RepoInputView>,
    pub into: RepoInputView,
}

impl View for MergerConfig {
    type V = ConfigView;

    open spec fn view(&self) -> ConfigView {
        ConfigView {
            repos: Seq::new(self.repos@.len(), |i: int| self.repos@[i]@),
            into: self.into@,
        }
    }
}

/// One of the repositories of a merge.
#[derive(Debug, Clone, Copy, PartialEq, Eq, Structural)]
pub enum Repository {
    Destination,
    /// The source at this position of the configuration.
    Source(usize),
}

/// Why a merge ended before its last operation.
#[derive(Debug, Clone, Copy, PartialEq, Eq, Structural)]
pub enum MergeError {
    /// The log of a repository is no list of commit records.
    Log { repository: Repository, error: ParseError },
    /// The entry at this position of the replay sequence names a parent that
    /// the commit table of its repository does not hold. It is the first such
    /// entry.
    UnresolvedParent { entry: usize },
}

/// Where a merge stands: the operation that it waits for.
#[derive(Debug, Clone, Copy, PartialEq, Eq, Structural)]
pub enum Stage {
    /// The workspace is made empty.
    ResetWorkspace,
    /// The destination is cloned.
    CloneInto,
    /// The log of the destination is printed.
    LogInto,
    /// A source is cloned.
    CloneSource,
    /// The log of that source is printed.
    LogSource,
    /// The directory that the source owns in the destination is made.
    MakeDir,
    /// The destination is put on the default branch.
    InitialCheckout,
    /// The destination is put on the branch of the entry's parent.
    AlignParent,
    /// The destination is put on the entry's own branch.
    AlignOwn,
    /// The entry's commit is checked out in its source.
    AdvanceSource,
    /// The directory that the source owns in the destination is emptied.
    DeleteDest,
    /// The working copy of the source is copied there.
    CopySource,
    /// All changes of the destination are staged.
    StageAll,
    /// The entry's commit is made in the destination.
    Commit,
    /// Every entry was replayed.
    Finished,
    /// The merge ended on an error.
    Aborted,
}

/// A merge in progress.
pub struct Merger {
    pub config: MergerConfig,
    /// The destination. Before its log was read it has no commits.
    pub into_repo: GitRepo,
    /// The sources prepared so far, in the order of the configuration.
    pub repos: Vec<GitRepo>,
    /// The replay sequence. It is empty before the replay begins.
    pub history: Vec<(usize, GitCommit)>,
    pub stage: Stage,
    /// The source that is being prepared, or the entry that is being
    /// replayed.
    pub cursor: usize,
    /// During the replay of an entry: the branch of its parent.
    pub parent_branch: String,
}

/// What a merge in progress holds, as mathematical values.
pub struct MergerView {
    pub config: ConfigView,
    pub into_repo: RepoView,
    pub repos: Seq<RepoView>,
    pub history: Seq<(usize, CommitView)>,
    pub stage: Stage,
    pub cursor: int,
    pub parent_branch: Seq<char>,
}

impl View for Merger {
    type V = MergerView;

    open spec fn view(&self) -> MergerView {
        MergerView {
            config: self.config@,
            into_repo: self.into_repo@,
            repos: repo_views(self.repos@),
            history: entry_views(self.history@),
            stage: self.stage,
            cursor: self.cursor as int,
            parent_branch: self.parent_branch@,
        }
    }
}

/// The repository that cloning `input` and reading the log `log` gives. Its
/// working copy has the oldest commit checked out, and the default branch where
/// there is no commit.
pub open spec fn prepared_repo(input: RepoInputView, log: Seq<char>) -> Result<
    RepoView,
    ParseError,
> {
    match log_tree(log) {
        Ok(tree) => Ok(
            RepoView {
                name: input.name,
                url: input.url,
                tree,
                head: if tree.commits.len() > 0 {
                    tree.commits[0].hash
                } else {
                    default_branch()
                },
            },
        ),
        Err(error) => Err(error),
    }
}

/// The operations that replay one commit, for a destination named `into`
/// that stands on the branch `head`, and a source named `source`: the
/// destination goes to the branch `parent` of the commit's parent unless it is
/// there, and from there to the commit's own branch unless it is there; the
/// source goes to the commit; the source's directory in the destination is
/// emptied and filled from the source; all is staged, and the commit is made.
pub open spec fn entry_operations(
    into: Seq<char>,
    head: Seq<char>,
    source: Seq<char>,
    parent: Seq<char>,
    commit: CommitView,
) -> Seq<OperationView> {
    let to_parent = if head != parent {
        seq![checkout_operation(into, parent, true)]
    } else {
        Seq::empty()
    };
    let to_own = if parent != commit.branch {
        seq![checkout_operation(into, commit.branch, true)]
    } else {
        Seq::empty()
    };
    to_parent + to_own + seq![
        checkout_operation(source, commit.hash, false),
        delete_operation(into, source),
        copy_operation(into, source),
        stage_operation(into),
        commit_operation(into, commit),
    ]
}

impl MergerView {
    /// The state in which a merge of `config` begins.
    pub open spec fn initial(config: ConfigView) -> MergerView {
        MergerView {
            config,
            into_repo: RepoView {
                name: config.into.name,
                url: config.into.url,
                tree: TreeView { commits: Seq::empty(), lookup: Map::empty() },
                head: Seq::empty(),
            },
            repos: Seq::empty(),
            history: Seq::empty(),
            stage: Stage::ResetWorkspace,
            cursor: 0,
            parent_branch: Seq::empty(),
        }
    }

    /// Whether the merge is in the replay of an entry.
    pub open spec fn replaying(self) -> bool {
        self.stage == Stage::AlignParent || self.stage == Stage::AlignOwn || self.stage
            == Stage::AdvanceSource || self.stage == Stage::DeleteDest || self.stage
            == Stage::CopySource || self.stage == Stage::StageAll || self.stage == Stage::Commit
    }

    /// Whether every entry of the replay sequence is from one of the sources
    /// and names no parent that its source does not hold.
    pub open spec fn entries_resolve(self) -> bool {
        forall|e: int|
            0 <= e < self.history.len() ==> entry_resolves(self.repos, #[trigger] self.history[e])
    }

    /// The invariant of a merge in progress: every entry of the replay
    /// sequence resolves, and the merge stands at a source, or at an entry,
    /// that there is.
    pub open spec fn wf(self) -> bool {
        &&& self.entries_resolve()
        &&& self.stage == Stage::ResetWorkspace || self.stage == Stage::CloneInto || self.stage
            == Stage::LogInto ==> self.repos.len() == 0
        &&& self.stage == Stage::CloneSource || self.stage == Stage::LogSource ==> 0 <= self.cursor
            < self.config.repos.len() && self.repos.len() == self.cursor
        &&& self.stage == Stage::MakeDir ==> 0 <= self.cursor < self.config.repos.len()
            && self.repos.len() == self.cursor + 1
        &&& self.replaying() ==> 0 <= self.cursor < self.history.len() && parent_branch_of(
            self.entry().1,
            self.source().tree,
        ) == Some(self.parent_branch)
    }

    /// Whether the commit tables of the destination and of the sources are
    /// well formed. A merge that was begun with [`merge_repositories`] and
    /// moved on with [`Merger::advance`] keeps them so.
    pub open spec fn tables_wf(self) -> bool {
        &&& self.into_repo.tree.wf()
        &&& forall|i: int| 0 <= i < self.repos.len() ==> (#[trigger] self.repos[i]).tree.wf()
    }

    /// The entry that is being replayed.
    pub open spec fn entry(self) -> (usize, CommitView) {
        self.history[self.cursor]
    }

    /// The repository that the entry being replayed is from.
    pub open spec fn source(self) -> RepoView {
        self.repos[self.entry().0 as int]
    }

    /// The operation that the merge waits for, if it waits for one.
    pub open spec fn pending(self) -> Option<OperationView> {
        let into = self.into_repo.name;
        match self.stage {
            Stage::ResetWorkspace => Some(OperationView::ResetWorkspace { path: workspace() }),
            Stage::CloneInto => Some(clone_operation(self.config.into)),
            Stage::LogInto => Some(
                OperationView::Run { command: log_invocation(repo_path(self.config.into.name)) },
            ),
            Stage::CloneSource => Some(clone_operation(self.config.repos[self.cursor])),
            Stage::LogSource => Some(
                OperationView::Run {
                    command: log_invocation(repo_path(self.config.repos[self.cursor].name)),
                },
            ),
            Stage::MakeDir => Some(
                OperationView::CreateDir {
                    path: repo_dest_path(into, self.repos[self.cursor].name),
                },
            ),
            Stage::InitialCheckout => Some(checkout_operation(into, default_branch(), true)),
            Stage::AlignParent => Some(checkout_operation(into, self.parent_branch, true)),
            Stage::AlignOwn => Some(checkout_operation(into, self.entry().1.branch, true)),
            Stage::AdvanceSource => Some(
                checkout_operation(self.source().name, self.entry().1.hash, false),
            ),
            Stage::DeleteDest => Some(delete_operation(into, self.source().name)),
            Stage::CopySource => Some(copy_operation(into, self.source().name)),
            Stage::StageAll => Some(stage_operation(into)),
            Stage::Commit => Some(commit_operation(into, self.entry().1)),
            Stage::Finished => None,
            Stage::Aborted => None,
        }
    }

    /// The same merge at another stage.
    pub open spec fn at(self, stage: Stage) -> MergerView {
        MergerView { stage, ..self }
    }

    /// The same merge with the destination on `head`.
    pub open spec fn with_head(self, head: Seq<char>) -> MergerView {
        MergerView { into_repo: RepoView { head, ..self.into_repo }, ..self }
    }

    /// The same merge with the source at `index` on `head`.
    pub open spec fn with_source_head(self, index: int, head: Seq<char>) -> MergerView {
        MergerView {
            repos: self.repos.update(index, RepoView { head, ..self.repos[index] }),
            ..self
        }
    }

    /// The merge with the destination on the default branch and with the
    /// replay sequence of its sources.
    pub open spec fn ready_for_replay(self) -> MergerView {
        MergerView { history: replay_sequence(self.repos), ..self.with_head(default_branch()) }
    }

    /// The merge as it is when a step from here ends on an error. Where the
    /// step was the checkout of the default branch, the destination stands on
    /// that branch.
    pub open spec fn aborted(self) -> MergerView {
        if self.stage == Stage::InitialCheckout {
            self.with_head(default_branch()).at(Stage::Aborted)
        } else {
            self.at(Stage::Aborted)
        }
    }

    /// The merge as it turns to the entry at `position` of the replay
    /// sequence. After the last entry it is finished. A parent that does not
    /// resolve is an error; a merge that keeps its invariant has no such
    /// entry. Else the first operation of the entry is the first checkout that
    /// is needed.
    pub open spec fn entered(self, position: int) -> Result<MergerView, MergeError> {
        if position < 0 || position >= self.history.len() {
            Ok(MergerView { stage: Stage::Finished, cursor: position, ..self })
        } else {
            let (index, commit) = self.history[position];
            match parent_branch_of(commit, self.repos[index as int].tree) {
                None => Err(MergeError::UnresolvedParent { entry: position as usize }),
                Some(parent) => Ok(
                    MergerView {
                        stage: if self.into_repo.head != parent {
                            Stage::AlignParent
                        } else if self.into_repo.head != commit.branch {
                            Stage::AlignOwn
                        } else {
                            Stage::AdvanceSource
                        },
                        cursor: position,
                        parent_branch: parent,
                        ..self
                    },
                ),
            }
        }
    }

    /// The merge after the operation that it waited for succeeded and printed
    /// `output`, or the error on which it ends. A merge that waits for
    /// nothing stays as it is. Before the first entry is replayed, every entry
    /// is looked at: the first one that does not resolve ends the merge there,
    /// before any operation of the replay.
    pub open spec fn advanced(self, output: Seq<char>) -> Result<MergerView, MergeError> {
        match self.stage {
            Stage::ResetWorkspace => Ok(self.at(Stage::CloneInto)),
            Stage::CloneInto => Ok(self.at(Stage::LogInto)),
            Stage::LogInto => match prepared_repo(self.config.into, output) {
                Ok(repo) => Ok(
                    MergerView {
                        into_repo: repo,
                        stage: if self.config.repos.len() > 0 {
                            Stage::CloneSource
                        } else {
                            Stage::InitialCheckout
                        },
                        cursor: 0,
                        ..self
                    },
                ),
                Err(error) => Err(MergeError::Log { repository: Repository::Destination, error }),
            },
            Stage::CloneSource => Ok(self.at(Stage::LogSource)),
            Stage::LogSource => match prepared_repo(
                self.config.repos[self.cursor],
                output,
            ) {
                Ok(repo) => Ok(
                    MergerView { repos: self.repos.push(repo), stage: Stage::MakeDir, ..self },
                ),
                Err(error) => Err(
                    MergeError::Log { repository: Repository::Source(self.cursor as usize), error },
                ),
            },
            Stage::MakeDir => if self.cursor + 1 < self.config.repos.len() {
                Ok(MergerView { stage: Stage::CloneSource, cursor: self.cursor + 1, ..self })
            } else {
                Ok(self.at(Stage::InitialCheckout))
            },
            Stage::InitialCheckout => {
                let ready = self.ready_for_replay();
                let first = first_unresolved(ready.repos, ready.history, 0);
                if first < ready.history.len() {
                    Err(MergeError::UnresolvedParent { entry: first as usize })
                } else {
                    ready.entered(0)
                }
            },
            Stage::AlignParent => Ok(
                self.with_head(self.parent_branch).at(
                    if self.parent_branch != self.entry().1.branch {
                        Stage::AlignOwn
                    } else {
                        Stage::AdvanceSource
                    },
                ),
            ),
            Stage::AlignOwn => Ok(self.with_head(self.entry().1.branch).at(Stage::AdvanceSource)),
            Stage::AdvanceSource => Ok(
                self.with_source_head(self.entry().0 as int, self.entry().1.hash).at(
                    Stage::DeleteDest,
                ),
            ),
            Stage::DeleteDest => Ok(self.at(Stage::CopySource)),
            Stage::CopySource => Ok(self.at(Stage::StageAll)),
            Stage::StageAll => Ok(self.at(Stage::Commit)),
            Stage::Commit => self.entered(self.cursor + 1),
            Stage::Finished => Ok(self),
            Stage::Aborted => Ok(self),
        }
    }

    /// Whether `result` and `next` are what `outcome` asks for: the next
    /// state, or the error with the merge aborted, else as it is in `self`.
    pub open spec fn yields(
        self,
        outcome: Result<MergerView, MergeError>,
        result: Result<(), MergeError>,
        next: MergerView,
    ) -> bool {
        match outcome {
            Ok(state) => result is Ok && next == state,
            Err(error) => result == Err::<(), MergeError>(error) && next == self.at(Stage::Aborted),
        }
    }
}

/// The repository that cloning `repo` and reading its log `log` gives.
pub fn clone_repo_to_temp(repo: &GitRepoInput, log: &str) -> (result: Result<GitRepo, ParseError>)
    ensures
        match result {
            Ok(prepared) => prepared_repo(repo@, log@) == Ok::<RepoView, ParseError>(prepared@)
                && prepared@.tree.wf(),
            Err(error) => prepared_repo(repo@, log@) == Err::<RepoView, ParseError>(error),
        },
{
    let tree = match build_tree_for_repo(log) {
        Ok(tree) => tree,
        Err(error) => { return Err(error); },
    };
    let head = if tree.commits.len() > 0 {
        tree.commits[0].hash.clone()
    } else {
        String::from_str("main")
    };
    Ok(GitRepo { name: repo.name.clone(), url: repo.url.clone(), tree, head })
}

/// Puts the repository at `index` on `head`.
fn set_head(repos: &mut Vec<GitRepo>, index: usize, head: String)
    requires
        index < old(repos).len(),
    ensures
        repo_views(final(repos)@) == repo_views(old(repos)@).update(
            index as int,
            RepoView { head: head@, ..old(repos)[index as int]@ },
        ),
{
    let ghost before = repo_views(repos@);
    let mut repo = repos.remove(index);
    repo.head = head;
    repos.insert(index, repo);
    assert(repo_views(repos@) =~= before.update(
        index as int,
        RepoView { head: head@, ..before[index as int] },
    ));
}

/// Begins the merge that `cfg` describes.
pub fn merge_repositories(cfg: MergerConfig) -> (merger: Merger)
    ensures
        merger@ == MergerView::initial(cfg@),
        merger@.wf(),
        merger@.tables_wf(),
{
    let into_repo = GitRepo {
        name: cfg.into.name.clone(),
        url: cfg.into.url.clone(),
        tree: GitTree { commits: Vec::new(), lookup: StringHashMap::new() },
        head: String::new(),
    };
    let merger = Merger {
        config: cfg,
        into_repo,
        repos: Vec::new(),
        history: Vec::new(),
        stage: Stage::ResetWorkspace,
        cursor: 0,
        parent_branch: String::new(),
    };
    assert(merger@.into_repo.tree.commits =~= Seq::empty());
    assert(merger@.repos =~= Seq::empty());
    assert(merger@.history =~= Seq::empty());
    assert(merger@.into_repo.tree.wf()) by {
        assert forall|hash: Seq<char>| !has_hash(merger@.into_repo.tree.commits, hash) by {}
    }
    merger
}

/// The first entry of `history` that does not resolve in `repos`.
fn first_unresolved_entry(history: &Vec<(usize, GitCommit)>, repos: &Vec<GitRepo>) -> (found:
    Option<usize>)
    ensures
        match found {
            Some(entry) => entry < history.len() && first_unresolved(
                repo_views(repos@),
                entry_views(history@),
                0,
            ) == entry,
            None => first_unresolved(repo_views(repos@), entry_views(history@), 0)
                == history.len(),
        },
{
    let ghost sources = repo_views(repos@);
    let ghost entries = entry_views(history@);
    let mut e: usize = 0;
    while e < history.len()
        invariant
            e <= history.len(),
            sources == repo_views(repos@),
            entries == entry_views(history@),
            first_unresolved(sources, entries, 0) == first_unresolved(sources, entries, e as int),
        decreases history.len() - e,
    {
        let entry = &history[e];
        assert(entries[e as int] == (entry.0, entry.1@));
        let resolves = if entry.0 < repos.len() {
            match get_into_parent_branch(&entry.1, &repos[entry.0]) {
                Ok(_) => true,
                Err(_) => false,
            }
        } else {
            false
        };
        if !resolves {
            return Some(e);
        }
        e += 1;
    }
    None
}

impl Merger {
    /// Whether the merge keeps its invariant. A merge that was begun with
    /// [`merge_repositories`] and only moved on with [`Merger::advance`] and
    /// [`Merger::fail`] always does.
    pub fn is_well_formed(&self) -> (ok: bool)
        ensures
            ok == self@.wf(),
    {
        proof {
            lemma_first_unresolved(self@.repos, self@.history, 0);
        }
        if first_unresolved_entry(&self.history, &self.repos).is_some() {
            return false;
        }
        assert(self@.entries_resolve());
        let sources = self.repos.len();
        match self.stage {
            Stage::ResetWorkspace => sources == 0,
            Stage::CloneInto => sources == 0,
            Stage::LogInto => sources == 0,
            Stage::CloneSource => self.cursor < self.config.repos.len() && sources == self.cursor,
            Stage::LogSource => self.cursor < self.config.repos.len() && sources == self.cursor,
            Stage::MakeDir => self.cursor < self.config.repos.len() && sources > 0 && sources - 1
                == self.cursor,
            Stage::InitialCheckout => true,
            Stage::Finished => true,
            Stage::Aborted => true,
            _ => {
                assert(self@.replaying());
                if self.cursor >= self.history.len() {
                    false
                } else {
                    let entry = &self.history[self.cursor];
                    assert(entry_resolves(self@.repos, self@.history[self.cursor as int]));
                    match get_into_parent_branch(&entry.1, &self.repos[entry.0]) {
                        Ok(parent) => parent == self.parent_branch,
                        Err(_) => false,
                    }
                }
            },
        }
    }

    /// The operation that the merge waits for; none once it has finished or
    /// was aborted.
    pub fn pending(&self) -> (operation: Option<Operation>)
        requires
            self@.wf(),
        ensures
            match operation {
                Some(operation) => self@.pending() == Some(operation@),
                None => self@.pending() is None,
            },
    {
        match self.stage {
            Stage::ResetWorkspace => Some(
                Operation::ResetWorkspace { path: String::from_str("./tmp") },
            ),
            Stage::CloneInto => Some(clone_command(&self.config.into)),
            Stage::LogInto => {
                let path = path_of(self.config.into.name.as_str());
                Some(Operation::Run { command: log_command(path.as_str()) })
            },
            Stage::CloneSource => Some(clone_command(&self.config.repos[self.cursor])),
            Stage::LogSource => {
                let path = path_of(self.config.repos[self.cursor].name.as_str());
                Some(Operation::Run { command: log_command(path.as_str()) })
            },
            Stage::MakeDir => Some(
                Operation::CreateDir {
                    path: get_repo_dest_path(&self.into_repo, &self.repos[self.cursor]),
                },
            ),
            Stage::InitialCheckout => Some(checkout_branch(&self.into_repo, "main", false)),
            Stage::AlignParent => Some(
                checkout_branch(&self.into_repo, self.parent_branch.as_str(), false),
            ),
            Stage::AlignOwn => Some(
                checkout_branch(&self.into_repo, self.history[self.cursor].1.branch.as_str(), false),
            ),
            Stage::AdvanceSource => {
                let entry = &self.history[self.cursor];
                assert(entry_resolves(self@.repos, self@.history[self.cursor as int]));
                Some(checkout_branch(&self.repos[entry.0], entry.1.hash.as_str(), true))
            },
            Stage::DeleteDest => {
                let entry = &self.history[self.cursor];
                assert(entry_resolves(self@.repos, self@.history[self.cursor as int]));
                Some(fs_recursive_delete(&self.into_repo, &self.repos[entry.0]))
            },
            Stage::CopySource => {
                let entry = &self.history[self.cursor];
                assert(entry_resolves(self@.repos, self@.history[self.cursor as int]));
                Some(fs_recursive_copy(&self.into_repo, &self.repos[entry.0]))
            },
            Stage::StageAll => Some(git_stage_all(&self.into_repo)),
            Stage::Commit => Some(git_commit(&self.into_repo, &self.history[self.cursor].1)),
            Stage::Finished => None,
            Stage::Aborted => None,
        }
    }

    /// Turns to the entry at `position` of the replay sequence.
    fn enter(&mut self, position: usize) -> (result: Result<(), MergeError>)
        requires
            old(self)@.entries_resolve(),
        ensures
            old(self)@.yields(old(self)@.entered(position as int), result, final(self)@),
            final(self)@.wf(),
    {
        if position >= self.history.len() {
            self.stage = Stage::Finished;
            self.cursor = position;
            return Ok(());
        }
        assert(entry_resolves(self@.repos, self@.history[position as int]));
        let resolved = get_into_parent_branch(
            &self.history[position].1,
            &self.repos[self.history[position].0],
        );
        match resolved {
            Err(_) => {
                self.stage = Stage::Aborted;
                Err(MergeError::UnresolvedParent { entry: position })
            },
            Ok(parent) => {
                let at_parent = self.into_repo.head == parent;
                let at_own = self.into_repo.head == self.history[position].1.branch;
                self.stage = if !at_parent {
                    Stage::AlignParent
                } else if !at_own {
                    Stage::AlignOwn
                } else {
                    Stage::AdvanceSource
                };
                self.cursor = position;
                self.parent_branch = parent;
                Ok(())
            },
        }
    }

    /// Records that the operation that the merge waited for has failed. The
    /// merge is over: it waits for nothing more, nothing is tried again and
    /// nothing is undone.
    pub fn fail(&mut self)
        ensures
            final(self)@ == old(self)@.at(Stage::Aborted),
            final(self)@.pending() is None,
            old(self)@.wf() ==> final(self)@.wf(),
            old(self)@.tables_wf() ==> final(self)@.tables_wf(),
    {
        self.stage = Stage::Aborted;
    }

    /// Records that the operation that the merge waited for has succeeded,
    /// and that it printed `output`. The merge then waits for its next
    /// operation, has finished, or ends on the error returned.
    pub fn advance(&mut self, output: &str) -> (result: Result<(), MergeError>)
        requires
            old(self)@.wf(),
        ensures
            match old(self)@.advanced(output@) {
                Ok(state) => result is Ok && final(self)@ == state,
                Err(error) => result == Err::<(), MergeError>(error) && final(self)@ == old(
                    self,
                )@.aborted(),
            },
            final(self)@.wf(),
            old(self)@.tables_wf() ==> final(self)@.tables_wf(),
    {
        match self.stage {
            Stage::ResetWorkspace => {
                self.stage = Stage::CloneInto;
                Ok(())
            },
            Stage::CloneInto => {
                self.stage = Stage::LogInto;
                Ok(())
            },
            Stage::LogInto => {
                match clone_repo_to_temp(&self.config.into, output) {
                    Ok(repo) => {
                        self.into_repo = repo;
                        self.stage = if self.config.repos.len() > 0 {
                            Stage::CloneSource
                        } else {
                            Stage::InitialCheckout
                        };
                        self.cursor = 0;
                        Ok(())
                    },
                    Err(error) => {
                        self.stage = Stage::Aborted;
                        Err(MergeError::Log { repository: Repository::Destination, error })
                    },
                }
            },
            Stage::CloneSource => {
                self.stage = Stage::LogSource;
                Ok(())
            },
            Stage::LogSource => {
                match clone_repo_to_temp(&self.config.repos[self.cursor], output) {
                    Ok(repo) => {
                        let ghost before = self@;
                        self.repos.push(repo);
                        assert(self@.repos =~= before.repos.push(repo@));
                        self.stage = Stage::MakeDir;
                        assert(self@.entries_resolve()) by {
                            assert forall|e: int| 0 <= e < self@.history.len() implies entry_resolves(
                                self@.repos,
                                #[trigger] self@.history[e],
                            ) by {
                                assert(entry_resolves(before.repos, before.history[e]));
                            }
                        }
                        Ok(())
                    },
                    Err(error) => {
                        self.stage = Stage::Aborted;
                        Err(MergeError::Log { repository: Repository::Source(self.cursor), error })
                    },
                }
            },
            Stage::MakeDir => {
                let sources = self.config.repos.len();
                if self.cursor + 1 < sources {
                    self.stage = Stage::CloneSource;
                    self.cursor = self.cursor + 1;
                } else {
                    self.stage = Stage::InitialCheckout;
                }
                Ok(())
            },
            Stage::InitialCheckout => {
                self.into_repo.head = String::from_str("main");
                let history = build_full_commit_history(&self.repos);
                proof {
                    lemma_first_unresolved(self@.repos, entry_views(history@), 0);
                }
                match first_unresolved_entry(&history, &self.repos) {
                    Some(entry) => {
                        self.stage = Stage::Aborted;
                        Err(MergeError::UnresolvedParent { entry })
                    },
                    None => {
                        self.history = history;
                        self.enter(0)
                    },
                }
            },
            Stage::AlignParent => {
                let at_own = self.parent_branch == self.history[self.cursor].1.branch;
                self.into_repo.head = self.parent_branch.clone();
                self.stage = if !at_own {
                    Stage::AlignOwn
                } else {
                    Stage::AdvanceSource
                };
                Ok(())
            },
            Stage::AlignOwn => {
                self.into_repo.head = self.history[self.cursor].1.branch.clone();
                self.stage = Stage::AdvanceSource;
                Ok(())
            },
            Stage::AdvanceSource => {
                let ghost before = self@;
                let index = self.history[self.cursor].0;
                let hash = self.history[self.cursor].1.hash.clone();
                assert(entry_resolves(before.repos, before.history[self.cursor as int]));
                set_head(&mut self.repos, index, hash);
                self.stage = Stage::DeleteDest;
                assert(self@.entries_resolve()) by {
                    assert forall|e: int| 0 <= e < self@.history.len() implies entry_resolves(
                        self@.repos,
                        #[trigger] self@.history[e],
                    ) by {
                        assert(entry_resolves(before.repos, before.history[e]));
                    }
                }
                Ok(())
            },
            Stage::DeleteDest => {
                self.stage = Stage::CopySource;
                Ok(())
            },
            Stage::CopySource => {
                self.stage = Stage::StageAll;
                Ok(())
            },
            Stage::StageAll => {
                self.stage = Stage::Commit;
                Ok(())
            },
            Stage::Commit => {
                let entries = self.history.len();
                assert(self@.replaying() && self.cursor < entries);
                let next = self.cursor + 1;
                self.enter(next)
            },
            Stage::Finished => Ok(()),
            Stage::Aborted => Ok(()),
        }
    }
}

} // verus!
