//! Where the repositories lie in the workspace, and the operations that the
//! merge asks for on them.

use crate::git::run_command::{
    run_command, run_command_with_envs, str_pair_views, str_views, Command, CommandView,
};
use crate::git::types::{CommitView, GitCommit, GitRepo, GitRepoInput, RepoInputView};
use crate::text::{decimal_text, format_i64};
use vstd::prelude::*;

verus! {

/// One thing that the merge asks its caller to do.
#[derive(Debug, PartialEq, Eq)]
pub enum Operation {
    /// Remove whatever lies at `path` and make an empty directory there.
    ResetWorkspace { path: String },
    /// Run a program and hand back what it printed.
    Run { command: Command },
    /// Make the directory `path`, with the directories above it.
    CreateDir { path: String },
    /// Remove every entry of the directory `path` but the one named `exempt`.
    DeleteContents { path: String, exempt: String },
    /// Copy every entry of the directory `from`, but the one named `exempt`,
    /// into the directory `to`.
    CopyContents { from: String, to: String, exempt: String },
}

/// What an operation holds, as mathematical values.
pub enum OperationView {
    ResetWorkspace { path: Seq<char> },
    Run { command: CommandView },
    CreateDir { path: Seq<char> },
    DeleteContents { path: Seq<char>, exempt: Seq<char> },
    CopyContents { from: Seq<char>, to: Seq<char>, exempt: Seq<char> },
}

impl View for Operation {
    type V = OperationView;

    open spec fn view(&self) -> OperationView {
        match self {
            Operation::ResetWorkspace { path } => OperationView::ResetWorkspace { path: path@ },
            Operation::Run { command } => OperationView::Run { command: command@ },
            Operation::CreateDir { path } => OperationView::CreateDir { path: path@ },
            Operation::DeleteContents { path, exempt } => OperationView::DeleteContents {
                path: path@,
                exempt: exempt@,
            },
            Operation::CopyContents { from, to, exempt } => OperationView::CopyContents {
                from: from@,
                to: to@,
                exempt: exempt@,
            },
        }
    }
}

/// The directory in which all repositories are cloned.
pub open spec fn workspace() -> Seq<char> {
    "./tmp"@
}

/// The branch that a commit without a parent is made from, and that the
/// destination starts on.
pub open spec fn default_branch() -> Seq<char> {
    "main"@
}

/// The name of the directory in which a repository keeps its own data.
pub open spec fn metadata_dir() -> Seq<char> {
    ".git"@
}

/// Where the repository named `name` lies in the workspace.
pub open spec fn repo_path(name: Seq<char>) -> Seq<char> {
    "./tmp/"@ + name
}

/// Where the files of the source repository named `source` lie in the
/// destination repository named `into`.
pub open spec fn repo_dest_path(into: Seq<char>, source: Seq<char>) -> Seq<char> {
    "./tmp/"@ + into + "/"@ + source
}

/// The cloning of a repository into the workspace.
pub open spec fn clone_operation(repo: RepoInputView) -> OperationView {
    OperationView::Run {
        command: CommandView {
            program: "git"@,
            work_dir: workspace(),
            args: seq!["clone"@, repo.url],
            envs: Seq::empty(),
        },
    }
}

/// The checkout of `reference` in the repository named `name`: a plain
/// switch, or with `create` the creation of a branch of that name at the
/// current commit, which resets the branch if there is one already.
pub open spec fn checkout_operation(name: Seq<char>, reference: Seq<char>, create: bool)
    -> OperationView {
    OperationView::Run {
        command: CommandView {
            program: "git"@,
            work_dir: repo_path(name),
            args: if create {
                seq!["checkout"@, "-B"@, reference]
            } else {
                seq!["checkout"@, reference]
            },
            envs: Seq::empty(),
        },
    }
}

/// The staging of every change in the working copy of the repository named
/// `name`.
pub open spec fn stage_operation(name: Seq<char>) -> OperationView {
    OperationView::Run {
        command: CommandView {
            program: "git"@,
            work_dir: repo_path(name),
            args: seq!["add"@, "-A"@],
            envs: Seq::empty(),
        },
    }
}

/// The date of a commit as the commit operation takes it: the seconds since
/// 1970-01-01 00:00:00 UTC in decimal, then an offset of zero from UTC.
pub open spec fn commit_date(time: i64) -> Seq<char> {
    decimal_text(time as int) + "+0000"@
}

/// The making of a commit in the repository named `name` that carries the
/// authorship, the date and the message of `commit`, and that is made even if
/// nothing is staged.
pub open spec fn commit_operation(name: Seq<char>, commit: CommitView) -> OperationView {
    OperationView::Run {
        command: CommandView {
            program: "git"@,
            work_dir: repo_path(name),
            args: seq!["commit"@, "--allow-empty"@, "-m"@, commit.commit_message],
            envs: seq![
                ("GIT_AUTHOR_NAME"@, commit.author_name),
                ("GIT_AUTHOR_EMAIL"@, commit.author_email),
                ("GIT_AUTHOR_DATE"@, commit_date(commit.time)),
                ("GIT_COMMITTER_NAME"@, commit.committer_name),
                ("GIT_COMMITTER_EMAIL"@, commit.committer_email),
                ("GIT_COMMITTER_DATE"@, commit_date(commit.time)),
            ],
        },
    }
}

/// The emptying of the directory that the source repository named `source`
/// owns in the destination named `into`; the destination's own data stays.
pub open spec fn delete_operation(into: Seq<char>, source: Seq<char>) -> OperationView {
    OperationView::DeleteContents { path: repo_dest_path(into, source), exempt: metadata_dir() }
}

/// The copying of the working copy of the source repository named `source`
/// into the directory that it owns in the destination named `into`; the
/// source's own data is not copied.
pub open spec fn copy_operation(into: Seq<char>, source: Seq<char>) -> OperationView {
    OperationView::CopyContents {
        from: repo_path(source),
        to: repo_dest_path(into, source),
        exempt: metadata_dir(),
    }
}

/// Sources of different names own different directories in the destination.
pub proof fn lemma_dest_paths_differ(into: Seq<char>, first: Seq<char>, second: Seq<char>)
    requires
        repo_dest_path(into, first) == repo_dest_path(into, second),
    ensures
        first == second,
{
    let before = "./tmp/"@ + into + "/"@;
    assert(repo_dest_path(into, first) == before + first);
    assert(repo_dest_path(into, second) == before + second);
    assert(first =~= (before + first).skip(before.len() as int));
    assert(second =~= (before + second).skip(before.len() as int));
}

/// The two texts one after the other.
fn joined(first: &str, second: &str) -> (result: String)
    ensures
        result@ == first@ + second@,
{
    let mut result = String::from_str(first);
    result.append(second);
    result
}

/// Where the repository named `name` lies in the workspace.
pub fn path_of(name: &str) -> (path: String)
    ensures
        path@ == repo_path(name@),
{
    joined("./tmp/", name)
}

/// Where `repo` lies in the workspace.
pub fn get_repo_path(repo: &GitRepo) -> (path: String)
    ensures
        path@ == repo_path(repo.name@),
{
    path_of(repo.name.as_str())
}

/// Where the files of `repo` lie in the destination `into`.
pub fn get_repo_dest_path(into: &GitRepo, repo: &GitRepo) -> (path: String)
    ensures
        path@ == repo_dest_path(into.name@, repo.name@),
{
    let mut path = get_repo_path(into);
    path.append("/");
    path.append(repo.name.as_str());
    path
}

/// The cloning of `repo` into the workspace.
pub fn clone_command(repo: &GitRepoInput) -> (operation: Operation)
    ensures
        operation@ == clone_operation(repo@),
{
    let mut args: Vec<&str> = Vec::new();
    args.push("clone");
    args.push(repo.url.as_str());
    assert(str_views(args@) =~= seq!["clone"@, repo.url@]);
    Operation::Run { command: run_command("git", "./tmp", &args) }
}

/// The checkout of `branch` in `repo`. With `hash` it is a plain switch to
/// that commit or branch; without, the branch is created at the current
/// commit, or reset to it.
pub fn checkout_branch(repo: &GitRepo, branch: &str, hash: bool) -> (operation: Operation)
    ensures
        operation@ == checkout_operation(repo.name@, branch@, !hash),
{
    let path = get_repo_path(repo);
    let mut args: Vec<&str> = Vec::new();
    args.push("checkout");
    if !hash {
        args.push("-B");
    }
    args.push(branch);
    assert(str_views(args@) =~= if !hash {
        seq!["checkout"@, "-B"@, branch@]
    } else {
        seq!["checkout"@, branch@]
    });
    Operation::Run { command: run_command("git", path.as_str(), &args) }
}

/// The staging of every change in the working copy of `repo`.
pub fn git_stage_all(repo: &GitRepo) -> (operation: Operation)
    ensures
        operation@ == stage_operation(repo.name@),
{
    let path = get_repo_path(repo);
    let mut args: Vec<&str> = Vec::new();
    args.push("add");
    args.push("-A");
    assert(str_views(args@) =~= seq!["add"@, "-A"@]);
    Operation::Run { command: run_command("git", path.as_str(), &args) }
}

/// The making of a commit in `repo` with the authorship, the date and the
/// message of `commit`.
pub fn git_commit(repo: &GitRepo, commit: &GitCommit) -> (operation: Operation)
    ensures
        operation@ == commit_operation(repo.name@, commit@),
{
    let path = get_repo_path(repo);
    let mut time = format_i64(commit.time);
    time.append("+0000");
    let mut args: Vec<&str> = Vec::new();
    args.push("commit");
    args.push("--allow-empty");
    args.push("-m");
    args.push(commit.commit_message.as_str());
    let mut envs: Vec<(&str, &str)> = Vec::new();
    envs.push(("GIT_AUTHOR_NAME", commit.author_name.as_str()));
    envs.push(("GIT_AUTHOR_EMAIL", commit.author_email.as_str()));
    envs.push(("GIT_AUTHOR_DATE", time.as_str()));
    envs.push(("GIT_COMMITTER_NAME", commit.committer_name.as_str()));
    envs.push(("GIT_COMMITTER_EMAIL", commit.committer_email.as_str()));
    envs.push(("GIT_COMMITTER_DATE", time.as_str()));
    assert(str_views(args@) =~= seq![
        "commit"@,
        "--allow-empty"@,
        "-m"@,
        commit.commit_message@,
    ]);
    assert(str_pair_views(envs@) =~= seq![
        ("GIT_AUTHOR_NAME"@, commit.author_name@),
        ("GIT_AUTHOR_EMAIL"@, commit.author_email@),
        ("GIT_AUTHOR_DATE"@, commit_date(commit.time)),
        ("GIT_COMMITTER_NAME"@, commit.committer_name@),
        ("GIT_COMMITTER_EMAIL"@, commit.committer_email@),
        ("GIT_COMMITTER_DATE"@, commit_date(commit.time)),
    ]);
    Operation::Run { command: run_command_with_envs("git", path.as_str(), &args, &envs) }
}

/// The emptying of the directory that `repo` owns in the destination `into`.
pub fn fs_recursive_delete(into: &GitRepo, repo: &GitRepo) -> (operation: Operation)
    ensures
        operation@ == delete_operation(into.name@, repo.name@),
{
    Operation::DeleteContents {
        path: get_repo_dest_path(into, repo),
        exempt: String::from_str(".git"),
    }
}

/// The copying of the working copy of `repo` into the directory that it owns
/// in the destination `into`.
pub fn fs_recursive_copy(into: &GitRepo, repo: &GitRepo) -> (operation: Operation)
    ensures
        operation@ == copy_operation(into.name@, repo.name@),
{
    Operation::CopyContents {
        from: get_repo_path(repo),
        to: get_repo_dest_path(into, repo),
        exempt: String::from_str(".git"),
    }
}

} // verus!
