use mono_merger::git::run_command::Command;
use mono_merger::git::tree::{build_tree, log_command, ParseError, ParseErrorKind};
use mono_merger::git::types::{GitCommit, GitRepo, GitRepoInput};
use mono_merger::merger::commands::{
    checkout_branch, clone_command, fs_recursive_copy, fs_recursive_delete, get_repo_dest_path,
    get_repo_path, git_commit, git_stage_all, path_of, Operation,
};
use mono_merger::merger::{
    clone_repo_to_temp, merge_repositories, MergeError, Merger, MergerConfig, Repository, Stage,
};

fn input(name: &str) -> GitRepoInput {
    GitRepoInput { name: name.to_string(), url: format!("https://example.org/{name}.git") }
}

fn config(sources: &[&str]) -> MergerConfig {
    MergerConfig { repos: sources.iter().map(|name| input(name)).collect(), into: input("into") }
}

fn record(reference: &str, hash: &str, parents: &str, time: i64) -> String {
    format!(
        "\"{reference};{hash};{parents};Ann of {hash};ann@{hash};{time};Bob of {hash};bob@{hash};subject of {hash}\"\n"
    )
}

fn git(work_dir: &str, args: &[&str]) -> Operation {
    Operation::Run {
        command: Command {
            program: "git".to_string(),
            work_dir: work_dir.to_string(),
            args: args.iter().map(|arg| arg.to_string()).collect(),
            envs: vec![],
        },
    }
}

fn commit_of(work_dir: &str, hash: &str, time: i64) -> Operation {
    let date = format!("{time}+0000");
    let envs = [
        ("GIT_AUTHOR_NAME", format!("Ann of {hash}")),
        ("GIT_AUTHOR_EMAIL", format!("ann@{hash}")),
        ("GIT_AUTHOR_DATE", date.clone()),
        ("GIT_COMMITTER_NAME", format!("Bob of {hash}")),
        ("GIT_COMMITTER_EMAIL", format!("bob@{hash}")),
        ("GIT_COMMITTER_DATE", date),
    ];
    Operation::Run {
        command: Command {
            program: "git".to_string(),
            work_dir: work_dir.to_string(),
            args: vec![
                "commit".to_string(),
                "--allow-empty".to_string(),
                "-m".to_string(),
                format!("subject of {hash}"),
            ],
            envs: envs.iter().map(|(name, value)| (name.to_string(), value.clone())).collect(),
        },
    }
}

fn sync_of(source: &str, hash: &str) -> Vec<Operation> {
    vec![
        git(&format!("./tmp/{source}"), &["checkout", hash]),
        Operation::DeleteContents {
            path: format!("./tmp/into/{source}"),
            exempt: ".git".to_string(),
        },
        Operation::CopyContents {
            from: format!("./tmp/{source}"),
            to: format!("./tmp/into/{source}"),
            exempt: ".git".to_string(),
        },
        git("./tmp/into", &["add", "-A"]),
    ]
}

fn preparation_of(name: &str) -> Vec<Operation> {
    vec![
        git("./tmp", &["clone", &format!("https://example.org/{name}.git")]),
        Operation::Run { command: log_command(&format!("./tmp/{name}")) },
    ]
}

fn is_log(operation: &Operation) -> Option<&str> {
    match operation {
        Operation::Run { command } if command.args.get(1).map(|a| a.as_str()) == Some("log") => {
            Some(command.work_dir.as_str())
        }
        _ => None,
    }
}

/// Carries out a merge in which every operation succeeds; the log of the
/// repository at a path is the text given for that path, and empty otherwise.
fn run(merger: &mut Merger, logs: &[(&str, String)]) -> (Vec<Operation>, Result<(), MergeError>) {
    let mut performed = Vec::new();
    while let Some(operation) = merger.pending() {
        let output = match is_log(&operation) {
            Some(path) => logs
                .iter()
                .find(|(at, _)| *at == path)
                .map(|(_, log)| log.clone())
                .unwrap_or_default(),
            None => "ignored output\n".to_string(),
        };
        performed.push(operation);
        if let Err(error) = merger.advance(&output) {
            return (performed, Err(error));
        }
    }
    (performed, Ok(()))
}

fn is_commit(operation: &Operation) -> bool {
    matches!(operation, Operation::Run { command } if command.args.first().map(|a| a.as_str()) == Some("commit"))
}

#[test]
fn paths_lie_in_the_workspace() {
    let into = clone_repo_to_temp(&input("into"), "").unwrap();
    let one = clone_repo_to_temp(&input("one"), "").unwrap();
    assert_eq!(path_of("one"), "./tmp/one");
    assert_eq!(get_repo_path(&one), "./tmp/one");
    assert_eq!(get_repo_dest_path(&into, &one), "./tmp/into/one");
}

#[test]
fn operations_on_a_repository() {
    let into = clone_repo_to_temp(&input("into"), "").unwrap();
    let one = clone_repo_to_temp(&input("one"), "").unwrap();
    assert_eq!(clone_command(&input("one")), git("./tmp", &["clone", "https://example.org/one.git"]));
    assert_eq!(checkout_branch(&one, "abc", true), git("./tmp/one", &["checkout", "abc"]));
    assert_eq!(checkout_branch(&into, "dev", false), git("./tmp/into", &["checkout", "-B", "dev"]));
    assert_eq!(git_stage_all(&into), git("./tmp/into", &["add", "-A"]));
    assert_eq!(
        fs_recursive_delete(&into, &one),
        Operation::DeleteContents { path: "./tmp/into/one".to_string(), exempt: ".git".to_string() }
    );
    assert_eq!(
        fs_recursive_copy(&into, &one),
        Operation::CopyContents {
            from: "./tmp/one".to_string(),
            to: "./tmp/into/one".to_string(),
            exempt: ".git".to_string(),
        }
    );
}

#[test]
fn commit_carries_the_authorship_and_date_of_its_source() {
    let into = clone_repo_to_temp(&input("into"), "").unwrap();
    let commit = GitCommit {
        branch: "main".to_string(),
        hash: "c1".to_string(),
        parent_hash: None,
        author_name: "Ann".to_string(),
        author_email: "ann@example.org".to_string(),
        time: 1431648000,
        committer_name: "Bob".to_string(),
        committer_email: "bob@example.org".to_string(),
        commit_message: "First".to_string(),
    };
    let expected = Operation::Run {
        command: Command {
            program: "git".to_string(),
            work_dir: "./tmp/into".to_string(),
            args: ["commit", "--allow-empty", "-m", "First"].iter().map(|a| a.to_string()).collect(),
            envs: [
                ("GIT_AUTHOR_NAME", "Ann"),
                ("GIT_AUTHOR_EMAIL", "ann@example.org"),
                ("GIT_AUTHOR_DATE", "1431648000+0000"),
                ("GIT_COMMITTER_NAME", "Bob"),
                ("GIT_COMMITTER_EMAIL", "bob@example.org"),
                ("GIT_COMMITTER_DATE", "1431648000+0000"),
            ]
            .iter()
            .map(|(name, value)| (name.to_string(), value.to_string()))
            .collect(),
        },
    };
    assert_eq!(git_commit(&into, &commit), expected);
}

#[test]
fn commit_before_1970_has_a_negative_date() {
    let into = clone_repo_to_temp(&input("into"), "").unwrap();
    let log = record("refs/heads/main", "old", "", -5);
    let tree = clone_repo_to_temp(&input("one"), &log).unwrap().tree;
    assert_eq!(git_commit(&into, &tree.commits[0]), commit_of("./tmp/into", "old", -5));
}

#[test]
fn cloned_repository_stands_on_its_oldest_commit() {
    let log = record("refs/heads/main", "c2", "c1", 20) + &record("refs/heads/main", "c1", "", 10);
    let repo = clone_repo_to_temp(&input("one"), &log).unwrap();
    assert_eq!(repo.name, "one");
    assert_eq!(repo.url, "https://example.org/one.git");
    assert_eq!(repo.head, "c1");
    assert_eq!(repo.tree.commits.len(), 2);
}

#[test]
fn cloned_repository_without_commits_stands_on_the_default_branch() {
    let repo = clone_repo_to_temp(&input("one"), "").unwrap();
    assert_eq!(repo.head, "main");
    assert!(repo.tree.commits.is_empty());
}

#[test]
fn cloned_repository_with_a_bad_log_is_an_error() {
    assert_eq!(
        clone_repo_to_temp(&input("one"), "nothing").err(),
        Some(ParseError { line: 0, kind: ParseErrorKind::MissingField })
    );
}

#[test]
fn merge_begins_with_an_empty_workspace() {
    let merger = merge_repositories(config(&["one"]));
    assert_eq!(merger.stage, Stage::ResetWorkspace);
    assert_eq!(merger.pending(), Some(Operation::ResetWorkspace { path: "./tmp".to_string() }));
    assert!(merger.repos.is_empty());
    assert!(merger.history.is_empty());
    assert_eq!(merger.into_repo.name, "into");
}

#[test]
fn merge_without_sources_only_prepares_the_destination() {
    let mut merger = merge_repositories(config(&[]));
    let logs = [("./tmp/into", record("refs/heads/main", "d1", "", 1))];
    let (performed, result) = run(&mut merger, &logs);
    assert_eq!(result, Ok(()));
    let mut expected = vec![Operation::ResetWorkspace { path: "./tmp".to_string() }];
    expected.extend(preparation_of("into"));
    expected.push(git("./tmp/into", &["checkout", "-B", "main"]));
    assert_eq!(performed, expected);
    assert_eq!(merger.stage, Stage::Finished);
    assert_eq!(merger.pending(), None);
    assert_eq!(merger.into_repo.head, "main");
}

#[test]
fn merge_of_sources_without_commits_replays_nothing() {
    let mut merger = merge_repositories(config(&["one", "two"]));
    let (performed, result) = run(&mut merger, &[]);
    assert_eq!(result, Ok(()));
    assert_eq!(performed.len(), 10);
    assert_eq!(performed[5], Operation::CreateDir { path: "./tmp/into/one".to_string() });
    assert_eq!(performed[8], Operation::CreateDir { path: "./tmp/into/two".to_string() });
    assert_eq!(performed[9], git("./tmp/into", &["checkout", "-B", "main"]));
    assert!(!performed.iter().any(is_commit));
}

#[test]
fn merge_of_two_repositories_with_one_root_commit_each() {
    let mut merger = merge_repositories(config(&["one", "two"]));
    let logs = [
        ("./tmp/one", record("refs/heads/main", "a1", "", 200)),
        ("./tmp/two", record("refs/heads/main", "b1", "", 100)),
    ];
    let (performed, result) = run(&mut merger, &logs);
    assert_eq!(result, Ok(()));

    let mut expected = vec![Operation::ResetWorkspace { path: "./tmp".to_string() }];
    expected.extend(preparation_of("into"));
    expected.extend(preparation_of("one"));
    expected.push(Operation::CreateDir { path: "./tmp/into/one".to_string() });
    expected.extend(preparation_of("two"));
    expected.push(Operation::CreateDir { path: "./tmp/into/two".to_string() });
    expected.push(git("./tmp/into", &["checkout", "-B", "main"]));
    expected.extend(sync_of("two", "b1"));
    expected.push(commit_of("./tmp/into", "b1", 100));
    expected.extend(sync_of("one", "a1"));
    expected.push(commit_of("./tmp/into", "a1", 200));
    assert_eq!(performed, expected);

    assert_eq!(performed.iter().filter(|operation| is_commit(operation)).count(), 2);
    assert_eq!(merger.stage, Stage::Finished);
    assert_eq!(merger.into_repo.head, "main");
    assert_eq!(merger.repos[0].head, "a1");
    assert_eq!(merger.repos[1].head, "b1");
}

#[test]
fn merge_puts_the_destination_on_the_parent_branch_and_then_on_the_own_branch() {
    let mut merger = merge_repositories(config(&["one"]));
    let log = record("refs/heads/develop", "c1", "", 10)
        + &record("refs/heads/feature", "c2", "c1", 20)
        + &record("refs/heads/feature", "c3", "c2", 30)
        + &record("refs/heads/main", "c4", "", 40);
    let (performed, result) = run(&mut merger, &[("./tmp/one", log)]);
    assert_eq!(result, Ok(()));
    let replay: Vec<Operation> = performed.into_iter().skip(7).collect();

    let mut expected = Vec::new();
    // A root commit on another branch: the parent branch is the default one.
    expected.push(git("./tmp/into", &["checkout", "-B", "develop"]));
    expected.extend(sync_of("one", "c1"));
    expected.push(commit_of("./tmp/into", "c1", 10));
    // The parent is on the branch that the destination stands on.
    expected.push(git("./tmp/into", &["checkout", "-B", "feature"]));
    expected.extend(sync_of("one", "c2"));
    expected.push(commit_of("./tmp/into", "c2", 20));
    // Parent and commit are on the branch that the destination stands on.
    expected.extend(sync_of("one", "c3"));
    expected.push(commit_of("./tmp/into", "c3", 30));
    // The destination stands elsewhere; parent and commit are on one branch.
    expected.push(git("./tmp/into", &["checkout", "-B", "main"]));
    expected.extend(sync_of("one", "c4"));
    expected.push(commit_of("./tmp/into", "c4", 40));
    assert_eq!(replay, expected);
    assert_eq!(merger.into_repo.head, "main");
}

#[test]
fn merge_checks_out_the_own_branch_after_the_parent_branch() {
    let mut merger = merge_repositories(config(&["one", "two"]));
    let one = record("refs/heads/develop", "a1", "", 10) + &record("refs/heads/feature", "a2", "a1", 30);
    let two = record("refs/heads/other", "b1", "", 20);
    let (performed, result) = run(&mut merger, &[("./tmp/one", one), ("./tmp/two", two)]);
    assert_eq!(result, Ok(()));
    let replay: Vec<Operation> = performed.into_iter().skip(10).collect();
    let mut expected = Vec::new();
    expected.push(git("./tmp/into", &["checkout", "-B", "develop"]));
    expected.extend(sync_of("one", "a1"));
    expected.push(commit_of("./tmp/into", "a1", 10));
    expected.push(git("./tmp/into", &["checkout", "-B", "main"]));
    expected.push(git("./tmp/into", &["checkout", "-B", "other"]));
    expected.extend(sync_of("two", "b1"));
    expected.push(commit_of("./tmp/into", "b1", 20));
    expected.push(git("./tmp/into", &["checkout", "-B", "develop"]));
    expected.push(git("./tmp/into", &["checkout", "-B", "feature"]));
    expected.extend(sync_of("one", "a2"));
    expected.push(commit_of("./tmp/into", "a2", 30));
    assert_eq!(replay, expected);
}

#[test]
fn merge_records_a_checkout_only_after_it_succeeded() {
    let mut merger = merge_repositories(config(&["one"]));
    let log = record("refs/heads/develop", "c1", "", 10);
    for output in ["", "", "", "", log.as_str(), ""] {
        merger.advance(output).unwrap();
    }
    assert_eq!(merger.stage, Stage::InitialCheckout);
    assert_eq!(merger.into_repo.head, "main");
    merger.advance("").unwrap();
    assert_eq!(merger.stage, Stage::AlignOwn);
    assert_eq!(merger.pending(), Some(git("./tmp/into", &["checkout", "-B", "develop"])));
    assert_eq!(merger.into_repo.head, "main");
    merger.advance("").unwrap();
    assert_eq!(merger.into_repo.head, "develop");
    assert_eq!(merger.stage, Stage::AdvanceSource);
    assert_eq!(merger.repos[0].head, "c1");
    merger.advance("").unwrap();
    assert_eq!(merger.repos[0].head, "c1");
    assert_eq!(merger.stage, Stage::DeleteDest);
}

#[test]
fn merge_ends_on_a_parent_that_does_not_resolve() {
    let mut merger = merge_repositories(config(&["one"]));
    let log = record("refs/heads/main", "c2", "gone", 20);
    let (performed, result) = run(&mut merger, &[("./tmp/one", log)]);
    assert_eq!(result, Err(MergeError::UnresolvedParent { entry: 0 }));
    assert_eq!(performed.len(), 7);
    assert_eq!(performed[6], git("./tmp/into", &["checkout", "-B", "main"]));
    assert!(!performed.iter().any(is_commit));
    assert_eq!(merger.stage, Stage::Aborted);
    assert_eq!(merger.pending(), None);
}

#[test]
fn merge_ends_before_any_commit_where_a_later_parent_does_not_resolve() {
    let mut merger = merge_repositories(config(&["one", "two"]));
    let one = record("refs/heads/main", "a1", "", 10) + &record("refs/heads/main", "a2", "a1", 30);
    let two = record("refs/heads/main", "b1", "elsewhere", 20);
    let (performed, result) = run(&mut merger, &[("./tmp/one", one), ("./tmp/two", two)]);
    assert_eq!(result, Err(MergeError::UnresolvedParent { entry: 1 }));
    assert_eq!(performed.len(), 10);
    assert_eq!(performed.last(), Some(&git("./tmp/into", &["checkout", "-B", "main"])));
    assert!(!performed.iter().any(is_commit));
    assert_eq!(merger.stage, Stage::Aborted);
    assert_eq!(merger.pending(), None);
    assert_eq!(merger.into_repo.head, "main");
    assert!(merger.history.is_empty());
    assert!(merger.is_well_formed());
}

#[test]
fn merge_ends_before_any_commit_where_the_last_parent_does_not_resolve() {
    let mut merger = merge_repositories(config(&["one"]));
    let log = record("refs/heads/main", "c1", "", 10)
        + &record("refs/heads/main", "c2", "c1", 20)
        + &record("refs/heads/main", "c3", "nowhere", 30);
    let (performed, result) = run(&mut merger, &[("./tmp/one", log)]);
    assert_eq!(result, Err(MergeError::UnresolvedParent { entry: 2 }));
    assert_eq!(performed.len(), 7);
    assert!(!performed.iter().any(is_commit));
}

#[test]
fn merge_names_the_first_parent_that_does_not_resolve() {
    let mut merger = merge_repositories(config(&["one", "two"]));
    let one = record("refs/heads/main", "a1", "", 10) + &record("refs/heads/main", "a2", "lost", 40);
    let two = record("refs/heads/main", "b1", "", 20) + &record("refs/heads/main", "b2", "gone", 30);
    let (performed, result) = run(&mut merger, &[("./tmp/one", one), ("./tmp/two", two)]);
    assert_eq!(result, Err(MergeError::UnresolvedParent { entry: 2 }));
    assert!(!performed.iter().any(is_commit));
}

#[test]
fn merge_does_not_resolve_a_parent_in_another_repository() {
    let mut merger = merge_repositories(config(&["one", "two"]));
    let one = record("refs/heads/main", "a1", "", 10);
    let two = record("refs/heads/main", "b1", "a1", 20);
    let (performed, result) = run(&mut merger, &[("./tmp/one", one), ("./tmp/two", two)]);
    assert_eq!(result, Err(MergeError::UnresolvedParent { entry: 1 }));
    assert_eq!(performed.len(), 10);
    assert!(!performed.iter().any(is_commit));
}

#[test]
fn merge_is_over_when_an_operation_failed() {
    let mut merger = merge_repositories(config(&["one"]));
    let log = record("refs/heads/develop", "c1", "", 10);
    let mut performed = 0;
    for output in ["", "", "", "", log.as_str(), "", "", ""] {
        assert!(merger.pending().is_some());
        merger.advance(output).unwrap();
        performed += 1;
    }
    assert_eq!(merger.stage, Stage::AdvanceSource);
    assert_eq!(merger.pending(), Some(git("./tmp/one", &["checkout", "c1"])));
    merger.fail();
    performed += 1;
    assert_eq!(performed, 9);
    assert_eq!(merger.stage, Stage::Aborted);
    assert_eq!(merger.pending(), None);
    assert_eq!(merger.into_repo.head, "develop");
    assert_eq!(merger.repos[0].head, "c1");
    assert_eq!(merger.cursor, 0);
    assert!(merger.is_well_formed());
    assert_eq!(merger.advance(""), Ok(()));
    assert_eq!(merger.pending(), None);
}

#[test]
fn merge_is_over_when_the_first_operation_failed() {
    let mut merger = merge_repositories(config(&["one"]));
    merger.fail();
    assert_eq!(merger.stage, Stage::Aborted);
    assert_eq!(merger.pending(), None);
    assert!(merger.repos.is_empty());
}

#[test]
fn merge_ends_on_a_log_that_is_no_list_of_records() {
    let mut merger = merge_repositories(config(&["one", "two"]));
    let two = record("refs/heads/main", "b1", "", 20) + "broken\n";
    let (performed, result) = run(&mut merger, &[("./tmp/two", two)]);
    assert_eq!(
        result,
        Err(MergeError::Log {
            repository: Repository::Source(1),
            error: ParseError { line: 1, kind: ParseErrorKind::MissingField },
        })
    );
    assert_eq!(performed.len(), 8);
    assert_eq!(merger.stage, Stage::Aborted);

    let mut merger = merge_repositories(config(&["one"]));
    let (performed, result) = run(&mut merger, &[("./tmp/into", "a;b;c;d;e;f;g;h;i".to_string())]);
    assert_eq!(
        result,
        Err(MergeError::Log {
            repository: Repository::Destination,
            error: ParseError { line: 0, kind: ParseErrorKind::InvalidTimestamp },
        })
    );
    assert_eq!(performed.len(), 3);
}

#[test]
fn merge_that_has_ended_stays_as_it_is() {
    let mut merger = merge_repositories(config(&[]));
    let (_, result) = run(&mut merger, &[]);
    assert_eq!(result, Ok(()));
    assert_eq!(merger.advance("more"), Ok(()));
    assert_eq!(merger.stage, Stage::Finished);
    assert_eq!(merger.pending(), None);
}

#[test]
fn merge_replays_from_hand_made_repositories() {
    let commit = GitCommit {
        branch: "main".to_string(),
        hash: "c1".to_string(),
        parent_hash: None,
        author_name: "Ann of c1".to_string(),
        author_email: "ann@c1".to_string(),
        time: 9,
        committer_name: "Bob of c1".to_string(),
        committer_email: "bob@c1".to_string(),
        commit_message: "subject of c1".to_string(),
    };
    let mut merger = merge_repositories(config(&["one"]));
    merger.repos.push(GitRepo {
        name: "one".to_string(),
        url: "one.git".to_string(),
        tree: build_tree(vec![commit]),
        head: "c1".to_string(),
    });
    merger.stage = Stage::InitialCheckout;
    let (performed, result) = run(&mut merger, &[]);
    assert_eq!(result, Ok(()));
    let mut expected = vec![git("./tmp/into", &["checkout", "-B", "main"])];
    expected.extend(sync_of("one", "c1"));
    expected.push(commit_of("./tmp/into", "c1", 9));
    assert_eq!(performed, expected);
}

#[test]
fn merge_keeps_its_invariant_over_a_whole_run() {
    let mut merger = merge_repositories(config(&["one", "two"]));
    let one = record("refs/heads/develop", "a1", "", 10) + &record("refs/heads/feature", "a2", "a1", 30);
    let two = record("refs/heads/other", "b1", "", 20);
    let mut steps = 0;
    assert!(merger.is_well_formed());
    while let Some(operation) = merger.pending() {
        let output = match is_log(&operation) {
            Some("./tmp/one") => one.clone(),
            Some("./tmp/two") => two.clone(),
            _ => String::new(),
        };
        assert_eq!(merger.advance(&output), Ok(()));
        assert!(merger.is_well_formed());
        steps += 1;
    }
    assert_eq!(steps, 10 + 6 + 7 + 7);
}

#[test]
fn merge_that_was_tampered_with_has_lost_its_invariant() {
    let mut merger = merge_repositories(config(&["one"]));
    merger.stage = Stage::LogSource;
    merger.cursor = 1;
    assert!(!merger.is_well_formed());

    let mut merger = merge_repositories(config(&["one"]));
    merger.stage = Stage::Commit;
    assert!(!merger.is_well_formed());

    let mut merger = merge_repositories(config(&["one"]));
    let log = record("refs/heads/main", "c1", "", 10);
    for output in ["", "", "", "", log.as_str(), "", ""] {
        merger.advance(output).unwrap();
    }
    assert_eq!(merger.stage, Stage::AdvanceSource);
    assert!(merger.is_well_formed());
    merger.parent_branch = "elsewhere".to_string();
    assert!(!merger.is_well_formed());
    merger.parent_branch = "main".to_string();
    merger.repos.clear();
    assert!(!merger.is_well_formed());
}
