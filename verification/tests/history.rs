use mono_merger::git::tree::build_tree;
use mono_merger::git::types::{GitCommit, GitRepo};
use mono_merger::merger::history::{
    build_full_commit_history, get_into_branch, get_into_parent_branch, UnresolvedParent,
};

fn commit(branch: &str, hash: &str, parent: Option<&str>, time: i64) -> GitCommit {
    GitCommit {
        branch: branch.to_string(),
        hash: hash.to_string(),
        parent_hash: parent.map(|hash| hash.to_string()),
        author_name: "Ann".to_string(),
        author_email: "ann@example.org".to_string(),
        time,
        committer_name: "Bob".to_string(),
        committer_email: "bob@example.org".to_string(),
        commit_message: format!("commit {hash}"),
    }
}

fn repo(name: &str, commits: Vec<GitCommit>) -> GitRepo {
    GitRepo {
        name: name.to_string(),
        url: format!("{name}.git"),
        tree: build_tree(commits),
        head: "main".to_string(),
    }
}

#[test]
fn own_branch_is_the_branch_of_the_commit() {
    assert_eq!(get_into_branch(&commit("feature", "c1", None, 1)), "feature");
}

#[test]
fn parent_branch_of_a_root_commit_is_the_default() {
    let root = commit("feature", "c1", None, 1);
    let r = repo("one", vec![root.clone()]);
    assert_eq!(get_into_parent_branch(&root, &r), Ok("main".to_string()));
}

#[test]
fn parent_branch_is_the_branch_of_the_parent() {
    let parent = commit("develop", "c1", None, 1);
    let child = commit("feature", "c2", Some("c1"), 2);
    let r = repo("one", vec![parent, child.clone()]);
    assert_eq!(get_into_parent_branch(&child, &r), Ok("develop".to_string()));
}

#[test]
fn parent_branch_is_found_by_one_hop_only() {
    let root = commit("trunk", "c1", None, 1);
    let middle = commit("develop", "c2", Some("c1"), 2);
    let tip = commit("feature", "c3", Some("c2"), 3);
    let r = repo("one", vec![tip.clone(), root, middle]);
    assert_eq!(get_into_parent_branch(&tip, &r), Ok("develop".to_string()));
}

#[test]
fn parent_that_is_not_in_the_table_is_an_error() {
    let child = commit("feature", "c2", Some("gone"), 2);
    let r = repo("one", vec![commit("main", "c1", None, 1), child.clone()]);
    assert_eq!(
        get_into_parent_branch(&child, &r),
        Err(UnresolvedParent { hash: "gone".to_string() })
    );
}

#[test]
fn parent_that_the_lookup_places_outside_the_table_is_an_error() {
    let child = commit("feature", "c2", Some("c1"), 2);
    let mut r = repo("one", vec![commit("main", "c1", None, 1), child.clone()]);
    r.tree.commits.clear();
    assert_eq!(
        get_into_parent_branch(&child, &r),
        Err(UnresolvedParent { hash: "c1".to_string() })
    );
}

#[test]
fn history_of_no_repositories_is_empty() {
    assert!(build_full_commit_history(&vec![]).is_empty());
    assert!(build_full_commit_history(&vec![repo("one", vec![]), repo("two", vec![])]).is_empty());
}

#[test]
fn history_holds_every_commit_in_time_order() {
    let repos = vec![
        repo("one", vec![commit("main", "a1", None, 10), commit("main", "a2", Some("a1"), 40)]),
        repo("two", vec![commit("main", "b1", None, 20), commit("main", "b2", Some("b1"), 30)]),
        repo("three", vec![commit("main", "c1", None, 5)]),
    ];
    let history = build_full_commit_history(&repos);
    let order: Vec<(usize, &str)> =
        history.iter().map(|(index, commit)| (*index, commit.hash.as_str())).collect();
    assert_eq!(order, vec![(2, "c1"), (0, "a1"), (1, "b1"), (1, "b2"), (0, "a2")]);
    assert_eq!(history.len(), 5);
    assert_eq!(history[3].1, commit("main", "b2", Some("b1"), 30));
}

#[test]
fn history_orders_commits_of_the_same_time_by_repository_and_position() {
    let repos = vec![
        repo("one", vec![commit("main", "a1", None, 7), commit("main", "a2", None, 7)]),
        repo("two", vec![commit("main", "b1", None, 7), commit("main", "b2", None, 3)]),
        repo("three", vec![commit("main", "c1", None, 7)]),
    ];
    let history = build_full_commit_history(&repos);
    let order: Vec<(usize, &str)> =
        history.iter().map(|(index, commit)| (*index, commit.hash.as_str())).collect();
    assert_eq!(order, vec![(1, "b2"), (0, "a1"), (0, "a2"), (1, "b1"), (2, "c1")]);
}

#[test]
fn history_orders_as_a_stable_sort_of_all_commits_does() {
    let times = [[4, 4, 9, 1], [4, 2, 2, 9], [1, 4, 9, 9]];
    let repos: Vec<GitRepo> = times
        .iter()
        .enumerate()
        .map(|(r, row)| {
            let commits =
                row.iter().enumerate().map(|(j, t)| commit("main", &format!("r{r}c{j}"), None, *t));
            repo(&format!("repo{r}"), commits.collect())
        })
        .collect();
    let mut expected: Vec<(usize, GitCommit)> = Vec::new();
    for (index, repo) in repos.iter().enumerate() {
        for commit in repo.tree.commits.iter() {
            expected.push((index, commit.clone()));
        }
    }
    expected.sort_by(|a, b| a.1.time.cmp(&b.1.time));
    assert_eq!(build_full_commit_history(&repos), expected);
}
