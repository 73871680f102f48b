//! What a merge does over several operations.

use crate::git::tree::{lemma_log_tree_wf, log_invocation, log_tree};
use crate::text::lines_of;
use crate::git::types::{CommitView, RepoView};
use crate::merger::commands::{
    checkout_operation, clone_operation, commit_operation, copy_operation, default_branch,
    delete_operation, repo_dest_path, repo_path, stage_operation, workspace, OperationView,
};
use crate::merger::history::{
    all_entries, entry_resolves, entry_times, first_unresolved, lemma_first_unresolved,
    parent_branch_of, replay_sequence,
};
use crate::merger::{entry_operations, ConfigView, MergeError, MergerView, Stage};
use crate::order::lemma_stable_order_exists;
use vstd::prelude::*;

verus! {

impl MergerView {
    /// The merge after its next operations succeeded, as many as there are
    /// `outputs`, each with the output at its position; or the error on which
    /// it ended on the way.
    pub open spec fn after(self, outputs: Seq<Seq<char>>) -> Result<MergerView, MergeError>
        decreases outputs.len(),
    {
        if outputs.len() == 0 {
            Ok(self)
        } else {
            match self.advanced(outputs[0]) {
                Ok(next) => next.after(outputs.skip(1)),
                Err(error) => Err(error),
            }
        }
    }

    /// The operations that a caller has carried out who reports one success
    /// after the other with `outputs`, until the outputs are used up, the
    /// merge waits for nothing, or it ends on an error.
    pub open spec fn performed(self, outputs: Seq<Seq<char>>) -> Seq<OperationView>
        decreases outputs.len(),
    {
        if outputs.len() == 0 {
            Seq::empty()
        } else {
            match self.pending() {
                None => Seq::empty(),
                Some(operation) => seq![operation] + (match self.advanced(outputs[0]) {
                    Ok(next) => next.performed(outputs.skip(1)),
                    Err(_) => Seq::empty(),
                }),
            }
        }
    }

    /// Whether the merge is still preparing its repositories: no entry has
    /// been turned to.
    pub open spec fn preparing(self) -> bool {
        self.stage == Stage::ResetWorkspace || self.stage == Stage::CloneInto || self.stage
            == Stage::LogInto || self.stage == Stage::CloneSource || self.stage
            == Stage::LogSource || self.stage == Stage::MakeDir || self.stage
            == Stage::InitialCheckout
    }

    /// Whether the merge waits for the first operation of the entry that it
    /// replays.
    pub open spec fn at_entry_start(self) -> bool {
        self.stage == if self.into_repo.head != self.parent_branch {
            Stage::AlignParent
        } else if self.into_repo.head != self.entry().1.branch {
            Stage::AlignOwn
        } else {
            Stage::AdvanceSource
        }
    }
}

/// The operations of a merge without sources: the workspace is made empty,
/// the destination is cloned, its log is printed, and it is put on the default
/// branch.
pub open spec fn operations_without_sources(config: ConfigView) -> Seq<OperationView> {
    seq![
        OperationView::ResetWorkspace { path: workspace() },
        clone_operation(config.into),
        OperationView::Run { command: log_invocation(repo_path(config.into.name)) },
        checkout_operation(config.into.name, default_branch(), true),
    ]
}

/// Whether an operation makes a commit.
pub open spec fn is_commit(operation: OperationView) -> bool {
    operation matches OperationView::Run { command } && command.args.len() > 0 && command.args[0]
        == "commit"@
}

/// A step keeps the invariant of the merge.
pub proof fn lemma_advanced_keeps_wf(state: MergerView, output: Seq<char>)
    requires
        state.wf(),
        state.advanced(output) is Ok,
    ensures
        state.advanced(output)->Ok_0.wf(),
{
    let next = state.advanced(output)->Ok_0;
    if state.stage == Stage::AdvanceSource {
        let index = state.entry().0 as int;
        assert(entry_resolves(state.repos, state.history[state.cursor]));
        assert(next.history == state.history);
        assert forall|e: int| 0 <= e < next.history.len() implies entry_resolves(
            next.repos,
            #[trigger] next.history[e],
        ) by {
            assert(entry_resolves(state.repos, state.history[e]));
        }
    } else if state.stage == Stage::InitialCheckout {
        let ready = state.ready_for_replay();
        lemma_first_unresolved(ready.repos, ready.history, 0);
        assert(next.history == ready.history);
        assert(next.repos == ready.repos);
        assert(next.entries_resolve());
        if ready.history.len() > 0 {
            assert(entry_resolves(ready.repos, ready.history[0]));
        }
    } else if state.stage == Stage::LogSource {
        assert(next.history == state.history);
        assert forall|e: int| 0 <= e < next.history.len() implies entry_resolves(
            next.repos,
            #[trigger] next.history[e],
        ) by {
            assert(entry_resolves(state.repos, state.history[e]));
        }
    } else {
        assert(next.history == state.history);
        assert(next.repos == state.repos);
        assert(next.entries_resolve());
        if state.stage == Stage::Commit && state.cursor + 1 < state.history.len() {
            assert(entry_resolves(state.repos, state.history[state.cursor + 1]));
        }
    }
}

/// A step keeps the commit tables well formed, where the output is a text
/// that a machine can hold.
pub proof fn lemma_advanced_keeps_tables(state: MergerView, output: Seq<char>)
    requires
        state.wf(),
        state.tables_wf(),
        state.advanced(output) is Ok,
        lines_of(output).len() <= usize::MAX,
    ensures
        state.advanced(output)->Ok_0.tables_wf(),
{
    let next = state.advanced(output)->Ok_0;
    lemma_log_tree_wf(output);
    if state.stage == Stage::AdvanceSource {
        assert(entry_resolves(state.repos, state.history[state.cursor]));
        assert forall|i: int| 0 <= i < next.repos.len() implies (#[trigger] next.repos[i]).tree.wf() by {
            assert(state.repos[i].tree.wf());
        }
    } else if state.stage == Stage::LogSource {
        assert forall|i: int| 0 <= i < next.repos.len() implies (#[trigger] next.repos[i]).tree.wf() by {
            if i < state.repos.len() {
                assert(state.repos[i].tree.wf());
            }
        }
    } else {
        assert(next.repos == state.repos);
    }
}

/// A merge that waits for nothing stays as it is, whatever is reported.
pub proof fn lemma_nothing_pending(state: MergerView, outputs: Seq<Seq<char>>)
    requires
        state.pending() is None,
    ensures
        state.after(outputs) == Ok::<MergerView, MergeError>(state),
        state.performed(outputs) == Seq::<OperationView>::empty(),
    decreases outputs.len(),
{
    if outputs.len() > 0 {
        lemma_nothing_pending(state, outputs.skip(1));
    }
}

/// A merge whose operation failed is over: it waits for nothing, and
/// whatever is reported after that, no operation follows and the merge stays
/// as it was when the operation failed, with nothing undone.
pub proof fn lemma_failed_operation_ends_merge(state: MergerView, outputs: Seq<Seq<char>>)
    ensures
        state.at(Stage::Aborted).pending() is None,
        state.at(Stage::Aborted).performed(outputs) == Seq::<OperationView>::empty(),
        state.at(Stage::Aborted).after(outputs) == Ok::<MergerView, MergeError>(
            state.at(Stage::Aborted),
        ),
{
    lemma_nothing_pending(state.at(Stage::Aborted), outputs);
}

/// Without sources there is no entry to replay.
proof fn lemma_no_sources_no_entries(repos: Seq<RepoView>)
    requires
        repos.len() == 0,
    ensures
        replay_sequence(repos).len() == 0,
{
    let times = entry_times(all_entries(repos));
    assert(times.len() == 0);
    lemma_stable_order_exists(times);
}

/// From the point where the destination is put on the default branch, a
/// merge without sources carries out that checkout and has then finished.
proof fn lemma_without_sources_checkout(state: MergerView, outputs: Seq<Seq<char>>)
    requires
        state.stage == Stage::InitialCheckout,
        state.repos.len() == 0,
    ensures
        state.performed(outputs).is_prefix_of(
            seq![checkout_operation(state.into_repo.name, default_branch(), true)],
        ),
        outputs.len() >= 1 ==> state.performed(outputs) == seq![
            checkout_operation(state.into_repo.name, default_branch(), true),
        ] && state.after(outputs) is Ok && state.after(outputs)->Ok_0.stage == Stage::Finished,
{
    let expected = seq![checkout_operation(state.into_repo.name, default_branch(), true)];
    if outputs.len() >= 1 {
        lemma_no_sources_no_entries(state.repos);
        let next = state.advanced(outputs[0])->Ok_0;
        assert(state.advanced(outputs[0]) is Ok);
        assert(next.stage == Stage::Finished);
        lemma_nothing_pending(next, outputs.skip(1));
        assert(state.performed(outputs) =~= expected);
    } else {
        assert(state.performed(outputs) =~= expected.take(0));
    }
}

/// From the point where the log of the destination is printed, a merge
/// without sources carries out that operation and, where the log is a list of
/// commit records, the checkout of the default branch.
proof fn lemma_without_sources_log(state: MergerView, outputs: Seq<Seq<char>>)
    requires
        state.stage == Stage::LogInto,
        state.repos.len() == 0,
        state.config.repos.len() == 0,
    ensures
        state.performed(outputs).is_prefix_of(
            seq![
                OperationView::Run { command: log_invocation(repo_path(state.config.into.name)) },
                checkout_operation(state.config.into.name, default_branch(), true),
            ],
        ),
        outputs.len() >= 2 && state.advanced(outputs[0]) is Ok ==> state.performed(outputs)
            == seq![
            OperationView::Run { command: log_invocation(repo_path(state.config.into.name)) },
            checkout_operation(state.config.into.name, default_branch(), true),
        ] && state.after(outputs) is Ok && state.after(outputs)->Ok_0.stage == Stage::Finished,
{
    let log = OperationView::Run { command: log_invocation(repo_path(state.config.into.name)) };
    let checkout = checkout_operation(state.config.into.name, default_branch(), true);
    let expected = seq![log, checkout];
    if outputs.len() >= 1 {
        match state.advanced(outputs[0]) {
            Ok(next) => {
                let rest = outputs.skip(1);
                lemma_without_sources_checkout(next, rest);
                assert(next.into_repo.name == state.config.into.name);
                assert(state.performed(outputs) == seq![log] + next.performed(rest));
                if rest.len() >= 1 {
                    assert(state.performed(outputs) =~= expected);
                } else {
                    assert(next.performed(rest) =~= Seq::<OperationView>::empty());
                    assert(state.performed(outputs) =~= expected.take(1));
                }
            },
            Err(_) => {
                assert(state.performed(outputs) =~= expected.take(1));
            },
        }
    } else {
        assert(state.performed(outputs) =~= expected.take(0));
    }
}

/// A merge without sources carries out no operation but the four of
/// [`operations_without_sources`], in their order: after the destination was
/// put on the default branch there is no further checkout, and nothing is
/// staged or committed. Where the log of the destination is a list of commit
/// records, four successes finish the merge.
pub proof fn lemma_merge_without_sources(config: ConfigView, outputs: Seq<Seq<char>>)
    requires
        config.repos.len() == 0,
    ensures
        MergerView::initial(config).performed(outputs).is_prefix_of(
            operations_without_sources(config),
        ),
        outputs.len() >= 4 && log_tree(outputs[2]) is Ok ==> MergerView::initial(
            config,
        ).performed(outputs) == operations_without_sources(config) && MergerView::initial(
            config,
        ).after(outputs) is Ok && MergerView::initial(config).after(outputs)->Ok_0.stage
            == Stage::Finished,
{
    let expected = operations_without_sources(config);
    let s0 = MergerView::initial(config);
    if outputs.len() >= 1 {
        let s1 = s0.at(Stage::CloneInto);
        let o1 = outputs.skip(1);
        assert(s0.advanced(outputs[0]) == Ok::<MergerView, MergeError>(s1));
        assert(s0.performed(outputs) == seq![expected[0]] + s1.performed(o1));
        assert(s0.after(outputs) == s1.after(o1));
        if o1.len() >= 1 {
            let s2 = s1.at(Stage::LogInto);
            let o2 = o1.skip(1);
            assert(s1.advanced(o1[0]) == Ok::<MergerView, MergeError>(s2));
            assert(s1.performed(o1) == seq![expected[1]] + s2.performed(o2));
            assert(s1.after(o1) == s2.after(o2));
            lemma_without_sources_log(s2, o2);
            let tail = s2.performed(o2);
            assert(tail.is_prefix_of(seq![expected[2], expected[3]]));
            assert(s0.performed(outputs) =~= seq![expected[0], expected[1]] + tail);
            assert(s0.performed(outputs).is_prefix_of(expected)) by {
                assert forall|i: int| 0 <= i < tail.len() implies tail[i] == seq![
                    expected[2],
                    expected[3],
                ][i] by {}
                assert(s0.performed(outputs) =~= expected.subrange(
                    0,
                    s0.performed(outputs).len() as int,
                ));
            }
            if outputs.len() >= 4 && log_tree(outputs[2]) is Ok {
                assert(o2[0] == outputs[2]);
                assert(s2.advanced(o2[0]) is Ok);
                assert(s0.performed(outputs) =~= expected);
            }
        } else {
            assert(s0.performed(outputs) =~= expected.take(1));
        }
    } else {
        assert(s0.performed(outputs) =~= expected.take(0));
    }
}

/// Only the step that begins the replay can end on a parent that does not
/// resolve, and it does so where any entry of the replay sequence does not
/// resolve: then no entry is turned to. Once an entry is replayed, no step
/// ends on an error.
pub proof fn lemma_unresolved_parent_aborts(state: MergerView, output: Seq<char>)
    requires
        state.wf(),
    ensures
        state.stage == Stage::InitialCheckout && first_unresolved(
            state.repos,
            replay_sequence(state.repos),
            0,
        ) < replay_sequence(state.repos).len() ==> state.advanced(output) == Err::<
            MergerView,
            MergeError,
        >(
            MergeError::UnresolvedParent {
                entry: first_unresolved(state.repos, replay_sequence(state.repos), 0) as usize,
            },
        ),
        state.stage != Stage::InitialCheckout ==> !(state.advanced(output) matches Err(
            MergeError::UnresolvedParent { .. },
        )),
        !state.preparing() ==> state.advanced(output) is Ok,
{
    if state.stage == Stage::Commit && state.cursor + 1 < state.history.len() {
        assert(entry_resolves(state.repos, state.history[state.cursor + 1]));
    }
}

/// Once the replay has begun, a merge that keeps its invariant does not end
/// on an error, whatever is reported.
pub proof fn lemma_replay_never_fails(state: MergerView, outputs: Seq<Seq<char>>)
    requires
        state.wf(),
        !state.preparing(),
    ensures
        state.after(outputs) is Ok,
        state.after(outputs)->Ok_0.wf(),
        !state.after(outputs)->Ok_0.preparing(),
    decreases outputs.len(),
{
    if outputs.len() > 0 {
        lemma_unresolved_parent_aborts(state, outputs[0]);
        lemma_advanced_keeps_wf(state, outputs[0]);
        lemma_replay_never_fails(state.advanced(outputs[0])->Ok_0, outputs.skip(1));
    }
}

/// While a merge prepares its repositories it waits for an operation, and
/// that operation makes no commit.
proof fn lemma_preparing_makes_no_commit(state: MergerView)
    requires
        state.preparing(),
    ensures
        state.pending() is Some,
        !is_commit(state.pending()->0),
{
    reveal_strlit("commit");
    reveal_strlit("clone");
    reveal_strlit("checkout");
    reveal_strlit("--no-pager");
    assert("commit"@.len() == 6);
    assert("clone"@.len() == 5);
    assert("checkout"@.len() == 8);
    assert("--no-pager"@.len() == 10);
    let operation = state.pending()->0;
    if operation is Run {
        let first = operation->command.args[0];
        assert(first == "clone"@ || first == "checkout"@ || first == "--no-pager"@);
    }
}

/// A merge that ends on a parent that does not resolve has made no commit in
/// the destination: among the operations carried out before the error there
/// is none that commits.
pub proof fn lemma_no_commit_before_unresolved_parent(state: MergerView, outputs: Seq<Seq<char>>)
    requires
        state.wf(),
        state.preparing(),
        state.after(outputs) matches Err(MergeError::UnresolvedParent { .. }),
    ensures
        forall|i: int|
            0 <= i < state.performed(outputs).len() ==> !is_commit(
                #[trigger] state.performed(outputs)[i],
            ),
    decreases outputs.len(),
{
    if outputs.len() > 0 {
        lemma_preparing_makes_no_commit(state);
        let operation = state.pending()->0;
        let rest = outputs.skip(1);
        match state.advanced(outputs[0]) {
            Ok(next) => {
                lemma_advanced_keeps_wf(state, outputs[0]);
                if next.preparing() {
                    lemma_no_commit_before_unresolved_parent(next, rest);
                    assert(state.performed(outputs) == seq![operation] + next.performed(rest));
                    assert forall|i: int| 0 <= i < state.performed(outputs).len() implies !is_commit(
                        #[trigger] state.performed(outputs)[i],
                    ) by {
                        if i > 0 {
                            assert(state.performed(outputs)[i] == next.performed(rest)[i - 1]);
                        }
                    }
                } else {
                    lemma_replay_never_fails(next, rest);
                }
            },
            Err(_) => {
                assert(state.performed(outputs) =~= seq![operation]);
            },
        }
    }
}

/// A merge that is begun keeps its invariant and is preparing, so that
/// [`lemma_no_commit_before_unresolved_parent`] holds of every merge from its
/// beginning.
pub proof fn lemma_initial_is_wf(config: ConfigView)
    ensures
        MergerView::initial(config).wf(),
        MergerView::initial(config).preparing(),
{
}

/// The replay of one entry. A merge that waits for the first operation of an
/// entry carries out the operations of [`entry_operations`], in their order,
/// whatever they print. Before the last of them, the commit, the destination
/// stands on the entry's own branch and the source on the entry's commit; with
/// the commit made the merge turns to the next entry.
pub proof fn lemma_entry_replay(state: MergerView, outputs: Seq<Seq<char>>)
    requires
        state.wf(),
        state.replaying(),
        state.at_entry_start(),
        outputs.len() == entry_operations(
            state.into_repo.name,
            state.into_repo.head,
            state.source().name,
            state.parent_branch,
            state.entry().1,
        ).len(),
    ensures
        state.performed(outputs) == entry_operations(
            state.into_repo.name,
            state.into_repo.head,
            state.source().name,
            state.parent_branch,
            state.entry().1,
        ),
        state.after(outputs.drop_last()) == Ok::<MergerView, MergeError>(
            state.with_head(state.entry().1.branch).with_source_head(
                state.entry().0 as int,
                state.entry().1.hash,
            ).at(Stage::Commit),
        ),
        state.after(outputs) == state.with_head(state.entry().1.branch).with_source_head(
            state.entry().0 as int,
            state.entry().1.hash,
        ).at(Stage::Commit).entered(state.cursor + 1),
{
    let own = state.entry().1.branch;
    let parent = state.parent_branch;
    let s1 = if state.stage == Stage::AlignParent {
        state.advanced(outputs[0])->Ok_0
    } else {
        state
    };
    let o1 = if state.stage == Stage::AlignParent {
        outputs.skip(1)
    } else {
        outputs
    };
    assert(s1.entry() == state.entry());
    assert(s1.source() == state.source());
    let s2 = if s1.stage == Stage::AlignOwn {
        s1.advanced(o1[0])->Ok_0
    } else {
        s1
    };
    let o2 = if s1.stage == Stage::AlignOwn {
        o1.skip(1)
    } else {
        o1
    };
    assert(s2.stage == Stage::AdvanceSource);
    assert(s2.into_repo.head == own);
    assert(o2.len() == 5);
    lemma_tail_replay(s2, o2);
    assert(s2 == state.with_head(own).at(Stage::AdvanceSource));
    assert(state.performed(outputs) == entry_operations(
        state.into_repo.name,
        state.into_repo.head,
        state.source().name,
        parent,
        state.entry().1,
    )) by {
        assert(s1.performed(o1) =~= (if s1.stage == Stage::AlignOwn {
            seq![checkout_operation(state.into_repo.name, own, true)]
        } else {
            Seq::empty()
        }) + s2.performed(o2));
        assert(state.performed(outputs) =~= (if state.stage == Stage::AlignParent {
            seq![checkout_operation(state.into_repo.name, parent, true)]
        } else {
            Seq::empty()
        }) + s1.performed(o1));
    }
    assert(o1.drop_last() =~= if state.stage == Stage::AlignParent {
        outputs.drop_last().skip(1)
    } else {
        outputs.drop_last()
    });
    assert(o2.drop_last() =~= if s1.stage == Stage::AlignOwn {
        o1.drop_last().skip(1)
    } else {
        o1.drop_last()
    });
    assert(s1.after(o1.drop_last()) == s2.after(o2.drop_last()));
    assert(state.after(outputs.drop_last()) == s1.after(o1.drop_last()));
    assert(s1.after(o1) == s2.after(o2));
    assert(state.after(outputs) == s1.after(o1));
}

/// The first of several operations: it is the one waited for, and the rest
/// is what the next state goes on to do.
proof fn lemma_first_output(state: MergerView, outputs: Seq<Seq<char>>)
    requires
        outputs.len() >= 1,
        state.pending() is Some,
        state.advanced(outputs[0]) is Ok,
    ensures
        state.performed(outputs) == seq![state.pending()->0] + state.advanced(
            outputs[0],
        )->Ok_0.performed(outputs.skip(1)),
        state.after(outputs) == state.advanced(outputs[0])->Ok_0.after(outputs.skip(1)),
{
}

/// A single operation: it is the one waited for.
proof fn lemma_single_output(state: MergerView, outputs: Seq<Seq<char>>)
    requires
        outputs.len() == 1,
        state.pending() is Some,
    ensures
        state.performed(outputs) == seq![state.pending()->0],
        state.after(outputs) == state.advanced(outputs[0]),
{
    let rest = outputs.skip(1);
    assert(rest.len() == 0);
    match state.advanced(outputs[0]) {
        Ok(next) => {
            assert(next.performed(rest) == Seq::<OperationView>::empty());
            assert(next.after(rest) == Ok::<MergerView, MergeError>(next));
            assert(state.performed(outputs) =~= seq![state.pending()->0]);
        },
        Err(_) => {
            assert(state.performed(outputs) =~= seq![state.pending()->0]);
        },
    }
}

/// The replay of an entry from the checkout in its source on.
proof fn lemma_tail_replay(state: MergerView, outputs: Seq<Seq<char>>)
    requires
        state.wf(),
        state.stage == Stage::AdvanceSource,
        outputs.len() == 5,
    ensures
        state.performed(outputs) == seq![
            checkout_operation(state.source().name, state.entry().1.hash, false),
            delete_operation(state.into_repo.name, state.source().name),
            copy_operation(state.into_repo.name, state.source().name),
            stage_operation(state.into_repo.name),
            commit_operation(state.into_repo.name, state.entry().1),
        ],
        state.after(outputs.drop_last()) == Ok::<MergerView, MergeError>(
            state.with_source_head(state.entry().0 as int, state.entry().1.hash).at(Stage::Commit),
        ),
        state.after(outputs) == state.with_source_head(
            state.entry().0 as int,
            state.entry().1.hash,
        ).at(Stage::Commit).entered(state.cursor + 1),
{
    let into = state.into_repo.name;
    let source = state.source().name;
    let s1 = state.advanced(outputs[0])->Ok_0;
    let s2 = s1.advanced(outputs[1])->Ok_0;
    let s3 = s2.advanced(outputs[2])->Ok_0;
    let s4 = s3.advanced(outputs[3])->Ok_0;
    let o1 = outputs.skip(1);
    let o2 = o1.skip(1);
    let o3 = o2.skip(1);
    let o4 = o3.skip(1);
    assert(o1[0] == outputs[1] && o2[0] == outputs[2] && o3[0] == outputs[3] && o4[0]
        == outputs[4]);
    assert(s1.entry() == state.entry());
    assert(s1.source().name == source);
    assert(s1 == state.with_source_head(state.entry().0 as int, state.entry().1.hash).at(
        Stage::DeleteDest,
    ));
    assert(s4 == s1.at(Stage::Commit));
    lemma_first_output(state, outputs);
    lemma_first_output(s1, o1);
    lemma_first_output(s2, o2);
    lemma_first_output(s3, o3);
    lemma_single_output(s4, o4);
    assert(state.performed(outputs) =~= seq![
        checkout_operation(source, state.entry().1.hash, false),
        delete_operation(into, source),
        copy_operation(into, source),
        stage_operation(into),
        commit_operation(into, state.entry().1),
    ]);
    let short = outputs.drop_last();
    let t1 = short.skip(1);
    let t2 = t1.skip(1);
    let t3 = t2.skip(1);
    assert(short[0] == outputs[0] && t1[0] == outputs[1] && t2[0] == outputs[2] && t3[0]
        == outputs[3]);
    lemma_first_output(state, short);
    lemma_first_output(s1, t1);
    lemma_first_output(s2, t2);
    lemma_single_output(s3, t3);
}

/// Whether two lists of repositories differ at most in what is checked out.
pub open spec fn same_tables(first: Seq<RepoView>, second: Seq<RepoView>) -> bool {
    &&& first.len() == second.len()
    &&& forall|i: int|
        0 <= i < first.len() ==> (#[trigger] first[i]).name == second[i].name && first[i].tree
            == second[i].tree
}

/// The operations that replay the entries of `history` from `position` on,
/// for a destination named `into` that stands on `head`: those of the first
/// entry, then those of the next with the destination on the branch of the
/// first, and so on, as far as the entries resolve.
pub open spec fn replay_operations(
    into: Seq<char>,
    head: Seq<char>,
    repos: Seq<RepoView>,
    history: Seq<(usize, CommitView)>,
    position: int,
) -> Seq<OperationView>
    decreases history.len() - position,
{
    if position < 0 || position >= history.len() {
        Seq::empty()
    } else {
        let (index, commit) = history[position];
        match parent_branch_of(commit, repos[index as int].tree) {
            None => Seq::empty(),
            Some(parent) => entry_operations(into, head, repos[index as int].name, parent, commit)
                + replay_operations(into, commit.branch, repos, history, position + 1),
        }
    }
}

/// What is checked out in the sources does not matter to the operations of a
/// replay.
proof fn lemma_replay_ignores_heads(
    into: Seq<char>,
    head: Seq<char>,
    first: Seq<RepoView>,
    second: Seq<RepoView>,
    history: Seq<(usize, CommitView)>,
    position: int,
)
    requires
        same_tables(first, second),
        forall|e: int| 0 <= e < history.len() ==> (#[trigger] history[e]).0 < first.len(),
    ensures
        replay_operations(into, head, first, history, position) == replay_operations(
            into,
            head,
            second,
            history,
            position,
        ),
    decreases history.len() - position,
{
    if 0 <= position < history.len() {
        let (index, commit) = history[position];
        assert(first[index as int].tree == second[index as int].tree);
        assert(first[index as int].name == second[index as int].name);
        lemma_replay_ignores_heads(into, commit.branch, first, second, history, position + 1);
    }
}

/// Operations carried out in two runs are those of the first run and then
/// those of the second, which begins where the first one ended.
pub proof fn lemma_run_in_two_parts(
    state: MergerView,
    first: Seq<Seq<char>>,
    second: Seq<Seq<char>>,
)
    ensures
        state.performed(first + second) == state.performed(first) + (match state.after(first) {
            Ok(next) => next.performed(second),
            Err(_) => Seq::empty(),
        }),
        state.after(first + second) == (match state.after(first) {
            Ok(next) => next.after(second),
            Err(error) => Err(error),
        }),
    decreases first.len(),
{
    let all = first + second;
    if first.len() == 0 {
        assert(all =~= second);
        assert(state.performed(first) + state.performed(second) =~= state.performed(second));
    } else {
        assert(all[0] == first[0]);
        assert(all.skip(1) =~= first.skip(1) + second);
        match state.pending() {
            None => {
                lemma_nothing_pending(state, first);
                lemma_nothing_pending(state, second);
                lemma_nothing_pending(state, all);
                assert(state.performed(first) + state.performed(second) =~= Seq::<
                    OperationView,
                >::empty());
            },
            Some(operation) => {
                match state.advanced(first[0]) {
                    Ok(next) => {
                        lemma_run_in_two_parts(next, first.skip(1), second);
                        let tail = match next.after(first.skip(1)) {
                            Ok(end) => end.performed(second),
                            Err(_) => Seq::empty(),
                        };
                        assert(state.performed(all) == seq![operation] + (next.performed(
                            first.skip(1),
                        ) + tail));
                        assert(seq![operation] + (next.performed(first.skip(1)) + tail) =~= (
                        seq![operation] + next.performed(first.skip(1))) + tail);
                    },
                    Err(_) => {
                        assert(state.performed(first) + Seq::<OperationView>::empty()
                            =~= state.performed(first));
                    },
                }
            },
        }
    }
}

/// The replay from an entry on. A merge that waits for the first operation of
/// an entry carries out the operations of [`replay_operations`], in their
/// order, whatever they print, and has then finished.
pub proof fn lemma_replay(state: MergerView, outputs: Seq<Seq<char>>)
    requires
        state.wf(),
        state.replaying(),
        state.at_entry_start(),
        outputs.len() == replay_operations(
            state.into_repo.name,
            state.into_repo.head,
            state.repos,
            state.history,
            state.cursor,
        ).len(),
    ensures
        state.performed(outputs) == replay_operations(
            state.into_repo.name,
            state.into_repo.head,
            state.repos,
            state.history,
            state.cursor,
        ),
        state.after(outputs) is Ok,
        state.after(outputs)->Ok_0.stage == Stage::Finished,
    decreases state.history.len() - state.cursor,
{
    let into = state.into_repo.name;
    let (index, commit) = state.entry();
    let source = state.source();
    let parent = state.parent_branch;
    let position = state.cursor;
    let entry = entry_operations(into, state.into_repo.head, source.name, parent, commit);
    let rest = replay_operations(into, commit.branch, state.repos, state.history, position + 1);
    assert(replay_operations(into, state.into_repo.head, state.repos, state.history, position)
        == entry + rest);
    let first = outputs.take(entry.len() as int);
    let second = outputs.skip(entry.len() as int);
    assert(outputs =~= first + second);
    lemma_entry_replay(state, first);
    lemma_run_in_two_parts(state, first, second);
    let committed = state.with_head(commit.branch).with_source_head(index as int, commit.hash).at(
        Stage::Commit,
    );
    assert(entry_resolves(state.repos, state.history[position]));
    assert(same_tables(state.repos, committed.repos));
    assert forall|e: int| 0 <= e < state.history.len() implies (#[trigger] state.history[e]).0
        < state.repos.len() by {
        assert(entry_resolves(state.repos, state.history[e]));
    }
    lemma_replay_ignores_heads(
        into,
        commit.branch,
        state.repos,
        committed.repos,
        state.history,
        position + 1,
    );
    assert(committed.wf()) by {
        assert(committed.history == state.history);
        assert forall|e: int| 0 <= e < committed.history.len() implies entry_resolves(
            committed.repos,
            #[trigger] committed.history[e],
        ) by {
            assert(entry_resolves(state.repos, state.history[e]));
        }
    }
    lemma_unresolved_parent_aborts(committed, Seq::empty());
    lemma_advanced_keeps_wf(committed, Seq::empty());
    let next = committed.entered(position + 1)->Ok_0;
    assert(committed.advanced(Seq::empty()) == Ok::<MergerView, MergeError>(next));
    if position + 1 < state.history.len() {
        assert(next.replaying());
        assert(next.at_entry_start());
        assert(next.repos == committed.repos);
        assert(next.into_repo.head == commit.branch);
        lemma_replay(next, second);
        assert(state.performed(outputs) =~= entry + rest);
    } else {
        assert(rest.len() == 0);
        assert(second.len() == 0);
        assert(state.performed(outputs) =~= entry + rest);
    }
}

/// The operations of a replay, from the checkout of the default branch on.
pub open spec fn merge_operations(into: Seq<char>, repos: Seq<RepoView>) -> Seq<OperationView> {
    seq![checkout_operation(into, default_branch(), true)] + replay_operations(
        into,
        default_branch(),
        repos,
        replay_sequence(repos),
        0,
    )
}

/// The whole replay. Once the repositories are prepared, the merge puts the
/// destination on the default branch. Where an entry of the replay sequence
/// does not resolve, that checkout is its last operation and the merge ends on
/// the first such entry. Else it replays the entries in their order, each with
/// the operations of [`entry_operations`], and finishes.
pub proof fn lemma_merge_replays_in_order(state: MergerView, outputs: Seq<Seq<char>>)
    requires
        state.wf(),
        state.stage == Stage::InitialCheckout,
        outputs.len() >= 1,
    ensures
        first_unresolved(state.repos, replay_sequence(state.repos), 0) < replay_sequence(
            state.repos,
        ).len() ==> state.performed(outputs) == seq![
            checkout_operation(state.into_repo.name, default_branch(), true),
        ] && state.after(outputs) == Err::<MergerView, MergeError>(
            MergeError::UnresolvedParent {
                entry: first_unresolved(state.repos, replay_sequence(state.repos), 0) as usize,
            },
        ),
        first_unresolved(state.repos, replay_sequence(state.repos), 0) >= replay_sequence(
            state.repos,
        ).len() && outputs.len() == merge_operations(state.into_repo.name, state.repos).len()
            ==> state.performed(outputs) == merge_operations(state.into_repo.name, state.repos)
            && state.after(outputs) is Ok && state.after(outputs)->Ok_0.stage == Stage::Finished,
{
    let into = state.into_repo.name;
    let history = replay_sequence(state.repos);
    let checkout = checkout_operation(into, default_branch(), true);
    let rest = outputs.skip(1);
    match state.advanced(outputs[0]) {
        Ok(next) => {
            lemma_advanced_keeps_wf(state, outputs[0]);
            lemma_first_output(state, outputs);
            if outputs.len() == merge_operations(into, state.repos).len() {
                if history.len() > 0 {
                    assert(next.replaying());
                    assert(next.at_entry_start());
                    lemma_replay(next, rest);
                } else {
                    assert(next.stage == Stage::Finished);
                    lemma_nothing_pending(next, rest);
                    assert(state.performed(outputs) =~= merge_operations(into, state.repos));
                }
            }
        },
        Err(_) => {
            assert(state.performed(outputs) =~= seq![checkout]);
        },
    }
}

/// The operations that replay an entry touch no directory but that of the
/// entry's own source: what is emptied is the directory that the source owns
/// in the destination, and what is copied comes from the working copy of that
/// source and goes to that directory.
pub proof fn lemma_entry_touches_own_directory(
    into: Seq<char>,
    head: Seq<char>,
    source: Seq<char>,
    parent: Seq<char>,
    commit: CommitView,
    i: int,
)
    requires
        0 <= i < entry_operations(into, head, source, parent, commit).len(),
    ensures
        entry_operations(into, head, source, parent, commit)[i] matches OperationView::DeleteContents {
            path,
            ..
        } ==> path == repo_dest_path(into, source),
        entry_operations(into, head, source, parent, commit)[i] matches OperationView::CopyContents {
            from,
            to,
            ..
        } ==> from == repo_path(source) && to == repo_dest_path(into, source),
{
}

} // verus!
