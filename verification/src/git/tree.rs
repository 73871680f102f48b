//! Reading a repository's log into a commit table.

use crate::git::run_command::{run_command, str_views, Command, CommandView};
use crate::git::types::{
    commit_times, commit_views, has_hash, lookup_matches, sorted_by_time, CommitView, GitCommit,
    GitTree, TreeView,
};
use crate::order::{
    arranged, lemma_stable_order_exists, precedes, stable_order, stable_order_of,
};
use crate::text::{
    chars_of, decimal_value, lines, lines_of, parse_i64, split, split_on, string_from, string_of,
    token_views,
};
use vstd::hash_map::StringHashMap;
use vstd::prelude::*;

verus! {

/// What is wrong with a line of a log.
#[derive(Debug, Clone, Copy, PartialEq, Eq, Structural)]
pub enum ParseErrorKind {
    /// The line has fewer fields than a commit record.
    MissingField,
    /// The timestamp is not a decimal number of 64 bits.
    InvalidTimestamp,
    /// The timestamp is a number, but no date and time that can be
    /// represented.
    TimestampOutOfRange,
}

/// The first line of a log that is no commit record, counted from zero, and
/// what is wrong with it.
#[derive(Debug, Clone, Copy, PartialEq, Eq, Structural)]
pub struct ParseError {
    pub line: usize,
    pub kind: ParseErrorKind,
}

/// Whether `text` begins with `prefix`.
pub open spec fn has_prefix(text: Seq<char>, prefix: Seq<char>) -> bool {
    prefix.len() <= text.len() && text.take(prefix.len() as int) == prefix
}

/// `text` without `prefix` at its start, where it has it.
pub open spec fn strip_prefix(text: Seq<char>, prefix: Seq<char>) -> Seq<char> {
    if has_prefix(text, prefix) {
        text.skip(prefix.len() as int)
    } else {
        text
    }
}

/// `text` without the first reference namespace that it begins with, looked
/// for in this order: branch heads, tags, remotes.
pub open spec fn strip_namespace(text: Seq<char>) -> Seq<char> {
    if has_prefix(text, "refs/heads/"@) {
        text.skip("refs/heads/"@.len() as int)
    } else if has_prefix(text, "refs/tags/"@) {
        text.skip("refs/tags/"@.len() as int)
    } else if has_prefix(text, "refs/remotes/"@) {
        text.skip("refs/remotes/"@.len() as int)
    } else {
        text
    }
}

/// The logical branch that a reference token of the log names: the token
/// without the quote that opens the line, without its reference namespace,
/// and then without the name of the default remote.
pub open spec fn normalized_branch(token: Seq<char>) -> Seq<char> {
    strip_prefix(strip_namespace(strip_prefix(token, "\""@)), "origin/"@)
}

/// `text` without any occurrence of `c`.
pub open spec fn remove_all(text: Seq<char>, c: char) -> Seq<char>
    decreases text.len(),
{
    if text.len() == 0 {
        text
    } else if text.last() == c {
        remove_all(text.drop_last(), c)
    } else {
        remove_all(text.drop_last(), c).push(text.last())
    }
}

/// The parent that stands for all parents of a commit: the last one listed,
/// and none where none is listed.
pub open spec fn representative_parent(token: Seq<char>) -> Option<Seq<char>> {
    if token.len() == 0 {
        None
    } else {
        Some(split_on(token, ' ').last())
    }
}

/// How many fields a commit record has.
pub const RECORD_FIELDS: usize = 9;

/// The commit that a line of the log records. The fields are separated by
/// `;` and stand in this order: reference, hash, parents, author name,
/// author email, timestamp, committer name, committer email, subject. What
/// follows the ninth field is not part of the record.
pub open spec fn parsed_line(line: Seq<char>) -> Result<CommitView, ParseErrorKind> {
    let fields = split_on(line, ';');
    if fields.len() < RECORD_FIELDS {
        Err(ParseErrorKind::MissingField)
    } else {
        match decimal_value(fields[5]) {
            None => Err(ParseErrorKind::InvalidTimestamp),
            Some(time) => Ok(
                CommitView {
                    branch: normalized_branch(fields[0]),
                    hash: fields[1],
                    parent_hash: representative_parent(fields[2]),
                    author_name: fields[3],
                    author_email: fields[4],
                    time,
                    committer_name: fields[6],
                    committer_email: fields[7],
                    commit_message: remove_all(fields[8], '"'),
                },
            ),
        }
    }
}

/// Whether `chrono` can represent the instant `seconds` after 1970-01-01
/// 00:00:00 UTC as a date and time.
pub uninterp spec fn representable_timestamp(seconds: i64) -> bool;

/// `chrono::DateTime::from_timestamp` with no nanoseconds: whether the
/// number of seconds is in the range of dates that the crate represents.
#[verifier::external_body]
fn timestamp_is_representable(seconds: i64) -> (ok: bool)
    ensures
        ok == representable_timestamp(seconds),
{
    chrono::DateTime::from_timestamp(seconds, 0).is_some()
}

/// The commit that a line of the log records, where its timestamp is also a
/// date and time that can be represented.
pub open spec fn admitted_line(line: Seq<char>) -> Result<CommitView, ParseErrorKind> {
    match parsed_line(line) {
        Ok(commit) => if representable_timestamp(commit.time) {
            Ok(commit)
        } else {
            Err(ParseErrorKind::TimestampOutOfRange)
        },
        Err(kind) => Err(kind),
    }
}

/// Whether every line is a commit record.
pub open spec fn all_admitted(lines: Seq<Seq<char>>) -> bool {
    forall|i: int| 0 <= i < lines.len() ==> admitted_line(#[trigger] lines[i]) is Ok
}

/// The commits that the lines record, in the order of the lines.
pub open spec fn admitted_commits(lines: Seq<Seq<char>>) -> Seq<CommitView> {
    Seq::new(lines.len(), |i: int| admitted_line(lines[i])->Ok_0)
}

/// The commits in ascending order of time; commits of the same time keep
/// the order in which they stand.
pub open spec fn in_time_order(commits: Seq<CommitView>) -> Seq<CommitView> {
    arranged(commits, stable_order_of(commit_times(commits)))
}

/// The lookup of a list of commits.
pub open spec fn lookup_of(commits: Seq<CommitView>) -> Map<Seq<char>, usize> {
    choose|lookup: Map<Seq<char>, usize>| lookup_matches(commits, lookup)
}

/// Whether `tree` is the commit table of the log `log`: every line is a
/// commit record, and the table holds the commits in time order, with the
/// lookup that belongs to them.
pub open spec fn is_tree_of(log: Seq<char>, tree: TreeView) -> bool {
    &&& all_admitted(lines_of(log))
    &&& tree.commits == in_time_order(admitted_commits(lines_of(log)))
    &&& tree.wf()
}

/// Whether `error` names the first line of `log` that is no commit record,
/// and what is wrong with it.
pub open spec fn is_error_of(log: Seq<char>, error: ParseError) -> bool {
    &&& error.line < lines_of(log).len()
    &&& all_admitted(lines_of(log).take(error.line as int))
    &&& admitted_line(lines_of(log)[error.line as int]) == Err::<CommitView, ParseErrorKind>(
        error.kind,
    )
}

/// What reading the log `log` gives: its commit table, or its first error.
pub open spec fn log_tree(log: Seq<char>) -> Result<TreeView, ParseError> {
    if all_admitted(lines_of(log)) {
        let commits = in_time_order(admitted_commits(lines_of(log)));
        Ok(TreeView { commits, lookup: lookup_of(commits) })
    } else {
        Err(choose|error: ParseError| is_error_of(log, error))
    }
}

/// Commits have one lookup only.
pub proof fn lemma_lookup_unique(
    commits: Seq<CommitView>,
    first: Map<Seq<char>, usize>,
    second: Map<Seq<char>, usize>,
)
    requires
        lookup_matches(commits, first),
        lookup_matches(commits, second),
    ensures
        first == second,
{
    assert forall|hash: Seq<char>| first.contains_key(hash) implies first[hash]
        == second[hash] by {
        assert(second.contains_key(hash));
        let a = first[hash] as int;
        let b = second[hash] as int;
        if a < b {
            assert(commits[b].hash == hash);
        } else if b < a {
            assert(commits[a].hash == hash);
        }
    }
    assert(first.dom() =~= second.dom());
    assert(first =~= second);
}

/// A log has one commit table or one first error, and not both.
pub proof fn lemma_log_tree(log: Seq<char>)
    ensures
        forall|tree: TreeView| is_tree_of(log, tree) ==> log_tree(log) == Ok::<
            TreeView,
            ParseError,
        >(tree),
        forall|error: ParseError| is_error_of(log, error) ==> log_tree(log) == Err::<
            TreeView,
            ParseError,
        >(error),
{
    let lines = lines_of(log);
    assert forall|tree: TreeView| is_tree_of(log, tree) implies log_tree(log) == Ok::<
        TreeView,
        ParseError,
    >(tree) by {
        lemma_lookup_unique(tree.commits, tree.lookup, lookup_of(tree.commits));
    }
    assert forall|error: ParseError| is_error_of(log, error) implies log_tree(log) == Err::<
        TreeView,
        ParseError,
    >(error) by {
        assert(admitted_line(lines[error.line as int]) is Err);
        let chosen = choose|chosen: ParseError| is_error_of(log, chosen);
        if chosen.line < error.line {
            assert(lines.take(error.line as int)[chosen.line as int] == lines[chosen.line as int]);
        } else if error.line < chosen.line {
            assert(lines.take(chosen.line as int)[error.line as int] == lines[error.line as int]);
        }
    }
}

/// The invocation that prints the log of the repository at `repo_path`: one
/// line for each commit of any reference, the whole line in quotes, with the
/// fields of a commit record in their order.
pub open spec fn log_invocation(repo_path: Seq<char>) -> CommandView {
    CommandView {
        program: "git"@,
        work_dir: repo_path,
        args: seq![
            "--no-pager"@,
            "log"@,
            "--all"@,
            "--format=\"%S;%H;%P;%an;%ae;%at;%cn;%ce;%s\""@,
        ],
        envs: Seq::empty(),
    }
}

/// Where `text` goes on after `prefix`, if `prefix` stands at `from`.
fn skip_prefix(text: &Vec<char>, from: usize, prefix: &str) -> (next: Option<usize>)
    requires
        from <= text.len(),
    ensures
        next is Some <==> has_prefix(text@.skip(from as int), prefix@),
        next matches Some(n) ==> n == from + prefix@.len(),
{
    let wanted = chars_of(prefix);
    if wanted.len() > text.len() - from {
        return None;
    }
    let mut i: usize = 0;
    while i < wanted.len()
        invariant
            i <= wanted.len(),
            from + wanted.len() <= text.len(),
            wanted@ == prefix@,
            forall|k: int| 0 <= k < i ==> text[from + k] == wanted[k],
        decreases wanted.len() - i,
    {
        if text[from + i] != wanted[i] {
            assert(text@.skip(from as int).take(wanted.len() as int)[i as int] != wanted[i as int]);
            return None;
        }
        i += 1;
    }
    assert(text@.skip(from as int).take(wanted.len() as int) =~= wanted@);
    Some(from + wanted.len())
}

/// The logical branch that a reference token names.
pub fn normalize_branch(token: &Vec<char>) -> (branch: String)
    ensures
        branch@ == normalized_branch(token@),
{
    let mut from: usize = 0;
    assert(token@.skip(0) == token@);
    if let Some(next) = skip_prefix(token, from, "\"") {
        from = next;
    }
    let ghost unquoted = token@.skip(from as int);
    assert(unquoted == strip_prefix(token@, "\""@));
    let start = from;
    if let Some(next) = skip_prefix(token, start, "refs/heads/") {
        from = next;
    } else if let Some(next) = skip_prefix(token, start, "refs/tags/") {
        from = next;
    } else if let Some(next) = skip_prefix(token, start, "refs/remotes/") {
        from = next;
    }
    let ghost local = token@.skip(from as int);
    assert(local == strip_namespace(unquoted)) by {
        assert(token@.skip(start as int).skip(from - start) == token@.skip(from as int));
    }
    let inner = from;
    if let Some(next) = skip_prefix(token, inner, "origin/") {
        from = next;
    }
    assert(token@.skip(from as int) == strip_prefix(local, "origin/"@)) by {
        assert(token@.skip(inner as int).skip(from - inner) == token@.skip(from as int));
    }
    string_from(token, from)
}

/// The text without its quote characters.
pub fn without_quotes(text: &Vec<char>) -> (result: String)
    ensures
        result@ == remove_all(text@, '"'),
{
    let mut result = String::new();
    let mut i: usize = 0;
    while i < text.len()
        invariant
            i <= text.len(),
            result@ == remove_all(text@.take(i as int), '"'),
        decreases text.len() - i,
    {
        assert(text@.take(i + 1).drop_last() == text@.take(i as int));
        if text[i] != '"' {
            result.push(text[i]);
        }
        i += 1;
    }
    assert(text@.take(text.len() as int) == text@);
    result
}

/// The parent that stands for all parents listed in `token`.
pub fn parse_parent(token: &Vec<char>) -> (parent: Option<String>)
    ensures
        match parent {
            Some(hash) => representative_parent(token@) == Some(hash@),
            None => representative_parent(token@) is None,
        },
{
    if token.len() == 0 {
        None
    } else {
        let listed = split(token, ' ');
        proof {
            crate::text::lemma_split_on(token@, ' ');
        }
        let last = listed.len() - 1;
        Some(string_of(&listed[last]))
    }
}

/// Reads one line of the log as a commit.
pub fn parse_line(line: &Vec<char>) -> (result: Result<GitCommit, ParseErrorKind>)
    ensures
        match result {
            Ok(commit) => parsed_line(line@) == Ok::<CommitView, ParseErrorKind>(commit@),
            Err(kind) => parsed_line(line@) == Err::<CommitView, ParseErrorKind>(kind),
        },
{
    let fields = split(line, ';');
    if fields.len() < RECORD_FIELDS {
        return Err(ParseErrorKind::MissingField);
    }
    assert(forall|i: int| 0 <= i < fields.len() ==> token_views(fields@)[i] == fields[i]@);
    let time = match parse_i64(&fields[5]) {
        Some(time) => time,
        None => { return Err(ParseErrorKind::InvalidTimestamp); },
    };
    Ok(
        GitCommit {
            branch: normalize_branch(&fields[0]),
            hash: string_of(&fields[1]),
            parent_hash: parse_parent(&fields[2]),
            author_name: string_of(&fields[3]),
            author_email: string_of(&fields[4]),
            time,
            committer_name: string_of(&fields[6]),
            committer_email: string_of(&fields[7]),
            commit_message: without_quotes(&fields[8]),
        },
    )
}

/// Lets a commit pass whose timestamp is known to be representable, and
/// refuses one whose timestamp is known not to be.
pub fn admit_commit(commit: GitCommit, representable: bool) -> (result: Result<
    GitCommit,
    ParseErrorKind,
>)
    ensures
        match result {
            Ok(admitted) => representable && admitted == commit,
            Err(kind) => !representable && kind == ParseErrorKind::TimestampOutOfRange,
        },
{
    if representable {
        Ok(commit)
    } else {
        Err(ParseErrorKind::TimestampOutOfRange)
    }
}

/// Adding the commit at position `i` to a lookup of the commits before it
/// gives a lookup of the commits up to and with it.
proof fn lemma_lookup_insert(commits: Seq<CommitView>, lookup: Map<Seq<char>, usize>, i: usize)
    requires
        i < commits.len(),
        lookup_matches(commits.take(i as int), lookup),
    ensures
        lookup_matches(commits.take(i + 1), lookup.insert(commits[i as int].hash, i)),
{
    let before = commits.take(i as int);
    let after = commits.take(i + 1);
    let added = commits[i as int].hash;
    let grown = lookup.insert(added, i);
    assert(after[i as int].hash == added);
    assert forall|hash: Seq<char>| #[trigger] grown.contains_key(hash) <==> has_hash(
        after,
        hash,
    ) by {
        if hash != added {
            if has_hash(before, hash) {
                let k = choose|k: int| 0 <= k < before.len() && (#[trigger] before[k]).hash == hash;
                assert(after[k].hash == hash);
            }
            if has_hash(after, hash) {
                let k = choose|k: int| 0 <= k < after.len() && (#[trigger] after[k]).hash == hash;
                assert(before[k].hash == hash);
            }
        }
    }
    assert forall|hash: Seq<char>| #[trigger] grown.contains_key(hash) implies {
        &&& grown[hash] < after.len()
        &&& after[grown[hash] as int].hash == hash
        &&& forall|j: int| grown[hash] < j < after.len() ==> (#[trigger] after[j]).hash != hash
    } by {
        if hash != added {
            assert(lookup.contains_key(hash));
            let found = lookup[hash] as int;
            assert(after[found] == before[found]);
            assert forall|j: int| found < j < after.len() implies (#[trigger] after[j]).hash
                != hash by {
                if j < i {
                    assert(before[j].hash != hash);
                }
            }
        }
    }
}

/// Puts commits in time order and builds the lookup of their hashes.
pub fn build_tree(commits: Vec<GitCommit>) -> (tree: GitTree)
    ensures
        tree@.commits == in_time_order(commit_views(commits@)),
        tree@.wf(),
{
    let ghost given = commit_views(commits@);
    let mut times: Vec<i64> = Vec::new();
    let mut i: usize = 0;
    while i < commits.len()
        invariant
            i <= commits.len(),
            times.len() == i,
            forall|k: int| 0 <= k < i ==> #[trigger] times[k] == commits[k].time,
        decreases commits.len() - i,
    {
        times.push(commits[i].time);
        i += 1;
    }
    assert(times@ =~= commit_times(given));
    let order = stable_order(&times);
    let mut sorted: Vec<GitCommit> = Vec::new();
    let mut j: usize = 0;
    while j < order.len()
        invariant
            j <= order.len(),
            order.len() == commits.len(),
            sorted.len() == j,
            forall|k: int| 0 <= k < order.len() ==> (#[trigger] order[k]) < commits.len(),
            forall|k: int| 0 <= k < j ==> (#[trigger] sorted[k])@ == commits[order[k] as int]@,
        decreases order.len() - j,
    {
        sorted.push(commits[order[j]].clone());
        j += 1;
    }
    let ghost ordered = commit_views(sorted@);
    assert(ordered =~= arranged(given, order@));
    assert(sorted_by_time(ordered)) by {
        assert forall|a: int, b: int| 0 <= a <= b < ordered.len() implies ordered[a].time
            <= ordered[b].time by {
            if a < b {
                assert(precedes(times@, order[a] as int, order[b] as int));
            }
        }
    }
    let mut lookup: StringHashMap<usize> = StringHashMap::new();
    let mut n: usize = 0;
    assert(lookup_matches(ordered.take(0), lookup@)) by {
        assert forall|hash: Seq<char>| !has_hash(ordered.take(0), hash) by {}
    }
    while n < sorted.len()
        invariant
            n <= sorted.len(),
            ordered == commit_views(sorted@),
            lookup_matches(ordered.take(n as int), lookup@),
        decreases sorted.len() - n,
    {
        proof {
            lemma_lookup_insert(ordered, lookup@, n);
        }
        lookup.insert(sorted[n].hash.clone(), n);
        n += 1;
    }
    assert(ordered.take(sorted.len() as int) == ordered);
    GitTree { commits: sorted, lookup }
}

/// Reads one line of the log as a commit whose timestamp is a date and time
/// that can be represented.
pub fn admit_line(line: &Vec<char>) -> (result: Result<GitCommit, ParseErrorKind>)
    ensures
        match result {
            Ok(commit) => admitted_line(line@) == Ok::<CommitView, ParseErrorKind>(commit@),
            Err(kind) => admitted_line(line@) == Err::<CommitView, ParseErrorKind>(kind),
        },
{
    match parse_line(line) {
        Ok(commit) => {
            let representable = timestamp_is_representable(commit.time);
            admit_commit(commit, representable)
        },
        Err(kind) => Err(kind),
    }
}

/// A line that is no commit record, after lines that all are, is the error
/// of the log.
proof fn lemma_first_error(log: Seq<char>, line: usize, kind: ParseErrorKind)
    requires
        line < lines_of(log).len(),
        forall|k: int| 0 <= k < line ==> admitted_line(#[trigger] lines_of(log)[k]) is Ok,
        admitted_line(lines_of(log)[line as int]) == Err::<CommitView, ParseErrorKind>(kind),
    ensures
        is_error_of(log, ParseError { line, kind }),
        log_tree(log) == Err::<TreeView, ParseError>(ParseError { line, kind }),
{
    let all = lines_of(log);
    assert forall|k: int| 0 <= k < line implies admitted_line(
        #[trigger] all.take(line as int)[k],
    ) is Ok by {
        assert(admitted_line(all[k]) is Ok);
    }
    assert(is_error_of(log, ParseError { line, kind }));
    lemma_log_tree(log);
}

/// Builds a repository's commit table from the text of its log, one commit
/// record on each line. The first line that is no commit record makes the
/// whole log an error.
pub fn build_tree_for_repo(log: &str) -> (result: Result<GitTree, ParseError>)
    ensures
        match result {
            Ok(tree) => is_tree_of(log@, tree@) && log_tree(log@) == Ok::<TreeView, ParseError>(
                tree@,
            ),
            Err(error) => is_error_of(log@, error) && log_tree(log@) == Err::<
                TreeView,
                ParseError,
            >(error),
        },
{
    let text = chars_of(log);
    let records = lines(&text);
    let ghost all = lines_of(log@);
    assert(forall|i: int| 0 <= i < records.len() ==> token_views(records@)[i] == records[i]@);
    let mut commits: Vec<GitCommit> = Vec::new();
    let mut i: usize = 0;
    while i < records.len()
        invariant
            i <= records.len(),
            all == lines_of(log@),
            all.len() == records.len(),
            forall|k: int| 0 <= k < records.len() ==> all[k] == (#[trigger] records[k])@,
            commits.len() == i,
            forall|k: int|
                0 <= k < i ==> admitted_line(#[trigger] all[k]) == Ok::<CommitView, ParseErrorKind>(
                    commits[k]@,
                ),
        decreases records.len() - i,
    {
        match admit_line(&records[i]) {
            Ok(commit) => {
                commits.push(commit);
            },
            Err(kind) => {
                proof {
                    assert(all[i as int] == records[i as int]@);
                    lemma_first_error(log@, i, kind);
                }
                return Err(ParseError { line: i, kind });
            },
        }
        i += 1;
    }
    assert(commit_views(commits@) =~= admitted_commits(all));
    let tree = build_tree(commits);
    proof {
        assert(all_admitted(all));
        assert(is_tree_of(log@, tree@));
        lemma_log_tree(log@);
    }
    Ok(tree)
}

/// Commits that a machine can hold have a lookup.
proof fn lemma_lookup_exists(commits: Seq<CommitView>, upto: int)
    requires
        0 <= upto <= commits.len() <= usize::MAX,
    ensures
        lookup_matches(commits.take(upto), lookup_of(commits.take(upto))),
    decreases upto,
{
    let taken = commits.take(upto);
    if upto == 0 {
        assert forall|hash: Seq<char>| !has_hash(taken, hash) by {}
        assert(lookup_matches(taken, Map::<Seq<char>, usize>::empty()));
    } else {
        let shorter = upto - 1;
        lemma_lookup_exists(commits, shorter);
        let before = lookup_of(commits.take(shorter));
        lemma_lookup_insert(commits, before, shorter as usize);
        assert(lookup_matches(taken, before.insert(commits[shorter].hash, shorter as usize)));
    }
}

/// The commit table of a log that a machine can hold is well formed: where
/// every line is a commit record, the commits stand in time order, one for
/// each line, and the lookup finds them.
pub proof fn lemma_log_tree_wf(log: Seq<char>)
    requires
        lines_of(log).len() <= usize::MAX,
    ensures
        log_tree(log) matches Ok(tree) ==> tree.wf() && is_tree_of(log, tree) && tree.commits.len()
            == lines_of(log).len(),
{
    if all_admitted(lines_of(log)) {
        let given = admitted_commits(lines_of(log));
        let times = commit_times(given);
        lemma_stable_order_exists(times);
        let order = stable_order_of(times);
        let commits = in_time_order(given);
        assert(sorted_by_time(commits)) by {
            assert forall|a: int, b: int| 0 <= a <= b < commits.len() implies commits[a].time
                <= commits[b].time by {
                if a < b {
                    assert(precedes(times, order[a] as int, order[b] as int));
                }
            }
        }
        lemma_lookup_exists(commits, commits.len() as int);
        assert(commits.take(commits.len() as int) == commits);
    }
}

/// The invocation that prints the log of the repository at `repo_path`.
pub fn log_command(repo_path: &str) -> (command: Command)
    ensures
        command@ == log_invocation(repo_path@),
{
    let mut args: Vec<&str> = Vec::new();
    args.push("--no-pager");
    args.push("log");
    args.push("--all");
    args.push("--format=\"%S;%H;%P;%an;%ae;%at;%cn;%ce;%s\"");
    assert(str_views(args@) =~= seq![
        "--no-pager"@,
        "log"@,
        "--all"@,
        "--format=\"%S;%H;%P;%an;%ae;%at;%cn;%ce;%s\""@,
    ]);
    run_command("git", repo_path, &args)
}

} // verus!
