//! Invocations of an external program, and the reading of what one printed.
//!
//! Nothing here starts a process. An invocation is described as a value that
//! the caller carries out; what the process printed comes back as bytes.

use crate::text::string_views;
use vstd::prelude::*;
use vstd::utf8::*;

verus! {

/// One invocation of a program: its name, the directory it runs in, its
/// arguments and the environment variables set for it.
#[derive(Debug, PartialEq, Eq)]
pub struct Command {
    pub program: String,
    pub work_dir: String,
    pub args: Vec<String>,
    pub envs: Vec<(String, String)>,
}

/// What an invocation holds, as mathematical values.
pub struct CommandView {
    pub program: Seq<char>,
    pub work_dir: Seq<char>,
    pub args: Seq<Seq<char>>,
    pub envs: Seq<(Seq<char>, Seq<char>)>,
}

/// The characters of each name and value of a list of variables.
pub open spec fn env_views(envs: Seq<(String, String)>) -> Seq<(Seq<char>, Seq<char>)> {
    Seq::new(envs.len(), |i: int| (envs[i].0@, envs[i].1@))
}

/// The characters of each string slice of a list.
pub open spec fn str_views(items: Seq<&str>) -> Seq<Seq<char>> {
    Seq::new(items.len(), |i: int| items[i]@)
}

/// The characters of each name and value of a list of borrowed variables.
pub open spec fn str_pair_views(items: Seq<(&str, &str)>) -> Seq<(Seq<char>, Seq<char>)> {
    Seq::new(items.len(), |i: int| (items[i].0@, items[i].1@))
}

impl View for Command {
    type V = CommandView;

    open spec fn view(&self) -> CommandView {
        CommandView {
            program: self.program@,
            work_dir: self.work_dir@,
            args: string_views(self.args@),
            envs: env_views(self.envs@),
        }
    }
}

/// Why the output of an invocation could not be used.
#[derive(Debug, PartialEq, Eq)]
pub enum CommandError {
    /// The process printed bytes that are not UTF-8 text.
    NotText,
    /// The process ended in failure; `report` is what it printed on the
    /// error stream, a space, and what it printed on the output stream.
    Failed { report: String },
}

/// `String::from_utf8` of the standard library: the bytes as text where they
/// are valid UTF-8, and nothing where they are not.
#[verifier::external_body]
fn text_of_bytes(bytes: Vec<u8>) -> (text: Option<String>)
    ensures
        text is Some <==> valid_utf8(bytes@),
        text matches Some(t) ==> t@ == decode_utf8(bytes@),
{
    String::from_utf8(bytes).ok()
}

/// Describes the invocation of `name` in `work_dir` with `args` and with the
/// environment variables `envs`.
pub fn run_command_with_envs(
    name: &str,
    work_dir: &str,
    args: &Vec<&str>,
    envs: &Vec<(&str, &str)>,
) -> (command: Command)
    ensures
        command@ == (CommandView {
            program: name@,
            work_dir: work_dir@,
            args: str_views(args@),
            envs: str_pair_views(envs@),
        }),
{
    let mut owned_args: Vec<String> = Vec::new();
    let mut i: usize = 0;
    while i < args.len()
        invariant
            i <= args.len(),
            owned_args.len() == i,
            forall|k: int| 0 <= k < i ==> (#[trigger] owned_args[k])@ == args[k]@,
        decreases args.len() - i,
    {
        owned_args.push(String::from_str(args[i]));
        i += 1;
    }
    let mut owned_envs: Vec<(String, String)> = Vec::new();
    let mut j: usize = 0;
    while j < envs.len()
        invariant
            j <= envs.len(),
            owned_envs.len() == j,
            forall|k: int|
                0 <= k < j ==> (#[trigger] owned_envs[k]).0@ == envs[k].0@ && owned_envs[k].1@
                    == envs[k].1@,
        decreases envs.len() - j,
    {
        owned_envs.push((String::from_str(envs[j].0), String::from_str(envs[j].1)));
        j += 1;
    }
    assert(string_views(owned_args@) =~= str_views(args@));
    assert(env_views(owned_envs@) =~= str_pair_views(envs@));
    Command {
        program: String::from_str(name),
        work_dir: String::from_str(work_dir),
        args: owned_args,
        envs: owned_envs,
    }
}

/// Describes the invocation of `name` in `work_dir` with `args` and no
/// environment variables of its own.
pub fn run_command(name: &str, work_dir: &str, args: &Vec<&str>) -> (command: Command)
    ensures
        command@ == (CommandView {
            program: name@,
            work_dir: work_dir@,
            args: str_views(args@),
            envs: Seq::empty(),
        }),
{
    let envs: Vec<(&str, &str)> = Vec::new();
    let command = run_command_with_envs(name, work_dir, args, &envs);
    assert(str_pair_views(envs@) =~= Seq::empty());
    command
}

/// What a finished process yields: the text it printed on its output stream
/// if it succeeded, and a failure with both streams if it did not. Bytes that
/// are not text are an error of their own. The error stream of a process
/// that succeeded is not looked at.
pub fn get_output_from_child(success: bool, stdout: Vec<u8>, stderr: Vec<u8>) -> (result: Result<
    String,
    CommandError,
>)
    ensures
        match result {
            Ok(text) => success && valid_utf8(stdout@) && text@ == decode_utf8(stdout@),
            Err(CommandError::NotText) => !valid_utf8(stdout@) || (!success && !valid_utf8(
                stderr@,
            )),
            Err(CommandError::Failed { report }) => !success && valid_utf8(stdout@) && valid_utf8(
                stderr@,
            ) && report@ == decode_utf8(stderr@) + seq![' '] + decode_utf8(stdout@),
        },
{
    if success {
        match text_of_bytes(stdout) {
            Some(text) => Ok(text),
            None => Err(CommandError::NotText),
        }
    } else {
        let errors = match text_of_bytes(stderr) {
            Some(text) => text,
            None => { return Err(CommandError::NotText); },
        };
        let output = match text_of_bytes(stdout) {
            Some(text) => text,
            None => { return Err(CommandError::NotText); },
        };
        let mut report = errors;
        report.push(' ');
        report.append(output.as_str());
        Err(CommandError::Failed { report })
    }
}

} // verus!
