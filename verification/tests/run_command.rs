use mono_merger::git::run_command::{
    get_output_from_child, run_command, run_command_with_envs, Command, CommandError,
};

#[test]
fn run_command_describes_the_invocation() {
    let command = run_command("git", "./tmp/one", &vec!["checkout", "-B", "main"]);
    assert_eq!(
        command,
        Command {
            program: "git".to_string(),
            work_dir: "./tmp/one".to_string(),
            args: vec!["checkout".to_string(), "-B".to_string(), "main".to_string()],
            envs: vec![],
        }
    );
}

#[test]
fn run_command_without_arguments() {
    let command = run_command("ls", ".", &vec![]);
    assert_eq!(command.program, "ls");
    assert_eq!(command.work_dir, ".");
    assert!(command.args.is_empty());
    assert!(command.envs.is_empty());
}

#[test]
fn run_command_with_envs_keeps_the_variables_in_order() {
    let command = run_command_with_envs(
        "git",
        "./tmp",
        &vec!["commit"],
        &vec![("GIT_AUTHOR_NAME", "Ann"), ("GIT_AUTHOR_EMAIL", "ann@example.org")],
    );
    assert_eq!(command.args, vec!["commit".to_string()]);
    assert_eq!(
        command.envs,
        vec![
            ("GIT_AUTHOR_NAME".to_string(), "Ann".to_string()),
            ("GIT_AUTHOR_EMAIL".to_string(), "ann@example.org".to_string()),
        ]
    );
}

#[test]
fn output_of_a_success_is_what_was_printed() {
    let result = get_output_from_child(true, b"line one\nline two\n".to_vec(), vec![]);
    assert_eq!(result, Ok("line one\nline two\n".to_string()));
}

#[test]
fn output_of_a_success_is_decoded_as_utf8() {
    let result = get_output_from_child(true, "žluťoučký kůň".as_bytes().to_vec(), vec![]);
    assert_eq!(result, Ok("žluťoučký kůň".to_string()));
}

#[test]
fn output_of_a_success_ignores_the_error_stream() {
    let result = get_output_from_child(true, b"fine".to_vec(), vec![0xff, 0xfe]);
    assert_eq!(result, Ok("fine".to_string()));
}

#[test]
fn output_of_a_failure_reports_both_streams() {
    let result = get_output_from_child(false, b"partial".to_vec(), b"fatal: no such ref".to_vec());
    assert_eq!(
        result,
        Err(CommandError::Failed { report: "fatal: no such ref partial".to_string() })
    );
}

#[test]
fn output_of_a_silent_failure_is_a_single_space() {
    let result = get_output_from_child(false, vec![], vec![]);
    assert_eq!(result, Err(CommandError::Failed { report: " ".to_string() }));
}

#[test]
fn output_that_is_no_text_is_an_error() {
    assert_eq!(get_output_from_child(true, vec![0x66, 0xff], vec![]), Err(CommandError::NotText));
    assert_eq!(
        get_output_from_child(false, vec![0xc3], b"error".to_vec()),
        Err(CommandError::NotText)
    );
    assert_eq!(
        get_output_from_child(false, b"out".to_vec(), vec![0x80]),
        Err(CommandError::NotText)
    );
}
