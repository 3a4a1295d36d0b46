use gitcommitgenerator::git::{
    check_command_status, ensure_inside_git_repo, no_index_diff_succeeded, run_lines_command,
    GitError,
};

#[test]
fn repository_check_reads_rev_parse_output() {
    assert_eq!(ensure_inside_git_repo("true\n"), Ok(()));
    let error = ensure_inside_git_repo("false\n").unwrap_err();
    assert_eq!(error, GitError::NotARepository);
    assert_eq!(error.message(), "current directory is not inside a Git repository");
    assert!(ensure_inside_git_repo("").is_err());
}

#[test]
fn command_lines_are_trimmed_and_blank_ones_dropped() {
    assert_eq!(
        run_lines_command("  tracked.txt \r\n\n src/lib.rs\n   \n"),
        vec!["tracked.txt", "src/lib.rs"]
    );
    assert!(run_lines_command("").is_empty());
    assert_eq!(run_lines_command("last"), vec!["last"]);
}

#[test]
fn failed_commands_report_trimmed_stderr() {
    assert_eq!(check_command_status(true, "ignored"), Ok(()));
    let error = check_command_status(false, "  fatal: oops \n").unwrap_err();
    assert_eq!(error, GitError::CommandFailed { stderr: "fatal: oops".to_string() });
    assert_eq!(error.message(), "command failed: fatal: oops");
}

#[test]
fn no_index_diff_accepts_exit_code_one() {
    assert!(no_index_diff_succeeded(true, Some(0)));
    assert!(no_index_diff_succeeded(false, Some(1)));
    assert!(!no_index_diff_succeeded(false, Some(128)));
    assert!(!no_index_diff_succeeded(false, None));
}
