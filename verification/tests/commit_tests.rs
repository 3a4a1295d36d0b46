use gitcommitgenerator::commit::{
    apply_commit_fix, build_commit_args, commit_fix_question, confirmation_accepted,
    detect_commit_fix, extend_with_words, fix_for_lowercased_output, is_yes_answer, CleanupMode,
    CommitArgError, CommitFix, CommitOptions, CommitRetry, CommitStep, FixAnswer,
};

#[test]
fn builds_commit_args_from_named_and_raw_options() {
    let options = CommitOptions {
        amend: true,
        signoff: true,
        skip_hooks: true,
        allow_empty: true,
        allow_empty_message: true,
        author: Some("Example User <user@example.com>".to_string()),
        date: Some("2025-01-01T00:00:00Z".to_string()),
        cleanup: Some(CleanupMode::Verbatim),
        gpg_sign: Some(Some("ABC123".to_string())),
        args: vec!["--trailer Reviewed-by=QA".to_string()],
    };

    let args = build_commit_args(&options, "test message").unwrap();

    assert_eq!(&args[..3], ["commit", "-m", "test message"]);
    assert!(args.contains(&"--amend".to_string()));
    assert!(args.contains(&"--signoff".to_string()));
    assert!(args.contains(&"--no-verify".to_string()));
    assert!(args.contains(&"--allow-empty".to_string()));
    assert!(args.contains(&"--allow-empty-message".to_string()));
    assert!(args.contains(&"--cleanup=verbatim".to_string()));
    assert!(args.contains(&"--gpg-sign=ABC123".to_string()));
    assert!(args.contains(&"--trailer".to_string()));
    assert!(args.contains(&"Reviewed-by=QA".to_string()));
}

#[test]
fn detects_simple_commit_fixes() {
    assert_eq!(
        detect_commit_fix("nothing to commit, working tree clean", true, &CommitOptions::default()),
        Some(CommitFix::AllowEmpty)
    );
    assert_eq!(
        detect_commit_fix("no changes added to commit", false, &CommitOptions::default()),
        Some(CommitFix::StageAll)
    );
    assert_eq!(
        detect_commit_fix("Aborting commit due to empty commit message.", true, &CommitOptions::default()),
        Some(CommitFix::AllowEmptyMessage)
    );
}

#[test]
fn default_commit_arguments_are_valid_for_git() {
    let args = build_commit_args(&CommitOptions::default(), "Add generated message").unwrap();
    assert_eq!(args, vec!["commit", "-m", "Add generated message"]);
}

#[test]
fn no_changes_added_suggests_staging_when_stage_all_is_disabled() {
    assert_eq!(
        detect_commit_fix(
            "no changes added to commit (use \"git add\" and/or \"git commit -a\")",
            false,
            &CommitOptions::default(),
        ),
        Some(CommitFix::StageAll)
    );
}

#[test]
fn commit_args_keep_named_order_and_split_raw_words() {
    let options = CommitOptions {
        author: Some("A <a@example.com>".to_string()),
        gpg_sign: Some(None),
        cleanup: Some(CleanupMode::Scissors),
        args: vec!["--trailer 'Reviewed-by=Q A'".to_string(), "-v".to_string()],
        ..CommitOptions::default()
    };
    let args = build_commit_args(&options, "msg").unwrap();
    assert_eq!(
        args,
        vec![
            "commit", "-m", "msg", "--author", "A <a@example.com>", "--cleanup=scissors",
            "--gpg-sign", "--trailer", "Reviewed-by=Q A", "-v",
        ]
    );
}

#[test]
fn unbalanced_raw_commit_argument_is_refused() {
    let options = CommitOptions {
        args: vec!["--ok".to_string(), "--trailer 'open".to_string()],
        ..CommitOptions::default()
    };
    assert_eq!(
        build_commit_args(&options, "msg"),
        Err(CommitArgError { arg: "--trailer 'open".to_string() })
    );
}

#[test]
fn applied_fix_is_not_offered_again() {
    let mut options = CommitOptions::default();
    let mut staged = false;
    let output = "no changes added to commit";
    let fix = detect_commit_fix(output, staged, &options).unwrap();
    assert_eq!(fix, CommitFix::StageAll);
    apply_commit_fix(&mut options, &mut staged, fix);
    assert!(staged);
    let next = detect_commit_fix(output, staged, &options);
    assert_eq!(next, Some(CommitFix::AllowEmpty));
    apply_commit_fix(&mut options, &mut staged, next.unwrap());
    assert!(options.allow_empty);
    assert_eq!(detect_commit_fix(output, staged, &options), None);
}

#[test]
fn unrelated_commit_errors_offer_no_fix() {
    assert_eq!(detect_commit_fix("fatal: bad revision", false, &CommitOptions::default()), None);
    let allow = CommitOptions { allow_empty_message: true, ..CommitOptions::default() };
    assert_eq!(detect_commit_fix("Aborting commit due to empty commit message.", true, &allow), None);
}

#[test]
fn fix_questions_and_confirmations() {
    assert_eq!(commit_fix_question(CommitFix::AllowEmpty), "Retry with --allow-empty? [Y/n]");
    assert_eq!(
        commit_fix_question(CommitFix::StageAll),
        "Stage all changes with git add -A and retry? [Y/n]"
    );
    assert!(confirmation_accepted("\n"));
    assert!(confirmation_accepted(" Yes\n"));
    assert!(confirmation_accepted("Y"));
    assert!(!confirmation_accepted("no"));
    assert!(!confirmation_accepted("yep"));
}

#[test]
fn cleanup_modes_name_git_values() {
    assert_eq!(CleanupMode::Strip.as_git_value(), "strip");
    assert_eq!(CleanupMode::Whitespace.as_git_value(), "whitespace");
    assert_eq!(CleanupMode::Default.as_git_value(), "default");
}

#[test]
fn lowercased_output_and_answers_are_read_as_given() {
    let options = CommitOptions::default();
    assert_eq!(fix_for_lowercased_output("nothing to commit", false, &options), Some(CommitFix::AllowEmpty));
    assert_eq!(fix_for_lowercased_output("Nothing To Commit", false, &options), None);
    assert!(is_yes_answer(""));
    assert!(is_yes_answer("yes"));
    assert!(!is_yes_answer("Yes"));
}

#[test]
fn split_words_are_appended_in_order() {
    let mut args = vec!["commit".to_string()];
    assert_eq!(extend_with_words(&mut args, "-a -b", Some(vec!["-a".to_string(), "-b".to_string()])), Ok(()));
    assert_eq!(args, vec!["commit", "-a", "-b"]);
    assert_eq!(
        extend_with_words(&mut args, "'x", None),
        Err(CommitArgError { arg: "'x".to_string() })
    );
    assert_eq!(args, vec!["commit", "-a", "-b"]);
}

#[test]
fn commit_retries_stage_everything_at_most_once() {
    let mut state = CommitRetry::new(CommitOptions::default(), false);
    let output = "no changes added to commit";
    assert_eq!(state.after_commit(true, output), CommitStep::Committed);
    assert_eq!(state.after_commit(false, output), CommitStep::Offer(CommitFix::StageAll));
    assert_eq!(state.answer_fix(CommitFix::StageAll, true), FixAnswer::Retry { stage_everything: true });
    assert!(state.already_stage_all);
    assert_eq!(state.after_commit(false, output), CommitStep::Offer(CommitFix::AllowEmpty));
    assert_eq!(state.answer_fix(CommitFix::AllowEmpty, true), FixAnswer::Retry { stage_everything: false });
    assert!(state.options.allow_empty);
    assert_eq!(state.after_commit(false, output), CommitStep::Failed);

    let mut staged = CommitRetry::new(CommitOptions::default(), true);
    assert_eq!(staged.after_commit(false, output), CommitStep::Offer(CommitFix::AllowEmpty));
    let before = staged.clone();
    assert_eq!(staged.answer_fix(CommitFix::AllowEmpty, false), FixAnswer::GiveUp);
    assert_eq!(staged, before);
}
