use gitcommitgenerator::changes::{
    after_message, assemble_changes, AfterMessage, diff_untracked_paths, extra_paths_lines, extra_selection_plan,
    has_changes_to_commit, lowercased_extra_change_answer, parse_extra_change_answer, parse_file_selection, selectable_paths,
    selection_from_indexes, selection_ui_lines, stage_included_paths, ChangeSet,
    ExtraChangeAnswer, ExtraChangeSelection, ExtraPathKind, ExtraSelectionPlan, SelectionError,
};
use gitcommitgenerator::commit::CommitOptions;
use gitcommitgenerator::config::{
    AppConfig, IncludeUnstagedMode, DEFAULT_MAX_FILE_CHARS, DEFAULT_MAX_INPUT_CHARS,
    DEFAULT_STAGED_DIFF_COMMAND, DEFAULT_TEMPERATURE_BITS, DEFAULT_UNSTAGED_DIFF_COMMAND,
    DEFAULT_UNTRACKED_DIFF_COMMAND,
};
use gitcommitgenerator::diff::DiffPreparationReport;

fn strings(items: &[&str]) -> Vec<String> {
    items.iter().map(|s| s.to_string()).collect()
}

fn sample_config() -> AppConfig {
    AppConfig {
        api_key: "key".to_string(),
        base_url: "http://127.0.0.1:3002".to_string(),
        endpoint: "/v1/chat/completions".to_string(),
        model: "model".to_string(),
        effort: None,
        prompt: "prompt".to_string(),
        diff_command: DEFAULT_STAGED_DIFF_COMMAND.to_string(),
        staged_diff_command: DEFAULT_STAGED_DIFF_COMMAND.to_string(),
        unstaged_diff_command: DEFAULT_UNSTAGED_DIFF_COMMAND.to_string(),
        untracked_diff_command: DEFAULT_UNTRACKED_DIFF_COMMAND.to_string(),
        unstaged_files_command: "git diff --name-only".to_string(),
        untracked_files_command: "git ls-files --others --exclude-standard".to_string(),
        include_unstaged: IncludeUnstagedMode::Always,
        max_input_chars: DEFAULT_MAX_INPUT_CHARS,
        max_file_chars: DEFAULT_MAX_FILE_CHARS,
        include_lockfiles: false,
        ignore_diff_paths: Vec::new(),
        temperature_bits: DEFAULT_TEMPERATURE_BITS,
        max_tokens: 512,
        timeout_seconds: 120,
        proxy: None,
        headers: Vec::new(),
        stage_all: true,
        confirm: true,
        assume_yes: false,
        dry_run: false,
        commit: CommitOptions::default(),
    }
}

#[test]
fn file_selection_excludes_numbers_ranges_and_file_names() {
    let paths = selectable_paths(
        &["tracked.txt".to_string(), "src/lib.rs".to_string()],
        &["new.txt".to_string(), "docs/readme.md".to_string()],
    );

    let selected = parse_file_selection("1 3 docs/readme.md", &paths).unwrap();
    let selection = selection_from_indexes(&paths, &selected);

    assert_eq!(selection.unstaged_paths, vec!["src/lib.rs"]);
    assert!(selection.untracked_paths.is_empty());
}

#[test]
fn file_selection_supports_ranges_and_caret_reinclude() {
    let paths = selectable_paths(
        &["one.txt".to_string(), "two.txt".to_string()],
        &["three.txt".to_string(), "four.txt".to_string()],
    );

    let selected = parse_file_selection("1-4 ^2", &paths).unwrap();
    let selection = selection_from_indexes(&paths, &selected);

    assert_eq!(selection.unstaged_paths, vec!["two.txt"]);
    assert!(selection.untracked_paths.is_empty());
}

#[test]
fn change_set_reports_extra_paths_only_when_included() {
    let changes = ChangeSet {
        diff: "diff".to_string(),
        included_unstaged_paths: vec!["tracked.txt".to_string()],
        included_untracked_paths: Vec::new(),
        diff_report: DiffPreparationReport::default(),
    };

    assert_eq!(changes.included_unstaged_paths, vec!["tracked.txt"]);
    assert!(changes.has_included_extra_paths());
}

#[test]
fn empty_selection_input_keeps_every_file() {
    let paths = selectable_paths(&strings(&["a.txt"]), &strings(&["b.txt", "c.txt"]));
    assert_eq!(parse_file_selection("   ", &paths).unwrap(), vec![0, 1, 2]);
    let selection = selection_from_indexes(&paths, &[0, 1, 2]);
    assert_eq!(selection.unstaged_paths, vec!["a.txt"]);
    assert_eq!(selection.untracked_paths, vec!["b.txt", "c.txt"]);
}

#[test]
fn selectable_paths_lists_unstaged_before_untracked() {
    let paths = selectable_paths(&strings(&["a.txt"]), &strings(&["b.txt"]));
    assert_eq!(paths.len(), 2);
    assert_eq!(paths[0].path, "a.txt");
    assert_eq!(paths[0].kind, ExtraPathKind::Unstaged);
    assert_eq!(paths[1].path, "b.txt");
    assert_eq!(paths[1].kind, ExtraPathKind::Untracked);
}

#[test]
fn file_selection_reports_out_of_range_and_unknown_selectors() {
    let paths = selectable_paths(&strings(&["a.txt", "b.txt"]), &[]);
    let out_of_range = parse_file_selection("1-3", &paths).unwrap_err();
    assert_eq!(out_of_range, SelectionError::OutOfRange(3));
    assert_eq!(out_of_range.message(), "file number out of range: 3");
    let unknown = parse_file_selection("zzz", &paths).unwrap_err();
    assert_eq!(unknown, SelectionError::UnknownSelector("zzz".to_string()));
    assert_eq!(unknown.message(), "unknown file selector: zzz");
    let not_a_range = parse_file_selection("1-x", &paths).unwrap_err();
    assert_eq!(not_a_range.message(), "unknown file selector: 1-x");
    let lone_number = parse_file_selection("3", &paths).unwrap_err();
    assert_eq!(lone_number, SelectionError::UnknownSelector("3".to_string()));
    let zero = parse_file_selection("0-1", &paths).unwrap_err();
    assert_eq!(zero, SelectionError::OutOfRange(0));
}

#[test]
fn file_selection_reversed_range_and_name_fragment() {
    let paths = selectable_paths(&strings(&["src/a.rs", "src/b.rs", "docs/c.md"]), &[]);
    assert_eq!(parse_file_selection("3-2", &paths).unwrap(), vec![0]);
    assert_eq!(parse_file_selection("src", &paths).unwrap(), vec![2]);
    assert!(parse_file_selection("x", &[]).unwrap().is_empty());
}

#[test]
fn staging_args_list_included_paths() {
    let changes = ChangeSet {
        diff: "diff".to_string(),
        included_unstaged_paths: strings(&["tracked.txt"]),
        included_untracked_paths: strings(&["new.txt"]),
        diff_report: DiffPreparationReport::default(),
    };
    assert_eq!(
        stage_included_paths(&changes),
        Some(strings(&["add", "--", "tracked.txt", "new.txt"]))
    );
    let empty = ChangeSet::default();
    assert_eq!(stage_included_paths(&empty), None);
}

#[test]
fn extra_selection_plan_follows_mode() {
    assert_eq!(extra_selection_plan(IncludeUnstagedMode::Always, false), ExtraSelectionPlan::IncludeAll);
    assert_eq!(extra_selection_plan(IncludeUnstagedMode::Never, true), ExtraSelectionPlan::IncludeNone);
    assert_eq!(extra_selection_plan(IncludeUnstagedMode::Ask, true), ExtraSelectionPlan::IncludeAll);
    assert_eq!(extra_selection_plan(IncludeUnstagedMode::Ask, false), ExtraSelectionPlan::Ask);
}

#[test]
fn extra_change_answers_are_read_case_insensitively() {
    assert_eq!(parse_extra_change_answer("\n"), Some(ExtraChangeAnswer::IncludeAll));
    assert_eq!(parse_extra_change_answer(" YES \n"), Some(ExtraChangeAnswer::IncludeAll));
    assert_eq!(parse_extra_change_answer("No"), Some(ExtraChangeAnswer::IncludeNone));
    assert_eq!(parse_extra_change_answer("Select files to add"), Some(ExtraChangeAnswer::SelectFiles));
    assert_eq!(parse_extra_change_answer("maybe"), None);
}

#[test]
fn listings_name_every_extra_path() {
    assert_eq!(
        extra_paths_lines(&strings(&["a.txt"]), &strings(&["b.txt"])),
        strings(&[
            "Found files that are not staged with git add:",
            "  unstaged: a.txt",
            "  untracked: b.txt",
        ])
    );
    let paths = selectable_paths(&strings(&["new.txt", "src/lib.rs"]), &strings(&["docs/readme.md"]));
    assert_eq!(
        selection_ui_lines(&paths),
        strings(&[
            ":: 3 files...",
            "3  docs/readme.md",
            "2  src/lib.rs",
            "1  new.txt",
            "==> Files to exclude: (for example: \"1 2 3\", \"1-3\", \"^4\", or file names)",
        ])
    );
}

#[test]
fn untracked_diffs_are_labelled_per_file() {
    let text = diff_untracked_paths(&strings(&["a.txt", "b.txt"]), &strings(&["+a\n", "+b\n"]));
    assert_eq!(text, "\nUntracked file: a.txt\n+a\n\nUntracked file: b.txt\n+b\n");
}

#[test]
fn assembled_changes_label_and_include_selected_paths() {
    let config = sample_config();
    let selection = ExtraChangeSelection {
        unstaged_paths: strings(&["tracked.txt"]),
        untracked_paths: strings(&["untracked.txt"]),
    };
    let changes = assemble_changes(&config, "staged diff\n", selection, "unstaged diff\n", "  \n");
    assert_eq!(changes.diff, "Staged changes:\nstaged diff\n\n\nUnstaged tracked changes:\nunstaged diff\n");
    assert_eq!(changes.included_unstaged_paths, vec!["tracked.txt"]);
    assert!(changes.included_untracked_paths.is_empty());
    assert!(!changes.diff_report.was_summarized());

    let none = assemble_changes(&config, "staged\n", ExtraChangeSelection::none(), "ignored\n", "ignored\n");
    assert_eq!(none.diff, "Staged changes:\nstaged\n");
    assert!(!none.has_included_extra_paths());
}

#[test]
fn blank_diff_stops_a_run_unless_empty_commits_are_allowed() {
    assert!(!has_changes_to_commit(" \n\t", false));
    assert!(has_changes_to_commit(" \n\t", true));
    assert!(has_changes_to_commit("diff", false));
}

#[test]
fn lowercased_answers_are_matched_exactly() {
    assert_eq!(lowercased_extra_change_answer("select"), Some(ExtraChangeAnswer::SelectFiles));
    assert_eq!(lowercased_extra_change_answer("No"), None);
    assert_eq!(lowercased_extra_change_answer(""), Some(ExtraChangeAnswer::IncludeAll));
}

#[test]
fn hyphenated_file_name_fragments_exclude_files() {
    let paths = selectable_paths(&strings(&["src/my-file.rs", "b.rs"]), &[]);
    assert_eq!(parse_file_selection("my-file", &paths), Ok(vec![1]));
    assert_eq!(parse_file_selection("2-1", &paths), Ok(vec![]));
    assert_eq!(parse_file_selection("1-2 ^my-", &paths), Ok(vec![0]));
}

#[test]
fn message_decisions_stage_only_after_confirmation() {
    let changes = ChangeSet {
        diff: "diff".to_string(),
        included_unstaged_paths: strings(&["tracked.txt"]),
        included_untracked_paths: strings(&["new.txt"]),
        diff_report: DiffPreparationReport::default(),
    };
    assert_eq!(after_message(true, false, false, true, &changes), AfterMessage::Declined);
    assert_eq!(after_message(true, true, true, true, &changes), AfterMessage::DryRun);
    assert_eq!(after_message(false, false, true, true, &changes), AfterMessage::DryRun);
    assert_eq!(
        after_message(true, true, false, true, &changes),
        AfterMessage::Commit { stage: Some(strings(&["add", "--", "tracked.txt", "new.txt"])), staged_for_commit: true }
    );
    assert_eq!(
        after_message(false, false, false, false, &changes),
        AfterMessage::Commit { stage: None, staged_for_commit: false }
    );
    assert_eq!(
        after_message(true, true, false, true, &ChangeSet::default()),
        AfterMessage::Commit { stage: None, staged_for_commit: false }
    );
}

#[test]
fn a_number_excludes_one_file_and_caret_brings_it_back() {
    let paths = selectable_paths(&strings(&["a.txt", "b.txt", "c.txt"]), &[]);
    assert_eq!(parse_file_selection("2", &paths), Ok(vec![0, 2]));
    assert_eq!(parse_file_selection("1-3 ^2", &paths), Ok(vec![1]));
    assert_eq!(parse_file_selection("2 ^2", &paths), Ok(vec![0, 1, 2]));
}

#[test]
fn appending_a_caret_number_reincludes_that_file() {
    let paths = selectable_paths(&strings(&["a.txt", "b.txt", "c.txt"]), &[]);
    assert_eq!(parse_file_selection("a b c", &paths), Ok(vec![]));
    assert_eq!(parse_file_selection("a b c ^2", &paths), Ok(vec![1]));
    assert_eq!(parse_file_selection("  ^3", &paths), Ok(vec![0, 1, 2]));
    assert_eq!(parse_file_selection("anything", &[]), Ok(vec![]));
}
