use gitcommitgenerator::commit::CommitOptions;
use gitcommitgenerator::config::{
    AppConfig, IncludeUnstagedMode, DEFAULT_MAX_FILE_CHARS, DEFAULT_MAX_INPUT_CHARS,
    DEFAULT_STAGED_DIFF_COMMAND, DEFAULT_TEMPERATURE_BITS, DEFAULT_UNSTAGED_DIFF_COMMAND,
    DEFAULT_UNSTAGED_FILES_COMMAND, DEFAULT_UNTRACKED_DIFF_COMMAND,
    DEFAULT_UNTRACKED_FILES_COMMAND,
};
use gitcommitgenerator::diff::{
    diff_preparation_report_lines, path_from_header_words, prepare_diff_for_llm, sanitize_diff_for_llm,
    summarize_report_items, DiffPreparationReport,
};

fn base_test_config() -> AppConfig {
    AppConfig {
        api_key: "key".to_string(),
        base_url: "http://127.0.0.1:3002".to_string(),
        endpoint: "/v1/chat/completions".to_string(),
        model: "model".to_string(),
        effort: None,
        prompt: "prompt".to_string(),
        diff_command: DEFAULT_STAGED_DIFF_COMMAND.to_string(),
        staged_diff_command: DEFAULT_STAGED_DIFF_COMMAND.to_string(),
        unstaged_diff_command: DEFAULT_UNSTAGED_DIFF_COMMAND.to_string(),
        untracked_diff_command: DEFAULT_UNTRACKED_DIFF_COMMAND.to_string(),
        unstaged_files_command: DEFAULT_UNSTAGED_FILES_COMMAND.to_string(),
        untracked_files_command: DEFAULT_UNTRACKED_FILES_COMMAND.to_string(),
        include_unstaged: IncludeUnstagedMode::Ask,
        max_input_chars: DEFAULT_MAX_INPUT_CHARS,
        max_file_chars: DEFAULT_MAX_FILE_CHARS,
        include_lockfiles: false,
        ignore_diff_paths: Vec::new(),
        temperature_bits: DEFAULT_TEMPERATURE_BITS,
        max_tokens: 512,
        timeout_seconds: 120,
        proxy: None,
        headers: Vec::new(),
        stage_all: true,
        confirm: true,
        assume_yes: false,
        dry_run: false,
        commit: CommitOptions::default(),
    }
}

#[test]
fn sanitizes_git_binary_patch_sections_for_llm() {
    let diff = "Note.pdf | Bin 1 -> 2 bytes\nsrc/lib.rs | 1 +\n\n\
diff --git a/Note.pdf b/Note.pdf\n\
index 2e1a645..0dd5894 100644\n\
GIT binary patch\n\
delta 1089611\n\
binary payload\n\
diff --git a/src/lib.rs b/src/lib.rs\n\
index 1111111..2222222 100644\n\
--- a/src/lib.rs\n\
+++ b/src/lib.rs\n\
@@ -1 +1 @@\n\
-old\n\
+new\n";

    let sanitized = sanitize_diff_for_llm(diff);

    assert!(sanitized.contains("Note.pdf | Bin 1 -> 2 bytes"));
    assert!(sanitized.contains("Edit file Note.pdf"));
    assert!(!sanitized.contains("GIT binary patch"));
    assert!(!sanitized.contains("binary payload"));
    assert!(sanitized.contains("diff --git a/src/lib.rs b/src/lib.rs"));
    assert!(sanitized.contains("+new"));
}

#[test]
fn keeps_small_text_diff_sections_for_llm() {
    let diff = "diff --git a/src/lib.rs b/src/lib.rs\n-old\n+new\n";

    assert_eq!(sanitize_diff_for_llm(diff), diff);
}

#[test]
fn sanitizes_large_delta_sections_for_llm() {
    let diff = "diff --git a/asset.bin b/asset.bin\n\
index 1111111..2222222 100644\n\
delta 100000\n\
huge payload\n";

    let sanitized = sanitize_diff_for_llm(diff);

    assert_eq!(sanitized, "Edit file asset.bin (large binary diff omitted)\n");
}

#[test]
fn omits_lockfiles_and_generated_diff_sections_by_default() {
    let mut config = base_test_config();
    config.max_input_chars = 12_000;
    config.max_file_chars = 8_000;
    let diff = "diff --git a/src/lib.rs b/src/lib.rs\n-old\n+new\n\
diff --git a/Cargo.lock b/Cargo.lock\n-old lock\n+new lock\n\
diff --git a/dist/app.js b/dist/app.js\n-old bundle\n+new bundle\n";

    let prepared = prepare_diff_for_llm(&config, diff);

    assert!(prepared.content.contains("+new"));
    assert!(prepared.content.contains("Cargo.lock (diff omitted by input policy)"));
    assert!(prepared.content.contains("dist/app.js (diff omitted by input policy)"));
    assert!(!prepared.content.contains("+new lock"));
    assert!(!prepared.content.contains("+new bundle"));
    assert_eq!(prepared.report.omitted_files.len(), 2);
}

#[test]
fn can_include_lockfiles_when_configured() {
    let mut config = base_test_config();
    config.include_lockfiles = true;
    let diff = "diff --git a/Cargo.lock b/Cargo.lock\n-old lock\n+new lock\n";

    let prepared = prepare_diff_for_llm(&config, diff);

    assert!(prepared.content.contains("+new lock"));
    assert!(prepared.report.omitted_files.is_empty());
}

#[test]
fn truncates_large_diff_sections_to_per_file_budget() {
    let mut config = base_test_config();
    config.max_input_chars = 12_000;
    config.max_file_chars = 4_200;
    let large_payload = "x".repeat(8_000);
    let diff = format!("diff --git a/src/large.rs b/src/large.rs\n+{large_payload}\n");

    let prepared = prepare_diff_for_llm(&config, &diff);

    assert!(prepared.content.chars().count() <= 4_200);
    assert!(prepared.content.contains("exceeded per-file budget"));
    assert_eq!(prepared.report.truncated_files.len(), 1);
}

#[test]
fn stops_adding_sections_when_input_budget_is_exhausted() {
    let mut config = base_test_config();
    config.max_input_chars = 4_500;
    config.max_file_chars = 4_200;
    let first_payload = "a".repeat(3_600);
    let second_payload = "b".repeat(3_600);
    let diff = format!(
        "diff --git a/src/one.rs b/src/one.rs\n\
index 1111111..2222222 100644\n\
--- a/src/one.rs\n\
+++ b/src/one.rs\n\
@@ -1 +1 @@\n\
-old\n\
+{first_payload}\n\
diff --git a/src/two.rs b/src/two.rs\n\
index 1111111..2222222 100644\n\
--- a/src/two.rs\n\
+++ b/src/two.rs\n\
@@ -1 +1 @@\n\
-old\n\
+{second_payload}\n"
    );

    let prepared = prepare_diff_for_llm(&config, &diff);

    assert!(prepared.content.contains("src/one.rs"));
    assert!(!prepared.content.contains("src/two.rs"));
    assert!(prepared.report.reached_input_budget);
    assert_eq!(prepared.report.omitted_files.len(), 1);
}

#[test]
fn custom_ignore_patterns_summarize_matching_sections() {
    let mut config = base_test_config();
    config.ignore_diff_paths = vec!["fixtures/**".to_string(), "*.snap".to_string()];
    let diff = "diff --git a/fixtures/a.json b/fixtures/a.json\n+x\n\
diff --git a/tests/out.snap b/tests/out.snap\n+y\n\
diff --git a/src/main.rs b/src/main.rs\n+z\n";

    let prepared = prepare_diff_for_llm(&config, diff);

    assert!(prepared.content.contains("fixtures/a.json (diff omitted by input policy)"));
    assert!(prepared.content.contains("tests/out.snap (diff omitted by input policy)"));
    assert!(prepared.content.contains("+z"));
    assert_eq!(prepared.report.omitted_files.len(), 2);
    assert!(prepared.report.prepared_chars <= prepared.report.input_budget_chars);
}

#[test]
fn prepared_diff_within_budget_is_unchanged() {
    let config = base_test_config();
    let diff = "diff --git a/src/lib.rs b/src/lib.rs\n-old\n+new\n";
    let prepared = prepare_diff_for_llm(&config, diff);
    assert_eq!(prepared.content, diff);
    assert!(!prepared.report.was_summarized());
    assert!(diff_preparation_report_lines(&prepared.report).is_empty());
}

#[test]
fn report_lines_describe_a_summarized_diff() {
    let report = DiffPreparationReport {
        original_chars: 24_355_202,
        prepared_chars: 500_000,
        input_budget_chars: 500_000,
        omitted_files: vec!["Cargo.lock (ignored by diff input policy)".to_string()],
        truncated_files: vec!["src/large.rs (90000 chars -> 80000 chars)".to_string()],
        reached_input_budget: false,
    };
    assert!(report.was_summarized());
    assert_eq!(
        diff_preparation_report_lines(&report),
        vec![
            "Diff input summarized: 24355202 chars -> 500000 chars (budget: 500000 chars).",
            "Truncated 1 large diff section(s): src/large.rs (90000 chars -> 80000 chars)",
            "Omitted 1 diff section(s): Cargo.lock (ignored by diff input policy)",
        ]
    );
}

#[test]
fn report_items_beyond_five_are_counted() {
    let items: Vec<String> = (1..=7).map(|i| format!("f{i}")).collect();
    assert_eq!(summarize_report_items(&items), "f1, f2, f3, f4, f5, ... and 2 more");
    assert_eq!(summarize_report_items(&items[..2].to_vec()), "f1, f2");
}

#[test]
fn header_words_name_the_path_after_its_side_prefix() {
    let words = Some(vec!["\"a/with space.txt\"".to_string(), "b/with space.txt".to_string()]);
    assert_eq!(path_from_header_words(&words), Some("with space.txt".chars().collect()));
    let a_side = Some(vec!["x".to_string(), "a/old.txt".to_string()]);
    assert_eq!(path_from_header_words(&a_side), Some("old.txt".chars().collect()));
    assert_eq!(path_from_header_words(&Some(vec!["only".to_string()])), None);
    assert_eq!(path_from_header_words(&None), None);
}

#[test]
fn quoted_header_paths_name_their_sections() {
    let diff = "diff --git \"a/my file.txt\" \"b/my file.txt\"\n+x\n";
    let mut config = base_test_config();
    config.ignore_diff_paths = vec!["my file.txt".to_string()];
    let prepared = prepare_diff_for_llm(&config, diff);
    assert!(prepared.content.contains("my file.txt (diff omitted by input policy)"));
}

#[test]
fn binary_markers_before_the_first_section_are_kept() {
    let diff = "GIT binary patch\ndiff --git a/src/lib.rs b/src/lib.rs\n-old\n+new\n";
    assert_eq!(sanitize_diff_for_llm(diff), diff);
}

#[test]
fn prepared_diff_is_the_longest_prefix_that_fits() {
    let mut config = base_test_config();
    config.max_input_chars = 4_200;
    config.max_file_chars = 4_200;
    let a = format!("diff --git a/a.rs b/a.rs\n+{}\n", "a".repeat(2_000));
    let b = format!("diff --git a/b.rs b/b.rs\n+{}\n", "b".repeat(2_000));
    let c = format!("diff --git a/c.rs b/c.rs\n+{}\n", "c".repeat(2_000));
    let diff = format!("{a}{b}{c}");
    let prepared = prepare_diff_for_llm(&config, &diff);
    assert_eq!(prepared.content, format!("{a}\n\n{b}"));
    assert!(prepared.report.reached_input_budget);
    assert_eq!(prepared.report.omitted_files.len(), 1);
}
