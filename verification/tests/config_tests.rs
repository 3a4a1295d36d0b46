use gitcommitgenerator::config::{
    resolve_char_limit, resolve_config, resolve_effort, resolve_prompt, AppConfig, Cli,
    CommitConfig, ConfigError, FileConfig, IncludeUnstagedMode, PromptSource, ReasoningEffort,
    DEFAULT_DIFF_COMMAND, DEFAULT_ENDPOINT, DEFAULT_MAX_FILE_CHARS, DEFAULT_MAX_INPUT_CHARS,
    DEFAULT_STAGED_DIFF_COMMAND, DEFAULT_TEMPERATURE_BITS, DEFAULT_UNSTAGED_DIFF_COMMAND,
    DEFAULT_UNSTAGED_FILES_COMMAND, DEFAULT_UNTRACKED_DIFF_COMMAND,
    DEFAULT_UNTRACKED_FILES_COMMAND,
};

const MISSING_FILE: &str = "/tmp/definitely-not-a-real-gcg-config.toml";

fn cli_with_key_and_model() -> Cli {
    Cli {
        config: Some(MISSING_FILE.to_string()),
        api_key: Some("key".to_string()),
        model: Some("model".to_string()),
        ..Cli::default()
    }
}

fn resolve(cli: Cli, file: FileConfig) -> Result<AppConfig, ConfigError> {
    resolve_config(cli, file, None, "config.toml", None)
}

#[test]
fn cli_values_override_file_config() {
    let file = FileConfig {
        api_key: Some("file-key".to_string()),
        base_url: Some("http://file".to_string()),
        model: Some("file-model".to_string()),
        effort: Some("low".to_string()),
        temperature_bits: Some(0.7f32.to_bits()),
        stage_all: Some(false),
        commit: Some(CommitConfig {
            signoff: Some(true),
            author: Some("File User <file@example.com>".to_string()),
            args: Some(vec!["--quiet".to_string()]),
            ..CommitConfig::default()
        }),
        ..FileConfig::default()
    };
    let cli = Cli {
        config: Some("config.toml".to_string()),
        api_key: Some("cli-key".to_string()),
        model: Some("cli-model".to_string()),
        base_url: Some("http://cli".to_string()),
        effort: Some("HIGH".to_string()),
        temperature_bits: Some(0.1f32.to_bits()),
        stage_all: Some(true),
        author: Some("Cli User <cli@example.com>".to_string()),
        commit_arg: vec!["--verbose".to_string()],
        ..Cli::default()
    };

    let config = resolve(cli, file).unwrap();

    assert_eq!(config.api_key, "cli-key");
    assert_eq!(config.model, "cli-model");
    assert_eq!(config.base_url, "http://cli");
    assert_eq!(config.effort, Some(ReasoningEffort::High));
    assert_eq!(f32::from_bits(config.temperature_bits), 0.1);
    assert!(config.stage_all);
    assert!(config.commit.signoff);
    assert_eq!(config.commit.author, Some("Cli User <cli@example.com>".to_string()));
    assert_eq!(config.commit.args, vec!["--quiet", "--verbose"]);
}

#[test]
fn invalid_effort_falls_back_to_omitting_request_field() {
    let cli = Cli { effort: Some("turbo".to_string()), ..cli_with_key_and_model() };
    let config = resolve(cli, FileConfig::default()).unwrap();
    assert_eq!(config.effort, None);
}

#[test]
fn non_string_file_effort_falls_back_to_omitting_request_field() {
    let file = FileConfig {
        api_key: Some("key".to_string()),
        model: Some("model".to_string()),
        effort: Some("42".to_string()),
        ..FileConfig::default()
    };
    let config = resolve(Cli::default(), file).unwrap();
    assert_eq!(config.effort, None);
}

#[test]
fn max_is_a_supported_effort() {
    let cli = Cli { effort: Some("max".to_string()), ..cli_with_key_and_model() };
    let config = resolve(cli, FileConfig::default()).unwrap();
    assert_eq!(config.effort, Some(ReasoningEffort::Max));
}

#[test]
fn file_effort_is_resolved_case_insensitively() {
    let file = FileConfig {
        api_key: Some("key".to_string()),
        model: Some("model".to_string()),
        effort: Some("XHIGH".to_string()),
        ..FileConfig::default()
    };
    let config = resolve(Cli::default(), file).unwrap();
    assert_eq!(config.effort, Some(ReasoningEffort::Xhigh));
}

#[test]
fn default_prompt_and_diff_include_unstaged_and_untracked_changes() {
    let config = resolve(cli_with_key_and_model(), FileConfig::default()).unwrap();

    assert!(config.prompt.contains("Conventional Commits"));
    assert!(config.prompt.contains("fix: handle empty response"));
    assert_eq!(config.endpoint, DEFAULT_ENDPOINT);
    assert_eq!(config.effort, None);
    assert_eq!(config.diff_command, DEFAULT_DIFF_COMMAND);
    assert_eq!(config.staged_diff_command, DEFAULT_STAGED_DIFF_COMMAND);
    assert_eq!(config.unstaged_diff_command, DEFAULT_UNSTAGED_DIFF_COMMAND);
    assert_eq!(config.untracked_diff_command, DEFAULT_UNTRACKED_DIFF_COMMAND);
    assert_eq!(config.unstaged_files_command, DEFAULT_UNSTAGED_FILES_COMMAND);
    assert_eq!(config.untracked_files_command, DEFAULT_UNTRACKED_FILES_COMMAND);
    assert_eq!(config.include_unstaged, IncludeUnstagedMode::Ask);
    assert_eq!(config.max_input_chars, DEFAULT_MAX_INPUT_CHARS);
    assert_eq!(config.max_file_chars, DEFAULT_MAX_FILE_CHARS);
    assert!(!config.include_lockfiles);
    assert!(config.ignore_diff_paths.is_empty());
    assert!(config.stage_all);
    assert!(config.confirm);
}

#[test]
fn resolves_diff_input_budget_config() {
    let file = FileConfig {
        api_key: Some("key".to_string()),
        model: Some("model".to_string()),
        max_input_chars: Some(12_000),
        max_file_chars: Some(6_000),
        include_lockfiles: Some(true),
        ignore_diff_paths: Some(vec!["fixtures/**".to_string()]),
        ..FileConfig::default()
    };
    let cli = Cli {
        max_input_chars: Some(20_000),
        ignore_diff_path: vec!["*.snap".to_string()],
        ..Cli::default()
    };

    let config = resolve(cli, file).unwrap();

    assert_eq!(config.max_input_chars, 20_000);
    assert_eq!(config.max_file_chars, 6_000);
    assert!(config.include_lockfiles);
    assert_eq!(config.ignore_diff_paths, vec!["fixtures/**", "*.snap"]);
}

#[test]
fn rejects_too_small_diff_input_budget() {
    let cli = Cli { max_input_chars: Some(3999), ..cli_with_key_and_model() };
    let error = resolve(cli, FileConfig::default()).unwrap_err().message();
    assert!(error.contains("max_input_chars must be at least"));
}

#[test]
fn no_stage_all_overrides_everything() {
    let cli = Cli { stage_all: Some(true), no_stage_all: true, ..cli_with_key_and_model() };
    let config = resolve(cli, FileConfig::default()).unwrap();
    assert!(!config.stage_all);
}

#[test]
fn negative_commit_flags_override_file_config() {
    let file = FileConfig {
        api_key: Some("key".to_string()),
        model: Some("model".to_string()),
        dry_run: Some(true),
        commit: Some(CommitConfig {
            amend: Some(true),
            signoff: Some(true),
            skip_hooks: Some(true),
            allow_empty: Some(true),
            allow_empty_message: Some(true),
            ..CommitConfig::default()
        }),
        ..FileConfig::default()
    };
    let cli = Cli {
        no_dry_run: true,
        no_amend: true,
        no_signoff: true,
        verify: true,
        no_allow_empty: true,
        no_allow_empty_message: true,
        ..Cli::default()
    };

    let config = resolve(cli, file).unwrap();

    assert!(!config.dry_run);
    assert!(!config.commit.amend);
    assert!(!config.commit.signoff);
    assert!(!config.commit.skip_hooks);
    assert!(!config.commit.allow_empty);
    assert!(!config.commit.allow_empty_message);
}

#[test]
fn legacy_diff_command_is_used_as_staged_diff_command_fallback() {
    let cli = Cli {
        diff_command: Some("git diff --cached --name-only".to_string()),
        ..cli_with_key_and_model()
    };
    let config = resolve(cli, FileConfig::default()).unwrap();
    assert_eq!(config.diff_command, "git diff --cached --name-only");
    assert_eq!(config.staged_diff_command, "git diff --cached --name-only");
}

#[test]
fn missing_key_and_model_are_reported_with_the_config_path() {
    let error = resolve_config(Cli::default(), FileConfig::default(), None, "/home/u/config.toml", None)
        .unwrap_err();
    assert_eq!(
        error.message(),
        "missing API key; set api_key in /home/u/config.toml, pass --api-key, or set GCG_API_KEY/OPENAI_API_KEY"
    );
    let error = resolve_config(Cli::default(), FileConfig::default(), Some("env".to_string()), "c.toml", None)
        .unwrap_err();
    assert_eq!(error.message(), "missing model; set model in c.toml, pass --model, or set GCG_MODEL");
}

#[test]
fn environment_key_is_the_last_fallback() {
    let cli = Cli { model: Some("m".to_string()), ..Cli::default() };
    let config = resolve_config(cli, FileConfig::default(), Some("env-key".to_string()), "c.toml", None).unwrap();
    assert_eq!(config.api_key, "env-key");
    assert_eq!(config.temperature_bits, DEFAULT_TEMPERATURE_BITS);
    assert_eq!(f32::from_bits(DEFAULT_TEMPERATURE_BITS), 0.2f32);
    assert_eq!(config.max_tokens, 512);
    assert_eq!(config.timeout_seconds, 120);
}

#[test]
fn prompt_file_is_read_through_the_caller() {
    let cli = Cli { prompt_file: Some("p.txt".to_string()), ..cli_with_key_and_model() };
    assert_eq!(
        resolve_prompt(cli.prompt.clone(), cli.prompt_file.clone(), None, None),
        PromptSource::File("p.txt".to_string())
    );
    let config = resolve_config(cli.clone(), FileConfig::default(), None, "c.toml", Some(Ok("custom".to_string()))).unwrap();
    assert_eq!(config.prompt, "custom");
    let error = resolve_config(cli, FileConfig::default(), None, "c.toml", Some(Err("failed to read prompt file p.txt".to_string())))
        .unwrap_err();
    assert_eq!(error.message(), "failed to read prompt file p.txt");
}

#[test]
fn char_limits_must_fit_the_chat_message() {
    assert_eq!(resolve_char_limit(None, 80_000, "max_file_chars"), Ok(80_000));
    assert_eq!(
        resolve_char_limit(Some(10_485_760), 1, "max_input_chars").unwrap_err().message(),
        "max_input_chars must be less than the chat message limit of 10485760"
    );
    assert_eq!(
        resolve_char_limit(Some(3_999), 1, "max_input_chars").unwrap_err().message(),
        "max_input_chars must be at least 4000"
    );
}

#[test]
fn effort_names_read_back() {
    for effort in [
        ReasoningEffort::Disabled,
        ReasoningEffort::Minimal,
        ReasoningEffort::Low,
        ReasoningEffort::Medium,
        ReasoningEffort::High,
        ReasoningEffort::Xhigh,
        ReasoningEffort::Max,
    ] {
        assert_eq!(ReasoningEffort::parse(effort.as_str()), Some(effort));
    }
    assert_eq!(ReasoningEffort::Disabled.as_str(), "none");
    assert_eq!(resolve_effort(Some("  Medium ".to_string())), Some(ReasoningEffort::Medium));
    assert_eq!(resolve_effort(None), None);
}

#[test]
fn effort_levels_ignore_ascii_case() {
    for value in ["max", " Max ", "MAX", "xHigh", "none", "turbo"] {
        assert_eq!(ReasoningEffort::parse(value), ReasoningEffort::parse(&value.trim().to_ascii_uppercase()));
    }
    assert_eq!(ReasoningEffort::parse(" MEDIUM\n"), Some(ReasoningEffort::Medium));
}
