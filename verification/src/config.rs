//! Configuration: the defaults, the reasoning effort levels, and how the
//! command line and the configuration file are merged.

use vstd::prelude::*;
use crate::commit::{CleanupMode, CommitOptions, opt_str};
use crate::text::{append_chars, ascii_uppercase, lemma_upper_then_lower, ascii_lowercase, ascii_lowercase_chars, chars_equal, chars_of, decimal, push_decimal, string_of, trim, trim_chars};

verus! {

pub const DEFAULT_BASE_URL: &'static str = "https://api.openai.com/v1";

pub const DEFAULT_ENDPOINT: &'static str = "/v1/chat/completions";

pub const DEFAULT_STAGED_DIFF_COMMAND: &'static str =
    "git diff --cached --stat && git diff --cached --binary --find-renames";

pub const DEFAULT_UNSTAGED_DIFF_COMMAND: &'static str = "git diff --stat && git diff --binary --find-renames";

pub const DEFAULT_UNTRACKED_DIFF_COMMAND: &'static str = "git ls-files --others --exclude-standard | while IFS= read -r file; do printf '\\nUntracked file: %s\\n' \"$file\"; git diff --no-index -- /dev/null \"$file\" || true; done";

pub const DEFAULT_UNSTAGED_FILES_COMMAND: &'static str = "git diff --name-only";

pub const DEFAULT_UNTRACKED_FILES_COMMAND: &'static str = "git ls-files --others --exclude-standard";

/// The legacy diff command defaults to the staged diff command.
pub const DEFAULT_DIFF_COMMAND: &'static str =
    "git diff --cached --stat && git diff --cached --binary --find-renames";

pub const DEFAULT_PROMPT: &'static str = "Generate a clear commit message in English based only on the provided diff.\n\nUse Conventional Commits format for the subject when appropriate, such as \"feat:\",\n\"fix:\", \"docs:\", \"style:\", \"refactor:\", \"test:\", \"chore:\", or \"perf:\".\nWrite the subject in the imperative mood, for example \"fix: handle empty response\".\nKeep the subject concise, preferably under 100 characters.\n\nAfter the subject, add a blank line and include a brief body when the diff contains\nmeaningful details, multiple changes, or behavior changes. The body should explain\nwhat changed and why, using 1-3 concise bullet points or short sentences.\n\nDo not simply repeat the subject. Do not use personal pronouns such as \"I\" or\n\"we\". Do not end the subject with a period. Avoid vague messages like \"update\ncode\", \"fix bug\", or \"misc changes\". Return only the commit message, without\nMarkdown fences or commentary.";

pub const DEFAULT_MAX_INPUT_CHARS: usize = 500000;

pub const DEFAULT_MAX_FILE_CHARS: usize = 80000;

/// The size, in characters, above which a gateway rejects one chat message.
pub const CHAT_MESSAGE_CHAR_LIMIT: usize = 10485760;

/// The smallest accepted diff input budget.
pub const MIN_DIFF_BUDGET_CHARS: usize = 4000;

/// Whether unstaged and untracked files join the commit message input.
#[derive(Clone, Copy, Debug, PartialEq, Eq)]
pub enum IncludeUnstagedMode {
    Ask,
    Always,
    Never,
}

/// The `reasoning_effort` levels a chat request may carry.
#[derive(Clone, Copy, Debug, PartialEq, Eq)]
pub enum ReasoningEffort {
    Disabled,
    Minimal,
    Low,
    Medium,
    High,
    Xhigh,
    Max,
}

/// The resolved configuration of one run. The sampling temperature is held as
/// the bit pattern of its `f32` value.
#[derive(Clone, Debug, PartialEq)]
pub struct AppConfig {
    pub api_key: String,
    pub base_url: String,
    pub endpoint: String,
    pub model: String,
    pub effort: Option<ReasoningEffort>,
    pub prompt: String,
    pub diff_command: String,
    pub staged_diff_command: String,
    pub unstaged_diff_command: String,
    pub untracked_diff_command: String,
    pub unstaged_files_command: String,
    pub untracked_files_command: String,
    pub include_unstaged: IncludeUnstagedMode,
    pub max_input_chars: usize,
    pub max_file_chars: usize,
    pub include_lockfiles: bool,
    pub ignore_diff_paths: Vec<String>,
    pub temperature_bits: u32,
    pub max_tokens: u32,
    pub timeout_seconds: u64,
    pub proxy: Option<String>,
    pub headers: Vec<String>,
    pub stage_all: bool,
    pub confirm: bool,
    pub assume_yes: bool,
    pub dry_run: bool,
    pub commit: CommitOptions,
}


/// The temperature used when none is configured: the bit pattern of `0.2f32`.
pub const DEFAULT_TEMPERATURE_BITS: u32 = 0x3e4ccccd;

pub const DEFAULT_MAX_TOKENS: u32 = 512;

pub const DEFAULT_TIMEOUT_SECONDS: u64 = 120;

impl ReasoningEffort {
    /// The value of the `reasoning_effort` request field.
    pub open spec fn name(self) -> Seq<char> {
        match self {
            ReasoningEffort::Disabled => "none"@,
            ReasoningEffort::Minimal => "minimal"@,
            ReasoningEffort::Low => "low"@,
            ReasoningEffort::Medium => "medium"@,
            ReasoningEffort::High => "high"@,
            ReasoningEffort::Xhigh => "xhigh"@,
            ReasoningEffort::Max => "max"@,
        }
    }

    pub fn as_str(self) -> (r: &'static str)
        ensures
            r@ == self.name(),
    {
        match self {
            ReasoningEffort::Disabled => "none",
            ReasoningEffort::Minimal => "minimal",
            ReasoningEffort::Low => "low",
            ReasoningEffort::Medium => "medium",
            ReasoningEffort::High => "high",
            ReasoningEffort::Xhigh => "xhigh",
            ReasoningEffort::Max => "max",
        }
    }

    /// The level a configured value names, read trimmed and ASCII
    /// lower-cased.
    pub open spec fn parsed(value: Seq<char>) -> Option<ReasoningEffort> {
        let v = ascii_lowercase(trim(value));
        if v == "none"@ {
            Some(ReasoningEffort::Disabled)
        } else if v == "minimal"@ {
            Some(ReasoningEffort::Minimal)
        } else if v == "low"@ {
            Some(ReasoningEffort::Low)
        } else if v == "medium"@ {
            Some(ReasoningEffort::Medium)
        } else if v == "high"@ {
            Some(ReasoningEffort::High)
        } else if v == "xhigh"@ {
            Some(ReasoningEffort::Xhigh)
        } else if v == "max"@ {
            Some(ReasoningEffort::Max)
        } else {
            None
        }
    }

    pub fn parse(value: &str) -> (r: Option<ReasoningEffort>)
        ensures
            r == ReasoningEffort::parsed(value@),
    {
        let text = chars_of(value);
        let v = ascii_lowercase_chars(trim_chars(text.as_slice()).as_slice());
        if chars_equal(v.as_slice(), chars_of("none").as_slice()) {
            Some(ReasoningEffort::Disabled)
        } else if chars_equal(v.as_slice(), chars_of("minimal").as_slice()) {
            Some(ReasoningEffort::Minimal)
        } else if chars_equal(v.as_slice(), chars_of("low").as_slice()) {
            Some(ReasoningEffort::Low)
        } else if chars_equal(v.as_slice(), chars_of("medium").as_slice()) {
            Some(ReasoningEffort::Medium)
        } else if chars_equal(v.as_slice(), chars_of("high").as_slice()) {
            Some(ReasoningEffort::High)
        } else if chars_equal(v.as_slice(), chars_of("xhigh").as_slice()) {
            Some(ReasoningEffort::Xhigh)
        } else if chars_equal(v.as_slice(), chars_of("max").as_slice()) {
            Some(ReasoningEffort::Max)
        } else {
            None
        }
    }

    /// The supported values, for messages.
    pub fn values() -> (r: &'static str)
        ensures
            r@ == "none, minimal, low, medium, high, xhigh, max"@,
    {
        "none, minimal, low, medium, high, xhigh, max"
    }
}

/// The effort level of a configured value; an unknown value gives none (the
/// request then omits the field).
pub fn resolve_effort(value: Option<String>) -> (r: Option<ReasoningEffort>)
    ensures
        r == match value {
            Some(v) => ReasoningEffort::parsed(v@),
            None => None,
        },
{
    match value {
        Some(v) => ReasoningEffort::parse(v.as_str()),
        None => None,
    }
}

/// The first present value.
pub fn first_some<T>(left: Option<T>, right: Option<T>) -> (r: Option<T>)
    ensures
        r == match left {
            Some(_) => left,
            None => right,
        },
{
    match left {
        Some(v) => Some(v),
        None => right,
    }
}

/// A pair of opposite flags: the one given alone wins; otherwise (neither or
/// both) the fallback holds.
pub open spec fn bool_flag(enable: bool, disable: bool, fallback: bool) -> bool {
    if enable && !disable {
        true
    } else if !enable && disable {
        false
    } else {
        fallback
    }
}

pub fn resolve_bool_flag(enable: bool, disable: bool, fallback: bool) -> (r: bool)
    ensures
        r == bool_flag(enable, disable, fallback),
{
    match (enable, disable) {
        (true, false) => true,
        (false, true) => false,
        _ => fallback,
    }
}

/// The file's values followed by the command line's.
pub fn merge_vec<T>(file_values: Vec<T>, cli_values: Vec<T>) -> (r: Vec<T>)
    ensures
        r@ == file_values@ + cli_values@,
{
    let mut file_values = file_values;
    let mut cli_values = cli_values;
    file_values.append(&mut cli_values);
    file_values
}

/// Why a configuration was refused.
#[derive(Clone, Debug, PartialEq, Eq)]
pub enum ConfigError {
    MissingApiKey { config_path: String },
    MissingModel { config_path: String },
    PromptUnreadable { message: String },
    CharLimitTooSmall { name: String },
    CharLimitTooLarge { name: String },
}

/// A character budget, checked against the accepted range.
pub open spec fn char_limit(value: Option<usize>, fallback: usize, name: Seq<char>) -> Result<usize, ConfigErrorKind> {
    let v = match value {
        Some(x) => x,
        None => fallback,
    };
    if v < MIN_DIFF_BUDGET_CHARS {
        Err(ConfigErrorKind::CharLimitTooSmall(name))
    } else if v >= CHAT_MESSAGE_CHAR_LIMIT {
        Err(ConfigErrorKind::CharLimitTooLarge(name))
    } else {
        Ok(v)
    }
}

/// A refused configuration as a plain value.
pub enum ConfigErrorKind {
    MissingApiKey(Seq<char>),
    MissingModel(Seq<char>),
    PromptUnreadable(Seq<char>),
    CharLimitTooSmall(Seq<char>),
    CharLimitTooLarge(Seq<char>),
}

impl View for ConfigError {
    type V = ConfigErrorKind;

    open spec fn view(&self) -> ConfigErrorKind {
        match self {
            ConfigError::MissingApiKey { config_path } => ConfigErrorKind::MissingApiKey(config_path@),
            ConfigError::MissingModel { config_path } => ConfigErrorKind::MissingModel(config_path@),
            ConfigError::PromptUnreadable { message } => ConfigErrorKind::PromptUnreadable(message@),
            ConfigError::CharLimitTooSmall { name } => ConfigErrorKind::CharLimitTooSmall(name@),
            ConfigError::CharLimitTooLarge { name } => ConfigErrorKind::CharLimitTooLarge(name@),
        }
    }
}

impl ConfigError {
    /// The message that reports the error.
    pub open spec fn text(self) -> Seq<char> {
        match self@ {
            ConfigErrorKind::MissingApiKey(p) => "missing API key; set api_key in "@ + p
                + ", pass --api-key, or set GCG_API_KEY/OPENAI_API_KEY"@,
            ConfigErrorKind::MissingModel(p) => "missing model; set model in "@ + p
                + ", pass --model, or set GCG_MODEL"@,
            ConfigErrorKind::PromptUnreadable(m) => m,
            ConfigErrorKind::CharLimitTooSmall(n) => n + " must be at least "@ + decimal(MIN_DIFF_BUDGET_CHARS as nat),
            ConfigErrorKind::CharLimitTooLarge(n) => n + " must be less than the chat message limit of "@
                + decimal(CHAT_MESSAGE_CHAR_LIMIT as nat),
        }
    }

    pub fn message(&self) -> (m: String)
        ensures
            m@ == self.text(),
    {
        let mut m: Vec<char> = Vec::new();
        match self {
            ConfigError::MissingApiKey { config_path } => {
                append_chars(&mut m, chars_of("missing API key; set api_key in ").as_slice());
                append_chars(&mut m, chars_of(config_path.as_str()).as_slice());
                append_chars(&mut m, chars_of(", pass --api-key, or set GCG_API_KEY/OPENAI_API_KEY").as_slice());
            },
            ConfigError::MissingModel { config_path } => {
                append_chars(&mut m, chars_of("missing model; set model in ").as_slice());
                append_chars(&mut m, chars_of(config_path.as_str()).as_slice());
                append_chars(&mut m, chars_of(", pass --model, or set GCG_MODEL").as_slice());
            },
            ConfigError::PromptUnreadable { message } => {
                append_chars(&mut m, chars_of(message.as_str()).as_slice());
            },
            ConfigError::CharLimitTooSmall { name } => {
                append_chars(&mut m, chars_of(name.as_str()).as_slice());
                append_chars(&mut m, chars_of(" must be at least ").as_slice());
                push_decimal(&mut m, MIN_DIFF_BUDGET_CHARS);
            },
            ConfigError::CharLimitTooLarge { name } => {
                append_chars(&mut m, chars_of(name.as_str()).as_slice());
                append_chars(&mut m, chars_of(" must be less than the chat message limit of ").as_slice());
                push_decimal(&mut m, CHAT_MESSAGE_CHAR_LIMIT);
            },
        }
        string_of(m.as_slice())
    }
}

pub fn resolve_char_limit(value: Option<usize>, fallback: usize, name: &str) -> (r: Result<usize, ConfigError>)
    ensures
        match char_limit(value, fallback, name@) {
            Ok(v) => r == Ok::<usize, ConfigError>(v),
            Err(e) => r matches Err(x) && x@ == e,
        },
{
    let value: usize = match value {
        Some(x) => x,
        None => fallback,
    };
    if value < MIN_DIFF_BUDGET_CHARS {
        return Err(ConfigError::CharLimitTooSmall { name: name.to_string() });
    }
    if value >= CHAT_MESSAGE_CHAR_LIMIT {
        return Err(ConfigError::CharLimitTooLarge { name: name.to_string() });
    }
    Ok(value)
}


/// The command-line options, as plain values. The temperature is held as
/// the bit pattern of its `f32` value and paths as text.
#[derive(Clone, Debug, Default, PartialEq)]
pub struct Cli {
    pub config: Option<String>,
    pub api_key: Option<String>,
    pub base_url: Option<String>,
    pub endpoint: Option<String>,
    pub model: Option<String>,
    pub effort: Option<String>,
    pub prompt: Option<String>,
    pub prompt_file: Option<String>,
    pub diff_command: Option<String>,
    pub staged_diff_command: Option<String>,
    pub unstaged_diff_command: Option<String>,
    pub untracked_diff_command: Option<String>,
    pub unstaged_files_command: Option<String>,
    pub untracked_files_command: Option<String>,
    pub include_unstaged: Option<IncludeUnstagedMode>,
    pub max_input_chars: Option<usize>,
    pub max_file_chars: Option<usize>,
    pub include_lockfiles: Option<bool>,
    pub ignore_diff_path: Vec<String>,
    pub temperature_bits: Option<u32>,
    pub max_tokens: Option<u32>,
    pub timeout_seconds: Option<u64>,
    pub proxy: Option<String>,
    pub header: Vec<String>,
    pub stage_all: Option<bool>,
    pub no_stage_all: bool,
    pub confirm: Option<bool>,
    pub yes: bool,
    pub dry_run: bool,
    pub no_dry_run: bool,
    pub amend: bool,
    pub no_amend: bool,
    pub signoff: bool,
    pub no_signoff: bool,
    pub skip_hooks: bool,
    pub verify: bool,
    pub allow_empty: bool,
    pub no_allow_empty: bool,
    pub allow_empty_message: bool,
    pub no_allow_empty_message: bool,
    pub author: Option<String>,
    pub date: Option<String>,
    pub cleanup: Option<CleanupMode>,
    pub gpg_sign: Option<Option<String>>,
    pub commit_arg: Vec<String>,
}

/// The `[commit]` table of the configuration file.
#[derive(Clone, Debug, Default, PartialEq)]
pub struct CommitConfig {
    pub amend: Option<bool>,
    pub signoff: Option<bool>,
    pub skip_hooks: Option<bool>,
    pub allow_empty: Option<bool>,
    pub allow_empty_message: Option<bool>,
    pub author: Option<String>,
    pub date: Option<String>,
    pub cleanup: Option<CleanupMode>,
    pub gpg_sign: Option<Option<String>>,
    pub args: Option<Vec<String>>,
}

/// The configuration file's values. A non-text `effort` value is held as
/// its text, the temperature as the bit pattern of its `f32` value.
#[derive(Clone, Debug, Default, PartialEq)]
pub struct FileConfig {
    pub api_key: Option<String>,
    pub base_url: Option<String>,
    pub endpoint: Option<String>,
    pub model: Option<String>,
    pub effort: Option<String>,
    pub prompt: Option<String>,
    pub prompt_file: Option<String>,
    pub diff_command: Option<String>,
    pub staged_diff_command: Option<String>,
    pub unstaged_diff_command: Option<String>,
    pub untracked_diff_command: Option<String>,
    pub unstaged_files_command: Option<String>,
    pub untracked_files_command: Option<String>,
    pub include_unstaged: Option<IncludeUnstagedMode>,
    pub max_input_chars: Option<usize>,
    pub max_file_chars: Option<usize>,
    pub include_lockfiles: Option<bool>,
    pub ignore_diff_paths: Option<Vec<String>>,
    pub temperature_bits: Option<u32>,
    pub max_tokens: Option<u32>,
    pub timeout_seconds: Option<u64>,
    pub proxy: Option<String>,
    pub headers: Option<Vec<String>>,
    pub stage_all: Option<bool>,
    pub confirm: Option<bool>,
    pub dry_run: Option<bool>,
    pub commit: Option<CommitConfig>,
}

/// Where the prompt comes from.
#[derive(Clone, Debug, PartialEq, Eq)]
pub enum PromptSource {
    Text(String),
    File(String),
    Default,
}

/// The first present value.
pub open spec fn first_of<T>(a: Option<T>, b: Option<T>) -> Option<T> {
    match a {
        Some(_) => a,
        None => b,
    }
}

/// The prompt source: the command line's prompt, then its prompt file, then
/// the file's prompt, then the file's prompt file, then the built-in one.
pub open spec fn prompt_source(cli_prompt: Option<String>, cli_prompt_file: Option<String>, file_prompt: Option<String>, file_prompt_file: Option<String>) -> PromptSource {
    match cli_prompt {
        Some(p) => PromptSource::Text(p),
        None => match cli_prompt_file {
            Some(f) => PromptSource::File(f),
            None => match file_prompt {
                Some(p) => PromptSource::Text(p),
                None => match file_prompt_file {
                    Some(f) => PromptSource::File(f),
                    None => PromptSource::Default,
                },
            },
        },
    }
}

pub fn resolve_prompt(cli_prompt: Option<String>, cli_prompt_file: Option<String>, file_prompt: Option<String>, file_prompt_file: Option<String>) -> (r: PromptSource)
    ensures
        r == prompt_source(cli_prompt, cli_prompt_file, file_prompt, file_prompt_file),
{
    if let Some(p) = cli_prompt {
        return PromptSource::Text(p);
    }
    if let Some(f) = cli_prompt_file {
        return PromptSource::File(f);
    }
    if let Some(p) = file_prompt {
        return PromptSource::Text(p);
    }
    if let Some(f) = file_prompt_file {
        return PromptSource::File(f);
    }
    PromptSource::Default
}

/// The prompt from its source; a prompt file's contents come in as `read`,
/// its failure to be read as an error message.
pub open spec fn prompt_value(source: PromptSource, read: Option<Result<String, String>>) -> Result<Seq<char>, Seq<char>> {
    match source {
        PromptSource::Text(t) => Ok(t@),
        PromptSource::Default => Ok(DEFAULT_PROMPT@),
        PromptSource::File(f) => match read {
            Some(Ok(c)) => Ok(c@),
            Some(Err(m)) => Err(m@),
            None => Err("failed to read prompt file "@ + f@),
        },
    }
}

/// The reason a configuration is refused, checked in this order: no API
/// key, no model, an unreadable prompt, an input budget out of range, a
/// per-file budget out of range.
pub open spec fn config_error(cli: Cli, file: FileConfig, env_api_key: Option<String>, config_path: Seq<char>, prompt_read: Option<Result<String, String>>) -> Option<ConfigErrorKind> {
    let prompt = prompt_value(prompt_source(cli.prompt, cli.prompt_file, file.prompt, file.prompt_file), prompt_read);
    if first_of(first_of(cli.api_key, file.api_key), env_api_key) is None {
        Some(ConfigErrorKind::MissingApiKey(config_path))
    } else if first_of(cli.model, file.model) is None {
        Some(ConfigErrorKind::MissingModel(config_path))
    } else if prompt is Err {
        Some(ConfigErrorKind::PromptUnreadable(prompt->Err_0))
    } else if char_limit(first_of(cli.max_input_chars, file.max_input_chars), DEFAULT_MAX_INPUT_CHARS, "max_input_chars"@) is Err {
        Some(char_limit(first_of(cli.max_input_chars, file.max_input_chars), DEFAULT_MAX_INPUT_CHARS, "max_input_chars"@)->Err_0)
    } else if char_limit(first_of(cli.max_file_chars, file.max_file_chars), DEFAULT_MAX_FILE_CHARS, "max_file_chars"@) is Err {
        Some(char_limit(first_of(cli.max_file_chars, file.max_file_chars), DEFAULT_MAX_FILE_CHARS, "max_file_chars"@)->Err_0)
    } else {
        None
    }
}

/// The text of a value, or of a default when it is absent.
pub open spec fn text_or(o: Option<String>, default: Seq<char>) -> Seq<char> {
    match o {
        Some(s) => s@,
        None => default,
    }
}

pub open spec fn strings_or_empty(o: Option<Vec<String>>) -> Seq<Seq<char>> {
    match o {
        Some(v) => v.deep_view(),
        None => Seq::empty(),
    }
}

pub open spec fn value_or<T>(o: Option<T>, default: T) -> T {
    match o {
        Some(x) => x,
        None => default,
    }
}

fn text_or_default(o: Option<String>, default: &str) -> (r: String)
    ensures
        r@ == text_or(o, default@),
{
    match o {
        Some(s) => s,
        None => default.to_string(),
    }
}

fn strings_or_new(o: Option<Vec<String>>) -> (r: Vec<String>)
    ensures
        r.deep_view() == strings_or_empty(o),
{
    match o {
        Some(v) => v,
        None => {
            let v: Vec<String> = Vec::new();
            assert(v.deep_view() =~~= Seq::<Seq<char>>::empty());
            v
        },
    }
}

/// The commit options: a command-line flag or its negation wins over the
/// file's `[commit]` value, command-line values win over the file's, and raw
/// arguments are the file's followed by the command line's.
pub open spec fn commit_options_ok(c: CommitOptions, cli: Cli, commit: CommitConfig) -> bool {
    &&& c.amend == bool_flag(cli.amend, cli.no_amend, value_or(commit.amend, false))
    &&& c.signoff == bool_flag(cli.signoff, cli.no_signoff, value_or(commit.signoff, false))
    &&& c.skip_hooks == bool_flag(cli.skip_hooks, cli.verify, value_or(commit.skip_hooks, false))
    &&& c.allow_empty == bool_flag(cli.allow_empty, cli.no_allow_empty, value_or(commit.allow_empty, false))
    &&& c.allow_empty_message == bool_flag(cli.allow_empty_message, cli.no_allow_empty_message, value_or(commit.allow_empty_message, false))
    &&& c.author == first_of(cli.author, commit.author)
    &&& c.date == first_of(cli.date, commit.date)
    &&& c.cleanup == first_of(cli.cleanup, commit.cleanup)
    &&& c.gpg_sign == first_of(cli.gpg_sign, commit.gpg_sign)
    &&& c.args.deep_view() == strings_or_empty(commit.args) + cli.commit_arg.deep_view()
}

fn resolve_commit_options(cli: &Cli, commit: CommitConfig) -> (c: CommitOptions)
    ensures
        commit_options_ok(c, *cli, commit),
{
    let ghost commit0 = commit;
    let CommitConfig { amend, signoff, skip_hooks, allow_empty, allow_empty_message, author, date, cleanup, gpg_sign, args } = commit;
    let file_args = strings_or_new(args);
    let merged = merge_vec(file_args, cli.commit_arg.clone());
    assert(merged.deep_view() =~~= strings_or_empty(commit0.args) + cli.commit_arg.deep_view());
    CommitOptions {
        amend: resolve_bool_flag(cli.amend, cli.no_amend, amend.unwrap_or(false)),
        signoff: resolve_bool_flag(cli.signoff, cli.no_signoff, signoff.unwrap_or(false)),
        skip_hooks: resolve_bool_flag(cli.skip_hooks, cli.verify, skip_hooks.unwrap_or(false)),
        allow_empty: resolve_bool_flag(cli.allow_empty, cli.no_allow_empty, allow_empty.unwrap_or(false)),
        allow_empty_message: resolve_bool_flag(cli.allow_empty_message, cli.no_allow_empty_message, allow_empty_message.unwrap_or(false)),
        author: first_some(cli.author.clone(), author),
        date: first_some(cli.date.clone(), date),
        cleanup: first_some(cli.cleanup, cleanup),
        gpg_sign: first_some(cli.gpg_sign.clone(), gpg_sign),
        args: merged,
    }
}


/// The resolved configuration's fields, given that no error applies:
/// command-line values win over the file's, then the environment's API key,
/// then the defaults; list values are the file's followed by the command
/// line's; the legacy diff command stands in for a missing staged diff
/// command.
pub open spec fn config_ok(c: AppConfig, cli: Cli, file: FileConfig, env_api_key: Option<String>, prompt_read: Option<Result<String, String>>) -> bool {
    let legacy = first_of(cli.diff_command, file.diff_command);
    &&& c.api_key == first_of(first_of(cli.api_key, file.api_key), env_api_key)->Some_0
    &&& c.base_url@ == text_or(first_of(cli.base_url, file.base_url), DEFAULT_BASE_URL@)
    &&& c.endpoint@ == text_or(first_of(cli.endpoint, file.endpoint), DEFAULT_ENDPOINT@)
    &&& c.model == first_of(cli.model, file.model)->Some_0
    &&& c.effort == match first_of(cli.effort, file.effort) {
        Some(v) => ReasoningEffort::parsed(v@),
        None => None,
    }
    &&& c.prompt@ == prompt_value(prompt_source(cli.prompt, cli.prompt_file, file.prompt, file.prompt_file), prompt_read)->Ok_0
    &&& c.diff_command@ == text_or(legacy, DEFAULT_DIFF_COMMAND@)
    &&& c.staged_diff_command@ == text_or(first_of(first_of(cli.staged_diff_command, file.staged_diff_command), legacy), DEFAULT_STAGED_DIFF_COMMAND@)
    &&& c.unstaged_diff_command@ == text_or(first_of(cli.unstaged_diff_command, file.unstaged_diff_command), DEFAULT_UNSTAGED_DIFF_COMMAND@)
    &&& c.untracked_diff_command@ == text_or(first_of(cli.untracked_diff_command, file.untracked_diff_command), DEFAULT_UNTRACKED_DIFF_COMMAND@)
    &&& c.unstaged_files_command@ == text_or(first_of(cli.unstaged_files_command, file.unstaged_files_command), DEFAULT_UNSTAGED_FILES_COMMAND@)
    &&& c.untracked_files_command@ == text_or(first_of(cli.untracked_files_command, file.untracked_files_command), DEFAULT_UNTRACKED_FILES_COMMAND@)
    &&& c.include_unstaged == value_or(first_of(cli.include_unstaged, file.include_unstaged), IncludeUnstagedMode::Ask)
    &&& c.max_input_chars == value_or(first_of(cli.max_input_chars, file.max_input_chars), DEFAULT_MAX_INPUT_CHARS)
    &&& c.max_file_chars == value_or(first_of(cli.max_file_chars, file.max_file_chars), DEFAULT_MAX_FILE_CHARS)
    &&& c.include_lockfiles == value_or(first_of(cli.include_lockfiles, file.include_lockfiles), false)
    &&& c.ignore_diff_paths.deep_view() == strings_or_empty(file.ignore_diff_paths) + cli.ignore_diff_path.deep_view()
    &&& c.temperature_bits == value_or(first_of(cli.temperature_bits, file.temperature_bits), DEFAULT_TEMPERATURE_BITS)
    &&& c.max_tokens == value_or(first_of(cli.max_tokens, file.max_tokens), DEFAULT_MAX_TOKENS)
    &&& c.timeout_seconds == value_or(first_of(cli.timeout_seconds, file.timeout_seconds), DEFAULT_TIMEOUT_SECONDS)
    &&& c.proxy == first_of(cli.proxy, file.proxy)
    &&& c.headers.deep_view() == strings_or_empty(file.headers) + cli.header.deep_view()
    &&& c.stage_all == (!cli.no_stage_all && value_or(first_of(cli.stage_all, file.stage_all), true))
    &&& c.confirm == (!cli.yes && value_or(first_of(cli.confirm, file.confirm), true))
    &&& c.assume_yes == cli.yes
    &&& c.dry_run == bool_flag(cli.dry_run, cli.no_dry_run, value_or(file.dry_run, false))
    &&& commit_options_ok(c.commit, cli, value_or(file.commit, CommitConfig {
        amend: None,
        signoff: None,
        skip_hooks: None,
        allow_empty: None,
        allow_empty_message: None,
        author: None,
        date: None,
        cleanup: None,
        gpg_sign: None,
        args: None,
    }))
}

fn empty_commit_config() -> (c: CommitConfig)
    ensures
        c == (CommitConfig {
            amend: None,
            signoff: None,
            skip_hooks: None,
            allow_empty: None,
            allow_empty_message: None,
            author: None,
            date: None,
            cleanup: None,
            gpg_sign: None,
            args: None,
        }),
{
    CommitConfig {
        amend: None,
        signoff: None,
        skip_hooks: None,
        allow_empty: None,
        allow_empty_message: None,
        author: None,
        date: None,
        cleanup: None,
        gpg_sign: None,
        args: None,
    }
}

/// Merges the command line, the configuration file and the environment's
/// API key into the run's configuration. `config_path` names the file in
/// messages; `prompt_read` is the content of the prompt file that
/// `resolve_prompt` chose, when it chose one.
pub fn resolve_config(
    cli: Cli,
    file: FileConfig,
    env_api_key: Option<String>,
    config_path: &str,
    prompt_read: Option<Result<String, String>>,
) -> (r: Result<AppConfig, ConfigError>)
    ensures
        match config_error(cli, file, env_api_key, config_path@, prompt_read) {
            Some(e) => r matches Err(x) && x@ == e,
            None => r matches Ok(c) && config_ok(c, cli, file, env_api_key, prompt_read),
        },
{
    let ghost cli0 = cli;
    let ghost file0 = file;
    let api_key = match first_some(first_some(cli.api_key.clone(), file.api_key.clone()), env_api_key) {
        Some(k) => k,
        None => return Err(ConfigError::MissingApiKey { config_path: config_path.to_string() }),
    };
    let model = match first_some(cli.model.clone(), file.model.clone()) {
        Some(m) => m,
        None => return Err(ConfigError::MissingModel { config_path: config_path.to_string() }),
    };
    let source = resolve_prompt(cli.prompt.clone(), cli.prompt_file.clone(), file.prompt.clone(), file.prompt_file.clone());
    let prompt: String = match source {
        PromptSource::Text(t) => t,
        PromptSource::Default => DEFAULT_PROMPT.to_string(),
        PromptSource::File(f) => match prompt_read {
            Some(Ok(c)) => c,
            Some(Err(m)) => return Err(ConfigError::PromptUnreadable { message: m }),
            None => {
                let mut m = chars_of("failed to read prompt file ");
                append_chars(&mut m, chars_of(f.as_str()).as_slice());
                return Err(ConfigError::PromptUnreadable { message: string_of(m.as_slice()) });
            },
        },
    };
    let max_input_chars = match resolve_char_limit(first_some(cli.max_input_chars, file.max_input_chars), DEFAULT_MAX_INPUT_CHARS, "max_input_chars") {
        Ok(v) => v,
        Err(e) => return Err(e),
    };
    let max_file_chars = match resolve_char_limit(first_some(cli.max_file_chars, file.max_file_chars), DEFAULT_MAX_FILE_CHARS, "max_file_chars") {
        Ok(v) => v,
        Err(e) => return Err(e),
    };
    let effort = resolve_effort(first_some(cli.effort.clone(), file.effort.clone()));
    let legacy = first_some(cli.diff_command.clone(), file.diff_command.clone());
    let diff_command = text_or_default(legacy.clone(), DEFAULT_DIFF_COMMAND);
    let staged_diff_command = text_or_default(first_some(first_some(cli.staged_diff_command.clone(), file.staged_diff_command.clone()), legacy), DEFAULT_STAGED_DIFF_COMMAND);
    let unstaged_diff_command = text_or_default(first_some(cli.unstaged_diff_command.clone(), file.unstaged_diff_command.clone()), DEFAULT_UNSTAGED_DIFF_COMMAND);
    let untracked_diff_command = text_or_default(first_some(cli.untracked_diff_command.clone(), file.untracked_diff_command.clone()), DEFAULT_UNTRACKED_DIFF_COMMAND);
    let unstaged_files_command = text_or_default(first_some(cli.unstaged_files_command.clone(), file.unstaged_files_command.clone()), DEFAULT_UNSTAGED_FILES_COMMAND);
    let untracked_files_command = text_or_default(first_some(cli.untracked_files_command.clone(), file.untracked_files_command.clone()), DEFAULT_UNTRACKED_FILES_COMMAND);
    let stage_all = if cli.no_stage_all { false } else { first_some(cli.stage_all, file.stage_all).unwrap_or(true) };
    let confirm = if cli.yes { false } else { first_some(cli.confirm, file.confirm).unwrap_or(true) };
    let file_commit = file.commit;
    let commit = resolve_commit_options(&cli, match file_commit {
        Some(c) => c,
        None => empty_commit_config(),
    });
    let ignore_diff_paths = merge_vec(strings_or_new(file.ignore_diff_paths.clone()), cli.ignore_diff_path.clone());
    let headers = merge_vec(strings_or_new(file.headers.clone()), cli.header.clone());
    assert(ignore_diff_paths.deep_view() =~~= strings_or_empty(file0.ignore_diff_paths) + cli0.ignore_diff_path.deep_view());
    assert(headers.deep_view() =~~= strings_or_empty(file0.headers) + cli0.header.deep_view());
    Ok(AppConfig {
        api_key,
        base_url: text_or_default(first_some(cli.base_url.clone(), file.base_url.clone()), DEFAULT_BASE_URL),
        endpoint: text_or_default(first_some(cli.endpoint.clone(), file.endpoint.clone()), DEFAULT_ENDPOINT),
        model,
        effort,
        prompt,
        diff_command,
        staged_diff_command,
        unstaged_diff_command,
        untracked_diff_command,
        unstaged_files_command,
        untracked_files_command,
        include_unstaged: first_some(cli.include_unstaged, file.include_unstaged).unwrap_or(IncludeUnstagedMode::Ask),
        max_input_chars,
        max_file_chars,
        include_lockfiles: first_some(cli.include_lockfiles, file.include_lockfiles).unwrap_or(false),
        ignore_diff_paths,
        temperature_bits: first_some(cli.temperature_bits, file.temperature_bits).unwrap_or(DEFAULT_TEMPERATURE_BITS),
        max_tokens: first_some(cli.max_tokens, file.max_tokens).unwrap_or(DEFAULT_MAX_TOKENS),
        timeout_seconds: first_some(cli.timeout_seconds, file.timeout_seconds).unwrap_or(DEFAULT_TIMEOUT_SECONDS),
        proxy: first_some(cli.proxy.clone(), file.proxy.clone()),
        headers,
        stage_all,
        confirm,
        assume_yes: cli.yes,
        dry_run: resolve_bool_flag(cli.dry_run, cli.no_dry_run, file.dry_run.unwrap_or(false)),
        commit,
    })
}


proof fn lemma_plain_word(s: Seq<char>)
    requires
        s.len() > 0,
        forall|i: int| 0 <= i < s.len() ==> 'a' <= #[trigger] s[i] && s[i] <= 'z',
    ensures
        ascii_lowercase(trim(s)) == s,
{
    assert(!crate::text::is_ws(s[0]));
    assert(crate::text::trim_start(s) == s);
    assert(!crate::text::is_ws(s.last()));
    assert(crate::text::trim_end(s) == s);
    assert(ascii_lowercase(s) =~= s);
}

/// Every effort level is read back from its own name.
pub proof fn law_effort_name_roundtrip(e: ReasoningEffort)
    ensures
        ReasoningEffort::parsed(e.name()) == Some(e),
{
    reveal_strlit("none");
    reveal_strlit("minimal");
    reveal_strlit("low");
    reveal_strlit("medium");
    reveal_strlit("high");
    reveal_strlit("xhigh");
    reveal_strlit("max");
    lemma_plain_word(e.name());
}

/// An accepted character budget is at least the minimum and below the chat
/// message limit.
pub proof fn law_accepted_budget_in_range(value: Option<usize>, fallback: usize, name: Seq<char>)
    ensures
        char_limit(value, fallback, name) matches Ok(v) ==> MIN_DIFF_BUDGET_CHARS <= v < CHAT_MESSAGE_CHAR_LIMIT,
{
}

/// A value given on the command line wins over the configuration file's,
/// whatever the file says: the API key, the model, the URLs, the proxy, the
/// reasoning effort, the diff commands, the budgets, the sampling settings,
/// the timeout, the staging and confirmation switches and the commit
/// options. Where the command line gives no proxy, the file's is used.
pub proof fn law_command_line_overrides_file(c: AppConfig, cli: Cli, file: FileConfig, env_api_key: Option<String>, prompt_read: Option<Result<String, String>>)
    requires
        config_ok(c, cli, file, env_api_key, prompt_read),
    ensures
        cli.api_key matches Some(k) ==> c.api_key == k,
        cli.model matches Some(m) ==> c.model == m,
        cli.base_url matches Some(b) ==> c.base_url@ == b@,
        cli.endpoint matches Some(e) ==> c.endpoint@ == e@,
        cli.proxy matches Some(p) ==> c.proxy == Some(p),
        cli.proxy is None ==> c.proxy == file.proxy,
        cli.effort matches Some(v) ==> c.effort == ReasoningEffort::parsed(v@),
        cli.diff_command matches Some(d) ==> c.diff_command@ == d@,
        cli.staged_diff_command matches Some(d) ==> c.staged_diff_command@ == d@,
        cli.unstaged_diff_command matches Some(d) ==> c.unstaged_diff_command@ == d@,
        cli.untracked_diff_command matches Some(d) ==> c.untracked_diff_command@ == d@,
        cli.unstaged_files_command matches Some(d) ==> c.unstaged_files_command@ == d@,
        cli.untracked_files_command matches Some(d) ==> c.untracked_files_command@ == d@,
        cli.include_unstaged matches Some(m) ==> c.include_unstaged == m,
        cli.temperature_bits matches Some(t) ==> c.temperature_bits == t,
        cli.max_tokens matches Some(t) ==> c.max_tokens == t,
        cli.max_input_chars matches Some(n) ==> c.max_input_chars == n,
        cli.max_file_chars matches Some(n) ==> c.max_file_chars == n,
        cli.include_lockfiles matches Some(b) ==> c.include_lockfiles == b,
        cli.timeout_seconds matches Some(t) ==> c.timeout_seconds == t,
        cli.no_stage_all ==> !c.stage_all,
        cli.stage_all matches Some(b) ==> (!cli.no_stage_all ==> c.stage_all == b),
        cli.yes ==> !c.confirm && c.assume_yes,
        cli.confirm matches Some(b) ==> (!cli.yes ==> c.confirm == b),
        (cli.dry_run && !cli.no_dry_run) ==> c.dry_run,
        (cli.no_dry_run && !cli.dry_run) ==> !c.dry_run,
        (cli.amend && !cli.no_amend) ==> c.commit.amend,
        (cli.no_amend && !cli.amend) ==> !c.commit.amend,
        cli.author matches Some(a) ==> c.commit.author == Some(a),
        cli.date matches Some(d) ==> c.commit.date == Some(d),
        cli.cleanup matches Some(m) ==> c.commit.cleanup == Some(m),
        cli.gpg_sign matches Some(g) ==> c.commit.gpg_sign == Some(g),
{
}

/// Where the command line leaves a value out, the configuration file's is
/// used, then the environment's API key, then the documented defaults
/// (`500000` input characters, `80000` characters per file, lock files
/// summarized, `512` tokens, a `120` second timeout, extra files asked
/// about, no proxy); every header and every ignored path pattern given in
/// the file or on the command line is kept.
pub proof fn law_file_fills_what_command_line_leaves(c: AppConfig, cli: Cli, file: FileConfig, env_api_key: Option<String>, prompt_read: Option<Result<String, String>>)
    requires
        config_ok(c, cli, file, env_api_key, prompt_read),
    ensures
        cli.api_key is None ==> (file.api_key matches Some(k) ==> c.api_key == k),
        (cli.api_key is None && file.api_key is None) ==> (env_api_key matches Some(k) ==> c.api_key == k),
        cli.model is None ==> (file.model matches Some(m) ==> c.model == m),
        cli.base_url is None ==> (file.base_url matches Some(b) ==> c.base_url@ == b@),
        cli.endpoint is None ==> (file.endpoint matches Some(e) ==> c.endpoint@ == e@),
        cli.max_input_chars is None ==> c.max_input_chars == (match file.max_input_chars { Some(n) => n, None => 500000usize }),
        cli.max_file_chars is None ==> c.max_file_chars == (match file.max_file_chars { Some(n) => n, None => 80000usize }),
        cli.include_lockfiles is None ==> c.include_lockfiles == (match file.include_lockfiles { Some(b) => b, None => false }),
        cli.max_tokens is None ==> c.max_tokens == (match file.max_tokens { Some(n) => n, None => 512u32 }),
        cli.timeout_seconds is None ==> c.timeout_seconds == (match file.timeout_seconds { Some(n) => n, None => 120u64 }),
        cli.include_unstaged is None ==> c.include_unstaged == (match file.include_unstaged { Some(m) => m, None => IncludeUnstagedMode::Ask }),
        (cli.proxy is None && file.proxy is None) ==> c.proxy is None,
        forall|i: int| 0 <= i < cli.header.len() ==> c.headers.deep_view().contains(#[trigger] cli.header.deep_view()[i]),
        forall|i: int| 0 <= i < cli.ignore_diff_path.len() ==> c.ignore_diff_paths.deep_view().contains(#[trigger] cli.ignore_diff_path.deep_view()[i]),
        file.headers matches Some(h) ==> forall|i: int| 0 <= i < h.len() ==> c.headers.deep_view().contains(#[trigger] h.deep_view()[i]),
        file.ignore_diff_paths matches Some(h) ==> forall|i: int| 0 <= i < h.len() ==> c.ignore_diff_paths.deep_view().contains(#[trigger] h.deep_view()[i]),
{
    let fh = strings_or_empty(file.headers);
    let fi = strings_or_empty(file.ignore_diff_paths);
    assert forall|i: int| 0 <= i < cli.header.len() implies c.headers.deep_view().contains(#[trigger] cli.header.deep_view()[i]) by {
        assert(c.headers.deep_view()[fh.len() + i] == cli.header.deep_view()[i]);
    }
    assert forall|i: int| 0 <= i < cli.ignore_diff_path.len() implies c.ignore_diff_paths.deep_view().contains(#[trigger] cli.ignore_diff_path.deep_view()[i]) by {
        assert(c.ignore_diff_paths.deep_view()[fi.len() + i] == cli.ignore_diff_path.deep_view()[i]);
    }
    if let Some(h) = file.headers {
        assert(fh == h.deep_view());
        assert forall|i: int| 0 <= i < h.len() implies c.headers.deep_view().contains(#[trigger] h.deep_view()[i]) by {
            assert(c.headers.deep_view()[i] == h.deep_view()[i]);
        }
    }
    if let Some(h) = file.ignore_diff_paths {
        assert(fi == h.deep_view());
        assert forall|i: int| 0 <= i < h.len() implies c.ignore_diff_paths.deep_view().contains(#[trigger] h.deep_view()[i]) by {
            assert(c.ignore_diff_paths.deep_view()[i] == h.deep_view()[i]);
        }
    }
}

/// The effort level a value names does not depend on its ASCII case:
/// reading the upper-cased, trimmed value gives the same level.
pub proof fn law_effort_parse_ignores_case(value: Seq<char>)
    ensures
        ReasoningEffort::parsed(value) == ReasoningEffort::parsed(ascii_uppercase(trim(value))),
{
    lemma_upper_then_lower(value);
}

} // verus!
