//! Commit message generation: diff preparation, file selection, commit
//! argument building, configuration merging and chat response decoding.

pub mod text;
pub mod shell;
pub mod diff;
pub mod commit;
pub mod config;
pub mod changes;
pub mod json;
pub mod reply;
pub mod llm;
pub mod git;
