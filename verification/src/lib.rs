//! Devlog: the verified core of an ambient developer journal.
//!
//! The daemon records developer activity (commits, file changes, shell
//! commands) as events; the command line tool turns today's events into a
//! report that a language model summarises into a standup note. This crate
//! holds the logic of both: reading git's output, keying and storing
//! events, building the reports, and handling the API key and the
//! post-commit hook.
pub mod apikey;
pub mod clock;
pub mod context;
pub mod diagnostics;
pub mod event;
pub mod git;
pub mod json;
pub mod llm;
pub mod payload;
pub mod quoting;
pub mod setup;
pub mod standup;
pub mod text;
