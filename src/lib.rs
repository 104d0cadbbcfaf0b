//! The command-execution engine of a line-oriented shell: it turns an input
//! line into stages, sorts out their redirections, plans how each stage's
//! standard streams are wired, and keeps the history and the background jobs.
pub mod builtin;
pub mod command;
pub mod history;
pub mod jobs;
pub mod lexer;
pub mod plan;
pub mod redirect;
pub mod shell;
