//! Verified core of a small interactive shell: argument splitting, variable
//! declarations, tab completion decisions, job bookkeeping, pipeline planning
//! and command-line redirection parsing.

pub mod text;
pub mod args;
pub mod vars;
pub mod order;
pub mod completion;
pub mod jobs;
pub mod command;
pub mod pipeline;
