//! A small interactive shell: command-line tokenizing, redirection parsing,
//! variable expansion, built-in commands, job bookkeeping and completion
//! candidates, each stated and proved against a mathematical model.

pub mod text;
pub mod parser;
pub mod strmap;
pub mod utils;
pub mod constants;
pub mod jobs;
pub mod complete;
pub mod builtins;
pub mod executor;
pub mod completion;
pub mod path_checker;
pub mod session;
pub mod pipeline;
