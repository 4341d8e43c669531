//! Core logic of a small interactive shell: the command-line tokenizer,
//! pipeline splitting, command resolution, shell variables, job table,
//! output redirection and completion helpers.

pub mod text;
pub mod parser;
pub mod env_custom;
pub mod redirect;
pub mod jobs;
pub mod builtins;
pub mod offsets;
pub mod readline;
