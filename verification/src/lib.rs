//! A small command shell's parsing core: a quote-aware tokenizer, the typed
//! command model with its per-kind rules, and the decisions behind running a
//! command. Input and output are left to the caller.

pub mod listing;
pub mod parse_command;
pub mod text;

pub use parse_command::{ArgumentCount, Command, CommandError, CommandType};
