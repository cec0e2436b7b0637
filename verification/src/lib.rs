//! A small interactive shell: its lexer, command parser, builtins, line
//! editor and prompt logic, each with a verified contract.

pub mod builtins;
pub mod command;
pub mod editor;
pub mod listing;
pub mod output;
pub mod parser;
pub mod prompt;
pub mod slice_tree;
