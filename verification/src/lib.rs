//! Verified core of a small Unix shell and of the text-processing tasks that
//! go with it: command-line parsing, command history, run planning, word
//! filtering of lines, sudoku checking and merge sorting.
pub mod text;
pub mod command;
pub mod lsh_parser;
pub mod history;
pub mod ui;
pub mod kernel;
pub mod runner;
pub mod ipc;
pub mod multi_thread;
pub mod text_roundtrip;
