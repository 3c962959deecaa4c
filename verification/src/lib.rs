//! The logic of `jjf`, a fuzzy revision picker for jujutsu (jj).
//!
//! `jjf <subcommand> …` finds out whether a jj subcommand takes a revset, lets
//! the user pick revisions from the log, and runs the subcommand with the
//! picks. This library decides and computes all of that; the program around it
//! runs jj and talks to the terminal.
//!
//! * `target`, `help`, `names`: which subcommand an invocation names, and how
//!   it takes a revset, out of the help that jj prints.
//! * `row`, `preview`, `decode`: the log and the summary of a revision, out of
//!   the bytes that jj writes.
//! * `fuzzy`, `rank`, `picker`, `keys`: what a filter lists and in what order,
//!   and what the keys do.
//! * `ansi`, `wrap`, `screen`: text with escape sequences, and what is drawn.
//! * `command`, `cli`, `init`: the command that a pick amounts to, and what is
//!   done with it.
//! * `text`: sequences and strings.

pub mod ansi;
pub mod cli;
pub mod command;
pub mod decode;
pub mod fuzzy;
pub mod help;
pub mod init;
pub mod keys;
pub mod names;
pub mod picker;
pub mod preview;
pub mod rank;
pub mod row;
pub mod screen;
pub mod target;
pub mod text;
pub mod wrap;
