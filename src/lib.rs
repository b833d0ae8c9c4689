//! Input for a line-oriented shell: turns typed lines, or a whole script,
//! into the statements to run, one at a time.
//!
//! `text` says what the statements of a line and of a script are; `ui` keeps
//! the queue of statements still to run and decides, on each request,
//! whether to hand one out or to read a line.

pub mod text;
pub mod ui;
