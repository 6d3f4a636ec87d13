//! A small process-supervisor library.
//!
//! The crate splits the byte streams of supervised children into bounded,
//! UTF-8-checked line records, decides how operating-system signals are
//! escalated and forwarded, reaps exited descendants, and tracks the child
//! table that determines the supervisor's own exit code.

pub mod child;
pub mod command;
pub mod line_model;
pub mod line_reader;
pub mod output;
pub mod signal;
pub mod supervisor;
pub mod waitpid;
