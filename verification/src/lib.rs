//! `ish`: the core of a small interactive POSIX-style command shell.
//!
//! The crate covers the shell's decision logic: the line parser that turns a
//! byte buffer into a pipeline of commands with redirections, the executable
//! search cache with its PATH earlier-wins population rule, the built-in
//! command dispatch, and the job bookkeeping (per-process wait status,
//! aggregate job state, the job set with stable slots and its event queue).
//! Process creation, file descriptors and the terminal are left to the
//! embedding program, which feeds plain values in and carries decisions out.

pub mod types;
pub mod parser;
pub mod job;
pub mod search;
pub mod builtin;
pub mod global;
pub mod eval;
pub mod serialize;
