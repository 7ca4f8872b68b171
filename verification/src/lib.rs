//! A verified command-line compiler and execution planner for a small shell.
//!
//! The crate turns one input line into a `Pipeline`: it tokenizes the line
//! (respecting quotes and `$(...)` subshell spans), groups tokens into pipe
//! stages, resolves redirections onto descriptor triples, substitutes
//! variables, classifies each stage, and plans the order in which stages are
//! executed so that an in-process writer never blocks on a reader that has
//! not been spawned yet.

pub mod myshell;
pub mod string_utils;
pub mod text;
