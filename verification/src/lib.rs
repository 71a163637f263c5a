//! Core logic of a Git client: parsers for the porcelain output of git,
//! conflict-marker handling, command-line construction and the small
//! decisions around them.

pub mod commands;
pub mod git;
pub mod state;
pub mod text;
pub mod watcher;
