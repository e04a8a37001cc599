//! `warp-to`: a portal to nearby directories.
//!
//! The library holds the logic of the tool: how command-line terms are read
//! into search groups, how a breadth-first directory walk is scheduled, how a
//! search over several groups proceeds, and the user configuration. Everything
//! that touches the file system or the environment is performed by the caller,
//! which feeds the results back into the state machines defined here.

pub mod text;
pub mod args;
pub mod config;
pub mod paths;
pub mod runner;
pub mod search;
pub mod walker;
