//! Mirrors a source media tree into a target tree with hardlinks.
//!
//! The library holds the verified core: path arithmetic, the configuration
//! rules, an explicit model of the filesystem state the reconciler reads and
//! writes, the link cache, the inode searcher, and the per-file and per-rule
//! reconciliation procedures. The binary around it performs the actual
//! filesystem and store calls and replays the operation log the library
//! produces.

pub mod cli;
pub mod config;
pub mod db;
pub mod fsmodel;
pub mod handler;
pub mod link;
pub mod orchestrator;
pub mod paths;
pub mod runner;
pub mod searcher;
pub mod util;
