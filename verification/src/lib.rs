//! Verified core of a file watcher and task runner: configuration,
//! glob rule matching, event planning, debouncing and the answers of the
//! status and trigger services.

pub mod cli;
pub mod config;
pub mod debounce;
pub mod pattern;
pub mod plugins;
pub mod rpc;
pub mod server;
pub mod watcher;
