//! The command line, as plain data.

use vstd::prelude::*;

verus! {

/// The parsed command line.
#[derive(Debug, Clone)]
pub struct Cli {
    pub command: Commands,
}

/// The subcommands.
#[derive(Debug, Clone)]
pub enum Commands {
    /// Start watching given paths.
    Watch(WatchArgs),
    /// Create, edit or delete tasks.
    Task(TaskArgs),
    /// Execute a configured task manually.
    Run(RunArgs),
    /// Create or edit the configuration.
    Config(ConfigArgs),
    /// Output detailed diagnostics.
    Debug(DebugArgs),
}

/// Arguments of `watch`.
#[derive(Debug, Clone)]
pub struct WatchArgs {
    /// Paths to watch.
    pub paths: Vec<String>,
    /// Optional WASM plugin for event filtering.
    pub plugin: Option<String>,
}

/// Arguments of `task`.
#[derive(Debug, Clone)]
pub struct TaskArgs {
    /// Task operation.
    pub operation: String,
}

/// Arguments of `run`.
#[derive(Debug, Clone)]
pub struct RunArgs {
    /// Name of the task to run.
    pub task_name: String,
}

/// Arguments of `config`.
#[derive(Debug, Clone)]
pub struct ConfigArgs {
    /// Config operation.
    pub operation: Option<String>,
}

/// Arguments of `debug`.
#[derive(Debug, Clone)]
pub struct DebugArgs {
    /// Enable verbose debug output.
    pub verbose: bool,
}

} // verus!
