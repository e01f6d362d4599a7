//! The command line of `gaiety`, as values: the module directories and the
//! command to run.
use vstd::prelude::*;

verus! {

/// The parsed command line.
#[derive(Debug)]
pub struct Cli {
    /// Colon-separated list of module directories.
    pub dirs: String,
    pub command: Commands,
}

/// The commands.
#[derive(Debug)]
pub enum Commands {
    /// Generate and emit the zsh initialization script to stdout.
    Init,
    /// Write the init script to a cache file.
    Sync { output: Option<String> },
    /// Browse modules interactively (requires fzf).
    Browse,
    /// List all modules and their status.
    List,
    /// Show the metadata and API of a module.
    Info { module: String },
    /// Print the path to a module's init.zsh.
    Path { module: String },
    /// Install a module from a git repository.
    Install { spec: String, name: Option<String>, branch: Option<String>, target: Option<String> },
    /// Pull updates for installed modules.
    Update { module: Option<String> },
    /// Create a new module from templates.
    New { module: String, target: Option<String> },
    /// Remove a module and renumber the remaining modules of its directory.
    Rm { module: String, dir: Option<String> },
    /// Rename a module.
    Rename { old: String, new: String },
    /// Benchmark module load times.
    Profile,
}

} // verus!
