//! The command line: the configuration file and the subcommand.

use vstd::prelude::*;

verus! {

/// The parsed command line.
pub struct Cli {
    /// Path of the YAML configuration file (`-f`, `--config`).
    pub config: String,
    pub command: Commands,
}

/// The subcommands.
pub enum Commands {
    /// Lists the tests of the configuration.
    List,
    /// Checks the configuration without running anything.
    Validate,
    /// Runs one test, chosen by name, by tag or interactively.
    Run {
        test: Option<String>,
        tag: Option<String>,
        pass_tui: bool,
        output: Option<String>,
        dry_run: bool,
        show_secrets: bool,
    },
    /// Runs every test (or those with a tag), in turn or in parallel.
    RunAll {
        parallel: bool,
        output: Option<String>,
        tag: Option<String>,
    },
    /// Runs every test in parallel, sharing requests (or a duration) by weight.
    RunWeighted {
        requests: Option<u64>,
        duration: Option<String>,
        output: Option<String>,
    },
    /// Prints the `oha` command of a test without running it.
    Export {
        test: Option<String>,
        show_secrets: bool,
    },
    /// Reports on a saved results file.
    Report {
        input: String,
        format: String,
        output: Option<String>,
    },
}

} // verus!
