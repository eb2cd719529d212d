//! The command line of the node program, and the log level it selects.

use vstd::prelude::*;

verus! {

/// The node program's command-line arguments.
pub struct Args {
    /// Path to the configuration directory.
    pub config: Option<String>,
    /// Path to an alternative Reticulum configuration directory.
    pub rnsconfig: Option<String>,
    /// Overrides `pages_dir` of the configuration file.
    pub pages: Option<String>,
    /// Overrides `files_dir` of the configuration file.
    pub files: Option<String>,
    /// Print an example configuration file and exit.
    pub exampleconfig: bool,
    /// Verbosity (the flag can be repeated).
    pub verbose: u8,
}

/// How much the node logs.
#[derive(Debug, Clone, Copy, PartialEq, Eq, Structural)]
pub enum LogLevel {
    Info,
    Debug,
    Trace,
}

/// The log level for `verbose` repetitions of the verbosity flag: info
/// without it, debug with one, trace with more.
pub fn log_level(verbose: u8) -> (r: LogLevel)
    ensures
        r == (if verbose == 0 {
            LogLevel::Info
        } else if verbose == 1 {
            LogLevel::Debug
        } else {
            LogLevel::Trace
        }),
{
    match verbose {
        0 => LogLevel::Info,
        1 => LogLevel::Debug,
        _ => LogLevel::Trace,
    }
}

} // verus!
