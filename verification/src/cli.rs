//! The command line of `mknight`, as plain values.

use vstd::prelude::*;

verus! {

/// MemoryKnight — a user-space sandbox watcher that guards programs against
/// runaway memory allocations (e.g. infinite `malloc` loops in C/C++).
#[derive(Debug)]
pub struct Cli {
    pub command: Commands,
}

/// The subcommands of `mknight`.
#[derive(Debug)]
pub enum Commands {
    /// Run a program under MemoryKnight's protection.
    Run(RunArgs),
}

/// The options and operands of `mknight run`.
#[derive(Debug)]
pub struct RunArgs {
    /// Absolute memory ceiling. Also sets RLIMIT_AS on Linux. e.g. 1GB, 500MB.
    pub max_ram: String,
    /// Explosive-growth threshold per second, e.g. 5GB. Defaults to ~500MB/100ms.
    pub max_velocity: Option<String>,
    /// Memory sampling interval, in milliseconds.
    pub interval: u64,
    /// Monitor and report, but never kill the child process.
    pub report_only: bool,
    /// Skip the Linux setrlimit wall (Layer 1); rely on monitoring only.
    pub no_rlimit: bool,
    /// The program to run.
    pub program: String,
    /// Arguments forwarded to the program (everything after PROGRAM).
    pub args: Vec<String>,
}

} // verus!
