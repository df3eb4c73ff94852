//! What a run is configured with: where the text comes from, how many rows
//! are shown, and how much the program tells of its own work.

use vstd::prelude::*;

verus! {

/// `std::path::PathBuf`, carried through as it is: the library never looks
/// inside a path.
#[verifier::external_type_specification]
#[verifier::external_body]
pub struct ExPathBuf(std::path::PathBuf);

/// How many rows are shown where no number is given.
pub const DEFAULT_NUMBER: usize = 20;

/// How much the program tells of its own work, from nothing at all to
/// everything.
#[derive(Clone, Copy, Debug, PartialEq, Eq, Structural)]
pub enum Verbosity {
    /// Nothing is told.
    Off,
    /// Errors only.
    Error,
    /// Warnings too.
    Warn,
    /// Progress and timing too.
    Info,
    /// What helps to find a fault, too.
    Debug,
    /// Everything.
    Trace,
}

impl Verbosity {
    /// The place of the level in the order from `Off` to `Trace`.
    pub open spec fn level(self) -> nat {
        match self {
            Verbosity::Off => 0,
            Verbosity::Error => 1,
            Verbosity::Warn => 2,
            Verbosity::Info => 3,
            Verbosity::Debug => 4,
            Verbosity::Trace => 5,
        }
    }

    /// Whether counting reports its progress and its timing: from `Info` on.
    pub fn reports_progress(self) -> (yes: bool)
        ensures
            yes == (self.level() >= Verbosity::Info.level()),
    {
        match self {
            Verbosity::Off | Verbosity::Error | Verbosity::Warn => false,
            Verbosity::Info | Verbosity::Debug | Verbosity::Trace => true,
        }
    }
}

/// The configuration of one run.
#[derive(Debug)]
pub struct CliArgs {
    /// How much the program tells of its own work.
    pub verbose: Verbosity,
    /// The file to read; standard input where there is none.
    pub path: Option<std::path::PathBuf>,
    /// The largest number of rows to show.
    pub number: usize,
}

} // verus!
