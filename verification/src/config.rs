//! The immutable run configuration, as plain values: the command and its
//! arguments, the optional setup command, the environment, the iteration
//! count, the optional timeout, the profiler flag, and the optional name
//! and variant. Reading it from a file is outside the library; the library
//! validates it and derives the per-iteration copy.

use vstd::prelude::*;

use crate::error::HarnessError;

verus! {

/// One run's configuration.
#[derive(Clone)]
pub struct Config {
    /// The measured command and its arguments; never empty.
    pub run: Vec<Vec<u8>>,
    /// The optional setup command and its arguments.
    pub setup: Option<Vec<Vec<u8>>>,
    /// Extra environment variables for every spawned command.
    pub env: Vec<(Vec<u8>, Vec<u8>)>,
    /// How many measured executions; at least 1.
    pub iterations: u64,
    /// Optional timeout in seconds for one measured run.
    pub timeout: Option<u64>,
    /// Whether to measure instruction counts with the profiler instead.
    pub cachegrind: bool,
    /// Optional benchmark name, surfaced in the report.
    pub name: Option<Vec<u8>>,
    /// Optional benchmark variant, surfaced in the report.
    pub variant: Option<Vec<u8>>,
}

impl Config {
    /// A usable configuration: a command to run, and at least one iteration.
    pub open spec fn wf(self) -> bool {
        self.run@.len() > 0 && self.iterations >= 1
    }

    /// Check the configuration; exactly the ill-formed ones are rejected.
    pub fn validate(&self) -> (r: Result<(), HarnessError>)
        ensures
            (r is Ok) == self.wf(),
            r is Err ==> r == Err::<(), HarnessError>(HarnessError::ConfigError),
    {
        if self.run.len() == 0 {
            Err(HarnessError::ConfigError)
        } else if self.iterations == 0 {
            Err(HarnessError::ConfigError)
        } else {
            Ok(())
        }
    }
}

/// The configuration an iteration child runs under: the parent's, with the
/// profiler flag forced off.
pub fn iteration_child_config(c: Config) -> (r: Config)
    ensures
        r == (Config { cachegrind: false, ..c }),
{
    let mut d = c;
    d.cachegrind = false;
    d
}

} // verus!
