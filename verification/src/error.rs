//! The failure taxonomy. Every fatal condition of a run is one of these;
//! the process around the library prints one diagnostic line for it and
//! exits non-zero.

use vstd::prelude::*;

verus! {

/// A fatal condition of a harness run.
#[derive(Clone, Copy, Debug, PartialEq, Eq, Structural)]
pub enum HarnessError {
    /// The configuration record is unusable (empty run command, zero iterations).
    ConfigError,
    /// The setup command kept failing until the retry cap.
    SetupExhausted,
    /// The operating system could not create a child process.
    SpawnFailure,
    /// The measured command exited with a code in (1, 128].
    MeasuredCommandFailure(i32),
    /// The configured timeout elapsed before the measured command finished.
    TimeoutExceeded,
    /// A telemetry value or a profiler instruction line did not parse.
    MalformedTelemetry,
    /// The telemetry listener could not bind its fixed local endpoint.
    BindFailure,
}

} // verus!
