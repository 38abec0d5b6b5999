//! The failure rule for every spawned command: exit code 0 succeeds, a code
//! in (1, 128] is fatal and becomes the harness's own exit code, and a code
//! above 128 (the signal range) is non-fatal, with metrics still captured.

use vstd::prelude::*;

use crate::bytes::{append_bytes, bytes_of, str_bytes};
use crate::num::{dec_digits, fmt_u64};

verus! {

/// What a child's exit code means for the harness.
#[derive(Clone, Copy, Debug, PartialEq, Eq, Structural)]
pub enum ExitOutcome {
    /// Exit code 0: go on normally.
    Success,
    /// Non-zero code at most 128: abort the harness with this very code.
    Fatal(i32),
    /// Code above 128, a terminating signal: keep the metrics anyway.
    NonFatal,
}

/// Classify a child's exit code.
pub fn classify_exit(code: i32) -> (r: ExitOutcome)
    ensures
        code == 0 ==> r == ExitOutcome::Success,
        code != 0 && code <= 128 ==> r == ExitOutcome::Fatal(code),
        code > 128 ==> r == ExitOutcome::NonFatal,
{
    if code == 0 {
        ExitOutcome::Success
    } else if code <= 128 {
        ExitOutcome::Fatal(code)
    } else {
        ExitOutcome::NonFatal
    }
}

/// The watchdog's diagnostic line, printed when the configured timeout
/// elapses before the measured command finishes.
pub fn timeout_message(timeout: u64) -> (v: Vec<u8>)
    ensures
        v@ == bytes_of("Timeout of "@) + dec_digits(timeout as nat) + bytes_of(
            " seconds exceeded."@,
        ),
{
    proof {
        reveal_strlit("Timeout of ");
        reveal_strlit(" seconds exceeded.");
        assert(vstd::string::is_ascii("Timeout of "));
        assert(vstd::string::is_ascii(" seconds exceeded."));
    }
    let mut v = str_bytes("Timeout of ");
    let digits = fmt_u64(timeout);
    append_bytes(&mut v, digits.as_slice());
    let tail = str_bytes(" seconds exceeded.");
    append_bytes(&mut v, tail.as_slice());
    v
}

} // verus!
