//! The setup retry policy: run the setup command until it exits 0, waiting
//! one delay unit between attempts, and give up as a fatal configuration
//! error once one hundred consecutive attempts have failed.

use vstd::prelude::*;

verus! {

/// How many consecutive failed attempts exhaust the setup.
pub const SETUP_ATTEMPT_CAP: u8 = 100;

/// What to do after one setup attempt.
#[derive(Clone, Copy, Debug, PartialEq, Eq, Structural)]
pub enum SetupAction {
    /// The attempt exited 0: setup is complete.
    Done,
    /// The attempt failed: wait one delay unit and try again; the payload
    /// is the new count of failed attempts.
    Retry(u8),
    /// The cap is reached: fatal, nothing gets measured.
    Abort,
}

/// Decide after one setup attempt: `attempts` failures came before it and
/// `code` is how it exited.
pub fn setup_step(attempts: u8, code: i32) -> (r: SetupAction)
    requires
        attempts < SETUP_ATTEMPT_CAP,
    ensures
        code == 0 ==> r == SetupAction::Done,
        code != 0 && attempts + 1 < SETUP_ATTEMPT_CAP ==> r == SetupAction::Retry(
            (attempts + 1) as u8,
        ),
        code != 0 && attempts + 1 == SETUP_ATTEMPT_CAP ==> r == SetupAction::Abort,
{
    if code == 0 {
        SetupAction::Done
    } else if attempts + 1 == SETUP_ATTEMPT_CAP {
        SetupAction::Abort
    } else {
        SetupAction::Retry(attempts + 1)
    }
}

} // verus!
