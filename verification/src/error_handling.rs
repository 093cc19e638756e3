//! The error carrier shared by every stage.
//!
//! A failure is logged where it is detected; afterwards a single sentinel
//! value travels up so that no diagnostic is emitted twice.

use vstd::prelude::*;

verus! {

/// Sentinel for a failure whose diagnostic has already been reported.
#[derive(Copy, Clone, Debug)]
pub struct AlreadyReportedError;

/// Splits an action's failure into one the run survives and one that must
/// abort the run.
pub enum Recoverable<R, F> {
    Recoverable(R),
    Fatal(F),
}

} // verus!
