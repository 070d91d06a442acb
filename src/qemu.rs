//! Exit codes for the emulator's exit device.
use vstd::prelude::*;

verus! {

/// How a test run ended.
#[derive(Clone, Copy, Debug, PartialEq, Eq, Structural)]
pub enum ExitCode {
    Success,
    Failure,
}

impl ExitCode {
    /// The value written to the exit device's port for this outcome.
    pub fn code(self) -> (r: u32)
        ensures
            r == (match self {
                ExitCode::Success => 0x10u32,
                ExitCode::Failure => 0x11u32,
            }),
    {
        match self {
            ExitCode::Success => 0x10,
            ExitCode::Failure => 0x11,
        }
    }
}

} // verus!
