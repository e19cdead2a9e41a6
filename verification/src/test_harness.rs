//! The codes by which a test run tells the emulator how it ended.

use vstd::prelude::*;

verus! {

/// How a test run ended.
#[derive(Debug, Clone, Copy, PartialEq, Eq, Structural)]
pub enum QemuExitCode {
    /// Every test passed.
    Success,
    /// A test failed.
    Failed,
}

impl QemuExitCode {
    /// The code, as a number.
    pub open spec fn code(self) -> int {
        match self {
            QemuExitCode::Success => 0x10,
            QemuExitCode::Failed => 0x11,
        }
    }

    /// The number that is written to the emulator's exit port: 0x10 for
    /// success, 0x11 for failure.
    pub fn as_u32(self) -> (r: u32)
        ensures
            r == self.code(),
    {
        match self {
            QemuExitCode::Success => 0x10,
            QemuExitCode::Failed => 0x11,
        }
    }
}

} // verus!
