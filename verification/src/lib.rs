use vstd::prelude::*;

pub mod interrupts;
pub mod keyboard_input_buffer;
pub mod memory;
pub mod task;

verus! {

/// The codes the kernel writes to QEMU's exit device.
#[derive(Debug, Clone, Copy, PartialEq, Eq, Structural)]
pub enum QemuExitCode {
    Success,
    Failed,
}

impl QemuExitCode {
    /// The value written to the exit port: `0x10` for success, `0x11` for failure.
    pub fn as_u32(self) -> (code: u32)
        ensures
            code == match self {
                QemuExitCode::Success => 0x10u32,
                QemuExitCode::Failed => 0x11u32,
            },
    {
        match self {
            QemuExitCode::Success => 0x10,
            QemuExitCode::Failed => 0x11,
        }
    }
}

} // verus!
