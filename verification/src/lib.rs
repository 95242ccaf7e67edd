//! Kernel heap allocation strategies, verified.
//!
//! The crate models the dynamic-memory subsystem of a freestanding kernel:
//! three interchangeable allocation strategies (bump, free-list, and
//! fixed-size-block with a free-list fallback) behind one minimal
//! `alloc(Layout) -> Option<address>` / `dealloc(address, Layout)` contract.
//! The allocators manage a heap as a range of addresses and keep their
//! bookkeeping in their own state; the surrounding kernel owns the actual
//! memory and the unsafe glue that turns granted addresses into pointers.

use vstd::prelude::*;

pub mod bump;
pub mod fixed_size_block;
pub mod interrupts;
pub mod layout;
pub mod linked_list;
pub mod vga_buffer;

verus! {

/// Implemented by anything the kernel's test harness can execute.
pub trait Testable {
    fn run(&self);
}

/// Status the test harness reports to the hypervisor's debug-exit device.
#[derive(Clone, Copy, Debug, PartialEq, Eq, Structural)]
pub enum QemuExitCode {
    Success,
    Failed,
}

impl QemuExitCode {
    /// The value written to the exit device; chosen so it cannot collide
    /// with the hypervisor's own exit statuses.
    pub fn as_u32(self) -> (v: u32)
        ensures
            v == (match self {
                QemuExitCode::Success => 0x10u32,
                QemuExitCode::Failed => 0x11u32,
            }),
    {
        match self {
            QemuExitCode::Success => 0x10,
            QemuExitCode::Failed => 0x11,
        }
    }
}

/// Runs every registered test in order; a test that fails is expected to
/// panic, so reaching the end means the whole suite passed.
pub fn test_runner<T: Testable>(tests: &[T]) -> (code: QemuExitCode)
    ensures
        code == QemuExitCode::Success,
{
    let mut i: usize = 0;
    while i < tests.len()
        decreases tests.len() - i,
    {
        tests[i].run();
        i = i + 1;
    }
    QemuExitCode::Success
}

} // verus!
