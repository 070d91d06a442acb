//! Memory-management core of a small x86_64 kernel, as verified logic over
//! plain address values: the physical frame source, the on-demand mapping
//! window, the heap window and three heap allocation strategies.
use vstd::prelude::*;

pub mod acpi;
pub mod allocator;
pub mod interrupts;
pub mod memory;
pub mod paging;
pub mod qemu;
pub mod vga_buffer;

verus! {

} // verus!
