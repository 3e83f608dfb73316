//! Sv39 memory-management logic of a small RISC-V kernel: physical and
//! virtual addresses, page-table entries, page tables and the kernel's
//! address space, together with reading the boot device tree and the
//! choice of the shutdown device.
use vstd::prelude::*;

pub mod dtb;
pub mod mmu;
pub mod report;
pub mod shutdown;

verus! {

} // verus!
