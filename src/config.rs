//! Kernel-wide constants.
use vstd::prelude::*;

verus! {

/// Size of one page (and of one physical frame) in bytes.
pub const PAGE_SIZE: usize = 4096;

/// Number of low address bits that select a byte inside a page.
pub const PAGE_SIZE_BITS: usize = 12;

/// Bound on physical frame numbers handed out by the frame allocator.
pub const MAX_FRAMES: usize = 0x8_0000;

/// Numerator of the stride computation: `stride = BIG_STRIDE / priority`.
pub const BIG_STRIDE: u64 = 65536;

/// Number of distinct syscall identifiers whose invocations are counted.
pub const MAX_SYSCALL_NUM: usize = 500;

} // verus!
