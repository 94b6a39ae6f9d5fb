//! The capability boundary for a device-backed block region.
//!
//! The in-memory engine owns its block region directly; a persistent
//! variant substitutes a device implementing these three operations.
//! Failures are an undifferentiated pass/fail: callers cannot distinguish
//! medium faults.

use vstd::prelude::*;

verus! {

/// Block-granular storage: read or write one whole block at a time.
/// Indices are block numbers in `[0, total_blocks())`; out-of-range access
/// is a programmer error, not a recoverable condition.
pub trait BlockDevice {
    fn read_block(&self, block_num: u64, buf: &mut Vec<u8>) -> Result<(), ()>;

    fn write_block(&mut self, block_num: u64, buf: &Vec<u8>) -> Result<(), ()>;

    fn total_blocks(&self) -> u64;
}

} // verus!
