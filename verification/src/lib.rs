//! Fixed-step, fixed-load traversal of byte slices for SIMD-style scanners.
//!
//! A traversal of a `&[u8]` with parameters `STEP` and `LOAD` yields blocks at
//! the offsets `0, STEP, 2 * STEP, ...` for as long as a whole `LOAD`-byte
//! window starting there fits inside the slice, and then a tail: the bytes
//! after the last yielded window, or the whole slice when no block is yielded.
use vstd::prelude::*;

pub mod blocks;
pub mod lanes;
pub mod sse;
pub mod avx2;
pub mod neon;
pub mod x86;
pub mod scan;

pub use crate::blocks::{SimdBlock, SimdBlocks};

verus! {

use crate::blocks::{block_offsets, partition_slice, tail_start, valid_parameters};

/// Extension methods for traversing `u8` slices with fixed-step, fixed-load semantics.
///
/// Every method requires `STEP > 0` and `LOAD >= STEP` (see
/// [`blocks::parameters_are_valid`]).
pub trait SimdTraverseExt {
    /// Returns an iterator over step-aligned blocks.
    ///
    /// Every yielded block guarantees that `LOAD` bytes starting at its offset are
    /// in bounds within the original slice.
    fn simd_blocks<const STEP: usize, const LOAD: usize>(&self) -> SimdBlocks<'_, STEP, LOAD>
        requires
            valid_parameters(STEP as int, LOAD as int),
    ;

    /// Returns the suffix after the final yielded `LOAD`-byte window.
    ///
    /// If the iterator would yield no blocks, this returns the full original slice.
    fn simd_tail<const STEP: usize, const LOAD: usize>(&self) -> &[u8]
        requires
            valid_parameters(STEP as int, LOAD as int),
    ;

    /// Returns both the iterator and its matching non-overlapping tail.
    fn simd_partition<const STEP: usize, const LOAD: usize>(&self) -> (
        SimdBlocks<'_, STEP, LOAD>,
        &[u8],
    )
        requires
            valid_parameters(STEP as int, LOAD as int),
    ;
}

impl SimdTraverseExt for [u8] {
    fn simd_blocks<const STEP: usize, const LOAD: usize>(&self) -> (r: SimdBlocks<'_, STEP, LOAD>)
        ensures
            r.haystack() == self@,
            r.offsets() == block_offsets(self@.len() as int, STEP as int, LOAD as int),
            r.cursor() == 0,
    {
        self.simd_partition::<STEP, LOAD>().0
    }

    fn simd_tail<const STEP: usize, const LOAD: usize>(&self) -> (r: &[u8])
        ensures
            r@ == self@.subrange(
                tail_start(self@.len() as int, STEP as int, LOAD as int),
                self@.len() as int,
            ),
    {
        self.simd_partition::<STEP, LOAD>().1
    }

    fn simd_partition<const STEP: usize, const LOAD: usize>(&self) -> (r: (
        SimdBlocks<'_, STEP, LOAD>,
        &[u8],
    ))
        ensures
            r.0.haystack() == self@,
            r.0.offsets() == block_offsets(self@.len() as int, STEP as int, LOAD as int),
            r.0.cursor() == 0,
            r.1@ == self@.subrange(
                tail_start(self@.len() as int, STEP as int, LOAD as int),
                self@.len() as int,
            ),
    {
        partition_slice::<STEP, LOAD>(self)
    }
}

} // verus!
