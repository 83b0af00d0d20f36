//! x86_64 helpers for 32-byte blocks that need only SSE2: the 32-lane mask is
//! assembled from two 16-lane masks, one per half of the load window.
use vstd::prelude::*;

use crate::blocks::SimdBlock;
use crate::lanes::{
    any_lane_eq, is_match_mask32, lane16, lane32, lemma_join_lanes, lemma_mask32_nonzero,
};
use crate::sse::match_byte_mask_window_u8x16;

verus! {

/// Returns a bitmask of lanes equal to `needle`.
///
/// Bit `i` in the returned mask corresponds to byte lane `i` in the 32-byte
/// block. The mask is the low half's 16-lane mask combined with the high
/// half's 16-lane mask shifted into bits `16..32`.
pub fn match_byte_mask_u8x32<const STEP: usize>(block: SimdBlock<'_, STEP, 32>, needle: u8) -> (r: u32)
    ensures
        block.window().len() == 32,
        is_match_mask32(r, block.window(), needle),
{
    let window = block.load_slice();
    let high_half = &window[16..32];
    let low = match_byte_mask_window_u8x16(window, needle);
    let high = match_byte_mask_window_u8x16(high_half, needle);
    let mask = (low as u32) | ((high as u32) << 16u32);
    proof {
        assert forall|j: u32| j < 32 implies (#[trigger] lane32(mask, j) <==> window@[j as int]
            == needle) by {
            lemma_join_lanes(low, high, j);
            if j < 16 {
                assert(lane16(low, j as u16) <==> window@[j as int] == needle);
            } else {
                assert(lane16(high, (j - 16) as u16) <==> high_half@[(j - 16) as int] == needle);
            }
        }
    }
    mask
}

/// Returns `true` if any byte in the 32-byte block equals `needle`.
pub fn any_byte_eq_u8x32<const STEP: usize>(block: SimdBlock<'_, STEP, 32>, needle: u8) -> (r: bool)
    ensures
        r == any_lane_eq(block.window(), needle, 32),
{
    let mask = match_byte_mask_u8x32(block, needle);
    proof {
        lemma_mask32_nonzero(mask, block.window(), needle);
    }
    mask != 0
}

} // verus!
