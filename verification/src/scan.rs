//! A byte scanner on top of the traversal: it finds every offset of a needle
//! byte by decoding 32-lane match masks of `32`-byte blocks laid end to end,
//! then scanning the tail byte by byte.
use vstd::prelude::*;
use vstd::std_specs::bits::axiom_u32_trailing_zeros;

use crate::blocks::{
    block_count, block_offsets, lemma_equal_step_windows_tile, lemma_tail_is_disjoint_suffix,
    partition_slice, tail_start,
};
use crate::lanes::{is_match_mask32, lane32, lemma_empty_masks};
use crate::x86::match_byte_mask_u8x32;

verus! {

/// Offsets `base + i`, in increasing order, of the bytes among the first `n`
/// bytes of `s` that equal `needle`.
pub open spec fn positions(s: Seq<u8>, needle: u8, base: int, n: int) -> Seq<usize>
    decreases n,
{
    if n <= 0 {
        Seq::empty()
    } else if s[n - 1] == needle {
        positions(s, needle, base, n - 1).push((base + n - 1) as usize)
    } else {
        positions(s, needle, base, n - 1)
    }
}

/// Offsets `base + j`, in increasing order, of the lanes `j < n` that are set
/// in `mask`.
pub open spec fn mask_positions(mask: u32, base: int, n: int) -> Seq<usize>
    decreases n,
{
    if n <= 0 {
        Seq::empty()
    } else if lane32(mask, (n - 1) as u32) {
        mask_positions(mask, base, n - 1).push((base + n - 1) as usize)
    } else {
        mask_positions(mask, base, n - 1)
    }
}

/// Exactly the matches, in increasing order: every listed offset is an index
/// below `n` of a byte equal to `needle`, the offsets strictly increase, and
/// every such index is listed.
pub open spec fn lists_exactly_the_matches(r: Seq<usize>, s: Seq<u8>, needle: u8, n: int) -> bool {
    &&& forall|j: int| 0 <= j < r.len() ==> #[trigger] r[j] < n && s[r[j] as int] == needle
    &&& forall|j1: int, j2: int| 0 <= j1 < j2 < r.len() ==> #[trigger] r[j1] < #[trigger] r[j2]
    &&& forall|i: int| 0 <= i < n && s[i] == needle ==> #[trigger] r.contains(i as usize)
}

/// The positions of the first `n` bytes of `s` list exactly the indices
/// `i < n` with `s[i] == needle`, in strictly increasing order.
pub proof fn lemma_positions_are_exactly_the_matches(s: Seq<u8>, needle: u8, n: int)
    requires
        0 <= n <= s.len(),
        s.len() <= usize::MAX,
    ensures
        lists_exactly_the_matches(positions(s, needle, 0, n), s, needle, n),
    decreases n,
{
    if n > 0 {
        lemma_positions_are_exactly_the_matches(s, needle, n - 1);
        let prev = positions(s, needle, 0, n - 1);
        let cur = positions(s, needle, 0, n);
        assert forall|i: int| 0 <= i < n && s[i] == needle implies #[trigger] cur.contains(
            i as usize,
        ) by {
            if i < n - 1 {
                assert(prev.contains(i as usize));
                let j = choose|j: int| 0 <= j < prev.len() && prev[j] == i as usize;
                assert(cur[j] == i as usize);
            } else {
                assert(cur[cur.len() - 1] == i as usize);
            }
        }
    }
}

/// Positions only depend on the first `n` bytes.
proof fn lemma_positions_prefix(s1: Seq<u8>, s2: Seq<u8>, needle: u8, base: int, n: int)
    requires
        0 <= n <= s1.len(),
        n <= s2.len(),
        forall|i: int| 0 <= i < n ==> s1[i] == s2[i],
    ensures
        positions(s1, needle, base, n) == positions(s2, needle, base, n),
    decreases n,
{
    if n > 0 {
        lemma_positions_prefix(s1, s2, needle, base, n - 1);
    }
}

/// Scanning `a + b` bytes is scanning the first `a`, then the `b` after them.
proof fn lemma_positions_split(s: Seq<u8>, needle: u8, base: int, a: int, b: int)
    requires
        0 <= a,
        0 <= b,
        a + b <= s.len(),
    ensures
        positions(s, needle, base, a + b) == positions(s, needle, base, a) + positions(
            s.skip(a),
            needle,
            base + a,
            b,
        ),
    decreases b,
{
    if b == 0 {
        assert(positions(s, needle, base, a) + positions(s.skip(a), needle, base + a, 0)
            =~= positions(s, needle, base, a));
    } else {
        lemma_positions_split(s, needle, base, a, b - 1);
        assert(s.skip(a)[b - 1] == s[a + b - 1]);
        if s[a + b - 1] == needle {
            assert(positions(s, needle, base, a) + positions(s.skip(a), needle, base + a, b - 1).push(
                (base + a + b - 1) as usize,
            ) =~= (positions(s, needle, base, a) + positions(s.skip(a), needle, base + a, b - 1)).push(
                (base + a + b - 1) as usize,
            ));
        }
    }
}

/// Lanes at or above `hi` add no position.
proof fn lemma_mask_positions_high_clear(mask: u32, base: int, lo: int, hi: int)
    requires
        0 <= lo <= hi <= 32,
        forall|j: u32| lo <= j < hi ==> !#[trigger] lane32(mask, j),
    ensures
        mask_positions(mask, base, hi) == mask_positions(mask, base, lo),
    decreases hi,
{
    if hi > lo {
        assert(!lane32(mask, (hi - 1) as u32));
        lemma_mask_positions_high_clear(mask, base, lo, hi - 1);
    }
}

/// Two masks that agree on the lanes below `n` have the same positions there.
proof fn lemma_mask_positions_agree(m1: u32, m2: u32, base: int, n: int)
    requires
        0 <= n <= 32,
        forall|j: u32| j < n ==> (#[trigger] lane32(m1, j) <==> lane32(m2, j)),
    ensures
        mask_positions(m1, base, n) == mask_positions(m2, base, n),
    decreases n,
{
    if n > 0 {
        assert(lane32(m1, (n - 1) as u32) <==> lane32(m2, (n - 1) as u32));
        lemma_mask_positions_agree(m1, m2, base, n - 1);
    }
}

/// The set lanes of a match mask are the positions of the matching bytes.
proof fn lemma_mask_positions_are_matches(mask: u32, w: Seq<u8>, needle: u8, base: int, n: int)
    requires
        0 <= n <= 32,
        w.len() >= 32,
        is_match_mask32(mask, w, needle),
    ensures
        mask_positions(mask, base, n) == positions(w, needle, base, n),
    decreases n,
{
    if n > 0 {
        assert(lane32(mask, (n - 1) as u32) <==> w[n - 1] == needle);
        lemma_mask_positions_are_matches(mask, w, needle, base, n - 1);
    }
}

/// Clearing the lowest set lane `t` of a mask, `m & (m - 1)`, keeps exactly
/// the lanes above `t`.
proof fn lemma_clear_lowest_lane(m: u32, t: u32, j: u32)
    requires
        t < 32,
        j < 32,
        (m >> t) & 1u32 == 1u32,
        m << ((32 - t) as u32) == 0u32,
    ensures
        lane32(m & ((m - 1) as u32), j) == (j > t && lane32(m, j)),
        j < t ==> !lane32(m, j),
{
    assert(((m & ((m - 1) as u32)) >> j) & 1u32 == 1u32 <==> (j > t && (m >> j) & 1u32 == 1u32))
        by (bit_vector)
        requires
            t < 32,
            j < 32,
            (m >> t) & 1u32 == 1u32,
            m << ((32 - t) as u32) == 0u32,
    ;
    assert(j < t ==> (m >> j) & 1u32 == 0u32) by (bit_vector)
        requires
            t < 32,
            j < 32,
            m << ((32 - t) as u32) == 0u32,
    ;
}

/// Appends `block_offset + lane` for every lane set in `mask`, lowest lane
/// first.
fn push_mask_offsets(mask: u32, block_offset: usize, offsets: &mut Vec<usize>)
    requires
        block_offset + 32 <= usize::MAX,
    ensures
        final(offsets)@ == old(offsets)@ + mask_positions(mask, block_offset as int, 32),
{
    let ghost original = mask;
    let ghost mut lo: int = 0;
    let mut mask = mask;
    while mask != 0
        invariant
            0 <= lo <= 32,
            block_offset + 32 <= usize::MAX,
            forall|j: u32| j < 32 ==> (#[trigger] lane32(mask, j) <==> (j >= lo && lane32(
                original,
                j,
            ))),
            offsets@ == old(offsets)@ + mask_positions(original, block_offset as int, lo),
        decreases 32 - lo,
    {
        proof {
            axiom_u32_trailing_zeros(mask);
        }
        let lane = mask.trailing_zeros();
        proof {
            assert forall|j: u32| j < 32 implies (#[trigger] lane32(mask & ((mask - 1) as u32), j) == (j
                > lane && lane32(mask, j))) && (j < lane ==> !lane32(mask, j)) by {
                lemma_clear_lowest_lane(mask, lane, j);
            }
            assert(lane32(mask, lane));
            assert(lane >= lo);
            assert forall|j: u32| lo <= j < lane implies !#[trigger] lane32(original, j) by {
                assert(!lane32(mask, j));
            }
            lemma_mask_positions_high_clear(original, block_offset as int, lo, lane as int);
            assert(lane32(original, lane));
        }
        offsets.push(block_offset + lane as usize);
        mask = mask & (mask - 1);
        proof {
            lo = lane + 1;
            assert(offsets@ =~= old(offsets)@ + mask_positions(original, block_offset as int, lo));
        }
    }
    proof {
        assert forall|j: u32| lo <= j < 32 implies !#[trigger] lane32(original, j) by {
            lemma_empty_masks(0, j);
            assert(!lane32(mask, j));
        }
        lemma_mask_positions_high_clear(original, block_offset as int, lo, 32);
    }
}

/// Appends `tail_offset + index` for every byte of `tail` equal to `needle`,
/// in increasing order.
fn push_tail_offsets(tail: &[u8], tail_offset: usize, needle: u8, offsets: &mut Vec<usize>)
    requires
        tail_offset + tail@.len() <= usize::MAX,
    ensures
        final(offsets)@ == old(offsets)@ + positions(tail@, needle, tail_offset as int, tail@.len() as int),
{
    let mut index: usize = 0;
    while index < tail.len()
        invariant
            index <= tail@.len(),
            tail_offset + tail@.len() <= usize::MAX,
            offsets@ == old(offsets)@ + positions(tail@, needle, tail_offset as int, index as int),
        decreases tail@.len() - index,
    {
        if tail[index] == needle {
            offsets.push(tail_offset + index);
        }
        index = index + 1;
        assert(offsets@ =~= old(offsets)@ + positions(tail@, needle, tail_offset as int, index as int));
    }
}

/// Returns the offsets of every byte of `haystack` equal to `needle`, in
/// increasing order, found block by block with 32-lane match masks.
pub fn find_byte_offsets(haystack: &[u8], needle: u8) -> (r: Vec<usize>)
    ensures
        r@ == positions(haystack@, needle, 0, haystack@.len() as int),
        lists_exactly_the_matches(r@, haystack@, needle, haystack@.len() as int),
{
    let ghost hay = haystack@;
    let ghost len = haystack@.len() as int;
    let haystack_len = haystack.len();
    let mut offsets: Vec<usize> = Vec::new();
    let (mut blocks, tail) = partition_slice::<32, 32>(haystack);
    let ghost all = block_offsets(len, 32, 32);
    let ghost n = block_count(len, 32, 32);
    proof {
        lemma_equal_step_windows_tile(len, 32);
        assert(tail_start(len, 32, 32) <= len) by {
            lemma_tail_is_disjoint_suffix(len, 32, 32);
        }
    }
    let ghost mut k: int = 0;
    loop
        invariant
            0 <= k <= n,
            n == all.len(),
            hay == haystack@,
            len == hay.len(),
            len <= usize::MAX,
            blocks.haystack() == hay,
            blocks.offsets() == all.skip(k),
            all == block_offsets(len, 32, 32),
            n == block_count(len, 32, 32),
            tail_start(len, 32, 32) == n * 32,
            n * 32 <= len,
            offsets@ == positions(hay, needle, 0, k * 32),
        ensures
            len <= usize::MAX,
            hay == haystack@,
            len == hay.len(),
            tail_start(len, 32, 32) == n * 32,
            offsets@ == positions(hay, needle, 0, n * 32),
        decreases n - k,
    {
        match blocks.next() {
            Some(block) => {
                let mask = match_byte_mask_u8x32(block, needle);
                let offset = block.offset();
                proof {
                    assert(all.skip(k)[0] == all[k]);
                    assert(offset == k * 32);
                    lemma_mask_positions_are_matches(mask, block.window(), needle, offset as int, 32);
                    lemma_positions_prefix(block.window(), hay.skip(offset as int), needle, offset as int, 32);
                    lemma_positions_split(hay, needle, 0, offset as int, 32);
                }
                push_mask_offsets(mask, offset, &mut offsets);
                proof {
                    assert(all.skip(k).drop_first() =~= all.skip(k + 1));
                    k = k + 1;
                }
            },
            None => {
                proof {
                    assert(k == n);
                }
                break;
            },
        }
    }
    let tail_offset = haystack_len - tail.len();
    proof {
        assert(tail_offset == n * 32);
        assert(tail_offset as int + tail@.len() == len);
        lemma_positions_prefix(tail@, hay.skip(tail_offset as int), needle, tail_offset as int, tail@.len() as int);
        lemma_positions_split(hay, needle, 0, tail_offset as int, tail@.len() as int);
    }
    push_tail_offsets(tail, tail_offset, needle, &mut offsets);
    proof {
        assert(0 + tail_offset + tail@.len() == len);
        assert(hay.len() == len);
    }
    proof {
        lemma_positions_are_exactly_the_matches(haystack@, needle, haystack@.len() as int);
    }
    offsets
}

/// Returns the offsets of every byte of `haystack` equal to `needle`, in
/// increasing order, found one byte at a time.
pub fn scalar_find_byte_offsets(haystack: &[u8], needle: u8) -> (r: Vec<usize>)
    ensures
        r@ == positions(haystack@, needle, 0, haystack@.len() as int),
        lists_exactly_the_matches(r@, haystack@, needle, haystack@.len() as int),
{
    let mut offsets: Vec<usize> = Vec::new();
    let mut index: usize = 0;
    while index < haystack.len()
        invariant
            index <= haystack@.len(),
            offsets@ == positions(haystack@, needle, 0, index as int),
        decreases haystack@.len() - index,
    {
        if haystack[index] == needle {
            offsets.push(index);
        }
        index = index + 1;
        assert(offsets@ =~= positions(haystack@, needle, 0, index as int));
    }
    proof {
        lemma_positions_are_exactly_the_matches(haystack@, needle, haystack@.len() as int);
    }
    offsets
}

} // verus!
