use vstd::prelude::*;
use vstd::arithmetic::div_mod::{
    lemma_div_is_ordered, lemma_div_nonincreasing, lemma_div_pos_is_pos, lemma_fundamental_div_mod,
    lemma_fundamental_div_mod_converse,
    lemma_mod_multiples_basic, lemma_mod_multiples_vanish, lemma_mod_pos_bound,
};
use vstd::arithmetic::mul::{
    lemma_mul_inequality, lemma_mul_is_commutative, lemma_mul_is_distributive_add_other_way,
};

verus! {

// ---------------------------------------------------------------------------
// The traversal model
// ---------------------------------------------------------------------------

/// Whether a `STEP`/`LOAD` pair describes a usable traversal:
/// a positive step and a load window at least one step wide.
pub open spec fn valid_parameters(step: int, load: int) -> bool {
    0 < step <= load
}

/// Number of blocks that a traversal of a slice of length `len` yields:
/// the number of step-aligned offsets `k * step` whose `load`-byte window
/// still fits inside the slice.
pub open spec fn block_count(len: int, step: int, load: int) -> int {
    if len < load {
        0
    } else {
        (len - load) / step + 1
    }
}

/// Offsets of all blocks, in the order in which they are yielded:
/// `0, step, 2 * step, ...`, one per block.
pub open spec fn block_offsets(len: int, step: int, load: int) -> Seq<int> {
    Seq::new(block_count(len, step, load) as nat, |k: int| k * step)
}

/// Where the tail starts: just after the last yielded load window, or at `0`
/// when no block is yielded.
pub open spec fn tail_start(len: int, step: int, load: int) -> int {
    if block_count(len, step, load) == 0 {
        0
    } else {
        (block_count(len, step, load) - 1) * step + load
    }
}

/// `(x / d) * d` is the greatest multiple of `d` that is not above `x`.
proof fn lemma_floor_multiple(x: int, d: int)
    requires
        0 <= x,
        0 < d,
    ensures
        0 <= x / d <= x,
        0 <= (x / d) * d <= x,
        x < (x / d) * d + d,
{
    lemma_fundamental_div_mod(x, d);
    lemma_mod_pos_bound(x, d);
    lemma_div_pos_is_pos(x, d);
    lemma_div_nonincreasing(x, d);
    lemma_mul_is_commutative(d, x / d);
}

/// Every yielded offset keeps its whole load window inside the slice.
pub proof fn lemma_offsets_in_bounds(len: int, step: int, load: int, k: int)
    requires
        0 <= len,
        valid_parameters(step, load),
        0 <= k < block_count(len, step, load),
    ensures
        0 <= block_offsets(len, step, load)[k],
        block_offsets(len, step, load)[k] + load <= len,
        block_offsets(len, step, load)[k] + load <= tail_start(len, step, load),
{
    let q = (len - load) / step;
    lemma_floor_multiple(len - load, step);
    lemma_mul_inequality(k, q, step);
    lemma_mul_inequality(0, k, step);
}

/// The traversal stops as early as it may and no earlier: the next
/// step-aligned offset after the last yielded one would not leave room for a
/// whole load window.
pub proof fn lemma_traversal_is_maximal(len: int, step: int, load: int)
    requires
        0 <= len,
        valid_parameters(step, load),
    ensures
        block_count(len, step, load) * step + load > len,
        0 <= block_count(len, step, load),
{
    if len >= load {
        let q = (len - load) / step;
        lemma_floor_multiple(len - load, step);
        lemma_mul_is_distributive_add_other_way(step, q, 1);
    }
}

/// The yielded offsets are exactly the step-aligned offsets whose load window
/// fits in the slice: `o` is yielded if and only if `o` is a nonnegative
/// multiple of `step` with `o + load <= len`.
pub proof fn lemma_offsets_are_fitting_multiples(len: int, step: int, load: int, o: int)
    requires
        0 <= len,
        valid_parameters(step, load),
    ensures
        block_offsets(len, step, load).contains(o) <==> (0 <= o && o % step == 0 && o + load
            <= len),
{
    let offs = block_offsets(len, step, load);
    if offs.contains(o) {
        let k = choose|k: int| 0 <= k < offs.len() && offs[k] == o;
        lemma_offsets_in_bounds(len, step, load, k);
        lemma_mod_multiples_basic(k, step);
    }
    if 0 <= o && o % step == 0 && o + load <= len {
        let k = o / step;
        lemma_fundamental_div_mod(o, step);
        lemma_mul_is_commutative(step, k);
        lemma_floor_multiple(o, step);
        lemma_traversal_is_maximal(len, step, load);
        if k >= block_count(len, step, load) {
            lemma_mul_inequality(block_count(len, step, load), k, step);
        }
        assert(offs[k] == o);
    }
}

/// The layout grows with the slice: a longer slice has at least as many
/// blocks and a tail that starts no earlier.
pub proof fn lemma_layout_monotone(len1: int, len2: int, step: int, load: int)
    requires
        0 <= len1 <= len2,
        valid_parameters(step, load),
    ensures
        block_count(len1, step, load) <= block_count(len2, step, load),
        tail_start(len1, step, load) <= tail_start(len2, step, load),
{
    if len1 >= load {
        lemma_div_is_ordered(len1 - load, len2 - load, step);
        let q1 = (len1 - load) / step;
        let q2 = (len2 - load) / step;
        lemma_mul_inequality(q1, q2, step);
    } else if len2 >= load {
        lemma_floor_multiple(len2 - load, step);
    }
}

/// Lengthening a slice that already holds a block by `step` bytes adds
/// exactly one block and moves the tail by `step`.
pub proof fn lemma_layout_step(len: int, step: int, load: int)
    requires
        load <= len,
        valid_parameters(step, load),
    ensures
        block_count(len + step, step, load) == block_count(len, step, load) + 1,
        tail_start(len + step, step, load) == tail_start(len, step, load) + step,
{
    let q = (len - load) / step;
    lemma_fundamental_div_mod(len - load, step);
    lemma_mod_pos_bound(len - load, step);
    lemma_mul_is_distributive_add_other_way(step, q, 1);
    lemma_mul_is_commutative(step, q);
    lemma_fundamental_div_mod_converse(len + step - load, step, q + 1, (len - load) % step);
}

/// The load windows leave no gap before the tail: every byte before the tail
/// lies in some yielded load window.
pub proof fn lemma_windows_cover_up_to_tail(len: int, step: int, load: int, i: int)
    requires
        0 <= len,
        valid_parameters(step, load),
        0 <= i < tail_start(len, step, load),
    ensures
        exists|k: int|
            0 <= k < block_count(len, step, load) && #[trigger] block_offsets(len, step, load)[k]
                <= i < block_offsets(len, step, load)[k] + load,
{
    let n = block_count(len, step, load);
    lemma_floor_multiple(i, step);
    let k = if i / step < n { i / step } else { n - 1 };
    if i / step >= n {
        lemma_mul_inequality(n, i / step, step);
        lemma_mul_is_distributive_add_other_way(step, n - 1, 1);
    }
    assert(block_offsets(len, step, load)[k] <= i < block_offsets(len, step, load)[k] + load);
}

/// The tail is a suffix of the slice that starts at or after the end of every
/// yielded load window; with no block yielded it is the whole slice.
pub proof fn lemma_tail_is_disjoint_suffix(len: int, step: int, load: int)
    requires
        0 <= len,
        valid_parameters(step, load),
    ensures
        0 <= tail_start(len, step, load) <= len,
        block_count(len, step, load) == 0 ==> tail_start(len, step, load) == 0,
        forall|k: int|
            0 <= k < block_count(len, step, load) ==> #[trigger] block_offsets(len, step, load)[k]
                + load <= tail_start(len, step, load),
{
    if len >= load {
        lemma_floor_multiple(len - load, step);
    }
    assert forall|k: int| 0 <= k < block_count(len, step, load) implies #[trigger] block_offsets(
        len,
        step,
        load,
    )[k] + load <= tail_start(len, step, load) by {
        lemma_offsets_in_bounds(len, step, load, k);
    }
}

/// Index of the load window that holds byte `i` when windows of `width`
/// bytes are laid end to end from offset `0`.
pub open spec fn window_of(i: int, width: int) -> int {
    i / width
}

/// When the step equals the load width, the load windows are laid end to end
/// from offset `0` and the tail begins exactly where the last window ends, so
/// every byte before the tail lies in exactly the window `window_of(i, width)`
/// and windows and tail together cover every byte exactly once.
pub proof fn lemma_equal_step_windows_tile(len: int, width: int)
    requires
        0 <= len,
        0 < width,
    ensures
        tail_start(len, width, width) == block_count(len, width, width) * width,
        forall|i: int|
            0 <= i < tail_start(len, width, width) ==> 0 <= #[trigger] window_of(i, width)
                < block_count(len, width, width) && block_offsets(len, width, width)[window_of(
                i,
                width,
            )] <= i < block_offsets(len, width, width)[window_of(i, width)] + width,
{
    let n = block_count(len, width, width);
    if n > 0 {
        lemma_mul_is_distributive_add_other_way(width, n - 1, 1);
    }
    assert forall|i: int| 0 <= i < tail_start(len, width, width) implies 0 <= #[trigger] window_of(
        i,
        width,
    ) < n && block_offsets(len, width, width)[window_of(i, width)] <= i < block_offsets(
        len,
        width,
        width,
    )[window_of(i, width)] + width by {
        lemma_floor_multiple(i, width);
        if i / width >= n {
            lemma_mul_inequality(n, i / width, width);
        }
    }
}

// ---------------------------------------------------------------------------
// Layout computation
// ---------------------------------------------------------------------------

struct TraversalLayout {
    block_count: usize,
    tail_start: usize,
}

impl TraversalLayout {
    fn new<const STEP: usize, const LOAD: usize>(len: usize) -> (r: Self)
        requires
            valid_parameters(STEP as int, LOAD as int),
        ensures
            r.block_count == block_count(len as int, STEP as int, LOAD as int),
            r.tail_start == tail_start(len as int, STEP as int, LOAD as int),
    {
        if len < LOAD {
            return Self { block_count: 0, tail_start: 0 };
        }
        let last_start = len - LOAD;
        proof {
            lemma_floor_multiple(last_start as int, STEP as int);
        }
        let block_count = 1 + (last_start / STEP);
        let last_offset = (block_count - 1) * STEP;
        Self { block_count, tail_start: last_offset + LOAD }
    }
}

/// Whether `STEP` and `LOAD` describe a usable traversal: `STEP` is positive
/// and `LOAD` is at least `STEP`. Every traversal entry point requires this.
pub fn parameters_are_valid<const STEP: usize, const LOAD: usize>() -> (r: bool)
    ensures
        r == valid_parameters(STEP as int, LOAD as int),
        r == (STEP > 0 && LOAD >= STEP),
{
    STEP > 0 && LOAD >= STEP
}

/// A traversal is usable for exactly the parameters with a positive step and
/// a load window at least one step wide; nothing else (such as divisibility)
/// is demanded.
pub proof fn lemma_valid_parameters_exact(step: int, load: int)
    ensures
        valid_parameters(step, load) <==> (step > 0 && load >= step),
{
}

// ---------------------------------------------------------------------------
// Blocks
// ---------------------------------------------------------------------------

/// A single step-aligned traversal position with an in-bounds `LOAD`-byte window.
#[derive(Clone, Copy, Debug)]
#[must_use]
pub struct SimdBlock<'a, const STEP: usize, const LOAD: usize> {
    slice: &'a [u8],
    offset: usize,
}

impl<'a, const STEP: usize, const LOAD: usize> SimdBlock<'a, STEP, LOAD> {
    #[verifier::type_invariant]
    spec fn window_in_bounds(self) -> bool {
        &&& valid_parameters(STEP as int, LOAD as int)
        &&& self.offset + LOAD <= self.slice@.len() <= usize::MAX
        &&& self.offset % STEP == 0
    }

    /// The bytes of the slice that this block was taken from.
    pub closed spec fn haystack(&self) -> Seq<u8> {
        self.slice@
    }

    /// The block's starting offset within its slice.
    pub closed spec fn spec_offset(&self) -> int {
        self.offset as int
    }

    /// The block's `LOAD`-byte window.
    pub open spec fn window(&self) -> Seq<u8> {
        self.haystack().subrange(self.spec_offset(), self.spec_offset() + LOAD)
    }

    /// Returns the starting offset of this block within the original slice.
    /// The `LOAD` bytes starting there lie inside the slice.
    pub fn offset(&self) -> (r: usize)
        ensures
            r == self.spec_offset(),
            r + LOAD <= self.haystack().len(),
            r % STEP == 0,
            valid_parameters(STEP as int, LOAD as int),
    {
        proof {
            use_type_invariant(self);
        }
        self.offset
    }

    /// Returns the guaranteed in-bounds `LOAD`-byte window for this block.
    pub fn load(&self) -> (r: &'a [u8; LOAD])
        ensures
            r@ == self.window(),
    {
        let window = self.load_slice();
        slice_as_array::<LOAD>(window)
    }

    /// Returns the guaranteed in-bounds `LOAD`-byte window as a slice.
    pub fn load_slice(&self) -> (r: &'a [u8])
        ensures
            r@ == self.window(),
            r@.len() == LOAD,
    {
        proof {
            use_type_invariant(self);
        }
        &self.slice[self.offset..self.offset + LOAD]
    }

    /// Returns the logical `STEP`-sized sub-slice for this block: the first
    /// `STEP` bytes of its load window.
    pub fn step_slice(&self) -> (r: &'a [u8])
        ensures
            r@ == self.haystack().subrange(self.spec_offset(), self.spec_offset() + STEP),
            r@ == self.window().take(STEP as int),
    {
        proof {
            use_type_invariant(self);
        }
        &self.slice[self.offset..self.offset + STEP]
    }
}

/// Views a slice of exactly `N` bytes as a reference to an `N`-byte array,
/// through std's `TryFrom<&[u8]> for &[u8; N]`, which succeeds exactly when
/// the lengths agree and then refers to the same bytes.
#[verifier::external_body]
fn slice_as_array<'a, const N: usize>(s: &'a [u8]) -> (r: &'a [u8; N])
    requires
        s@.len() == N,
    ensures
        r@ == s@,
{
    <&'a [u8; N]>::try_from(s).unwrap()
}

// ---------------------------------------------------------------------------
// The block iterator
// ---------------------------------------------------------------------------

/// Iterator over step-aligned byte-slice offsets with guaranteed in-bounds load windows.
#[derive(Debug)]
#[must_use]
pub struct SimdBlocks<'a, const STEP: usize, const LOAD: usize> {
    slice: &'a [u8],
    offset: usize,
    remaining: usize,
}

impl<'a, const STEP: usize, const LOAD: usize> SimdBlocks<'a, STEP, LOAD> {
    #[verifier::type_invariant]
    spec fn remaining_in_bounds(self) -> bool {
        &&& valid_parameters(STEP as int, LOAD as int)
        &&& self.slice@.len() <= usize::MAX
        &&& self.offset % STEP == 0
        &&& self.remaining > 0 ==> self.offset + (self.remaining - 1) * STEP + LOAD
            <= self.slice@.len()
    }

    /// The bytes of the slice being traversed.
    pub closed spec fn haystack(&self) -> Seq<u8> {
        self.slice@
    }

    /// Offsets of the blocks still to be yielded, in order.
    pub closed spec fn offsets(&self) -> Seq<int> {
        Seq::new(self.remaining as nat, |k: int| self.offset + k * STEP)
    }

    /// The offset at which the next block would start: `0` for a fresh
    /// iterator, advanced by `STEP` with every yielded block.
    pub closed spec fn cursor(&self) -> int {
        self.offset as int
    }

    fn new(slice: &'a [u8], layout: TraversalLayout) -> (r: Self)
        requires
            valid_parameters(STEP as int, LOAD as int),
            slice@.len() <= usize::MAX,
            layout.block_count == 0 || (layout.block_count - 1) * STEP + LOAD <= slice@.len(),
        ensures
            r.haystack() == slice@,
            r.offsets() == Seq::new(layout.block_count as nat, |k: int| k * STEP),
            r.cursor() == 0,
    {
        proof {
            lemma_mod_multiples_basic(0, STEP as int);
        }
        let r = Self { slice, offset: 0, remaining: layout.block_count };
        assert(r.offsets() =~= Seq::new(layout.block_count as nat, |k: int| k * STEP));
        r
    }

    /// Yields the next block, or `None` once every block has been yielded;
    /// after the first `None` every later call returns `None` again.
    pub fn next(&mut self) -> (r: Option<SimdBlock<'a, STEP, LOAD>>)
        ensures
            final(self).haystack() == old(self).haystack(),
            old(self).offsets().len() == 0 ==> r is None && final(self).offsets() == old(
                self,
            ).offsets() && final(self).cursor() == old(self).cursor(),
            old(self).offsets().len() > 0 ==> {
                &&& r matches Some(b)
                &&& b.haystack() == old(self).haystack()
                &&& b.spec_offset() == old(self).offsets()[0]
                &&& final(self).offsets() == old(self).offsets().drop_first()
                &&& final(self).cursor() == old(self).cursor() + STEP
            },
    {
        proof {
            use_type_invariant(&*self);
        }
        if self.remaining == 0 {
            return None;
        }
        let block = SimdBlock { slice: self.slice, offset: self.offset };
        let ghost old_offsets = self.offsets();
        proof {
            lemma_mul_inequality(0, (self.remaining - 1) as int, STEP as int);
            lemma_mul_inequality((self.remaining - 2) as int, (self.remaining - 1) as int, STEP as int);
            lemma_mul_is_distributive_add_other_way(STEP as int, (self.remaining - 2) as int, 1);
        }
        self.remaining = self.remaining - 1;
        proof {
            lemma_mod_multiples_vanish(1, self.offset as int, STEP as int);
        }
        self.offset = self.offset + STEP;
        proof {
            assert forall|k: int| 0 <= k < self.remaining implies #[trigger] self.offsets()[k]
                == old_offsets[k + 1] by {
                lemma_mul_is_distributive_add_other_way(STEP as int, k, 1);
            }
            assert(self.offsets() =~= old_offsets.drop_first());
        }
        Some(block)
    }

    /// Returns exact lower and upper bounds on the number of blocks left.
    pub fn size_hint(&self) -> (r: (usize, Option<usize>))
        ensures
            r.0 == self.offsets().len(),
            r.1 == Some(r.0),
    {
        (self.remaining, Some(self.remaining))
    }

    /// Returns the number of blocks left. Every offset still to be yielded
    /// is a multiple of `STEP`, as is the cursor, and each pending offset's
    /// `LOAD`-byte window lies inside the haystack.
    pub fn len(&self) -> (r: usize)
        ensures
            r == self.offsets().len(),
            valid_parameters(STEP as int, LOAD as int),
            self.cursor() >= 0,
            self.cursor() % (STEP as int) == 0,
            forall|k: int|
                0 <= k < self.offsets().len() ==> 0 <= #[trigger] self.offsets()[k]
                    && self.offsets()[k] % (STEP as int) == 0 && self.offsets()[k] + LOAD
                    <= self.haystack().len(),
    {
        proof {
            use_type_invariant(self);
            assert forall|k: int| 0 <= k < self.offsets().len() implies 0
                <= #[trigger] self.offsets()[k] && self.offsets()[k] % (STEP as int) == 0
                && self.offsets()[k] + LOAD <= self.haystack().len() by {
                lemma_mod_multiples_vanish(k, self.offset as int, STEP as int);
                lemma_mul_is_commutative(STEP as int, k);
                lemma_mul_inequality(0, k, STEP as int);
                lemma_mul_inequality(k, (self.remaining - 1) as int, STEP as int);
            }
        }
        self.remaining
    }
}

impl<'a, const STEP: usize, const LOAD: usize> Clone for SimdBlocks<'a, STEP, LOAD> {
    fn clone(&self) -> (r: Self)
        ensures
            r.haystack() == self.haystack(),
            r.offsets() == self.offsets(),
            r.cursor() == self.cursor(),
    {
        proof {
            use_type_invariant(self);
        }
        SimdBlocks { slice: self.slice, offset: self.offset, remaining: self.remaining }
    }
}

/// Splits `slice` into its block iterator and its tail, from one layout
/// computation.
pub(crate) fn partition_slice<'a, const STEP: usize, const LOAD: usize>(slice: &'a [u8]) -> (r: (
    SimdBlocks<'a, STEP, LOAD>,
    &'a [u8],
))
    requires
        valid_parameters(STEP as int, LOAD as int),
    ensures
        r.0.haystack() == slice@,
        r.0.offsets() == block_offsets(slice@.len() as int, STEP as int, LOAD as int),
        r.0.cursor() == 0,
        r.1@ == slice@.subrange(
            tail_start(slice@.len() as int, STEP as int, LOAD as int),
            slice@.len() as int,
        ),
{
    let layout = TraversalLayout::new::<STEP, LOAD>(slice.len());
    proof {
        let len = slice@.len() as int;
        lemma_tail_is_disjoint_suffix(len, STEP as int, LOAD as int);
        if layout.block_count > 0 {
            lemma_offsets_in_bounds(len, STEP as int, LOAD as int, layout.block_count - 1);
        }
    }
    let tail_start = layout.tail_start;
    let blocks = SimdBlocks::<'a, STEP, LOAD>::new(slice, layout);
    assert(blocks.offsets() =~= block_offsets(slice@.len() as int, STEP as int, LOAD as int));
    let tail = &slice[tail_start..slice.len()];
    (blocks, tail)
}

} // verus!
