# simd_traverse

Fixed-step, fixed-load traversal of byte slices for SIMD-style scanners,
written in Verus.

- `src/blocks.rs`: the traversal model (`block_count`, `block_offsets`,
  `tail_start`), its laws, the layout computation, `SimdBlock` and the
  `SimdBlocks` iterator.
- `src/lib.rs`: the `SimdTraverseExt` extension trait on `[u8]`.
- `src/lanes.rs`: byte-lane match masks and their laws.
- `src/sse.rs`, `src/avx2.rs`, `src/x86.rs`, `src/neon.rs`: 16- and 32-lane
  match masks over a block's load window.
- `src/scan.rs`: a byte scanner built on 32-byte blocks and the tail.
- `app/lib.rs`: panicking entry points, std iterator traits, raw pointers and
  register loads through architecture intrinsics.
