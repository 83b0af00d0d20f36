use simd_traverse::blocks::parameters_are_valid;
use simd_traverse::scan::{find_byte_offsets, scalar_find_byte_offsets};
use simd_traverse::{avx2, neon, sse, x86};
use simd_traverse::{SimdBlocks, SimdTraverseExt};

fn sample_bytes(len: usize) -> Vec<u8> {
    (0..len).map(|value| (value % 251) as u8).collect()
}

fn collect_offsets<const STEP: usize, const LOAD: usize>(mut blocks: SimdBlocks<'_, STEP, LOAD>) -> Vec<usize> {
    let mut offsets = Vec::new();
    while let Some(block) = blocks.next() {
        offsets.push(block.offset());
    }
    offsets
}

#[test]
fn readme_example_blocks_and_tail() {
    let haystack = b"0123456789abcdef0123456789ABCDEFtail";
    let mut blocks = haystack.simd_blocks::<8, 16>();
    let mut offsets = Vec::new();
    while let Some(block) = blocks.next() {
        offsets.push(block.offset());
        assert_eq!(block.load().len(), 16);
        assert_eq!(block.step_slice().len(), 8);
    }
    assert_eq!(offsets, vec![0, 8, 16]);
    assert_eq!(haystack.simd_tail::<8, 16>(), b"tail");
}

#[test]
fn readme_example_overlapping_loads_leave_empty_tail() {
    let haystack = b"0123456789abcdef0123456789ABCDEF";
    assert_eq!(collect_offsets(haystack.simd_blocks::<16, 32>()), vec![0]);
    assert_eq!(haystack.simd_tail::<16, 32>(), b"");
}

#[test]
fn parameter_validity_matches_the_documented_rule() {
    assert!(parameters_are_valid::<16, 32>());
    assert!(parameters_are_valid::<1, 1>());
    assert!(parameters_are_valid::<32, 32>());
    assert!(!parameters_are_valid::<0, 32>());
    assert!(!parameters_are_valid::<0, 0>());
    assert!(!parameters_are_valid::<32, 16>());
}

#[test]
fn every_window_is_in_bounds_and_the_traversal_is_maximal() {
    for len in 0..=100usize {
        let bytes = sample_bytes(len);
        let offsets = collect_offsets(bytes.as_slice().simd_blocks::<5, 8>());
        for (k, offset) in offsets.iter().enumerate() {
            assert_eq!(*offset, k * 5);
            assert!(offset + 8 <= len);
        }
        assert!(offsets.len() * 5 + 8 > len);
    }
}

#[test]
fn tail_starts_after_the_last_window_or_at_zero() {
    let bytes = sample_bytes(70);
    let tail = bytes.as_slice().simd_tail::<16, 32>();
    assert_eq!(bytes.len() - tail.len(), 32 + 32);

    let short = sample_bytes(20);
    assert_eq!(short.as_slice().simd_tail::<16, 32>(), short.as_slice());
}

#[test]
fn equal_step_and_load_tile_the_slice() {
    let bytes = sample_bytes(100);
    let (mut blocks, tail) = bytes.as_slice().simd_partition::<32, 32>();
    let mut rebuilt = Vec::new();
    while let Some(block) = blocks.next() {
        rebuilt.extend_from_slice(block.load_slice());
    }
    assert_eq!(rebuilt.len(), 96);
    rebuilt.extend_from_slice(tail);
    assert_eq!(rebuilt, bytes);
}

#[test]
fn exhausted_iterator_stays_exhausted() {
    let bytes = sample_bytes(40);
    let mut blocks = bytes.as_slice().simd_blocks::<16, 32>();
    assert_eq!(blocks.next().map(|block| block.offset()), Some(0));
    for _ in 0..4 {
        assert!(blocks.next().is_none());
        assert_eq!(blocks.len(), 0);
        assert_eq!(blocks.size_hint(), (0, Some(0)));
    }
}

#[test]
fn cloned_iterator_resumes_from_the_same_position() {
    let bytes = sample_bytes(80);
    let mut blocks = bytes.as_slice().simd_blocks::<16, 32>();
    let _ = blocks.next();
    let copy = blocks.clone();
    assert_eq!(collect_offsets(blocks), vec![16, 32, 48]);
    assert_eq!(collect_offsets(copy), vec![16, 32, 48]);
}

#[test]
fn load_returns_the_window_at_the_block_offset() {
    let bytes = sample_bytes(48);
    let mut blocks = bytes.as_slice().simd_blocks::<16, 32>();
    let _ = blocks.next();
    let second = blocks.next().unwrap();
    assert_eq!(second.load(), &bytes[16..48]);
    assert_eq!(second.load()[0], 16);
}

#[test]
fn sixteen_lane_masks_mark_matching_lanes() {
    let bytes = *b"abcabcabcabcabca";
    let block = bytes.as_slice().simd_blocks::<16, 16>().next().unwrap();
    assert_eq!(sse::match_byte_mask_u8x16(block, b'a'), 0b1001_0010_0100_1001);
    assert_eq!(sse::match_byte_mask_u8x16(block, b'c'), 0b0100_1001_0010_0100);
    assert_eq!(sse::match_byte_mask_u8x16(block, b'z'), 0);
    for needle in [b'a', b'b', b'c', b'z'] {
        assert_eq!(
            sse::match_byte_mask_u8x16(block, needle),
            neon::match_byte_mask_u8x16(block, needle)
        );
        assert_eq!(sse::any_byte_eq_u8x16(block, needle), needle != b'z');
        assert_eq!(neon::any_byte_eq_u8x16(block, needle), needle != b'z');
    }
}

#[test]
fn thirty_two_lane_masks_mark_matching_lanes() {
    let mut bytes = [b'.'; 40];
    bytes[8] = b'x';
    bytes[31] = b'x';
    bytes[32] = b'y';
    bytes[39] = b'y';
    let mut blocks = bytes.as_slice().simd_blocks::<8, 32>();
    let first = blocks.next().unwrap();
    let second = blocks.next().unwrap();

    assert_eq!(avx2::match_byte_mask_u8x32(first, b'x'), (1 << 8) | (1 << 31));
    assert_eq!(x86::match_byte_mask_u8x32(first, b'x'), (1 << 8) | (1 << 31));
    assert_eq!(avx2::match_byte_mask_u8x32(second, b'x'), (1 << 23) | 1);
    assert_eq!(x86::match_byte_mask_u8x32(second, b'y'), (1 << 24) | (1 << 31));
    assert_eq!(avx2::match_byte_mask_u8x32(first, b'.'), !((1u32 << 8) | (1 << 31)));
    assert!(avx2::any_byte_eq_u8x32(second, b'y'));
    assert!(!avx2::any_byte_eq_u8x32(first, b'y'));
    assert!(x86::any_byte_eq_u8x32(first, b'x'));
    assert!(!x86::any_byte_eq_u8x32(first, b'q'));
}

#[test]
fn block_scan_finds_the_commas_of_the_example_haystack() {
    let haystack = b"alpha,beta,gamma,delta,epsilon,zeta,eta,theta,tail";
    let offsets = find_byte_offsets(haystack, b',');
    assert_eq!(offsets, vec![5, 10, 16, 22, 30, 35, 39, 45]);
    assert_eq!(offsets, scalar_find_byte_offsets(haystack, b','));
}

#[test]
fn block_scan_agrees_with_scalar_scan_at_every_length() {
    for len in 0..=130usize {
        let mut bytes = sample_bytes(len);
        for index in (0..len).step_by(7) {
            bytes[index] = 0xEE;
        }
        if len > 0 {
            bytes[len - 1] = 0xEE;
        }
        let expected: Vec<usize> = (0..len).filter(|&i| bytes[i] == 0xEE).collect();
        assert_eq!(find_byte_offsets(&bytes, 0xEE), expected);
        assert_eq!(scalar_find_byte_offsets(&bytes, 0xEE), expected);
    }
}

#[test]
fn longer_slices_never_lose_blocks_and_one_more_step_adds_one_block() {
    let mut previous_count = 0;
    let mut previous_tail_start = 0;
    for len in 0..=120usize {
        let bytes = sample_bytes(len);
        let (blocks, tail) = bytes.as_slice().simd_partition::<16, 32>();
        let count = blocks.len();
        let tail_start = len - tail.len();
        assert!(previous_count <= count);
        assert!(previous_tail_start <= tail_start);
        previous_count = count;
        previous_tail_start = tail_start;
    }

    let short = sample_bytes(70);
    let long = sample_bytes(86);
    let (short_blocks, short_tail) = short.as_slice().simd_partition::<16, 32>();
    let (long_blocks, long_tail) = long.as_slice().simd_partition::<16, 32>();
    assert_eq!(short_blocks.len(), 3);
    assert_eq!(long_blocks.len(), 4);
    assert_eq!(70 - short_tail.len(), 64);
    assert_eq!(86 - long_tail.len(), 80);
}
