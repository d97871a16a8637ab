use cobs_simd::aligned_iter::AlignedIter;
use cobs_simd::block_iter::{BlockIter, IterPosition, NextZeroIndex};
use cobs_simd::next_zero_fixed::SimdBlocks16;
use cobs_simd::next_zero_generic::{byte_eq_mask, first_zero_in_vector, SimdBlocksGeneric};

fn collect_blocks<'a, T: NextZeroIndex>(
    mut it: BlockIter<'a, T>,
) -> Vec<&'a [u8]> {
    let mut blocks = Vec::new();
    while let Some(b) = it.next() {
        blocks.push(b);
    }
    blocks
}

#[test]
fn iter() {
    let data = [1, 2, 3, 4, 0, 1, 2, 3];
    let blocks = collect_blocks(BlockIter::<SimdBlocks16>::new(&data, 254));

    assert_eq!(blocks[0], &[1, 2, 3, 4]);
    assert_eq!(blocks[1], &[1, 2, 3]);
}

fn blocks_dont_contain_zero(input_data: Vec<u8>) -> bool {
    let mut it = BlockIter::<SimdBlocks16>::new(&input_data, 254);
    while let Some(block) = it.next() {
        if block.len() > 1 {
            // Blocks of length 1 only contain a zero
            for byte in block.iter().take(block.len() - 1) {
                // All bytes but the last must be non-zero
                if *byte == 0 {
                    return false;
                }
            }
        }
    }
    true
}

#[test]
fn blocks_dont_contain_zero_special() {
    let mut special_input = vec![3_u8; 254];
    special_input[253] = 0;
    assert!(blocks_dont_contain_zero(special_input));
}

#[test]
fn max_block_size() {
    let mut input_data = vec![9_u8; 1000];
    input_data[517] = 0;
    let mut it = BlockIter::<SimdBlocks16>::new(&input_data, 254);
    while let Some(b) = it.next() {
        assert!(b.len() <= 254);
    }
}

#[test]
fn strategies_agree_on_blocks() {
    let mut data = vec![7_u8; 600];
    data[0] = 0;
    data[15] = 0;
    data[16] = 0;
    data[599] = 0;
    let scalar = collect_blocks(BlockIter::<IterPosition>::new(&data, 254));
    let fixed = collect_blocks(BlockIter::<SimdBlocks16>::new(&data, 254));
    let gen8 = collect_blocks(BlockIter::<SimdBlocksGeneric<8>>::new(&data, 254));
    let gen16 = collect_blocks(BlockIter::<SimdBlocksGeneric<16>>::new(&data, 254));
    let gen32 = collect_blocks(BlockIter::<SimdBlocksGeneric<32>>::new(&data, 254));
    assert_eq!(scalar, fixed);
    assert_eq!(scalar, gen8);
    assert_eq!(scalar, gen16);
    assert_eq!(scalar, gen32);
}

#[test]
fn bitmask_assumptions() {
    let input_vec: [u8; 32] = [
        50, 0, 0, 0, 0, 0, 0, 50, 0, 0, 0, 0, 0, 0, 0, 0, 0, 0, 0, 0, 0, 0, 0, 0, 0, 0, 0, 0, 0,
        0, 0, 50,
    ];
    let result_bitmask: u64 = byte_eq_mask(&input_vec, 50);
    println!("{:#032b}", result_bitmask);
    assert!(result_bitmask & (1 << 7) != 0);
    assert!(result_bitmask & (1 << 0) != 0);
    assert!(result_bitmask & (1 << 31) != 0);
}

#[test]
fn trailing_zeros_assumptions() {
    let input: u32 = 0b10000;
    assert_eq!(input.trailing_zeros(), 4);
    let zero: u32 = 0;
    assert_eq!(zero.trailing_zeros(), 32);
}

#[test]
fn first_zero_in_vector_cases() {
    assert_eq!(first_zero_in_vector(&[]), 0);
    assert_eq!(first_zero_in_vector(&[5, 6, 7]), 3);
    assert_eq!(first_zero_in_vector(&[0, 6, 7]), 0);
    assert_eq!(first_zero_in_vector(&[5, 6, 0]), 2);
    let mut chunk = [1_u8; 64];
    assert_eq!(first_zero_in_vector(&chunk), 64);
    chunk[63] = 0;
    assert_eq!(first_zero_in_vector(&chunk), 63);
}

#[test]
fn empty_window_finds_nothing() {
    assert_eq!(SimdBlocks16::next_zero_index(&[]), None);
    assert_eq!(SimdBlocksGeneric::<16>::next_zero_index(&[]), None);
    assert_eq!(IterPosition::next_zero_index(&[0]), Some(0));
    assert_eq!(SimdBlocksGeneric::<8>::next_zero_index(&[0]), Some(0));
}

#[test]
fn aligned_chunks_cover_data() {
    let data: Vec<u8> = (1..=10).collect();
    let mut it = AlignedIter::new(&data, 4);
    let mut chunks: Vec<&[u8]> = Vec::new();
    while let Some(c) = it.next() {
        chunks.push(c);
    }
    assert_eq!(chunks, vec![&[1, 2, 3, 4][..], &[5, 6, 7, 8][..], &[9, 10][..]]);
    let empty: [u8; 0] = [];
    let mut it = AlignedIter::new(&empty, 16);
    assert_eq!(it.next(), None);
}

#[test]
fn zero_at_chunk_boundary() {
    // a zero at the last byte of a 16-byte chunk, and windows whose length
    // is not a multiple of the scan width
    let mut data = vec![27_u8; 37];
    data[15] = 0;
    assert_eq!(SimdBlocks16::next_zero_index(&data), Some(15));
    assert_eq!(SimdBlocksGeneric::<16>::next_zero_index(&data), Some(15));
    assert_eq!(SimdBlocksGeneric::<32>::next_zero_index(&data), Some(15));
    assert_eq!(IterPosition::next_zero_index(&data), Some(15));
    let mut tail = vec![27_u8; 37];
    tail[36] = 0;
    assert_eq!(SimdBlocks16::next_zero_index(&tail), Some(36));
    assert_eq!(SimdBlocksGeneric::<32>::next_zero_index(&tail), Some(36));
}
