use blindmark::codec::{
    block_capacity, block_origin, block_vote, check_even_dimensions, decide_bits,
    fast_mode_region, generate_shuffler, payload_bit, read_block, shuffle_block, shuffle_seed,
    unshuffle_block, write_block,
};
use blindmark::error::BlindMarkError;
use blindmark::random::random_permutation;

#[test]
fn test_shuffler_deterministic() {
    let p1 = generate_shuffler(42);
    let p2 = generate_shuffler(42);
    assert_eq!(p1, p2, "same block index gives the same permutation");
    let p3 = generate_shuffler(43);
    assert_ne!(p1, p3, "different block indices give different permutations");
}

#[test]
fn shuffler_is_a_permutation() {
    for b in 0..50u64 {
        let mut p = generate_shuffler(b);
        p.sort();
        assert_eq!(p, (0..16).collect::<Vec<usize>>());
    }
}

#[test]
fn shuffle_seed_is_offset_block_index() {
    assert_eq!(shuffle_seed(0), 1_000_003);
    assert_eq!(shuffle_seed(7), 1_000_010);
    assert_eq!(shuffle_seed(u64::MAX), 1_000_002);
}

#[test]
fn unshuffle_restores_block() {
    let block: Vec<f64> = (0..16).map(|i| i as f64 * 1.5).collect();
    let perm = generate_shuffler(5);
    let shuffled = shuffle_block(&block, &perm);
    for i in 0..16 {
        assert_eq!(shuffled[i], block[perm[i]]);
    }
    let back = unshuffle_block(&shuffled, &perm);
    assert_eq!(back, block);
}

#[test]
fn random_permutation_covers_range() {
    let mut p = random_permutation(10);
    p.sort();
    assert_eq!(p, (0..10).collect::<Vec<usize>>());
    assert!(random_permutation(0).is_empty());
}

#[test]
fn capacity_at_boundary() {
    // 64 x 136 low band: 16 x 34 = 544 blocks, exactly a raw-text frame
    assert_eq!(block_capacity(64, 136, 544).unwrap(), 544);
    // 12 x 724 low band: 3 x 181 = 543 blocks, one short
    assert!(matches!(block_capacity(12, 724, 544), Err(BlindMarkError::ExtractionFailed(_))));
    // 128 x 128 image: 64 x 64 low band, 256 blocks
    assert_eq!(block_capacity(64, 64, 128).unwrap(), 256);
    assert!(block_capacity(64, 64, 544).is_err());
}

#[test]
fn odd_dimensions_fail() {
    assert!(matches!(check_even_dimensions(63, 64), Err(BlindMarkError::ImageProcessing(_))));
    assert!(check_even_dimensions(64, 15).is_err());
    assert!(check_even_dimensions(64, 64).is_ok());
}

#[test]
fn block_layout_is_row_major() {
    assert_eq!(block_origin(0, 32), (0, 0));
    assert_eq!(block_origin(33, 32), (4, 4));
    assert_eq!(block_origin(31, 32), (0, 124));
    let bits = [1u8, 0, 1];
    assert_eq!(payload_bit(&bits, 0), 1);
    assert_eq!(payload_bit(&bits, 4), 0);
    assert_eq!(payload_bit(&bits, 5), 1);
}

#[test]
fn votes_weigh_three_to_one() {
    assert_eq!(block_vote(false, false), 0);
    assert_eq!(block_vote(false, true), 1);
    assert_eq!(block_vote(true, false), 3);
    assert_eq!(block_vote(true, true), 4);
}

#[test]
fn bits_pool_channels_and_copies() {
    // six blocks carrying a two-bit payload: bit 0 in blocks 0, 2, 4
    let r = vec![4, 0, 4, 0, 3, 1];
    let g = vec![4, 0, 3, 1, 4, 0];
    let b = vec![0, 0, 1, 3, 0, 0];
    // bit 0: votes 4+4+0 + 4+3+1 + 3+4+0 = 23 > 6*3; bit 1: 0+0+0 + 0+1+3 + 1+0+0 = 5
    assert_eq!(decide_bits(&r, &g, &b, 2).unwrap(), vec![1, 0]);
    // exactly at the threshold: 6 quarter votes per copy is not above 1.5
    let r = vec![2];
    let g = vec![2];
    let b = vec![2];
    assert_eq!(decide_bits(&r, &g, &b, 1).unwrap(), vec![0]);
    let b = vec![3];
    assert_eq!(decide_bits(&r, &g, &b, 1).unwrap(), vec![1]);
}

#[test]
fn bits_need_enough_blocks() {
    let v = vec![4u8; 3];
    assert!(matches!(decide_bits(&v, &v, &v, 4), Err(BlindMarkError::ExtractionFailed(_))));
    assert_eq!(decide_bits(&v, &v, &v, 3).unwrap(), vec![1, 1, 1]);
}

#[test]
fn fast_mode_only_for_large_images() {
    assert_eq!(fast_mode_region(1024, 1024, true), Some(512));
    assert_eq!(fast_mode_region(1024, 512, true), None);
    assert_eq!(fast_mode_region(1024, 1024, false), None);
}

#[test]
fn blocks_read_and_write_row_major() {
    // an 8 x 8 band holding its own indices
    let mut band: Vec<u32> = (0..64).collect();
    let block = read_block(&band, 8, 4, 4);
    assert_eq!(block, vec![36, 37, 38, 39, 44, 45, 46, 47, 52, 53, 54, 55, 60, 61, 62, 63]);
    let fresh: Vec<u32> = (100..116).collect();
    write_block(&mut band, 8, 0, 4, &fresh);
    assert_eq!(&band[4..8], &[100, 101, 102, 103]);
    assert_eq!(&band[28..32], &[112, 113, 114, 115]);
    assert_eq!(band[0], 0);
    assert_eq!(band[63], 63);
}
