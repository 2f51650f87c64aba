use bit_parallelism::four_russians_msb::{
    get_msb_idx_of, lcp_len_of, try_get_msb_idx_of, try_lcp_len_of, FourRussiansMSB, PACKER,
};
use bit_parallelism::numeral::to_binary;
use bit_parallelism::sardine_can::{SardineCan, CAPACITY, MAX_PAYLOAD, REPLICATOR, SENTINELS};
use bit_parallelism::{top_k_bits_of, Violation, WORD_BITS};
use rand::Rng;

/// The position of the first set bit met when going down from bit 63.
fn scan_for_msb(word: u64) -> u8 {
    for i in (0..64).rev() {
        if word & (1u64 << i) != 0 {
            return i;
        }
    }
    panic!("the word is zero")
}

fn can_of(values: &[u8]) -> SardineCan {
    let mut can = SardineCan::new();
    for &v in values {
        assert!(v <= MAX_PAYLOAD && can.len() < CAPACITY);
        can.add(v);
    }
    can
}

#[test]
fn msb_agrees_with_linear_scan_on_every_single_bit() {
    for i in 0..64u32 {
        let word = 1u64 << i;
        assert_eq!(get_msb_idx_of(word) as u32, i);
        assert_eq!(get_msb_idx_of(word | (word - 1)) as u32, i);
        assert_eq!(get_msb_idx_of(word | 1) as u32, i);
    }
}

#[test]
fn msb_agrees_with_linear_scan_on_random_words() {
    let mut rng = rand::thread_rng();
    for _ in 0..2000 {
        let shift: u32 = rng.gen_range(0..64);
        let word: u64 = rng.gen::<u64>() >> shift;
        if word != 0 {
            assert_eq!(get_msb_idx_of(word), scan_for_msb(word));
            assert_eq!(FourRussiansMSB::build(word).get_msb(), scan_for_msb(word));
        }
    }
}

#[test]
fn msb_of_every_byte() {
    for byte in 1..=255u64 {
        let expected = 63 - byte.leading_zeros() as u8;
        assert_eq!(get_msb_idx_of(byte), expected);
        assert_eq!(get_msb_idx_of(byte << 56), expected + 56);
        assert_eq!(get_msb_idx_of((byte << 24) | 0x00ff_ffff), expected + 24);
    }
}

#[test]
fn msb_scenarios() {
    assert_eq!(get_msb_idx_of(873), 9);
    assert_eq!(get_msb_idx_of(1u64 << 55), 55);
    assert_eq!(get_msb_idx_of((1u64 << 56) + 13), 56);
    assert_eq!(get_msb_idx_of(255), 7);
    assert_eq!(get_msb_idx_of(1), 0);
}

#[test]
fn msb_of_the_highest_bit() {
    assert_eq!(get_msb_idx_of(1u64 << 63), 63);
    assert_eq!(get_msb_idx_of(u64::MAX), 63);
    assert_eq!(try_get_msb_idx_of(1u64 << 63), Ok(63));
}

#[test]
fn msb_of_zero_is_refused() {
    assert_eq!(try_get_msb_idx_of(0), Err(Violation::UndefinedInput));
}

#[test]
fn checked_msb_agrees_with_unchecked() {
    for word in [1u64, 2, 3, 873, 1 << 40, u64::MAX] {
        assert_eq!(try_get_msb_idx_of(word), Ok(get_msb_idx_of(word)));
    }
}

#[test]
fn rank_scenario() {
    let can = can_of(&[3, 7, 9, 2]);
    assert_eq!(can.parallel_rank(7), 3);
}

#[test]
fn rank_counts_by_direct_comparison() {
    let mut rng = rand::thread_rng();
    for _ in 0..500 {
        let n: usize = rng.gen_range(0..=7);
        let values: Vec<u8> = (0..n).map(|_| rng.gen_range(0..=127u8)).collect();
        let can = can_of(&values);
        assert_eq!(can.len() as usize, n);
        for query in 0..=127u8 {
            let expected = values.iter().filter(|&&v| v <= query).count();
            assert_eq!(can.parallel_rank(query) as usize, expected);
        }
    }
}

#[test]
fn rank_of_an_empty_bucket_is_zero() {
    let can = SardineCan::new();
    assert_eq!(can.len(), 0);
    assert_eq!(can.parallel_rank(0), 0);
    assert_eq!(can.parallel_rank(127), 0);
}

#[test]
fn rank_counts_a_repeated_value_each_time() {
    let can = can_of(&[5, 5, 5, 0, 127, 5, 6]);
    assert_eq!(can.parallel_rank(4), 1);
    assert_eq!(can.parallel_rank(5), 5);
    assert_eq!(can.parallel_rank(6), 6);
    assert_eq!(can.parallel_rank(126), 6);
    assert_eq!(can.parallel_rank(127), 7);
    assert_eq!(can.parallel_rank(0), 1);
}

#[test]
fn rank_of_a_full_bucket_of_zeros() {
    let can = can_of(&[0; 7]);
    assert_eq!(can.parallel_rank(0), 7);
}

#[test]
fn checked_rank_refuses_a_wide_query() {
    let can = can_of(&[3, 7, 9, 2]);
    assert_eq!(can.try_parallel_rank(7), Ok(3));
    assert_eq!(can.try_parallel_rank(128), Err(Violation::PayloadOutOfRange));
    assert_eq!(can.try_parallel_rank(255), Err(Violation::PayloadOutOfRange));
}

#[test]
fn checked_add_refuses_a_wide_value() {
    let mut can = can_of(&[1, 2]);
    assert_eq!(can.try_add(128), Err(Violation::PayloadOutOfRange));
    assert_eq!(can.len(), 2);
    assert_eq!(can.to_string(), "100000010\n");
    assert_eq!(can.try_add(127), Ok(()));
    assert_eq!(can.len(), 3);
}

#[test]
fn checked_add_refuses_an_eighth_value() {
    let mut can = SardineCan::default();
    for v in 1..=7u8 {
        assert_eq!(can.try_add(v), Ok(()));
    }
    let before = can.to_string();
    assert_eq!(can.try_add(8), Err(Violation::CapacityExceeded));
    assert_eq!(can.len(), 7);
    assert_eq!(can.to_string(), before);
    assert_eq!(can.parallel_rank(7), 7);
    assert_eq!(can.parallel_rank(3), 3);
}

#[test]
fn checked_add_names_the_value_before_the_room() {
    let mut can = can_of(&[0, 1, 2, 3, 4, 5, 6]);
    assert_eq!(can.try_add(200), Err(Violation::PayloadOutOfRange));
}

#[test]
fn text_of_a_bucket() {
    assert_eq!(SardineCan::new().to_string(), "0\n");
    assert_eq!(can_of(&[3]).to_string(), "11\n");
    assert_eq!(can_of(&[1, 2]).to_string(), "100000010\n");
    assert_eq!(can_of(&[0, 0, 5]).to_string(), "101\n");
    assert_eq!(
        can_of(&[127, 0, 127]).to_string(),
        "11111110000000001111111\n"
    );
}

#[test]
fn binary_numerals() {
    assert_eq!(to_binary(0), "0");
    assert_eq!(to_binary(1), "1");
    assert_eq!(to_binary(2), "10");
    assert_eq!(to_binary(873), "1101101001");
    assert_eq!(to_binary(u64::MAX), "1".repeat(64));
    assert_eq!(to_binary(1 << 63), format!("1{}", "0".repeat(63)));
    let mut rng = rand::thread_rng();
    for _ in 0..200 {
        let w: u64 = rng.gen();
        assert_eq!(to_binary(w), format!("{:b}", w));
    }
}

#[test]
fn tile_64_fills_every_field() {
    for query in 0..=MAX_PAYLOAD {
        let tiled = SardineCan::parallel_tile_64(query);
        for field in 0..8 {
            let got = (tiled >> (8 * field)) & 0xff;
            assert_eq!(got & 0x7f, query as u64);
            assert_eq!(got >> 7, 1);
        }
    }
    assert_eq!(SardineCan::parallel_tile_64(0), SENTINELS);
    assert_eq!(SardineCan::parallel_tile_64(1), SENTINELS | REPLICATOR);
    assert_eq!(SardineCan::parallel_tile_64(127), u64::MAX);
}

#[test]
fn tile_128_fills_every_field() {
    for query in 0..=255u8 {
        let tiled = FourRussiansMSB::parallel_tile_128(query);
        for field in 0..8 {
            let got = (tiled >> (9 * field)) & 0x1ff;
            assert_eq!(got & 0xff, query as u128);
            assert_eq!(got >> 8, 1);
        }
        assert_eq!(tiled >> 72, 0);
    }
    assert_eq!(
        FourRussiansMSB::parallel_tile_128(0b1010_0101),
        0b110100101_110100101_110100101_110100101_110100101_110100101_110100101_110100101
    );
}

#[test]
fn count_of_raised_sentinels() {
    assert_eq!(SardineCan::parallel_count(0), 0);
    assert_eq!(SardineCan::parallel_count(0x80), 1);
    assert_eq!(SardineCan::parallel_count(1 << 63), 1);
    assert_eq!(SardineCan::parallel_count(0x0080_8080_8080_8080), 7);
    assert_eq!(SardineCan::parallel_count(0x8000_0080_0000_8000), 3);
    for pattern in 0..256u64 {
        let mut word = 0u64;
        for field in 0..8 {
            if pattern & (1 << field) != 0 {
                word |= 1 << (8 * field + 7);
            }
        }
        assert_eq!(
            SardineCan::parallel_count(word) as u32,
            word.count_ones() % 8
        );
    }
}

#[test]
fn count_of_eight_raised_sentinels_wraps() {
    assert_eq!(SardineCan::parallel_count(SENTINELS), 0);
}

#[test]
fn top_k_bits_clears_the_low_bits() {
    let mut rng = rand::thread_rng();
    for k in 1..=64u64 {
        for _ in 0..20 {
            let x: u64 = rng.gen();
            let low = WORD_BITS - k;
            let expected = if low == 0 { x } else { (x >> low) << low };
            assert_eq!(top_k_bits_of(x, k), expected);
        }
    }
}

#[test]
fn top_k_bits_exact_values() {
    assert_eq!(top_k_bits_of(u64::MAX, 1), 1 << 63);
    assert_eq!(top_k_bits_of(u64::MAX, 4), 0xf000_0000_0000_0000);
    assert_eq!(top_k_bits_of(u64::MAX, 63), u64::MAX - 1);
    assert_eq!(top_k_bits_of(u64::MAX, 64), u64::MAX);
    assert_eq!(top_k_bits_of(0x1234_5678_9abc_def0, 16), 0x1234_0000_0000_0000);
    assert_eq!(top_k_bits_of(0x7fff_ffff_ffff_ffff, 1), 0);
    assert_eq!(top_k_bits_of(0, 17), 0);
}

#[test]
fn common_prefix_is_63_minus_msb_of_xor() {
    let mut rng = rand::thread_rng();
    for _ in 0..1000 {
        let a: u64 = rng.gen();
        let shift: u32 = rng.gen_range(0..64);
        let b: u64 = a ^ (rng.gen::<u64>() >> shift);
        if a != b {
            let len = lcp_len_of(a, b);
            assert_eq!(len, 63 - get_msb_idx_of(a ^ b) as u64);
            assert_eq!(len, (a ^ b).leading_zeros() as u64);
            assert_eq!(try_lcp_len_of(a, b), Ok(len));
        }
    }
}

#[test]
fn common_prefix_exact_values() {
    assert_eq!(lcp_len_of(0, 1), 63);
    assert_eq!(lcp_len_of(0, u64::MAX), 0);
    assert_eq!(lcp_len_of(1 << 63, 0), 0);
    assert_eq!(lcp_len_of(0xff00, 0xff80), 56);
    assert_eq!(lcp_len_of(0b1011, 0b1001), 62);
}

#[test]
fn common_prefix_of_equal_words_is_refused() {
    assert_eq!(try_lcp_len_of(0, 0), Err(Violation::UndefinedInput));
    assert_eq!(try_lcp_len_of(873, 873), Err(Violation::UndefinedInput));
    assert_eq!(
        try_lcp_len_of(u64::MAX, u64::MAX),
        Err(Violation::UndefinedInput)
    );
}

#[test]
fn packer_gathers_the_block_tops() {
    // The position of the top block alone decides the answer here.
    for block in 0..8u32 {
        let word = 1u64 << (8 * block);
        assert_eq!(get_msb_idx_of(word) as u32, 8 * block);
        let word = 0x80u64 << (8 * block);
        assert_eq!(get_msb_idx_of(word) as u32, 8 * block + 7);
    }
    assert_eq!(PACKER.count_ones(), 9);
}
