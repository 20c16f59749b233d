use tfhe::parallel::{join, par_map};
use tfhe::{
    Block, BooleanBlock, IntegerRadixCiphertext, LookupTable, RadixCiphertext, ServerKey,
    SignedRadixCiphertext,
};

fn key() -> ServerKey {
    ServerKey::new(4, 4).unwrap()
}

fn encrypt_blocks(value: u64, n: usize) -> Vec<Block> {
    (0..n)
        .map(|i| Block::new((value >> (2 * i)) & 3, 3, 4, 4).unwrap())
        .collect()
}

fn encrypt_radix(value: u64, n: usize) -> RadixCiphertext {
    RadixCiphertext { blocks: encrypt_blocks(value, n) }
}

fn decrypt<T: IntegerRadixCiphertext>(ct: &T) -> u64 {
    ct.blocks()
        .iter()
        .enumerate()
        .map(|(i, b)| b.payload << (2 * i))
        .sum()
}

fn encrypt_bool(b: bool) -> BooleanBlock {
    BooleanBlock::try_new(Block::new(b as u64, 1, 4, 4).unwrap()).unwrap()
}

fn payloads<T: IntegerRadixCiphertext>(ct: &T) -> Vec<u64> {
    ct.blocks().iter().map(|b| b.payload).collect()
}

#[test]
fn selection_returns_operand_named_by_condition() {
    let sks = key();
    for (a, b) in [(128u64, 55u64), (0, 255), (17, 18), (255, 0)] {
        let ct_a = encrypt_radix(a, 4);
        let ct_b = encrypt_radix(b, 4);
        for s in [false, true] {
            let c = encrypt_bool(s);
            let expected = if s { a } else { b };
            let r: RadixCiphertext = sks.if_then_else_parallelized(&c, &ct_a, &ct_b);
            assert_eq!(decrypt(&r), expected);
            let r: RadixCiphertext = sks.cmux_parallelized(&c, &ct_a, &ct_b);
            assert_eq!(decrypt(&r), expected);
            let r: RadixCiphertext = sks.select_parallelized(&c, &ct_a, &ct_b);
            assert_eq!(decrypt(&r), expected);
            let r: RadixCiphertext = sks.unchecked_if_then_else_parallelized(&c, &ct_a, &ct_b);
            assert_eq!(decrypt(&r), expected);
            let r: RadixCiphertext = sks.unchecked_cmux(&c, &ct_a, &ct_b);
            assert_eq!(decrypt(&r), expected);
            assert!(r.blocks.iter().all(|blk| blk.degree < 4));
        }
    }
}

#[test]
fn selection_propagates_pending_carries_first() {
    let sks = key();
    // 5 held in the first block with a pending carry: value 5 = digits [1, 1]
    let carried = RadixCiphertext {
        blocks: vec![
            Block::new(5, 5, 4, 4).unwrap(),
            Block::new(0, 0, 4, 4).unwrap(),
            Block::new(0, 0, 4, 4).unwrap(),
            Block::new(0, 0, 4, 4).unwrap(),
        ],
    };
    let other = encrypt_radix(200, 4);
    let r: RadixCiphertext = sks.if_then_else_parallelized(&encrypt_bool(true), &carried, &other);
    assert_eq!(payloads(&r), vec![1, 1, 0, 0]);
    let r: RadixCiphertext = sks.if_then_else_parallelized(&encrypt_bool(false), &carried, &other);
    assert_eq!(decrypt(&r), 200);
    // the caller's operand is untouched
    assert_eq!(carried.blocks[0].payload, 5);
}

#[test]
fn smart_selection_normalizes_operands_in_place() {
    let sks = key();
    let mut t = RadixCiphertext {
        blocks: vec![Block::new(7, 9, 4, 4).unwrap(), Block::new(3, 3, 4, 4).unwrap()],
    };
    let mut f = encrypt_radix(9, 2);
    let mut c = encrypt_bool(true);
    let r: RadixCiphertext = sks.smart_if_then_else_parallelized(&mut c, &mut t, &mut f);
    // 7 + 3 * 4 = 19, modulo 16 is 3
    assert_eq!(payloads(&t), vec![3, 0]);
    assert!(t.blocks.iter().all(|b| b.degree == 3));
    assert_eq!(decrypt(&r), 3);
    let mut c = encrypt_bool(false);
    let r: RadixCiphertext = sks.smart_cmux_parallelized(&mut c, &mut t, &mut f);
    assert_eq!(decrypt(&r), 9);
}

#[test]
fn full_propagation_moves_carries_up() {
    let sks = key();
    let mut ct = RadixCiphertext {
        blocks: vec![Block::new(7, 7, 4, 4).unwrap(), Block::new(3, 3, 4, 4).unwrap()],
    };
    sks.full_propagate_parallelized(&mut ct);
    assert_eq!(payloads(&ct), vec![3, 0]);
    assert!(ct.blocks.iter().all(|b| b.degree == 3));
}

#[test]
fn scalar_selection_against_ciphertext() {
    let sks = key();
    let ct_a = encrypt_radix(126, 4);
    for s in [false, true] {
        let c = encrypt_bool(s);
        let r: RadixCiphertext = sks.if_then_else_ct_scalar_parallelized(&c, &ct_a, 55);
        assert_eq!(decrypt(&r), if s { 126 } else { 55 });
        let r: RadixCiphertext = sks.if_then_else_scalar_ct_parallelized(&c, 55, &ct_a);
        assert_eq!(decrypt(&r), if s { 55 } else { 126 });
    }
}

#[test]
fn signed_scalar_selection_uses_twos_complement_digits() {
    let sks = key();
    let a = 126i8;
    let b = -55i8;
    let ct_a = SignedRadixCiphertext { blocks: encrypt_blocks(a as u8 as u64, 4) };
    let r: SignedRadixCiphertext =
        sks.if_then_else_ct_scalar_parallelized(&encrypt_bool(false), &ct_a, b as i128 as u128);
    assert_eq!(decrypt(&r) as u8 as i8, b);
    let r: SignedRadixCiphertext =
        sks.if_then_else_ct_scalar_parallelized(&encrypt_bool(true), &ct_a, b as i128 as u128);
    assert_eq!(decrypt(&r) as u8 as i8, a);
}

#[test]
fn scalar_selection_is_symmetric_under_negation() {
    let sks = key();
    let f = encrypt_radix(201, 4);
    for s in [false, true] {
        let c = encrypt_bool(s);
        let not_c = sks.boolean_bitnot(&c);
        let left: RadixCiphertext = sks.if_then_else_scalar_ct_parallelized(&c, 9, &f);
        let right: RadixCiphertext = sks.if_then_else_ct_scalar_parallelized(&not_c, &f, 9);
        assert_eq!(payloads(&left), payloads(&right));
    }
}

#[test]
fn boolean_negation() {
    let sks = key();
    assert_eq!(sks.boolean_bitnot(&encrypt_bool(true)).0.payload, 0);
    assert_eq!(sks.boolean_bitnot(&encrypt_bool(false)).0.payload, 1);
    assert!(sks.boolean_bitnot(&encrypt_bool(false)).0.degree <= 1);
}

#[test]
fn boolean_selection_exhaustive() {
    let sks = key();
    for cond in [true, false] {
        for a in [true, false] {
            for b in [true, false] {
                let r = sks.boolean_if_then_else_parallelized(
                    &encrypt_bool(cond),
                    &encrypt_bool(a),
                    &encrypt_bool(b),
                );
                assert_eq!(r.0.payload == 1, if cond { a } else { b });
                assert!(r.0.degree <= 1);
            }
        }
    }
}

#[test]
fn zero_out_twice_equals_once() {
    let sks = key();
    let cond = Block::new(1, 1, 4, 4).unwrap();
    let mut ct = encrypt_radix(0b1110_0111, 4);
    sks.zero_out_if_condition_equals(&mut ct, &cond, 1);
    assert_eq!(payloads(&ct), vec![0, 0, 0, 0]);
    let once = payloads(&ct);
    sks.zero_out_if_condition_equals(&mut ct, &cond, 1);
    assert_eq!(payloads(&ct), once);
}

#[test]
fn zero_out_with_false_predicate_keeps_values() {
    let sks = key();
    let cond = Block::new(1, 1, 4, 4).unwrap();
    let mut ct = encrypt_radix(0b1110_0111, 4);
    sks.zero_out_if_condition_equals(&mut ct, &cond, 2);
    assert_eq!(decrypt(&ct), 0b1110_0111);
    // a condition of degree zero is decided in the clear: nothing changes
    let known_zero = Block::new(0, 0, 4, 4).unwrap();
    let before = encrypt_radix(0b1110_0111, 4);
    let mut ct = before.clone();
    sks.zero_out_if_condition_equals(&mut ct, &known_zero, 1);
    assert_eq!(ct.blocks, before.blocks);
    // and a true predicate on it gives trivial zeros
    sks.zero_out_if_condition_equals(&mut ct, &known_zero, 0);
    assert!(ct.blocks.iter().all(|b| b.payload == 0 && b.degree == 0));
}

#[test]
fn zero_out_if_condition_is_false_masks_on_zero() {
    let sks = key();
    let mut ct = encrypt_radix(77, 4);
    sks.zero_out_if_condition_is_false(&mut ct, &Block::new(1, 1, 4, 4).unwrap());
    assert_eq!(decrypt(&ct), 77);
    sks.zero_out_if_condition_is_false(&mut ct, &Block::new(0, 1, 4, 4).unwrap());
    assert_eq!(decrypt(&ct), 0);
}

#[test]
fn scalar_scalar_selection_encrypts_digits() {
    let sks = key();
    for s in [false, true] {
        let c = encrypt_bool(s);
        let r: RadixCiphertext = sks.scalar_if_then_else_parallelized(&c, 200, 7, 4);
        assert_eq!(decrypt(&r), if s { 200 } else { 7 });
        let r: RadixCiphertext = sks.scalar_cmux_parallelized(&c, 200, 7, 4);
        assert_eq!(decrypt(&r), if s { 200 } else { 7 });
        let r: SignedRadixCiphertext = sks.scalar_select_parallelized(&c, 3, 12, 2);
        assert_eq!(decrypt(&r), if s { 3 } else { 12 });
    }
}

#[test]
fn batched_evaluation_matches_individual_for_any_chunk() {
    let sks = key();
    let functions: Vec<Vec<u64>> =
        vec![vec![0, 3], vec![2, 1], vec![5, 15], vec![1, 1], vec![20, 9]];
    for x in [0u64, 1] {
        let input = Block::new(x, 1, 4, 4).unwrap();
        let one_by_one: Vec<u64> = sks
            .evaluate_many_batched(&input, &functions, 2, 1)
            .iter()
            .map(|b| b.payload)
            .collect();
        let expected: Vec<u64> = functions.iter().map(|f| f[x as usize] % 16).collect();
        assert_eq!(one_by_one, expected);
        for chunk in 2..=8 {
            let batched: Vec<u64> = sks
                .evaluate_many_batched(&input, &functions, 2, chunk)
                .iter()
                .map(|b| b.payload)
                .collect();
            assert_eq!(batched, one_by_one);
        }
    }
}

#[test]
fn message_extraction_drops_carry() {
    let sks = key();
    let mut b = Block::new(13, 14, 4, 4).unwrap();
    sks.message_extract_assign(&mut b);
    assert_eq!(b, Block::new(1, 3, 4, 4).unwrap());
}

#[test]
fn lookup_table_application_and_packing() {
    let sks = key();
    let lut = LookupTable { entries: (0..16).map(|x| (x * 3) % 16).collect(), degree: 15 };
    let mut b = Block::new(5, 6, 4, 4).unwrap();
    sks.apply_lookup_table_assign(&mut b, &lut);
    assert_eq!(b, Block::new(15, 15, 4, 4).unwrap());
    let packed_lut = LookupTable { entries: (0..16).collect(), degree: 15 };
    let mut lhs = Block::new(2, 3, 4, 4).unwrap();
    let rhs = Block::new(3, 3, 4, 4).unwrap();
    sks.unchecked_apply_lookup_table_bivariate_assign(&mut lhs, &rhs, &packed_lut);
    assert_eq!(lhs.payload, 2 * 4 + 3);
}

#[test]
fn block_arithmetic_tracks_degree() {
    let sks = key();
    let mut a = Block::new(2, 3, 4, 4).unwrap();
    let b = Block::new(1, 3, 4, 4).unwrap();
    sks.unchecked_add_assign(&mut a, &b);
    assert_eq!((a.payload, a.degree), (3, 6));
    sks.unchecked_scalar_add_assign(&mut a, 4);
    assert_eq!((a.payload, a.degree), (7, 10));
    let m = sks.unchecked_scalar_mul(&b, 2);
    assert_eq!((m.payload, m.degree), (2, 6));
    assert!(!a.carry_is_empty());
    assert!(b.carry_is_empty());
}

#[test]
fn parallel_helpers_keep_order() {
    let (x, y) = join(|| 3u64 + 4, || vec![1u64, 2]);
    assert_eq!(x, 7);
    assert_eq!(y, vec![1, 2]);
    let v: Vec<u64> = (0..100).collect();
    let doubled = par_map(&v, |x: &u64| x * 2);
    assert_eq!(doubled, (0..100).map(|x| x * 2).collect::<Vec<u64>>());
}

#[test]
fn empty_integers_select_to_empty() {
    let sks = key();
    let empty = RadixCiphertext { blocks: vec![] };
    let r: RadixCiphertext = sks.if_then_else_parallelized(&encrypt_bool(true), &empty, &empty);
    assert!(r.blocks.is_empty());
    let r: RadixCiphertext = sks.scalar_if_then_else_parallelized(&encrypt_bool(true), 5, 6, 0);
    assert!(r.blocks.is_empty());
    let out = sks.evaluate_many_batched(&Block::new(1, 1, 4, 4).unwrap(), &vec![], 2, 3);
    assert!(out.is_empty());
}

#[test]
fn largest_plaintext_space() {
    assert!(ServerKey::new(256, 256).is_some());
    assert!(ServerKey::new(256, 257).is_none());
    assert!(Block::new(65535, 65535, 256, 256).is_some());
    assert!(Block::new(65536, 65536, 256, 256).is_none());
    let sks = ServerKey::new(16, 16).unwrap();
    let c = BooleanBlock::try_new(Block::new(1, 1, 16, 16).unwrap()).unwrap();
    let r: RadixCiphertext = sks.scalar_if_then_else_parallelized(&c, 0xBEEF, 0x1234, 4);
    let digits: Vec<u64> = r.blocks.iter().map(|b| b.payload).collect();
    assert_eq!(digits, vec![0xF, 0xE, 0xE, 0xB]);
}

#[test]
fn zero_out_decided_in_the_clear_leaves_blocks_identical() {
    let sks = key();
    // the condition may hold 0 or 1; "equals 3" is false on both
    let cond = Block::new(1, 1, 4, 4).unwrap();
    let before = RadixCiphertext {
        blocks: vec![Block::new(2, 2, 4, 4).unwrap(), Block::new(0, 0, 4, 4).unwrap()],
    };
    let mut ct = before.clone();
    sks.zero_out_if_condition_equals(&mut ct, &cond, 3);
    assert_eq!(ct.blocks, before.blocks);
}

#[test]
fn zero_out_skips_degree_zero_blocks_and_is_idempotent() {
    let sks = key();
    let cond = Block::new(1, 1, 4, 4).unwrap();
    let mut ct = RadixCiphertext {
        blocks: vec![Block::new(2, 2, 4, 4).unwrap(), Block::new(0, 0, 4, 4).unwrap()],
    };
    sks.zero_out_if_condition_equals(&mut ct, &cond, 1);
    assert_eq!(ct.blocks[0], Block::new(0, 3, 4, 4).unwrap());
    assert_eq!(ct.blocks[1], Block::new(0, 0, 4, 4).unwrap());
    let once = ct.blocks.clone();
    sks.zero_out_if_condition_equals(&mut ct, &cond, 1);
    assert_eq!(ct.blocks, once);
}

#[test]
fn selection_results_are_message_extracted() {
    let sks = key();
    let a = encrypt_radix(9, 3);
    let b = RadixCiphertext {
        blocks: vec![Block::new(1, 1, 4, 4).unwrap(), Block::new(0, 0, 4, 4).unwrap(), Block::new(2, 2, 4, 4).unwrap()],
    };
    let r1: RadixCiphertext = sks.unchecked_if_then_else_parallelized(&encrypt_bool(false), &a, &b);
    let r2: RadixCiphertext = sks.unchecked_cmux(&encrypt_bool(false), &a, &b);
    assert_eq!(r1.blocks, r2.blocks);
    assert!(r1.blocks.iter().all(|blk| blk.degree == 3));
    assert_eq!(payloads(&r1), vec![1, 0, 2]);
    let r: RadixCiphertext = sks.scalar_if_then_else_parallelized(&encrypt_bool(true), 39, 0, 3);
    assert!(r.blocks.iter().all(|blk| blk.degree < 4));
}

#[test]
fn wide_and_negative_scalars_select_over_many_blocks() {
    let sks = key();
    let wide: u128 = (1u128 << 100) | 0xABCD;
    let r: RadixCiphertext = sks.scalar_if_then_else_parallelized(&encrypt_bool(true), wide, 0, 64);
    let value: u128 = r
        .blocks
        .iter()
        .enumerate()
        .map(|(i, b)| (b.payload as u128) << (2 * i))
        .sum();
    assert_eq!(value, wide);
    // -3 as a 128-bit two's-complement value: every digit above the first is 3
    let ct = encrypt_radix(5, 40);
    let r: SignedRadixCiphertext = sks.if_then_else_ct_scalar_parallelized(
        &encrypt_bool(false),
        &SignedRadixCiphertext { blocks: ct.blocks.clone() },
        -3i128 as u128,
    );
    assert_eq!(r.blocks[0].payload, 1);
    assert!(r.blocks[1..].iter().all(|b| b.payload == 3));
}
