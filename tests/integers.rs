use tfhe::{Block, BooleanBlock, CrtCiphertext, IntegerRadixCiphertext, RadixCiphertext, ServerKey};

fn default_key() -> ServerKey {
    ServerKey::new(4, 4).unwrap()
}

fn multi_bit_key() -> ServerKey {
    ServerKey::new(4, 8).unwrap()
}

fn encrypt(sks: &ServerKey, value: u64, n: usize) -> RadixCiphertext {
    let m = sks.message_modulus();
    let c = sks.carry_modulus();
    let mut rest = value;
    let mut blocks = Vec::new();
    for _ in 0..n {
        blocks.push(Block::new(rest % m, m - 1, m, c).unwrap());
        rest /= m;
    }
    RadixCiphertext { blocks }
}

fn encrypt_trivial(sks: &ServerKey, value: u64, n: usize) -> RadixCiphertext {
    let mut ct = encrypt(sks, value, n);
    for b in ct.blocks.iter_mut() {
        b.degree = b.payload;
    }
    ct
}

fn decrypt(sks: &ServerKey, ct: &RadixCiphertext) -> u128 {
    let m = sks.message_modulus() as u128;
    ct.blocks().iter().rev().fold(0u128, |acc, b| acc * m + b.payload as u128)
}

fn encrypt_bool(sks: &ServerKey, b: bool) -> BooleanBlock {
    let block = Block::new(b as u64, 1, sks.message_modulus(), sks.carry_modulus()).unwrap();
    BooleanBlock::try_new(block).unwrap()
}

fn quickstart(sks: &ServerKey, a: u64, b: u64, n: usize) {
    let ct_a = encrypt(sks, a, n);
    let ct_b = encrypt(sks, b, n);
    for cond in [true, false] {
        let c = encrypt_bool(sks, cond);
        let r: RadixCiphertext = sks.if_then_else_parallelized(&c, &ct_a, &ct_b);
        assert_eq!(decrypt(sks, &r), if cond { a } else { b } as u128);
    }
}

fn if_then_else_case(sks: &ServerKey) {
    let a = 128u64;
    let b = 55u64;
    let ct_a = encrypt(sks, a, 4);
    let ct_b = encrypt(sks, b, 4);
    let c = encrypt_bool(sks, a >= 66);
    let r: RadixCiphertext = sks.if_then_else_parallelized(&c, &ct_a, &ct_b);
    assert_eq!(decrypt(sks, &r), if a >= 66 { a } else { b } as u128);
    let r: RadixCiphertext = sks.if_then_else_ct_scalar_parallelized(&c, &ct_a, b as u128);
    assert_eq!(decrypt(sks, &r), a as u128);
    let r: RadixCiphertext = sks.if_then_else_scalar_ct_parallelized(&c, b as u128, &ct_a);
    assert_eq!(decrypt(sks, &r), b as u128);
}

fn bitwise_case(sks: &ServerKey) {
    for cond in [true, false] {
        for a in [true, false] {
            for b in [true, false] {
                let r = sks.boolean_if_then_else_parallelized(
                    &encrypt_bool(sks, cond),
                    &encrypt_bool(sks, a),
                    &encrypt_bool(sks, b),
                );
                assert_eq!(r.0.payload == 1, if cond { a } else { b });
            }
        }
        let not = sks.boolean_bitnot(&encrypt_bool(sks, cond));
        assert_eq!(not.0.payload == 1, !cond);
    }
}

fn sum_case(sks: &ServerKey) {
    let basis = [2u64, 3, 5];
    let total = sks.message_modulus() * sks.carry_modulus();
    let blocks = basis
        .iter()
        .map(|&m| Block::new(0, m - 1, m, total / m).unwrap())
        .collect();
    let mut ct = CrtCiphertext::new(blocks, basis.to_vec()).unwrap();
    let mut expected = 0u64;
    for x in [14u64, 14, 7, 29, 100] {
        sks.smart_crt_scalar_add_assign(&mut ct, x);
        expected = (expected + x) % 30;
        for (b, m) in ct.blocks.iter().zip(basis.iter()) {
            assert_eq!(b.payload % m, expected % m);
        }
    }
}

fn parity_case(sks: &ServerKey) {
    for x in [0u64, 1, 6, 13, 200, 255] {
        let low = encrypt(sks, x, 4).blocks[0];
        let is_odd = encrypt_bool(sks, low.payload % 2 == 1);
        let r: RadixCiphertext = sks.scalar_if_then_else_parallelized(&is_odd, 1, 0, 4);
        assert_eq!(decrypt(sks, &r), (x % 2) as u128);
        let r: RadixCiphertext = sks.scalar_if_then_else_parallelized(&is_odd, 0, 1, 4);
        assert_eq!(decrypt(sks, &r), ((x + 1) % 2) as u128);
    }
}

fn leading_trailing_case(sks: &ServerKey) {
    // more blocks than the value needs: the leading digits are zeros
    for x in [0u64, 1, 0b1000_0000, 0xF0, 0xFFFF] {
        let c = encrypt_bool(sks, true);
        let r: RadixCiphertext = sks.scalar_if_then_else_parallelized(&c, x as u128, 0, 12);
        assert_eq!(r.blocks.len(), 12);
        assert_eq!(decrypt(sks, &r), x as u128);
        let first_nonzero = r.blocks.iter().position(|b| b.payload != 0);
        assert_eq!(first_nonzero.is_none(), x == 0);
    }
}

fn ilog2_case(sks: &ServerKey) {
    let m = sks.message_modulus();
    for k in 0..16u32 {
        let x = 1u64 << k;
        let c = encrypt_bool(sks, true);
        let r: RadixCiphertext = sks.scalar_if_then_else_parallelized(&c, x as u128, 0, 8);
        let top = r.blocks.iter().rposition(|b| b.payload != 0).unwrap();
        // the highest non-zero digit sits at block ilog2(x) / log2(m)
        assert_eq!(top as u32, k / m.ilog2());
        assert_eq!(r.blocks[top].payload, 1 << (k % m.ilog2()));
    }
}

#[test]
fn test_uint8_quickstart_gpu() {
    quickstart(&default_key(), 27, 128, 4);
}

#[test]
fn test_uint8_quickstart_gpu_multibit() {
    quickstart(&multi_bit_key(), 27, 128, 4);
}

#[test]
fn test_uint32_quickstart_gpu() {
    quickstart(&default_key(), 1_000_000, 4_000_000_000, 16);
}

#[test]
fn test_uint32_quickstart_gpu_multibit() {
    quickstart(&multi_bit_key(), 1_000_000, 4_000_000_000, 16);
}

#[test]
fn test_uint64_quickstart_gpu() {
    quickstart(&default_key(), u64::MAX, 0x0123_4567_89AB_CDEF, 32);
}

#[test]
fn test_uint64_quickstart_gpu_multibit() {
    quickstart(&multi_bit_key(), u64::MAX, 0x0123_4567_89AB_CDEF, 32);
}

#[test]
fn test_trivial_uint8_gpu() {
    let sks = default_key();
    let a = encrypt_trivial(&sks, 180, 4);
    let b = encrypt_trivial(&sks, 3, 4);
    let r: RadixCiphertext = sks.if_then_else_parallelized(&encrypt_bool(&sks, true), &a, &b);
    assert_eq!(decrypt(&sks, &r), 180);
    let r: RadixCiphertext = sks.if_then_else_parallelized(&encrypt_bool(&sks, false), &a, &b);
    assert_eq!(decrypt(&sks, &r), 3);
}

#[test]
fn test_trivial_uint256_small_gpu() {
    let sks = default_key();
    let zero = encrypt_trivial(&sks, 0, 128);
    let big = encrypt_trivial(&sks, u64::MAX, 128);
    let r: RadixCiphertext = sks.if_then_else_parallelized(&encrypt_bool(&sks, true), &big, &zero);
    assert_eq!(decrypt(&sks, &r), u64::MAX as u128);
    let r: RadixCiphertext = sks.if_then_else_parallelized(&encrypt_bool(&sks, false), &big, &zero);
    assert_eq!(decrypt(&sks, &r), 0);
}

#[test]
fn test_uint32_bitwise_gpu() {
    bitwise_case(&default_key());
}

#[test]
fn test_uint32_bitwise_gpu_multibit() {
    bitwise_case(&multi_bit_key());
}

#[test]
fn test_if_then_else_gpu() {
    if_then_else_case(&default_key());
}

#[test]
fn test_if_then_else_gpu_multibit() {
    if_then_else_case(&multi_bit_key());
}

#[test]
fn test_sum_gpu() {
    sum_case(&ServerKey::new(8, 8).unwrap());
}

#[test]
fn test_sum_gpu_multibit() {
    sum_case(&ServerKey::new(4, 16).unwrap());
}

#[test]
fn test_is_even_is_odd_gpu() {
    parity_case(&default_key());
}

#[test]
fn test_is_even_is_odd_gpu_multibit() {
    parity_case(&multi_bit_key());
}

#[test]
fn test_leading_trailing_zeros_ones_gpu() {
    leading_trailing_case(&default_key());
}

#[test]
fn test_leading_trailing_zeros_ones_gpu_multibit() {
    leading_trailing_case(&multi_bit_key());
}

#[test]
fn test_ilog2_gpu() {
    ilog2_case(&default_key());
}

#[test]
fn test_ilog2_multibit() {
    ilog2_case(&multi_bit_key());
}
