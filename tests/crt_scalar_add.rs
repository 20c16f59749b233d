use tfhe::{Block, CheckError, CrtCiphertext, ServerKey};

fn key() -> ServerKey {
    ServerKey::new(8, 8).unwrap()
}

// One block per modulus; the carry modulus keeps each plaintext space within 64.
fn encrypt_crt(value: u64, basis: &[u64]) -> CrtCiphertext {
    let blocks = basis
        .iter()
        .map(|&m| Block::new(value % m, m - 1, m, 64 / m).unwrap())
        .collect();
    CrtCiphertext::new(blocks, basis.to_vec()).unwrap()
}

fn decrypt_crt(ct: &CrtCiphertext) -> u64 {
    let modulus: u64 = ct.moduli.iter().product();
    (0..modulus)
        .find(|x| {
            ct.blocks
                .iter()
                .zip(ct.moduli.iter())
                .all(|(b, m)| x % m == b.payload % m)
        })
        .unwrap()
}

#[test]
fn crt_unchecked_scalar_add_wraps_modulo_basis_product() {
    let sks = key();
    let basis = [2u64, 3, 5];
    let ct = encrypt_crt(14, &basis);
    let sum = sks.unchecked_crt_scalar_add(&ct, 14);
    assert_eq!(decrypt_crt(&sum), 28);
    assert_eq!(decrypt_crt(&ct), 14);
    let mut ct2 = encrypt_crt(14, &basis);
    sks.unchecked_crt_scalar_add_assign(&mut ct2, 20);
    assert_eq!(decrypt_crt(&ct2), (14 + 20) % 30);
}

#[test]
fn crt_checked_scalar_add_succeeds_with_room() {
    let sks = key();
    let basis = [2u64, 3, 5];
    let ct = encrypt_crt(14, &basis);
    assert_eq!(sks.is_crt_scalar_add_possible(&ct, 14), Ok(()));
    let sum = sks.checked_crt_scalar_add(&ct, 14).unwrap();
    assert_eq!(decrypt_crt(&sum), 28);
    let mut ct2 = encrypt_crt(14, &basis);
    assert_eq!(sks.checked_crt_scalar_add_assign(&mut ct2, 14), Ok(()));
    assert_eq!(decrypt_crt(&ct2), 28);
    // per-channel additions of 14 mod 2, 3, 5
    assert_eq!(ct2.blocks[0].degree, 1);
    assert_eq!(ct2.blocks[1].degree, 2 + 2);
    assert_eq!(ct2.blocks[2].degree, 4 + 4);
}

#[test]
fn crt_smart_scalar_add_matches_plain_sum() {
    let sks = key();
    let basis = [2u64, 3, 5];
    let mut ct = encrypt_crt(14, &basis);
    let sum = sks.smart_crt_scalar_add(&mut ct, 14);
    assert_eq!(decrypt_crt(&sum), 28);
    let mut ct2 = encrypt_crt(14, &basis);
    sks.smart_crt_scalar_add_assign(&mut ct2, 14);
    assert_eq!(decrypt_crt(&ct2), 28);
}

#[test]
fn crt_capacity_boundary() {
    let sks = key();
    // plaintext space 5 * 12 = 60, degree at its top
    let full = Block::new(59, 59, 5, 12).unwrap();
    let ct = CrtCiphertext::new(vec![full], vec![5]).unwrap();
    assert_eq!(sks.is_crt_scalar_add_possible(&ct, 0), Ok(()));
    assert_eq!(sks.is_crt_scalar_add_possible(&ct, 5), Ok(()));
    let err = sks.is_crt_scalar_add_possible(&ct, 1);
    assert_eq!(
        err,
        Err(CheckError::CarryFull { block_index: 0, degree: 60, max_degree: 59 })
    );
    let mut same = ct.clone();
    assert_eq!(sks.checked_crt_scalar_add_assign(&mut same, 1), err);
    assert_eq!(same.blocks, ct.blocks);
    assert_eq!(same.moduli, ct.moduli);
    assert!(sks.checked_crt_scalar_add(&ct, 1).is_err());
    // exactly reaching the boundary succeeds
    let near = Block::new(57, 57, 5, 12).unwrap();
    let ct = CrtCiphertext::new(vec![near], vec![5]).unwrap();
    let sum = sks.checked_crt_scalar_add(&ct, 2).unwrap();
    assert_eq!(sum.blocks[0].degree, 59);
    assert!(sks.checked_crt_scalar_add(&ct, 3).is_err());
}

#[test]
fn crt_check_error_names_first_full_channel() {
    let sks = key();
    let a = Block::new(1, 1, 2, 32).unwrap();
    let b = Block::new(62, 62, 3, 21).unwrap();
    let c = Block::new(59, 59, 5, 12).unwrap();
    let ct = CrtCiphertext::new(vec![a, b, c], vec![2, 3, 5]).unwrap();
    assert_eq!(
        sks.is_crt_scalar_add_possible(&ct, 6),
        Err(CheckError::CarryFull { block_index: 2, degree: 60, max_degree: 59 })
    );
    assert_eq!(
        sks.is_crt_scalar_add_possible(&ct, 2),
        Err(CheckError::CarryFull { block_index: 1, degree: 64, max_degree: 62 })
    );
}

#[test]
fn crt_smart_scalar_add_refreshes_full_channel() {
    let sks = key();
    let c = Block::new(58, 59, 5, 12).unwrap();
    let mut ct = CrtCiphertext::new(vec![c], vec![5]).unwrap();
    let sum = sks.smart_crt_scalar_add(&mut ct, 4);
    // the operand was refreshed: 58 % 5 == 3, degree 4
    assert_eq!(ct.blocks[0], Block::new(3, 4, 5, 12).unwrap());
    assert_eq!(sum.blocks[0], Block::new(7, 8, 5, 12).unwrap());
    assert_eq!(sum.blocks[0].payload % 5, (58 + 4) % 5);

    let mut ct2 = CrtCiphertext::new(vec![c], vec![5]).unwrap();
    sks.smart_crt_scalar_add_assign(&mut ct2, 4);
    assert_eq!(ct2.blocks[0], Block::new(7, 8, 5, 12).unwrap());
}

#[test]
fn crt_full_extract_message_drops_carries() {
    let sks = key();
    let c = Block::new(13, 20, 5, 12).unwrap();
    let mut ct = CrtCiphertext::new(vec![c], vec![5]).unwrap();
    sks.full_extract_message_assign(&mut ct);
    assert_eq!(ct.blocks[0], Block::new(3, 4, 5, 12).unwrap());
}

#[test]
fn crt_constructor_rejects_mismatched_basis() {
    let b = Block::new(1, 1, 3, 21).unwrap();
    assert!(CrtCiphertext::new(vec![b], vec![5]).is_none());
    assert!(CrtCiphertext::new(vec![b], vec![]).is_none());
    assert!(Block::new(2, 1, 3, 21).is_none());
    assert!(Block::new(0, 63, 3, 21).is_none());
    assert!(ServerKey::new(1, 4).is_none());
}
