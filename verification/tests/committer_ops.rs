use verkle_stateless::committer::{fr_from_u128, pedersen_hash, zero_commitment, Context};
use verkle_stateless::scalar_field::FrWrapper;
use verkle_stateless::VerkleError;

fn fr_dec(s: &str) -> FrWrapper {
    FrWrapper::from_decimal_string(s.to_string()).unwrap()
}

#[test]
fn commit_capacity_boundary() {
    // Exactly 256 scalars succeed; 257 fail with a capacity error.
    let ctx = Context::new();
    let scalars: Vec<FrWrapper> = (0..256).map(|_| FrWrapper::default()).collect();
    assert!(ctx.commit_to_scalars(&scalars).is_ok());
    let too_many: Vec<FrWrapper> = (0..257).map(|_| FrWrapper::default()).collect();
    assert_eq!(
        ctx.commit_to_scalars(&too_many).unwrap_err(),
        VerkleError::Capacity
    );
}

#[test]
fn commit_to_zeros_is_zero_commitment() {
    let ctx = Context::new();
    let scalars: Vec<FrWrapper> = (0..256).map(|_| FrWrapper::default()).collect();
    let c = ctx.commit_to_scalars(&scalars).unwrap();
    assert_eq!(
        c.to_bytes_uncompressed(),
        zero_commitment().to_bytes_uncompressed()
    );
}

#[test]
fn commit_single_scalar_matches_scalar_mul_index() {
    let ctx = Context::new();
    let s = fr_dec("12345");
    let c = ctx.commit_to_scalars(&vec![s]).unwrap();
    let m = ctx.scalar_mul_index(&s.to_bytes(), 0).unwrap();
    assert_eq!(c.to_bytes_uncompressed(), m.to_bytes_uncompressed());
}

#[test]
fn commit_16_byte_scalars_pads_to_full_scalars() {
    let ctx = Context::new();
    let halves: Vec<Vec<u8>> = vec![vec![7u8; 16], vec![9u8; 16]];
    let via_halves = ctx.commit_to_16_byte_scalars(&halves).unwrap();
    let padded: Vec<FrWrapper> = halves
        .iter()
        .map(|h| {
            let mut full = h.clone();
            full.extend([0u8; 16]);
            FrWrapper::from_bytes(&full).unwrap()
        })
        .collect();
    let via_full = ctx.commit_to_scalars(&padded).unwrap();
    assert_eq!(
        via_halves.to_bytes_uncompressed(),
        via_full.to_bytes_uncompressed()
    );
}

#[test]
fn commit_16_byte_scalars_rejects_wrong_width() {
    let ctx = Context::new();
    let halves: Vec<Vec<u8>> = vec![vec![7u8; 16], vec![9u8; 15]];
    assert_eq!(
        ctx.commit_to_16_byte_scalars(&halves).unwrap_err(),
        VerkleError::InputDecoding
    );
    let too_many: Vec<Vec<u8>> = (0..257).map(|_| vec![0u8; 16]).collect();
    assert_eq!(
        ctx.commit_to_16_byte_scalars(&too_many).unwrap_err(),
        VerkleError::Capacity
    );
}

#[test]
fn update_commitment_matches_fresh_commitment() {
    // For a vector V, index i and new scalar s:
    // update(commit(V), i, V[i], s) equals commit(V with V[i] = s).
    let ctx = Context::new();
    let mut values: Vec<FrWrapper> = (0..256).map(|_| FrWrapper::default()).collect();
    values[3] = fr_dec("1001");
    values[17] = fr_dec("55");
    values[255] = fr_dec("987654321");
    let c = ctx.commit_to_scalars(&values).unwrap();

    let new_scalar = fr_dec("424242");
    let updated = ctx
        .update_commitment(
            &c.to_bytes_uncompressed(),
            17,
            &values[17].to_bytes(),
            &new_scalar.to_bytes(),
        )
        .unwrap();

    let mut fresh_values = values.clone();
    fresh_values[17] = new_scalar;
    let fresh = ctx.commit_to_scalars(&fresh_values).unwrap();
    assert_eq!(
        updated.to_bytes_uncompressed(),
        fresh.to_bytes_uncompressed()
    );
}

#[test]
fn update_commitment_rejects_bad_inputs() {
    let ctx = Context::new();
    let c = zero_commitment().to_bytes_uncompressed();
    let s = FrWrapper::default().to_bytes();
    assert_eq!(
        ctx.update_commitment(&c, 256, &s, &s).unwrap_err(),
        VerkleError::OutOfRange
    );
    let bad_scalar = [0xffu8; 32];
    assert_eq!(
        ctx.update_commitment(&c, 0, &bad_scalar, &s).unwrap_err(),
        VerkleError::InputDecoding
    );
    let bad_commitment = [0xffu8; 64];
    assert_eq!(
        ctx.update_commitment(&bad_commitment, 0, &s, &s).unwrap_err(),
        VerkleError::InputDecoding
    );
}

#[test]
fn scalar_mul_index_matches_update_from_zero() {
    // scalar·Basis[i] equals the zero commitment updated at i from 0 to
    // the scalar.
    let ctx = Context::new();
    let s = fr_dec("31337");
    let via_mul = ctx.scalar_mul_index(&s.to_bytes(), 9).unwrap();
    let via_update = ctx
        .update_commitment(
            &zero_commitment().to_bytes_uncompressed(),
            9,
            &FrWrapper::default().to_bytes(),
            &s.to_bytes(),
        )
        .unwrap();
    assert_eq!(
        via_mul.to_bytes_uncompressed(),
        via_update.to_bytes_uncompressed()
    );
}

#[test]
fn scalar_mul_index_rejects_bad_inputs() {
    let ctx = Context::new();
    let s = FrWrapper::default().to_bytes();
    assert_eq!(
        ctx.scalar_mul_index(&s, 256).unwrap_err(),
        VerkleError::OutOfRange
    );
    assert_eq!(
        ctx.scalar_mul_index(&[0xffu8; 32], 0).unwrap_err(),
        VerkleError::InputDecoding
    );
}

#[test]
fn hash_commitments_equals_per_element_hashing() {
    // Batch hashing is bit-identical, element for element, to the single
    // form.
    let ctx = Context::new();
    let c1 = ctx.commit_to_scalars(&vec![fr_dec("1")]).unwrap();
    let c2 = ctx.commit_to_scalars(&vec![fr_dec("2")]).unwrap();
    let c3 = ctx.commit_to_scalars(&vec![fr_dec("3")]).unwrap();
    let batch = vec![
        c1.to_bytes_uncompressed(),
        c2.to_bytes_uncompressed(),
        c3.to_bytes_uncompressed(),
    ];
    let hashes = ctx.hash_commitments(&batch).unwrap();
    assert_eq!(hashes.len(), 3);
    for (h, c) in hashes.iter().zip(batch.iter()) {
        assert_eq!(h.to_bytes(), ctx.hash_commitment(c).unwrap().to_bytes());
    }
}

#[test]
fn hash_commitment_rejects_invalid_encoding() {
    let ctx = Context::new();
    assert_eq!(
        ctx.hash_commitment(&[0xffu8; 64]).unwrap_err(),
        VerkleError::InputDecoding
    );
    assert_eq!(
        ctx.hash_commitment(&[0u8; 63]).unwrap_err(),
        VerkleError::InputDecoding
    );
    assert_eq!(
        ctx.hash_commitments(&vec![vec![0xffu8; 64]]).unwrap_err(),
        VerkleError::InputDecoding
    );
}

#[test]
fn pedersen_hash_composes_commit_and_hash() {
    let ctx = Context::new();
    let values: Vec<u128> = vec![7, 1 << 100, 42];
    let h = pedersen_hash(&ctx, &values).unwrap();
    let scalars: Vec<FrWrapper> = values.iter().map(|v| fr_from_u128(*v)).collect();
    let c = ctx.commit_to_scalars(&scalars).unwrap();
    let expected = ctx
        .hash_commitment(&c.to_bytes_uncompressed())
        .unwrap();
    assert_eq!(h.to_bytes(), expected.to_bytes());
}

#[test]
fn pedersen_hash_capacity() {
    let ctx = Context::new();
    let values: Vec<u128> = (0..257).map(|v| v as u128).collect();
    assert_eq!(
        pedersen_hash(&ctx, &values).unwrap_err(),
        VerkleError::Capacity
    );
}

#[test]
fn fr_from_u128_is_little_endian() {
    let s = fr_from_u128(0x0102);
    let b = s.to_bytes();
    assert_eq!(b[0], 0x02);
    assert_eq!(b[1], 0x01);
    assert_eq!(&b[2..], &[0u8; 30]);
}

#[test]
fn get_tree_key_shape_and_determinism() {
    let ctx = Context::new();
    let address = [0x11u8; 32];
    let index = [0x22u8; 32];
    let k1 = ctx.get_tree_key(&address, &index, 7).unwrap();
    assert_eq!(k1.len(), 32);
    assert_eq!(k1[31], 7);
    let k2 = ctx.get_tree_key(&address, &index, 7).unwrap();
    assert_eq!(k1, k2);
    // Another sub-index shares the 31-byte stem.
    let k3 = ctx.get_tree_key(&address, &index, 8).unwrap();
    assert_eq!(&k1[..31], &k3[..31]);
    assert_eq!(k3[31], 8);
    // Another address yields another stem.
    let other = ctx.get_tree_key(&[0x12u8; 32], &index, 7).unwrap();
    assert_ne!(&k1[..31], &other[..31]);
}

#[test]
fn get_tree_key_rejects_wrong_widths() {
    let ctx = Context::new();
    assert_eq!(
        ctx.get_tree_key(&[0u8; 31], &[0u8; 32], 0).unwrap_err(),
        VerkleError::InputDecoding
    );
    assert_eq!(
        ctx.get_tree_key(&[0u8; 32], &[0u8; 33], 0).unwrap_err(),
        VerkleError::InputDecoding
    );
}
