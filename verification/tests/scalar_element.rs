use verkle_stateless::element::{element_add, element_sub, ElementWrapper};
use verkle_stateless::scalar_field::{
    fr_add, fr_div, fr_mul, fr_sqrt, fr_square, fr_sub, FrWrapper,
};
use verkle_stateless::VerkleError;

fn fr_dec(s: &str) -> FrWrapper {
    FrWrapper::from_decimal_string(s.to_string()).unwrap()
}

#[test]
fn fr_add_small_values() {
    let a = fr_dec("2");
    let b = fr_dec("3");
    assert_eq!(fr_add(a, b).to_bytes(), fr_dec("5").to_bytes());
}

#[test]
fn fr_sub_small_values() {
    let a = fr_dec("10");
    let b = fr_dec("3");
    assert_eq!(fr_sub(a, b).to_bytes(), fr_dec("7").to_bytes());
}

#[test]
fn fr_mul_small_values() {
    let a = fr_dec("6");
    let b = fr_dec("7");
    assert_eq!(fr_mul(a, b).to_bytes(), fr_dec("42").to_bytes());
}

#[test]
fn fr_div_inverts_mul() {
    let a = fr_dec("42");
    let b = fr_dec("7");
    assert_eq!(fr_div(a, b).to_bytes(), fr_dec("6").to_bytes());
}

#[test]
fn fr_square_is_self_product() {
    let a = fr_dec("9");
    assert_eq!(fr_square(a).to_bytes(), fr_dec("81").to_bytes());
}

#[test]
fn fr_sqrt_roundtrip() {
    let a = fr_dec("4");
    let s = fr_sqrt(a).expect("4 is a square");
    assert_eq!(fr_square(s).to_bytes(), a.to_bytes());
}

#[test]
fn fr_sqrt_rejects_some_nonresidue() {
    // Half the nonzero field elements have no square root; at least one
    // small integer below must be such an element.
    let mut found_none = false;
    for k in 2..40u32 {
        if fr_sqrt(fr_dec(&k.to_string())).is_none() {
            found_none = true;
        }
    }
    assert!(found_none);
}

#[test]
fn fr_from_bytes_roundtrip() {
    let a = fr_dec("123456789");
    let bytes = a.to_bytes();
    let b = FrWrapper::from_bytes(&bytes).unwrap();
    assert_eq!(a.to_bytes(), b.to_bytes());
}

#[test]
fn fr_from_bytes_rejects_noncanonical() {
    let bytes = [0xffu8; 32];
    assert_eq!(FrWrapper::from_bytes(&bytes), Err(VerkleError::InputDecoding));
}

#[test]
fn fr_from_bytes_rejects_wrong_length() {
    let bytes = [0u8; 31];
    assert_eq!(FrWrapper::from_bytes(&bytes), Err(VerkleError::InputDecoding));
}

#[test]
fn fr_default_is_zero() {
    let z = FrWrapper::default();
    assert_eq!(z.to_bytes(), vec![0u8; 32]);
    let a = fr_dec("2");
    assert_eq!(fr_add(a, z).to_bytes(), a.to_bytes());
}

#[test]
fn fr_from_decimal_string_rejects_garbage() {
    assert!(FrWrapper::from_decimal_string("not a number".to_string()).is_err());
}

#[test]
fn fr_to_hex_string_renders_bytes() {
    let a = fr_dec("255");
    let hex = a.to_hex_string();
    assert_eq!(hex.len(), 64);
    assert!(hex.starts_with("ff0000"));
    assert_eq!(FrWrapper::default().to_hex_string(), "0".repeat(64));
}

#[test]
fn element_zero_has_expected_encoding() {
    // The identity is affine (0, 1): 32 zero bytes of x, then the
    // little-endian encoding of 1.
    let z = ElementWrapper::zero();
    let mut expected = vec![0u8; 64];
    expected[32] = 1;
    assert_eq!(z.to_bytes_uncompressed(), expected);
}

#[test]
fn element_add_sub_cancel() {
    let g = ElementWrapper::generator();
    let two_g = element_add(g, g);
    let back = element_sub(two_g, g);
    assert_eq!(back.to_bytes(), g.to_bytes());
}

#[test]
fn element_scalar_mul_matches_doubling() {
    let g = ElementWrapper::generator();
    let two = fr_dec("2");
    let lhs = ElementWrapper::scalar_mul(g, two);
    let rhs = element_add(g, g);
    assert_eq!(lhs.to_bytes(), rhs.to_bytes());
}

#[test]
fn element_zero_is_identity() {
    let g = ElementWrapper::generator();
    let z = ElementWrapper::zero();
    assert_eq!(element_add(g, z).to_bytes(), g.to_bytes());
}

#[test]
fn element_from_bytes_roundtrip() {
    let g = ElementWrapper::generator();
    let bytes = g.to_bytes();
    assert_eq!(bytes.len(), 32);
    let back = ElementWrapper::from_bytes(&bytes).unwrap();
    assert_eq!(back.to_bytes(), bytes);
    assert_eq!(back.to_bytes_uncompressed(), g.to_bytes_uncompressed());
}

#[test]
fn element_from_bytes_rejects_invalid() {
    let bytes = [0xffu8; 32];
    assert_eq!(
        ElementWrapper::from_bytes(&bytes),
        Err(VerkleError::InputDecoding)
    );
    let short = [0u8; 31];
    assert_eq!(
        ElementWrapper::from_bytes(&short),
        Err(VerkleError::InputDecoding)
    );
}

#[test]
fn element_from_bytes_uncompressed_roundtrip() {
    let g = ElementWrapper::generator();
    let bytes = g.to_bytes_uncompressed();
    assert_eq!(bytes.len(), 64);
    let back = ElementWrapper::from_bytes_uncompressed(&bytes).unwrap();
    assert_eq!(back.to_bytes(), g.to_bytes());
    let bad = [0xffu8; 64];
    assert_eq!(
        ElementWrapper::from_bytes_uncompressed(&bad),
        Err(VerkleError::InputDecoding)
    );
}

#[test]
fn element_map_to_scalar_field_separates_points() {
    let g = ElementWrapper::generator();
    let two_g = element_add(g, g);
    let h1 = g.map_to_scalar_field();
    let h2 = two_g.map_to_scalar_field();
    assert_ne!(h1.to_bytes(), h2.to_bytes());
    assert_eq!(h1.to_bytes(), g.map_to_scalar_field().to_bytes());
}

#[test]
fn element_to_hex_string_renders_compressed_form() {
    let g = ElementWrapper::generator();
    let hex = g.to_hex_string();
    assert_eq!(hex.len(), 64);
    let mut manual = String::new();
    for b in g.to_bytes() {
        manual.push_str(&format!("{:02x}", b));
    }
    assert_eq!(hex, manual);
}
