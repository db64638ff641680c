//! Scalars of the Bandersnatch scalar field, held as their canonical
//! 32-byte little-endian encodings. The field arithmetic itself comes from
//! ark-ff through trusted wrappers; everything that can be said about the
//! results is said over uninterpreted functions of the encodings.
use vstd::prelude::*;

use crate::VerkleError;
use ark_ed_on_bls12_381_bandersnatch::Fr;
use ark_serialize::{CanonicalDeserialize, CanonicalSerialize};
use ark_ff::{Field, PrimeField};
use core::str::FromStr;

verus! {

/// Holds when `b` is the canonical 32-byte little-endian encoding of a
/// scalar field element (an integer below the field order).
pub uninterp spec fn fr_ok(b: Seq<u8>) -> bool;

/// The encoding of the sum of the scalars encoded by `a` and `b`.
pub uninterp spec fn fr_add_b(a: Seq<u8>, b: Seq<u8>) -> Seq<u8>;

/// The encoding of the difference of the scalars encoded by `a` and `b`.
pub uninterp spec fn fr_sub_b(a: Seq<u8>, b: Seq<u8>) -> Seq<u8>;

/// The encoding of the product of the scalars encoded by `a` and `b`.
pub uninterp spec fn fr_mul_b(a: Seq<u8>, b: Seq<u8>) -> Seq<u8>;

/// The encoding of the quotient of the scalars encoded by `a` and `b`.
pub uninterp spec fn fr_div_b(a: Seq<u8>, b: Seq<u8>) -> Seq<u8>;

/// The encoding of the square root of the scalar encoded by `a`, if one exists.
pub uninterp spec fn fr_sqrt_b(a: Seq<u8>) -> Option<Seq<u8>>;

/// The encoding of the scalar obtained by reducing the 32-byte
/// little-endian integer `b` modulo the field order.
pub uninterp spec fn fr_reduce_b(b: Seq<u8>) -> Seq<u8>;

/// The encoding of the scalar parsed from the decimal string `s`, if any.
pub uninterp spec fn fr_from_dec(s: Seq<char>) -> Option<Seq<u8>>;

/// The lowercase hexadecimal rendering of a byte string.
pub uninterp spec fn hex_of(b: Seq<u8>) -> Seq<char>;

/// The canonical encoding of the scalar zero.
pub open spec fn zero_scalar() -> Seq<u8> {
    Seq::new(32, |i: int| 0u8)
}

/// The canonical encoding of the little-endian integer held in `chunk`
/// (at most 31 bytes, so it is below the field order): the chunk itself,
/// zero-extended to 32 bytes.
pub open spec fn chunk_scalar(chunk: Seq<u8>) -> Seq<u8>
    recommends
        chunk.len() <= 31,
{
    chunk + Seq::new((32 - chunk.len()) as nat, |i: int| 0u8)
}

/// A scalar field element, as its canonical 32-byte little-endian encoding.
#[derive(Clone, Copy, Debug, PartialEq, Eq)]
pub struct FrWrapper {
    bytes: [u8; 32],
}

impl View for FrWrapper {
    type V = Seq<u8>;

    closed spec fn view(&self) -> Seq<u8> {
        self.bytes@
    }
}

impl FrWrapper {
    /// The encoding is canonical.
    pub open spec fn wf(self) -> bool {
        fr_ok(self@)
    }

}

/// Relies on ark-ff's field addition for the Bandersnatch scalar field,
/// with canonical serialization on both sides.
#[verifier::external_body]
pub fn fr_add(lhs: FrWrapper, rhs: FrWrapper) -> (r: FrWrapper)
    requires
        lhs.wf(),
        rhs.wf(),
    ensures
        r@ == fr_add_b(lhs@, rhs@),
        r.wf(),
{
    let a = Fr::deserialize_compressed(&lhs.bytes[..]).unwrap();
    let b = Fr::deserialize_compressed(&rhs.bytes[..]).unwrap();
    let mut out = [0u8; 32];
    (a + b).serialize_compressed(&mut out[..]).unwrap();
    FrWrapper { bytes: out }
}

/// Relies on ark-ff's field subtraction for the Bandersnatch scalar
/// field. A scalar minus itself is the field zero, whose canonical
/// encoding is all zero bytes, and subtracting zero returns the operand's
/// own canonical encoding.
#[verifier::external_body]
pub fn fr_sub(lhs: FrWrapper, rhs: FrWrapper) -> (r: FrWrapper)
    requires
        lhs.wf(),
        rhs.wf(),
    ensures
        r@ == fr_sub_b(lhs@, rhs@),
        r.wf(),
        lhs@ == rhs@ ==> r@ == zero_scalar(),
        rhs@ == zero_scalar() ==> r@ == lhs@,
{
    let a = Fr::deserialize_compressed(&lhs.bytes[..]).unwrap();
    let b = Fr::deserialize_compressed(&rhs.bytes[..]).unwrap();
    let mut out = [0u8; 32];
    (a - b).serialize_compressed(&mut out[..]).unwrap();
    FrWrapper { bytes: out }
}

/// Relies on ark-ff's field multiplication for the Bandersnatch scalar field.
#[verifier::external_body]
pub fn fr_mul(lhs: FrWrapper, rhs: FrWrapper) -> (r: FrWrapper)
    requires
        lhs.wf(),
        rhs.wf(),
    ensures
        r@ == fr_mul_b(lhs@, rhs@),
        r.wf(),
{
    let a = Fr::deserialize_compressed(&lhs.bytes[..]).unwrap();
    let b = Fr::deserialize_compressed(&rhs.bytes[..]).unwrap();
    let mut out = [0u8; 32];
    (a * b).serialize_compressed(&mut out[..]).unwrap();
    FrWrapper { bytes: out }
}

/// Relies on ark-ff's field division for the Bandersnatch scalar field.
/// Division by zero is excluded by the precondition because ark-ff panics
/// on it.
#[verifier::external_body]
pub fn fr_div(lhs: FrWrapper, rhs: FrWrapper) -> (r: FrWrapper)
    requires
        lhs.wf(),
        rhs.wf(),
        rhs@ != zero_scalar(),
    ensures
        r@ == fr_div_b(lhs@, rhs@),
        r.wf(),
{
    let a = Fr::deserialize_compressed(&lhs.bytes[..]).unwrap();
    let b = Fr::deserialize_compressed(&rhs.bytes[..]).unwrap();
    let mut out = [0u8; 32];
    (a / b).serialize_compressed(&mut out[..]).unwrap();
    FrWrapper { bytes: out }
}

/// Relies on ark-ff's `Field::sqrt`: returns a square root of the scalar
/// when it is a quadratic residue, and `None` otherwise; the result
/// multiplied by itself gives back the operand.
#[verifier::external_body]
pub fn fr_sqrt(lhs: FrWrapper) -> (r: Option<FrWrapper>)
    requires
        lhs.wf(),
    ensures
        r is Some <==> fr_sqrt_b(lhs@) is Some,
        r is Some ==> r->Some_0@ == fr_sqrt_b(lhs@)->Some_0 && r->Some_0.wf(),
        r is Some ==> fr_mul_b(r->Some_0@, r->Some_0@) == lhs@,
{
    let a = Fr::deserialize_compressed(&lhs.bytes[..]).unwrap();
    match a.sqrt() {
        Some(x) => {
            let mut out = [0u8; 32];
            x.serialize_compressed(&mut out[..]).unwrap();
            Some(FrWrapper { bytes: out })
        },
        None => None,
    }
}

/// The square of a scalar, computed as the product with itself.
pub fn fr_square(lhs: FrWrapper) -> (r: FrWrapper)
    requires
        lhs.wf(),
    ensures
        r@ == fr_mul_b(lhs@, lhs@),
        r.wf(),
{
    crate::scalar_field::fr_mul(lhs, lhs)
}

/// Relies on ark-serialize's canonical deserialization of a field element:
/// it accepts exactly the canonical encodings, and the accepted bytes are
/// the encoding of the value read.
#[verifier::external_body]
fn fr_from_bytes32(bytes: &[u8; 32]) -> (r: Option<FrWrapper>)
    ensures
        r is Some <==> fr_ok(bytes@),
        r is Some ==> r->Some_0@ == bytes@ && r->Some_0.wf(),
{
    match Fr::deserialize_compressed(&bytes[..]) {
        Ok(_) => Some(FrWrapper { bytes: *bytes }),
        Err(_) => None,
    }
}

/// Relies on ark-ff's `from_le_bytes_mod_order` and canonical serialization:
/// a little-endian integer of at most 31 bytes is below the field order, so
/// no reduction happens and the canonical encoding is the chunk itself,
/// zero-extended to 32 bytes.
#[verifier::external_body]
pub fn fr_from_le_chunk(chunk: &[u8]) -> (r: FrWrapper)
    requires
        chunk@.len() <= 31,
    ensures
        r@ == chunk_scalar(chunk@),
        r.wf(),
{
    let a = Fr::from_le_bytes_mod_order(chunk);
    let mut out = [0u8; 32];
    a.serialize_compressed(&mut out[..]).unwrap();
    FrWrapper { bytes: out }
}

/// Relies on ark-ff's `from_le_bytes_mod_order`: the 32-byte little-endian
/// integer reduced modulo the field order, canonically re-encoded.
#[verifier::external_body]
pub fn fr_reduce(bytes: &[u8; 32]) -> (r: FrWrapper)
    ensures
        r@ == fr_reduce_b(bytes@),
        r.wf(),
{
    let a = Fr::from_le_bytes_mod_order(&bytes[..]);
    let mut out = [0u8; 32];
    a.serialize_compressed(&mut out[..]).unwrap();
    FrWrapper { bytes: out }
}

/// Relies on hex::encode: the lowercase hexadecimal string, two digits
/// per byte.
#[verifier::external_body]
pub fn hex_encode(bytes: &Vec<u8>) -> (r: String)
    ensures
        r@ == hex_of(bytes@),
        r@.len() == 2 * bytes@.len(),
{
    hex::encode(bytes.as_slice())
}

impl FrWrapper {
    /// Decodes a canonical 32-byte scalar encoding; anything else is an
    /// input-decoding error.
    pub fn from_bytes(bytes: &[u8]) -> (r: Result<FrWrapper, VerkleError>)
        ensures
            r is Ok <==> bytes@.len() == 32 && fr_ok(bytes@),
            r is Ok ==> r->Ok_0@ == bytes@ && r->Ok_0.wf(),
            r is Err ==> r == Result::<FrWrapper, VerkleError>::Err(VerkleError::InputDecoding),
    {
        if bytes.len() != 32 {
            return Err(VerkleError::InputDecoding);
        }
        let mut arr = [0u8; 32];
        let mut i: usize = 0;
        while i < 32
            invariant
                i <= 32,
                bytes@.len() == 32,
                forall|k: int| 0 <= k < i ==> arr@[k] == bytes@[k],
            decreases 32 - i,
        {
            arr[i] = bytes[i];
            i += 1;
        }
        proof {
            assert(arr@ =~= bytes@);
        }
        match fr_from_bytes32(&arr) {
            Some(s) => Ok(s),
            None => Err(VerkleError::InputDecoding),
        }
    }

    /// Relies on ark-ff's `FromStr` for field elements: parses a decimal
    /// integer (reduced modulo the field order).
    #[verifier::external_body]
    pub fn from_decimal_string(string: String) -> (r: Result<FrWrapper, VerkleError>)
        ensures
            r is Ok <==> fr_from_dec(string@) is Some,
            r is Ok ==> r->Ok_0@ == fr_from_dec(string@)->Some_0 && r->Ok_0.wf(),
            r is Err ==> r->Err_0 == VerkleError::InputDecoding,
    {
        match Fr::from_str(&string) {
            Ok(x) => {
                let mut out = [0u8; 32];
                x.serialize_compressed(&mut out[..]).unwrap();
                Ok(FrWrapper { bytes: out })
            },
            Err(_) => Err(VerkleError::InputDecoding),
        }
    }

    /// The scalar zero.
    pub fn default() -> (r: FrWrapper)
        ensures
            r@ == zero_scalar(),
            r.wf(),
    {
        let empty: [u8; 0] = [];
        let r = fr_from_le_chunk(empty.as_slice());
        proof {
            assert(r@ =~= zero_scalar());
        }
        r
    }

    /// The canonical 32-byte encoding.
    pub fn to_bytes(&self) -> (r: Vec<u8>)
        ensures
            r@ == self@,
            r@.len() == 32,
    {
        let mut out: Vec<u8> = Vec::new();
        let mut i: usize = 0;
        while i < 32
            invariant
                i <= 32,
                out@.len() == i,
                forall|k: int| 0 <= k < i ==> out@[k] == self.bytes@[k],
            decreases 32 - i,
        {
            out.push(self.bytes[i]);
            i += 1;
        }
        proof {
            assert(out@ =~= self@);
        }
        out
    }

    /// The lowercase hexadecimal rendering of the canonical encoding.
    pub fn to_hex_string(&self) -> (r: String)
        ensures
            r@ == hex_of(self@),
    {
        hex_encode(&self.to_bytes())
    }

    /// Whether two scalars have the same canonical encoding (and so are the
    /// same field element).
    pub fn equals(&self, other: &FrWrapper) -> (r: bool)
        ensures
            r <==> self@ == other@,
    {
        let mut i: usize = 0;
        while i < 32
            invariant
                i <= 32,
                forall|k: int| 0 <= k < i ==> self.bytes@[k] == other.bytes@[k],
            decreases 32 - i,
        {
            if self.bytes[i] != other.bytes[i] {
                return false;
            }
            i += 1;
        }
        proof {
            assert(self@ =~= other@);
        }
        true
    }
}

} // verus!
