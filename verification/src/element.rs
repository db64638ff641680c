//! Points of the Bandersnatch prime-order subgroup, held as their canonical
//! 64-byte uncompressed encodings (affine x then y, little-endian). The
//! curve arithmetic comes from ark-ec through trusted wrappers; the results
//! are described by uninterpreted functions of the encodings. The 32-byte
//! wire form is the canonical compressed encoding (y with the sign of x).
use vstd::prelude::*;

use crate::scalar_field::{fr_reduce, fr_reduce_b, zero_scalar, FrWrapper};
use crate::VerkleError;
use ark_ec::{AffineRepr, CurveGroup};
use ark_ed_on_bls12_381_bandersnatch::{EdwardsAffine, EdwardsProjective, Fr};
use ark_ff::Zero;
use ark_serialize::{CanonicalDeserialize, CanonicalSerialize};

verus! {

/// Holds when `b` is the canonical 64-byte uncompressed encoding of a point
/// of the prime-order subgroup (what ark-ec's validating uncompressed
/// deserialization accepts).
pub uninterp spec fn el_ok(b: Seq<u8>) -> bool;

/// The encoding of the sum of the points encoded by `a` and `b`.
pub uninterp spec fn el_add_b(a: Seq<u8>, b: Seq<u8>) -> Seq<u8>;

/// The encoding of the difference of the points encoded by `a` and `b`.
pub uninterp spec fn el_sub_b(a: Seq<u8>, b: Seq<u8>) -> Seq<u8>;

/// The encoding of the point encoded by `e` multiplied by the scalar
/// encoded by `s`.
pub uninterp spec fn el_smul_b(s: Seq<u8>, e: Seq<u8>) -> Seq<u8>;

/// The canonical 32-byte compressed encoding of the point encoded by `e`.
pub uninterp spec fn el_compress_b(e: Seq<u8>) -> Seq<u8>;

/// The uncompressed encoding of the subgroup point decoded from the
/// 32-byte compressed encoding `b`, if `b` is valid.
pub uninterp spec fn el_dec_b(b: Seq<u8>) -> Option<Seq<u8>>;

/// The uncompressed encoding of the subgroup point derived from the
/// 32-byte candidate `b` by decompressing it on the curve and clearing the
/// cofactor, if `b` yields a curve point and the result is not the identity.
pub uninterp spec fn el_cand_b(b: Seq<u8>) -> Option<Seq<u8>>;

/// The canonical 32-byte encoding of the ratio x/y of the affine
/// coordinates of the point encoded by `e` (a base-field element,
/// little-endian).
pub uninterp spec fn el_ratio_b(e: Seq<u8>) -> Seq<u8>;

/// Holds when `b` encodes the subgroup generator.
pub uninterp spec fn el_gen_p(b: Seq<u8>) -> bool;

/// The canonical uncompressed encoding of the identity: affine (0, 1),
/// so 32 zero bytes for x and the little-endian encoding of 1 for y.
pub open spec fn zero_el_b() -> Seq<u8> {
    Seq::new(64, |i: int| if i == 32 { 1u8 } else { 0u8 })
}

/// The scalar a commitment is summarized by where a parent node stores a
/// scalar rather than a raw commitment: the ratio x/y of the affine
/// coordinates, reduced into the scalar field.
pub open spec fn hash_point_b(e: Seq<u8>) -> Seq<u8> {
    fr_reduce_b(el_ratio_b(e))
}

/// A subgroup point, as its canonical 64-byte uncompressed encoding.
#[derive(Clone, Copy, Debug, PartialEq, Eq)]
pub struct ElementWrapper {
    bytes: [u8; 64],
}

impl View for ElementWrapper {
    type V = Seq<u8>;

    closed spec fn view(&self) -> Seq<u8> {
        self.bytes@
    }
}

impl ElementWrapper {
    /// The encoding is canonical and the point lies in the subgroup.
    pub open spec fn wf(self) -> bool {
        el_ok(self@)
    }

}

/// Relies on ark-ec's point addition for the Bandersnatch curve, with
/// canonical uncompressed serialization on both sides. Adding the
/// identity returns the other operand's own canonical encoding.
#[verifier::external_body]
pub fn element_add(lhs: ElementWrapper, rhs: ElementWrapper) -> (r: ElementWrapper)
    requires
        lhs.wf(),
        rhs.wf(),
    ensures
        r@ == el_add_b(lhs@, rhs@),
        r.wf(),
        rhs@ == zero_el_b() ==> r@ == lhs@,
        lhs@ == zero_el_b() ==> r@ == rhs@,
{
    let a = EdwardsAffine::deserialize_uncompressed_unchecked(&lhs.bytes[..]).unwrap();
    let b = EdwardsAffine::deserialize_uncompressed_unchecked(&rhs.bytes[..]).unwrap();
    let mut out = [0u8; 64];
    (a + b).into_affine().serialize_uncompressed(&mut out[..]).unwrap();
    ElementWrapper { bytes: out }
}

/// Relies on ark-ec's point subtraction for the Bandersnatch curve. A
/// point minus itself is the identity, and subtracting the identity
/// returns the operand's own canonical encoding.
#[verifier::external_body]
pub fn element_sub(lhs: ElementWrapper, rhs: ElementWrapper) -> (r: ElementWrapper)
    requires
        lhs.wf(),
        rhs.wf(),
    ensures
        r@ == el_sub_b(lhs@, rhs@),
        r.wf(),
        lhs@ == rhs@ ==> r@ == zero_el_b(),
        rhs@ == zero_el_b() ==> r@ == lhs@,
{
    let a = EdwardsAffine::deserialize_uncompressed_unchecked(&lhs.bytes[..]).unwrap();
    let b = EdwardsAffine::deserialize_uncompressed_unchecked(&rhs.bytes[..]).unwrap();
    let mut out = [0u8; 64];
    (a + (-b)).into_affine().serialize_uncompressed(&mut out[..]).unwrap();
    ElementWrapper { bytes: out }
}

impl ElementWrapper {
    /// Relies on ark-ec's scalar multiplication for the Bandersnatch
    /// curve. The zero scalar annihilates: it sends every point to the
    /// identity.
    #[verifier::external_body]
    pub fn scalar_mul(element_wrapper: ElementWrapper, scalar_wrapper: FrWrapper) -> (r:
        ElementWrapper)
        requires
            element_wrapper.wf(),
            scalar_wrapper.wf(),
        ensures
            r@ == el_smul_b(scalar_wrapper@, element_wrapper@),
            r.wf(),
            scalar_wrapper@ == zero_scalar() ==> r@ == zero_el_b(),
    {
        let e = EdwardsAffine::deserialize_uncompressed_unchecked(
            &element_wrapper.bytes[..],
        ).unwrap();
        let s = Fr::deserialize_compressed(&scalar_wrapper.to_bytes()[..]).unwrap();
        let mut out = [0u8; 64];
        (e.into_group() * s).into_affine().serialize_uncompressed(&mut out[..]).unwrap();
        ElementWrapper { bytes: out }
    }

    /// Relies on ark-ec's group identity: affine (0, 1), which serializes
    /// to 32 zero bytes followed by the encoding of 1.
    #[verifier::external_body]
    pub fn zero() -> (r: ElementWrapper)
        ensures
            r@ == zero_el_b(),
            r.wf(),
    {
        let mut out = [0u8; 64];
        EdwardsProjective::zero().into_affine().serialize_uncompressed(&mut out[..]).unwrap();
        ElementWrapper { bytes: out }
    }

    /// Relies on ark-ec's fixed generator of the prime-order subgroup.
    #[verifier::external_body]
    pub fn generator() -> (r: ElementWrapper)
        ensures
            el_gen_p(r@),
            r.wf(),
    {
        let mut out = [0u8; 64];
        EdwardsAffine::generator().serialize_uncompressed(&mut out[..]).unwrap();
        ElementWrapper { bytes: out }
    }

    /// Decodes a 32-byte compressed encoding; anything else is an
    /// input-decoding error.
    pub fn from_bytes(bytes: &[u8]) -> (r: Result<ElementWrapper, VerkleError>)
        ensures
            r is Ok <==> bytes@.len() == 32 && el_dec_b(bytes@) is Some,
            r is Ok ==> r->Ok_0@ == el_dec_b(bytes@)->Some_0 && r->Ok_0.wf(),
            r is Err ==> r->Err_0 == VerkleError::InputDecoding,
    {
        if bytes.len() != 32 {
            return Err(VerkleError::InputDecoding);
        }
        let mut arr = [0u8; 32];
        let mut i: usize = 0;
        while i < 32
            invariant
                i <= 32,
                bytes@.len() == 32,
                forall|k: int| 0 <= k < i ==> arr@[k] == bytes@[k],
            decreases 32 - i,
        {
            arr[i] = bytes[i];
            i += 1;
        }
        proof {
            assert(arr@ =~= bytes@);
        }
        match Self::decompress32(&arr) {
            Some(e) => Ok(e),
            None => Err(VerkleError::InputDecoding),
        }
    }

    /// Relies on ark-ec's validating compressed deserialization: it accepts
    /// exactly the canonical compressed encodings of subgroup points.
    #[verifier::external_body]
    fn decompress32(bytes: &[u8; 32]) -> (r: Option<ElementWrapper>)
        ensures
            r is Some <==> el_dec_b(bytes@) is Some,
            r is Some ==> r->Some_0@ == el_dec_b(bytes@)->Some_0 && r->Some_0.wf(),
    {
        match EdwardsAffine::deserialize_compressed(&bytes[..]) {
            Ok(p) => {
                let mut out = [0u8; 64];
                p.serialize_uncompressed(&mut out[..]).unwrap();
                Some(ElementWrapper { bytes: out })
            },
            Err(_) => None,
        }
    }

    /// Relies on ark-ec's unvalidated compressed deserialization followed by
    /// `mul_by_cofactor`: a candidate y-coordinate either fails to lift to
    /// the curve, or yields a curve point whose cofactor multiple lies in
    /// the subgroup; the identity is rejected.
    #[verifier::external_body]
    pub(crate) fn candidate(bytes: &[u8; 32]) -> (r: Option<ElementWrapper>)
        ensures
            r is Some <==> el_cand_b(bytes@) is Some,
            r is Some ==> r->Some_0@ == el_cand_b(bytes@)->Some_0 && r->Some_0.wf(),
    {
        match EdwardsAffine::deserialize_compressed_unchecked(&bytes[..]) {
            Ok(p) => {
                let q = p.mul_by_cofactor();
                if q.is_zero() {
                    return None;
                }
                let mut out = [0u8; 64];
                q.serialize_uncompressed(&mut out[..]).unwrap();
                Some(ElementWrapper { bytes: out })
            },
            Err(_) => None,
        }
    }

    /// Validates a 64-byte uncompressed encoding; anything else is an
    /// input-decoding error.
    pub fn from_bytes_uncompressed(bytes: &[u8]) -> (r: Result<ElementWrapper, VerkleError>)
        ensures
            r is Ok <==> bytes@.len() == 64 && el_ok(bytes@),
            r is Ok ==> r->Ok_0@ == bytes@ && r->Ok_0.wf(),
            r is Err ==> r->Err_0 == VerkleError::InputDecoding,
    {
        if bytes.len() != 64 {
            return Err(VerkleError::InputDecoding);
        }
        let mut arr = [0u8; 64];
        let mut i: usize = 0;
        while i < 64
            invariant
                i <= 64,
                bytes@.len() == 64,
                forall|k: int| 0 <= k < i ==> arr@[k] == bytes@[k],
            decreases 64 - i,
        {
            arr[i] = bytes[i];
            i += 1;
        }
        proof {
            assert(arr@ =~= bytes@);
        }
        match Self::check64(&arr) {
            Some(e) => Ok(e),
            None => Err(VerkleError::InputDecoding),
        }
    }

    /// Relies on ark-ec's validating uncompressed deserialization: it
    /// accepts exactly the canonical uncompressed encodings of subgroup
    /// points, which is what `el_ok` states of the bytes.
    #[verifier::external_body]
    fn check64(bytes: &[u8; 64]) -> (r: Option<ElementWrapper>)
        ensures
            r is Some <==> el_ok(bytes@),
            r is Some ==> r->Some_0@ == bytes@ && r->Some_0.wf(),
    {
        match EdwardsAffine::deserialize_uncompressed(&bytes[..]) {
            Ok(_) => Some(ElementWrapper { bytes: *bytes }),
            Err(_) => None,
        }
    }

    /// Relies on ark-ec's compressed serialization: the canonical 32-byte
    /// compressed form of the point, which decompresses back to the same
    /// point.
    #[verifier::external_body]
    fn compress(&self) -> (r: [u8; 32])
        requires
            self.wf(),
        ensures
            r@ == el_compress_b(self@),
            el_dec_b(r@) == Some(self@),
    {
        let p = EdwardsAffine::deserialize_uncompressed_unchecked(&self.bytes[..]).unwrap();
        let mut out = [0u8; 32];
        p.serialize_compressed(&mut out[..]).unwrap();
        out
    }

    /// The canonical 32-byte compressed wire form; decoding it gives the
    /// point back.
    pub fn to_bytes(&self) -> (r: Vec<u8>)
        requires
            self.wf(),
        ensures
            r@ == el_compress_b(self@),
            r@.len() == 32,
            el_dec_b(r@) == Some(self@),
    {
        let c = self.compress();
        let mut out: Vec<u8> = Vec::new();
        let mut i: usize = 0;
        while i < 32
            invariant
                i <= 32,
                out@.len() == i,
                forall|k: int| 0 <= k < i ==> out@[k] == c@[k],
            decreases 32 - i,
        {
            out.push(c[i]);
            i += 1;
        }
        proof {
            assert(out@ =~= c@);
        }
        out
    }

    /// The canonical 64-byte uncompressed encoding.
    pub fn to_bytes_uncompressed(&self) -> (r: Vec<u8>)
        ensures
            r@ == self@,
            r@.len() == 64,
    {
        let mut out: Vec<u8> = Vec::new();
        let mut i: usize = 0;
        while i < 64
            invariant
                i <= 64,
                out@.len() == i,
                forall|k: int| 0 <= k < i ==> out@[k] == self.bytes@[k],
            decreases 64 - i,
        {
            out.push(self.bytes[i]);
            i += 1;
        }
        proof {
            assert(out@ =~= self@);
        }
        out
    }

    /// Relies on ark-ec's affine coordinates and ark-ff's base-field
    /// division: the canonical encoding of the coordinate ratio x/y.
    /// Every point of the odd-order subgroup has a nonzero y-coordinate
    /// (only points of order four have y = 0), so the division cannot
    /// fail.
    #[verifier::external_body]
    fn coordinate_ratio(&self) -> (r: [u8; 32])
        requires
            self.wf(),
        ensures
            r@ == el_ratio_b(self@),
    {
        let p = EdwardsAffine::deserialize_uncompressed_unchecked(&self.bytes[..]).unwrap();
        let m = p.x / p.y;
        let mut out = [0u8; 32];
        m.serialize_compressed(&mut out[..]).unwrap();
        out
    }

    /// Canonically maps the point to the scalar field: the coordinate
    /// ratio x/y reduced modulo the scalar field order.
    pub fn map_to_scalar_field(&self) -> (r: FrWrapper)
        requires
            self.wf(),
        ensures
            r@ == hash_point_b(self@),
            r.wf(),
    {
        let m = self.coordinate_ratio();
        fr_reduce(&m)
    }

    /// The lowercase hexadecimal rendering of the compressed wire form.
    pub fn to_hex_string(&self) -> (r: String)
        requires
            self.wf(),
        ensures
            r@ == crate::scalar_field::hex_of(el_compress_b(self@)),
    {
        crate::scalar_field::hex_encode(&self.to_bytes())
    }

    /// Whether two points have the same canonical encoding (and so are the
    /// same point).
    pub fn equals(&self, other: &ElementWrapper) -> (r: bool)
        ensures
            r <==> self@ == other@,
    {
        let mut i: usize = 0;
        while i < 64
            invariant
                i <= 64,
                forall|k: int| 0 <= k < i ==> self.bytes@[k] == other.bytes@[k],
            decreases 64 - i,
        {
            if self.bytes[i] != other.bytes[i] {
                return false;
            }
            i += 1;
        }
        proof {
            assert(self@ =~= other@);
        }
        true
    }
}

} // verus!
