//! The commitment context: a fixed public basis of 256 subgroup points,
//! and the operations that commit scalars to it, hash commitments to
//! scalars, update a commitment in O(1) group operations, and derive
//! 32-byte tree keys.
use vstd::prelude::*;

use crate::element::{
    el_add_b, el_ok, el_smul_b, element_add, hash_point_b, zero_el_b, ElementWrapper,
};
use crate::scalar_field::{
    chunk_scalar, fr_ok, fr_sub, fr_sub_b, fr_from_le_chunk, zero_scalar, FrWrapper,
};
use crate::VerkleError;
use vstd::slice::slice_subrange;

verus! {

/// The canonical encodings of a sequence of scalars.
pub open spec fn frs_b(s: Seq<FrWrapper>) -> Seq<Seq<u8>> {
    Seq::new(s.len(), |i: int| s[i]@)
}

/// Every scalar of the sequence is canonically encoded.
pub open spec fn all_fr_wf(s: Seq<FrWrapper>) -> bool {
    forall|i: int| 0 <= i < s.len() ==> (#[trigger] s[i]).wf()
}

/// The Pedersen-style vector commitment to `scalars[0..k]` under `basis`:
/// the sum of `scalars[i]·basis[i]`. Zero scalars contribute the group
/// identity and are folded in by being skipped.
pub open spec fn msm_b(basis: Seq<Seq<u8>>, scalars: Seq<Seq<u8>>, k: int) -> Seq<u8>
    decreases k,
{
    if k <= 0 {
        zero_el_b()
    } else if scalars[k - 1] == zero_scalar() {
        msm_b(basis, scalars, k - 1)
    } else {
        el_add_b(msm_b(basis, scalars, k - 1), el_smul_b(scalars[k - 1], basis[k - 1]))
    }
}

/// The commitment to a whole scalar sequence.
pub open spec fn commit_b(basis: Seq<Seq<u8>>, scalars: Seq<Seq<u8>>) -> Seq<u8> {
    msm_b(basis, scalars, scalars.len() as int)
}

/// One incremental commitment update: the old commitment plus
/// `(new − old)·base`.
pub open spec fn update_step_b(c: Seq<u8>, base: Seq<u8>, old: Seq<u8>, new: Seq<u8>) -> Seq<u8> {
    el_add_b(c, el_smul_b(fr_sub_b(new, old), base))
}

/// The little-endian bytes of a 128-bit integer.
pub open spec fn u128_le_b(v: u128) -> Seq<u8> {
    Seq::new(16, |i: int| (v >> ((8 * i) as u128)) as u8)
}

/// The scalars a tree-key derivation commits to: a fixed domain marker
/// (2 + 256·64, little-endian bytes [2, 64]), then the address and the
/// tree index, each split into two 16-byte little-endian halves.
pub open spec fn tree_key_scalars_b(address: Seq<u8>, tree_index: Seq<u8>) -> Seq<Seq<u8>> {
    seq![
        chunk_scalar(seq![2u8, 64u8]),
        chunk_scalar(address.subrange(0, 16)),
        chunk_scalar(address.subrange(16, 32)),
        chunk_scalar(tree_index.subrange(0, 16)),
        chunk_scalar(tree_index.subrange(16, 32)),
    ]
}

/// The derived tree key: the commitment to the marker/address/index
/// scalars, hashed to a scalar, with the low byte of the key (the last
/// byte of the encoding) overwritten by the sub-index.
pub open spec fn tree_key_b(
    basis: Seq<Seq<u8>>,
    address: Seq<u8>,
    tree_index: Seq<u8>,
    sub_index: u8,
) -> Seq<u8> {
    hash_point_b(commit_b(basis, tree_key_scalars_b(address, tree_index))).update(
        31,
        sub_index,
    )
}

/// The 16 little-endian bytes of a 128-bit integer.
fn u128_to_le_bytes(v: u128) -> (r: [u8; 16])
    ensures
        r@ == u128_le_b(v),
{
    let mut out = [0u8; 16];
    let mut i: usize = 0;
    while i < 16
        invariant
            i <= 16,
            forall|k: int| 0 <= k < i ==> out@[k] == (v >> ((8 * k) as u128)) as u8,
        decreases 16 - i,
    {
        out[i] = (v >> ((8 * i) as u128)) as u8;
        i += 1;
    }
    proof {
        assert(out@ =~= u128_le_b(v));
    }
    out
}

/// The scalar holding a 128-bit integer value.
pub fn fr_from_u128(v: u128) -> (r: FrWrapper)
    ensures
        r@ == chunk_scalar(u128_le_b(v)),
        r.wf(),
{
    let bytes = u128_to_le_bytes(v);
    fr_from_le_chunk(bytes.as_slice())
}

/// The 32-byte candidate encoding of a counter: its little-endian bytes,
/// zero-padded.
pub open spec fn counter_bytes(c: int) -> Seq<u8> {
    Seq::new(
        32,
        |i: int|
            if i == 0 {
                (c % 256) as u8
            } else if i == 1 {
                ((c / 256) % 256) as u8
            } else if i == 2 {
                ((c / 65536) % 256) as u8
            } else if i == 3 {
                ((c / 16777216) % 256) as u8
            } else {
                0u8
            },
    )
}

/// The subgroup points the counter search yields from counter `c` up to
/// the search bound, in counter order.
pub open spec fn candidate_points(c: int) -> Seq<Seq<u8>>
    decreases 1000000 - c,
{
    if c < 0 || c >= 1000000 {
        Seq::empty()
    } else {
        match crate::element::el_cand_b(counter_bytes(c)) {
            Some(e) => seq![e] + candidate_points(c + 1),
            None => candidate_points(c + 1),
        }
    }
}

/// The fixed public basis: the first 256 points of the counter search.
/// Were the bounded search ever exhausted — it is not in practice, since
/// about half of all candidates lift to the curve — the identity fills
/// the remaining positions, which keeps the basis a fixed constant.
pub open spec fn spec_basis() -> Seq<Seq<u8>> {
    if candidate_points(0).len() >= 256 {
        candidate_points(0).take(256)
    } else {
        candidate_points(0) + Seq::new(
            (256 - candidate_points(0).len()) as nat,
            |i: int| zero_el_b(),
        )
    }
}

/// The encodings of a sequence of points.
pub open spec fn els_b(s: Seq<ElementWrapper>) -> Seq<Seq<u8>> {
    Seq::new(s.len(), |i: int| s[i]@)
}

/// The commitment to nothing: the group identity.
pub fn zero_commitment() -> (r: ElementWrapper)
    ensures
        r@ == zero_el_b(),
        r.wf(),
{
    ElementWrapper::zero()
}

/// The configuration every commitment operation needs: the fixed public
/// basis of 256 generators, constructed once and never mutated.
pub struct Context {
    basis: Vec<ElementWrapper>,
}

impl Context {
    /// The encodings of the basis points.
    pub closed spec fn basis_b(self) -> Seq<Seq<u8>> {
        Seq::new(self.basis@.len() as nat, |i: int| self.basis@[i]@)
    }

    /// The basis is the fixed public one, of 256 well-formed subgroup
    /// points; every context carries the same basis, so all contexts
    /// commit identically.
    pub open spec fn wf(self) -> bool {
        &&& self.basis_b() == spec_basis()
        &&& self.basis_b().len() == 256
        &&& forall|i: int| 0 <= i < 256 ==> el_ok(#[trigger] self.basis_b()[i])
    }

    /// Builds the fixed public basis, `spec_basis()`: successive 32-byte
    /// counters are decompressed onto the curve and cleared of the
    /// cofactor, and the first 256 successes form the basis. This is the
    /// library's own nothing-up-my-sleeve point set, standing in for an
    /// externally published generator set. The search is bounded; were it
    /// ever exhausted, the identity would fill the rest, keeping the
    /// basis the same fixed constant everywhere.
    pub fn new() -> (r: Context)
        ensures
            r.wf(),
    {
        let mut basis: Vec<ElementWrapper> = Vec::new();
        let mut counter: u32 = 0;
        while basis.len() < 256 && counter < 1000000
            invariant
                basis@.len() <= 256,
                counter <= 1000000,
                forall|i: int| 0 <= i < basis@.len() ==> (#[trigger] basis@[i]).wf(),
                els_b(basis@) + candidate_points(counter as int) == candidate_points(0),
            decreases 1000000 - counter,
        {
            let mut candidate = [0u8; 32];
            candidate[0] = (counter % 256) as u8;
            candidate[1] = ((counter / 256) % 256) as u8;
            candidate[2] = ((counter / 65536) % 256) as u8;
            candidate[3] = ((counter / 16777216) % 256) as u8;
            proof {
                assert(candidate@ =~= counter_bytes(counter as int));
            }
            let ghost before = els_b(basis@);
            match ElementWrapper::candidate(&candidate) {
                Some(point) => {
                    basis.push(point);
                    proof {
                        assert(els_b(basis@) =~= before.push(point@));
                        assert(candidate_points(counter as int) == seq![point@]
                            + candidate_points(counter as int + 1));
                        assert(els_b(basis@) + candidate_points(counter as int + 1) =~= before
                            + candidate_points(counter as int));
                    }
                },
                None => {
                    proof {
                        assert(candidate_points(counter as int) == candidate_points(
                            counter as int + 1,
                        ));
                    }
                },
            }
            counter += 1;
        }
        proof {
            if basis@.len() == 256 {
                assert(candidate_points(0).len() >= 256);
                assert(candidate_points(0).take(256) =~= els_b(basis@));
            } else {
                assert(counter == 1000000);
                assert(candidate_points(1000000) == Seq::<Seq<u8>>::empty());
                assert(els_b(basis@) =~= candidate_points(0));
            }
        }
        let ghost found = candidate_points(0).len() as int;
        while basis.len() < 256
            invariant
                basis@.len() <= 256,
                forall|i: int| 0 <= i < basis@.len() ==> (#[trigger] basis@[i]).wf(),
                candidate_points(0).len() < 256 ==> found <= basis@.len() && els_b(basis@)
                    =~= candidate_points(0) + Seq::new(
                    (basis@.len() - found) as nat,
                    |i: int| zero_el_b(),
                ),
                candidate_points(0).len() >= 256 ==> basis@.len() == 256 && els_b(basis@)
                    == candidate_points(0).take(256),
                found == candidate_points(0).len(),
            decreases 256 - basis@.len(),
        {
            let ghost before = els_b(basis@);
            basis.push(ElementWrapper::zero());
            proof {
                assert(els_b(basis@) =~= before.push(zero_el_b()));
                assert(els_b(basis@) =~= candidate_points(0) + Seq::new(
                    (basis@.len() - found) as nat,
                    |i: int| zero_el_b(),
                ));
            }
        }
        let ctx = Context { basis };
        proof {
            assert(ctx.basis_b() =~= els_b(ctx.basis@));
            assert(ctx.basis_b() =~= spec_basis());
            assert forall|i: int| 0 <= i < 256 implies el_ok(#[trigger] ctx.basis_b()[i]) by {
                assert(ctx.basis_b()[i] == ctx.basis@[i]@);
            }
        }
        ctx
    }

    /// The basis point at a position.
    pub(crate) fn basis_at(&self, i: usize) -> (r: ElementWrapper)
        requires
            self.wf(),
            i < 256,
        ensures
            r@ == self.basis_b()[i as int],
            r.wf(),
    {
        proof {
            assert(self.basis@[i as int]@ == self.basis_b()[i as int]);
        }
        self.basis[i]
    }

    /// Commits to at most 256 scalars: the sum of `scalars[i]·basis[i]`.
    /// More scalars than basis positions is a capacity error.
    pub fn commit_to_scalars(&self, scalars: &Vec<FrWrapper>) -> (r: Result<
        ElementWrapper,
        VerkleError,
    >)
        requires
            self.wf(),
            all_fr_wf(scalars@),
        ensures
            r is Ok <==> scalars@.len() <= 256,
            r is Ok ==> r->Ok_0@ == commit_b(self.basis_b(), frs_b(scalars@)) && r->Ok_0.wf(),
            r is Err ==> r->Err_0 == VerkleError::Capacity,
    {
        if scalars.len() > 256 {
            return Err(VerkleError::Capacity);
        }
        Ok(self.commit_scalars_inner(scalars))
    }

    /// The unbounded-entry commitment loop shared by the committing
    /// operations; callers have already checked capacity.
    pub(crate) fn commit_scalars_inner(&self, scalars: &Vec<FrWrapper>) -> (r: ElementWrapper)
        requires
            self.wf(),
            all_fr_wf(scalars@),
            scalars@.len() <= 256,
        ensures
            r@ == commit_b(self.basis_b(), frs_b(scalars@)),
            r.wf(),
    {
        let zero = FrWrapper::default();
        let mut acc = ElementWrapper::zero();
        let mut i: usize = 0;
        while i < scalars.len()
            invariant
                self.wf(),
                all_fr_wf(scalars@),
                scalars@.len() <= 256,
                i <= scalars@.len(),
                zero@ == zero_scalar(),
                acc@ == msm_b(self.basis_b(), frs_b(scalars@), i as int),
                acc.wf(),
            decreases scalars@.len() - i,
        {
            let s = scalars[i];
            if !s.equals(&zero) {
                proof {
                    assert(self.basis@[i as int]@ == self.basis_b()[i as int]);
                }
                acc = element_add(acc, ElementWrapper::scalar_mul(self.basis[i], s));
            }
            i += 1;
        }
        acc
    }

    /// Commits to at most 256 scalars given as 16-byte little-endian
    /// values, each zero-extended to a full scalar encoding. A value of
    /// the wrong width is an input-decoding error.
    pub fn commit_to_16_byte_scalars(&self, scalars_le: &Vec<Vec<u8>>) -> (r: Result<
        ElementWrapper,
        VerkleError,
    >)
        requires
            self.wf(),
        ensures
            r is Ok <==> scalars_le@.len() <= 256 && (forall|i: int|
                0 <= i < scalars_le@.len() ==> (#[trigger] scalars_le@[i])@.len() == 16),
            r is Ok ==> r->Ok_0@ == commit_b(
                self.basis_b(),
                Seq::new(scalars_le@.len(), |i: int| chunk_scalar(scalars_le@[i]@)),
            ) && r->Ok_0.wf(),
            r is Err ==> r->Err_0 == VerkleError::InputDecoding || r->Err_0
                == VerkleError::Capacity,
            (exists|i: int|
                0 <= i < scalars_le@.len() && (#[trigger] scalars_le@[i])@.len() != 16) ==> r
                == Result::<ElementWrapper, VerkleError>::Err(VerkleError::InputDecoding),
            (forall|i: int| 0 <= i < scalars_le@.len() ==> (#[trigger] scalars_le@[i])@.len() == 16)
                && scalars_le@.len() > 256 ==> r == Result::<ElementWrapper, VerkleError>::Err(
                VerkleError::Capacity,
            ),
    {
        let mut converted: Vec<FrWrapper> = Vec::new();
        let mut i: usize = 0;
        while i < scalars_le.len()
            invariant
                self.wf(),
                i <= scalars_le@.len(),
                converted@.len() == i,
                forall|k: int| 0 <= k < i ==> (#[trigger] scalars_le@[k])@.len() == 16,
                forall|k: int|
                    0 <= k < i ==> (#[trigger] converted@[k])@ == chunk_scalar(scalars_le@[k]@)
                        && converted@[k].wf(),
            decreases scalars_le@.len() - i,
        {
            if scalars_le[i].len() != 16 {
                return Err(VerkleError::InputDecoding);
            }
            converted.push(fr_from_le_chunk(scalars_le[i].as_slice()));
            i += 1;
        }
        if converted.len() > 256 {
            return Err(VerkleError::Capacity);
        }
        let c = self.commit_scalars_inner(&converted);
        proof {
            assert(frs_b(converted@) =~= Seq::new(
                scalars_le@.len(),
                |i: int| chunk_scalar(scalars_le@[i]@),
            ));
        }
        Ok(c)
    }

    /// Hashes a 64-byte uncompressed commitment to a scalar. An invalid
    /// encoding is an input-decoding error.
    pub fn hash_commitment(&self, commitment: &[u8]) -> (r: Result<FrWrapper, VerkleError>)
        ensures
            r is Ok <==> commitment@.len() == 64 && el_ok(commitment@),
            r is Ok ==> r->Ok_0@ == hash_point_b(commitment@) && r->Ok_0.wf(),
            r is Err ==> r->Err_0 == VerkleError::InputDecoding,
    {
        let e = ElementWrapper::from_bytes_uncompressed(commitment)?;
        Ok(e.map_to_scalar_field())
    }

    /// Hashes a batch of 64-byte uncompressed commitments, element for
    /// element and order-preservingly equal to hashing each alone.
    pub fn hash_commitments(&self, commitments: &Vec<Vec<u8>>) -> (r: Result<
        Vec<FrWrapper>,
        VerkleError,
    >)
        ensures
            r is Ok <==> (forall|i: int|
                0 <= i < commitments@.len() ==> (#[trigger] commitments@[i])@.len() == 64 && el_ok(
                    commitments@[i]@,
                )),
            r is Ok ==> r->Ok_0@.len() == commitments@.len() && (forall|i: int|
                0 <= i < commitments@.len() ==> (#[trigger] r->Ok_0@[i])@ == hash_point_b(
                    commitments@[i]@,
                ) && r->Ok_0@[i].wf()),
            r is Err ==> r->Err_0 == VerkleError::InputDecoding,
    {
        let mut out: Vec<FrWrapper> = Vec::new();
        let mut i: usize = 0;
        while i < commitments.len()
            invariant
                i <= commitments@.len(),
                out@.len() == i,
                forall|k: int|
                    0 <= k < i ==> (#[trigger] commitments@[k])@.len() == 64 && el_ok(
                        commitments@[k]@,
                    ),
                forall|k: int|
                    0 <= k < i ==> (#[trigger] out@[k])@ == hash_point_b(commitments@[k]@)
                        && out@[k].wf(),
            decreases commitments@.len() - i,
        {
            let h = self.hash_commitment(commitments[i].as_slice())?;
            out.push(h);
            i += 1;
        }
        Ok(out)
    }

    /// Updates a commitment after the scalar at one basis position
    /// changed: the old commitment plus `(new − old)·basis[index]`, in one
    /// scalar multiplication and one addition. An index outside [0, 256)
    /// is an out-of-range error; a malformed commitment or scalar encoding
    /// is an input-decoding error.
    pub fn update_commitment(
        &self,
        commitment: &[u8],
        commitment_index: usize,
        old_scalar_value: &[u8],
        new_scalar_value: &[u8],
    ) -> (r: Result<ElementWrapper, VerkleError>)
        requires
            self.wf(),
        ensures
            r is Ok <==> commitment_index < 256 && commitment@.len() == 64 && el_ok(commitment@)
                && old_scalar_value@.len() == 32 && fr_ok(old_scalar_value@)
                && new_scalar_value@.len() == 32 && fr_ok(new_scalar_value@),
            r is Ok ==> r->Ok_0@ == update_step_b(
                commitment@,
                self.basis_b()[commitment_index as int],
                old_scalar_value@,
                new_scalar_value@,
            ) && r->Ok_0.wf(),
            commitment_index >= 256 ==> r == Result::<ElementWrapper, VerkleError>::Err(
                VerkleError::OutOfRange,
            ),
            r is Err && commitment_index < 256 ==> r->Err_0 == VerkleError::InputDecoding,
            r is Ok && old_scalar_value@ == new_scalar_value@ ==> r->Ok_0@ == commitment@,
            r is Ok && commitment@ == zero_el_b() && old_scalar_value@ == zero_scalar() ==> r->Ok_0@
                == el_smul_b(new_scalar_value@, self.basis_b()[commitment_index as int]),
    {
        if commitment_index >= 256 {
            return Err(VerkleError::OutOfRange);
        }
        let c = ElementWrapper::from_bytes_uncompressed(commitment)?;
        let old_scalar = FrWrapper::from_bytes(old_scalar_value)?;
        let new_scalar = FrWrapper::from_bytes(new_scalar_value)?;
        let delta = fr_sub(new_scalar, old_scalar);
        proof {
            assert(self.basis@[commitment_index as int]@ == self.basis_b()[
                commitment_index as int
            ]);
        }
        Ok(element_add(c, ElementWrapper::scalar_mul(self.basis[commitment_index], delta)))
    }

    /// A single basis term `scalar·basis[index]`, a diagnostic primitive;
    /// a full commitment must be recomputed or incrementally updated when
    /// more than one position changes.
    pub fn scalar_mul_index(&self, scalar_value: &[u8], commitment_index: usize) -> (r: Result<
        ElementWrapper,
        VerkleError,
    >)
        requires
            self.wf(),
        ensures
            r is Ok <==> commitment_index < 256 && scalar_value@.len() == 32 && fr_ok(
                scalar_value@,
            ),
            r is Ok ==> r->Ok_0@ == el_smul_b(
                scalar_value@,
                self.basis_b()[commitment_index as int],
            ) && r->Ok_0.wf(),
            commitment_index >= 256 ==> r == Result::<ElementWrapper, VerkleError>::Err(
                VerkleError::OutOfRange,
            ),
            r is Err && commitment_index < 256 ==> r->Err_0 == VerkleError::InputDecoding,
            r is Ok && scalar_value@ == zero_scalar() ==> r->Ok_0@ == zero_el_b(),
    {
        if commitment_index >= 256 {
            return Err(VerkleError::OutOfRange);
        }
        let scalar = FrWrapper::from_bytes(scalar_value)?;
        proof {
            assert(self.basis@[commitment_index as int]@ == self.basis_b()[
                commitment_index as int
            ]);
        }
        Ok(ElementWrapper::scalar_mul(self.basis[commitment_index], scalar))
    }

    /// Derives the 32-byte tree key for (address, tree index, sub-index):
    /// commits the domain marker and the 16-byte halves of the address and
    /// index at fixed basis positions, hashes the commitment to a scalar,
    /// and overwrites the last byte of its encoding with the sub-index.
    pub fn get_tree_key(&self, address: &[u8], tree_index_le: &[u8], sub_index: u8) -> (r: Result<
        Vec<u8>,
        VerkleError,
    >)
        requires
            self.wf(),
        ensures
            r is Ok <==> address@.len() == 32 && tree_index_le@.len() == 32,
            r is Ok ==> r->Ok_0@ == tree_key_b(self.basis_b(), address@, tree_index_le@, sub_index),
            r is Ok ==> r->Ok_0@.len() == 32 && r->Ok_0@[31] == sub_index,
            r is Err ==> r->Err_0 == VerkleError::InputDecoding,
    {
        if address.len() != 32 || tree_index_le.len() != 32 {
            return Err(VerkleError::InputDecoding);
        }
        let marker: [u8; 2] = [2u8, 64u8];
        let mut scalars: Vec<FrWrapper> = Vec::new();
        scalars.push(fr_from_le_chunk(marker.as_slice()));
        scalars.push(fr_from_le_chunk(slice_subrange(address, 0, 16)));
        scalars.push(fr_from_le_chunk(slice_subrange(address, 16, 32)));
        scalars.push(fr_from_le_chunk(slice_subrange(tree_index_le, 0, 16)));
        scalars.push(fr_from_le_chunk(slice_subrange(tree_index_le, 16, 32)));
        let c = self.commit_scalars_inner(&scalars);
        let h = c.map_to_scalar_field();
        let mut key = h.to_bytes();
        key[31] = sub_index;
        proof {
            assert(frs_b(scalars@) =~= tree_key_scalars_b(address@, tree_index_le@));
            assert(key@ =~= tree_key_b(self.basis_b(), address@, tree_index_le@, sub_index));
        }
        Ok(key)
    }
}

/// A general-purpose commitment-based hash over 128-bit big-endian
/// integers: commits the values at consecutive basis positions and hashes
/// the commitment to a scalar. More than 256 values is a capacity error.
pub fn pedersen_hash(ctx: &Context, values: &Vec<u128>) -> (r: Result<FrWrapper, VerkleError>)
    requires
        ctx.wf(),
    ensures
        r is Ok <==> values@.len() <= 256,
        r is Ok ==> r->Ok_0@ == hash_point_b(
            commit_b(ctx.basis_b(), Seq::new(values@.len(), |i: int| chunk_scalar(u128_le_b(values@[i])))),
        ) && r->Ok_0.wf(),
        r is Err ==> r->Err_0 == VerkleError::Capacity,
{
    if values.len() > 256 {
        return Err(VerkleError::Capacity);
    }
    let mut scalars: Vec<FrWrapper> = Vec::new();
    let mut i: usize = 0;
    while i < values.len()
        invariant
            i <= values@.len(),
            scalars@.len() == i,
            forall|k: int|
                0 <= k < i ==> (#[trigger] scalars@[k])@ == chunk_scalar(u128_le_b(values@[k]))
                    && scalars@[k].wf(),
        decreases values@.len() - i,
    {
        scalars.push(fr_from_u128(values[i]));
        i += 1;
    }
    let c = ctx.commit_scalars_inner(&scalars);
    proof {
        assert(frs_b(scalars@) =~= Seq::new(
            values@.len(),
            |i: int| chunk_scalar(u128_le_b(values@[i])),
        ));
    }
    Ok(c.map_to_scalar_field())
}

} // verus!
