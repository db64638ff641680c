//! The stateless proof verifier and state applier.
//!
//! A proof discloses the accessed part of a verkle-style trie: one root
//! node of 256 children indexed by the first key byte, below it one
//! extension node per disclosed stem (the first 31 key bytes), and for
//! each extension two suffix nodes of 256 scalar slots holding the
//! values, two slots per value. The verifier recomputes every disclosed
//! commitment with the context's committer and checks the chain against
//! the pre-state root; the applier then recomputes the post-state root,
//! incrementally updating every disclosed commitment on a changed chain
//! and committing freshly created nodes from scratch. Inserting a stem
//! whose leading byte is held by a different stem splits the extension:
//! a chain of internal nodes down to the first diverging byte carries
//! both, exactly as a stateful trie would restructure itself.
//!
//! The proof wire layout can disclose one extension per branch, so the
//! pre-states this verifier consumes are tries in that shape; the
//! post-state roots it produces may be deeper. Disclosing deeper
//! pre-states is a matter of the proof layout, which belongs to the
//! external proof subsystem.
use vstd::prelude::*;

use crate::committer::{commit_b, frs_b, update_step_b, Context};
use crate::element::{el_compress_b, hash_point_b, ElementWrapper};
use crate::scalar_field::{chunk_scalar, fr_from_le_chunk, fr_ok, zero_scalar, FrWrapper};
use crate::VerkleError;
use vstd::slice::slice_subrange;

verus! {

/// The spec-level contents of an extension node: its root branch index,
/// its stem, and the two 256-slot suffix nodes.
pub struct ExtV {
    pub branch: u8,
    pub stem: Seq<u8>,
    pub c1: Seq<Seq<u8>>,
    pub c2: Seq<Seq<u8>>,
}

/// The spec-level contents of a proof: the root node's 256 scalar slots
/// and the disclosed extension nodes.
pub struct ProofV {
    pub root_slots: Seq<Seq<u8>>,
    pub exts: Seq<ExtV>,
}

/// All encodings of the sequence are canonical scalar encodings.
pub open spec fn all_fr_ok(s: Seq<Seq<u8>>) -> bool {
    forall|i: int| 0 <= i < s.len() ==> fr_ok(#[trigger] s[i])
}

pub open spec fn ext_v_wf(e: ExtV) -> bool {
    &&& e.stem.len() == 31
    &&& e.stem[0] == e.branch
    &&& e.c1.len() == 256
    &&& e.c2.len() == 256
    &&& all_fr_ok(e.c1)
    &&& all_fr_ok(e.c2)
}

pub open spec fn proof_v_wf(p: ProofV) -> bool {
    &&& p.root_slots.len() == 256
    &&& all_fr_ok(p.root_slots)
    &&& forall|j: int| 0 <= j < p.exts.len() ==> ext_v_wf(#[trigger] p.exts[j])
    &&& forall|j: int|
        0 <= j < p.exts.len() - 1 ==> (#[trigger] p.exts[j].branch) < p.exts[j + 1].branch
}

/// One extension node of a proof.
#[derive(Debug)]
pub struct ExtNode {
    branch: u8,
    stem: [u8; 31],
    c1: Vec<FrWrapper>,
    c2: Vec<FrWrapper>,
}

impl View for ExtNode {
    type V = ExtV;

    closed spec fn view(&self) -> ExtV {
        ExtV { branch: self.branch, stem: self.stem@, c1: frs_b(self.c1@), c2: frs_b(self.c2@) }
    }
}

/// A decoded proof: the disclosed part of the pre-state trie.
#[derive(Debug)]
pub struct Proof {
    root_slots: Vec<FrWrapper>,
    exts: Vec<ExtNode>,
}

impl View for Proof {
    type V = ProofV;

    closed spec fn view(&self) -> ProofV {
        ProofV {
            root_slots: frs_b(self.root_slots@),
            exts: Seq::new(self.exts@.len(), |j: int| self.exts@[j]@),
        }
    }
}

/// The wire layout of a proof: one count byte `n`, the 256 root slots
/// (32 bytes each), then `n` extension records of branch byte, 31-byte
/// stem, and 2 × 256 slots of 32 bytes.
pub open spec fn rec_off(j: int) -> int {
    8193 + j * 16416
}

/// Exactly the byte strings that decode to a well-formed proof.
pub open spec fn proof_bytes_ok(b: Seq<u8>) -> bool {
    &&& b.len() >= 1
    &&& b.len() == 1 + 8192 + (b[0] as int) * 16416
    &&& forall|t: int| 0 <= t < 256 ==> fr_ok(#[trigger] b.subrange(1 + 32 * t, 1 + 32 * t + 32))
    &&& forall|j: int|
        0 <= j < (b[0] as int) ==> (#[trigger] b[rec_off(j)]) == b[rec_off(j) + 1]
    &&& forall|j: int| 0 <= j < (b[0] as int) - 1 ==> (#[trigger] b[rec_off(j)]) < b[rec_off(j + 1)]
    &&& forall|j: int, t: int|
        0 <= j < (b[0] as int) && 0 <= t < 512 ==> fr_ok(
            #[trigger] b.subrange(rec_off(j) + 32 + 32 * t, rec_off(j) + 32 + 32 * t + 32),
        )
}

/// The decoded proof a well-formed byte string denotes.
pub open spec fn proof_of_bytes(b: Seq<u8>) -> ProofV {
    ProofV {
        root_slots: Seq::new(256, |t: int| b.subrange(1 + 32 * t, 1 + 32 * t + 32)),
        exts: Seq::new(
            b[0] as nat,
            |j: int|
                ExtV {
                    branch: b[rec_off(j)],
                    stem: b.subrange(rec_off(j) + 1, rec_off(j) + 32),
                    c1: Seq::new(
                        256,
                        |t: int| b.subrange(rec_off(j) + 32 + 32 * t, rec_off(j) + 32 + 32 * t + 32),
                    ),
                    c2: Seq::new(
                        256,
                        |t: int|
                            b.subrange(
                                rec_off(j) + 8224 + 32 * t,
                                rec_off(j) + 8224 + 32 * t + 32,
                            ),
                    ),
                },
        ),
    }
}

/// Reads 256 scalar slots at consecutive 32-byte offsets from `off`.
fn parse_slots(bytes: &[u8], off: usize) -> (r: Result<Vec<FrWrapper>, VerkleError>)
    requires
        off + 8192 <= bytes@.len(),
        bytes@.len() <= 0x500000,
    ensures
        r is Ok <==> forall|t: int|
            0 <= t < 256 ==> fr_ok(
                #[trigger] bytes@.subrange(off + 32 * t, off + 32 * t + 32),
            ),
        r is Ok ==> frs_b(r->Ok_0@) =~= Seq::new(
            256,
            |t: int| bytes@.subrange(off + 32 * t, off + 32 * t + 32),
        ) && crate::committer::all_fr_wf(r->Ok_0@),
        r is Err ==> r->Err_0 == VerkleError::ProofDecoding,
{
    let mut out: Vec<FrWrapper> = Vec::new();
    let mut t: usize = 0;
    while t < 256
        invariant
            off + 8192 <= bytes@.len(),
            bytes@.len() <= 0x500000,
            t <= 256,
            out@.len() == t,
            forall|k: int|
                0 <= k < t ==> (#[trigger] out@[k])@ == bytes@.subrange(off + 32 * k, off + 32 * k + 32)
                    && out@[k].wf(),
        decreases 256 - t,
    {
        let slot = slice_subrange(bytes, off + 32 * t, off + 32 * t + 32);
        match FrWrapper::from_bytes(slot) {
            Ok(s) => out.push(s),
            Err(_) => {
                return Err(VerkleError::ProofDecoding);
            },
        }
        t += 1;
    }
    proof {
        assert forall|t: int| 0 <= t < 256 implies fr_ok(
            #[trigger] bytes@.subrange(off + 32 * t, off + 32 * t + 32),
        ) by {
            assert(out@[t]@ == bytes@.subrange(off + 32 * t, off + 32 * t + 32));
            assert(out@[t].wf());
        }
        assert(frs_b(out@) =~= Seq::new(
            256,
            |t: int| bytes@.subrange(off + 32 * t, off + 32 * t + 32),
        ));
        assert(crate::committer::all_fr_wf(out@));
    }
    Ok(out)
}

impl Proof {
    /// The decoded contents are structurally well formed.
    pub open spec fn wf(self) -> bool {
        proof_v_wf(self@)
    }

    /// Decodes a proof blob. Exactly the well-formed byte strings are
    /// accepted, and the decoded proof is what the bytes denote.
    pub fn from_bytes(bytes: &[u8]) -> (r: Result<Proof, VerkleError>)
        ensures
            r is Ok <==> proof_bytes_ok(bytes@),
            r is Ok ==> r->Ok_0@ == proof_of_bytes(bytes@) && r->Ok_0.wf(),
            r is Err ==> r->Err_0 == VerkleError::ProofDecoding,
    {
        if bytes.len() == 0 {
            return Err(VerkleError::ProofDecoding);
        }
        let n = bytes[0] as usize;
        if bytes.len() != 1 + 8192 + n * 16416 {
            return Err(VerkleError::ProofDecoding);
        }
        proof {
            assert(bytes@.len() <= 0x500000);
        }
        let root_slots = match parse_slots(bytes, 1) {
            Ok(v) => v,
            Err(e) => {
                return Err(e);
            },
        };
        let mut exts: Vec<ExtNode> = Vec::new();
        let mut j: usize = 0;
        while j < n
            invariant
                bytes@.len() == 1 + 8192 + n * 16416,
                bytes@.len() <= 0x500000,
                n == bytes@[0] as int,
                n <= 255,
                j <= n,
                exts@.len() == j,
                forall|k: int|
                    0 <= k < j ==> (#[trigger] exts@[k]@) == proof_of_bytes(bytes@).exts[k],
                forall|k: int| 0 <= k < j ==> ext_v_wf(#[trigger] exts@[k]@),
                forall|k: int|
                    0 <= k < j - 1 ==> (#[trigger] exts@[k]@.branch) < exts@[k + 1]@.branch,
                forall|k: int| 0 <= k < j ==> (#[trigger] exts@[k]@.branch) == bytes@[rec_off(k)],
            decreases n - j,
        {
            let off = 8193 + j * 16416;
            proof {
                assert(off == rec_off(j as int));
                assert(off + 16416 <= bytes@.len());
            }
            let branch = bytes[off];
            if j > 0 && bytes[off - 16416] >= branch {
                proof {
                    assert(rec_off(j as int - 1) == off - 16416);
                    assert(bytes@[rec_off(j as int - 1)] >= bytes@[rec_off(j as int)]);
                }
                return Err(VerkleError::ProofDecoding);
            }
            let mut stem = [0u8; 31];
            let mut i: usize = 0;
            while i < 31
                invariant
                    i <= 31,
                    off + 16416 <= bytes@.len(),
                    bytes@.len() <= 0x500000,
                    forall|k: int| 0 <= k < i ==> stem@[k] == bytes@[off + 1 + k],
                decreases 31 - i,
            {
                stem[i] = bytes[off + 1 + i];
                i += 1;
            }
            if stem[0] != branch {
                proof {
                    assert(stem@[0] == bytes@[off + 1]);
                    assert(bytes@[rec_off(j as int)] != bytes@[rec_off(j as int) + 1]);
                }
                return Err(VerkleError::ProofDecoding);
            }
            let c1 = match parse_slots(bytes, off + 32) {
                Ok(v) => v,
                Err(e) => {
                    proof {
                        if proof_bytes_ok(bytes@) {
                            assert forall|t: int| 0 <= t < 256 implies fr_ok(
                                #[trigger] bytes@.subrange(off + 32 + 32 * t, off + 32 + 32 * t + 32),
                            ) by {
                                assert(fr_ok(bytes@.subrange(
                                    rec_off(j as int) + 32 + 32 * t,
                                    rec_off(j as int) + 32 + 32 * t + 32,
                                )));
                            }
                            assert(false);
                        }
                    }
                    return Err(e);
                },
            };
            let c2 = match parse_slots(bytes, off + 32 + 8192) {
                Ok(v) => v,
                Err(e) => {
                    proof {
                        if proof_bytes_ok(bytes@) {
                            assert forall|t: int| 0 <= t < 256 implies fr_ok(
                                #[trigger] bytes@.subrange(
                                    off + 8224 + 32 * t,
                                    off + 8224 + 32 * t + 32,
                                ),
                            ) by {
                                assert(off + 8224 + 32 * t == rec_off(j as int) + 32 + 32 * (t
                                    + 256));
                                assert(fr_ok(bytes@.subrange(
                                    rec_off(j as int) + 32 + 32 * (t + 256),
                                    rec_off(j as int) + 32 + 32 * (t + 256) + 32,
                                )));
                            }
                            assert(false);
                        }
                    }
                    return Err(e);
                },
            };
            let node = ExtNode { branch, stem, c1, c2 };
            proof {
                assert(stem@ =~= bytes@.subrange(off + 1, off + 32));
                assert(node@ == proof_of_bytes(bytes@).exts[j as int]);
            }
            exts.push(node);
            j += 1;
        }
        let p = Proof { root_slots, exts };
        proof {
            assert(p@.root_slots =~= proof_of_bytes(bytes@).root_slots);
            assert(p@.exts =~= proof_of_bytes(bytes@).exts);
            assert(p@ == proof_of_bytes(bytes@));
            assert forall|t: int| 0 <= t < 256 implies fr_ok(
                #[trigger] bytes@.subrange(1 + 32 * t, 1 + 32 * t + 32),
            ) by {
                assert(frs_b(root_slots@)[t] == bytes@.subrange(1 + 32 * t, 1 + 32 * t + 32));
                assert(root_slots@[t].wf());
            }
            assert forall|jj: int| 0 <= jj < n implies (#[trigger] bytes@[rec_off(jj)])
                == bytes@[rec_off(jj) + 1] by {
                let e = exts@[jj]@;
                assert(e == proof_of_bytes(bytes@).exts[jj]);
                assert(e.stem == bytes@.subrange(rec_off(jj) + 1, rec_off(jj) + 32));
                assert(e.stem[0] == bytes@[rec_off(jj) + 1]);
                assert(ext_v_wf(e));
                assert(e.branch == bytes@[rec_off(jj)]);
            }
            assert forall|jj: int| 0 <= jj < n - 1 implies (#[trigger] bytes@[rec_off(jj)])
                < bytes@[rec_off(jj + 1)] by {
                assert(exts@[jj]@.branch < exts@[jj + 1]@.branch);
                assert(exts@[jj]@.branch == bytes@[rec_off(jj)]);
                assert(exts@[jj + 1]@.branch == bytes@[rec_off(jj + 1)]);
            }
            assert forall|jj: int, t: int| 0 <= jj < n && 0 <= t < 512 implies fr_ok(
                #[trigger] bytes@.subrange(rec_off(jj) + 32 + 32 * t, rec_off(jj) + 32 + 32 * t + 32),
            ) by {
                let e = exts@[jj]@;
                assert(e == proof_of_bytes(bytes@).exts[jj]);
                assert(ext_v_wf(e));
                if t < 256 {
                    assert(e.c1[t] == bytes@.subrange(
                        rec_off(jj) + 32 + 32 * t,
                        rec_off(jj) + 32 + 32 * t + 32,
                    ));
                    assert(fr_ok(e.c1[t]));
                } else {
                    assert(rec_off(jj) + 32 + 32 * t == rec_off(jj) + 8224 + 32 * (t - 256));
                    assert(e.c2[t - 256] == bytes@.subrange(
                        rec_off(jj) + 8224 + 32 * (t - 256),
                        rec_off(jj) + 8224 + 32 * (t - 256) + 32,
                    ));
                    assert(fr_ok(e.c2[t - 256]));
                }
            }
        }
        Ok(p)
    }
}

/// The view of a sequence of extension nodes.
pub open spec fn exts_v(v: Seq<ExtNode>) -> Seq<ExtV> {
    Seq::new(v.len(), |j: int| v[j]@)
}

/// The byte views of a sequence of keys or values.
pub open spec fn keys_b(s: Seq<[u8; 32]>) -> Seq<Seq<u8>> {
    Seq::new(s.len(), |i: int| s[i]@)
}

/// The byte view of an optional 32-byte value.
pub open spec fn opt_b(o: Option<[u8; 32]>) -> Option<Seq<u8>> {
    match o {
        Some(a) => Some(a@),
        None => None,
    }
}

/// The byte views of a sequence of optional values.
pub open spec fn opts_b(s: Seq<Option<[u8; 32]>>) -> Seq<Option<Seq<u8>>> {
    Seq::new(s.len(), |i: int| opt_b(s[i]))
}

/// The low suffix slot of a present value: its first 16 bytes followed by
/// a marker byte 1, as a scalar. The marker keeps a present zero value
/// distinct from an absent one.
pub open spec fn lo_slot_b(value: Seq<u8>) -> Seq<u8> {
    chunk_scalar(value.subrange(0, 16).push(1u8))
}

/// The high suffix slot of a present value: its last 16 bytes as a scalar.
pub open spec fn hi_slot_b(value: Seq<u8>) -> Seq<u8> {
    chunk_scalar(value.subrange(16, 32))
}

/// What a pair of suffix slots denotes: `None` when the pair is not a
/// valid encoding, `Some(None)` for an attested absence (both slots
/// zero), and `Some(Some(v))` for an attested value.
pub open spec fn slot_pair_value(lo: Seq<u8>, hi: Seq<u8>) -> Option<Option<Seq<u8>>> {
    if lo == zero_scalar() && hi == zero_scalar() {
        Some(None)
    } else if lo.len() == 32 && hi.len() == 32 && lo[16] == 1 && (forall|k: int|
        17 <= k < 32 ==> lo[k] == 0) && (forall|k: int| 16 <= k < 32 ==> hi[k] == 0) {
        Some(Some(lo.subrange(0, 16) + hi.subrange(0, 16)))
    } else {
        None
    }
}

/// Whether some extension node carries the branch `b`.
pub open spec fn has_branch(exts: Seq<ExtV>, b: u8) -> bool {
    exists|j: int| 0 <= j < exts.len() && (#[trigger] exts[j]).branch == b
}

/// The index of the extension node carrying branch `b`.
pub open spec fn branch_index(exts: Seq<ExtV>, b: u8) -> int {
    choose|j: int| 0 <= j < exts.len() && (#[trigger] exts[j]).branch == b
}

/// No two extension nodes share a branch.
pub open spec fn distinct_branches(exts: Seq<ExtV>) -> bool {
    forall|j: int, k: int|
        0 <= j < k < exts.len() ==> (#[trigger] exts[j]).branch != (#[trigger] exts[k]).branch
}

/// Whether some extension node carries the stem.
pub open spec fn has_stem(exts: Seq<ExtV>, stem: Seq<u8>) -> bool {
    exists|j: int| 0 <= j < exts.len() && (#[trigger] exts[j]).stem == stem
}

/// The index of the extension node carrying the stem.
pub open spec fn stem_index(exts: Seq<ExtV>, stem: Seq<u8>) -> int {
    choose|j: int| 0 <= j < exts.len() && (#[trigger] exts[j]).stem == stem
}

/// No two extension nodes share a stem.
pub open spec fn distinct_stems(exts: Seq<ExtV>) -> bool {
    forall|j: int, k: int|
        0 <= j < k < exts.len() ==> (#[trigger] exts[j]).stem != (#[trigger] exts[k]).stem
}

/// The two suffix slots a key's value lives in.
pub open spec fn suffix_slots(e: ExtV, suffix: u8) -> (Seq<u8>, Seq<u8>) {
    let pos = 2 * ((suffix as int) % 128);
    if suffix < 128 {
        (e.c1[pos], e.c1[pos + 1])
    } else {
        (e.c2[pos], e.c2[pos + 1])
    }
}

/// What the proof attests for a key: `None` when the key is not covered
/// (or a disclosed slot pair is malformed), `Some(None)` for attested
/// absence, `Some(Some(v))` for an attested value.
pub open spec fn attested(p: ProofV, key: Seq<u8>) -> Option<Option<Seq<u8>>> {
    let b = key[0];
    if has_branch(p.exts, b) {
        let e = p.exts[branch_index(p.exts, b)];
        if e.stem == key.subrange(0, 31) {
            let pr = suffix_slots(e, key[31]);
            slot_pair_value(pr.0, pr.1)
        } else {
            Some(None)
        }
    } else if p.root_slots[b as int] == zero_scalar() {
        Some(None)
    } else {
        None
    }
}

/// The 256 slots of an extension node, given its stem and the hashes of
/// its two suffix-node commitments: a marker 1, the stem as a scalar, the
/// two hashes, and zeros.
pub open spec fn ext_slots_from(stem: Seq<u8>, h1: Seq<u8>, h2: Seq<u8>) -> Seq<Seq<u8>> {
    Seq::new(
        256,
        |i: int|
            if i == 0 {
                chunk_scalar(seq![1u8])
            } else if i == 1 {
                chunk_scalar(stem)
            } else if i == 2 {
                h1
            } else if i == 3 {
                h2
            } else {
                zero_scalar()
            },
    )
}

/// The slots of an extension node with its suffix nodes committed from
/// scratch.
pub open spec fn ext_slots_b(basis: Seq<Seq<u8>>, e: ExtV) -> Seq<Seq<u8>> {
    ext_slots_from(
        e.stem,
        hash_point_b(commit_b(basis, e.c1)),
        hash_point_b(commit_b(basis, e.c2)),
    )
}

/// The commitment of an extension node, from scratch.
pub open spec fn ext_commit_b(basis: Seq<Seq<u8>>, e: ExtV) -> Seq<u8> {
    commit_b(basis, ext_slots_b(basis, e))
}

/// The scalar an extension node is summarized by in the root node.
pub open spec fn ext_hash_b(basis: Seq<Seq<u8>>, e: ExtV) -> Seq<u8> {
    hash_point_b(ext_commit_b(basis, e))
}

/// The proof is consistent with the pre-state root: the recomputed root
/// commitment compresses to the root, and every disclosed extension is
/// summarized at its branch slot of the root node.
pub open spec fn consistent_b(basis: Seq<Seq<u8>>, p: ProofV, pre_root: Seq<u8>) -> bool {
    &&& el_compress_b(commit_b(basis, p.root_slots)) == pre_root
    &&& forall|j: int|
        0 <= j < p.exts.len() ==> p.root_slots[(#[trigger] p.exts[j]).branch as int]
            == ext_hash_b(basis, p.exts[j])
}

/// A commitment recomputed incrementally after some slots changed: one
/// update step per changed slot, and no group operation for an unchanged
/// one.
pub open spec fn inc_commit_b(
    basis: Seq<Seq<u8>>,
    c: Seq<u8>,
    old: Seq<Seq<u8>>,
    new: Seq<Seq<u8>>,
    k: int,
) -> Seq<u8>
    decreases k,
{
    if k <= 0 {
        c
    } else {
        let prev = inc_commit_b(basis, c, old, new, k - 1);
        if old[k - 1] == new[k - 1] {
            prev
        } else {
            update_step_b(prev, basis[k - 1], old[k - 1], new[k - 1])
        }
    }
}

/// An extension node with one value written at a suffix.
pub open spec fn ext_write(e: ExtV, suffix: u8, v: Seq<u8>) -> ExtV {
    let pos = 2 * ((suffix as int) % 128);
    if suffix < 128 {
        ExtV {
            branch: e.branch,
            stem: e.stem,
            c1: e.c1.update(pos, lo_slot_b(v)).update(pos + 1, hi_slot_b(v)),
            c2: e.c2,
        }
    } else {
        ExtV {
            branch: e.branch,
            stem: e.stem,
            c1: e.c1,
            c2: e.c2.update(pos, lo_slot_b(v)).update(pos + 1, hi_slot_b(v)),
        }
    }
}

/// A fresh extension node for a stem with no entries yet.
pub open spec fn empty_ext(key: Seq<u8>) -> ExtV {
    ExtV {
        branch: key[0],
        stem: key.subrange(0, 31),
        c1: Seq::new(256, |i: int| zero_scalar()),
        c2: Seq::new(256, |i: int| zero_scalar()),
    }
}

/// The extension nodes after the first `n` requested writes: a write to a
/// stem that already has an extension — disclosed, or created earlier in
/// the batch — updates its suffix slots; a write to any other stem
/// appends a fresh extension for it.
pub open spec fn apply_writes(
    exts: Seq<ExtV>,
    keys: Seq<Seq<u8>>,
    news: Seq<Option<Seq<u8>>>,
    n: int,
) -> Seq<ExtV>
    decreases n,
{
    if n <= 0 {
        exts
    } else {
        let prev = apply_writes(exts, keys, news, n - 1);
        match news[n - 1] {
            None => prev,
            Some(v) => {
                let key = keys[n - 1];
                if has_stem(prev, key.subrange(0, 31)) {
                    let j = stem_index(prev, key.subrange(0, 31));
                    prev.update(j, ext_write(prev[j], key[31], v))
                } else {
                    prev.push(ext_write(empty_ext(key), key[31], v))
                }
            },
        }
    }
}

/// The stems of a final extension list, in order.
pub open spec fn all_stems(finals: Seq<ExtV>) -> Seq<Seq<u8>> {
    Seq::new(finals.len(), |j: int| finals[j].stem)
}

/// The new summaries of a final extension list, in order.
pub open spec fn all_hashes(basis: Seq<Seq<u8>>, p: ProofV, finals: Seq<ExtV>) -> Seq<Seq<u8>> {
    Seq::new(finals.len(), |j: int| final_ext_hash(basis, p, finals, j))
}

/// The stems of the entries whose stem byte at `depth` is `c`, keeping
/// their order.
pub open spec fn sel_stems(stems: Seq<Seq<u8>>, depth: int, c: u8) -> Seq<Seq<u8>>
    decreases stems.len(),
{
    if stems.len() == 0 {
        Seq::empty()
    } else {
        let r = sel_stems(stems.drop_last(), depth, c);
        if stems.last()[depth] == c {
            r.push(stems.last())
        } else {
            r
        }
    }
}

/// The summaries paired with the stems `sel_stems` keeps.
pub open spec fn sel_hashes(stems: Seq<Seq<u8>>, hashes: Seq<Seq<u8>>, depth: int, c: u8) -> Seq<
    Seq<u8>,
>
    decreases stems.len(),
{
    if stems.len() == 0 {
        Seq::empty()
    } else {
        let r = sel_hashes(stems.drop_last(), hashes.drop_last(), depth, c);
        if stems.last()[depth] == c {
            r.push(hashes.last())
        } else {
            r
        }
    }
}

/// The summary of the subtree holding the given stems below `depth`
/// consumed bytes: a lone stem is its extension's summary; several stems
/// hang from a fresh internal node whose slots summarize the sub-subtrees
/// grouped by the next stem byte — the extension-split structure an
/// insertion under an occupied branch calls for.
pub open spec fn subtree_hash_b(
    basis: Seq<Seq<u8>>,
    stems: Seq<Seq<u8>>,
    hashes: Seq<Seq<u8>>,
    depth: int,
) -> Seq<u8>
    decreases 31 - depth, 1int,
{
    if stems.len() <= 1 || depth >= 31 {
        if hashes.len() >= 1 {
            hashes[0]
        } else {
            zero_scalar()
        }
    } else {
        hash_point_b(commit_b(basis, subtree_slots_b(basis, stems, hashes, depth)))
    }
}

/// The 256 slots of the fresh internal node a split introduces: one
/// sub-subtree summary per next stem byte, zero where no stem continues.
pub open spec fn subtree_slots_b(
    basis: Seq<Seq<u8>>,
    stems: Seq<Seq<u8>>,
    hashes: Seq<Seq<u8>>,
    depth: int,
) -> Seq<Seq<u8>>
    decreases 31 - depth, 0int,
{
    Seq::new(
        256,
        |c: int|
            if sel_stems(stems, depth, c as u8).len() == 0 {
                zero_scalar()
            } else if depth < 31 {
                subtree_hash_b(
                    basis,
                    sel_stems(stems, depth, c as u8),
                    sel_hashes(stems, hashes, depth, c as u8),
                    depth + 1,
                )
            } else {
                zero_scalar()
            },
    )
}

/// The root-slot summary of the extension at index `j` of the final list:
/// incrementally recomputed from its disclosed pre-state when it was
/// disclosed, committed from scratch when it was created by the batch.
pub open spec fn final_ext_hash(
    basis: Seq<Seq<u8>>,
    p: ProofV,
    finals: Seq<ExtV>,
    j: int,
) -> Seq<u8> {
    if j < p.exts.len() {
        let old_e = p.exts[j];
        let new_e = finals[j];
        let c1n = inc_commit_b(basis, commit_b(basis, old_e.c1), old_e.c1, new_e.c1, 256);
        let c2n = inc_commit_b(basis, commit_b(basis, old_e.c2), old_e.c2, new_e.c2, 256);
        let slots_new = ext_slots_from(new_e.stem, hash_point_b(c1n), hash_point_b(c2n));
        hash_point_b(
            inc_commit_b(
                basis,
                ext_commit_b(basis, old_e),
                ext_slots_b(basis, old_e),
                slots_new,
                256,
            ),
        )
    } else {
        ext_hash_b(basis, finals[j])
    }
}

/// The root node's slots after the batch: a branch with final extensions
/// carries the summary of their subtree, all others keep their pre-state
/// slot.
pub open spec fn new_root_slots_b(basis: Seq<Seq<u8>>, p: ProofV, finals: Seq<ExtV>) -> Seq<
    Seq<u8>,
> {
    Seq::new(
        256,
        |b: int|
            if sel_stems(all_stems(finals), 0, b as u8).len() == 0 {
                p.root_slots[b]
            } else {
                subtree_hash_b(
                    basis,
                    sel_stems(all_stems(finals), 0, b as u8),
                    sel_hashes(all_stems(finals), all_hashes(basis, p, finals), 0, b as u8),
                    1,
                )
            },
    )
}

/// The post-state root: the pre-state root commitment incrementally
/// updated at every root slot the batch changed, compressed to wire form.
pub open spec fn new_root_b(basis: Seq<Seq<u8>>, p: ProofV, finals: Seq<ExtV>) -> Seq<u8> {
    el_compress_b(
        inc_commit_b(
            basis,
            commit_b(basis, p.root_slots),
            p.root_slots,
            new_root_slots_b(basis, p, finals),
            256,
        ),
    )
}

/// In a branch-sorted extension list, earlier nodes carry smaller
/// branches.
pub proof fn lemma_sorted_lt(exts: Seq<ExtV>, j: int, k: int)
    requires
        forall|m: int| 0 <= m < exts.len() - 1 ==> (#[trigger] exts[m].branch) < exts[m + 1].branch,
        0 <= j < k < exts.len(),
    ensures
        exts[j].branch < exts[k].branch,
    decreases k - j,
{
    if j + 1 < k {
        lemma_sorted_lt(exts, j, k - 1);
        assert(exts[k - 1].branch < exts[k].branch);
    }
}

/// A branch-sorted extension list has distinct branches.
pub proof fn lemma_sorted_distinct(exts: Seq<ExtV>)
    requires
        forall|m: int| 0 <= m < exts.len() - 1 ==> (#[trigger] exts[m].branch) < exts[m + 1].branch,
    ensures
        distinct_branches(exts),
{
    assert forall|j: int, k: int|
        0 <= j < k < exts.len() implies (#[trigger] exts[j]).branch != (#[trigger] exts[k]).branch by {
        lemma_sorted_lt(exts, j, k);
    }
}

/// With distinct branches, the index found for a branch is the only one.
pub proof fn lemma_branch_index(exts: Seq<ExtV>, j: int)
    requires
        distinct_branches(exts),
        0 <= j < exts.len(),
    ensures
        has_branch(exts, exts[j].branch),
        branch_index(exts, exts[j].branch) == j,
{
    let b = exts[j].branch;
    assert(has_branch(exts, b));
    let k = branch_index(exts, b);
    if k != j {
        if k < j {
            assert(exts[k].branch != exts[j].branch);
        } else {
            assert(exts[j].branch != exts[k].branch);
        }
    }
}

/// With distinct stems, the index found for a stem is the only one.
pub proof fn lemma_stem_index(exts: Seq<ExtV>, j: int)
    requires
        distinct_stems(exts),
        0 <= j < exts.len(),
    ensures
        has_stem(exts, exts[j].stem),
        stem_index(exts, exts[j].stem) == j,
{
    let st = exts[j].stem;
    assert(has_stem(exts, st));
    let k = stem_index(exts, st);
    if k != j {
        if k < j {
            assert(exts[k].stem != exts[j].stem);
        } else {
            assert(exts[j].stem != exts[k].stem);
        }
    }
}

/// Well-formed extensions with distinct branches have distinct stems: a
/// stem starts with its branch byte.
pub proof fn lemma_distinct_stems(exts: Seq<ExtV>)
    requires
        distinct_branches(exts),
        forall|j: int| 0 <= j < exts.len() ==> ext_v_wf(#[trigger] exts[j]),
    ensures
        distinct_stems(exts),
{
    assert forall|j: int, k: int|
        0 <= j < k < exts.len() implies (#[trigger] exts[j]).stem != (#[trigger] exts[k]).stem by {
        assert(exts[j].stem[0] == exts[j].branch);
        assert(exts[k].stem[0] == exts[k].branch);
    }
}

/// Copies a scalar vector.
fn copy_scalars(v: &Vec<FrWrapper>) -> (r: Vec<FrWrapper>)
    ensures
        r@ == v@,
{
    let mut out: Vec<FrWrapper> = Vec::new();
    let mut i: usize = 0;
    while i < v.len()
        invariant
            i <= v@.len(),
            out@.len() == i,
            forall|k: int| 0 <= k < i ==> out@[k] == v@[k],
        decreases v@.len() - i,
    {
        out.push(v[i]);
        i += 1;
    }
    proof {
        assert(out@ =~= v@);
    }
    out
}

/// A suffix node with no entries: 256 zero slots.
fn zero_slots() -> (r: Vec<FrWrapper>)
    ensures
        frs_b(r@) =~= Seq::new(256, |i: int| zero_scalar()),
        crate::committer::all_fr_wf(r@),
        r@.len() == 256,
{
    let mut out: Vec<FrWrapper> = Vec::new();
    let mut i: usize = 0;
    while i < 256
        invariant
            i <= 256,
            out@.len() == i,
            forall|k: int|
                0 <= k < i ==> (#[trigger] out@[k])@ == zero_scalar() && out@[k].wf(),
        decreases 256 - i,
    {
        out.push(FrWrapper::default());
        i += 1;
    }
    out
}

/// The low suffix slot of a value.
fn value_lo(v: &[u8; 32]) -> (r: FrWrapper)
    ensures
        r@ == lo_slot_b(v@),
        r.wf(),
{
    let mut chunk = [0u8; 17];
    let mut i: usize = 0;
    while i < 16
        invariant
            i <= 16,
            forall|k: int| 0 <= k < i ==> chunk@[k] == v@[k],
            chunk@[16] == 0,
        decreases 16 - i,
    {
        chunk[i] = v[i];
        i += 1;
    }
    chunk[16] = 1;
    let r = fr_from_le_chunk(chunk.as_slice());
    proof {
        assert(chunk@ =~= v@.subrange(0, 16).push(1u8));
    }
    r
}

/// The high suffix slot of a value.
fn value_hi(v: &[u8; 32]) -> (r: FrWrapper)
    ensures
        r@ == hi_slot_b(v@),
        r.wf(),
{
    let mut chunk = [0u8; 16];
    let mut i: usize = 0;
    while i < 16
        invariant
            i <= 16,
            forall|k: int| 0 <= k < i ==> chunk@[k] == v@[16 + k],
        decreases 16 - i,
    {
        chunk[i] = v[16 + i];
        i += 1;
    }
    let r = fr_from_le_chunk(chunk.as_slice());
    proof {
        assert(chunk@ =~= v@.subrange(16, 32));
    }
    r
}

/// Builds the 256 slots of an extension node from its stem and the two
/// suffix-node commitment hashes.
fn ext_slots_exec(stem: &[u8; 31], h1: FrWrapper, h2: FrWrapper) -> (r: Vec<FrWrapper>)
    requires
        h1.wf(),
        h2.wf(),
    ensures
        frs_b(r@) =~= ext_slots_from(stem@, h1@, h2@),
        crate::committer::all_fr_wf(r@),
        r@.len() == 256,
{
    let one: [u8; 1] = [1u8];
    let mut out: Vec<FrWrapper> = Vec::new();
    out.push(fr_from_le_chunk(one.as_slice()));
    out.push(fr_from_le_chunk(stem.as_slice()));
    out.push(h1);
    out.push(h2);
    proof {
        assert(one@ =~= seq![1u8]);
    }
    let mut i: usize = 4;
    while i < 256
        invariant
            4 <= i <= 256,
            out@.len() == i,
            (#[trigger] out@[0])@ == chunk_scalar(seq![1u8]) && out@[0].wf(),
            out@[1]@ == chunk_scalar(stem@) && out@[1].wf(),
            out@[2]@ == h1@ && out@[2].wf(),
            out@[3]@ == h2@ && out@[3].wf(),
            forall|k: int| 4 <= k < i ==> (#[trigger] out@[k])@ == zero_scalar() && out@[k].wf(),
        decreases 256 - i,
    {
        out.push(FrWrapper::default());
        i += 1;
    }
    out
}

/// Whether a 32-byte vector equals a 32-byte slice.
fn bytes32_eq(a: &Vec<u8>, b: &[u8]) -> (r: bool)
    requires
        a@.len() == 32,
        b@.len() == 32,
    ensures
        r <==> a@ == b@,
{
    let mut i: usize = 0;
    while i < 32
        invariant
            i <= 32,
            a@.len() == 32,
            b@.len() == 32,
            forall|k: int| 0 <= k < i ==> a@[k] == b@[k],
        decreases 32 - i,
    {
        if a[i] != *vstd::slice::slice_index_get(b, i) {
            return false;
        }
        i += 1;
    }
    proof {
        assert(a@ =~= b@);
    }
    true
}

/// Whether two 32-byte values are equal.
fn value32_eq(a: &[u8; 32], b: &[u8; 32]) -> (r: bool)
    ensures
        r <==> a@ == b@,
{
    let mut i: usize = 0;
    while i < 32
        invariant
            i <= 32,
            forall|k: int| 0 <= k < i ==> a@[k] == b@[k],
        decreases 32 - i,
    {
        if a[i] != b[i] {
            return false;
        }
        i += 1;
    }
    proof {
        assert(a@ =~= b@);
    }
    true
}

/// Whether a key's stem (its first 31 bytes) equals a node's stem.
fn stem_matches(stem: &[u8; 31], key: &[u8; 32]) -> (r: bool)
    ensures
        r <==> stem@ == key@.subrange(0, 31),
{
    let mut i: usize = 0;
    while i < 31
        invariant
            i <= 31,
            forall|k: int| 0 <= k < i ==> stem@[k] == key@[k],
        decreases 31 - i,
    {
        if stem[i] != key[i] {
            return false;
        }
        i += 1;
    }
    proof {
        assert(stem@ =~= key@.subrange(0, 31));
    }
    true
}

/// The stem of a key.
fn stem_of_key(key: &[u8; 32]) -> (r: [u8; 31])
    ensures
        r@ == key@.subrange(0, 31),
{
    let mut stem = [0u8; 31];
    let mut i: usize = 0;
    while i < 31
        invariant
            i <= 31,
            forall|k: int| 0 <= k < i ==> stem@[k] == key@[k],
        decreases 31 - i,
    {
        stem[i] = key[i];
        i += 1;
    }
    proof {
        assert(stem@ =~= key@.subrange(0, 31));
    }
    stem
}

/// The byte views of a sequence of stems.
pub open spec fn stems31_b(s: Seq<[u8; 31]>) -> Seq<Seq<u8>> {
    Seq::new(s.len(), |i: int| s[i]@)
}

/// The extension node carrying a key's stem, if any.
fn find_stem(exts: &Vec<ExtNode>, key: &[u8; 32]) -> (r: Option<usize>)
    ensures
        r is Some ==> r->Some_0 < exts@.len() && exts_v(exts@)[r->Some_0 as int].stem
            == key@.subrange(0, 31),
        r is None ==> !has_stem(exts_v(exts@), key@.subrange(0, 31)),
{
    let mut j: usize = 0;
    while j < exts.len()
        invariant
            j <= exts@.len(),
            forall|k: int| 0 <= k < j ==> exts_v(exts@)[k].stem != key@.subrange(0, 31),
        decreases exts@.len() - j,
    {
        if stem_matches(&exts[j].stem, key) {
            return Some(j);
        }
        proof {
            assert(exts_v(exts@)[j as int].stem == exts@[j as int]@.stem);
        }
        j += 1;
    }
    None
}

/// The extension node of a branch, if one is disclosed.
fn find_branch(exts: &Vec<ExtNode>, b: u8) -> (r: Option<usize>)
    ensures
        r is Some ==> r->Some_0 < exts@.len() && exts_v(exts@)[r->Some_0 as int].branch == b,
        r is None ==> !has_branch(exts_v(exts@), b),
{
    let mut j: usize = 0;
    while j < exts.len()
        invariant
            j <= exts@.len(),
            forall|k: int| 0 <= k < j ==> exts_v(exts@)[k].branch != b,
        decreases exts@.len() - j,
    {
        if exts[j].branch == b {
            return Some(j);
        }
        proof {
            assert(exts_v(exts@)[j as int].branch == exts@[j as int]@.branch);
        }
        j += 1;
    }
    None
}

/// Decodes the pair of suffix slots of a key: `None` for a malformed
/// pair, `Some(None)` for attested absence, `Some(Some(v))` for an
/// attested value.
fn decode_slot_pair(lo: &FrWrapper, hi: &FrWrapper) -> (r: Option<Option<[u8; 32]>>)
    ensures
        r is None <==> slot_pair_value(lo@, hi@) is None,
        r == Some(Option::<[u8; 32]>::None) <==> slot_pair_value(lo@, hi@) == Some(
            Option::<Seq<u8>>::None,
        ),
        r matches Some(Some(v)) ==> slot_pair_value(lo@, hi@) == Some(Some(v@)),
{
    let lb = lo.to_bytes();
    let hb = hi.to_bytes();
    let mut all_zero = true;
    let mut i: usize = 0;
    while i < 32
        invariant
            i <= 32,
            lb@ == lo@,
            hb@ == hi@,
            lb@.len() == 32,
            hb@.len() == 32,
            all_zero <==> (forall|k: int| 0 <= k < i ==> lb@[k] == 0 && hb@[k] == 0),
        decreases 32 - i,
    {
        if lb[i] != 0 || hb[i] != 0 {
            all_zero = false;
        }
        i += 1;
    }
    if all_zero {
        proof {
            assert(lo@ =~= zero_scalar());
            assert(hi@ =~= zero_scalar());
        }
        return Some(None);
    }
    proof {
        if lo@ == zero_scalar() && hi@ == zero_scalar() {
            assert(lo@[0] == 0 && hi@[0] == 0);
            assert(false);
        }
    }
    if lb[16] != 1 {
        return None;
    }
    let mut i: usize = 17;
    while i < 32
        invariant
            17 <= i <= 32,
            lb@ == lo@,
            lb@.len() == 32,
            forall|k: int| 17 <= k < i ==> lb@[k] == 0,
        decreases 32 - i,
    {
        if lb[i] != 0 {
            return None;
        }
        i += 1;
    }
    let mut i: usize = 16;
    while i < 32
        invariant
            16 <= i <= 32,
            hb@ == hi@,
            hb@.len() == 32,
            forall|k: int| 16 <= k < i ==> hb@[k] == 0,
        decreases 32 - i,
    {
        if hb[i] != 0 {
            return None;
        }
        i += 1;
    }
    let mut v = [0u8; 32];
    let mut i: usize = 0;
    while i < 16
        invariant
            i <= 16,
            lb@ == lo@,
            hb@ == hi@,
            lb@.len() == 32,
            hb@.len() == 32,
            forall|k: int| 0 <= k < i ==> v@[k] == lb@[k] && v@[16 + k] == hb@[k],
        decreases 16 - i,
    {
        v[i] = lb[i];
        v[16 + i] = hb[i];
        i += 1;
    }
    proof {
        assert(v@ =~= lo@.subrange(0, 16) + hi@.subrange(0, 16));
    }
    Some(Some(v))
}

/// Copies an extension node.
fn copy_ext(node: &ExtNode) -> (r: ExtNode)
    ensures
        r@ == node@,
{
    ExtNode {
        branch: node.branch,
        stem: node.stem,
        c1: copy_scalars(&node.c1),
        c2: copy_scalars(&node.c2),
    }
}

/// An extension node with one value written at the key's suffix.
fn write_ext(node: &ExtNode, key: &[u8; 32], v: &[u8; 32]) -> (r: ExtNode)
    requires
        ext_v_wf(node@),
    ensures
        r@ == ext_write(node@, key@[31], v@),
        ext_v_wf(r@),
{
    let suffix = key[31];
    let pos = 2 * ((suffix as usize) % 128);
    let lo = value_lo(v);
    let hi = value_hi(v);
    if suffix < 128 {
        let mut c1 = copy_scalars(&node.c1);
        proof {
            assert(node@.c1.len() == 256);
            assert(c1@.len() == 256);
        }
        c1[pos] = lo;
        c1[pos + 1] = hi;
        let r = ExtNode { branch: node.branch, stem: node.stem, c1, c2: copy_scalars(&node.c2) };
        proof {
            assert(r@.c1 =~= ext_write(node@, key@[31], v@).c1);
        }
        r
    } else {
        let mut c2 = copy_scalars(&node.c2);
        proof {
            assert(node@.c2.len() == 256);
            assert(c2@.len() == 256);
        }
        c2[pos] = lo;
        c2[pos + 1] = hi;
        let r = ExtNode { branch: node.branch, stem: node.stem, c1: copy_scalars(&node.c1), c2 };
        proof {
            assert(r@.c2 =~= ext_write(node@, key@[31], v@).c2);
        }
        r
    }
}

/// What the proof attests for one key, mirroring `attested`.
fn attested_exec(proof: &Proof, key: &[u8; 32]) -> (r: Option<Option<[u8; 32]>>)
    requires
        proof.wf(),
    ensures
        r is None <==> attested(proof@, key@) is None,
        r == Some(Option::<[u8; 32]>::None) <==> attested(proof@, key@) == Some(
            Option::<Seq<u8>>::None,
        ),
        r matches Some(Some(v)) ==> attested(proof@, key@) == Some(Some(v@)),
{
    let b = key[0];
    match find_branch(&proof.exts, b) {
        Some(j) => {
            proof {
                lemma_sorted_distinct(proof@.exts);
                assert(exts_v(proof.exts@) =~= proof@.exts);
                lemma_branch_index(proof@.exts, j as int);
            }
            let node = &proof.exts[j];
            proof {
                assert(node@ == proof@.exts[j as int]);
                assert(ext_v_wf(node@));
                assert(node.c1@.len() == 256);
                assert(node.c2@.len() == 256);
            }
            if stem_matches(&node.stem, key) {
                let suffix = key[31];
                let pos = 2 * ((suffix as usize) % 128);
                if suffix < 128 {
                    proof {
                        assert(node@.c1[pos as int] == node.c1@[pos as int]@);
                        assert(node@.c1[pos + 1] == node.c1@[pos + 1]@);
                    }
                    decode_slot_pair(&node.c1[pos], &node.c1[pos + 1])
                } else {
                    proof {
                        assert(node@.c2[pos as int] == node.c2@[pos as int]@);
                        assert(node@.c2[pos + 1] == node.c2@[pos + 1]@);
                    }
                    decode_slot_pair(&node.c2[pos], &node.c2[pos + 1])
                }
            } else {
                Some(None)
            }
        },
        None => {
            proof {
                assert(exts_v(proof.exts@) =~= proof@.exts);
                assert(proof@.root_slots.len() == 256);
            }
            let zero = FrWrapper::default();
            let slot = proof.root_slots[b as usize];
            proof {
                assert(slot@ == proof@.root_slots[b as int]);
            }
            if slot.equals(&zero) {
                Some(None)
            } else {
                None
            }
        },
    }
}

impl Context {
    /// Recomputes a commitment incrementally after its slots changed: one
    /// update step per changed slot, no group operation for the others.
    pub(crate) fn incremental_commit(
        &self,
        c: &ElementWrapper,
        old: &Vec<FrWrapper>,
        new: &Vec<FrWrapper>,
    ) -> (r: ElementWrapper)
        requires
            self.wf(),
            c.wf(),
            crate::committer::all_fr_wf(old@),
            crate::committer::all_fr_wf(new@),
            old@.len() == 256,
            new@.len() == 256,
        ensures
            r@ == inc_commit_b(self.basis_b(), c@, frs_b(old@), frs_b(new@), 256),
            r.wf(),
    {
        let mut acc = *c;
        let mut k: usize = 0;
        while k < 256
            invariant
                self.wf(),
                crate::committer::all_fr_wf(old@),
                crate::committer::all_fr_wf(new@),
                old@.len() == 256,
                new@.len() == 256,
                k <= 256,
                acc@ == inc_commit_b(self.basis_b(), c@, frs_b(old@), frs_b(new@), k as int),
                acc.wf(),
            decreases 256 - k,
        {
            let o = old[k];
            let nw = new[k];
            if !o.equals(&nw) {
                let delta = crate::scalar_field::fr_sub(nw, o);
                acc = crate::element::element_add(
                    acc,
                    ElementWrapper::scalar_mul(self.basis_at(k), delta),
                );
            }
            k += 1;
        }
        acc
    }
}

impl Context {
    /// The summary of the subtree holding the given stems below `depth`
    /// consumed bytes: the extension split an insertion under an occupied
    /// branch calls for. A lone stem keeps its extension's summary;
    /// several stems are grouped by their next byte into fresh internal
    /// nodes, committed from scratch.
    fn subtree_hash(&self, stems: &Vec<[u8; 31]>, hashes: &Vec<FrWrapper>, depth: usize) -> (r:
        FrWrapper)
        requires
            self.wf(),
            stems@.len() == hashes@.len(),
            stems@.len() >= 1,
            crate::committer::all_fr_wf(hashes@),
        ensures
            r@ == subtree_hash_b(self.basis_b(), stems31_b(stems@), frs_b(hashes@), depth as int),
            r.wf(),
        decreases 31 - depth,
    {
        if stems.len() == 1 || depth >= 31 {
            return hashes[0];
        }
        let mut slots: Vec<FrWrapper> = Vec::new();
        let mut c: usize = 0;
        while c < 256
            invariant
                self.wf(),
                stems@.len() == hashes@.len(),
                stems@.len() >= 2,
                depth < 31,
                crate::committer::all_fr_wf(hashes@),
                c <= 256,
                slots@.len() == c,
                forall|k: int|
                    0 <= k < c ==> (#[trigger] slots@[k])@ == subtree_slots_b(
                        self.basis_b(),
                        stems31_b(stems@),
                        frs_b(hashes@),
                        depth as int,
                    )[k] && slots@[k].wf(),
            decreases 256 - c,
        {
            let mut g_stems: Vec<[u8; 31]> = Vec::new();
            let mut g_hashes: Vec<FrWrapper> = Vec::new();
            let mut j: usize = 0;
            while j < stems.len()
                invariant
                    stems@.len() == hashes@.len(),
                    crate::committer::all_fr_wf(hashes@),
                    depth < 31,
                    j <= stems@.len(),
                    g_stems@.len() == g_hashes@.len(),
                    stems31_b(g_stems@) == sel_stems(
                        stems31_b(stems@).take(j as int),
                        depth as int,
                        c as u8,
                    ),
                    frs_b(g_hashes@) == sel_hashes(
                        stems31_b(stems@).take(j as int),
                        frs_b(hashes@).take(j as int),
                        depth as int,
                        c as u8,
                    ),
                    crate::committer::all_fr_wf(g_hashes@),
                decreases stems@.len() - j,
            {
                let ghost pre_s = stems31_b(g_stems@);
                let ghost pre_h = frs_b(g_hashes@);
                if stems[j][depth] == c as u8 {
                    g_stems.push(stems[j]);
                    g_hashes.push(hashes[j]);
                }
                proof {
                    let full_s = stems31_b(stems@);
                    let full_h = frs_b(hashes@);
                    assert(full_s.take(j + 1).drop_last() =~= full_s.take(j as int));
                    assert(full_h.take(j + 1).drop_last() =~= full_h.take(j as int));
                    assert(full_s.take(j + 1).last() == stems@[j as int]@);
                    assert(full_h.take(j + 1).last() == hashes@[j as int]@);
                    if stems@[j as int]@[depth as int] == c as u8 {
                        assert(stems31_b(g_stems@) =~= pre_s.push(stems@[j as int]@));
                        assert(frs_b(g_hashes@) =~= pre_h.push(hashes@[j as int]@));
                    }
                }
                j += 1;
            }
            proof {
                assert(stems31_b(stems@).take(stems@.len() as int) =~= stems31_b(stems@));
                assert(frs_b(hashes@).take(stems@.len() as int) =~= frs_b(hashes@));
            }
            proof {
                assert(subtree_slots_b(
                    self.basis_b(),
                    stems31_b(stems@),
                    frs_b(hashes@),
                    depth as int,
                )[c as int] == (if sel_stems(stems31_b(stems@), depth as int, c as u8).len()
                    == 0 {
                    zero_scalar()
                } else {
                    subtree_hash_b(
                        self.basis_b(),
                        sel_stems(stems31_b(stems@), depth as int, c as u8),
                        sel_hashes(stems31_b(stems@), frs_b(hashes@), depth as int, c as u8),
                        depth as int + 1,
                    )
                }));
            }
            if g_stems.len() == 0 {
                slots.push(FrWrapper::default());
            } else {
                slots.push(self.subtree_hash(&g_stems, &g_hashes, depth + 1));
            }
            c += 1;
        }
        let node_commit = self.commit_scalars_inner(&slots);
        proof {
            assert(frs_b(slots@) =~= subtree_slots_b(
                self.basis_b(),
                stems31_b(stems@),
                frs_b(hashes@),
                depth as int,
            ));
            assert(stems31_b(stems@).len() >= 2);
        }
        node_commit.map_to_scalar_field()
    }
}

/// Every key of the batch is covered by the proof.
pub open spec fn covered(p: ProofV, keys: Seq<Seq<u8>>) -> bool {
    forall|i: int| 0 <= i < keys.len() ==> attested(p, #[trigger] keys[i]) is Some
}

/// Every claimed old value is exactly what the proof attests.
pub open spec fn olds_match(p: ProofV, keys: Seq<Seq<u8>>, olds: Seq<Option<Seq<u8>>>) -> bool {
    forall|i: int| 0 <= i < keys.len() ==> attested(p, #[trigger] keys[i]) == Some(olds[i])
}

/// No slot of the batch requests an update.
pub open spec fn no_updates(news: Seq<Option<Seq<u8>>>) -> bool {
    forall|i: int| 0 <= i < news.len() ==> (#[trigger] news[i]) is None
}

/// The whole read side of a batch checks out: the root has wire width,
/// the proof is consistent with it, every key is covered, and every
/// claimed old value is the attested one.
pub open spec fn reads_verified(
    basis: Seq<Seq<u8>>,
    p: ProofV,
    root: Seq<u8>,
    keys: Seq<Seq<u8>>,
    olds: Seq<Option<Seq<u8>>>,
) -> bool {
    &&& root.len() == 32
    &&& consistent_b(basis, p, root)
    &&& covered(p, keys)
    &&& olds_match(p, keys, olds)
}

impl Context {
    /// Verifies that a batch of (key, old value) reads is consistent with
    /// the pre-state root under the proof, then computes the post-state
    /// root with the requested writes applied, through incremental
    /// commitment updates only. All-or-nothing: any failure returns one
    /// error and no partial result.
    pub fn verify_and_update(
        &self,
        proof: &Proof,
        pre_state_root: &[u8],
        keys: &Vec<[u8; 32]>,
        old_values: &Vec<Option<[u8; 32]>>,
        updated_values: &Vec<Option<[u8; 32]>>,
    ) -> (r: Result<Vec<u8>, VerkleError>)
        requires
            self.wf(),
            proof.wf(),
        ensures
            (keys@.len() != old_values@.len() || keys@.len() != updated_values@.len()) <==> r
                == Result::<Vec<u8>, VerkleError>::Err(VerkleError::LengthMismatch),
            keys@.len() == old_values@.len() && keys@.len() == updated_values@.len()
                && pre_state_root@.len() != 32 ==> r == Result::<Vec<u8>, VerkleError>::Err(
                VerkleError::InputDecoding,
            ),
            keys@.len() == old_values@.len() && keys@.len() == updated_values@.len()
                && pre_state_root@.len() == 32 && !consistent_b(
                self.basis_b(),
                proof@,
                pre_state_root@,
            ) ==> r == Result::<Vec<u8>, VerkleError>::Err(VerkleError::ProofInvalid),
            keys@.len() == old_values@.len() && keys@.len() == updated_values@.len()
                && pre_state_root@.len() == 32 && consistent_b(
                self.basis_b(),
                proof@,
                pre_state_root@,
            ) && !covered(proof@, keys_b(keys@)) ==> r == Result::<Vec<u8>, VerkleError>::Err(
                VerkleError::ProofInvalid,
            ),
            keys@.len() == old_values@.len() && keys@.len() == updated_values@.len()
                && pre_state_root@.len() == 32 && consistent_b(
                self.basis_b(),
                proof@,
                pre_state_root@,
            ) && covered(proof@, keys_b(keys@)) && !olds_match(
                proof@,
                keys_b(keys@),
                opts_b(old_values@),
            ) ==> r == Result::<Vec<u8>, VerkleError>::Err(VerkleError::InconsistentPreState),
            keys@.len() == old_values@.len() && keys@.len() == updated_values@.len()
                && reads_verified(
                self.basis_b(),
                proof@,
                pre_state_root@,
                keys_b(keys@),
                opts_b(old_values@),
            ) && no_updates(opts_b(updated_values@)) ==> r is Ok && r->Ok_0@ == pre_state_root@,
            keys@.len() == old_values@.len() && keys@.len() == updated_values@.len()
                && reads_verified(
                self.basis_b(),
                proof@,
                pre_state_root@,
                keys_b(keys@),
                opts_b(old_values@),
            ) && !no_updates(opts_b(updated_values@)) ==> r is Ok && r->Ok_0@ == new_root_b(
                self.basis_b(),
                proof@,
                apply_writes(
                    proof@.exts,
                    keys_b(keys@),
                    opts_b(updated_values@),
                    keys@.len() as int,
                ),
            ),
            r is Ok ==> r->Ok_0@.len() == 32,
    {
        if keys.len() != old_values.len() || keys.len() != updated_values.len() {
            return Err(VerkleError::LengthMismatch);
        }
        if pre_state_root.len() != 32 {
            return Err(VerkleError::InputDecoding);
        }
        // Recompute the root commitment from the disclosed slots and hold
        // it against the pre-state root.
        proof {
            assert forall|i: int| 0 <= i < proof.root_slots@.len() implies (#[trigger] proof.root_slots@[i]).wf() by {
                assert(fr_ok(proof@.root_slots[i]));
            }
        }
        let root_commit = self.commit_scalars_inner(&proof.root_slots);
        let rc = root_commit.to_bytes();
        if !bytes32_eq(&rc, pre_state_root) {
            return Err(VerkleError::ProofInvalid);
        }
        // Recompute every disclosed extension chain and hold its summary
        // against the root slot of its branch.
        let n0 = proof.exts.len();
        let mut c1_commits: Vec<ElementWrapper> = Vec::new();
        let mut c2_commits: Vec<ElementWrapper> = Vec::new();
        let mut ext_commits: Vec<ElementWrapper> = Vec::new();
        let mut j: usize = 0;
        while j < n0
            invariant
                self.wf(),
                proof.wf(),
                keys@.len() == old_values@.len(),
                keys@.len() == updated_values@.len(),
                pre_state_root@.len() == 32,
                n0 == proof@.exts.len(),
                j <= n0,
                c1_commits@.len() == j,
                c2_commits@.len() == j,
                ext_commits@.len() == j,
                forall|k: int|
                    0 <= k < j ==> (#[trigger] c1_commits@[k])@ == commit_b(
                        self.basis_b(),
                        proof@.exts[k].c1,
                    ) && c1_commits@[k].wf(),
                forall|k: int|
                    0 <= k < j ==> (#[trigger] c2_commits@[k])@ == commit_b(
                        self.basis_b(),
                        proof@.exts[k].c2,
                    ) && c2_commits@[k].wf(),
                forall|k: int|
                    0 <= k < j ==> (#[trigger] ext_commits@[k])@ == ext_commit_b(
                        self.basis_b(),
                        proof@.exts[k],
                    ) && ext_commits@[k].wf(),
                forall|k: int|
                    0 <= k < j ==> proof@.root_slots[(#[trigger] proof@.exts[k]).branch as int]
                        == ext_hash_b(self.basis_b(), proof@.exts[k]),
            decreases n0 - j,
        {
            let node = &proof.exts[j];
            proof {
                assert(node@ == proof@.exts[j as int]);
                assert(ext_v_wf(node@));
                assert forall|t: int| 0 <= t < node.c1@.len() implies (#[trigger] node.c1@[t]).wf() by {
                    assert(fr_ok(node@.c1[t]));
                }
                assert forall|t: int| 0 <= t < node.c2@.len() implies (#[trigger] node.c2@[t]).wf() by {
                    assert(fr_ok(node@.c2[t]));
                }
                assert(node.c1@.len() == 256);
                assert(node.c2@.len() == 256);
            }
            let c1c = self.commit_scalars_inner(&node.c1);
            let c2c = self.commit_scalars_inner(&node.c2);
            let slots = ext_slots_exec(&node.stem, c1c.map_to_scalar_field(), c2c.map_to_scalar_field());
            let extc = self.commit_scalars_inner(&slots);
            let h = extc.map_to_scalar_field();
            proof {
                assert(frs_b(slots@) == ext_slots_b(self.basis_b(), node@));
                assert(extc@ == ext_commit_b(self.basis_b(), node@));
                assert(h@ == ext_hash_b(self.basis_b(), node@));
                assert(proof@.root_slots.len() == 256);
            }
            let rs = proof.root_slots[node.branch as usize];
            proof {
                assert(rs@ == proof@.root_slots[node@.branch as int]);
            }
            if !rs.equals(&h) {
                proof {
                    if consistent_b(self.basis_b(), proof@, pre_state_root@) {
                        assert(proof@.root_slots[(proof@.exts[j as int]).branch as int]
                            == ext_hash_b(self.basis_b(), proof@.exts[j as int]));
                        assert(false);
                    }
                }
                return Err(VerkleError::ProofInvalid);
            }
            c1_commits.push(c1c);
            c2_commits.push(c2c);
            ext_commits.push(extc);
            j += 1;
        }
        proof {
            assert(root_commit@ == commit_b(self.basis_b(), proof@.root_slots));
            assert(consistent_b(self.basis_b(), proof@, pre_state_root@));
        }
        // Coverage: every key of the batch must be answered by the proof.
        let mut i: usize = 0;
        while i < keys.len()
            invariant
                proof.wf(),
                keys@.len() == old_values@.len(),
                keys@.len() == updated_values@.len(),
                pre_state_root@.len() == 32,
                i <= keys@.len(),
                forall|k: int| 0 <= k < i ==> attested(proof@, #[trigger] keys_b(keys@)[k]) is Some,
            decreases keys@.len() - i,
        {
            let a = attested_exec(proof, &keys[i]);
            if a.is_none() {
                proof {
                    assert(keys_b(keys@)[i as int] == keys@[i as int]@);
                    assert(!covered(proof@, keys_b(keys@)));
                }
                return Err(VerkleError::ProofInvalid);
            }
            proof {
                assert(keys_b(keys@)[i as int] == keys@[i as int]@);
            }
            i += 1;
        }
        // Pre-state: every claimed old value must be exactly the attested
        // one; absence claimed where a value is attested (and the other
        // way round) fails the whole call.
        let mut i: usize = 0;
        while i < keys.len()
            invariant
                proof.wf(),
                i <= keys@.len(),
                keys@.len() == old_values@.len(),
                keys@.len() == updated_values@.len(),
                pre_state_root@.len() == 32,
                consistent_b(self.basis_b(), proof@, pre_state_root@),
                covered(proof@, keys_b(keys@)),
                forall|k: int|
                    0 <= k < i ==> attested(proof@, #[trigger] keys_b(keys@)[k]) == Some(
                        opts_b(old_values@)[k],
                    ),
            decreases keys@.len() - i,
        {
            let a = attested_exec(proof, &keys[i]);
            proof {
                assert(keys_b(keys@)[i as int] == keys@[i as int]@);
                assert(attested(proof@, keys_b(keys@)[i as int]) is Some);
                assert(opts_b(old_values@)[i as int] == opt_b(old_values@[i as int]));
            }
            let consistent_here: bool = match (a, &old_values[i]) {
                (Some(None), None) => true,
                (Some(Some(v)), Some(o)) => value32_eq(&v, o),
                (None, _) => false,
                _ => false,
            };
            if !consistent_here {
                proof {
                    assert(!olds_match(proof@, keys_b(keys@), opts_b(old_values@)));
                }
                return Err(VerkleError::InconsistentPreState);
            }
            i += 1;
        }
        // A batch with no writes leaves the root untouched.
        let mut any_update = false;
        let mut i: usize = 0;
        while i < updated_values.len()
            invariant
                i <= updated_values@.len(),
                any_update <==> exists|k: int|
                    0 <= k < i && !((#[trigger] opts_b(updated_values@)[k]) is None),
            decreases updated_values@.len() - i,
        {
            proof {
                assert(opts_b(updated_values@)[i as int] == opt_b(updated_values@[i as int]));
            }
            if updated_values[i].is_some() {
                any_update = true;
            }
            i += 1;
        }
        if !any_update {
            let out = vstd::slice::slice_to_vec(pre_state_root);
            return Ok(out);
        }
        // Apply the writes to working copies of the disclosed extensions,
        // appending fresh extensions for stems the trie did not hold.
        let mut finals: Vec<ExtNode> = Vec::new();
        let mut j: usize = 0;
        while j < n0
            invariant
                proof.wf(),
                n0 == proof@.exts.len(),
                j <= n0,
                finals@.len() == j,
                forall|k: int| 0 <= k < j ==> (#[trigger] finals@[k]@) == proof@.exts[k],
            decreases n0 - j,
        {
            finals.push(copy_ext(&proof.exts[j]));
            j += 1;
        }
        proof {
            assert(exts_v(finals@) =~= proof@.exts);
            lemma_sorted_distinct(proof@.exts);
            lemma_distinct_stems(proof@.exts);
            assert(apply_writes(proof@.exts, keys_b(keys@), opts_b(updated_values@), 0)
                == exts_v(finals@));
        }
        let ghost gkeys = keys_b(keys@);
        let ghost gnews = opts_b(updated_values@);
        let mut i: usize = 0;
        while i < keys.len()
            invariant
                self.wf(),
                proof.wf(),
                n0 == proof@.exts.len(),
                i <= keys@.len(),
                keys@.len() == old_values@.len(),
                keys@.len() == updated_values@.len(),
                pre_state_root@.len() == 32,
                consistent_b(self.basis_b(), proof@, pre_state_root@),
                covered(proof@, keys_b(keys@)),
                olds_match(proof@, keys_b(keys@), opts_b(old_values@)),
                !no_updates(opts_b(updated_values@)),
                gkeys == keys_b(keys@),
                gnews == opts_b(updated_values@),
                apply_writes(proof@.exts, gkeys, gnews, i as int) == exts_v(finals@),
                distinct_stems(exts_v(finals@)),
                finals@.len() >= n0,
                forall|k: int|
                    0 <= k < n0 ==> (#[trigger] finals@[k]@).branch == proof@.exts[k].branch
                        && finals@[k]@.stem == proof@.exts[k].stem,
                forall|k: int| 0 <= k < finals@.len() ==> ext_v_wf(#[trigger] finals@[k]@),
            decreases keys@.len() - i,
        {
            proof {
                assert(gkeys[i as int] == keys@[i as int]@);
                assert(gnews[i as int] == opt_b(updated_values@[i as int]));
            }
            match &updated_values[i] {
                None => {},
                Some(v) => {
                    match find_stem(&finals, &keys[i]) {
                        Some(jf) => {
                            proof {
                                lemma_stem_index(exts_v(finals@), jf as int);
                            }
                            let node = &finals[jf];
                            let written = write_ext(node, &keys[i], v);
                            proof {
                                assert(written@ == ext_write(
                                    exts_v(finals@)[jf as int],
                                    gkeys[i as int][31],
                                    gnews[i as int]->Some_0,
                                ));
                            }
                            let ghost old_finals = exts_v(finals@);
                            finals[jf] = written;
                            proof {
                                assert(exts_v(finals@) =~= old_finals.update(jf as int, written@));
                                assert(apply_writes(proof@.exts, gkeys, gnews, i + 1) == exts_v(
                                    finals@,
                                ));
                                assert forall|x: int, y: int|
                                    0 <= x < y < exts_v(finals@).len() implies (
                                #[trigger] exts_v(finals@)[x]).stem != (#[trigger] exts_v(
                                    finals@,
                                )[y]).stem by {
                                    assert(old_finals[x].stem == exts_v(finals@)[x].stem);
                                    assert(old_finals[y].stem == exts_v(finals@)[y].stem);
                                }
                            }
                        },
                        None => {
                            let stem = stem_of_key(&keys[i]);
                            let empty = ExtNode {
                                branch: keys[i][0],
                                stem,
                                c1: zero_slots(),
                                c2: zero_slots(),
                            };
                            proof {
                                assert(empty@.c1 =~= empty_ext(gkeys[i as int]).c1);
                                assert(empty@.c2 =~= empty_ext(gkeys[i as int]).c2);
                                assert(empty@ == empty_ext(gkeys[i as int]));
                                assert(ext_v_wf(empty@));
                            }
                            let written = write_ext(&empty, &keys[i], v);
                            let ghost old_finals = exts_v(finals@);
                            finals.push(written);
                            proof {
                                assert(exts_v(finals@) =~= old_finals.push(written@));
                                assert(apply_writes(proof@.exts, gkeys, gnews, i + 1) == exts_v(
                                    finals@,
                                ));
                                assert forall|x: int, y: int|
                                    0 <= x < y < exts_v(finals@).len() implies (
                                #[trigger] exts_v(finals@)[x]).stem != (#[trigger] exts_v(
                                    finals@,
                                )[y]).stem by {
                                    if y < exts_v(finals@).len() - 1 {
                                        assert(old_finals[x].stem == exts_v(finals@)[x].stem);
                                        assert(old_finals[y].stem == exts_v(finals@)[y].stem);
                                    } else {
                                        assert(exts_v(finals@)[y].stem == gkeys[
                                            i as int
                                        ].subrange(0, 31));
                                        assert(old_finals[x].stem == exts_v(finals@)[x].stem);
                                        assert(!has_stem(
                                            old_finals,
                                            gkeys[i as int].subrange(0, 31),
                                        ));
                                    }
                                }
                            }
                        },
                    }
                },
            }
            i += 1;
        }
        proof {
            assert(apply_writes(proof@.exts, gkeys, gnews, keys@.len() as int) == exts_v(
                finals@,
            ));
        }
        // Recompute the changed chains bottom-up: suffix nodes, extension
        // nodes, any split subtrees, then the root — through incremental
        // updates for disclosed nodes and scratch commitments for nodes
        // the batch created.
        let ghost gfinals = exts_v(finals@);
        let nf = finals.len();
        let mut stems_all: Vec<[u8; 31]> = Vec::new();
        let mut hashes_all: Vec<FrWrapper> = Vec::new();
        let mut j: usize = 0;
        while j < nf
            invariant
                self.wf(),
                proof.wf(),
                n0 == proof@.exts.len(),
                nf == gfinals.len(),
                gfinals == exts_v(finals@),
                j <= nf,
                forall|k: int|
                    0 <= k < n0 ==> (#[trigger] gfinals[k]).branch == proof@.exts[k].branch
                        && gfinals[k].stem == proof@.exts[k].stem,
                forall|k: int| 0 <= k < nf ==> ext_v_wf(#[trigger] gfinals[k]),
                c1_commits@.len() == n0,
                c2_commits@.len() == n0,
                ext_commits@.len() == n0,
                n0 <= nf,
                forall|k: int|
                    0 <= k < n0 ==> (#[trigger] c1_commits@[k])@ == commit_b(
                        self.basis_b(),
                        proof@.exts[k].c1,
                    ) && c1_commits@[k].wf(),
                forall|k: int|
                    0 <= k < n0 ==> (#[trigger] c2_commits@[k])@ == commit_b(
                        self.basis_b(),
                        proof@.exts[k].c2,
                    ) && c2_commits@[k].wf(),
                forall|k: int|
                    0 <= k < n0 ==> (#[trigger] ext_commits@[k])@ == ext_commit_b(
                        self.basis_b(),
                        proof@.exts[k],
                    ) && ext_commits@[k].wf(),
                stems_all@.len() == j,
                hashes_all@.len() == j,
                forall|k: int| 0 <= k < j ==> (#[trigger] stems_all@[k])@ == gfinals[k].stem,
                forall|k: int|
                    0 <= k < j ==> (#[trigger] hashes_all@[k])@ == final_ext_hash(
                        self.basis_b(),
                        proof@,
                        gfinals,
                        k,
                    ) && hashes_all@[k].wf(),
            decreases nf - j,
        {
            let node = &finals[j];
            proof {
                assert(node@ == gfinals[j as int]);
                assert(ext_v_wf(node@));
                assert forall|t: int| 0 <= t < node.c1@.len() implies (#[trigger] node.c1@[t]).wf() by {
                    assert(fr_ok(node@.c1[t]));
                }
                assert forall|t: int| 0 <= t < node.c2@.len() implies (#[trigger] node.c2@[t]).wf() by {
                    assert(fr_ok(node@.c2[t]));
                }
                assert(node.c1@.len() == 256);
                assert(node.c2@.len() == 256);
            }
            let h: FrWrapper;
            if j < n0 {
                let old_node = &proof.exts[j];
                proof {
                    assert(old_node@ == proof@.exts[j as int]);
                    assert(ext_v_wf(old_node@));
                    assert forall|t: int| 0 <= t < old_node.c1@.len() implies (#[trigger] old_node.c1@[t]).wf() by {
                        assert(fr_ok(old_node@.c1[t]));
                    }
                    assert forall|t: int| 0 <= t < old_node.c2@.len() implies (#[trigger] old_node.c2@[t]).wf() by {
                        assert(fr_ok(old_node@.c2[t]));
                    }
                }
                let c1n = self.incremental_commit(&c1_commits[j], &old_node.c1, &node.c1);
                let c2n = self.incremental_commit(&c2_commits[j], &old_node.c2, &node.c2);
                let old_slots = ext_slots_exec(
                    &old_node.stem,
                    c1_commits[j].map_to_scalar_field(),
                    c2_commits[j].map_to_scalar_field(),
                );
                let new_slots = ext_slots_exec(
                    &node.stem,
                    c1n.map_to_scalar_field(),
                    c2n.map_to_scalar_field(),
                );
                let extn = self.incremental_commit(&ext_commits[j], &old_slots, &new_slots);
                h = extn.map_to_scalar_field();
                proof {
                    assert(frs_b(old_slots@) == ext_slots_b(self.basis_b(), proof@.exts[j as int]));
                    assert(h@ == final_ext_hash(self.basis_b(), proof@, gfinals, j as int));
                }
            } else {
                let c1c = self.commit_scalars_inner(&node.c1);
                let c2c = self.commit_scalars_inner(&node.c2);
                let slots = ext_slots_exec(
                    &node.stem,
                    c1c.map_to_scalar_field(),
                    c2c.map_to_scalar_field(),
                );
                let extc = self.commit_scalars_inner(&slots);
                h = extc.map_to_scalar_field();
                proof {
                    assert(frs_b(slots@) == ext_slots_b(self.basis_b(), gfinals[j as int]));
                    assert(h@ == final_ext_hash(self.basis_b(), proof@, gfinals, j as int));
                }
            }
            stems_all.push(node.stem);
            hashes_all.push(h);
            j += 1;
        }
        proof {
            assert(stems31_b(stems_all@) =~= all_stems(gfinals));
            assert(frs_b(hashes_all@) =~= all_hashes(self.basis_b(), proof@, gfinals));
        }
        let mut new_root_slots = copy_scalars(&proof.root_slots);
        let mut b: usize = 0;
        while b < 256
            invariant
                self.wf(),
                proof.wf(),
                nf == gfinals.len(),
                stems_all@.len() == nf,
                hashes_all@.len() == nf,
                stems31_b(stems_all@) == all_stems(gfinals),
                frs_b(hashes_all@) == all_hashes(self.basis_b(), proof@, gfinals),
                crate::committer::all_fr_wf(hashes_all@),
                b <= 256,
                new_root_slots@.len() == 256,
                crate::committer::all_fr_wf(new_root_slots@),
                forall|bb: int|
                    0 <= bb < b ==> frs_b(new_root_slots@)[bb] == new_root_slots_b(
                        self.basis_b(),
                        proof@,
                        gfinals,
                    )[bb],
                forall|bb: int|
                    b <= bb < 256 ==> frs_b(new_root_slots@)[bb] == proof@.root_slots[bb],
            decreases 256 - b,
        {
            let mut g_stems: Vec<[u8; 31]> = Vec::new();
            let mut g_hashes: Vec<FrWrapper> = Vec::new();
            let mut t: usize = 0;
            while t < nf
                invariant
                    stems_all@.len() == nf,
                    hashes_all@.len() == nf,
                    crate::committer::all_fr_wf(hashes_all@),
                    t <= nf,
                    g_stems@.len() == g_hashes@.len(),
                    stems31_b(g_stems@) == sel_stems(
                        stems31_b(stems_all@).take(t as int),
                        0,
                        b as u8,
                    ),
                    frs_b(g_hashes@) == sel_hashes(
                        stems31_b(stems_all@).take(t as int),
                        frs_b(hashes_all@).take(t as int),
                        0,
                        b as u8,
                    ),
                    crate::committer::all_fr_wf(g_hashes@),
                decreases nf - t,
            {
                let ghost pre_s = stems31_b(g_stems@);
                let ghost pre_h = frs_b(g_hashes@);
                if stems_all[t][0] == b as u8 {
                    g_stems.push(stems_all[t]);
                    g_hashes.push(hashes_all[t]);
                }
                proof {
                    let full_s = stems31_b(stems_all@);
                    let full_h = frs_b(hashes_all@);
                    assert(full_s.take(t + 1).drop_last() =~= full_s.take(t as int));
                    assert(full_h.take(t + 1).drop_last() =~= full_h.take(t as int));
                    assert(full_s.take(t + 1).last() == stems_all@[t as int]@);
                    assert(full_h.take(t + 1).last() == hashes_all@[t as int]@);
                    if stems_all@[t as int]@[0] == b as u8 {
                        assert(stems31_b(g_stems@) =~= pre_s.push(stems_all@[t as int]@));
                        assert(frs_b(g_hashes@) =~= pre_h.push(hashes_all@[t as int]@));
                    }
                }
                t += 1;
            }
            proof {
                assert(stems31_b(stems_all@).take(nf as int) =~= stems31_b(stems_all@));
                assert(frs_b(hashes_all@).take(nf as int) =~= frs_b(hashes_all@));
            }
            let ghost old_view = frs_b(new_root_slots@);
            if g_stems.len() > 0 {
                let hb = self.subtree_hash(&g_stems, &g_hashes, 1);
                new_root_slots[b] = hb;
                proof {
                    assert(frs_b(new_root_slots@) =~= old_view.update(b as int, hb@));
                }
            }
            proof {
                assert(frs_b(new_root_slots@)[b as int] == new_root_slots_b(
                    self.basis_b(),
                    proof@,
                    gfinals,
                )[b as int]);
            }
            b += 1;
        }
        proof {
            assert(frs_b(new_root_slots@) =~= new_root_slots_b(self.basis_b(), proof@, gfinals));
        }
        let new_root = self.incremental_commit(&root_commit, &proof.root_slots, &new_root_slots);
        let out = new_root.to_bytes();
        proof {
            assert(frs_b(proof.root_slots@) == proof@.root_slots);
            assert(out@ == new_root_b(self.basis_b(), proof@, gfinals));
        }
        Ok(out)
    }
}

/// Writes to distinct slots commute: exchanging two batch entries whose
/// stems already have extensions — disclosed ones, or ones an earlier
/// write created — yields the same final extension state, and with it
/// the same post-state root. This is the heart of the batch's order
/// independence: writes are independent per-slot assignments.
pub proof fn lemma_write_pair_order(
    exts: Seq<ExtV>,
    k1: Seq<u8>,
    v1: Seq<u8>,
    k2: Seq<u8>,
    v2: Seq<u8>,
)
    requires
        distinct_stems(exts),
        k1.len() == 32,
        k2.len() == 32,
        has_stem(exts, k1.subrange(0, 31)),
        ext_v_wf(exts[stem_index(exts, k1.subrange(0, 31))]),
        has_stem(exts, k2.subrange(0, 31)),
        ext_v_wf(exts[stem_index(exts, k2.subrange(0, 31))]),
        k1.subrange(0, 31) == k2.subrange(0, 31) ==> k1[31] != k2[31],
    ensures
        apply_writes(exts, seq![k1, k2], seq![Some(v1), Some(v2)], 2) == apply_writes(
            exts,
            seq![k2, k1],
            seq![Some(v2), Some(v1)],
            2,
        ),
{
    let st1 = k1.subrange(0, 31);
    let st2 = k2.subrange(0, 31);
    let j1 = stem_index(exts, st1);
    let j2 = stem_index(exts, st2);
    let e1 = ext_write(exts[j1], k1[31], v1);
    let e2 = ext_write(exts[j2], k2[31], v2);
    // a write changes neither a node's branch nor its stem, so lookups
    // and distinctness survive it
    assert(e1.branch == exts[j1].branch && e1.stem == exts[j1].stem);
    assert(e2.branch == exts[j2].branch && e2.stem == exts[j2].stem);
    if st1 == st2 {
        assert(j1 == j2);
        let s1 = k1[31];
        let s2 = k2[31];
        let p1 = 2 * ((s1 as int) % 128);
        let p2 = 2 * ((s2 as int) % 128);
        // one write, then the other, in either order
        let both12 = ext_write(e1, s2, v2);
        let both21 = ext_write(e2, s1, v1);
        assert(both12 == both21) by {
            if s1 < 128 && s2 < 128 {
                assert(p1 != p2);
                assert(both12.c1 =~= both21.c1);
                assert(both12.c2 =~= both21.c2);
            } else if s1 < 128 && s2 >= 128 {
                assert(both12.c1 =~= both21.c1);
                assert(both12.c2 =~= both21.c2);
            } else if s1 >= 128 && s2 < 128 {
                assert(both12.c1 =~= both21.c1);
                assert(both12.c2 =~= both21.c2);
            } else {
                assert(p1 != p2);
                assert(both12.c1 =~= both21.c1);
                assert(both12.c2 =~= both21.c2);
            }
        }
        let prev1 = exts.update(j1, e1);
        assert(distinct_stems(prev1)) by {
            assert forall|x: int, y: int|
                0 <= x < y < prev1.len() implies (#[trigger] prev1[x]).stem != (
            #[trigger] prev1[y]).stem by {
                assert(prev1[x].stem == exts[x].stem);
                assert(prev1[y].stem == exts[y].stem);
            }
        }
        lemma_stem_index(prev1, j1);
        let prev2 = exts.update(j1, e2);
        assert(distinct_stems(prev2)) by {
            assert forall|x: int, y: int|
                0 <= x < y < prev2.len() implies (#[trigger] prev2[x]).stem != (
            #[trigger] prev2[y]).stem by {
                assert(prev2[x].stem == exts[x].stem);
                assert(prev2[y].stem == exts[y].stem);
            }
        }
        lemma_stem_index(prev2, j1);
        assert(apply_writes(exts, seq![k1, k2], seq![Some(v1), Some(v2)], 0) == exts);
        assert(apply_writes(exts, seq![k1, k2], seq![Some(v1), Some(v2)], 1) == prev1);
        assert(apply_writes(exts, seq![k1, k2], seq![Some(v1), Some(v2)], 2) == prev1.update(
            j1,
            both12,
        ));
        assert(apply_writes(exts, seq![k2, k1], seq![Some(v2), Some(v1)], 0) == exts);
        assert(apply_writes(exts, seq![k2, k1], seq![Some(v2), Some(v1)], 1) == prev2);
        assert(apply_writes(exts, seq![k2, k1], seq![Some(v2), Some(v1)], 2) == prev2.update(
            j1,
            both21,
        ));
        assert(prev1.update(j1, both12) =~= prev2.update(j1, both21));
    } else {
        assert(j1 != j2) by {
            if j1 == j2 {
                assert(exts[j1].stem == st1);
                assert(exts[j2].stem == st2);
            }
        }
        let prev1 = exts.update(j1, e1);
        assert(distinct_stems(prev1)) by {
            assert forall|x: int, y: int|
                0 <= x < y < prev1.len() implies (#[trigger] prev1[x]).stem != (
            #[trigger] prev1[y]).stem by {
                assert(prev1[x].stem == exts[x].stem);
                assert(prev1[y].stem == exts[y].stem);
            }
        }
        assert(prev1[j2] == exts[j2]);
        lemma_stem_index(prev1, j2);
        let prev2 = exts.update(j2, e2);
        assert(distinct_stems(prev2)) by {
            assert forall|x: int, y: int|
                0 <= x < y < prev2.len() implies (#[trigger] prev2[x]).stem != (
            #[trigger] prev2[y]).stem by {
                assert(prev2[x].stem == exts[x].stem);
                assert(prev2[y].stem == exts[y].stem);
            }
        }
        assert(prev2[j1] == exts[j1]);
        lemma_stem_index(prev2, j1);
        assert(apply_writes(exts, seq![k1, k2], seq![Some(v1), Some(v2)], 0) == exts);
        assert(apply_writes(exts, seq![k1, k2], seq![Some(v1), Some(v2)], 1) == prev1);
        assert(apply_writes(exts, seq![k1, k2], seq![Some(v1), Some(v2)], 2) == prev1.update(
            j2,
            e2,
        ));
        assert(apply_writes(exts, seq![k2, k1], seq![Some(v2), Some(v1)], 0) == exts);
        assert(apply_writes(exts, seq![k2, k1], seq![Some(v2), Some(v1)], 1) == prev2);
        assert(apply_writes(exts, seq![k2, k1], seq![Some(v2), Some(v1)], 2) == prev2.update(
            j1,
            e1,
        ));
        assert(prev1.update(j2, e2) =~= prev2.update(j1, e1));
    }
}

/// A batch entry that requests no update commutes with any other entry:
/// only the entries with a requested write shape the final state.
pub proof fn lemma_write_skip_order(
    exts: Seq<ExtV>,
    k1: Seq<u8>,
    v1: Option<Seq<u8>>,
    k2: Seq<u8>,
)
    ensures
        apply_writes(exts, seq![k1, k2], seq![v1, None], 2) == apply_writes(
            exts,
            seq![k2, k1],
            seq![None, v1],
            2,
        ),
{
    assert(apply_writes(exts, seq![k1, k2], seq![v1, None], 0) == exts);
    assert(apply_writes(exts, seq![k2, k1], seq![None, v1], 0) == exts);
    assert(apply_writes(exts, seq![k2, k1], seq![None, v1], 1) == exts);
    assert(seq![k1, k2][0] == k1 && seq![k2, k1][1] == k1);
    assert(seq![v1, Option::<Seq<u8>>::None][0] == v1 && seq![Option::<Seq<u8>>::None, v1][1]
        == v1);
    assert(apply_writes(exts, seq![k1, k2], seq![v1, None], 1) == apply_writes(
        exts,
        seq![k2, k1],
        seq![None, v1],
        2,
    ));
}

/// Filtering by a stem byte ignores the order of two adjacent entries
/// that disagree on that byte: at most one of them survives any filter.
pub proof fn lemma_sel_swap(s1: Seq<Seq<u8>>, h1: Seq<Seq<u8>>, a: int, depth: int, c: u8)
    requires
        0 <= a,
        a + 1 < s1.len(),
        s1.len() == h1.len(),
        s1[a][depth] != s1[a + 1][depth],
    ensures
        sel_stems(s1, depth, c) == sel_stems(s1.update(a, s1[a + 1]).update(a + 1, s1[a]), depth, c),
        sel_hashes(s1, h1, depth, c) == sel_hashes(
            s1.update(a, s1[a + 1]).update(a + 1, s1[a]),
            h1.update(a, h1[a + 1]).update(a + 1, h1[a]),
            depth,
            c,
        ),
    decreases s1.len(),
{
    let s2 = s1.update(a, s1[a + 1]).update(a + 1, s1[a]);
    let h2 = h1.update(a, h1[a + 1]).update(a + 1, h1[a]);
    if a + 2 < s1.len() {
        // the last entry is the same on both sides; peel it and recurse
        assert(s2.last() == s1.last());
        assert(h2.last() == h1.last());
        assert(s2.drop_last() =~= s1.drop_last().update(a, s1[a + 1]).update(a + 1, s1[a]));
        assert(h2.drop_last() =~= h1.drop_last().update(a, h1[a + 1]).update(a + 1, h1[a]));
        lemma_sel_swap(s1.drop_last(), h1.drop_last(), a, depth, c);
    } else {
        // the pair is the last two entries; unfold both filters twice
        let p_s = s1.drop_last().drop_last();
        let p_h = h1.drop_last().drop_last();
        assert(s2.drop_last().drop_last() =~= p_s);
        assert(h2.drop_last().drop_last() =~= p_h);
        assert(s1.drop_last() =~= p_s.push(s1[a]));
        assert(h1.drop_last() =~= p_h.push(h1[a]));
        assert(s2.drop_last() =~= p_s.push(s1[a + 1]));
        assert(h2.drop_last() =~= p_h.push(h1[a + 1]));
        assert(s1.drop_last().drop_last() =~= p_s);
        assert(h1.drop_last().drop_last() =~= p_h);
        assert(sel_stems(p_s.push(s1[a]), depth, c) == (if s1[a][depth] == c {
            sel_stems(p_s, depth, c).push(s1[a])
        } else {
            sel_stems(p_s, depth, c)
        })) by {
            assert(p_s.push(s1[a]).drop_last() =~= p_s);
        }
        assert(sel_stems(p_s.push(s1[a + 1]), depth, c) == (if s1[a + 1][depth] == c {
            sel_stems(p_s, depth, c).push(s1[a + 1])
        } else {
            sel_stems(p_s, depth, c)
        })) by {
            assert(p_s.push(s1[a + 1]).drop_last() =~= p_s);
        }
        assert(sel_hashes(p_s.push(s1[a]), p_h.push(h1[a]), depth, c) == (if s1[a][depth] == c {
            sel_hashes(p_s, p_h, depth, c).push(h1[a])
        } else {
            sel_hashes(p_s, p_h, depth, c)
        })) by {
            assert(p_s.push(s1[a]).drop_last() =~= p_s);
            assert(p_h.push(h1[a]).drop_last() =~= p_h);
        }
        assert(sel_hashes(p_s.push(s1[a + 1]), p_h.push(h1[a + 1]), depth, c) == (if s1[a
            + 1][depth] == c {
            sel_hashes(p_s, p_h, depth, c).push(h1[a + 1])
        } else {
            sel_hashes(p_s, p_h, depth, c)
        })) by {
            assert(p_s.push(s1[a + 1]).drop_last() =~= p_s);
            assert(p_h.push(h1[a + 1]).drop_last() =~= p_h);
        }
    }
}

/// Two fresh extensions created under different branches may stand in
/// either creation order in the final state: the post-state root is the
/// same. Together with the write-exchange lemmas this covers the batch's
/// order independence per pair of entries.
pub proof fn lemma_created_order(basis: Seq<Seq<u8>>, p: ProofV, finals: Seq<ExtV>, a: int)
    requires
        p.exts.len() <= a,
        a + 1 < finals.len(),
        finals[a].stem.len() == 31,
        finals[a + 1].stem.len() == 31,
        finals[a].stem[0] != finals[a + 1].stem[0],
    ensures
        new_root_b(basis, p, finals) == new_root_b(
            basis,
            p,
            finals.update(a, finals[a + 1]).update(a + 1, finals[a]),
        ),
{
    let finals2 = finals.update(a, finals[a + 1]).update(a + 1, finals[a]);
    let s1 = all_stems(finals);
    let h1 = all_hashes(basis, p, finals);
    let s2 = all_stems(finals2);
    let h2 = all_hashes(basis, p, finals2);
    assert(s2 =~= s1.update(a, s1[a + 1]).update(a + 1, s1[a]));
    assert(h2 =~= h1.update(a, h1[a + 1]).update(a + 1, h1[a])) by {
        assert forall|j: int| 0 <= j < finals2.len() implies h2[j] == h1.update(
            a,
            h1[a + 1],
        ).update(a + 1, h1[a])[j] by {
            if j == a {
                assert(final_ext_hash(basis, p, finals2, a) == ext_hash_b(basis, finals2[a]));
                assert(final_ext_hash(basis, p, finals, a + 1) == ext_hash_b(
                    basis,
                    finals[a + 1],
                ));
            } else if j == a + 1 {
                assert(final_ext_hash(basis, p, finals2, a + 1) == ext_hash_b(
                    basis,
                    finals2[a + 1],
                ));
                assert(final_ext_hash(basis, p, finals, a) == ext_hash_b(basis, finals[a]));
            } else {
                assert(finals2[j] == finals[j]);
                if j < p.exts.len() {
                } else {
                    assert(final_ext_hash(basis, p, finals2, j) == ext_hash_b(
                        basis,
                        finals2[j],
                    ));
                }
            }
        }
    }
    assert(new_root_slots_b(basis, p, finals) =~= new_root_slots_b(basis, p, finals2)) by {
        assert forall|b: int| 0 <= b < 256 implies new_root_slots_b(basis, p, finals)[b]
            == new_root_slots_b(basis, p, finals2)[b] by {
            lemma_sel_swap(s1, h1, a, 0, b as u8);
        }
    }
}

/// A write to an existing stem and the creation of a new one commute:
/// the update leaves indices in place and the creation appends, in
/// either order.
pub proof fn lemma_write_create_order(
    exts: Seq<ExtV>,
    k1: Seq<u8>,
    v1: Seq<u8>,
    k2: Seq<u8>,
    v2: Seq<u8>,
)
    requires
        distinct_stems(exts),
        k1.len() == 32,
        k2.len() == 32,
        has_stem(exts, k1.subrange(0, 31)),
        ext_v_wf(exts[stem_index(exts, k1.subrange(0, 31))]),
        !has_stem(exts, k2.subrange(0, 31)),
    ensures
        apply_writes(exts, seq![k1, k2], seq![Some(v1), Some(v2)], 2) == apply_writes(
            exts,
            seq![k2, k1],
            seq![Some(v2), Some(v1)],
            2,
        ),
{
    let st1 = k1.subrange(0, 31);
    let st2 = k2.subrange(0, 31);
    let j1 = stem_index(exts, st1);
    let e1 = ext_write(exts[j1], k1[31], v1);
    let new2 = ext_write(empty_ext(k2), k2[31], v2);
    assert(e1.stem == exts[j1].stem);
    assert(new2.stem == st2);
    // first the update, then the creation
    let prev1 = exts.update(j1, e1);
    assert(!has_stem(prev1, st2)) by {
        assert forall|j: int| 0 <= j < prev1.len() implies (#[trigger] prev1[j]).stem != st2 by {
            assert(prev1[j].stem == exts[j].stem);
            assert(!(0 <= j < exts.len() && exts[j].stem == st2));
        }
    }
    // first the creation, then the update
    let prev2 = exts.push(new2);
    assert(distinct_stems(prev2)) by {
        assert forall|x: int, y: int|
            0 <= x < y < prev2.len() implies (#[trigger] prev2[x]).stem != (
        #[trigger] prev2[y]).stem by {
            if y < prev2.len() - 1 {
                assert(prev2[x].stem == exts[x].stem);
                assert(prev2[y].stem == exts[y].stem);
            } else {
                assert(prev2[y].stem == st2);
                assert(prev2[x].stem == exts[x].stem);
                assert(!(0 <= x < exts.len() && exts[x].stem == st2));
            }
        }
    }
    assert(prev2[j1] == exts[j1]);
    lemma_stem_index(prev2, j1);
    assert(apply_writes(exts, seq![k1, k2], seq![Some(v1), Some(v2)], 0) == exts);
    assert(apply_writes(exts, seq![k1, k2], seq![Some(v1), Some(v2)], 1) == prev1);
    assert(apply_writes(exts, seq![k1, k2], seq![Some(v1), Some(v2)], 2) == prev1.push(new2));
    assert(apply_writes(exts, seq![k2, k1], seq![Some(v2), Some(v1)], 0) == exts);
    assert(apply_writes(exts, seq![k2, k1], seq![Some(v2), Some(v1)], 1) == prev2);
    assert(apply_writes(exts, seq![k2, k1], seq![Some(v2), Some(v1)], 2) == prev2.update(
        j1,
        e1,
    ));
    assert(prev1.push(new2) =~= prev2.update(j1, e1));
}

} // verus!
