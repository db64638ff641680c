use verkle_stateless::committer::Context;
use verkle_stateless::element::ElementWrapper;
use verkle_stateless::scalar_field::FrWrapper;
use verkle_stateless::stateless::Proof;
use verkle_stateless::VerkleError;

// --- fixture helpers: build a small trie and its disclosure by hand ---

fn lo_slot(v: &[u8; 32]) -> [u8; 32] {
    let mut s = [0u8; 32];
    s[..16].copy_from_slice(&v[..16]);
    s[16] = 1;
    s
}

fn hi_slot(v: &[u8; 32]) -> [u8; 32] {
    let mut s = [0u8; 32];
    s[..16].copy_from_slice(&v[16..]);
    s
}

fn commit_slots(ctx: &Context, slots: &[[u8; 32]]) -> ElementWrapper {
    let frs: Vec<FrWrapper> = slots
        .iter()
        .map(|b| FrWrapper::from_bytes(b).unwrap())
        .collect();
    ctx.commit_to_scalars(&frs).unwrap()
}

fn hash_el(ctx: &Context, e: &ElementWrapper) -> [u8; 32] {
    let h = ctx.hash_commitment(&e.to_bytes_uncompressed()).unwrap();
    let mut out = [0u8; 32];
    out.copy_from_slice(&h.to_bytes());
    out
}

fn ext_slots(stem: &[u8; 31], h1: &[u8; 32], h2: &[u8; 32]) -> Vec<[u8; 32]> {
    let mut slots = vec![[0u8; 32]; 256];
    slots[0][0] = 1;
    slots[1][..31].copy_from_slice(stem);
    slots[2] = *h1;
    slots[3] = *h2;
    slots
}

/// The root-node summary of one extension: its commitment hashed.
fn ext_hash_of(ctx: &Context, stem: &[u8; 31], entries: &[(u8, [u8; 32])]) -> [u8; 32] {
    let mut c1 = vec![[0u8; 32]; 256];
    let mut c2 = vec![[0u8; 32]; 256];
    for (suffix, value) in entries {
        let pos = 2 * ((*suffix as usize) % 128);
        if *suffix < 128 {
            c1[pos] = lo_slot(value);
            c1[pos + 1] = hi_slot(value);
        } else {
            c2[pos] = lo_slot(value);
            c2[pos + 1] = hi_slot(value);
        }
    }
    let h1 = hash_el(ctx, &commit_slots(ctx, &c1));
    let h2 = hash_el(ctx, &commit_slots(ctx, &c2));
    hash_el(ctx, &commit_slots(ctx, &ext_slots(stem, &h1, &h2)))
}

/// The summary of an internal node holding the given (child, scalar)
/// slots.
fn internal_hash(ctx: &Context, children: &[(u8, [u8; 32])]) -> [u8; 32] {
    let mut slots = vec![[0u8; 32]; 256];
    for (index, scalar) in children {
        slots[*index as usize] = *scalar;
    }
    hash_el(ctx, &commit_slots(ctx, &slots))
}

/// A stem with its present (suffix, value) entries.
type StemEntries = (Vec<u8>, Vec<(u8, [u8; 32])>);

/// Builds the trie holding the given stems, returning its root slots, the
/// compressed root, and the proof blob disclosing every stem.
fn build_state(ctx: &Context, stems: &[StemEntries]) -> (Vec<u8>, Vec<u8>) {
    let mut root_slots = vec![[0u8; 32]; 256];
    let mut records: Vec<(u8, [u8; 31], Vec<[u8; 32]>, Vec<[u8; 32]>)> = Vec::new();
    for (stem_bytes, entries) in stems {
        let mut stem = [0u8; 31];
        stem.copy_from_slice(stem_bytes);
        let mut c1 = vec![[0u8; 32]; 256];
        let mut c2 = vec![[0u8; 32]; 256];
        for (suffix, value) in entries {
            let pos = 2 * ((*suffix as usize) % 128);
            if *suffix < 128 {
                c1[pos] = lo_slot(value);
                c1[pos + 1] = hi_slot(value);
            } else {
                c2[pos] = lo_slot(value);
                c2[pos + 1] = hi_slot(value);
            }
        }
        let h1 = hash_el(ctx, &commit_slots(ctx, &c1));
        let h2 = hash_el(ctx, &commit_slots(ctx, &c2));
        let slots = ext_slots(&stem, &h1, &h2);
        let ext_hash = hash_el(ctx, &commit_slots(ctx, &slots));
        root_slots[stem[0] as usize] = ext_hash;
        records.push((stem[0], stem, c1, c2));
    }
    records.sort_by_key(|r| r.0);
    let pre_root = commit_slots(ctx, &root_slots).to_bytes();

    let mut blob = Vec::new();
    blob.push(records.len() as u8);
    for slot in &root_slots {
        blob.extend_from_slice(slot);
    }
    for (branch, stem, c1, c2) in &records {
        blob.push(*branch);
        blob.extend_from_slice(stem);
        for slot in c1 {
            blob.extend_from_slice(slot);
        }
        for slot in c2 {
            blob.extend_from_slice(slot);
        }
    }
    (pre_root, blob)
}

fn key(stem: &[u8], suffix: u8) -> [u8; 32] {
    let mut k = [0u8; 32];
    k[..31].copy_from_slice(stem);
    k[31] = suffix;
    k
}

/// The scenario trie: keys 0x00..00, 0x00..01, 0x00..02 each mapped to
/// themselves under the all-zero stem; suffix 3 absent.
fn scenario(ctx: &Context) -> (Vec<u8>, Proof, Vec<[u8; 32]>, Vec<Option<[u8; 32]>>) {
    let stem = vec![0u8; 31];
    let k0 = key(&stem, 0);
    let k1 = key(&stem, 1);
    let k2 = key(&stem, 2);
    let k3 = key(&stem, 3);
    let entries = vec![(0u8, k0), (1u8, k1), (2u8, k2)];
    let (pre_root, blob) = build_state(ctx, &[(stem, entries)]);
    let proof = Proof::from_bytes(&blob).unwrap();
    let keys = vec![k0, k1, k2, k3];
    let olds = vec![Some(k0), Some(k1), Some(k2), None];
    (pre_root, proof, keys, olds)
}

#[test]
fn scenario_update_matches_fresh_trie() {
    // Overwriting suffixes 1 and 2 with 0xff..ff must give, bit for bit,
    // the root of the trie rebuilt from scratch with those values.
    let ctx = Context::new();
    let (pre_root, proof, keys, olds) = scenario(&ctx);
    let ff = [0xffu8; 32];
    let news = vec![None, Some(ff), Some(ff), None];
    let new_root = ctx
        .verify_and_update(&proof, &pre_root, &keys, &olds, &news)
        .unwrap();

    let stem = vec![0u8; 31];
    let post_entries = vec![(0u8, keys[0]), (1u8, ff), (2u8, ff)];
    let (expected_root, _) = build_state(&ctx, &[(stem, post_entries)]);
    assert_eq!(new_root, expected_root);
}

#[test]
fn identical_calls_return_identical_roots() {
    let ctx = Context::new();
    let (pre_root, proof, keys, olds) = scenario(&ctx);
    let ff = [0xffu8; 32];
    let news = vec![None, Some(ff), Some(ff), None];
    let r1 = ctx
        .verify_and_update(&proof, &pre_root, &keys, &olds, &news)
        .unwrap();
    let r2 = ctx
        .verify_and_update(&proof, &pre_root, &keys, &olds, &news)
        .unwrap();
    assert_eq!(r1, r2);
}

#[test]
fn batch_order_does_not_change_root() {
    let ctx = Context::new();
    let (pre_root, proof, keys, olds) = scenario(&ctx);
    let ff = [0xffu8; 32];
    let news = vec![None, Some(ff), Some(ff), None];
    let forward = ctx
        .verify_and_update(&proof, &pre_root, &keys, &olds, &news)
        .unwrap();
    let rev_keys: Vec<[u8; 32]> = keys.iter().rev().cloned().collect();
    let rev_olds: Vec<Option<[u8; 32]>> = olds.iter().rev().cloned().collect();
    let rev_news: Vec<Option<[u8; 32]>> = news.iter().rev().cloned().collect();
    let backward = ctx
        .verify_and_update(&proof, &pre_root, &rev_keys, &rev_olds, &rev_news)
        .unwrap();
    assert_eq!(forward, backward);
}

#[test]
fn no_updates_returns_pre_state_root() {
    let ctx = Context::new();
    let (pre_root, proof, keys, olds) = scenario(&ctx);
    let news = vec![None, None, None, None];
    let new_root = ctx
        .verify_and_update(&proof, &pre_root, &keys, &olds, &news)
        .unwrap();
    assert_eq!(new_root, pre_root);
}

#[test]
fn rewriting_same_values_returns_pre_state_root() {
    // Writing back the attested values changes no slot, so the root is
    // unchanged.
    let ctx = Context::new();
    let (pre_root, proof, keys, olds) = scenario(&ctx);
    let news = vec![Some(keys[0]), Some(keys[1]), None, None];
    let new_root = ctx
        .verify_and_update(&proof, &pre_root, &keys, &olds, &news)
        .unwrap();
    assert_eq!(new_root, pre_root);
}

#[test]
fn claimed_value_for_absent_key_fails() {
    // The proof attests suffix 3 as absent; claiming an old value there
    // must fail with the pre-state error.
    let ctx = Context::new();
    let (pre_root, proof, keys, _olds) = scenario(&ctx);
    let bogus = [5u8; 32];
    let olds = vec![Some(keys[0]), Some(keys[1]), Some(keys[2]), Some(bogus)];
    let news = vec![None, None, None, None];
    assert_eq!(
        ctx.verify_and_update(&proof, &pre_root, &keys, &olds, &news)
            .unwrap_err(),
        VerkleError::InconsistentPreState
    );
}

#[test]
fn wrong_claimed_value_fails() {
    let ctx = Context::new();
    let (pre_root, proof, keys, _olds) = scenario(&ctx);
    let bogus = [5u8; 32];
    let olds = vec![Some(bogus), Some(keys[1]), Some(keys[2]), None];
    let news = vec![None, None, None, None];
    assert_eq!(
        ctx.verify_and_update(&proof, &pre_root, &keys, &olds, &news)
            .unwrap_err(),
        VerkleError::InconsistentPreState
    );
}

#[test]
fn claimed_absence_for_present_key_fails() {
    let ctx = Context::new();
    let (pre_root, proof, keys, _olds) = scenario(&ctx);
    let olds = vec![None, Some(keys[1]), Some(keys[2]), None];
    let news = vec![None, None, None, None];
    assert_eq!(
        ctx.verify_and_update(&proof, &pre_root, &keys, &olds, &news)
            .unwrap_err(),
        VerkleError::InconsistentPreState
    );
}

#[test]
fn length_mismatch_fails_whole_call() {
    let ctx = Context::new();
    let (pre_root, proof, keys, _olds) = scenario(&ctx);
    let three_keys = vec![keys[0], keys[1], keys[2]];
    let two_olds = vec![Some(keys[0]), Some(keys[1])];
    let three_news = vec![None, None, None];
    assert_eq!(
        ctx.verify_and_update(&proof, &pre_root, &three_keys, &two_olds, &three_news)
            .unwrap_err(),
        VerkleError::LengthMismatch
    );
}

#[test]
fn malformed_root_width_fails() {
    let ctx = Context::new();
    let (_pre_root, proof, keys, olds) = scenario(&ctx);
    let news = vec![None, None, None, None];
    assert_eq!(
        ctx.verify_and_update(&proof, &[0u8; 31], &keys, &olds, &news)
            .unwrap_err(),
        VerkleError::InputDecoding
    );
}

#[test]
fn wrong_pre_state_root_fails() {
    let ctx = Context::new();
    let (mut pre_root, proof, keys, olds) = scenario(&ctx);
    pre_root[0] ^= 1;
    let news = vec![None, None, None, None];
    assert_eq!(
        ctx.verify_and_update(&proof, &pre_root, &keys, &olds, &news)
            .unwrap_err(),
        VerkleError::ProofInvalid
    );
}

#[test]
fn uncovered_key_fails() {
    // A branch whose root slot is nonzero but whose extension is not
    // disclosed does not cover its keys.
    let ctx = Context::new();
    let stem_a = vec![0u8; 31];
    let mut stem_b = vec![0u8; 31];
    stem_b[0] = 9;
    let ka = key(&stem_a, 0);
    let kb = key(&stem_b, 0);
    let (pre_root, blob) = build_state(
        &ctx,
        &[
            (stem_a, vec![(0u8, ka)]),
            (stem_b.clone(), vec![(0u8, kb)]),
        ],
    );
    // Disclose only the first record: keep the count at 1 and drop the
    // second record's bytes.
    let mut short_blob = blob[..1 + 8192 + 16416].to_vec();
    short_blob[0] = 1;
    let proof = Proof::from_bytes(&short_blob).unwrap();
    let keys = vec![kb];
    let olds = vec![Some(kb)];
    let news = vec![None];
    assert_eq!(
        ctx.verify_and_update(&proof, &pre_root, &keys, &olds, &news)
            .unwrap_err(),
        VerkleError::ProofInvalid
    );
}

#[test]
fn insert_at_new_suffix_of_disclosed_stem() {
    let ctx = Context::new();
    let (pre_root, proof, keys, olds) = scenario(&ctx);
    let v = [0xabu8; 32];
    let news = vec![None, None, None, Some(v)];
    let new_root = ctx
        .verify_and_update(&proof, &pre_root, &keys, &olds, &news)
        .unwrap();
    let stem = vec![0u8; 31];
    let post = vec![(0u8, keys[0]), (1u8, keys[1]), (2u8, keys[2]), (3u8, v)];
    let (expected_root, _) = build_state(&ctx, &[(stem, post)]);
    assert_eq!(new_root, expected_root);
}

#[test]
fn insert_at_high_suffix_uses_second_suffix_node() {
    let ctx = Context::new();
    let stem = vec![0u8; 31];
    let k0 = key(&stem, 0);
    let k200 = key(&stem, 200);
    let (pre_root, blob) = build_state(&ctx, &[(stem.clone(), vec![(0u8, k0)])]);
    let proof = Proof::from_bytes(&blob).unwrap();
    let v = [0x77u8; 32];
    let keys = vec![k200];
    let olds = vec![None];
    let news = vec![Some(v)];
    let new_root = ctx
        .verify_and_update(&proof, &pre_root, &keys, &olds, &news)
        .unwrap();
    let (expected_root, _) = build_state(&ctx, &[(stem, vec![(0u8, k0), (200u8, v)])]);
    assert_eq!(new_root, expected_root);
}

#[test]
fn insert_new_stem_at_empty_branch() {
    let ctx = Context::new();
    let stem_a = vec![0u8; 31];
    let ka = key(&stem_a, 0);
    let (pre_root, blob) = build_state(&ctx, &[(stem_a.clone(), vec![(0u8, ka)])]);
    let proof = Proof::from_bytes(&blob).unwrap();
    let mut stem_b = vec![0u8; 31];
    stem_b[0] = 42;
    let kb = key(&stem_b, 5);
    let v = [0x99u8; 32];
    let keys = vec![kb];
    let olds = vec![None];
    let news = vec![Some(v)];
    let new_root = ctx
        .verify_and_update(&proof, &pre_root, &keys, &olds, &news)
        .unwrap();
    let (expected_root, _) = build_state(
        &ctx,
        &[(stem_a, vec![(0u8, ka)]), (stem_b, vec![(5u8, v)])],
    );
    assert_eq!(new_root, expected_root);
}

#[test]
fn insert_into_colliding_stem_splits_extension() {
    // A write to a stem that shares its branch with a different disclosed
    // stem splits the extension: a fresh internal node holds both stems
    // below the branch.
    let ctx = Context::new();
    let stem_a = vec![0u8; 31];
    let ka = key(&stem_a, 0);
    let (pre_root, blob) = build_state(&ctx, &[(stem_a.clone(), vec![(0u8, ka)])]);
    let proof = Proof::from_bytes(&blob).unwrap();
    let mut stem_c = vec![0u8; 31];
    stem_c[1] = 1;  // same first byte, diverges at the second
    let kc = key(&stem_c, 0);
    let v = [0x44u8; 32];
    let keys = vec![kc];
    let olds = vec![None];  // attested absent: the branch holds another stem
    let news = vec![Some(v)];
    let new_root = ctx
        .verify_and_update(&proof, &pre_root, &keys, &olds, &news)
        .unwrap();

    let mut sa = [0u8; 31];
    sa.copy_from_slice(&stem_a);
    let mut sc = [0u8; 31];
    sc.copy_from_slice(&stem_c);
    let ha = ext_hash_of(&ctx, &sa, &[(0u8, ka)]);
    let hc = ext_hash_of(&ctx, &sc, &[(0u8, v)]);
    let n1 = internal_hash(&ctx, &[(0u8, ha), (1u8, hc)]);
    let mut root_slots = vec![[0u8; 32]; 256];
    root_slots[0] = n1;
    let expected_root = commit_slots(&ctx, &root_slots).to_bytes();
    assert_eq!(new_root, expected_root);
}

#[test]
fn deep_stem_collision_builds_internal_chain() {
    // Stems that agree on their first thirty bytes need a chain of
    // internal nodes down to the diverging byte.
    let ctx = Context::new();
    let stem_a = vec![0u8; 31];
    let ka = key(&stem_a, 0);
    let (pre_root, blob) = build_state(&ctx, &[(stem_a.clone(), vec![(0u8, ka)])]);
    let proof = Proof::from_bytes(&blob).unwrap();
    let mut stem_c = vec![0u8; 31];
    stem_c[30] = 1;  // diverges only at the last stem byte
    let kc = key(&stem_c, 9);
    let v = [0x55u8; 32];
    let keys = vec![kc];
    let olds = vec![None];
    let news = vec![Some(v)];
    let new_root = ctx
        .verify_and_update(&proof, &pre_root, &keys, &olds, &news)
        .unwrap();

    let mut sa = [0u8; 31];
    sa.copy_from_slice(&stem_a);
    let mut sc = [0u8; 31];
    sc.copy_from_slice(&stem_c);
    let ha = ext_hash_of(&ctx, &sa, &[(0u8, ka)]);
    let hc = ext_hash_of(&ctx, &sc, &[(9u8, v)]);
    // the node at depth 30 separates the stems; above it each node has a
    // single child at byte zero
    let mut cur = internal_hash(&ctx, &[(0u8, ha), (1u8, hc)]);
    for _ in 1..30 {
        cur = internal_hash(&ctx, &[(0u8, cur)]);
    }
    let mut root_slots = vec![[0u8; 32]; 256];
    root_slots[0] = cur;
    let expected_root = commit_slots(&ctx, &root_slots).to_bytes();
    assert_eq!(new_root, expected_root);
}

#[test]
fn several_new_stems_under_one_branch() {
    let ctx = Context::new();
    let stem_a = vec![0u8; 31];
    let ka = key(&stem_a, 0);
    let (pre_root, blob) = build_state(&ctx, &[(stem_a.clone(), vec![(0u8, ka)])]);
    let proof = Proof::from_bytes(&blob).unwrap();
    let mut stem_b = vec![0u8; 31];
    stem_b[1] = 1;
    let mut stem_c = vec![0u8; 31];
    stem_c[1] = 2;
    let kb = key(&stem_b, 3);
    let kc = key(&stem_c, 200);
    let vb = [0x66u8; 32];
    let vc = [0x77u8; 32];
    let keys = vec![kb, kc];
    let olds = vec![None, None];
    let news = vec![Some(vb), Some(vc)];
    let new_root = ctx
        .verify_and_update(&proof, &pre_root, &keys, &olds, &news)
        .unwrap();
    // insertion order must not matter
    let rev_root = ctx
        .verify_and_update(
            &proof,
            &pre_root,
            &vec![kc, kb],
            &vec![None, None],
            &vec![Some(vc), Some(vb)],
        )
        .unwrap();
    assert_eq!(new_root, rev_root);

    let mut sa = [0u8; 31];
    sa.copy_from_slice(&stem_a);
    let mut sb = [0u8; 31];
    sb.copy_from_slice(&stem_b);
    let mut sc = [0u8; 31];
    sc.copy_from_slice(&stem_c);
    let ha = ext_hash_of(&ctx, &sa, &[(0u8, ka)]);
    let hb = ext_hash_of(&ctx, &sb, &[(3u8, vb)]);
    let hc = ext_hash_of(&ctx, &sc, &[(200u8, vc)]);
    let n1 = internal_hash(&ctx, &[(0u8, ha), (1u8, hb), (2u8, hc)]);
    let mut root_slots = vec![[0u8; 32]; 256];
    root_slots[0] = n1;
    let expected_root = commit_slots(&ctx, &root_slots).to_bytes();
    assert_eq!(new_root, expected_root);
}

#[test]
fn proof_decoding_rejects_malformed_blobs() {
    let ctx = Context::new();
    let stem = vec![0u8; 31];
    let k0 = key(&stem, 0);
    let (_pre_root, blob) = build_state(&ctx, &[(stem, vec![(0u8, k0)])]);
    assert!(Proof::from_bytes(&blob).is_ok());

    // empty
    assert_eq!(
        Proof::from_bytes(&[]).unwrap_err(),
        VerkleError::ProofDecoding
    );
    // truncated
    assert_eq!(
        Proof::from_bytes(&blob[..blob.len() - 1]).unwrap_err(),
        VerkleError::ProofDecoding
    );
    // a root slot that is not a canonical scalar
    let mut bad = blob.clone();
    for b in bad[1..33].iter_mut() {
        *b = 0xff;
    }
    assert_eq!(
        Proof::from_bytes(&bad).unwrap_err(),
        VerkleError::ProofDecoding
    );
    // a record whose stem does not start with its branch byte
    let mut bad = blob.clone();
    bad[1 + 8192] = 3;
    assert_eq!(
        Proof::from_bytes(&bad).unwrap_err(),
        VerkleError::ProofDecoding
    );
}

#[test]
fn proof_decoding_rejects_unsorted_branches() {
    let ctx = Context::new();
    let mut stem_a = vec![0u8; 31];
    stem_a[0] = 1;
    let mut stem_b = vec![0u8; 31];
    stem_b[0] = 2;
    let ka = key(&stem_a, 0);
    let kb = key(&stem_b, 0);
    let (_pre_root, blob) = build_state(
        &ctx,
        &[(stem_a, vec![(0u8, ka)]), (stem_b, vec![(0u8, kb)])],
    );
    assert!(Proof::from_bytes(&blob).is_ok());
    // swap the two records
    let mut swapped = blob[..1 + 8192].to_vec();
    swapped.extend_from_slice(&blob[1 + 8192 + 16416..]);
    swapped.extend_from_slice(&blob[1 + 8192..1 + 8192 + 16416]);
    assert_eq!(
        Proof::from_bytes(&swapped).unwrap_err(),
        VerkleError::ProofDecoding
    );
}
