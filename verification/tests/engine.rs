use trie_engine::driver::{insert_and_delete_all, trie_root};
use trie_engine::trie::{empty_trie_root, Trie};
use trie_engine::TrieError;

fn pairs(raw: &[(&[u8], &[u8])]) -> Vec<(Vec<u8>, Vec<u8>)> {
    raw.iter().map(|(k, v)| (k.to_vec(), v.to_vec())).collect()
}

fn built_root(ps: &[(Vec<u8>, Vec<u8>)]) -> Vec<u8> {
    let mut t = Trie::new();
    for (k, v) in ps {
        t.insert(k, v);
    }
    t.root()
}

#[test]
fn empty_root_is_digest_of_marker() {
    // the canonical empty root is the Blake2b-256 digest of the one-byte
    // empty-trie marker; recompute it with the digest crate directly
    let expected = <blake2::Blake2b<blake2::digest::consts::U32> as blake2::Digest>::digest(
        [0u8].as_slice(),
    );
    assert_eq!(empty_trie_root(), expected.to_vec());
    assert_eq!(empty_trie_root().len(), 32);
}

#[test]
fn single_leaf_root_matches_documented_encoding() {
    // one pair: the root node is a leaf holding the whole nibble path;
    // rebuild its canonical encoding by hand and hash it
    let mut t = Trie::new();
    t.insert(&[0x00, 0x11], &[0xaa]);
    let mut enc: Vec<u8> = vec![1u8]; // leaf tag
    enc.extend_from_slice(&4u64.to_le_bytes()); // nibble path length
    enc.extend_from_slice(&[0, 0, 1, 1]); // nibbles of 0x00 0x11
    enc.extend_from_slice(&1u64.to_le_bytes()); // value length
    enc.push(0xaa);
    let expected = <blake2::Blake2b<blake2::digest::consts::U32> as blake2::Digest>::digest(
        enc.as_slice(),
    );
    assert_eq!(t.root(), expected.to_vec());
}

#[test]
fn determinism_full_build_vs_one_pass() {
    let ps = pairs(&[
        (&[0x00, 0x11], &[0xaa]),
        (&[0x00, 0x22], &[0xbb]),
        (&[0x13, 0x37], &[0x01, 0x02, 0x03]),
        (&[0xff], &[]),
    ]);
    assert_eq!(built_root(&ps), trie_root(&ps));
}

#[test]
fn determinism_insertion_order_irrelevant() {
    let ps = pairs(&[
        (&[0x00, 0x11], &[0xaa]),
        (&[0x00, 0x22], &[0xbb]),
        (&[0x13, 0x37], &[0x01]),
    ]);
    let mut reversed = ps.clone();
    reversed.reverse();
    assert_eq!(built_root(&ps), built_root(&reversed));
    assert_eq!(trie_root(&ps), trie_root(&reversed));
}

#[test]
fn round_trip_last_write_wins() {
    let mut t = Trie::new();
    t.insert(&[0x01], &[0x10]);
    t.insert(&[0x02], &[0x20]);
    t.insert(&[0x01], &[0x30]);
    assert_eq!(t.get(&[0x01]), Some(vec![0x30]));
    assert_eq!(t.get(&[0x02]), Some(vec![0x20]));
    assert_eq!(t.get(&[0x03]), None);
    assert_eq!(t.remove(&[0x01]), Ok(()));
    assert_eq!(t.get(&[0x01]), None);
    assert_eq!(t.get(&[0x02]), Some(vec![0x20]));
}

#[test]
fn remove_absent_key_reports_key_not_found() {
    let mut t = Trie::new();
    t.insert(&[0x01], &[0x10]);
    assert_eq!(t.remove(&[0x77]), Err(TrieError::KeyNotFound));
    // the failed removal left the trie alone
    assert_eq!(t.get(&[0x01]), Some(vec![0x10]));
    assert_eq!(t.remove(&[]), Err(TrieError::KeyNotFound));
}

#[test]
fn collapse_matches_fresh_build() {
    // removing a key collapses the tree into exactly the shape a fresh
    // build of the remaining mapping produces, root and all
    let three = pairs(&[
        (&[0x00, 0x11], &[0xaa]),
        (&[0x00, 0x22], &[0xbb]),
        (&[0x00, 0x21], &[0xcc]),
    ]);
    let two = pairs(&[(&[0x00, 0x11], &[0xaa]), (&[0x00, 0x22], &[0xbb])]);
    let mut t = Trie::new();
    for (k, v) in &three {
        t.insert(k, v);
    }
    assert_eq!(t.remove(&[0x00, 0x21]), Ok(()));
    assert_eq!(t.root(), built_root(&two));
    // and removing everything converges to the canonical empty root
    assert_eq!(t.remove(&[0x00, 0x22]), Ok(()));
    assert_eq!(t.remove(&[0x00, 0x11]), Ok(()));
    assert_eq!(t.root(), empty_trie_root());
}

#[test]
fn drain_returns_one_fingerprint_per_key_and_empties() {
    let ps = pairs(&[
        (&[0x00, 0x11], &[0xaa]),
        (&[0x00, 0x22], &[0xbb]),
        (&[0x13, 0x37], &[0x01]),
        (&[0x42], &[0x02]),
        (&[0x43], &[0x03]),
    ]);
    let out = insert_and_delete_all(&ps);
    assert_eq!(out.len(), 5);
    assert_eq!(out[4], hex::encode(empty_trie_root()));
    // every fingerprint is 32 bytes in lowercase hexadecimal
    for f in &out {
        assert_eq!(f.len(), 64);
        assert!(f.chars().all(|c| c.is_ascii_hexdigit() && !c.is_ascii_uppercase()));
    }
}

#[test]
fn drain_resolves_duplicate_keys_to_last_write() {
    // the same key twice counts once, with the later value
    let dup = pairs(&[(&[0x01], &[0x10]), (&[0x01], &[0x20]), (&[0x02], &[0x30])]);
    let out = insert_and_delete_all(&dup);
    assert_eq!(out.len(), 2);
    let plain = pairs(&[(&[0x01], &[0x20]), (&[0x02], &[0x30])]);
    assert_eq!(insert_and_delete_all(&plain), out);
}

#[test]
fn reproducibility_identical_runs_identical_output() {
    let ps = pairs(&[
        (&[0x00, 0x11], &[0xaa]),
        (&[0x00, 0x22], &[0xbb]),
        (&[0x13, 0x37], &[0x01]),
    ]);
    let first = insert_and_delete_all(&ps);
    let second = insert_and_delete_all(&ps);
    assert_eq!(first, second);
}

#[test]
fn two_pair_scenario() {
    // keys 0011 and 0022, values aa and bb, written here as the bytes the
    // boundary's hex decoding would hand the engine
    let ps = pairs(&[(&[0x00, 0x11], &[0xaa]), (&[0x00, 0x22], &[0xbb])]);
    // after insertion the root is one fixed fingerprint, however computed
    let h0 = built_root(&ps);
    assert_eq!(h0, trie_root(&ps));
    assert_eq!(h0.len(), 32);
    // the batch driver reports exactly two fingerprints and ends empty
    let out = insert_and_delete_all(&ps);
    assert_eq!(out.len(), 2);
    assert_eq!(out[1], hex::encode(empty_trie_root()));
    // removing the two keys in the reverse order converges to the same
    // empty-trie root, though the intermediate fingerprints differ
    let mut t = Trie::new();
    for (k, v) in &ps {
        t.insert(k, v);
    }
    assert_eq!(t.remove(&[0x00, 0x22]), Ok(()));
    assert_eq!(t.remove(&[0x00, 0x11]), Ok(()));
    assert_eq!(t.root(), empty_trie_root());
}

#[test]
fn single_pair_drains_to_empty_root() {
    let ps = pairs(&[(&[0x00, 0x11], &[0xaa])]);
    let out = insert_and_delete_all(&ps);
    assert_eq!(out.len(), 1);
    assert_eq!(out[0], hex::encode(empty_trie_root()));
}

#[test]
fn empty_input_drains_to_nothing() {
    let ps: Vec<(Vec<u8>, Vec<u8>)> = Vec::new();
    let out = insert_and_delete_all(&ps);
    assert!(out.is_empty());
}

#[test]
fn empty_key_and_empty_value_are_ordinary() {
    let mut t = Trie::new();
    t.insert(&[], &[0x01]);
    t.insert(&[0x05], &[]);
    assert_eq!(t.get(&[]), Some(vec![0x01]));
    assert_eq!(t.get(&[0x05]), Some(vec![]));
    let ps = pairs(&[(&[], &[0x01]), (&[0x05], &[])]);
    assert_eq!(t.root(), trie_root(&ps));
}

#[test]
fn roots_separate_different_contents() {
    // the fingerprint follows the contents: change a value, change a key,
    // or drop a pair and the root moves
    let a = pairs(&[(&[0x01], &[0x10]), (&[0x02], &[0x20])]);
    let b = pairs(&[(&[0x01], &[0x10]), (&[0x02], &[0x21])]);
    let c = pairs(&[(&[0x01], &[0x10]), (&[0x03], &[0x20])]);
    let d = pairs(&[(&[0x01], &[0x10])]);
    let ra = trie_root(&a);
    assert_ne!(ra, trie_root(&b));
    assert_ne!(ra, trie_root(&c));
    assert_ne!(ra, trie_root(&d));
    assert_ne!(ra, empty_trie_root());
}

#[test]
fn many_keys_build_drain_and_rebuild_agree() {
    // thirty keys with assorted shared prefixes: the drain reports one
    // fingerprint per key, and removal down to any remainder matches a
    // fresh build of that remainder
    let mut ps: Vec<(Vec<u8>, Vec<u8>)> = Vec::new();
    for i in 0u8..30 {
        let key = vec![i % 4, i / 4, i];
        ps.push((key, vec![i, 0xf0 | (i % 16)]));
    }
    let out = insert_and_delete_all(&ps);
    assert_eq!(out.len(), 30);
    assert_eq!(out[29], hex::encode(empty_trie_root()));

    let mut t = Trie::new();
    for (k, v) in &ps {
        t.insert(k, v);
    }
    // drop the odd-indexed keys and compare with a fresh build of the rest
    let mut rest: Vec<(Vec<u8>, Vec<u8>)> = Vec::new();
    for (i, (k, v)) in ps.iter().enumerate() {
        if i % 2 == 1 {
            assert_eq!(t.remove(k), Ok(()));
        } else {
            rest.push((k.clone(), v.clone()));
        }
    }
    assert_eq!(t.root(), built_root(&rest));
    assert_eq!(t.root(), trie_root(&rest));
    for (k, v) in &rest {
        assert_eq!(t.get(k), Some(v.clone()));
    }
}
