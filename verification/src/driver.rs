//! The batch driver: build a trie from an ordered list of key/value pairs,
//! then drain it key by key, choosing each victim from the current root
//! fingerprint, and record the root after every removal.
//!
//! The removal order is content-derived on purpose: the first byte of the
//! current root, reduced modulo the number of keys still present, names
//! the next key to drop, so the whole fingerprint sequence is a pure
//! function of the input — `drain_spec` — and reproducible by re-running
//! the same computation on the same input.
use vstd::prelude::*;

use crate::codec::copy_bytes;
use crate::hashing::blake2_256;
use crate::hashing::hex_encode;
use crate::hashing::hex_of;
use crate::nibble::lemma_nibbles_valid;
use crate::nibble::nibbles;
use crate::nibble::to_nibbles;
use crate::nibble::valid_key;
use crate::node::Node;
use crate::node::child_canonical;
use crate::node::map_of;
use crate::node::node_canonical;
use crate::node::node_view;
use crate::node::opt_view;
use crate::ops::node_insert;
use crate::trie::Trie;
use crate::trie::byte_view;
use crate::trie::empty_root;
use crate::trie::lemma_byte_view_insert;
use crate::trie::lemma_byte_view_nonempty;
use crate::trie::lemma_nmap_of_byte_view;
use crate::trie::nmap_of;
use crate::trie::root_of;

verus! {

/// The byte sequences behind a list of pairs of byte vectors.
pub open spec fn pairs_view(ps: Seq<(Vec<u8>, Vec<u8>)>) -> Seq<(Seq<u8>, Seq<u8>)> {
    ps.map_values(|p: (Vec<u8>, Vec<u8>)| (p.0@, p.1@))
}

/// The byte sequences behind a list of byte vectors.
pub open spec fn keys_view(ks: Seq<Vec<u8>>) -> Seq<Seq<u8>> {
    ks.map_values(|k: Vec<u8>| k@)
}

/// The character sequences behind a list of strings.
pub open spec fn strings_view(ss: Seq<String>) -> Seq<Seq<char>> {
    ss.map_values(|s: String| s@)
}

/// The mapping a list of pairs stands for: later pairs overwrite earlier
/// ones with the same key.
pub open spec fn pairs_map(ps: Seq<(Seq<u8>, Seq<u8>)>) -> Map<Seq<u8>, Seq<u8>>
    decreases ps.len(),
{
    if ps.len() == 0 {
        Map::empty()
    } else {
        pairs_map(ps.drop_last()).insert(ps.last().0, ps.last().1)
    }
}

/// The distinct keys of a list of pairs, in order of first appearance.
pub open spec fn key_list(ps: Seq<(Seq<u8>, Seq<u8>)>) -> Seq<Seq<u8>>
    decreases ps.len(),
{
    if ps.len() == 0 {
        Seq::empty()
    } else {
        let rest = key_list(ps.drop_last());
        if rest.contains(ps.last().0) {
            rest
        } else {
            rest.push(ps.last().0)
        }
    }
}

/// The fingerprint sequence the drain produces: while keys remain, the
/// first byte of the current root modulo the key count names the key to
/// drop, and the root after its removal is recorded in text form.
pub open spec fn drain_spec(m: Map<Seq<u8>, Seq<u8>>, keys: Seq<Seq<u8>>) -> Seq<Seq<char>>
    decreases keys.len(),
{
    if keys.len() == 0 {
        Seq::empty()
    } else {
        let rb = root_of(m);
        let idx = if rb.len() > 0 {
            rb[0] as int % keys.len() as int
        } else {
            0int
        };
        let m2 = m.remove(keys[idx]);
        seq![hex_of(root_of(m2))] + drain_spec(m2, keys.remove(idx))
    }
}

/// The key list holds exactly the domain of the pair mapping, each key
/// once.
pub proof fn lemma_pairs_map_key_list(ps: Seq<(Seq<u8>, Seq<u8>)>)
    ensures
        forall|k: Seq<u8>| #[trigger] pairs_map(ps).contains_key(k) <==> key_list(ps).contains(k),
        key_list(ps).no_duplicates(),
    decreases ps.len(),
{
    if ps.len() > 0 {
        lemma_pairs_map_key_list(ps.drop_last());
        let rest = key_list(ps.drop_last());
        let k0 = ps.last().0;
        assert forall|k: Seq<u8>| true implies
            (#[trigger] pairs_map(ps).contains_key(k) <==> key_list(ps).contains(k)) by {
            assert(pairs_map(ps.drop_last()).contains_key(k) <==> rest.contains(k));
            if rest.contains(k0) {
                if k == k0 {
                    assert(key_list(ps).contains(k));
                    assert(pairs_map(ps).contains_key(k));
                }
            } else {
                if k == k0 {
                    assert(key_list(ps)[rest.len() as int] == k0);
                    assert(key_list(ps).contains(k));
                    assert(pairs_map(ps).contains_key(k));
                } else {
                    assert(key_list(ps).contains(k) <==> rest.contains(k)) by {
                        if key_list(ps).contains(k) {
                            let i = choose|i: int| 0 <= i < key_list(ps).len()
                                && key_list(ps)[i] == k;
                            assert(i < rest.len());
                            assert(rest[i] == k);
                        }
                        if rest.contains(k) {
                            let i = choose|i: int| 0 <= i < rest.len() && rest[i] == k;
                            assert(key_list(ps)[i] == k);
                        }
                    };
                }
            }
        };
        if !rest.contains(k0) {
            assert forall|i: int, j: int| 0 <= i < j < key_list(ps).len() implies
                key_list(ps)[i] != key_list(ps)[j] by {
                if j == rest.len() as int {
                    if key_list(ps)[i] == k0 {
                        assert(rest[i] == k0);
                        assert(rest.contains(k0));
                    }
                } else {
                    assert(rest[i] == key_list(ps)[i] && rest[j] == key_list(ps)[j]);
                }
            };
        }
    }
}

/// Dropping one element of a duplicate-free list drops exactly that
/// element from its contents.
pub proof fn lemma_keys_remove(s: Seq<Seq<u8>>, idx: int)
    requires
        s.no_duplicates(),
        0 <= idx < s.len(),
    ensures
        s.remove(idx).no_duplicates(),
        forall|k: Seq<u8>| #[trigger] s.remove(idx).contains(k)
            <==> s.contains(k) && k != s[idx],
{
    let s2 = s.remove(idx);
    assert forall|k: Seq<u8>| #[trigger] s2.contains(k) implies s.contains(k) && k != s[idx] by {
        let i = choose|i: int| 0 <= i < s2.len() && s2[i] == k;
        if i < idx {
            assert(s[i] == k);
        } else {
            assert(s[i + 1] == k);
        }
    };
    assert forall|k: Seq<u8>| s.contains(k) && k != s[idx] implies #[trigger] s2.contains(k) by {
        let i = choose|i: int| 0 <= i < s.len() && s[i] == k;
        if i < idx {
            assert(s2[i] == k);
        } else {
            assert(s2[i - 1] == k);
        }
    };
    assert forall|i: int, j: int| 0 <= i < j < s2.len() implies s2[i] != s2[j] by {
        let si: int = if i < idx { i } else { i + 1 };
        let sj: int = if j < idx { j } else { j + 1 };
        assert(s2[i] == s[si]);
        assert(s2[j] == s[sj]);
    };
}

/// A drain records exactly one fingerprint per key.
pub proof fn lemma_drain_len(m: Map<Seq<u8>, Seq<u8>>, keys: Seq<Seq<u8>>)
    ensures
        drain_spec(m, keys).len() == keys.len(),
    decreases keys.len(),
{
    if keys.len() > 0 {
        let rb = root_of(m);
        let idx = if rb.len() > 0 {
            rb[0] as int % keys.len() as int
        } else {
            0int
        };
        lemma_drain_len(m.remove(keys[idx]), keys.remove(idx));
    }
}

/// When the keys cover the mapping, the final recorded fingerprint is the
/// canonical empty root: the drain empties the trie.
pub proof fn lemma_drain_last(m: Map<Seq<u8>, Seq<u8>>, keys: Seq<Seq<u8>>)
    requires
        keys.len() > 0,
        keys.no_duplicates(),
        forall|k: Seq<u8>| #[trigger] m.contains_key(k) <==> keys.contains(k),
    ensures
        drain_spec(m, keys).last() == hex_of(empty_root()),
    decreases keys.len(),
{
    let rb = root_of(m);
    let idx = if rb.len() > 0 {
        rb[0] as int % keys.len() as int
    } else {
        0int
    };
    let m2 = m.remove(keys[idx]);
    let keys2 = keys.remove(idx);
    lemma_keys_remove(keys, idx);
    if keys.len() == 1 {
        assert(keys2.len() == 0);
        assert(m2 =~= Map::<Seq<u8>, Seq<u8>>::empty()) by {
            assert forall|k: Seq<u8>| true implies !(#[trigger] m2.contains_key(k)) by {
                if m2.contains_key(k) {
                    assert(keys.contains(k));
                    let i = choose|i: int| 0 <= i < keys.len() && keys[i] == k;
                    assert(i == idx);
                }
            };
        };
        assert(root_of(m2) == empty_root());
        assert(drain_spec(m2, keys2) =~= Seq::<Seq<char>>::empty());
    } else {
        lemma_drain_last(m2, keys2);
        lemma_drain_len(m2, keys2);
    }
}

/// Byte-vector equality.
fn bytes_eq(a: &Vec<u8>, b: &Vec<u8>) -> (r: bool)
    ensures
        r <==> a@ == b@,
{
    if a.len() != b.len() {
        return false;
    }
    let mut i: usize = 0;
    while i < a.len()
        invariant
            a@.len() == b@.len(),
            i <= a@.len(),
            forall|j: int| 0 <= j < i ==> a@[j] == b@[j],
        decreases a@.len() - i,
    {
        if a[i] != b[i] {
            return false;
        }
        i = i + 1;
    }
    proof {
        assert(a@ =~= b@);
    }
    true
}

/// Whether a list of keys already holds `k`.
fn list_contains(keys: &Vec<Vec<u8>>, k: &Vec<u8>) -> (r: bool)
    ensures
        r <==> keys_view(keys@).contains(k@),
{
    let mut i: usize = 0;
    while i < keys.len()
        invariant
            i <= keys@.len(),
            forall|j: int| 0 <= j < i ==> keys_view(keys@)[j] != k@,
        decreases keys@.len() - i,
    {
        if bytes_eq(&keys[i], k) {
            proof {
                assert(keys_view(keys@)[i as int] == k@);
            }
            return true;
        }
        i = i + 1;
    }
    proof {
        if keys_view(keys@).contains(k@) {
            let j = choose|j: int| 0 <= j < keys@.len() && keys_view(keys@)[j] == k@;
            assert(false);
        }
    }
    false
}

/// Computes the root fingerprint of a key/value mapping in one pass,
/// without a node store and without keeping the trie: the same canonical
/// node tree is built and only its root hash is returned, bit-identical
/// to what the full engine reports for the same contents.
pub fn trie_root(pairs: &Vec<(Vec<u8>, Vec<u8>)>) -> (h: Vec<u8>)
    ensures
        h@ == root_of(pairs_map(pairs_view(pairs@))),
        h@.len() == 32,
{
    let mut root: Option<Box<Node>> = None;
    let ghost mut mn = Map::<Seq<u8>, Seq<u8>>::empty();
    proof {
        assert(child_canonical(opt_view(root), mn));
        assert(byte_view(mn) =~= pairs_map(pairs_view(pairs@.take(0))));
    }
    let mut i: usize = 0;
    while i < pairs.len()
        invariant
            i <= pairs@.len(),
            child_canonical(opt_view(root), mn),
            forall|nk: Seq<u8>| #[trigger] mn.contains_key(nk) ==> valid_key(nk),
            byte_view(mn) == pairs_map(pairs_view(pairs@.take(i as int))),
        decreases pairs@.len() - i,
    {
        let p = &pairs[i];
        let nib = to_nibbles(p.0.as_slice());
        let val = copy_bytes(&p.1);
        let newroot = node_insert(root, &nib, 0, val, Ghost(mn));
        proof {
            assert(nib@.skip(0) =~= nibbles(p.0@));
            lemma_nibbles_valid(p.0@);
            lemma_byte_view_insert(mn, p.0@, p.1@);
            mn = mn.insert(nibbles(p.0@), p.1@);
            assert(pairs_view(pairs@.take(i + 1)).drop_last()
                =~= pairs_view(pairs@.take(i as int)));
            assert(pairs_view(pairs@.take(i + 1)).last() == (p.0@, p.1@));
            assert(byte_view(mn) == pairs_map(pairs_view(pairs@.take(i + 1))));
        }
        root = Some(newroot);
        i = i + 1;
    }
    proof {
        assert(pairs@.take(pairs@.len() as int) =~= pairs@);
    }
    match &root {
        None => {
            let mut e: Vec<u8> = Vec::new();
            e.push(0u8);
            let h = blake2_256(e.as_slice());
            proof {
                assert(e@ =~= seq![0u8]);
                assert(mn =~= Map::<Seq<u8>, Seq<u8>>::empty());
                assert(byte_view(mn) =~= Map::<Seq<u8>, Seq<u8>>::empty());
                assert(pairs_map(pairs_view(pairs@)) == Map::<Seq<u8>, Seq<u8>>::empty());
            }
            h
        },
        Some(b) => {
            let ghost nv = node_view(**b);
            proof {
                assert(node_canonical(nv, mn));
                crate::canon::lemma_canonical_map_of(Some(nv), mn);
                crate::canon::lemma_canonical_shaped(Some(nv), mn);
                crate::canon::lemma_canonical_nonempty(Some(nv), mn);
                let nk = choose|nk: Seq<u8>| mn.contains_key(nk);
                lemma_byte_view_nonempty(mn, nk);
                let mb = pairs_map(pairs_view(pairs@));
                assert(mb != Map::<Seq<u8>, Seq<u8>>::empty()) by {
                    assert(mb.contains_key(crate::nibble::bytes_of(nk)));
                };
                lemma_nmap_of_byte_view(mn);
                let n2 = choose|n: crate::node::SpecNode| node_canonical(n, nmap_of(mb));
                crate::canon::lemma_canonical_unique(Some(n2), Some(nv), mn);
                assert(root_of(mb) == crate::node::hash_of(nv));
            }
            crate::codec::node_hash(b)
        },
    }
}

/// Builds a fresh trie from the pairs, then drains it: while keys remain,
/// the first byte of the current root modulo the remaining key count
/// picks the key to remove, and the root fingerprint after each removal
/// is recorded in canonical text form, one per distinct key, ending at
/// the canonical empty root.
pub fn insert_and_delete_all(pairs: &Vec<(Vec<u8>, Vec<u8>)>) -> (out: Vec<String>)
    ensures
        strings_view(out@) == drain_spec(
            pairs_map(pairs_view(pairs@)),
            key_list(pairs_view(pairs@)),
        ),
        out@.len() == key_list(pairs_view(pairs@)).len(),
        pairs@.len() > 0 ==> out@.len() > 0
            && strings_view(out@).last() == hex_of(empty_root()),
{
    let mut trie = Trie::new();
    let mut keys: Vec<Vec<u8>> = Vec::new();
    proof {
        assert(trie@ =~= pairs_map(pairs_view(pairs@.take(0))));
        assert(keys_view(keys@) =~= key_list(pairs_view(pairs@.take(0))));
    }
    let mut i: usize = 0;
    while i < pairs.len()
        invariant
            i <= pairs@.len(),
            trie@ == pairs_map(pairs_view(pairs@.take(i as int))),
            keys_view(keys@) == key_list(pairs_view(pairs@.take(i as int))),
        decreases pairs@.len() - i,
    {
        let p = &pairs[i];
        trie.insert(p.0.as_slice(), p.1.as_slice());
        let already = list_contains(&keys, &p.0);
        if !already {
            keys.push(copy_bytes(&p.0));
        }
        proof {
            assert(pairs_view(pairs@.take(i + 1)).drop_last()
                =~= pairs_view(pairs@.take(i as int)));
            assert(pairs_view(pairs@.take(i + 1)).last() == (p.0@, p.1@));
            if !already {
                assert(keys_view(keys@)
                    =~= key_list(pairs_view(pairs@.take(i as int))).push(p.0@));
            }
            assert(keys_view(keys@) =~= key_list(pairs_view(pairs@.take(i + 1))));
        }
        i = i + 1;
    }
    proof {
        assert(pairs@.take(pairs@.len() as int) =~= pairs@);
    }
    let ghost m0 = pairs_map(pairs_view(pairs@));
    let ghost kl0 = key_list(pairs_view(pairs@));
    proof {
        lemma_pairs_map_key_list(pairs_view(pairs@));
        lemma_drain_len(m0, kl0);
        if pairs@.len() > 0 {
            lemma_drain_last(m0, kl0);
            assert(kl0.len() > 0) by {
                assert(pairs_map(pairs_view(pairs@)).contains_key(
                    pairs_view(pairs@).last().0));
            };
        }
    }
    let mut out: Vec<String> = Vec::new();
    proof {
        assert(strings_view(out@) + drain_spec(trie@, keys_view(keys@))
            =~= drain_spec(m0, kl0));
    }
    while keys.len() > 0
        invariant
            keys_view(keys@).no_duplicates(),
            forall|k: Seq<u8>| #[trigger] trie@.contains_key(k) <==> keys_view(keys@).contains(k),
            strings_view(out@) + drain_spec(trie@, keys_view(keys@)) == drain_spec(m0, kl0),
            out@.len() + keys@.len() == kl0.len(),
        decreases keys@.len(),
    {
        let ghost m_i = trie@;
        let ghost kv_i = keys_view(keys@);
        let rb = trie.root();
        let idx = (rb[0] as usize) % keys.len();
        let k = keys.remove(idx);
        proof {
            assert(kv_i[idx as int] == k@);
            assert(keys_view(keys@) =~= kv_i.remove(idx as int));
            lemma_keys_remove(kv_i, idx as int);
            assert(m_i.contains_key(k@));
        }
        let res = trie.remove(k.as_slice());
        proof {
            assert(res is Ok);
        }
        let h = trie.root();
        let ghost out_pre = out@;
        out.push(hex_encode(h.as_slice()));
        proof {
            let spec_idx = if root_of(m_i).len() > 0 {
                root_of(m_i)[0] as int % kv_i.len() as int
            } else {
                0int
            };
            assert(rb@[0] == root_of(m_i)[0]);
            assert(spec_idx == idx as int);
            assert(drain_spec(m_i, kv_i) == seq![hex_of(root_of(trie@))]
                + drain_spec(trie@, keys_view(keys@)));
            assert(strings_view(out@)
                =~= strings_view(out_pre).push(hex_of(root_of(trie@))));
            assert(strings_view(out@) + drain_spec(trie@, keys_view(keys@))
                =~= drain_spec(m0, kl0));
        }
    }
    proof {
        assert(drain_spec(trie@, keys_view(keys@)) =~= Seq::<Seq<char>>::empty());
        assert(strings_view(out@) + Seq::<Seq<char>>::empty() =~= strings_view(out@));
        assert(strings_view(out@) =~= drain_spec(m0, kl0));
        if pairs@.len() > 0 {
            assert(strings_view(out@).last() == hex_of(empty_root()));
        }
    }
    out
}

} // verus!
