//! The stored form of a node, as the node store hands it back: child
//! slots name subtrees by content hash instead of holding them, so one
//! store entry can be deserialized on its own.
use vstd::prelude::*;

use crate::node::SpecNode;
use crate::node::child_ref;
use crate::node::children_refs;
use crate::node::children_view;
use crate::node::encode_of;
use crate::node::hash_of;
use crate::node::le_bytes;
use crate::node::shaped;
use crate::node::value_bytes;

verus! {

broadcast use vstd::seq::axiom_seq_index_decreases;

/// A node as stored: a leaf keeps its nibble path and value, a branch
/// keeps its nibble path, sixteen child slots each holding a content hash
/// or nothing, and its optional value.
#[allow(inconsistent_fields)]
#[derive(Debug, PartialEq)]
pub enum StoredNode {
    Leaf { path: Vec<u8>, value: Vec<u8> },
    Branch { path: Vec<u8>, children: Vec<Option<Vec<u8>>>, value: Option<Vec<u8>> },
}

#[allow(inconsistent_fields)]
pub enum SpecStored {
    Leaf { path: Seq<u8>, value: Seq<u8> },
    Branch { path: Seq<u8>, children: Seq<Option<Seq<u8>>>, value: Option<Seq<u8>> },
}

pub open spec fn refs_view(cs: Seq<Option<Vec<u8>>>) -> Seq<Option<Seq<u8>>> {
    Seq::new(
        cs.len(),
        |i: int| if 0 <= i < cs.len() {
            match cs[i] {
                None => None,
                Some(h) => Some(h@),
            }
        } else {
            None
        },
    )
}

impl View for StoredNode {
    type V = SpecStored;

    open spec fn view(&self) -> SpecStored {
        match *self {
            StoredNode::Leaf { path, value } => SpecStored::Leaf { path: path@, value: value@ },
            StoredNode::Branch { path, children, value } => SpecStored::Branch {
                path: path@,
                children: refs_view(children@),
                value: match value {
                    None => None,
                    Some(v) => Some(v@),
                },
            },
        }
    }
}

/// A stored node of valid shape: a branch carries exactly sixteen slots.
pub open spec fn stored_wf(sn: SpecStored) -> bool {
    match sn {
        SpecStored::Leaf { .. } => true,
        SpecStored::Branch { children, .. } => children.len() == 16,
    }
}

/// The encoded reference of one stored child slot.
pub open spec fn stored_child_ref(c: Option<Seq<u8>>) -> Seq<u8> {
    match c {
        None => seq![0u8],
        Some(h) => seq![1u8] + le_bytes(h.len() as int, 8) + h,
    }
}

/// The encoded references of a run of stored child slots.
pub open spec fn stored_refs(cs: Seq<Option<Seq<u8>>>) -> Seq<u8>
    decreases cs.len(),
{
    if cs.len() == 0 {
        Seq::empty()
    } else {
        stored_refs(cs.drop_last()) + stored_child_ref(cs.last())
    }
}

/// The encoded references of the stored child slots from `i` on.
pub open spec fn stored_refs_from(cs: Seq<Option<Seq<u8>>>, i: int) -> Seq<u8>
    decreases cs.len() - i,
{
    if i < 0 || i >= cs.len() {
        Seq::empty()
    } else {
        stored_child_ref(cs[i]) + stored_refs_from(cs, i + 1)
    }
}

/// A run of references splits at any slot into the prefix up to it and
/// the suffix from it.
pub proof fn lemma_stored_refs_split(cs: Seq<Option<Seq<u8>>>, i: int)
    requires
        0 <= i <= cs.len(),
    ensures
        stored_refs(cs) == stored_refs(cs.take(i)) + stored_refs_from(cs, i),
    decreases cs.len() - i,
{
    if i == cs.len() {
        assert(cs.take(i) =~= cs);
        assert(stored_refs(cs) =~= stored_refs(cs.take(i)) + stored_refs_from(cs, i));
    } else {
        lemma_stored_refs_step(cs, i);
        lemma_stored_refs_split(cs, i + 1);
        assert(stored_refs(cs.take(i + 1)) == stored_refs(cs.take(i)) + stored_child_ref(cs[i]))
            by {
            assert(cs.take(i + 1).drop_last() =~= cs.take(i));
            assert(cs.take(i + 1).last() == cs[i]);
        };
        assert(stored_refs(cs) =~= stored_refs(cs.take(i)) + stored_refs_from(cs, i));
    }
}

/// The suffix of a run of references starts with the next slot's own
/// reference.
pub proof fn lemma_stored_refs_step(cs: Seq<Option<Seq<u8>>>, i: int)
    requires
        0 <= i < cs.len(),
    ensures
        stored_refs_from(cs, i) == stored_child_ref(cs[i]) + stored_refs_from(cs, i + 1),
{
}

/// The canonical encoding of a stored node: the same bytes the node
/// itself encodes to, child hashes standing in for subtrees.
pub open spec fn encode_stored(sn: SpecStored) -> Seq<u8> {
    match sn {
        SpecStored::Leaf { path, value } => seq![1u8] + le_bytes(path.len() as int, 8) + path
            + le_bytes(value.len() as int, 8) + value,
        SpecStored::Branch { path, children, value } => seq![2u8]
            + le_bytes(path.len() as int, 8) + path + value_bytes(value)
            + stored_refs(children),
    }
}

/// The stored form of a node: each occupied child slot holds the child's
/// content hash.
pub open spec fn stored_of(n: SpecNode) -> SpecStored {
    match n {
        SpecNode::Leaf { path, value } => SpecStored::Leaf { path, value },
        SpecNode::Branch { path, children, value } => SpecStored::Branch {
            path,
            children: Seq::new(
                children.len(),
                |i: int| if 0 <= i < children.len() {
                    match children[i] {
                        None => None,
                        Some(c) => Some(hash_of(c)),
                    }
                } else {
                    None
                },
            ),
            value,
        },
    }
}

/// A run of node child references equals the stored references of their
/// hashes.
proof fn lemma_children_refs_stored(cs: Seq<Option<SpecNode>>, hs: Seq<Option<Seq<u8>>>, i: int)
    requires
        0 <= i <= cs.len(),
        hs.len() == cs.len(),
        forall|j: int| 0 <= j < cs.len() ==> #[trigger] hs[j] == (match cs[j] {
            None => None::<Seq<u8>>,
            Some(c) => Some(hash_of(c)),
        }),
    ensures
        children_refs(cs, i) == stored_refs(hs.take(i)),
    decreases i,
{
    if i > 0 {
        lemma_children_refs_stored(cs, hs, i - 1);
        assert(stored_refs(hs.take(i)) == stored_refs(hs.take(i - 1)) + stored_child_ref(hs[i - 1]))
            by {
            assert(hs.take(i).drop_last() =~= hs.take(i - 1));
            assert(hs.take(i).last() == hs[i - 1]);
        };
        assert(child_ref(cs[i - 1]) == stored_child_ref(hs[i - 1]));
    } else {
        assert(hs.take(0) =~= Seq::<Option<Seq<u8>>>::empty());
    }
}

/// A well-shaped node and its stored form encode to the same bytes.
pub proof fn lemma_encode_stored_of(n: SpecNode)
    requires
        shaped(n),
    ensures
        encode_stored(stored_of(n)) == encode_of(n),
        stored_wf(stored_of(n)),
{
    match n {
        SpecNode::Leaf { .. } => {},
        SpecNode::Branch { path, children, value } => {
            let hs = stored_of(n)->Branch_children;
            lemma_children_refs_stored(children, hs, 16);
            assert(hs.take(16) =~= hs);
        },
    }
}

/// The value a run of little-endian bytes stands for.
pub open spec fn le_val(s: Seq<u8>) -> int
    decreases s.len(),
{
    if s.len() == 0 {
        0
    } else {
        s[0] + 256 * le_val(s.drop_first())
    }
}

/// Powers of 256: the exclusive bound on a value of `k` bytes.
pub open spec fn pow256(k: nat) -> int
    decreases k,
{
    if k == 0 {
        1
    } else {
        256 * pow256((k - 1) as nat)
    }
}

/// Little-endian bytes read back as the value they were written from.
pub proof fn lemma_le_val_of_bytes(v: int, k: nat)
    requires
        0 <= v < pow256(k),
    ensures
        le_val(le_bytes(v, k)) == v,
        le_bytes(v, k).len() == k,
    decreases k,
{
    if k > 0 {
        assert(v / 256 < pow256((k - 1) as nat));
        lemma_le_val_of_bytes(v / 256, (k - 1) as nat);
        assert(le_bytes(v, k).drop_first() =~= le_bytes(v / 256, (k - 1) as nat));
        assert(le_bytes(v, k)[0] == (v % 256) as u8);
    }
}

/// Any eight bytes are the little-endian form of the value they stand
/// for.
pub proof fn lemma_le_bytes_of_val(s: Seq<u8>)
    requires
        s.len() == 8,
    ensures
        0 <= le_val(s) < pow256(8),
        le_bytes(le_val(s), 8) == s,
{
    lemma_le_val_bound(s);
    lemma_le_bytes_of_val_rec(s, 8);
}

proof fn lemma_le_val_bound(s: Seq<u8>)
    ensures
        0 <= le_val(s) < pow256(s.len()),
    decreases s.len(),
{
    if s.len() > 0 {
        lemma_le_val_bound(s.drop_first());
    }
}

proof fn lemma_le_bytes_of_val_rec(s: Seq<u8>, k: nat)
    requires
        s.len() == k,
    ensures
        le_bytes(le_val(s), k) == s,
    decreases k,
{
    if k > 0 {
        lemma_le_val_bound(s.drop_first());
        assert(le_val(s) % 256 == s[0]);
        assert(le_val(s) / 256 == le_val(s.drop_first()));
        lemma_le_bytes_of_val_rec(s.drop_first(), (k - 1) as nat);
        assert(le_bytes(le_val(s), k) =~= s);
    } else {
        assert(le_bytes(le_val(s), 0) =~= s);
    }
}

/// Little-endian bytes have their nominal width.
pub proof fn lemma_le_bytes_len(v: int, k: nat)
    ensures
        le_bytes(v, k).len() == k,
    decreases k,
{
    if k > 0 {
        lemma_le_bytes_len(v / 256, (k - 1) as nat);
    }
}

/// Reads eight little-endian bytes as a value.
#[verifier::loop_isolation(false)]
fn read_len8(bytes: &[u8], pos: usize) -> (v: u64)
    requires
        pos + 8 <= bytes@.len(),
    ensures
        v as int == le_val(bytes@.subrange(pos as int, pos + 8)),
{
    proof {
        lemma_pow256_8();
    }
    let blen = bytes.len();
    let mut v: u64 = 0;
    let mut j: usize = 8;
    while j > 0
        invariant
            j <= 8,
            pos + 8 <= bytes@.len(),
            v as int == le_val(bytes@.subrange(pos + j, pos + 8)),
            v < pow256((8 - j) as nat),
            pow256(8) == 0x1_0000_0000_0000_0000,
            pow256(7) == 0x1_0000_0000_0000_00,
        decreases j,
    {
        proof {
            lemma_pow256_monotone((8 - j) as nat, 7);
            assert(le_val(bytes@.subrange(pos + (j - 1), pos + 8))
                == bytes@[pos + (j - 1)] + 256 * le_val(bytes@.subrange(pos + j, pos + 8))) by {
                assert(bytes@.subrange(pos + j - 1, pos + 8).drop_first()
                    =~= bytes@.subrange(pos + j, pos + 8));
            };
        }
        v = v * 256 + (bytes[pos + (j - 1)] as u64);
        j = j - 1;
    }
    proof {
        assert(bytes@.subrange(pos as int, pos + 8) == bytes@.subrange(pos + 0, pos + 8));
    }
    v
}

proof fn lemma_pow256_8()
    ensures
        pow256(8) == 0x1_0000_0000_0000_0000,
        pow256(7) == 0x1_0000_0000_0000_00,
{
    reveal_with_fuel(pow256, 9);
}

proof fn lemma_pow256_pos(k: nat)
    ensures
        pow256(k) >= 1,
    decreases k,
{
    if k > 0 {
        lemma_pow256_pos((k - 1) as nat);
    }
}

proof fn lemma_pow256_monotone(a: nat, b: nat)
    requires
        a <= b,
    ensures
        pow256(a) <= pow256(b),
    decreases b,
{
    if a < b {
        lemma_pow256_monotone(a, (b - 1) as nat);
        lemma_pow256_pos((b - 1) as nat);
    }
}

/// Copies a range of the input into a fresh vector.
fn take_range(bytes: &[u8], from: usize, to: usize) -> (r: Vec<u8>)
    requires
        from <= to <= bytes@.len(),
    ensures
        r@ == bytes@.subrange(from as int, to as int),
{
    vstd::slice::slice_to_vec(vstd::slice::slice_subrange(bytes, from, to))
}

/// Deserializes a canonical node encoding.
///
/// The contract is exact in both directions: bytes that are the encoding
/// of some well-shaped stored node decode to a node with that encoding,
/// and everything else is a `DecodeError`.
#[verifier::rlimit(100)]
#[verifier::loop_isolation(false)]
pub fn decode_node(bytes: &[u8]) -> (r: Result<StoredNode, crate::TrieError>)
    ensures
        match r {
            Ok(sn) => stored_wf(sn@) && encode_stored(sn@) == bytes@,
            Err(e) => e == crate::TrieError::DecodeError && !(exists|sn: SpecStored|
                stored_wf(sn) && encode_stored(sn) == bytes@),
        },
{
    let ghost gexists = exists|sn: SpecStored| stored_wf(sn) && encode_stored(sn) == bytes@;
    let ghost w = if gexists {
        choose|sn: SpecStored| stored_wf(sn) && encode_stored(sn) == bytes@
    } else {
        vstd::pervasive::arbitrary()
    };
    let len = bytes.len();
    proof {
        lemma_pow256_8();
        assert(bytes@.len() < pow256(8));
    }
    if len == 0 {
        proof {
            if gexists {
                assert(encode_stored(w).len() >= 1);
            }
        }
        return Err(crate::TrieError::DecodeError);
    }
    let tag = bytes[0];
    if tag == 1 {
        // a leaf: path length, path, value length, value
        proof {
            if gexists && w is Branch {
                assert(encode_stored(w)[0] == 2);
            }
        }
        if len < 17 {
            proof {
                if gexists {
                    leaf_shape(w, bytes@);
                }
            }
            return Err(crate::TrieError::DecodeError);
        }
        let plen64 = read_len8(bytes, 1);
        proof {
            if gexists {
                leaf_shape(w, bytes@);
                lemma_le_val_of_bytes(w->Leaf_path.len() as int, 8);
                assert(plen64 as int == w->Leaf_path.len());
            }
        }
        if plen64 > (len - 17) as u64 {
            return Err(crate::TrieError::DecodeError);
        }
        let plen = plen64 as usize;
        let path = take_range(bytes, 9, 9 + plen);
        let vlen64 = read_len8(bytes, 9 + plen);
        proof {
            if gexists {
                lemma_le_val_of_bytes(w->Leaf_value.len() as int, 8);
                assert(vlen64 as int == w->Leaf_value.len());
            }
        }
        if vlen64 != (len - 17 - plen) as u64 {
            return Err(crate::TrieError::DecodeError);
        }
        let vlen = vlen64 as usize;
        let value = take_range(bytes, 17 + plen, 17 + plen + vlen);
        let sn = StoredNode::Leaf { path, value };
        proof {
            lemma_le_bytes_of_val(bytes@.subrange(1, 9));
            lemma_le_bytes_of_val(bytes@.subrange(9 + plen, 17 + plen));
            assert(encode_stored(sn@) =~= bytes@);
            assert(gexists) by {
                assert(stored_wf(sn@) && encode_stored(sn@) == bytes@);
            };
        }
        Ok(sn)
    } else if tag == 2 {
        decode_branch(bytes, Ghost(gexists), Ghost(w))
    } else {
        proof {
            if gexists {
                if w is Leaf {
                    assert(encode_stored(w)[0] == 1);
                } else {
                    assert(encode_stored(w)[0] == 2);
                }
            }
        }
        Err(crate::TrieError::DecodeError)
    }
}

/// The byte layout of a leaf encoding, spelled out at its offsets.
proof fn leaf_shape(w: SpecStored, bytes: Seq<u8>)
    requires
        w is Leaf,
        encode_stored(w) == bytes,
    ensures
        bytes.len() == 17 + w->Leaf_path.len() + w->Leaf_value.len(),
        le_bytes(w->Leaf_path.len() as int, 8) == bytes.subrange(1, 9),
        w->Leaf_path == bytes.subrange(9, 9 + w->Leaf_path.len() as int),
        le_bytes(w->Leaf_value.len() as int, 8) == bytes.subrange(
            9 + w->Leaf_path.len() as int,
            17 + w->Leaf_path.len() as int,
        ),
        w->Leaf_value == bytes.subrange(
            17 + w->Leaf_path.len() as int,
            17 + w->Leaf_path.len() + w->Leaf_value.len() as int,
        ),
{
    let p = w->Leaf_path;
    let v = w->Leaf_value;
    lemma_le_bytes_len(p.len() as int, 8);
    lemma_le_bytes_len(v.len() as int, 8);
    assert(le_bytes(p.len() as int, 8) =~= bytes.subrange(1, 9));
    assert(p =~= bytes.subrange(9, 9 + p.len() as int));
    assert(le_bytes(v.len() as int, 8) =~= bytes.subrange(
        9 + p.len() as int,
        17 + p.len() as int,
    ));
    assert(v =~= bytes.subrange(17 + p.len() as int, 17 + p.len() + v.len() as int));
}

/// The byte layout of a branch encoding, up to its value slot.
proof fn branch_shape(w: SpecStored, bytes: Seq<u8>)
    requires
        w is Branch,
        encode_stored(w) == bytes,
    ensures
        bytes.len() >= 10 + w->Branch_path.len(),
        le_bytes(w->Branch_path.len() as int, 8) == bytes.subrange(1, 9),
        w->Branch_path == bytes.subrange(9, 9 + w->Branch_path.len() as int),
        bytes.skip(9 + w->Branch_path.len() as int) == value_bytes(w->Branch_value)
            + stored_refs(w->Branch_children),
{
    let p = w->Branch_path;
    lemma_le_bytes_len(p.len() as int, 8);
    assert(value_bytes(w->Branch_value).len() >= 1) by {
        if w->Branch_value is Some {
            lemma_le_bytes_len(w->Branch_value->0.len() as int, 8);
        }
    };
    assert(le_bytes(p.len() as int, 8) =~= bytes.subrange(1, 9));
    assert(p =~= bytes.subrange(9, 9 + p.len() as int));
    assert(bytes.skip(9 + p.len() as int) =~= value_bytes(w->Branch_value)
        + stored_refs(w->Branch_children));
}

/// Deserializes a branch encoding: shared prefix, value slot, then the
/// sixteen child references in slot order.
#[verifier::rlimit(100)]
#[verifier::loop_isolation(false)]
fn decode_branch(
    bytes: &[u8],
    Ghost(gexists): Ghost<bool>,
    Ghost(w): Ghost<SpecStored>,
) -> (r: Result<StoredNode, crate::TrieError>)
    requires
        bytes@.len() >= 1,
        bytes@[0] == 2,
        gexists == exists|sn: SpecStored| stored_wf(sn) && encode_stored(sn) == bytes@,
        gexists ==> stored_wf(w) && encode_stored(w) == bytes@,
    ensures
        match r {
            Ok(sn) => stored_wf(sn@) && encode_stored(sn@) == bytes@,
            Err(e) => e == crate::TrieError::DecodeError && !(exists|sn: SpecStored|
                stored_wf(sn) && encode_stored(sn) == bytes@),
        },
{
    let len = bytes.len();
    proof {
        lemma_pow256_8();
        assert(bytes@.len() < pow256(8));
        if gexists {
            if w is Leaf {
                assert(encode_stored(w)[0] == 1);
            }
            branch_shape(w, bytes@);
        }
    }
    if len < 10 {
        return Err(crate::TrieError::DecodeError);
    }
    let plen64 = read_len8(bytes, 1);
    proof {
        if gexists {
            lemma_le_val_of_bytes(w->Branch_path.len() as int, 8);
            assert(plen64 as int == w->Branch_path.len());
        }
    }
    if plen64 > (len - 10) as u64 {
        return Err(crate::TrieError::DecodeError);
    }
    let plen = plen64 as usize;
    let path = take_range(bytes, 9, 9 + plen);
    let mut pos: usize = 9 + plen;
    proof {
        lemma_le_bytes_of_val(bytes@.subrange(1, 9));
        assert(bytes@.take(pos as int) =~= seq![2u8] + le_bytes(plen as int, 8) + path@);
        if gexists {
            assert(path@ == w->Branch_path);
        }
    }
    // the value slot
    let ghost wrest = bytes@.skip(9 + plen);
    let vm = bytes[pos];
    let mut value: Option<Vec<u8>> = None;
    let ghost mut vv: Option<Seq<u8>> = None;
    if vm == 1 {
        proof {
            if gexists {
                assert(wrest[0] == vm);
                if w->Branch_value is None {
                    assert(wrest[0] == 0);
                    assert(false);
                }
                lemma_le_bytes_len(w->Branch_value->0.len() as int, 8);
            }
        }
        if len - pos < 9 {
            proof {
                if gexists {
                    assert(wrest.len() >= 9);
                }
            }
            return Err(crate::TrieError::DecodeError);
        }
        let vlen64 = read_len8(bytes, pos + 1);
        proof {
            if gexists {
                let b = w->Branch_value->0;
                assert(le_bytes(b.len() as int, 8) =~= bytes@.subrange(pos + 1, pos + 9));
                lemma_le_val_of_bytes(b.len() as int, 8);
                assert(vlen64 as int == b.len());
            }
        }
        if vlen64 > (len - (pos + 9)) as u64 {
            return Err(crate::TrieError::DecodeError);
        }
        let vlen = vlen64 as usize;
        let v = take_range(bytes, pos + 9, pos + 9 + vlen);
        let ghost gv = v@;
        proof {
            lemma_le_bytes_of_val(bytes@.subrange(pos + 1, pos + 9));
            if gexists {
                assert(gv =~= w->Branch_value->0);
            }
            vv = Some(gv);
        }
        value = Some(v);
        pos = pos + 9 + vlen;
    } else if vm == 0 {
        proof {
            if gexists {
                assert(wrest[0] == vm);
                if w->Branch_value is Some {
                    lemma_le_bytes_len(w->Branch_value->0.len() as int, 8);
                    assert(wrest[0] == 1);
                    assert(false);
                }
            }
        }
        pos = pos + 1;
    } else {
        proof {
            if gexists {
                assert(wrest[0] == vm);
                if w->Branch_value is Some {
                    lemma_le_bytes_len(w->Branch_value->0.len() as int, 8);
                    assert(wrest[0] == 1);
                } else {
                    assert(wrest[0] == 0);
                }
                assert(false);
            }
        }
        return Err(crate::TrieError::DecodeError);
    }
    let ghost head = seq![2u8] + le_bytes(plen as int, 8) + path@ + value_bytes(vv);
    proof {
        assert(bytes@.take(pos as int) =~= head);
        if gexists {
            assert(vv == w->Branch_value);
            assert(bytes@ =~= head + stored_refs(w->Branch_children));
        }
    }
    // the sixteen child references
    let children = match decode_children(bytes, pos, Ghost(gexists),
        Ghost(if gexists { w->Branch_children } else { vstd::pervasive::arbitrary() }),
        Ghost(head)) {
        Ok(cv) => cv,
        Err(e) => {
            return Err(e);
        },
    };
    let sn = StoredNode::Branch { path, children, value };
    proof {
        assert(sn@ == SpecStored::Branch {
            path: path@,
            children: refs_view(children@),
            value: vv,
        });
        assert(encode_stored(sn@) == head + stored_refs(refs_view(children@)));
        assert(encode_stored(sn@) == bytes@);
    }
    Ok(sn)
}

/// Parses the sixteen child references that end a branch encoding.
#[verifier::rlimit(100)]
#[verifier::loop_isolation(false)]
fn decode_children(
    bytes: &[u8],
    start: usize,
    Ghost(gexists): Ghost<bool>,
    Ghost(wcs): Ghost<Seq<Option<Seq<u8>>>>,
    Ghost(head): Ghost<Seq<u8>>,
) -> (r: Result<Vec<Option<Vec<u8>>>, crate::TrieError>)
    requires
        start <= bytes@.len(),
        bytes@.take(start as int) == head,
        gexists ==> wcs.len() == 16 && bytes@ == head + stored_refs(wcs),
    ensures
        match r {
            Ok(cv) => cv@.len() == 16 && head + stored_refs(refs_view(cv@)) == bytes@,
            Err(e) => e == crate::TrieError::DecodeError && !gexists,
        },
{
    let len = bytes.len();
    proof {
        lemma_pow256_8();
        assert(bytes@.len() < pow256(8));
    }
    let mut children: Vec<Option<Vec<u8>>> = Vec::new();
    let mut pos: usize = start;
    let mut i: usize = 0;
    while i < 16
        invariant
            i <= 16,
            children@.len() == i,
            start <= pos <= len,
            bytes@.take(pos as int) == head + stored_refs(refs_view(children@)),
            gexists ==> refs_view(children@) == wcs.take(i as int),
        decreases 16 - i,
    {
        proof {
            if gexists {
                lemma_stored_refs_split(wcs, i as int);
                assert(stored_refs(wcs.take(i as int)) == stored_refs(refs_view(children@)));
                assert(bytes@.skip(pos as int) =~= stored_refs_from(wcs, i as int));
                lemma_stored_refs_step(wcs, i as int);
                if wcs[i as int] is Some {
                    lemma_le_bytes_len(wcs[i as int]->0.len() as int, 8);
                }
            }
        }
        if pos >= len {
            return Err(crate::TrieError::DecodeError);
        }
        let marker = bytes[pos];
        let ghost children_pre = children@;
        if marker == 0 {
            proof {
                if gexists {
                    assert(bytes@.skip(pos as int)[0] == marker);
                    if wcs[i as int] is Some {
                        assert(bytes@.skip(pos as int)[0] == 1);
                        assert(false);
                    }
                }
            }
            children.push(None);
            pos = pos + 1;
            proof {
                assert(refs_view(children@) =~= refs_view(children_pre).push(None));
                assert(stored_refs(refs_view(children@))
                    == stored_refs(refs_view(children_pre)) + seq![0u8]) by {
                    assert(refs_view(children@).drop_last() =~= refs_view(children_pre));
                    assert(refs_view(children@).last() == None::<Seq<u8>>);
                };
                assert(bytes@.take(pos as int) =~= head + stored_refs(refs_view(children@)));
                if gexists {
                    assert(refs_view(children@) =~= wcs.take(i + 1));
                }
            }
        } else if marker == 1 {
            proof {
                if gexists {
                    assert(bytes@.skip(pos as int)[0] == marker);
                    if wcs[i as int] is None {
                        assert(bytes@.skip(pos as int)[0] == 0);
                        assert(false);
                    }
                }
            }
            if len - pos < 9 {
                proof {
                    if gexists {
                        assert(bytes@.skip(pos as int).len() >= 9);
                    }
                }
                return Err(crate::TrieError::DecodeError);
            }
            let hlen64 = read_len8(bytes, pos + 1);
            proof {
                if gexists {
                    let h = wcs[i as int]->0;
                    assert(le_bytes(h.len() as int, 8) =~= bytes@.subrange(pos + 1, pos + 9));
                    lemma_le_val_of_bytes(h.len() as int, 8);
                    assert(hlen64 as int == h.len());
                }
            }
            if hlen64 > (len - (pos + 9)) as u64 {
                return Err(crate::TrieError::DecodeError);
            }
            let hlen = hlen64 as usize;
            let h = take_range(bytes, pos + 9, pos + 9 + hlen);
            let ghost gh = h@;
            proof {
                lemma_le_bytes_of_val(bytes@.subrange(pos + 1, pos + 9));
                if gexists {
                    assert(gh =~= wcs[i as int]->0);
                }
            }
            children.push(Some(h));
            pos = pos + 9 + hlen;
            proof {
                assert(refs_view(children@) =~= refs_view(children_pre).push(Some(gh)));
                assert(stored_refs(refs_view(children@))
                    == stored_refs(refs_view(children_pre)) + stored_child_ref(Some(gh))) by {
                    assert(refs_view(children@).drop_last() =~= refs_view(children_pre));
                    assert(refs_view(children@).last() == Some(gh));
                };
                assert(bytes@.take(pos as int) =~= head + stored_refs(refs_view(children@)));
                if gexists {
                    assert(refs_view(children@) =~= wcs.take(i + 1));
                }
            }
        } else {
            proof {
                if gexists {
                    assert(bytes@.skip(pos as int)[0] == marker);
                    if wcs[i as int] is Some {
                        assert(bytes@.skip(pos as int)[0] == 1);
                    } else {
                        assert(bytes@.skip(pos as int)[0] == 0);
                    }
                    assert(false);
                }
            }
            return Err(crate::TrieError::DecodeError);
        }
        i = i + 1;
    }
    if pos != len {
        proof {
            if gexists {
                lemma_stored_refs_split(wcs, 16);
                assert(wcs.take(16) =~= wcs);
                assert(stored_refs_from(wcs, 16) =~= Seq::<u8>::empty());
                assert(bytes@.take(pos as int) =~= bytes@);
                assert(false);
            }
        }
        return Err(crate::TrieError::DecodeError);
    }
    proof {
        assert(bytes@.take(pos as int) =~= bytes@);
    }
    Ok(children)
}

} // verus!
