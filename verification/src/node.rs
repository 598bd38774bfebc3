//! Trie nodes and their mathematical model.
//!
//! A node is either a `Leaf`, holding the remaining nibble path of one key
//! and its value, or a `Branch`, holding a shared nibble prefix, sixteen
//! child slots indexed by the next nibble, and optionally a value for a key
//! that ends exactly at the branch.
//!
//! The model ties a node to the map it stands for (`node_canonical`): the
//! map decomposes along the node's path and child slots, and every branch
//! carries at least two occupants (children or a terminal value). A map has
//! at most one canonical node, which is what makes the root fingerprint a
//! function of the trie's contents.
use vstd::prelude::*;

verus! {

broadcast use {
    vstd::seq::axiom_seq_index_decreases,
    vstd::std_specs::vec::axiom_vec_index_decreases,
    vstd::std_specs::vec::axiom_vec_decreases_to_view,
};

#[allow(inconsistent_fields)]
pub enum Node {
    Leaf { path: Vec<u8>, value: Vec<u8> },
    Branch { path: Vec<u8>, children: Vec<Option<Box<Node>>>, value: Option<Vec<u8>> },
}

#[allow(inconsistent_fields)]
pub enum SpecNode {
    Leaf { path: Seq<u8>, value: Seq<u8> },
    Branch { path: Seq<u8>, children: Seq<Option<SpecNode>>, value: Option<Seq<u8>> },
}

pub open spec fn opt_view(c: Option<Box<Node>>) -> Option<SpecNode>
    decreases c,
{
    match c {
        None => None,
        Some(b) => Some(node_view(*b)),
    }
}

pub open spec fn children_view(cs: Seq<Option<Box<Node>>>) -> Seq<Option<SpecNode>>
    decreases cs,
{
    Seq::new(
        cs.len(),
        |i: int| if 0 <= i < cs.len() {
            opt_view(cs[i])
        } else {
            None
        },
    )
}

pub open spec fn node_view(n: Node) -> SpecNode
    decreases n,
{
    match n {
        Node::Leaf { path, value } => SpecNode::Leaf { path: path@, value: value@ },
        Node::Branch { path, children, value } => SpecNode::Branch {
            path: path@,
            children: children_view(children@),
            value: match value {
                None => None,
                Some(v) => Some(v@),
            },
        },
    }
}

impl View for Node {
    type V = SpecNode;

    open spec fn view(&self) -> SpecNode {
        node_view(*self)
    }
}

/// Every element of a nibble path is a nibble.
pub open spec fn valid_path(p: Seq<u8>) -> bool {
    forall|i: int| 0 <= i < p.len() ==> p[i] < 16
}

/// The sub-map of `m` holding every key that extends the prefix `p`,
/// re-keyed by the remainder after `p`.
pub open spec fn strip(m: Map<Seq<u8>, Seq<u8>>, p: Seq<u8>) -> Map<Seq<u8>, Seq<u8>> {
    Map::new(|k: Seq<u8>| m.contains_key(p + k), |k: Seq<u8>| m[p + k])
}

/// How many of the first `i` child slots are occupied.
pub open spec fn count_filled(cs: Seq<Option<SpecNode>>, i: int) -> nat
    decreases i,
{
    if i <= 0 {
        0
    } else {
        count_filled(cs, i - 1) + (if cs[i - 1] is Some { 1nat } else { 0nat })
    }
}

/// `n` is the canonical trie node for the nibble-keyed map `m`.
pub open spec fn node_canonical(n: SpecNode, m: Map<Seq<u8>, Seq<u8>>) -> bool
    decreases n,
{
    match n {
        SpecNode::Leaf { path, value } => {
            &&& valid_path(path)
            &&& m == map![path => value]
        },
        SpecNode::Branch { path, children, value } => {
            &&& valid_path(path)
            &&& children.len() == 16
            &&& (forall|k: Seq<u8>| #[trigger] m.contains_key(k) ==> path.is_prefix_of(k))
            &&& (match value {
                Some(v) => m.contains_key(path) && m[path] == v,
                None => !m.contains_key(path),
            })
            &&& (forall|k: Seq<u8>| #[trigger] m.contains_key(k) && k != path
                    ==> k.len() > path.len() && k[path.len() as int] < 16)
            &&& (forall|i: int| 0 <= i < 16
                    ==> child_canonical(#[trigger] children[i], strip(m, path.push(i as u8))))
            &&& count_filled(children, 16) + (if value is Some { 1nat } else { 0nat }) >= 2
        },
    }
}

/// An optional node slot is canonical for `m`: an empty slot stands for the
/// empty map, a filled one for the canonical node of `m`.
pub open spec fn child_canonical(c: Option<SpecNode>, m: Map<Seq<u8>, Seq<u8>>) -> bool
    decreases c,
{
    match c {
        None => m == Map::<Seq<u8>, Seq<u8>>::empty(),
        Some(n) => node_canonical(n, m),
    }
}

/// The value stored under the nibble path `k` in the subtree `n`, if any.
pub open spec fn lookup(n: SpecNode, k: Seq<u8>) -> Option<Seq<u8>>
    decreases k.len(),
{
    match n {
        SpecNode::Leaf { path, value } => if k == path {
            Some(value)
        } else {
            None
        },
        SpecNode::Branch { path, children, value } => {
            if k == path {
                value
            } else if path.is_prefix_of(k) && k.len() > path.len()
                && 0 <= k[path.len() as int] < children.len() {
                match children[k[path.len() as int] as int] {
                    None => None,
                    Some(c) => lookup(c, k.skip(path.len() + 1 as int)),
                }
            } else {
                None
            }
        },
    }
}

pub open spec fn opt_lookup(c: Option<SpecNode>, k: Seq<u8>) -> Option<Seq<u8>> {
    match c {
        None => None,
        Some(n) => lookup(n, k),
    }
}

/// The nibble-keyed map a subtree stands for, read off by lookup.
pub open spec fn map_of(c: Option<SpecNode>) -> Map<Seq<u8>, Seq<u8>> {
    Map::new(|k: Seq<u8>| opt_lookup(c, k) is Some, |k: Seq<u8>| opt_lookup(c, k)->0)
}

/// A length written as `k` little-endian bytes.
pub open spec fn le_bytes(v: int, k: nat) -> Seq<u8>
    decreases k,
{
    if k == 0 {
        Seq::empty()
    } else {
        seq![(v % 256) as u8] + le_bytes(v / 256, (k - 1) as nat)
    }
}

/// The canonical encoding of an optional value slot.
pub open spec fn value_bytes(v: Option<Seq<u8>>) -> Seq<u8> {
    match v {
        None => seq![0u8],
        Some(b) => seq![1u8] + le_bytes(b.len() as int, 8) + b,
    }
}

/// The canonical encoding of a node. A leaf encodes its path and value; a
/// branch encodes its path, its value slot, and one reference per child
/// slot, so the encoding commits to all sixteen slots.
pub open spec fn encode_of(n: SpecNode) -> Seq<u8>
    decreases n, 0int, 0int,
{
    match n {
        SpecNode::Leaf { path, value } => seq![1u8] + le_bytes(path.len() as int, 8) + path
            + le_bytes(value.len() as int, 8) + value,
        SpecNode::Branch { path, children, value } => seq![2u8]
            + le_bytes(path.len() as int, 8) + path + value_bytes(value)
            + children_refs(children, 16),
    }
}

/// The content hash of a node: the digest of its canonical encoding.
pub open spec fn hash_of(n: SpecNode) -> Seq<u8>
    decreases n, 1int, 0int,
{
    crate::hashing::blake2_of(encode_of(n))
}

/// The encoded references of the first `i` child slots: one byte for an
/// empty slot; a tag byte, the hash length and the child's hash for a
/// filled one, so the encoding is self-delimiting.
pub open spec fn children_refs(cs: Seq<Option<SpecNode>>, i: int) -> Seq<u8>
    decreases cs, 3int, i,
{
    if i <= 0 || i > cs.len() {
        Seq::empty()
    } else {
        children_refs(cs, i - 1) + child_ref(cs[i - 1])
    }
}

pub open spec fn child_ref(c: Option<SpecNode>) -> Seq<u8>
    decreases c, 2int, 0int,
{
    match c {
        None => seq![0u8],
        Some(n) => seq![1u8] + le_bytes(hash_of(n).len() as int, 8) + hash_of(n),
    }
}

/// Every (hash, encoding) pair a subtree contributes when it is committed
/// to a node store: children first, in slot order, then the node itself.
pub open spec fn entries_opt(c: Option<SpecNode>) -> Map<Seq<u8>, Seq<u8>>
    decreases c, 1int, 0int,
{
    match c {
        None => Map::empty(),
        Some(n) => node_entries(n),
    }
}

pub open spec fn node_entries(n: SpecNode) -> Map<Seq<u8>, Seq<u8>>
    decreases n, 2int, 0int,
{
    match n {
        SpecNode::Leaf { .. } => Map::empty().insert(hash_of(n), encode_of(n)),
        SpecNode::Branch { children, .. } => children_entries(children, 16).insert(
            hash_of(n),
            encode_of(n),
        ),
    }
}

pub open spec fn children_entries(cs: Seq<Option<SpecNode>>, i: int) -> Map<Seq<u8>, Seq<u8>>
    decreases cs, 0int, i,
{
    if i <= 0 || i > cs.len() {
        Map::empty()
    } else {
        children_entries(cs, i - 1).union_prefer_right(entries_opt(cs[i - 1]))
    }
}

/// A structurally valid node shape: every branch carries exactly sixteen
/// child slots.
pub open spec fn shaped_opt(c: Option<SpecNode>) -> bool
    decreases c, 1int,
{
    match c {
        None => true,
        Some(n) => shaped(n),
    }
}

pub open spec fn shaped(n: SpecNode) -> bool
    decreases n, 2int,
{
    match n {
        SpecNode::Leaf { .. } => true,
        SpecNode::Branch { children, .. } => {
            &&& children.len() == 16
            &&& forall|i: int| 0 <= i < 16 ==> shaped_opt(#[trigger] children[i])
        },
    }
}

/// No branch reachable from this slot has fewer than two occupants: the
/// shape that deletion's collapse step maintains.
pub open spec fn no_degenerate_opt(c: Option<SpecNode>) -> bool
    decreases c, 1int,
{
    match c {
        None => true,
        Some(n) => no_degenerate(n),
    }
}

pub open spec fn no_degenerate(n: SpecNode) -> bool
    decreases n, 2int,
{
    match n {
        SpecNode::Leaf { .. } => true,
        SpecNode::Branch { children, value, .. } => {
            &&& children.len() == 16
            &&& count_filled(children, 16) + (if value is Some { 1nat } else { 0nat }) >= 2
            &&& forall|i: int| 0 <= i < 16 ==> no_degenerate_opt(#[trigger] children[i])
        },
    }
}

} // verus!
