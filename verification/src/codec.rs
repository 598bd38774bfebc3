//! The executable canonical encoder and the node hash.
use vstd::prelude::*;

use crate::hashing::blake2_256;
use crate::node::Node;
use crate::node::child_ref;
use crate::node::children_refs;
use crate::node::children_view;
use crate::node::encode_of;
use crate::node::hash_of;
use crate::node::le_bytes;
use crate::node::node_view;
use crate::node::value_bytes;

verus! {

broadcast use {
    vstd::seq::axiom_seq_index_decreases,
    vstd::std_specs::vec::axiom_vec_index_decreases,
    vstd::std_specs::vec::axiom_vec_decreases_to_view,
    vstd::std_specs::vec::axiom_spec_len,
};

/// Appends a length as eight little-endian bytes.
#[verifier::loop_isolation(false)]
fn push_len(out: &mut Vec<u8>, l: usize)
    ensures
        final(out)@ == old(out)@ + le_bytes(l as int, 8),
{
    let mut x: usize = l;
    let mut i: usize = 0;
    while i < 8
        invariant
            i <= 8,
            out@ + le_bytes(x as int, (8 - i) as nat) == old(out)@ + le_bytes(l as int, 8),
        decreases 8 - i,
    {
        out.push((x % 256) as u8);
        x = x / 256;
        i = i + 1;
        proof {
            assert(out@ + le_bytes(x as int, (8 - i) as nat)
                =~= old(out)@ + le_bytes(l as int, 8));
        }
    }
    proof {
        assert(out@ + le_bytes(x as int, 0) =~= out@);
    }
}

/// Appends a byte sequence.
fn push_bytes(out: &mut Vec<u8>, b: &Vec<u8>)
    ensures
        final(out)@ == old(out)@ + b@,
{
    let mut i: usize = 0;
    while i < b.len()
        invariant
            i <= b@.len(),
            out@ =~= old(out)@ + b@.subrange(0, i as int),
        decreases b@.len() - i,
    {
        out.push(b[i]);
        i = i + 1;
        proof {
            assert(out@ =~= old(out)@ + b@.subrange(0, i as int));
        }
    }
    proof {
        assert(out@ =~= old(out)@ + b@);
    }
}

/// Copies a byte vector.
pub(crate) fn copy_bytes(b: &Vec<u8>) -> (r: Vec<u8>)
    ensures
        r@ == b@,
{
    let mut r: Vec<u8> = Vec::new();
    push_bytes(&mut r, b);
    proof {
        assert(r@ =~= b@);
    }
    r
}

/// Serializes a node in the canonical encoding.
#[verifier::loop_isolation(false)]
pub(crate) fn encode_node(n: &Node) -> (r: Vec<u8>)
    requires
        crate::node::shaped(node_view(*n)),
    ensures
        r@ == encode_of(node_view(*n)),
    decreases *n, 0int,
{
    let mut out: Vec<u8> = Vec::new();
    match n {
        Node::Leaf { path, value } => {
            out.push(1u8);
            push_len(&mut out, path.len());
            push_bytes(&mut out, path);
            push_len(&mut out, value.len());
            push_bytes(&mut out, value);
            proof {
                assert(out@ =~= seq![1u8] + le_bytes(path@.len() as int, 8) + path@
                    + le_bytes(value@.len() as int, 8) + value@);
            }
            out
        },
        Node::Branch { path, children, value } => {
            out.push(2u8);
            push_len(&mut out, path.len());
            push_bytes(&mut out, path);
            match value {
                None => {
                    out.push(0u8);
                },
                Some(v) => {
                    out.push(1u8);
                    push_len(&mut out, v.len());
                    push_bytes(&mut out, v);
                },
            }
            let ghost vv = node_view(*n)->Branch_value;
            let ghost head = seq![2u8] + le_bytes(path@.len() as int, 8) + path@
                + value_bytes(vv);
            proof {
                assert(out@ =~= head);
            }
            let ghost cs = children_view(children@);
            let mut i: usize = 0;
            while i < 16
                invariant
                    i <= 16,
                    children@.len() == 16,
                    out@ == head + children_refs(cs, i as int),
                decreases 16 - i,
            {
                match &children[i] {
                    None => {
                        out.push(0u8);
                        proof {
                            assert(child_ref(cs[i as int]) =~= seq![0u8]);
                            assert(out@ =~= head + (children_refs(cs, i as int)
                                + child_ref(cs[i as int])));
                        }
                    },
                    Some(c) => {
                        proof {
                            assert(decreases_to!(*n => (*n)->children));
                            assert(decreases_to!(*children => children@[i as int]));
                            assert(decreases_to!(*n => **c));
                        }
                        out.push(1u8);
                        let h = node_hash(c);
                        push_len(&mut out, h.len());
                        push_bytes(&mut out, &h);
                        proof {
                            assert(cs[i as int] == Some(node_view(**c)));
                            assert(child_ref(cs[i as int]) =~= seq![1u8]
                                + le_bytes(hash_of(node_view(**c)).len() as int, 8)
                                + hash_of(node_view(**c)));
                            assert(out@ =~= head + (children_refs(cs, i as int)
                                + child_ref(cs[i as int])));
                        }
                    },
                }
                i = i + 1;
                proof {
                    assert(children_refs(cs, i as int) =~= children_refs(cs, i - 1)
                        + child_ref(cs[i - 1]));
                    assert(out@ =~= head + children_refs(cs, i as int));
                }
            }
            proof {
                assert(out@ =~= encode_of(node_view(*n)));
            }
            out
        },
    }
}

/// The content hash of a node: the digest of its canonical encoding.
pub(crate) fn node_hash(n: &Node) -> (r: Vec<u8>)
    requires
        crate::node::shaped(node_view(*n)),
    ensures
        r@ == hash_of(node_view(*n)),
        r@.len() == 32,
    decreases *n, 1int,
{
    let e = encode_node(n);
    blake2_256(e.as_slice())
}

} // verus!
