//! The node-level remove operation.
//!
//! `node_remove` deletes one key from a canonical subtree and collapses
//! whatever the deletion leaves degenerate: a branch whose value is gone
//! and which keeps a single child hands its path and slot nibble down to
//! that child; one that keeps only its value becomes a leaf again.
use vstd::prelude::*;

use crate::node::Node;
use crate::node::SpecNode;
use crate::node::child_canonical;
use crate::node::children_view;
use crate::node::count_filled;
use crate::node::node_canonical;
use crate::node::node_view;
use crate::node::opt_view;
use crate::node::strip;
use crate::node::valid_path;
use crate::ops::common_len;
use crate::ops::subrange_vec;
use crate::striplaws::lemma_append_skip;
use crate::striplaws::lemma_strip_compose;
use crate::striplaws::lemma_strip_remove_other;
use crate::striplaws::lemma_strip_remove_prefix;

verus! {

broadcast use {
    vstd::seq::axiom_seq_index_decreases,
    vstd::std_specs::vec::axiom_vec_index_decreases,
    vstd::std_specs::vec::axiom_vec_decreases_to_view,
    vstd::std_specs::vec::axiom_spec_len,
};

/// Two distinct occupied slots put the count at two or more.
proof fn lemma_count_filled_pair_lower(cs: Seq<Option<SpecNode>>, i: int, a: int, b: int)
    requires
        0 <= a < i,
        0 <= b < i,
        a != b,
        cs[a] is Some,
        cs[b] is Some,
    ensures
        count_filled(cs, i) >= 2,
    decreases i,
{
    if i - 1 == a {
        lemma_count_filled_some_lower(cs, i - 1, b);
    } else if i - 1 == b {
        lemma_count_filled_some_lower(cs, i - 1, a);
    } else {
        lemma_count_filled_pair_lower(cs, i - 1, a, b);
    }
}

/// An occupied slot puts the count at one or more.
proof fn lemma_count_filled_some_lower(cs: Seq<Option<SpecNode>>, i: int, a: int)
    requires
        0 <= a < i,
        cs[a] is Some,
    ensures
        count_filled(cs, i) >= 1,
    decreases i,
{
    if i - 1 != a {
        lemma_count_filled_some_lower(cs, i - 1, a);
    }
}

/// A count of one with a known occupied slot leaves every other slot empty.
proof fn lemma_count_filled_single(cs: Seq<Option<SpecNode>>, i: int)
    requires
        count_filled(cs, 16) <= 1,
        0 <= i < 16,
        cs[i] is Some,
    ensures
        forall|j: int| 0 <= j < 16 && j != i ==> cs[j] is None,
{
    assert forall|j: int| 0 <= j < 16 && j != i implies cs[j] is None by {
        if cs[j] is Some {
            lemma_count_filled_pair_lower(cs, 16, i, j);
        }
    };
}

/// A canonical leaf under a stripped prefix, when every key of the full
/// map extends the prefix, is canonical for the full map once the prefix
/// rejoins its path.
proof fn lemma_leaf_unshift(q: Seq<u8>, lp: Seq<u8>, lv: Seq<u8>, mu: Map<Seq<u8>, Seq<u8>>)
    requires
        node_canonical(SpecNode::Leaf { path: lp, value: lv }, strip(mu, q)),
        forall|k: Seq<u8>| #[trigger] mu.contains_key(k) ==> q.is_prefix_of(k),
        valid_path(q),
    ensures
        node_canonical(SpecNode::Leaf { path: q + lp, value: lv }, mu),
{
    assert(strip(mu, q) == map![lp => lv]);
    assert forall|k: Seq<u8>| true implies
        #[trigger] mu.contains_key(k) == map![q + lp => lv].contains_key(k) by {
        if mu.contains_key(k) {
            lemma_append_skip(q, k);
            assert(strip(mu, q).contains_key(k.skip(q.len() as int)));
            assert(k.skip(q.len() as int) == lp);
            assert(k == q + lp);
        } else {
            if k == q + lp {
                assert(strip(mu, q).contains_key(lp));
                assert(mu.contains_key(q + lp));
            }
        }
    };
    assert(strip(mu, q).contains_key(lp));
    assert(mu.contains_key(q + lp));
    assert(mu[q + lp] == strip(mu, q)[lp]);
    assert(mu =~= map![q + lp => lv]);
}

/// A canonical branch under a stripped prefix, when every key of the full
/// map extends the prefix, is canonical for the full map once the prefix
/// rejoins its path.
proof fn lemma_branch_unshift(
    q: Seq<u8>,
    bp: Seq<u8>,
    cc: Seq<Option<SpecNode>>,
    vv: Option<Seq<u8>>,
    mu: Map<Seq<u8>, Seq<u8>>,
)
    requires
        node_canonical(SpecNode::Branch { path: bp, children: cc, value: vv }, strip(mu, q)),
        forall|k: Seq<u8>| #[trigger] mu.contains_key(k) ==> q.is_prefix_of(k),
        valid_path(q),
    ensures
        node_canonical(SpecNode::Branch { path: q + bp, children: cc, value: vv }, mu),
{
    let ms = strip(mu, q);
    let p = q + bp;
    assert(valid_path(p));
    // every key carries the joined path as a prefix
    assert forall|k: Seq<u8>| #[trigger] mu.contains_key(k) implies p.is_prefix_of(k)
        && (k != p ==> k.len() > p.len() && k[p.len() as int] < 16) by {
        lemma_append_skip(q, k);
        let kr = k.skip(q.len() as int);
        assert(ms.contains_key(kr));
        assert(bp.is_prefix_of(kr));
        assert(p =~= k.subrange(0, p.len() as int));
        if k != p {
            assert(kr != bp) by {
                if kr == bp {
                    assert(k == q + bp);
                }
            };
            assert(kr.len() > bp.len() && kr[bp.len() as int] < 16);
            assert(k[p.len() as int] == kr[bp.len() as int]);
        }
    };
    // the value slot carries over
    assert(ms.contains_key(bp) == mu.contains_key(p)) by {
        if ms.contains_key(bp) {
            assert(mu.contains_key(q + bp));
        }
        if mu.contains_key(p) {
            lemma_append_skip(q, p);
            assert(p.skip(q.len() as int) == bp);
            assert(ms.contains_key(bp));
        }
    };
    if mu.contains_key(p) {
        assert(mu[p] == ms[bp]);
    }
    // each child keeps its sub-map
    assert forall|i: int| 0 <= i < 16 implies child_canonical(
        #[trigger] cc[i],
        strip(mu, p.push(i as u8)),
    ) by {
        lemma_strip_compose(mu, q, bp.push(i as u8));
        assert(q + bp.push(i as u8) =~= p.push(i as u8));
        assert(strip(mu, p.push(i as u8)) == strip(ms, bp.push(i as u8)));
    };
}

/// Counts the occupied child slots and reports the first occupied one.
fn scan_children(children: &Vec<Option<Box<Node>>>) -> (r: (usize, usize))
    requires
        children@.len() == 16,
    ensures
        r.0 == count_filled(children_view(children@), 16),
        r.0 > 0 ==> r.1 < 16 && children_view(children@)[r.1 as int] is Some,
{
    let ghost cs = children_view(children@);
    let mut count: usize = 0;
    let mut first: usize = 16;
    let mut i: usize = 0;
    while i < 16
        invariant
            i <= 16,
            children@.len() == 16,
            cs == children_view(children@),
            count == count_filled(cs, i as int),
            count <= i,
            count > 0 ==> first < 16 && cs[first as int] is Some,
        decreases 16 - i,
    {
        match &children[i] {
            Some(_) => {
                if count == 0 {
                    first = i;
                }
                count = count + 1;
            },
            None => {},
        }
        i = i + 1;
    }
    (count, first)
}

/// Joins a branch path, a slot nibble and a child's own path into one.
fn join_path(path: &Vec<u8>, i: u8, cp: &Vec<u8>) -> (r: Vec<u8>)
    ensures
        r@ == path@.push(i) + cp@,
{
    let mut r: Vec<u8> = Vec::new();
    let mut j: usize = 0;
    while j < path.len()
        invariant
            j <= path@.len(),
            r@ =~= path@.subrange(0, j as int),
        decreases path@.len() - j,
    {
        r.push(path[j]);
        j = j + 1;
        proof {
            assert(r@ =~= path@.subrange(0, j as int));
        }
    }
    r.push(i);
    let mut l: usize = 0;
    while l < cp.len()
        invariant
            l <= cp@.len(),
            r@ =~= path@.push(i) + cp@.subrange(0, l as int),
        decreases cp@.len() - l,
    {
        r.push(cp[l]);
        l = l + 1;
        proof {
            assert(r@ =~= path@.push(i) + cp@.subrange(0, l as int));
        }
    }
    proof {
        assert(r@ =~= path@.push(i) + cp@);
    }
    r
}

/// Hands a branch's path and a slot nibble down to that slot's child, the
/// collapse step that keeps no one-child, valueless branch.
fn promote_child(
    path: &Vec<u8>,
    i: u8,
    child: Box<Node>,
    Ghost(mu): Ghost<Map<Seq<u8>, Seq<u8>>>,
) -> (r: Box<Node>)
    requires
        node_canonical(node_view(*child), strip(mu, path@.push(i))),
        forall|k: Seq<u8>| #[trigger] mu.contains_key(k) ==> path@.push(i).is_prefix_of(k),
        valid_path(path@),
        i < 16,
    ensures
        node_canonical(node_view(*r), mu),
{
    let ghost q = path@.push(i);
    let ghost gv = node_view(*child);
    proof {
        assert(valid_path(q));
    }
    let node = *child;
    match node {
        Node::Leaf { path: cp, value: cv } => {
            let np = join_path(path, i, &cp);
            proof {
                assert(np@ =~= q + cp@);
                lemma_leaf_unshift(q, cp@, cv@, mu);
            }
            Box::new(Node::Leaf { path: np, value: cv })
        },
        Node::Branch { path: cp, children: cc, value: cval } => {
            let np = join_path(path, i, &cp);
            proof {
                assert(np@ =~= q + cp@);
                lemma_branch_unshift(q, cp@, children_view(cc@), gv->Branch_value, mu);
            }
            Box::new(Node::Branch { path: np, children: cc, value: cval })
        },
    }
}

/// Removes the key `nib[depth..]` from the subtree the slot stands for,
/// reporting whether it was present, and collapses any branch the removal
/// leaves with fewer than two occupants.
pub(crate) fn node_remove(
    c: Option<Box<Node>>,
    nib: &Vec<u8>,
    depth: usize,
    Ghost(m): Ghost<Map<Seq<u8>, Seq<u8>>>,
) -> (r: (Option<Box<Node>>, bool))
    requires
        child_canonical(opt_view(c), m),
        depth <= nib@.len(),
        valid_path(nib@),
    ensures
        r.1 == m.contains_key(nib@.skip(depth as int)),
        child_canonical(opt_view(r.0), m.remove(nib@.skip(depth as int))),
    decreases c,
{
    let ghost gc = c;
    let ghost rest = nib@.skip(depth as int);
    proof {
        vstd::std_specs::vec::axiom_spec_len(nib);
        assert(valid_path(rest));
    }
    match c {
        None => {
            proof {
                assert(m.remove(rest) =~= m);
            }
            (None, false)
        },
        Some(b) => {
            let ghost gnode = *b;
            let node = *b;
            match node {
                Node::Leaf { path, value } => {
                    let d = common_len(&path, nib, depth);
                    if d == path.len() && depth + d == nib.len() {
                        // the leaf holds exactly this key
                        proof {
                            assert(rest =~= path@);
                            assert(m == map![path@ => value@]);
                            assert(m.contains_key(rest));
                            assert(m.remove(rest) =~= Map::<Seq<u8>, Seq<u8>>::empty());
                        }
                        (None, true)
                    } else {
                        // the leaf holds a different key
                        proof {
                            assert(rest != path@) by {
                                if rest == path@ {
                                    assert(rest.len() == d || path@.len() == d);
                                    assert(rest =~= path@);
                                }
                            };
                            assert(!m.contains_key(rest));
                            assert(m.remove(rest) =~= m);
                        }
                        (Some(Box::new(Node::Leaf { path, value })), false)
                    }
                },
                Node::Branch { path, mut children, value } => {
                    let ghost bp = path@;
                    let ghost bvec0 = children@;
                    let ghost cs0 = children_view(children@);
                    let ghost v0 = node_view(gnode)->Branch_value;
                    proof {
                        assert(node_view(gnode) == SpecNode::Branch { path: bp, children: cs0, value: v0 });
                        assert(node_canonical(node_view(gnode), m));
                        assert(cs0.len() == 16);
                        assert(children@.len() == 16);
                    }
                    let d = common_len(&path, nib, depth);
                    if d == path.len() && depth + d == nib.len() {
                        // the key ends at this branch: it is present exactly
                        // when the branch holds a value
                        proof {
                            assert(rest =~= bp);
                        }
                        match value {
                            None => {
                                proof {
                                    assert(!m.contains_key(rest));
                                    assert(m.remove(rest) =~= m);
                                }
                                (Some(Box::new(Node::Branch { path, children, value: None })), false)
                            },
                            Some(_) => {
                                let ghost m2 = m.remove(rest);
                                proof {
                                    assert(m.contains_key(rest));
                                    assert(!m2.contains_key(bp));
                                    assert forall|j: int| 0 <= j < 16 implies
                                        #[trigger] strip(m2, bp.push(j as u8))
                                            == strip(m, bp.push(j as u8)) by {
                                        assert(!bp.push(j as u8).is_prefix_of(rest));
                                        lemma_strip_remove_other(m, bp.push(j as u8), rest);
                                    };
                                }
                                let (count, first) = scan_children(&children);
                                proof {
                                    assert(count_filled(cs0, 16) + 1 >= 2);
                                    assert(count >= 1);
                                }
                                if count >= 2 {
                                    // still at least two children: just drop the value
                                    let r = Box::new(Node::Branch { path, children, value: None });
                                    proof {
                                        assert(node_view(*r) == SpecNode::Branch { path: bp, children: cs0, value: None });
                                        assert(node_canonical(node_view(*r), m2));
                                    }
                                    (Some(r), true)
                                } else {
                                    // one child and no value left: it absorbs the
                                    // branch path and the slot nibble
                                    let ghost q = bp.push(first as u8);
                                    proof {
                                        lemma_count_filled_single(cs0, first as int);
                                        assert forall|k: Seq<u8>| #[trigger] m2.contains_key(k) implies
                                            q.is_prefix_of(k) by {
                                            assert(m.contains_key(k));
                                            assert(bp.is_prefix_of(k));
                                            assert(k != bp);
                                            let j = k[bp.len() as int] as int;
                                            assert(0 <= j < 16);
                                            assert(bp.push(j as u8) + k.skip(bp.len() + 1 as int) =~= k);
                                            assert(strip(m2, bp.push(j as u8)).contains_key(
                                                k.skip(bp.len() + 1 as int)));
                                            if j != first {
                                                assert(cs0[j] is None);
                                                assert(strip(m2, bp.push(j as u8))
                                                    == Map::<Seq<u8>, Seq<u8>>::empty());
                                                assert(false);
                                            }
                                        };
                                    }
                                    let taken = children[first].take();
                                    match taken {
                                        Some(cb) => {
                                            proof {
                                                assert(opt_view(Some(cb)) == cs0[first as int]);
                                                assert(node_canonical(node_view(*cb), strip(m2, q)));
                                            }
                                            let promoted = promote_child(&path, first as u8, cb, Ghost(m2));
                                            (Some(promoted), true)
                                        },
                                        None => {
                                            proof {
                                                assert(cs0[first as int] is Some);
                                                assert(false);
                                            }
                                            (None, true)
                                        },
                                    }
                                }
                            },
                        }
                    } else if d == path.len() {
                        // the key continues below this branch: descend into the
                        // slot its next nibble names
                        let idx = nib[depth + d] as usize;
                        let ghost pslot = bp.push(idx as u8);
                        let ghost mchild = strip(m, pslot);
                        proof {
                            assert(nib@[depth + d] < 16);
                            assert(child_canonical(cs0[idx as int], mchild));
                            assert(bp =~= rest.subrange(0, d as int));
                            assert(rest[d as int] == idx as u8);
                            assert(pslot =~= rest.subrange(0, d + 1 as int));
                            assert(pslot.is_prefix_of(rest));
                            assert(pslot + rest.skip(d + 1 as int) =~= rest);
                            assert(m.contains_key(rest) == mchild.contains_key(rest.skip(d + 1 as int)));
                        }
                        let cslot = children[idx].take();
                        proof {
                            assert(opt_view(cslot) == cs0[idx as int]);
                            assert(decreases_to!(gc => gc->0));
                            assert(decreases_to!(gnode => gnode->Branch_children));
                            assert(decreases_to!(gnode->Branch_children => gnode->Branch_children[idx as int]));
                            assert(cslot == gnode->Branch_children[idx as int]);
                            assert(decreases_to!(gc => cslot));
                        }
                        let (newslot, found) = node_remove(cslot, nib, depth + d + 1, Ghost(mchild));
                        let ghost nsv = opt_view(newslot);
                        proof {
                            assert(rest.skip(d + 1 as int) =~= nib@.skip(depth + d + 1));
                        }
                        if !found {
                            // nothing was removed: the subtree is unchanged
                            proof {
                                assert(mchild.remove(rest.skip(d + 1 as int)) =~= mchild);
                                crate::canon::lemma_canonical_unique(nsv, cs0[idx as int], mchild);
                                assert(!m.contains_key(rest));
                                assert(m.remove(rest) =~= m);
                            }
                            children[idx] = newslot;
                            let r = Box::new(Node::Branch { path, children, value });
                            proof {
                                assert(children@ =~= bvec0.update(idx as int, children@[idx as int]));
                                crate::ops::lemma_children_view_update(bvec0, idx as int, children@[idx as int]);
                                assert(children_view(children@) =~= cs0);
                                assert(node_view(*r) == SpecNode::Branch { path: bp, children: cs0, value: v0 });
                            }
                            (Some(r), false)
                        } else {
                            let ghost m2 = m.remove(rest);
                            proof {
                                assert(m.contains_key(rest));
                                lemma_strip_remove_prefix(m, pslot, rest);
                                assert(child_canonical(nsv, strip(m2, pslot)));
                                assert forall|j: int| 0 <= j < 16 && j != idx implies
                                    #[trigger] strip(m2, bp.push(j as u8))
                                        == strip(m, bp.push(j as u8)) by {
                                    assert(!bp.push(j as u8).is_prefix_of(rest)) by {
                                        if bp.push(j as u8).is_prefix_of(rest) {
                                            assert(bp.push(j as u8)[d as int] == rest[d as int]);
                                        }
                                    };
                                    lemma_strip_remove_other(m, bp.push(j as u8), rest);
                                };
                                assert(rest != bp);
                                assert(m2.contains_key(bp) == m.contains_key(bp));
                                // the descended slot was occupied, else nothing was found
                                assert(cs0[idx as int] is Some);
                            }
                            children[idx] = newslot;
                            let ghost cs1 = children_view(children@);
                            proof {
                                assert(children@ =~= bvec0.update(idx as int, children@[idx as int]));
                                crate::ops::lemma_children_view_update(bvec0, idx as int, children@[idx as int]);
                                assert(cs1 =~= cs0.update(idx as int, nsv));
                                crate::ops::lemma_count_filled_update(cs0, 16, idx as int, nsv);
                            }
                            let (count, first) = scan_children(&children);
                            let has_value = match &value {
                                Some(_) => true,
                                None => false,
                            };
                            if count >= 2 || (count == 1 && has_value) {
                                // the branch keeps at least two occupants
                                let r = Box::new(Node::Branch { path, children, value });
                                proof {
                                    assert(node_view(*r) == SpecNode::Branch { path: bp, children: cs1, value: v0 });
                                    assert(node_canonical(node_view(*r), m2));
                                }
                                (Some(r), true)
                            } else if count == 0 {
                                // only the branch's own value remains: back to a leaf
                                proof {
                                    assert(count_filled(cs0, 16) + (if v0 is Some { 1nat } else { 0nat }) >= 2);
                                    assert(v0 is Some);
                                    assert forall|k: Seq<u8>| #[trigger] m2.contains_key(k) implies
                                        k == bp by {
                                        assert(m.contains_key(k));
                                        assert(bp.is_prefix_of(k));
                                        if k != bp {
                                            let j = k[bp.len() as int] as int;
                                            assert(0 <= j < 16);
                                            assert(bp.push(j as u8) + k.skip(bp.len() + 1 as int) =~= k);
                                            assert(strip(m2, bp.push(j as u8)).contains_key(
                                                k.skip(bp.len() + 1 as int)));
                                            assert(child_canonical(cs1[j], strip(m2, bp.push(j as u8))));
                                            if cs1[j] is Some {
                                                lemma_count_filled_some_lower(cs1, 16, j);
                                            }
                                            assert(cs1[j] is None);
                                            assert(false);
                                        }
                                    };
                                }
                                match value {
                                    Some(v) => {
                                        proof {
                                            assert(m2.contains_key(bp) && m2[bp] == v@);
                                            assert(m2 =~= map![bp => v@]);
                                        }
                                        (Some(Box::new(Node::Leaf { path, value: v })), true)
                                    },
                                    None => {
                                        proof {
                                            assert(false);
                                        }
                                        (None, true)
                                    },
                                }
                            } else {
                                // a single child and no value: it absorbs the
                                // branch path and the slot nibble
                                let ghost q = bp.push(first as u8);
                                proof {
                                    assert(count == 1 && v0 is None);
                                    assert(cs1[first as int] is Some);
                                    assert(first != idx);
                                    lemma_count_filled_single(cs1, first as int);
                                    assert(strip(m2, q) == strip(m, q));
                                    assert forall|k: Seq<u8>| #[trigger] m2.contains_key(k) implies
                                        q.is_prefix_of(k) by {
                                        assert(m.contains_key(k));
                                        assert(bp.is_prefix_of(k));
                                        assert(k != bp);
                                        let j = k[bp.len() as int] as int;
                                        assert(0 <= j < 16);
                                        assert(bp.push(j as u8) + k.skip(bp.len() + 1 as int) =~= k);
                                        assert(strip(m2, bp.push(j as u8)).contains_key(
                                            k.skip(bp.len() + 1 as int)));
                                        if j != first {
                                            assert(child_canonical(cs1[j], strip(m2, bp.push(j as u8))));
                                            assert(cs1[j] is None);
                                            assert(false);
                                        }
                                    };
                                }
                                let taken = children[first].take();
                                match taken {
                                    Some(cb) => {
                                        proof {
                                            assert(opt_view(Some(cb)) == cs1[first as int]);
                                            assert(node_canonical(node_view(*cb), strip(m2, q)));
                                        }
                                        let promoted = promote_child(&path, first as u8, cb, Ghost(m2));
                                        (Some(promoted), true)
                                    },
                                    None => {
                                        proof {
                                            assert(false);
                                        }
                                        (None, true)
                                    },
                                }
                            }
                        }
                    } else {
                        // the branch path diverges from the key: it is absent
                        proof {
                            assert(!m.contains_key(rest)) by {
                                if m.contains_key(rest) {
                                    assert(bp.is_prefix_of(rest));
                                    assert(rest.len() >= bp.len());
                                    assert(d < bp.len());
                                    assert(bp[d as int] == rest[d as int]);
                                }
                            };
                            assert(m.remove(rest) =~= m);
                        }
                        (Some(Box::new(Node::Branch { path, children, value })), false)
                    }
                },
            }
        },
    }
}

} // verus!
