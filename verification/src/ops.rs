//! The node-level insert operation.
//!
//! `node_insert` rebuilds the canonical subtree for a map extended by one
//! key: walking the nibble path, splitting a leaf or a branch prefix at the
//! first divergence, and descending into a child slot where the branch
//! prefix matches.
use vstd::prelude::*;

use crate::node::Node;
use crate::node::SpecNode;
use crate::node::child_canonical;
use crate::node::children_view;
use crate::node::count_filled;
use crate::node::node_canonical;
use crate::node::node_view;
use crate::node::opt_view;
use crate::node::strip;
use crate::node::valid_path;
use crate::striplaws::lemma_strip_compose;
use crate::striplaws::lemma_strip_insert_other;
use crate::striplaws::lemma_strip_insert_prefix;
use crate::striplaws::lemma_strip_singleton;

verus! {

broadcast use {
    vstd::seq::axiom_seq_index_decreases,
    vstd::std_specs::vec::axiom_vec_index_decreases,
    vstd::std_specs::vec::axiom_vec_decreases_to_view,
    vstd::std_specs::vec::axiom_spec_len,
};

/// Copies `v[from..to]` into a fresh vector.
pub(crate) fn subrange_vec(v: &Vec<u8>, from: usize, to: usize) -> (r: Vec<u8>)
    requires
        from <= to <= v@.len(),
    ensures
        r@ == v@.subrange(from as int, to as int),
{
    let mut r: Vec<u8> = Vec::new();
    let mut i: usize = from;
    while i < to
        invariant
            from <= i <= to <= v@.len(),
            r@ =~= v@.subrange(from as int, i as int),
        decreases to - i,
    {
        r.push(v[i]);
        i = i + 1;
        proof {
            assert(r@ =~= v@.subrange(from as int, i as int));
        }
    }
    r
}

/// Sixteen empty child slots.
pub(crate) fn new_children() -> (r: Vec<Option<Box<Node>>>)
    ensures
        r@.len() == 16,
        forall|i: int| 0 <= i < 16 ==> r@[i] is None,
{
    let mut r: Vec<Option<Box<Node>>> = Vec::new();
    let mut i: usize = 0;
    while i < 16
        invariant
            i <= 16,
            r@.len() == i,
            forall|j: int| 0 <= j < i ==> r@[j] is None,
        decreases 16 - i,
    {
        r.push(None);
        i = i + 1;
    }
    r
}

/// The length of the longest common prefix of `a` and `b[b_from..]`.
#[verifier::loop_isolation(false)]
pub(crate) fn common_len(a: &Vec<u8>, b: &Vec<u8>, b_from: usize) -> (d: usize)
    requires
        b_from <= b@.len(),
    ensures
        d <= a@.len(),
        b_from + d <= b@.len(),
        forall|i: int| 0 <= i < d ==> a@[i] == b@[b_from + i],
        d < a@.len() && b_from + d < b@.len() ==> a@[d as int] != b@[b_from + d],
    decreases a@.len(),
{
    proof {
        vstd::std_specs::vec::axiom_spec_len(b);
    }
    let mut d: usize = 0;
    while d < a.len() && b_from + d < b.len() && a[d] == b[b_from + d]
        invariant
            d <= a@.len(),
            b_from + d <= b@.len(),
            forall|i: int| 0 <= i < d ==> a@[i] == b@[b_from + i],
        decreases a@.len() - d,
    {
        d = d + 1;
    }
    d
}

/// An occupancy count is unchanged outside the updated slot and follows the
/// slot inside.
pub(crate) proof fn lemma_count_filled_update(cs: Seq<Option<SpecNode>>, i: int, j: int, x: Option<SpecNode>)
    requires
        0 <= j < cs.len(),
        i <= cs.len(),
    ensures
        j < i ==> count_filled(cs.update(j, x), i) as int == count_filled(cs, i) as int
            + (if x is Some { 1int } else { 0int })
            - (if cs[j] is Some { 1int } else { 0int }),
        j >= i ==> count_filled(cs.update(j, x), i) == count_filled(cs, i),
    decreases i,
{
    if i > 0 {
        lemma_count_filled_update(cs, i - 1, j, x);
        if j == i - 1 {
            assert(cs.update(j, x)[i - 1] == x);
        } else {
            assert(cs.update(j, x)[i - 1] == cs[i - 1]);
        }
    }
}

/// Updating one slot updates the slot's view and nothing else.
pub(crate) proof fn lemma_children_view_update(cs: Seq<Option<Box<Node>>>, j: int, x: Option<Box<Node>>)
    requires
        0 <= j < cs.len(),
    ensures
        children_view(cs.update(j, x)) == children_view(cs).update(j, opt_view(x)),
{
    assert(children_view(cs.update(j, x)) =~= children_view(cs).update(j, opt_view(x)));
}

/// A branch stays canonical when a shared lead of its own path moves out
/// into the surrounding prefix.
proof fn lemma_branch_shift(
    path: Seq<u8>,
    cs: Seq<Option<SpecNode>>,
    v: Option<Seq<u8>>,
    m: Map<Seq<u8>, Seq<u8>>,
    t: int,
)
    requires
        node_canonical(SpecNode::Branch { path: path, children: cs, value: v }, m),
        0 <= t <= path.len(),
    ensures
        node_canonical(
            SpecNode::Branch { path: path.skip(t), children: cs, value: v },
            strip(m, path.take(t)),
        ),
{
    let p1 = path.take(t);
    let p2 = path.skip(t);
    let ms = strip(m, p1);
    assert(p1 + p2 =~= path);
    // every key of the sub-map still carries the shortened path as a prefix
    assert forall|q: Seq<u8>| #[trigger] ms.contains_key(q) implies p2.is_prefix_of(q)
        && (q != p2 ==> q.len() > p2.len() && q[p2.len() as int] < 16) by {
        assert(m.contains_key(p1 + q));
        assert(path.is_prefix_of(p1 + q));
        assert(p2 =~= (p1 + q).subrange(t, path.len() as int));
        assert(p2.is_prefix_of(q));
        if q != p2 {
            assert(p1 + q != path) by {
                if p1 + q == path {
                    assert(q =~= (p1 + q).skip(t));
                    assert(q == p2);
                }
            };
            assert((p1 + q).len() > path.len());
            assert((p1 + q)[path.len() as int] < 16);
            assert(q[p2.len() as int] == (p1 + q)[path.len() as int]);
        }
    };
    // the value slot carries over
    assert(ms.contains_key(p2) == m.contains_key(path)) by {
        assert(p1 + p2 == path);
    };
    if m.contains_key(path) {
        assert(ms[p2] == m[path]);
    }
    // each child slot's sub-map is unchanged
    assert forall|i: int| 0 <= i < 16 implies child_canonical(
        #[trigger] cs[i],
        strip(ms, p2.push(i as u8)),
    ) by {
        lemma_strip_compose(m, p1, p2.push(i as u8));
        assert(p1 + p2.push(i as u8) =~= path.push(i as u8));
        assert(strip(ms, p2.push(i as u8)) == strip(m, path.push(i as u8)));
    };
}

/// The sub-map of a prefix that no key extends is empty.
proof fn lemma_strip_no_prefix_empty(m: Map<Seq<u8>, Seq<u8>>, p: Seq<u8>)
    requires
        forall|k: Seq<u8>| #[trigger] m.contains_key(k) ==> !p.is_prefix_of(k),
    ensures
        strip(m, p) == Map::<Seq<u8>, Seq<u8>>::empty(),
{
    assert forall|q: Seq<u8>| true implies !(#[trigger] strip(m, p).contains_key(q)) by {
        if m.contains_key(p + q) {
            assert(p =~= (p + q).subrange(0, p.len() as int));
            assert(p.is_prefix_of(p + q));
        }
    };
    assert(strip(m, p) =~= Map::<Seq<u8>, Seq<u8>>::empty());
}

/// Canonicity of a branch holding one key that ends at the branch (as its
/// value) and one key that continues below a child slot.
proof fn lemma_two_keys_one_ends(
    kend: Seq<u8>,
    vend: Seq<u8>,
    kdeep: Seq<u8>,
    vdeep: Seq<u8>,
    cs: Seq<Option<SpecNode>>,
)
    requires
        valid_path(kend),
        valid_path(kdeep),
        kend.is_prefix_of(kdeep),
        kdeep.len() > kend.len(),
        cs.len() == 16,
        forall|j: int| 0 <= j < 16 && j != kdeep[kend.len() as int]
            ==> #[trigger] cs[j] is None,
        cs[kdeep[kend.len() as int] as int] == Some(
            SpecNode::Leaf { path: kdeep.skip(kend.len() + 1 as int), value: vdeep },
        ),
    ensures
        node_canonical(
            SpecNode::Branch { path: kend, children: cs, value: Some(vend) },
            map![kend => vend].insert(kdeep, vdeep),
        ),
{
    let mm = map![kend => vend].insert(kdeep, vdeep);
    let i = kdeep[kend.len() as int] as int;
    let pn = kend.push(i as u8);
    assert(kend != kdeep);
    assert(forall|k: Seq<u8>| #[trigger] mm.contains_key(k) ==> k == kend || k == kdeep);
    assert(mm.contains_key(kend) && mm[kend] == vend);
    assert(mm.contains_key(kdeep) && mm[kdeep] == vdeep);
    assert(pn =~= kdeep.subrange(0, kend.len() + 1 as int));
    assert(pn.is_prefix_of(kdeep));
    // the occupied slot holds exactly the continuing key's remainder
    lemma_strip_insert_prefix(map![kend => vend], pn, kdeep, vdeep);
    lemma_strip_singleton(kend, vend, pn);
    assert(strip(map![kend => vend], pn) =~= Map::<Seq<u8>, Seq<u8>>::empty());
    assert(strip(mm, pn) =~= map![kdeep.skip(kend.len() + 1 as int) => vdeep]);
    assert(node_canonical(cs[i]->0, strip(mm, pn)));
    // every other slot is empty
    assert forall|j: int| 0 <= j < 16 && j != i implies child_canonical(
        #[trigger] cs[j],
        strip(mm, kend.push(j as u8)),
    ) by {
        let pj = kend.push(j as u8);
        assert forall|k: Seq<u8>| #[trigger] mm.contains_key(k) implies !pj.is_prefix_of(k) by {
            if pj.is_prefix_of(kend) {
                assert(pj.len() > kend.len());
                assert(false);
            }
            if pj.is_prefix_of(kdeep) {
                assert(pj[kend.len() as int] == kdeep[kend.len() as int]);
                assert(false);
            }
        };
        lemma_strip_no_prefix_empty(mm, pj);
    };
    lemma_count_filled_at_most_one_pub(cs, 16, i);
    assert(count_filled(cs, 16) == 1);
}

/// Canonicity of a branch holding two keys that continue past the shared
/// prefix with different nibbles, one in each of two child slots.
proof fn lemma_two_keys_diverge(
    pfx: Seq<u8>,
    k1: Seq<u8>,
    v1: Seq<u8>,
    k2: Seq<u8>,
    v2: Seq<u8>,
    cs: Seq<Option<SpecNode>>,
)
    requires
        valid_path(pfx),
        valid_path(k1),
        valid_path(k2),
        pfx.is_prefix_of(k1),
        pfx.is_prefix_of(k2),
        k1.len() > pfx.len(),
        k2.len() > pfx.len(),
        k1[pfx.len() as int] != k2[pfx.len() as int],
        cs.len() == 16,
        forall|j: int| 0 <= j < 16 && j != k1[pfx.len() as int] && j != k2[pfx.len() as int]
            ==> #[trigger] cs[j] is None,
        cs[k1[pfx.len() as int] as int] == Some(
            SpecNode::Leaf { path: k1.skip(pfx.len() + 1 as int), value: v1 },
        ),
        cs[k2[pfx.len() as int] as int] == Some(
            SpecNode::Leaf { path: k2.skip(pfx.len() + 1 as int), value: v2 },
        ),
    ensures
        node_canonical(
            SpecNode::Branch { path: pfx, children: cs, value: None },
            map![k1 => v1].insert(k2, v2),
        ),
{
    let mm = map![k1 => v1].insert(k2, v2);
    let i1 = k1[pfx.len() as int] as int;
    let i2 = k2[pfx.len() as int] as int;
    assert(k1 != k2);
    assert(forall|k: Seq<u8>| #[trigger] mm.contains_key(k) ==> k == k1 || k == k2);
    assert(mm.contains_key(k1) && mm[k1] == v1);
    assert(mm.contains_key(k2) && mm[k2] == v2);
    assert(!mm.contains_key(pfx));
    let p1 = pfx.push(i1 as u8);
    let p2 = pfx.push(i2 as u8);
    assert(p1 =~= k1.subrange(0, pfx.len() + 1 as int));
    assert(p2 =~= k2.subrange(0, pfx.len() + 1 as int));
    assert(p1.is_prefix_of(k1));
    assert(p2.is_prefix_of(k2));
    // slot of the first key
    assert(!p1.is_prefix_of(k2)) by {
        if p1.is_prefix_of(k2) {
            assert(p1[pfx.len() as int] == k2[pfx.len() as int]);
        }
    };
    lemma_strip_insert_other(map![k1 => v1], p1, k2, v2);
    lemma_strip_singleton(k1, v1, p1);
    assert(strip(mm, p1) =~= map![k1.skip(pfx.len() + 1 as int) => v1]);
    assert(node_canonical(cs[i1]->0, strip(mm, p1)));
    // slot of the second key
    assert(!p2.is_prefix_of(k1)) by {
        if p2.is_prefix_of(k1) {
            assert(p2[pfx.len() as int] == k1[pfx.len() as int]);
        }
    };
    lemma_strip_insert_prefix(map![k1 => v1], p2, k2, v2);
    lemma_strip_singleton(k1, v1, p2);
    assert(strip(map![k1 => v1], p2) =~= Map::<Seq<u8>, Seq<u8>>::empty());
    assert(strip(mm, p2) =~= map![k2.skip(pfx.len() + 1 as int) => v2]);
    assert(node_canonical(cs[i2]->0, strip(mm, p2)));
    // every other slot is empty
    assert forall|j: int| 0 <= j < 16 && j != i1 && j != i2 implies child_canonical(
        #[trigger] cs[j],
        strip(mm, pfx.push(j as u8)),
    ) by {
        let pj = pfx.push(j as u8);
        assert forall|k: Seq<u8>| #[trigger] mm.contains_key(k) implies !pj.is_prefix_of(k) by {
            if pj.is_prefix_of(k1) {
                assert(pj[pfx.len() as int] == k1[pfx.len() as int]);
                assert(false);
            }
            if pj.is_prefix_of(k2) {
                assert(pj[pfx.len() as int] == k2[pfx.len() as int]);
                assert(false);
            }
        };
        lemma_strip_no_prefix_empty(mm, pj);
    };
    lemma_count_filled_two(cs, 16, i1, i2);
}

/// A public face of the at-most-one count lemma for exactly one slot.
proof fn lemma_count_filled_at_most_one_pub(cs: Seq<Option<SpecNode>>, i: int, d: int)
    requires
        forall|j: int| 0 <= j < i && j != d ==> #[trigger] cs[j] is None,
    ensures
        count_filled(cs, i) == if 0 <= d < i && cs[d] is Some {
            1nat
        } else {
            0nat
        },
    decreases i,
{
    if i > 0 {
        lemma_count_filled_at_most_one_pub(cs, i - 1, d);
    }
}

/// Exactly two occupied slots count two.
proof fn lemma_count_filled_two(cs: Seq<Option<SpecNode>>, i: int, a: int, b: int)
    requires
        a != b,
        forall|j: int| 0 <= j < i && j != a && j != b ==> #[trigger] cs[j] is None,
    ensures
        count_filled(cs, i) == (if 0 <= a < i && cs[a] is Some { 1nat } else { 0nat })
            + (if 0 <= b < i && cs[b] is Some { 1nat } else { 0nat }),
    decreases i,
{
    if i > 0 {
        lemma_count_filled_two(cs, i - 1, a, b);
    }
}


/// Splits a leaf whose path diverges from the inserted key: a branch takes
/// the shared prefix, and each of the two terminal paths lands in a child
/// slot or in the branch's own value slot.
fn split_leaf(
    lpath: Vec<u8>,
    lval: Vec<u8>,
    nib: &Vec<u8>,
    depth: usize,
    d: usize,
    val: Vec<u8>,
    Ghost(m): Ghost<Map<Seq<u8>, Seq<u8>>>,
) -> (r: Box<Node>)
    requires
        m == map![lpath@ => lval@],
        valid_path(lpath@),
        valid_path(nib@),
        depth <= nib@.len(),
        d <= lpath@.len(),
        depth + d <= nib@.len(),
        forall|i: int| 0 <= i < d ==> lpath@[i] == nib@[depth + i],
        d < lpath@.len() && depth + d < nib@.len() ==> lpath@[d as int] != nib@[depth + d],
        !(d == lpath@.len() && depth + d == nib@.len()),
    ensures
        node_canonical(node_view(*r), m.insert(nib@.skip(depth as int), val@)),
{
    let ghost lp = lpath@;
    let ghost rest = nib@.skip(depth as int);
    let ghost mm = m.insert(rest, val@);
    proof {
        vstd::std_specs::vec::axiom_spec_len(nib);
        assert(valid_path(rest));
        assert(rest != lp) by {
            if rest == lp {
                assert(rest.len() == d || lp.len() == d);
                assert(lp =~= rest);
            }
        };
    }
    let prefix = subrange_vec(&lpath, 0, d);
    let ghost pfx = prefix@;
    proof {
        assert(pfx =~= lp.subrange(0, d as int));
        assert(pfx.is_prefix_of(lp));
        assert(pfx =~= rest.subrange(0, d as int));
        assert(pfx.is_prefix_of(rest));
    }
    let mut children = new_children();
    let ghost bvec = children@;
    let ghost base = children_view(children@);
    proof {
        assert(forall|j: int| 0 <= j < 16 ==> #[trigger] base[j] is None);
    }
    if d == lpath.len() {
        // the old leaf's key ends at the branch: it becomes the branch
        // value, and the new key goes on alone in a child slot
        let inew = nib[depth + d] as usize;
        let cpath = subrange_vec(nib, depth + d + 1, nib.len());
        proof {
            assert(pfx =~= lp);
            assert(rest[d as int] == nib@[depth + d]);
            assert(rest[d as int] < 16);
            assert(cpath@ =~= rest.skip(d + 1 as int));
        }
        let child = Box::new(Node::Leaf { path: cpath, value: val });
        let ghost cv = opt_view(Some(child));
        children[inew] = Some(child);
        let r = Box::new(Node::Branch { path: prefix, children, value: Some(lval) });
        proof {
            lemma_children_view_update(bvec, inew as int, children@[inew as int]);
            let cs = children_view(children@);
            assert(cs =~= base.update(inew as int, cv));
            lemma_two_keys_one_ends(lp, lval@, rest, val@, cs);
            assert(node_view(*r) == SpecNode::Branch { path: lp, children: cs, value: Some(lval@) });
            assert(mm == map![lp => lval@].insert(rest, val@));
        }
        r
    } else if depth + d == nib.len() {
        // the new key ends at the branch: it becomes the branch value, and
        // the old leaf moves down one slot with a shortened path
        let iold = lpath[d] as usize;
        let cpath = subrange_vec(&lpath, d + 1, lpath.len());
        proof {
            assert(pfx =~= rest);
            assert(lp[d as int] < 16);
            assert(cpath@ =~= lp.skip(d + 1 as int));
        }
        let child = Box::new(Node::Leaf { path: cpath, value: lval });
        let ghost cv = opt_view(Some(child));
        children[iold] = Some(child);
        let r = Box::new(Node::Branch { path: prefix, children, value: Some(val) });
        proof {
            lemma_children_view_update(bvec, iold as int, children@[iold as int]);
            let cs = children_view(children@);
            assert(cs =~= base.update(iold as int, cv));
            lemma_two_keys_one_ends(rest, val@, lp, lval@, cs);
            assert(node_view(*r) == SpecNode::Branch { path: rest, children: cs, value: Some(val@) });
            assert(mm =~= map![rest => val@].insert(lp, lval@));
        }
        r
    } else {
        // both keys continue past the shared prefix with different nibbles
        let iold = lpath[d] as usize;
        let inew = nib[depth + d] as usize;
        let opath = subrange_vec(&lpath, d + 1, lpath.len());
        let npath = subrange_vec(nib, depth + d + 1, nib.len());
        proof {
            assert(lp[d as int] < 16);
            assert(rest[d as int] == nib@[depth + d]);
            assert(rest[d as int] < 16);
            assert(iold != inew);
            assert(opath@ =~= lp.skip(d + 1 as int));
            assert(npath@ =~= rest.skip(d + 1 as int));
        }
        let oldchild = Box::new(Node::Leaf { path: opath, value: lval });
        let newchild = Box::new(Node::Leaf { path: npath, value: val });
        let ghost ov = opt_view(Some(oldchild));
        let ghost nv = opt_view(Some(newchild));
        children[iold] = Some(oldchild);
        let ghost bvec2 = children@;
        children[inew] = Some(newchild);
        let r = Box::new(Node::Branch { path: prefix, children, value: None });
        proof {
            lemma_children_view_update(bvec, iold as int, bvec2[iold as int]);
            lemma_children_view_update(bvec2, inew as int, children@[inew as int]);
            let cs = children_view(children@);
            assert(cs =~= base.update(iold as int, ov).update(inew as int, nv));
            lemma_two_keys_diverge(pfx, lp, lval@, rest, val@, cs);
            assert(node_view(*r) == SpecNode::Branch { path: pfx, children: cs, value: None });
            assert(mm == map![lp => lval@].insert(rest, val@));
        }
        r
    }
}

/// Canonicity of a one-child branch made by pushing a branch's own path
/// split down into a child slot, with the inserted key ending at the new
/// branch.
///
/// Rebuilds the canonical subtree for the slot's map extended by the key
/// `nib[depth..]` mapped to `val`. An empty slot becomes a leaf; a leaf is
/// replaced or split; a branch takes the value, descends into a child
/// slot, or splits its own path, whichever the shared prefix calls for.
#[verifier::rlimit(60)]
pub(crate) fn node_insert(
    c: Option<Box<Node>>,
    nib: &Vec<u8>,
    depth: usize,
    val: Vec<u8>,
    Ghost(m): Ghost<Map<Seq<u8>, Seq<u8>>>,
) -> (r: Box<Node>)
    requires
        child_canonical(opt_view(c), m),
        depth <= nib@.len(),
        valid_path(nib@),
    ensures
        node_canonical(node_view(*r), m.insert(nib@.skip(depth as int), val@)),
    decreases c,
{
    let ghost gc = c;
    let ghost rest = nib@.skip(depth as int);
    let ghost mm = m.insert(rest, val@);
    proof {
        vstd::std_specs::vec::axiom_spec_len(nib);
        assert(valid_path(rest));
    }
    match c {
        None => {
            // an empty slot: the key stands alone in a leaf
            let path = subrange_vec(nib, depth, nib.len());
            proof {
                assert(path@ =~= rest);
                assert(mm =~= map![rest => val@]);
            }
            Box::new(Node::Leaf { path, value: val })
        },
        Some(b) => {
            let ghost gnode = *b;
            let node = *b;
            match node {
                Node::Leaf { path, value } => {
                    let d = common_len(&path, nib, depth);
                    if d == path.len() && depth + d == nib.len() {
                        // the key is already present: replace its value
                        proof {
                            assert(rest =~= path@);
                            assert(mm =~= map![path@ => val@]);
                        }
                        Box::new(Node::Leaf { path, value: val })
                    } else {
                        split_leaf(path, value, nib, depth, d, val, Ghost(m))
                    }
                },
                Node::Branch { path, mut children, value } => {
                    let ghost bp = path@;
                    let ghost bvec0 = children@;
                    let ghost cs0 = children_view(children@);
                    let ghost v0 = node_view(gnode)->Branch_value;
                    proof {
                        assert(node_view(gnode) == SpecNode::Branch { path: bp, children: cs0, value: v0 });
                        assert(node_canonical(node_view(gnode), m));
                        assert(cs0.len() == 16);
                        assert(children@.len() == 16);
                    }
                    let d = common_len(&path, nib, depth);
                    if d == path.len() && depth + d == nib.len() {
                        // the key ends exactly at this branch: it takes the
                        // branch's value slot
                        let r = Box::new(Node::Branch { path, children, value: Some(val) });
                        proof {
                            assert(rest =~= bp);
                            assert forall|i: int| 0 <= i < 16 implies child_canonical(
                                #[trigger] cs0[i],
                                strip(mm, bp.push(i as u8)),
                            ) by {
                                assert(!bp.push(i as u8).is_prefix_of(bp));
                                lemma_strip_insert_other(m, bp.push(i as u8), rest, val@);
                            };
                            assert(count_filled(cs0, 16) >= 1);
                            assert(node_view(*r) == SpecNode::Branch { path: bp, children: cs0, value: Some(val@) });
                            assert(node_canonical(node_view(*r), mm));
                        }
                        r
                    } else if d == path.len() {
                        // the key continues below this branch: descend into
                        // the slot its next nibble names
                        let idx = nib[depth + d] as usize;
                        let ghost pslot = bp.push(idx as u8);
                        let ghost mchild = strip(m, pslot);
                        proof {
                            assert(nib@[depth + d] < 16);
                            assert(child_canonical(cs0[idx as int], mchild));
                        }
                        let cslot = children[idx].take();
                        proof {
                            assert(opt_view(cslot) == cs0[idx as int]);
                            assert(decreases_to!(gc => gc->0));
                            assert(decreases_to!(gnode => gnode->Branch_children));
                            assert(decreases_to!(gnode->Branch_children => gnode->Branch_children[idx as int]));
                            assert(cslot == gnode->Branch_children[idx as int]);
                            assert(decreases_to!(gc => cslot));
                        }
                        let nb = node_insert(cslot, nib, depth + d + 1, val, Ghost(mchild));
                        let ghost nbv = node_view(*nb);
                        children[idx] = Some(nb);
                        let r = Box::new(Node::Branch { path, children, value });
                        proof {
                            assert(children@ =~= bvec0.update(idx as int, children@[idx as int]));
                            lemma_children_view_update(bvec0, idx as int, children@[idx as int]);
                            let cs = children_view(children@);
                            assert(cs =~= cs0.update(idx as int, Some(nbv)));
                            assert(node_view(*r) == SpecNode::Branch { path: bp, children: cs, value: v0 });
                            // the inserted key extends the branch path into slot idx
                            assert(bp =~= rest.subrange(0, d as int));
                            assert(bp.is_prefix_of(rest));
                            assert(rest[d as int] == idx as u8);
                            assert(pslot =~= rest.subrange(0, d + 1 as int));
                            assert(pslot.is_prefix_of(rest));
                            // the changed slot holds the canonical subtree of its
                            // grown sub-map
                            lemma_strip_insert_prefix(m, pslot, rest, val@);
                            assert(rest.skip(d + 1 as int) =~= nib@.skip(depth + d + 1));
                            assert(node_canonical(nbv, strip(mm, pslot)));
                            // the other slots keep their sub-maps
                            assert forall|j: int| 0 <= j < 16 && j != idx implies child_canonical(
                                #[trigger] cs[j],
                                strip(mm, bp.push(j as u8)),
                            ) by {
                                assert(!bp.push(j as u8).is_prefix_of(rest)) by {
                                    if bp.push(j as u8).is_prefix_of(rest) {
                                        assert(bp.push(j as u8)[d as int] == rest[d as int]);
                                    }
                                };
                                lemma_strip_insert_other(m, bp.push(j as u8), rest, val@);
                                assert(cs[j] == cs0[j]);
                            };
                            // the value slot is untouched: the key is longer than
                            // the branch path
                            assert(rest != bp);
                            assert(mm.contains_key(bp) == m.contains_key(bp));
                            // occupancy can only grow
                            lemma_count_filled_update(cs0, 16, idx as int, Some(nbv));
                            assert(node_canonical(node_view(*r), mm));
                        }
                        r
                    } else {
                        // the branch path itself splits at `d`: the old branch
                        // drops the shared lead and moves down one slot
                        let prefix = subrange_vec(&path, 0, d);
                        let iold = path[d] as usize;
                        let spath = subrange_vec(&path, d + 1, path.len());
                        let ghost pfx = prefix@;
                        let ghost p_old = pfx.push(iold as u8);
                        proof {
                            assert(bp[d as int] < 16);
                            assert(pfx =~= bp.subrange(0, d as int));
                            assert(pfx =~= rest.subrange(0, d as int));
                            assert(pfx.is_prefix_of(rest));
                            assert(spath@ =~= bp.skip(d + 1 as int));
                            assert(p_old =~= bp.subrange(0, d + 1 as int));
                            assert(p_old =~= bp.take(d + 1 as int));
                        }
                        let shortened = Box::new(Node::Branch { path: spath, children, value });
                        let ghost sv = node_view(*shortened);
                        proof {
                            assert(sv == SpecNode::Branch { path: bp.skip(d + 1 as int), children: cs0, value: v0 });
                            lemma_branch_shift(bp, cs0, v0, m, d + 1 as int);
                            assert(node_canonical(sv, strip(m, p_old)));
                            // no key of the old map lives under any other slot:
                            // they all continue with the nibble `iold`
                            assert forall|j: int| 0 <= j < 16 && j != iold implies
                                #[trigger] strip(m, pfx.push(j as u8))
                                    == Map::<Seq<u8>, Seq<u8>>::empty() by {
                                assert forall|k: Seq<u8>| #[trigger] m.contains_key(k) implies
                                    !pfx.push(j as u8).is_prefix_of(k) by {
                                    assert(bp.is_prefix_of(k));
                                    assert(k[d as int] == bp[d as int]);
                                    if pfx.push(j as u8).is_prefix_of(k) {
                                        assert(k[d as int] == j as u8);
                                    }
                                };
                                lemma_strip_no_prefix_empty(m, pfx.push(j as u8));
                            };
                        }
                        let mut nchildren = new_children();
                        let ghost nbase0 = children_view(nchildren@);
                        let ghost nvec0 = nchildren@;
                        nchildren[iold] = Some(shortened);
                        let ghost nvec1 = nchildren@;
                        proof {
                            lemma_children_view_update(nvec0, iold as int, nvec1[iold as int]);
                        }
                        if depth + d == nib.len() {
                            // the new key ends at the split point: it takes the
                            // new branch's value slot
                            let r = Box::new(Node::Branch { path: prefix, children: nchildren, value: Some(val) });
                            proof {
                                assert(rest =~= pfx);
                                let cs = children_view(nvec1);
                                assert(cs =~= nbase0.update(iold as int, Some(sv)));
                                assert(node_view(*r) == SpecNode::Branch { path: pfx, children: cs, value: Some(val@) });
                                // keys of the grown map all carry the prefix
                                assert forall|k: Seq<u8>| #[trigger] mm.contains_key(k) implies
                                    pfx.is_prefix_of(k)
                                    && (k != pfx ==> k.len() > pfx.len() && k[pfx.len() as int] < 16) by {
                                    if k != rest {
                                        assert(m.contains_key(k));
                                        assert(bp.is_prefix_of(k));
                                        assert(pfx =~= k.subrange(0, d as int));
                                        assert(k.len() >= bp.len() > d);
                                        assert(k[d as int] == bp[d as int]);
                                    }
                                };
                                // slot iold keeps the shifted branch, others stay empty
                                assert(!p_old.is_prefix_of(rest));
                                lemma_strip_insert_other(m, p_old, rest, val@);
                                assert(node_canonical(sv, strip(mm, p_old)));
                                assert forall|j: int| 0 <= j < 16 && j != iold implies child_canonical(
                                    #[trigger] cs[j],
                                    strip(mm, pfx.push(j as u8)),
                                ) by {
                                    assert(!pfx.push(j as u8).is_prefix_of(rest));
                                    lemma_strip_insert_other(m, pfx.push(j as u8), rest, val@);
                                };
                                lemma_count_filled_at_most_one_pub(cs, 16, iold as int);
                                assert(node_canonical(node_view(*r), mm));
                            }
                            r
                        } else {
                            // the new key diverges at the split point: it goes on
                            // alone in its own slot
                            let inew = nib[depth + d] as usize;
                            let npath = subrange_vec(nib, depth + d + 1, nib.len());
                            proof {
                                assert(rest[d as int] == nib@[depth + d]);
                                assert(rest[d as int] < 16);
                                assert(iold != inew);
                                assert(npath@ =~= rest.skip(d + 1 as int));
                            }
                            let leaf = Box::new(Node::Leaf { path: npath, value: val });
                            let ghost lv = node_view(*leaf);
                            let ghost p_new = pfx.push(inew as u8);
                            nchildren[inew] = Some(leaf);
                            let r = Box::new(Node::Branch { path: prefix, children: nchildren, value: None });
                            proof {
                                lemma_children_view_update(nvec1, inew as int, nchildren@[inew as int]);
                                let cs = children_view(nchildren@);
                                assert(cs =~= nbase0.update(iold as int, Some(sv)).update(inew as int, Some(lv)));
                                assert(node_view(*r) == SpecNode::Branch { path: pfx, children: cs, value: None });
                                assert(p_new =~= rest.subrange(0, d + 1 as int));
                                assert(p_new.is_prefix_of(rest));
                                // keys of the grown map all carry the prefix
                                assert forall|k: Seq<u8>| #[trigger] mm.contains_key(k) implies
                                    pfx.is_prefix_of(k)
                                    && k.len() > pfx.len() && k[pfx.len() as int] < 16 by {
                                    if k == rest {
                                        assert(pfx.is_prefix_of(rest));
                                    } else {
                                        assert(m.contains_key(k));
                                        assert(bp.is_prefix_of(k));
                                        assert(pfx =~= k.subrange(0, d as int));
                                        assert(k.len() >= bp.len() > d);
                                        assert(k[d as int] == bp[d as int]);
                                    }
                                };
                                // the prefix itself is not a key
                                assert(!mm.contains_key(pfx));
                                // slot iold keeps the shifted branch
                                assert(!p_old.is_prefix_of(rest)) by {
                                    if p_old.is_prefix_of(rest) {
                                        assert(p_old[d as int] == rest[d as int]);
                                    }
                                };
                                lemma_strip_insert_other(m, p_old, rest, val@);
                                assert(node_canonical(sv, strip(mm, p_old)));
                                // slot inew holds the new key's remainder alone
                                lemma_strip_insert_prefix(m, p_new, rest, val@);
                                assert(strip(m, p_new) == Map::<Seq<u8>, Seq<u8>>::empty()) by {
                                    assert forall|k: Seq<u8>| #[trigger] m.contains_key(k) implies
                                        !p_new.is_prefix_of(k) by {
                                        assert(bp.is_prefix_of(k));
                                        assert(k[d as int] == bp[d as int]);
                                        if p_new.is_prefix_of(k) {
                                            assert(k[d as int] == inew as u8);
                                        }
                                    };
                                    lemma_strip_no_prefix_empty(m, p_new);
                                };
                                assert(strip(mm, p_new) =~= map![rest.skip(d + 1 as int) => val@]);
                                assert(node_canonical(lv, strip(mm, p_new)));
                                // the remaining slots stay empty
                                assert forall|j: int| 0 <= j < 16 && j != iold && j != inew implies
                                    child_canonical(#[trigger] cs[j], strip(mm, pfx.push(j as u8))) by {
                                    assert(!pfx.push(j as u8).is_prefix_of(rest)) by {
                                        if pfx.push(j as u8).is_prefix_of(rest) {
                                            assert(rest[d as int] == j as u8);
                                        }
                                    };
                                    lemma_strip_insert_other(m, pfx.push(j as u8), rest, val@);
                                };
                                lemma_count_filled_two(cs, 16, iold as int, inew as int);
                                assert(node_canonical(node_view(*r), mm));
                            }
                            r
                        }
                    }
                },
            }
        },
    }
}

} // verus!
