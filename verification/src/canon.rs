//! The canonical-form lemmas: a map has at most one canonical node, and a
//! canonical node stands for exactly the map read off by `lookup`. Together
//! they make the root fingerprint a pure function of the trie's contents.
use vstd::prelude::*;

use crate::node::SpecNode;
use crate::node::child_canonical;
use crate::node::count_filled;
use crate::node::lookup;
use crate::node::map_of;
use crate::node::node_canonical;
use crate::node::opt_lookup;
use crate::node::strip;
use crate::node::valid_path;

verus! {

broadcast use vstd::seq::axiom_seq_index_decreases;

/// A positive occupancy count names an occupied slot.
proof fn lemma_count_filled_pos(cs: Seq<Option<SpecNode>>, i: int)
    requires
        count_filled(cs, i) > 0,
    ensures
        exists|j: int| 0 <= j < i && cs[j] is Some,
    decreases i,
{
    if i > 0 {
        if cs[i - 1] is Some {
        } else {
            lemma_count_filled_pos(cs, i - 1);
        }
    }
}

/// If at most one slot below `i` is occupied, the count is at most one.
proof fn lemma_count_filled_at_most_one(cs: Seq<Option<SpecNode>>, i: int, d: int)
    requires
        forall|j: int| 0 <= j < i && j != d ==> cs[j] is None,
    ensures
        count_filled(cs, i) == if 0 <= d < i && cs[d] is Some {
            1nat
        } else {
            0nat
        },
    decreases i,
{
    if i > 0 {
        lemma_count_filled_at_most_one(cs, i - 1, d);
    }
}

/// A filled canonical slot stands for a non-empty map.
pub proof fn lemma_canonical_nonempty(c: Option<SpecNode>, m: Map<Seq<u8>, Seq<u8>>)
    requires
        child_canonical(c, m),
        c is Some,
    ensures
        exists|k: Seq<u8>| m.contains_key(k),
    decreases c,
{
    match c {
        None => {},
        Some(n) => match n {
            SpecNode::Leaf { path, value } => {
                assert(m.contains_key(path));
            },
            SpecNode::Branch { path, children, value } => {
                if value is Some {
                    assert(m.contains_key(path));
                } else {
                    assert(count_filled(children, 16) > 0);
                    lemma_count_filled_pos(children, 16);
                    let j = choose|j: int| 0 <= j < 16 && children[j] is Some;
                    assert(child_canonical(children[j], strip(m, path.push(j as u8))));
                    lemma_canonical_nonempty(children[j], strip(m, path.push(j as u8)));
                    let k = choose|k: Seq<u8>| #[trigger] strip(m, path.push(j as u8)).contains_key(k);
                    assert(m.contains_key(path.push(j as u8) + k));
                }
            },
        },
    }
}

/// A canonical branch stands for a map with at least two distinct keys.
proof fn lemma_branch_two_keys(n: SpecNode, m: Map<Seq<u8>, Seq<u8>>)
    requires
        node_canonical(n, m),
        n is Branch,
    ensures
        exists|k1: Seq<u8>, k2: Seq<u8>|
            m.contains_key(k1) && m.contains_key(k2) && k1 != k2,
{
    match n {
        SpecNode::Leaf { .. } => {},
        SpecNode::Branch { path, children, value } => {
            if count_filled(children, 16) >= 2 {
                lemma_count_filled_pos(children, 16);
                let j = choose|j: int| 0 <= j < 16 && children[j] is Some;
                if !(exists|l: int| 0 <= l < 16 && l != j && #[trigger] children[l] is Some) {
                    assert forall|l: int| 0 <= l < 16 && l != j implies children[l] is None by {
                        assert(!(children[l] is Some));
                    };
                    lemma_count_filled_at_most_one(children, 16, j);
                    assert(false);
                }
                let j2 = choose|l: int| 0 <= l < 16 && l != j && #[trigger] children[l] is Some;
                let pj = path.push(j as u8);
                let pj2 = path.push(j2 as u8);
                lemma_canonical_nonempty(children[j], strip(m, pj));
                lemma_canonical_nonempty(children[j2], strip(m, pj2));
                let k1r = choose|k: Seq<u8>| #[trigger] strip(m, pj).contains_key(k);
                let k2r = choose|k: Seq<u8>| #[trigger] strip(m, pj2).contains_key(k);
                let k1 = pj + k1r;
                let k2 = pj2 + k2r;
                assert(m.contains_key(k1));
                assert(m.contains_key(k2));
                assert(k1[path.len() as int] == j as u8);
                assert(k2[path.len() as int] == j2 as u8);
                assert(k1 != k2);
            } else {
                assert(value is Some);
                assert(count_filled(children, 16) > 0);
                lemma_count_filled_pos(children, 16);
                let j = choose|j: int| 0 <= j < 16 && children[j] is Some;
                let pj = path.push(j as u8);
                lemma_canonical_nonempty(children[j], strip(m, pj));
                let k1r = choose|k: Seq<u8>| #[trigger] strip(m, pj).contains_key(k);
                let k1 = pj + k1r;
                assert(m.contains_key(k1));
                assert(m.contains_key(path));
                assert(k1.len() > path.len());
                assert(k1 != path);
            }
        },
    }
}

/// Two prefixes of one sequence are ordered: the shorter is a prefix of the
/// longer.
proof fn lemma_common_prefixes(p1: Seq<u8>, p2: Seq<u8>, k: Seq<u8>)
    requires
        p1.is_prefix_of(k),
        p2.is_prefix_of(k),
        p1.len() <= p2.len(),
    ensures
        p1.is_prefix_of(p2),
{
    assert(p1 =~= p2.subrange(0, p1.len() as int));
}

/// Canonical branch paths agree: stated with the shorter path first.
proof fn lemma_branch_path_eq(n1: SpecNode, n2: SpecNode, m: Map<Seq<u8>, Seq<u8>>)
    requires
        node_canonical(n1, m),
        node_canonical(n2, m),
        n1 is Branch,
        n2 is Branch,
        n1->Branch_path.len() <= n2->Branch_path.len(),
    ensures
        n1->Branch_path == n2->Branch_path,
{
    let path1 = n1->Branch_path;
    let path2 = n2->Branch_path;
    lemma_canonical_nonempty(Some(n1), m);
    let k0 = choose|k: Seq<u8>| m.contains_key(k);
    lemma_common_prefixes(path1, path2, k0);
    if path1 != path2 {
        assert(path1.len() < path2.len());
        let d = path2[path1.len() as int] as int;
        match n1 {
            SpecNode::Leaf { .. } => {},
            SpecNode::Branch { path, children, value } => {
                // the branch's own value slot is empty: `path1` itself cannot
                // be a key, every key carries the longer prefix `path2`
                if m.contains_key(path1) {
                    assert(path2.is_prefix_of(path1));
                    assert(false);
                }
                // every slot but `d` is empty: any key below slot `i` starts
                // with `path1 + [i]`, yet also with `path2`, so `i == d`
                assert forall|i: int| 0 <= i < 16 && i != d implies children[i] is None by {
                    if children[i] is Some {
                        let pi = path1.push(i as u8);
                        lemma_canonical_nonempty(children[i], strip(m, pi));
                        let kr = choose|k: Seq<u8>| #[trigger] strip(m, pi).contains_key(k);
                        let kk = pi + kr;
                        assert(m.contains_key(kk));
                        assert(kk[path1.len() as int] == i as u8);
                        assert(path2.is_prefix_of(kk));
                        assert(kk[path1.len() as int] == path2[path1.len() as int]);
                        assert(false);
                    }
                };
                lemma_count_filled_at_most_one(children, 16, d);
                assert(false);
            },
        }
    }
}

/// A map has at most one canonical node.
pub proof fn lemma_canonical_unique(
    c1: Option<SpecNode>,
    c2: Option<SpecNode>,
    m: Map<Seq<u8>, Seq<u8>>,
)
    requires
        child_canonical(c1, m),
        child_canonical(c2, m),
    ensures
        c1 == c2,
    decreases c1,
{
    match (c1, c2) {
        (None, None) => {},
        (None, Some(n2)) => {
            lemma_canonical_nonempty(c2, m);
        },
        (Some(n1), None) => {
            lemma_canonical_nonempty(c1, m);
        },
        (Some(n1), Some(n2)) => {
            match (n1, n2) {
                (SpecNode::Leaf { path: p1, value: v1 }, SpecNode::Leaf { path: p2, value: v2 }) => {
                    assert(map![p1 => v1].contains_key(p1));
                    assert(m.contains_key(p1));
                    assert(p1 == p2);
                    assert(v1 == m[p1]);
                    assert(v2 == m[p2]);
                },
                (SpecNode::Leaf { path: p1, value: v1 }, SpecNode::Branch { .. }) => {
                    lemma_branch_two_keys(n2, m);
                    let (k1, k2) = choose|k1: Seq<u8>, k2: Seq<u8>|
                        m.contains_key(k1) && m.contains_key(k2) && k1 != k2;
                    assert(k1 == p1 && k2 == p1);
                    assert(false);
                },
                (SpecNode::Branch { .. }, SpecNode::Leaf { path: p2, value: v2 }) => {
                    lemma_branch_two_keys(n1, m);
                    let (k1, k2) = choose|k1: Seq<u8>, k2: Seq<u8>|
                        m.contains_key(k1) && m.contains_key(k2) && k1 != k2;
                    assert(k1 == p2 && k2 == p2);
                    assert(false);
                },
                (
                    SpecNode::Branch { path: p1, children: cs1, value: v1 },
                    SpecNode::Branch { path: p2, children: cs2, value: v2 },
                ) => {
                    if p1.len() <= p2.len() {
                        lemma_branch_path_eq(n1, n2, m);
                    } else {
                        lemma_branch_path_eq(n2, n1, m);
                    }
                    assert(p1 == p2);
                    assert(v1 == v2) by {
                        if m.contains_key(p1) {
                            assert(v1 == Some(m[p1]));
                            assert(v2 == Some(m[p1]));
                        }
                    };
                    assert forall|i: int| 0 <= i < 16 implies cs1[i] == cs2[i] by {
                        assert(child_canonical(cs1[i], strip(m, p1.push(i as u8))));
                        assert(child_canonical(cs2[i], strip(m, p2.push(i as u8))));
                        assert(decreases_to!(c1 => cs1[i]));
                        lemma_canonical_unique(cs1[i], cs2[i], strip(m, p1.push(i as u8)));
                    };
                    assert(cs1 =~= cs2);
                },
            }
        },
    }
}

/// A canonical node stands for exactly the map that `lookup` reads off it.
pub proof fn lemma_canonical_map_of(c: Option<SpecNode>, m: Map<Seq<u8>, Seq<u8>>)
    requires
        child_canonical(c, m),
    ensures
        map_of(c) == m,
    decreases c,
{
    match c {
        None => {
            assert(map_of(c) =~= m);
        },
        Some(n) => match n {
            SpecNode::Leaf { path, value } => {
                assert forall|k: Seq<u8>| true implies #[trigger] opt_lookup(c, k)
                    == (if m.contains_key(k) { Some(m[k]) } else { None }) by {
                    if k == path {
                        assert(m.contains_key(path));
                    } else {
                        assert(!map![path => value].contains_key(k));
                    }
                };
                assert(map_of(c) =~= m);
            },
            SpecNode::Branch { path, children, value } => {
                assert forall|i: int| 0 <= i < 16 implies map_of(#[trigger] children[i])
                    == strip(m, path.push(i as u8)) by {
                    lemma_canonical_map_of(children[i], strip(m, path.push(i as u8)));
                };
                assert forall|k: Seq<u8>| true implies #[trigger] opt_lookup(c, k)
                    == (if m.contains_key(k) { Some(m[k]) } else { None }) by {
                    lemma_branch_lookup_case(n, m, k);
                };
                assert(map_of(c) =~= m);
            },
        },
    }
}

/// One key's worth of the branch case of `lemma_canonical_map_of`: with the
/// child sub-maps already known, lookup at `k` agrees with `m` at `k`.
proof fn lemma_branch_lookup_case(n: SpecNode, m: Map<Seq<u8>, Seq<u8>>, k: Seq<u8>)
    requires
        node_canonical(n, m),
        n is Branch,
        forall|i: int| 0 <= i < 16
            ==> map_of(#[trigger] n->Branch_children[i])
                == strip(m, n->Branch_path.push(i as u8)),
    ensures
        lookup(n, k) == (if m.contains_key(k) { Some(m[k]) } else { None }),
{
    match n {
        SpecNode::Leaf { .. } => {},
        SpecNode::Branch { path, children, value } => {
            if k == path {
                assert(lookup(n, k) == value);
            } else if path.is_prefix_of(k) && k.len() > path.len()
                && 0 <= k[path.len() as int] < 16 {
                let i = k[path.len() as int] as int;
                let rest = k.skip(path.len() + 1 as int);
                assert(path.push(i as u8) + rest =~= k);
                assert(strip(m, path.push(i as u8)).contains_key(rest)
                    == m.contains_key(k));
                assert(map_of(children[i]).contains_key(rest)
                    == (opt_lookup(children[i], rest) is Some));
                assert(lookup(n, k) == opt_lookup(children[i], rest));
                if m.contains_key(k) {
                    assert(strip(m, path.push(i as u8))[rest] == m[k]);
                    assert(map_of(children[i])[rest] == m[k]);
                }
            } else {
                assert(lookup(n, k) is None);
                if m.contains_key(k) {
                    assert(path.is_prefix_of(k));
                    assert(k.len() > path.len() && k[path.len() as int] < 16);
                    assert(false);
                }
            }
        },
    }
}

/// Canonical subtrees are well-shaped.
pub proof fn lemma_canonical_shaped(c: Option<SpecNode>, m: Map<Seq<u8>, Seq<u8>>)
    requires
        child_canonical(c, m),
    ensures
        crate::node::shaped_opt(c),
    decreases c,
{
    match c {
        None => {},
        Some(n) => match n {
            SpecNode::Leaf { .. } => {},
            SpecNode::Branch { path, children, value } => {
                assert forall|i: int| 0 <= i < 16 implies
                    crate::node::shaped_opt(#[trigger] children[i]) by {
                    assert(child_canonical(children[i], strip(m, path.push(i as u8))));
                    lemma_canonical_shaped(children[i], strip(m, path.push(i as u8)));
                };
            },
        },
    }
}

/// Canonical subtrees keep no degenerate branch: every reachable branch
/// has at least two occupants.
pub proof fn lemma_canonical_no_degenerate(c: Option<SpecNode>, m: Map<Seq<u8>, Seq<u8>>)
    requires
        child_canonical(c, m),
    ensures
        crate::node::no_degenerate_opt(c),
    decreases c,
{
    match c {
        None => {},
        Some(n) => match n {
            SpecNode::Leaf { .. } => {},
            SpecNode::Branch { path, children, value } => {
                assert forall|i: int| 0 <= i < 16 implies
                    crate::node::no_degenerate_opt(#[trigger] children[i]) by {
                    assert(child_canonical(children[i], strip(m, path.push(i as u8))));
                    lemma_canonical_no_degenerate(children[i], strip(m, path.push(i as u8)));
                };
            },
        },
    }
}

} // verus!
