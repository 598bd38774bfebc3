//! The engine's global laws, stated over the map view that the trie
//! operations ensure.
use vstd::prelude::*;

use crate::driver::pairs_map;
use crate::trie::root_of;

verus! {

/// One step of trie history: what `insert` and `remove` do to the view.
#[allow(inconsistent_fields)]
pub enum TrieOp {
    Insert { key: Seq<u8>, value: Seq<u8> },
    Remove { key: Seq<u8> },
}

/// The view after a run of operations.
pub open spec fn apply_ops(m: Map<Seq<u8>, Seq<u8>>, ops: Seq<TrieOp>) -> Map<Seq<u8>, Seq<u8>>
    decreases ops.len(),
{
    if ops.len() == 0 {
        m
    } else {
        match ops.last() {
            TrieOp::Insert { key, value } => apply_ops(m, ops.drop_last()).insert(key, value),
            TrieOp::Remove { key } => apply_ops(m, ops.drop_last()).remove(key),
        }
    }
}

/// What a run of operations leaves under one key: untouched, removed, or
/// the value of the most recent insert.
pub open spec fn net_effect(ops: Seq<TrieOp>, k: Seq<u8>) -> Option<Option<Seq<u8>>>
    decreases ops.len(),
{
    if ops.len() == 0 {
        None
    } else {
        match ops.last() {
            TrieOp::Insert { key, value } => if key == k {
                Some(Some(value))
            } else {
                net_effect(ops.drop_last(), k)
            },
            TrieOp::Remove { key } => if key == k {
                Some(None)
            } else {
                net_effect(ops.drop_last(), k)
            },
        }
    }
}

/// Round-trip integrity: after any run of inserts and removals, a key
/// whose most recent touch was an insert holds exactly that insert's
/// value; one whose most recent touch was a removal is absent; one never
/// touched keeps its prior binding.
pub proof fn lemma_round_trip(m: Map<Seq<u8>, Seq<u8>>, ops: Seq<TrieOp>, k: Seq<u8>)
    ensures
        match net_effect(ops, k) {
            Some(Some(v)) => apply_ops(m, ops).contains_key(k) && apply_ops(m, ops)[k] == v,
            Some(None) => !apply_ops(m, ops).contains_key(k),
            None => apply_ops(m, ops).contains_key(k) == m.contains_key(k)
                && (m.contains_key(k) ==> apply_ops(m, ops)[k] == m[k]),
        },
    decreases ops.len(),
{
    if ops.len() > 0 {
        lemma_round_trip(m, ops.drop_last(), k);
    }
}

/// No two pairs of the list share a key.
pub open spec fn distinct_keys(ps: Seq<(Seq<u8>, Seq<u8>)>) -> bool {
    forall|i: int, j: int| 0 <= i < j < ps.len() ==> (#[trigger] ps[i]).0 != (#[trigger] ps[j]).0
}

/// With distinct keys, moving one pair to the end leaves the mapping
/// unchanged.
proof fn lemma_pairs_map_move_to_end(ps: Seq<(Seq<u8>, Seq<u8>)>, j: int)
    requires
        distinct_keys(ps),
        0 <= j < ps.len(),
    ensures
        pairs_map(ps) == pairs_map(ps.remove(j).push(ps[j])),
    decreases ps.len(),
{
    if j == ps.len() - 1 {
        assert(ps.remove(j).push(ps[j]) =~= ps);
    } else {
        let e2 = ps.last();
        let inner = ps.drop_last();
        assert(inner[j] == ps[j]);
        assert(distinct_keys(inner));
        lemma_pairs_map_move_to_end(inner, j);
        // the tail pair and the moved pair have different keys, so their
        // insertions commute
        assert(ps[j].0 != e2.0);
        let base = inner.remove(j);
        assert(ps.remove(j) =~= base.push(e2));
        assert(pairs_map(base.push(e2).push(ps[j]))
            == pairs_map(base).insert(e2.0, e2.1).insert(ps[j].0, ps[j].1)) by {
            let s = base.push(e2).push(ps[j]);
            assert(s.drop_last() =~= base.push(e2));
            assert(s.last() == ps[j]);
            assert(pairs_map(s) == pairs_map(s.drop_last()).insert(s.last().0, s.last().1));
            assert(base.push(e2).drop_last() =~= base);
            assert(base.push(e2).last() == e2);
            assert(pairs_map(base.push(e2)) == pairs_map(base).insert(e2.0, e2.1));
        };
        assert(pairs_map(base.push(ps[j]).push(e2))
            == pairs_map(base).insert(ps[j].0, ps[j].1).insert(e2.0, e2.1)) by {
            let s = base.push(ps[j]).push(e2);
            assert(s.drop_last() =~= base.push(ps[j]));
            assert(s.last() == e2);
            assert(pairs_map(s) == pairs_map(s.drop_last()).insert(s.last().0, s.last().1));
            assert(base.push(ps[j]).drop_last() =~= base);
            assert(base.push(ps[j]).last() == ps[j]);
            assert(pairs_map(base.push(ps[j])) == pairs_map(base).insert(ps[j].0, ps[j].1));
        };
        assert(pairs_map(base).insert(e2.0, e2.1).insert(ps[j].0, ps[j].1)
            =~= pairs_map(base).insert(ps[j].0, ps[j].1).insert(e2.0, e2.1));
        assert(inner.remove(j).push(ps[j]) =~= base.push(ps[j]));
        assert(pairs_map(ps) == pairs_map(inner).insert(e2.0, e2.1)) by {
            assert(ps.drop_last() =~= inner);
        };
        assert(pairs_map(ps.remove(j).push(ps[j]))
            == pairs_map(base.push(e2).push(ps[j]))) by {
            assert(ps.remove(j).push(ps[j]) =~= base.push(e2).push(ps[j]));
        };
        assert(pairs_map(inner).insert(e2.0, e2.1)
            == pairs_map(base.push(ps[j])).insert(e2.0, e2.1)) by {
            assert(pairs_map(inner) == pairs_map(base.push(ps[j])));
        };
        assert(pairs_map(base).insert(e2.0, e2.1).insert(ps[j].0, ps[j].1)
            == pairs_map(base).insert(ps[j].0, ps[j].1).insert(e2.0, e2.1)) by {
            assert(pairs_map(base).insert(e2.0, e2.1).insert(ps[j].0, ps[j].1)
                =~= pairs_map(base).insert(ps[j].0, ps[j].1).insert(e2.0, e2.1));
        };
        assert(pairs_map(ps.remove(j).push(ps[j]))
            == pairs_map(base).insert(ps[j].0, ps[j].1).insert(e2.0, e2.1));
        assert(pairs_map(base.push(ps[j])) == pairs_map(base).insert(ps[j].0, ps[j].1)) by {
            assert(base.push(ps[j]).drop_last() =~= base);
            assert(base.push(ps[j]).last() == ps[j]);
        };
        assert(pairs_map(ps.remove(j).push(ps[j]))
            == pairs_map(base.push(ps[j])).insert(e2.0, e2.1));
        assert(pairs_map(ps.remove(j).push(ps[j])) == pairs_map(inner).insert(e2.0, e2.1));
        assert(pairs_map(ps.remove(j).push(ps[j])) == pairs_map(ps));
    }
}

/// Determinism under insertion order: two pair lists with the same pairs
/// in any order, no two sharing a key, stand for the same mapping — and
/// therefore for the same root fingerprint.
pub proof fn lemma_insertion_order_irrelevant(
    ps1: Seq<(Seq<u8>, Seq<u8>)>,
    ps2: Seq<(Seq<u8>, Seq<u8>)>,
)
    requires
        ps1.to_multiset() == ps2.to_multiset(),
        distinct_keys(ps1),
    ensures
        pairs_map(ps1) == pairs_map(ps2),
        root_of(pairs_map(ps1)) == root_of(pairs_map(ps2)),
    decreases ps1.len(),
{
    broadcast use vstd::seq_lib::group_to_multiset_ensures;

    if ps1.len() == 0 {
        assert(ps2.to_multiset().len() == 0);
        assert(ps2.len() == 0);
    } else {
        let e = ps1.last();
        assert(ps1.to_multiset().count(e) > 0) by {
            assert(ps1.contains(e));
        };
        assert(ps2.contains(e)) by {
            assert(ps2.to_multiset().count(e) > 0);
        };
        let j = choose|j: int| 0 <= j < ps2.len() && ps2[j] == e;
        let ps2r = ps2.remove(j);
        assert(ps2r.to_multiset() =~= ps1.drop_last().to_multiset()) by {
            assert(ps2.remove(j).to_multiset() =~= ps2.to_multiset().remove(ps2[j]));
            assert(ps1.drop_last().push(e) =~= ps1);
            assert(ps1.drop_last().push(e).to_multiset()
                =~= ps1.drop_last().to_multiset().insert(e));
            assert(ps1.to_multiset().remove(e) =~= ps1.drop_last().to_multiset());
        };
        assert(distinct_keys(ps1.drop_last()));
        // distinct keys carry over to any reordering: a repeated key in ps2
        // would put two pairs with one key, or one pair twice, into ps1
        assert(distinct_keys(ps2)) by {
            lemma_distinct_keys_carry(ps1, ps2);
        };
        assert(distinct_keys(ps2r)) by {
            assert forall|a: int, b: int| 0 <= a < b < ps2r.len() implies
                (#[trigger] ps2r[a]).0 != (#[trigger] ps2r[b]).0 by {
                let sa: int = if a < j { a } else { a + 1 };
                let sb: int = if b < j { b } else { b + 1 };
                assert(ps2r[a] == ps2[sa]);
                assert(ps2r[b] == ps2[sb]);
            };
        };
        lemma_insertion_order_irrelevant(ps1.drop_last(), ps2r);
        lemma_pairs_map_move_to_end(ps2, j);
        assert(pairs_map(ps2r.push(e)) == pairs_map(ps2r).insert(e.0, e.1)) by {
            assert(ps2r.push(e).drop_last() =~= ps2r);
        };
        assert(pairs_map(ps1) == pairs_map(ps1.drop_last()).insert(e.0, e.1)) by {
            assert(ps1.drop_last() =~= ps1.drop_last());
        };
        assert(pairs_map(ps2) == pairs_map(ps2.remove(j).push(ps2[j])));
        assert(ps2.remove(j).push(ps2[j]) =~= ps2r.push(e));
    }
}

/// Distinct keys survive reordering.
proof fn lemma_distinct_keys_carry(ps1: Seq<(Seq<u8>, Seq<u8>)>, ps2: Seq<(Seq<u8>, Seq<u8>)>)
    requires
        ps1.to_multiset() == ps2.to_multiset(),
        distinct_keys(ps1),
    ensures
        distinct_keys(ps2),
{
    broadcast use vstd::seq_lib::group_to_multiset_ensures;

    assert forall|a: int, b: int| 0 <= a < b < ps2.len() implies
        (#[trigger] ps2[a]).0 != (#[trigger] ps2[b]).0 by {
        if ps2[a].0 == ps2[b].0 {
            assert(ps2.contains(ps2[a]));
            assert(ps2.contains(ps2[b]));
            assert(ps1.contains(ps2[a])) by {
                assert(ps1.to_multiset().count(ps2[a]) > 0);
            };
            assert(ps1.contains(ps2[b])) by {
                assert(ps1.to_multiset().count(ps2[b]) > 0);
            };
            let ia = choose|i: int| 0 <= i < ps1.len() && ps1[i] == ps2[a];
            let ib = choose|i: int| 0 <= i < ps1.len() && ps1[i] == ps2[b];
            if ps2[a] == ps2[b] {
                // one pair standing twice in ps2 would count twice in ps1,
                // where all keys differ
                assert(ps2.to_multiset().count(ps2[a]) >= 2) by {
                    let pruned = ps2.remove(b);
                    assert(pruned.to_multiset() =~= ps2.to_multiset().remove(ps2[b]));
                    assert(pruned[a] == ps2[a]);
                    assert(pruned.contains(ps2[a]));
                    assert(pruned.to_multiset().count(ps2[a]) > 0);
                };
                ps1.lemma_multiset_has_no_duplicates();
                assert(ps1.no_duplicates()) by {
                    assert forall|i: int, l: int| 0 <= i < l < ps1.len() implies
                        ps1[i] != ps1[l] by {
                        assert(ps1[i].0 != ps1[l].0);
                    };
                };
                assert(ps1.to_multiset().count(ps2[a]) <= 1);
                assert(false);
            } else {
                assert(ia != ib);
                assert(ps1[ia].0 != ps1[ib].0);
                assert(false);
            }
        }
    };
}

} // verus!
