//! Algebra of the `strip` decomposition: how the sub-map of a prefix moves
//! under insertion, removal and prefix composition. The node operations
//! lean on these to push a change on the whole map down to one child slot.
use vstd::prelude::*;

use crate::node::strip;

verus! {

/// A prefix followed by the remainder is the whole.
pub proof fn lemma_append_skip(p: Seq<u8>, k: Seq<u8>)
    requires
        p.is_prefix_of(k),
    ensures
        p + k.skip(p.len() as int) == k,
{
    assert(p + k.skip(p.len() as int) =~= k);
}

/// Appending to a fixed prefix is injective.
pub proof fn lemma_append_injective(p: Seq<u8>, a: Seq<u8>, b: Seq<u8>)
    requires
        p + a == p + b,
    ensures
        a == b,
{
    assert(a =~= (p + a).skip(p.len() as int));
    assert(b =~= (p + b).skip(p.len() as int));
}

/// Inserting a key that extends the prefix inserts its remainder into the
/// sub-map.
pub proof fn lemma_strip_insert_prefix(
    m: Map<Seq<u8>, Seq<u8>>,
    p: Seq<u8>,
    k: Seq<u8>,
    v: Seq<u8>,
)
    requires
        p.is_prefix_of(k),
    ensures
        strip(m.insert(k, v), p) == strip(m, p).insert(k.skip(p.len() as int), v),
{
    let rest = k.skip(p.len() as int);
    lemma_append_skip(p, k);
    assert forall|q: Seq<u8>| true implies
        #[trigger] strip(m.insert(k, v), p).contains_key(q)
            == strip(m, p).insert(rest, v).contains_key(q) by {
        if p + q == k {
            lemma_append_injective(p, q, rest);
        }
    };
    assert forall|q: Seq<u8>| strip(m.insert(k, v), p).contains_key(q) implies
        #[trigger] strip(m.insert(k, v), p)[q] == strip(m, p).insert(rest, v)[q] by {
        if p + q == k {
            lemma_append_injective(p, q, rest);
        } else {
            assert(q != rest);
        }
    };
    assert(strip(m.insert(k, v), p) =~= strip(m, p).insert(rest, v));
}

/// Inserting a key that does not extend the prefix leaves the sub-map alone.
pub proof fn lemma_strip_insert_other(
    m: Map<Seq<u8>, Seq<u8>>,
    p: Seq<u8>,
    k: Seq<u8>,
    v: Seq<u8>,
)
    requires
        !p.is_prefix_of(k),
    ensures
        strip(m.insert(k, v), p) == strip(m, p),
{
    assert forall|q: Seq<u8>| true implies p + q != k by {
        if p + q == k {
            assert(p =~= k.subrange(0, p.len() as int));
        }
    };
    assert(strip(m.insert(k, v), p) =~= strip(m, p));
}

/// Removing a key that extends the prefix removes its remainder from the
/// sub-map.
pub proof fn lemma_strip_remove_prefix(m: Map<Seq<u8>, Seq<u8>>, p: Seq<u8>, k: Seq<u8>)
    requires
        p.is_prefix_of(k),
    ensures
        strip(m.remove(k), p) == strip(m, p).remove(k.skip(p.len() as int)),
{
    let rest = k.skip(p.len() as int);
    lemma_append_skip(p, k);
    assert forall|q: Seq<u8>| true implies
        #[trigger] strip(m.remove(k), p).contains_key(q)
            == strip(m, p).remove(rest).contains_key(q) by {
        if p + q == k {
            lemma_append_injective(p, q, rest);
        } else {
            if q == rest {
                assert(p + q == k);
            }
        }
    };
    assert(strip(m.remove(k), p) =~= strip(m, p).remove(rest));
}

/// Removing a key that does not extend the prefix leaves the sub-map alone.
pub proof fn lemma_strip_remove_other(m: Map<Seq<u8>, Seq<u8>>, p: Seq<u8>, k: Seq<u8>)
    requires
        !p.is_prefix_of(k),
    ensures
        strip(m.remove(k), p) == strip(m, p),
{
    assert forall|q: Seq<u8>| true implies p + q != k by {
        if p + q == k {
            assert(p =~= k.subrange(0, p.len() as int));
        }
    };
    assert(strip(m.remove(k), p) =~= strip(m, p));
}

/// Stripping twice strips the concatenated prefix.
pub proof fn lemma_strip_compose(m: Map<Seq<u8>, Seq<u8>>, a: Seq<u8>, b: Seq<u8>)
    ensures
        strip(strip(m, a), b) == strip(m, a + b),
{
    assert forall|q: Seq<u8>| true implies a + (b + q) == (a + b) + q by {
        assert(a + (b + q) =~= (a + b) + q);
    };
    assert(strip(strip(m, a), b) =~= strip(m, a + b));
}

/// The sub-map of a singleton: its one remainder if the key extends the
/// prefix, empty otherwise.
pub proof fn lemma_strip_singleton(k: Seq<u8>, v: Seq<u8>, p: Seq<u8>)
    ensures
        p.is_prefix_of(k) ==> strip(map![k => v], p) == map![k.skip(p.len() as int) => v],
        !p.is_prefix_of(k) ==> strip(map![k => v], p) == Map::<Seq<u8>, Seq<u8>>::empty(),
{
    if p.is_prefix_of(k) {
        let rest = k.skip(p.len() as int);
        lemma_append_skip(p, k);
        assert forall|q: Seq<u8>| true implies
            #[trigger] strip(map![k => v], p).contains_key(q)
                == map![rest => v].contains_key(q) by {
            if p + q == k {
                lemma_append_injective(p, q, rest);
            } else {
                if q == rest {
                    assert(p + q == k);
                }
            }
        };
        assert(strip(map![k => v], p) =~= map![rest => v]);
    } else {
        assert forall|q: Seq<u8>| true implies p + q != k by {
            if p + q == k {
                assert(p =~= k.subrange(0, p.len() as int));
            }
        };
        assert(strip(map![k => v], p) =~= Map::<Seq<u8>, Seq<u8>>::empty());
    }
}

/// The sub-map of the empty map is empty.
pub proof fn lemma_strip_empty(p: Seq<u8>)
    ensures
        strip(Map::<Seq<u8>, Seq<u8>>::empty(), p) == Map::<Seq<u8>, Seq<u8>>::empty(),
{
    assert(strip(Map::<Seq<u8>, Seq<u8>>::empty(), p) =~= Map::<Seq<u8>, Seq<u8>>::empty());
}

} // verus!
