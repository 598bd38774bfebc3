//! Keys are traversed as sequences of nibbles: 4-bit units, two per byte,
//! most-significant nibble first.
use vstd::prelude::*;

verus! {

/// The nibble sequence of a byte sequence: byte `i` contributes its high
/// nibble at position `2*i` and its low nibble at position `2*i + 1`.
pub open spec fn nibbles(s: Seq<u8>) -> Seq<u8> {
    Seq::new(2 * s.len(), |i: int| if i % 2 == 0 { s[i / 2] / 16 } else { s[i / 2] % 16 })
}

/// A nibble sequence that stands for a whole byte key: even length, every
/// element below 16.
pub open spec fn valid_key(nk: Seq<u8>) -> bool {
    &&& nk.len() % 2 == 0
    &&& forall|i: int| 0 <= i < nk.len() ==> nk[i] < 16
}

/// The byte sequence a valid nibble sequence stands for.
pub open spec fn bytes_of(nk: Seq<u8>) -> Seq<u8> {
    Seq::new(nk.len() / 2, |i: int| (nk[2 * i] * 16 + nk[2 * i + 1]) as u8)
}

pub proof fn lemma_nibbles_valid(s: Seq<u8>)
    ensures
        valid_key(nibbles(s)),
{
}

pub proof fn lemma_bytes_of_nibbles(s: Seq<u8>)
    ensures
        bytes_of(nibbles(s)) == s,
{
    assert(bytes_of(nibbles(s)) =~= s);
}

pub proof fn lemma_nibbles_of_bytes(nk: Seq<u8>)
    requires
        valid_key(nk),
    ensures
        nibbles(bytes_of(nk)) == nk,
{
    assert(nibbles(bytes_of(nk)) =~= nk);
}

pub proof fn lemma_nibbles_injective(a: Seq<u8>, b: Seq<u8>)
    requires
        nibbles(a) == nibbles(b),
    ensures
        a == b,
{
    lemma_bytes_of_nibbles(a);
    lemma_bytes_of_nibbles(b);
}

/// Decomposes a byte key into its nibble path.
pub fn to_nibbles(key: &[u8]) -> (r: Vec<u8>)
    ensures
        r@ == nibbles(key@),
{
    let mut r: Vec<u8> = Vec::new();
    let mut i: usize = 0;
    while i < key.len()
        invariant
            i <= key.len(),
            r@ =~= nibbles(key@.subrange(0, i as int)),
        decreases key.len() - i,
    {
        r.push(key[i] / 16);
        r.push(key[i] % 16);
        i = i + 1;
        proof {
            assert(r@ =~= nibbles(key@.subrange(0, i as int)));
        }
    }
    proof {
        assert(key@.subrange(0, key@.len() as int) =~= key@);
    }
    r
}

} // verus!
