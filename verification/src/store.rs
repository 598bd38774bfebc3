//! The hash-addressed node store: it owns every committed node payload,
//! keyed by the content hash of its canonical encoding. Entries are only
//! ever added; an entry whose hash is re-committed is superseded by the
//! newest payload, and abandoned entries simply become unreachable.
use vstd::prelude::*;

use crate::TrieError;
use crate::codec::copy_bytes;
use crate::codec::encode_node;
use crate::hashing::blake2_256;
use crate::node::Node;
use crate::node::encode_of;
use crate::node::hash_of;
use crate::node::shaped;
use crate::wire::SpecStored;
use crate::wire::StoredNode;
use crate::wire::decode_node;
use crate::wire::encode_stored;
use crate::wire::lemma_encode_stored_of;
use crate::wire::stored_wf;

verus! {

/// The map a run of store entries stands for: later entries supersede
/// earlier ones with the same hash.
pub open spec fn entries_map(es: Seq<(Vec<u8>, Vec<u8>)>) -> Map<Seq<u8>, Seq<u8>>
    decreases es.len(),
{
    if es.len() == 0 {
        Map::empty()
    } else {
        entries_map(es.drop_last()).insert(es.last().0@, es.last().1@)
    }
}

pub struct NodeStore {
    entries: Vec<(Vec<u8>, Vec<u8>)>,
}

/// The most recent entry under a hash is what the store's map holds.
proof fn lemma_entries_map_found(es: Seq<(Vec<u8>, Vec<u8>)>, j: int, h: Seq<u8>)
    requires
        0 <= j < es.len(),
        es[j].0@ == h,
        forall|l: int| j < l < es.len() ==> (#[trigger] es[l]).0@ != h,
    ensures
        entries_map(es).contains_key(h),
        entries_map(es)[h] == es[j].1@,
    decreases es.len(),
{
    if j == es.len() - 1 {
    } else {
        assert(es.drop_last()[j] == es[j]);
        lemma_entries_map_found(es.drop_last(), j, h);
        assert(es.last().0@ != h);
    }
}

/// A hash no entry carries is not in the store's map.
proof fn lemma_entries_map_absent(es: Seq<(Vec<u8>, Vec<u8>)>, h: Seq<u8>)
    requires
        forall|l: int| 0 <= l < es.len() ==> (#[trigger] es[l]).0@ != h,
    ensures
        !entries_map(es).contains_key(h),
    decreases es.len(),
{
    if es.len() > 0 {
        lemma_entries_map_absent(es.drop_last(), h);
    }
}

/// Byte equality between a stored key and a caller's hash.
fn key_matches(a: &Vec<u8>, b: &[u8]) -> (r: bool)
    ensures
        r <==> a@ == b@,
{
    if a.len() != b.len() {
        return false;
    }
    let mut i: usize = 0;
    while i < a.len()
        invariant
            a@.len() == b@.len(),
            i <= a@.len(),
            forall|j: int| 0 <= j < i ==> a@[j] == b@[j],
        decreases a@.len() - i,
    {
        if a[i] != b[i] {
            return false;
        }
        i = i + 1;
    }
    proof {
        assert(a@ =~= b@);
    }
    true
}

impl View for NodeStore {
    type V = Map<Seq<u8>, Seq<u8>>;

    closed spec fn view(&self) -> Map<Seq<u8>, Seq<u8>> {
        entries_map(self.entries@)
    }
}

impl NodeStore {
    /// Every payload the store holds is the canonical encoding of some
    /// well-shaped stored node.
    #[verifier::type_invariant]
    spec fn inv(self) -> bool {
        forall|j: int| 0 <= j < self.entries@.len() ==> exists|sn: SpecStored|
            stored_wf(sn) && encode_stored(sn) == (#[trigger] self.entries@[j]).1@
    }

    /// A store holding nothing.
    pub fn new() -> (s: Self)
        ensures
            s@ == Map::<Seq<u8>, Seq<u8>>::empty(),
    {
        NodeStore { entries: Vec::new() }
    }

    /// Serializes the node in the canonical encoding, hashes the encoding,
    /// stores the pair and returns the hash.
    pub fn put(&mut self, n: &Node) -> (h: Vec<u8>)
        requires
            shaped(n@),
        ensures
            h@ == hash_of(n@),
            h@.len() == 32,
            final(self)@ == old(self)@.insert(hash_of(n@), encode_of(n@)),
    {
        proof {
            use_type_invariant(&*self);
        }
        let e = encode_node(n);
        let h = blake2_256(e.as_slice());
        let hkey = copy_bytes(&h);
        proof {
            lemma_encode_stored_of(n@);
            assert(exists|sn: SpecStored| stored_wf(sn) && encode_stored(sn) == e@) by {
                assert(stored_wf(crate::wire::stored_of(n@))
                    && encode_stored(crate::wire::stored_of(n@)) == e@);
            };
        }
        let mut entries: Vec<(Vec<u8>, Vec<u8>)> = Vec::new();
        std::mem::swap(&mut entries, &mut self.entries);
        entries.push((hkey, e));
        self.entries = entries;
        proof {
            assert(self.entries@.drop_last() =~= old(self).entries@);
            assert(self.entries@.last().0@ == hash_of(n@));
            assert(self.entries@.last().1@ == encode_of(n@));
        }
        h
    }

    /// Deserializes and returns the node stored under a hash. An unknown
    /// hash comes back as `NodeNotFound`; a known one always decodes,
    /// since the store holds nothing but canonical encodings.
    #[verifier::loop_isolation(false)]
    pub fn get(&self, hash: &[u8]) -> (r: Result<StoredNode, TrieError>)
        ensures
            match r {
                Ok(sn) => self@.contains_key(hash@) && stored_wf(sn@)
                    && encode_stored(sn@) == self@[hash@],
                Err(e) => e == TrieError::NodeNotFound && !self@.contains_key(hash@),
            },
    {
        proof {
            use_type_invariant(&*self);
        }
        // the newest entry under a hash supersedes the older ones
        let mut j: usize = self.entries.len();
        while j > 0
            invariant
                j <= self.entries@.len(),
                forall|l: int| j <= l < self.entries@.len()
                    ==> (#[trigger] self.entries@[l]).0@ != hash@,
            decreases j,
        {
            j = j - 1;
            if key_matches(&self.entries[j].0, hash) {
                proof {
                    lemma_entries_map_found(self.entries@, j as int, hash@);
                }
                match decode_node(self.entries[j].1.as_slice()) {
                    Ok(sn) => {
                        return Ok(sn);
                    },
                    Err(_) => {
                        // unreachable: the store invariant names a witness
                        // encoding, and the decoder accepts every encoding
                        proof {
                            assert(exists|sn: SpecStored| stored_wf(sn)
                                && encode_stored(sn) == self.entries@[j as int].1@);
                            assert(false);
                        }
                        return Err(TrieError::NodeNotFound);
                    },
                }
            }
        }
        proof {
            lemma_entries_map_absent(self.entries@, hash@);
        }
        Err(TrieError::NodeNotFound)
    }
}

} // verus!
