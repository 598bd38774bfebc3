//! The trie engine: an owning trie value that holds its node store,
//! viewed in contracts as a map from byte keys to byte values.
//!
//! The canonical-form invariant ties the in-memory node tree to that map,
//! so the root fingerprint — the hash of the canonical root node — is a
//! pure function of the trie's contents, `root_of`.
use vstd::prelude::*;

use crate::canon::lemma_canonical_map_of;
use crate::canon::lemma_canonical_shaped;
use crate::canon::lemma_canonical_unique;
use crate::hashing::blake2_of;
use crate::hashing::blake2_256;
use crate::nibble::bytes_of;
use crate::nibble::lemma_bytes_of_nibbles;
use crate::nibble::lemma_nibbles_of_bytes;
use crate::nibble::lemma_nibbles_valid;
use crate::nibble::nibbles;
use crate::nibble::to_nibbles;
use crate::nibble::valid_key;
use crate::node::Node;
use crate::node::SpecNode;
use crate::node::child_canonical;
use crate::node::encode_of;
use crate::node::map_of;
use crate::node::node_canonical;
use crate::node::node_view;
use crate::node::opt_view;
use crate::ops::node_insert;
use crate::removal::node_remove;
use crate::store::NodeStore;
use crate::TrieError;

verus! {

/// The byte-keyed reading of a nibble-keyed map.
pub open spec fn byte_view(m: Map<Seq<u8>, Seq<u8>>) -> Map<Seq<u8>, Seq<u8>> {
    Map::new(|bk: Seq<u8>| m.contains_key(nibbles(bk)), |bk: Seq<u8>| m[nibbles(bk)])
}

/// The nibble-keyed map behind a byte-keyed one.
pub open spec fn nmap_of(mb: Map<Seq<u8>, Seq<u8>>) -> Map<Seq<u8>, Seq<u8>> {
    Map::new(
        |nk: Seq<u8>| valid_key(nk) && mb.contains_key(bytes_of(nk)),
        |nk: Seq<u8>| mb[bytes_of(nk)],
    )
}

/// The canonical empty-trie root: the digest of the empty-trie marker.
pub open spec fn empty_root() -> Seq<u8> {
    blake2_of(seq![0u8])
}

/// The root fingerprint of a byte-keyed mapping: the canonical empty root
/// for the empty mapping, otherwise the hash of the mapping's unique
/// canonical node.
pub open spec fn root_of(mb: Map<Seq<u8>, Seq<u8>>) -> Seq<u8> {
    if mb == Map::<Seq<u8>, Seq<u8>>::empty() {
        empty_root()
    } else {
        blake2_of(encode_of(choose|n: SpecNode| node_canonical(n, nmap_of(mb))))
    }
}

/// Reading a byte-keyed map back from its nibble form recovers it.
pub proof fn lemma_nmap_of_byte_view(m: Map<Seq<u8>, Seq<u8>>)
    requires
        forall|nk: Seq<u8>| #[trigger] m.contains_key(nk) ==> valid_key(nk),
    ensures
        nmap_of(byte_view(m)) == m,
{
    assert forall|nk: Seq<u8>| true implies
        #[trigger] nmap_of(byte_view(m)).contains_key(nk) == m.contains_key(nk) by {
        if valid_key(nk) {
            lemma_nibbles_of_bytes(nk);
        }
    };
    assert forall|nk: Seq<u8>| nmap_of(byte_view(m)).contains_key(nk) implies
        #[trigger] nmap_of(byte_view(m))[nk] == m[nk] by {
        lemma_nibbles_of_bytes(nk);
    };
    assert(nmap_of(byte_view(m)) =~= m);
}

/// Inserting one pair commutes with the byte-keyed reading.
pub proof fn lemma_byte_view_insert(m: Map<Seq<u8>, Seq<u8>>, k: Seq<u8>, v: Seq<u8>)
    ensures
        byte_view(m.insert(nibbles(k), v)) == byte_view(m).insert(k, v),
{
    assert forall|bk: Seq<u8>| true implies
        #[trigger] byte_view(m.insert(nibbles(k), v)).contains_key(bk)
            == byte_view(m).insert(k, v).contains_key(bk) by {
        if nibbles(bk) == nibbles(k) {
            crate::nibble::lemma_nibbles_injective(bk, k);
        }
    };
    assert forall|bk: Seq<u8>| byte_view(m.insert(nibbles(k), v)).contains_key(bk) implies
        #[trigger] byte_view(m.insert(nibbles(k), v))[bk]
            == byte_view(m).insert(k, v)[bk] by {
        if nibbles(bk) == nibbles(k) {
            crate::nibble::lemma_nibbles_injective(bk, k);
        }
    };
    assert(byte_view(m.insert(nibbles(k), v)) =~= byte_view(m).insert(k, v));
}

/// Removing one key commutes with the byte-keyed reading.
pub proof fn lemma_byte_view_remove(m: Map<Seq<u8>, Seq<u8>>, k: Seq<u8>)
    ensures
        byte_view(m.remove(nibbles(k))) == byte_view(m).remove(k),
{
    assert forall|bk: Seq<u8>| true implies
        #[trigger] byte_view(m.remove(nibbles(k))).contains_key(bk)
            == byte_view(m).remove(k).contains_key(bk) by {
        if nibbles(bk) == nibbles(k) {
            crate::nibble::lemma_nibbles_injective(bk, k);
        }
    };
    assert(byte_view(m.remove(nibbles(k))) =~= byte_view(m).remove(k));
}

/// A non-empty valid-keyed nibble map reads back non-empty.
pub proof fn lemma_byte_view_nonempty(m: Map<Seq<u8>, Seq<u8>>, nk: Seq<u8>)
    requires
        m.contains_key(nk),
        valid_key(nk),
    ensures
        byte_view(m).contains_key(bytes_of(nk)),
{
    lemma_nibbles_of_bytes(nk);
}

/// The trie engine. It owns its node store; `insert`, `remove`, `get` and
/// `root` treat the trie as the byte-keyed mapping `self@`.
pub struct Trie {
    root: Option<Box<Node>>,
    store: NodeStore,
}

impl View for Trie {
    type V = Map<Seq<u8>, Seq<u8>>;

    closed spec fn view(&self) -> Map<Seq<u8>, Seq<u8>> {
        byte_view(map_of(opt_view(self.root)))
    }
}

impl Trie {
    /// The nibble-keyed contents behind the byte-keyed view.
    pub closed spec fn nib_map(self) -> Map<Seq<u8>, Seq<u8>> {
        map_of(opt_view(self.root))
    }

    /// The root node is the canonical node of the contents, and every key
    /// is a whole-byte nibble path. This holds of every trie value the
    /// engine hands out; `use_type_invariant` recovers it.
    #[verifier::type_invariant]
    pub closed spec fn wf(self) -> bool {
        match self.root {
            None => true,
            Some(b) => {
                &&& node_canonical(node_view(*b), map_of(Some(node_view(*b))))
                &&& forall|nk: Seq<u8>|
                    #[trigger] map_of(Some(node_view(*b))).contains_key(nk) ==> valid_key(nk)
            },
        }
    }

    /// A fresh, empty trie with its own empty node store.
    pub fn new() -> (t: Trie)
        ensures
            t@ == Map::<Seq<u8>, Seq<u8>>::empty(),
    {
        let t = Trie { root: None, store: NodeStore::new() };
        proof {
            assert(map_of(opt_view(t.root)) =~= Map::<Seq<u8>, Seq<u8>>::empty());
            assert(t@ =~= Map::<Seq<u8>, Seq<u8>>::empty());
        }
        t
    }

    /// Stores `value` under `key`, replacing any earlier value for the
    /// same key.
    pub fn insert(&mut self, key: &[u8], value: &[u8])
        ensures
            final(self)@ == old(self)@.insert(key@, value@),
    {
        proof {
            use_type_invariant(&*self);
        }
        let nib = to_nibbles(key);
        let mut root: Option<Box<Node>> = None;
        std::mem::swap(&mut root, &mut self.root);
        let ghost m = map_of(opt_view(root));
        proof {
            assert(m == old(self).nib_map());
            if opt_view(root) is None {
                assert(m =~= Map::<Seq<u8>, Seq<u8>>::empty());
            }
            assert(child_canonical(opt_view(root), m));
        }
        let newroot = node_insert(root, &nib, 0, vstd::slice::slice_to_vec(value), Ghost(m));
        let ghost m2 = m.insert(nibbles(key@), value@);
        proof {
            assert(nib@.skip(0) =~= nibbles(key@));
            assert(node_canonical(node_view(*newroot), m2));
            lemma_canonical_map_of(Some(node_view(*newroot)), m2);
            lemma_nibbles_valid(key@);
            lemma_byte_view_insert(m, key@, value@);
        }
        self.root = Some(newroot);
    }

    /// Removes `key` and reports whether it was present: absent keys leave
    /// the trie unchanged and come back as `KeyNotFound`.
    pub fn remove(&mut self, key: &[u8]) -> (r: Result<(), TrieError>)
        ensures
            r is Ok <==> old(self)@.contains_key(key@),
            final(self)@ == old(self)@.remove(key@),
            r is Err ==> r == Err::<(), TrieError>(TrieError::KeyNotFound),
    {
        proof {
            use_type_invariant(&*self);
        }
        let nib = to_nibbles(key);
        let mut root: Option<Box<Node>> = None;
        std::mem::swap(&mut root, &mut self.root);
        let ghost m = map_of(opt_view(root));
        proof {
            assert(m == old(self).nib_map());
            if opt_view(root) is None {
                assert(m =~= Map::<Seq<u8>, Seq<u8>>::empty());
            }
            assert(child_canonical(opt_view(root), m));
        }
        let (newroot, found) = node_remove(root, &nib, 0, Ghost(m));
        let ghost m2 = m.remove(nibbles(key@));
        proof {
            assert(nib@.skip(0) =~= nibbles(key@));
            assert(child_canonical(opt_view(newroot), m2));
            if opt_view(newroot) is None {
                assert(m2 == Map::<Seq<u8>, Seq<u8>>::empty());
                assert(map_of(opt_view(newroot)) =~= m2);
            } else {
                lemma_canonical_map_of(opt_view(newroot), m2);
            }
            lemma_byte_view_remove(m, key@);
            assert(old(self)@.contains_key(key@) == m.contains_key(nibbles(key@)));
        }
        self.root = newroot;
        if found {
            Ok(())
        } else {
            Err(TrieError::KeyNotFound)
        }
    }
}

/// Walks the nibble path and hands back a copy of the stored value.
fn node_get(
    c: &Option<Box<Node>>,
    nib: &Vec<u8>,
    depth: usize,
    Ghost(m): Ghost<Map<Seq<u8>, Seq<u8>>>,
) -> (r: Option<Vec<u8>>)
    requires
        child_canonical(opt_view(*c), m),
        depth <= nib@.len(),
        crate::node::valid_path(nib@),
    ensures
        match r {
            Some(v) => m.contains_key(nib@.skip(depth as int))
                && v@ == m[nib@.skip(depth as int)],
            None => !m.contains_key(nib@.skip(depth as int)),
        },
    decreases *c,
{
    let ghost rest = nib@.skip(depth as int);
    proof {
        vstd::std_specs::vec::axiom_spec_len(nib);
    }
    match c {
        None => None,
        Some(b) => {
            match &**b {
                Node::Leaf { path, value } => {
                    let d = crate::ops::common_len(path, nib, depth);
                    if d == path.len() && depth + d == nib.len() {
                        proof {
                            assert(rest =~= path@);
                        }
                        Some(crate::codec::copy_bytes(value))
                    } else {
                        proof {
                            assert(rest != path@) by {
                                if rest == path@ {
                                    assert(rest.len() == d || path@.len() == d);
                                    assert(rest =~= path@);
                                }
                            };
                        }
                        None
                    }
                },
                Node::Branch { path, children, value } => {
                    let ghost bp = path@;
                    let ghost cs0 = crate::node::children_view(children@);
                    proof {
                        assert(node_canonical(node_view(**b), m));
                        assert(children@.len() == 16);
                    }
                    let d = crate::ops::common_len(path, nib, depth);
                    if d == path.len() && depth + d == nib.len() {
                        proof {
                            assert(rest =~= bp);
                        }
                        match value {
                            Some(v) => Some(crate::codec::copy_bytes(v)),
                            None => None,
                        }
                    } else if d == path.len() {
                        let idx = nib[depth + d] as usize;
                        let ghost pslot = bp.push(idx as u8);
                        let ghost mchild = crate::node::strip(m, pslot);
                        proof {
                            assert(nib@[depth + d] < 16);
                            assert(child_canonical(cs0[idx as int], mchild));
                            assert(bp =~= rest.subrange(0, d as int));
                            assert(rest[d as int] == idx as u8);
                            assert(pslot =~= rest.subrange(0, d + 1 as int));
                            assert(pslot.is_prefix_of(rest));
                            assert(pslot + rest.skip(d + 1 as int) =~= rest);
                            assert(m.contains_key(rest)
                                == mchild.contains_key(rest.skip(d + 1 as int)));
                            assert(rest.skip(d + 1 as int) =~= nib@.skip(depth + d + 1));
                            assert(decreases_to!(*c => (*c)->0));
                            assert(decreases_to!(**b => (**b)->Branch_children));
                            assert(decreases_to!((**b)->Branch_children
                                => (**b)->Branch_children[idx as int]));
                        }
                        let r = node_get(&children[idx], nib, depth + d + 1, Ghost(mchild));
                        proof {
                            if m.contains_key(rest) {
                                assert(mchild[rest.skip(d + 1 as int)] == m[rest]);
                            }
                        }
                        r
                    } else {
                        proof {
                            assert(!m.contains_key(rest)) by {
                                if m.contains_key(rest) {
                                    assert(bp.is_prefix_of(rest));
                                    assert(d < bp.len());
                                    assert(bp[d as int] == rest[d as int]);
                                }
                            };
                        }
                        None
                    }
                },
            }
        },
    }
}

/// Commits a subtree to the store: children first, in slot order, then the
/// node itself, and returns the node's hash.
#[verifier::loop_isolation(false)]
fn commit_node(n: &Node, store: &mut NodeStore) -> (h: Vec<u8>)
    requires
        crate::node::shaped(node_view(*n)),
    ensures
        h@ == crate::node::hash_of(node_view(*n)),
        h@.len() == 32,
        final(store)@ == old(store)@.union_prefer_right(
            crate::node::node_entries(node_view(*n)),
        ),
    decreases *n,
{
    match n {
        Node::Leaf { .. } => {
            let h = store.put(n);
            proof {
                assert(store@ =~= old(store)@.union_prefer_right(
                    crate::node::node_entries(node_view(*n))));
            }
            h
        },
        Node::Branch { children, .. } => {
            let ghost cs = crate::node::children_view(children@);
            let mut i: usize = 0;
            while i < 16
                invariant
                    i <= 16,
                    children@.len() == 16,
                    crate::node::shaped(node_view(*n)),
                    cs == crate::node::children_view(children@),
                    store@ == old(store)@.union_prefer_right(
                        crate::node::children_entries(cs, i as int),
                    ),
                decreases 16 - i,
            {
                let ghost pre = store@;
                match &children[i] {
                    None => {
                        proof {
                            assert(crate::node::entries_opt(cs[i as int])
                                =~= Map::<Seq<u8>, Seq<u8>>::empty());
                            assert(store@ =~= old(store)@.union_prefer_right(
                                crate::node::children_entries(cs, i + 1)));
                        }
                    },
                    Some(c) => {
                        proof {
                            assert(decreases_to!(*n => (*n)->children));
                            assert(decreases_to!(*children => children@[i as int]));
                            assert(decreases_to!(*n => **c));
                            assert(cs[i as int] == Some(node_view(**c)));
                        }
                        let _ch = commit_node(c, store);
                        proof {
                            assert(cs.len() == 16);
                            let ce_i = crate::node::children_entries(cs, i as int);
                            let en = crate::node::node_entries(node_view(**c));
                            assert(store@ == old(store)@.union_prefer_right(ce_i)
                                .union_prefer_right(en));
                            assert(crate::node::entries_opt(cs[i as int]) == en);
                            assert(crate::node::children_entries(cs, i + 1)
                                == ce_i.union_prefer_right(en));
                            assert(old(store)@.union_prefer_right(ce_i).union_prefer_right(en)
                                =~= old(store)@.union_prefer_right(
                                    ce_i.union_prefer_right(en)));
                        }
                    },
                }
                i = i + 1;
            }
            let h = store.put(n);
            proof {
                assert(store@ =~= old(store)@.union_prefer_right(
                    crate::node::node_entries(node_view(*n))));
            }
            h
        },
    }
}

/// The (hash, encoding) pairs a root-fingerprint computation commits to
/// the store: those of the contents' canonical node tree.
pub open spec fn root_entries(mb: Map<Seq<u8>, Seq<u8>>) -> Map<Seq<u8>, Seq<u8>> {
    if mb == Map::<Seq<u8>, Seq<u8>>::empty() {
        Map::empty()
    } else {
        crate::node::node_entries(choose|n: SpecNode| node_canonical(n, nmap_of(mb)))
    }
}

impl Trie {
    /// The contents of the trie's node store: content hash to encoding.
    pub closed spec fn store_map(self) -> Map<Seq<u8>, Seq<u8>> {
        self.store@
    }

    /// Hands back a copy of the value stored under `key`, if any.
    pub fn get(&self, key: &[u8]) -> (r: Option<Vec<u8>>)
        ensures
            r is Some <==> self@.contains_key(key@),
            r is Some ==> r->0@ == self@[key@],
    {
        proof {
            use_type_invariant(&*self);
        }
        let nib = to_nibbles(key);
        let ghost m = map_of(opt_view(self.root));
        proof {
            if opt_view(self.root) is None {
                assert(m =~= Map::<Seq<u8>, Seq<u8>>::empty());
            }
            assert(child_canonical(opt_view(self.root), m));
        }
        let r = node_get(&self.root, &nib, 0, Ghost(m));
        proof {
            assert(nib@.skip(0) =~= nibbles(key@));
        }
        r
    }

    /// Recomputes the root fingerprint of the current contents, committing
    /// every node of the canonical tree to the store on the way up.
    pub fn root(&mut self) -> (h: Vec<u8>)
        ensures
            final(self)@ == old(self)@,
            h@ == root_of(old(self)@),
            h@.len() == 32,
            final(self).store_map() == old(self).store_map().union_prefer_right(
                root_entries(old(self)@),
            ),
    {
        proof {
            use_type_invariant(&*self);
        }
        let mut root: Option<Box<Node>> = None;
        std::mem::swap(&mut root, &mut self.root);
        let mut store = NodeStore::new();
        std::mem::swap(&mut store, &mut self.store);
        let ghost m = map_of(opt_view(root));
        let h = match &root {
            None => {
                let mut e: Vec<u8> = Vec::new();
                e.push(0u8);
                let h = blake2_256(e.as_slice());
                proof {
                    assert(e@ =~= seq![0u8]);
                    assert(m =~= Map::<Seq<u8>, Seq<u8>>::empty());
                    assert(byte_view(m) =~= Map::<Seq<u8>, Seq<u8>>::empty());
                    assert(old(self)@ == Map::<Seq<u8>, Seq<u8>>::empty());
                    assert(store@ =~= old(self).store_map().union_prefer_right(
                        root_entries(old(self)@)));
                }
                h
            },
            Some(b) => {
                let ghost nv = node_view(**b);
                proof {
                    assert(node_canonical(nv, m));
                    lemma_canonical_shaped(Some(nv), m);
                    crate::canon::lemma_canonical_nonempty(Some(nv), m);
                    let nk = choose|nk: Seq<u8>| m.contains_key(nk);
                    lemma_byte_view_nonempty(m, nk);
                    assert(old(self)@ != Map::<Seq<u8>, Seq<u8>>::empty()) by {
                        assert(old(self)@.contains_key(bytes_of(nk)));
                    };
                    lemma_nmap_of_byte_view(m);
                    let n2 = choose|n: SpecNode| node_canonical(n, nmap_of(old(self)@));
                    lemma_canonical_unique(Some(n2), Some(nv), m);
                    assert(root_of(old(self)@) == crate::node::hash_of(nv));
                    assert(root_entries(old(self)@) == crate::node::node_entries(nv));
                }
                commit_node(b, &mut store)
            },
        };
        self.root = root;
        self.store = store;
        h
    }
}

/// The canonical empty-trie root fingerprint.
pub fn empty_trie_root() -> (h: Vec<u8>)
    ensures
        h@ == empty_root(),
        h@.len() == 32,
{
    let mut e: Vec<u8> = Vec::new();
    e.push(0u8);
    let h = blake2_256(e.as_slice());
    proof {
        assert(e@ =~= seq![0u8]);
    }
    h
}

impl Trie {
    /// The trie's node tree, as an abstract value: the canonical node of
    /// the contents, or nothing for an empty trie.
    pub closed spec fn node_shape(self) -> Option<SpecNode> {
        opt_view(self.root)
    }

    /// Collapse correctness: at every quiescent point — after any run of
    /// insertions and removals — no branch with fewer than two occupants
    /// (children or a terminal value) is reachable from the root.
    pub proof fn lemma_no_degenerate_branches(&self)
        requires
            self.wf(),
        ensures
            crate::node::no_degenerate_opt(self.node_shape()),
    {
        if opt_view(self.root) is None {
        } else {
            crate::canon::lemma_canonical_no_degenerate(
                opt_view(self.root),
                map_of(opt_view(self.root)),
            );
        }
    }
}

} // verus!
