use trie_engine::node::Node;
use trie_engine::store::NodeStore;
use trie_engine::wire::{decode_node, StoredNode};
use trie_engine::TrieError;

fn empty_slots() -> Vec<Option<Box<Node>>> {
    let mut v: Vec<Option<Box<Node>>> = Vec::new();
    for _ in 0..16 {
        v.push(None);
    }
    v
}

#[test]
fn put_then_get_returns_the_stored_leaf() {
    let mut store = NodeStore::new();
    let leaf = Node::Leaf { path: vec![0, 0, 1, 1], value: vec![0xaa, 0xbb] };
    let h = store.put(&leaf);
    assert_eq!(h.len(), 32);
    let back = store.get(&h).expect("stored hash must resolve");
    assert_eq!(back, StoredNode::Leaf { path: vec![0, 0, 1, 1], value: vec![0xaa, 0xbb] });
}

#[test]
fn put_then_get_returns_the_stored_branch() {
    let mut store = NodeStore::new();
    let left = Node::Leaf { path: vec![1], value: vec![0x01] };
    let right = Node::Leaf { path: vec![2], value: vec![0x02] };
    let lh = store.put(&left);
    let rh = store.put(&right);
    let mut children = empty_slots();
    children[3] = Some(Box::new(left));
    children[7] = Some(Box::new(right));
    let branch = Node::Branch { path: vec![0, 0], children, value: None };
    let h = store.put(&branch);
    let back = store.get(&h).expect("stored hash must resolve");
    match back {
        StoredNode::Branch { path, children, value } => {
            assert_eq!(path, vec![0, 0]);
            assert_eq!(value, None);
            assert_eq!(children.len(), 16);
            assert_eq!(children[3].as_deref(), Some(lh.as_slice()));
            assert_eq!(children[7].as_deref(), Some(rh.as_slice()));
            for (i, c) in children.iter().enumerate() {
                if i != 3 && i != 7 {
                    assert!(c.is_none());
                }
            }
        }
        StoredNode::Leaf { .. } => panic!("expected a branch"),
    }
}

#[test]
fn get_unknown_hash_is_node_not_found() {
    let store = NodeStore::new();
    assert_eq!(store.get(&[0u8; 32]), Err(TrieError::NodeNotFound));
    let mut store = NodeStore::new();
    let leaf = Node::Leaf { path: vec![1], value: vec![2] };
    let h = store.put(&leaf);
    let mut other = h.clone();
    other[0] = other[0].wrapping_add(1);
    assert_eq!(store.get(&other), Err(TrieError::NodeNotFound));
}

#[test]
fn re_putting_a_hash_supersedes_the_entry() {
    let mut store = NodeStore::new();
    let leaf = Node::Leaf { path: vec![1], value: vec![2] };
    let h1 = store.put(&leaf);
    let h2 = store.put(&leaf);
    assert_eq!(h1, h2);
    assert!(store.get(&h1).is_ok());
}

#[test]
fn decode_rejects_what_no_node_encodes_to() {
    assert_eq!(decode_node(&[]), Err(TrieError::DecodeError));
    assert_eq!(decode_node(&[7]), Err(TrieError::DecodeError));
    // leaf tag with a path length pointing past the end
    let mut bad = vec![1u8];
    bad.extend_from_slice(&100u64.to_le_bytes());
    assert_eq!(decode_node(&bad), Err(TrieError::DecodeError));
    // trailing garbage after a well-formed leaf
    let mut store = NodeStore::new();
    let leaf = Node::Leaf { path: vec![0, 1], value: vec![0x55] };
    let h = store.put(&leaf);
    drop(h);
    let mut enc = vec![1u8];
    enc.extend_from_slice(&2u64.to_le_bytes());
    enc.extend_from_slice(&[0, 1]);
    enc.extend_from_slice(&1u64.to_le_bytes());
    enc.push(0x55);
    assert!(decode_node(&enc).is_ok());
    enc.push(0);
    assert_eq!(decode_node(&enc), Err(TrieError::DecodeError));
}
