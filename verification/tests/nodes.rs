use alloy_primitives::{keccak256, B256};
use alloy_trie::nodes::{ExtensionNodeRef, LeafNodeRef};

use gravity_state::memory::{NoWriter, NodeStore, StoreReader};
use gravity_state::nibbles::Nibbles;
use gravity_state::node::{Node, NodeFlag};
use gravity_state::rlp::RlpNode;
use gravity_state::stored::{NodeType, StorageNodeEntry};
use gravity_state::tree::EMPTY_ROOT_HASH;
use gravity_state::trie::Trie;
use gravity_state::vec_map::VecMap;

fn nibbles(path: &[u8]) -> Nibbles {
    Nibbles::from_nibbles_unchecked(path)
}

fn leaf(path: &[u8], value: &[u8]) -> Node {
    Node::ShortNode {
        key: nibbles(path),
        value: Box::new(Node::ValueNode(value.to_vec())),
        flags: NodeFlag::dirty_node(),
    }
}

fn branch(children: Vec<(usize, Node)>) -> Node {
    let mut slots: Vec<Option<Box<Node>>> = (0..17).map(|_| None).collect();
    for (i, child) in children {
        slots[i] = Some(Box::new(child));
    }
    Node::FullNode { children: slots, flags: NodeFlag::dirty_node() }
}

fn reference(bytes: &[u8]) -> RlpNode {
    RlpNode::from_raw(bytes).unwrap()
}

fn hashed(word: u8) -> RlpNode {
    let mut bytes = vec![0xa0];
    bytes.extend_from_slice(&[word; 32]);
    reference(&bytes)
}

#[test]
fn paths_are_half_bytes() {
    let path = Nibbles::unpack(&[0x12, 0xf0]);
    assert_eq!(path.as_slice(), &[1, 2, 15, 0]);
    assert_eq!(path.slice(1, 3).as_slice(), &[2, 15]);
    assert_eq!(path.child(7).as_slice(), &[1, 2, 15, 0, 7]);
    assert_eq!(path.join(&nibbles(&[3])).as_slice(), &[1, 2, 15, 0, 3]);
    assert_eq!(path.common_prefix_length(&nibbles(&[1, 2, 3])), 2);
    assert_eq!(path.at(2), 15);
    assert!(!path.is_empty() && Nibbles::new().is_empty());
    assert!(path.same(&path.copied()) && !path.same(&nibbles(&[1])));
}

#[test]
fn short_encodings_are_their_own_reference() {
    let short = [0xc2, 0x01, 0x02];
    assert_eq!(RlpNode::from_rlp(&short).as_slice(), &short);
    assert_eq!(RlpNode::from_rlp(&short).as_hash(), None);
    let long = [0x80u8; 32];
    let node = RlpNode::from_rlp(&long);
    assert_eq!(node.len(), 33);
    assert_eq!(node.as_slice()[0], 0xa0);
    assert_eq!(node.as_hash(), Some(keccak256(long).0));
    assert!(RlpNode::from_raw(&[0; 34]).is_none());
    assert!(RlpNode::from_raw(&[0; 33]).is_some());
}

#[test]
fn leaf_is_encoded_as_two_items() {
    for (path, value) in [
        (vec![1u8, 2, 3], vec![7u8]),
        (vec![1, 2, 3, 4], vec![0x85; 40]),
        (Vec::new(), vec![1, 2, 3]),
        (vec![15; 64], vec![9; 70]),
    ] {
        let mut node = leaf(&path, &value);
        let mut buf = Vec::new();
        let built = node.build_hash(&mut buf);
        let mut expected = Vec::new();
        let key = nybbles::Nibbles::from_nibbles(&path);
        let expected = LeafNodeRef::new(&key, &value).rlp(&mut expected);
        assert_eq!(built.as_slice(), expected.as_slice());
        assert_eq!(node.cached_rlp().unwrap().as_slice(), expected.as_slice());
    }
}

#[test]
fn extension_is_encoded_with_its_child() {
    let child = hashed(5);
    let mut node = Node::ShortNode {
        key: nibbles(&[4, 5]),
        value: Box::new(Node::HashNode(child.copied())),
        flags: NodeFlag::dirty_node(),
    };
    let mut buf = Vec::new();
    let built = node.build_hash(&mut buf);
    let key = nybbles::Nibbles::from_nibbles([4, 5]);
    let mut expected = Vec::new();
    let expected = ExtensionNodeRef::new(&key, child.as_slice()).rlp(&mut expected);
    assert_eq!(built.as_slice(), expected.as_slice());
}

#[test]
fn branch_is_encoded_with_empty_slots() {
    let mut node = branch(vec![(1, Node::HashNode(hashed(1))), (9, leaf(&[3], &[1]))]);
    let mut buf = Vec::new();
    let built = node.build_hash(&mut buf);
    let mut payload = Vec::new();
    for i in 0..17 {
        match i {
            1 => payload.extend_from_slice(hashed(1).as_slice()),
            9 => payload.extend_from_slice(&[0xc2, 0x33, 0x01]),
            _ => payload.push(0x80),
        }
    }
    let mut expected = Vec::new();
    alloy_rlp::Header { list: true, payload_length: payload.len() }.encode(&mut expected);
    expected.extend_from_slice(&payload);
    assert_eq!(built.as_hash(), Some(keccak256(&expected).0));
    assert_eq!(node.hash(), keccak256(&expected).0);
}

#[test]
fn hash_of_a_short_node_is_taken_all_the_same() {
    let mut node = leaf(&[1], &[2]);
    let mut buf = Vec::new();
    let built = node.build_hash(&mut buf);
    assert_eq!(built.as_hash(), None);
    assert_eq!(node.hash(), keccak256(built.as_slice()).0);
}

#[test]
fn flags_follow_changes() {
    let mut flags = NodeFlag::new(Some(hashed(1)));
    assert!(!flags.dirty);
    flags.mark_dirty();
    assert!(flags.dirty && flags.rlp.is_none());
    let mut flags = NodeFlag::new(Some(hashed(1)));
    flags.reset();
    assert!(!flags.dirty && flags.rlp.is_none());
    assert!(NodeFlag::dirty_node().dirty);
    assert!(leaf(&[1], &[1]).dirty());
    assert!(!leaf(&[1], &[1]).reset().dirty());
}

#[test]
fn branch_in_compact_form() {
    let short = reference(&[0xc2, 0x33, 0x01]);
    let node = branch(vec![
        (0, Node::HashNode(hashed(1))),
        (3, Node::HashNode(short.copied())),
        (5, leaf(&[3], &[1])),
    ]);
    let compact = node.branch_node_compact();
    assert_eq!(compact.state_mask, 0b101001);
    assert_eq!(compact.hash_mask, 0b001001);
    assert_eq!(compact.tree_mask, 0b100000);
    assert_eq!(compact.hashes, vec![[1; 32], keccak256(short.as_slice()).0]);
    assert_eq!(compact.root_hash, None);
}

#[test]
fn node_types_are_bytes() {
    for (kind, byte) in [
        (NodeType::FullNode, 0),
        (NodeType::ShortNode, 1),
        (NodeType::ValueNode, 2),
        (NodeType::HashNode, 3),
    ] {
        assert_eq!(kind.to_u8(), byte);
        assert_eq!(NodeType::from_u8(byte), Some(kind));
    }
    assert_eq!(NodeType::from_u8(4), None);
}

#[test]
fn stored_nodes_are_read_back() {
    let nodes = [
        branch(vec![(0, Node::HashNode(hashed(1))), (15, Node::HashNode(reference(&[0xc0])))]),
        leaf(&[1, 2, 3], &[4, 5]),
        Node::ShortNode {
            key: nibbles(&[6]),
            value: Box::new(Node::HashNode(hashed(2))),
            flags: NodeFlag::new(None),
        },
    ];
    for node in nodes {
        let clean = node.clone().reset();
        let stored = node.clone().into_stored();
        assert_eq!(stored[0], 0);
        assert_eq!(Node::try_from_stored(&stored), Some(clean));
        let entry = StorageNodeEntry::create(&nibbles(&[1]), &node);
        assert_eq!(entry.node, stored);
        assert_eq!(entry, StorageNodeEntry::new(nibbles(&[1]), node));
    }
    assert_eq!(Node::try_from_stored(&[0, 9]), None);
    assert_eq!(Node::try_from_stored(&[]), None);
    assert_eq!(Node::try_from_stored(&[1, 2]), None);
}

#[test]
fn order_of_insertion_does_not_matter() {
    let store = NodeStore::new();
    let words: Vec<B256> = (0u8..20).map(|i| keccak256([i])).collect();
    let root = |order: Vec<usize>| {
        let mut trie = Trie::open(StoreReader { store: Some(&store) }, NoWriter).unwrap();
        for i in order {
            let value = Node::ValueNode(vec![i as u8 + 1]);
            trie.insert(Nibbles::unpack(words[i].as_slice()), value).unwrap();
        }
        trie.hash()
    };
    let up: Vec<usize> = (0..20).collect();
    let down: Vec<usize> = (0..20).rev().collect();
    assert_eq!(root(up), root(down));
    assert_eq!(root(Vec::new()), EMPTY_ROOT_HASH);
}

#[test]
fn deletion_undoes_insertion() {
    let store = NodeStore::new();
    let words: Vec<B256> = (0u8..12).map(|i| keccak256([i])).collect();
    let mut trie = Trie::open(StoreReader { store: Some(&store) }, NoWriter).unwrap();
    let mut roots = vec![trie.hash()];
    for (i, word) in words.iter().enumerate() {
        let value = Node::ValueNode(vec![i as u8 + 1]);
        trie.insert(Nibbles::unpack(word.as_slice()), value).unwrap();
        roots.push(trie.hash());
    }
    for (i, word) in words.iter().enumerate().rev() {
        trie.delete(Nibbles::unpack(word.as_slice())).unwrap();
        assert_eq!(trie.hash(), roots[i]);
    }
    trie.delete(Nibbles::unpack(words[3].as_slice())).unwrap();
    assert_eq!(trie.hash(), EMPTY_ROOT_HASH);
}

#[test]
fn inserting_the_same_changes_nothing() {
    let store = NodeStore::new();
    let mut trie = Trie::open(StoreReader { store: Some(&store) }, NoWriter).unwrap();
    let word = keccak256([1]);
    trie.insert(Nibbles::unpack(word.as_slice()), Node::ValueNode(vec![5])).unwrap();
    let root = trie.hash();
    trie.insert(Nibbles::unpack(word.as_slice()), Node::ValueNode(vec![5])).unwrap();
    assert_eq!(trie.hash(), root);
    trie.insert(Nibbles::unpack(word.as_slice()), Node::ValueNode(vec![6])).unwrap();
    assert_ne!(trie.hash(), root);
}

#[test]
fn small_maps_keep_their_order() {
    let mut map: VecMap<[u8; 2], u32> = VecMap::new();
    assert_eq!(map.insert([1, 1], 10), None);
    assert_eq!(map.insert([2, 2], 20), None);
    assert_eq!(map.insert([1, 1], 11), Some(10));
    assert_eq!(map.entry(0), (&[1, 1], &11));
    assert_eq!(map.get(&[2, 2]), Some(&20));
    assert_eq!(map.get(&[3, 3]), None);
    let mut more: VecMap<[u8; 2], u32> = VecMap::new();
    more.insert([2, 2], 21);
    more.insert([3, 3], 30);
    map.extend(more);
    assert_eq!(map.len(), 3);
    assert_eq!(map.remove(&[2, 2]), Some(21));
    assert!(!map.contains_key(&[2, 2]));
    assert_eq!(map.into_entries(), vec![([1, 1], 11), ([3, 3], 30)]);
}

#[test]
fn changes_can_be_made_in_batches() {
    let mut store = NodeStore::new();
    let words: Vec<B256> = (0u8..40).map(|i| keccak256([i])).collect();
    let path = |i: usize| Nibbles::unpack(words[i].as_slice());
    let mut trie = Trie::open(StoreReader { store: Some(&store) }, NoWriter).unwrap();
    let first = (0..30).map(|i| (path(i), Some(Node::ValueNode(vec![1; 40])))).collect();
    trie.update(first, 64).unwrap();
    trie.hash();
    let output = trie.take_output();
    store.apply(&output.removed_nodes, output.update_nodes);

    let change = |i: usize| (path(i), (i >= 20).then(|| Node::ValueNode(vec![2; 40])));
    let mut whole = Trie::open(StoreReader { store: Some(&store) }, NoWriter).unwrap();
    whole.update((10..40).map(change).collect(), 64).unwrap();
    let mut parts = Trie::open(StoreReader { store: Some(&store) }, NoWriter).unwrap();
    for nibble in 0..16 {
        let batch = (10..40).filter(|i| path(*i).at(0) == nibble).map(change).collect();
        parts.update(batch, 64).unwrap();
    }
    assert_eq!(whole.hash(), parts.hash());
}

#[test]
fn emptied_trie_leaves_nothing_stored() {
    let mut store = NodeStore::new();
    let words: Vec<B256> = (0u8..10).map(|i| keccak256([i])).collect();
    for value in [Some(vec![3; 40]), None] {
        let mut trie = Trie::open(StoreReader { store: Some(&store) }, NoWriter).unwrap();
        let changes = words
            .iter()
            .map(|word| (Nibbles::unpack(word.as_slice()), value.clone().map(Node::ValueNode)))
            .collect();
        trie.update(changes, 64).unwrap();
        let root = trie.hash();
        assert_eq!(root == EMPTY_ROOT_HASH, value.is_none());
        let output = trie.take_output();
        assert!(!output.is_empty());
        store.apply(&output.removed_nodes, output.update_nodes);
        assert_eq!(store.is_empty(), value.is_none());
    }
}

#[test]
fn branch_with_one_child_left_collapses() {
    let mut store = NodeStore::new();
    let words: Vec<B256> = vec![B256::repeat_byte(0x11), B256::repeat_byte(0x12)];
    let path = |i: usize| Nibbles::unpack(words[i].as_slice());
    let value = || Node::ValueNode(vec![3; 40]);
    let mut trie = Trie::open(StoreReader { store: Some(&store) }, NoWriter).unwrap();
    trie.update(vec![(path(0), Some(value())), (path(1), Some(value()))], 64).unwrap();
    let output = trie.take_output();
    assert_eq!(output.update_nodes.len(), 4);
    store.apply(&output.removed_nodes, output.update_nodes);

    // The child that is left has to be read.
    let mut trie = Trie::open(StoreReader { store: Some(&store) }, NoWriter).unwrap();
    trie.delete(path(1)).unwrap();
    let output = trie.take_output();
    store.apply(&output.removed_nodes, output.update_nodes);
    let expected = Node::ShortNode {
        key: path(0),
        value: Box::new(value()),
        flags: NodeFlag::new(None),
    };
    assert_eq!(store.get(&nibbles(&[])), Some(expected));
    for i in 0..16 {
        assert_eq!(store.get(&nibbles(&[1, i])), None);
    }
    let mut trie = Trie::open(StoreReader { store: Some(&store) }, NoWriter).unwrap();
    trie.delete(path(1)).unwrap();
    assert!(trie.take_output().is_empty());
}

#[test]
fn only_changed_nodes_are_listed() {
    let mut store = NodeStore::new();
    let words: Vec<B256> =
        [0x11, 0x12, 0x21, 0x22].into_iter().map(B256::repeat_byte).collect();
    let path = |i: usize| Nibbles::unpack(words[i].as_slice());
    let value = |v: u8| Node::ValueNode(vec![v; 40]);
    let mut trie = Trie::open(StoreReader { store: Some(&store) }, NoWriter).unwrap();
    trie.update((0..4).map(|i| (path(i), Some(value(1)))).collect(), 64).unwrap();
    let output = trie.take_output();
    assert_eq!(output.update_nodes.len(), 7);
    store.apply(&output.removed_nodes, output.update_nodes);

    let trie = Trie::open(StoreReader { store: Some(&store) }, NoWriter).unwrap();
    assert!(trie.take_output().is_empty());

    // The root, the branch below it, and the leaf.
    let mut trie = Trie::open(StoreReader { store: Some(&store) }, NoWriter).unwrap();
    trie.insert(path(2), value(2)).unwrap();
    trie.hash();
    let mut listed: Vec<Vec<u8>> =
        trie.take_output().update_nodes.iter().map(|(p, _)| p.as_slice().to_vec()).collect();
    listed.sort();
    assert_eq!(listed, vec![vec![], vec![2], vec![2, 1]]);
}
