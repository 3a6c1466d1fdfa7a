use alloy_primitives::keccak256;

use gravity_state::errors::{DatabaseError, DatabaseErrorInfo};
use gravity_state::hashed_tables::{read_hashed_state, MemoryTables};
use gravity_state::memory::NodeStore;
use gravity_state::nested_root::NestedStateRoot;
use gravity_state::nibbles::Nibbles;
use gravity_state::node::{Node, NodeFlag};
use gravity_state::reader::{
    check_branch_path, parse_nested_trie_node, AccountTrieReader, NodeRecords, RecordTable,
    Records, StorageRecordTable, StorageTrieReader,
};
use gravity_state::rlp::RlpNode;
use gravity_state::state::Account;
use gravity_state::state_db::StateDb;
use gravity_state::store::TrieReader;
use gravity_state::vec_map::VecMap;

fn nibbles(path: &[u8]) -> Nibbles {
    Nibbles::from_nibbles_unchecked(path)
}

fn account(nonce: u64) -> Account {
    Account { nonce, balance: [1; 32], bytecode_hash: None }
}

/// A branch with children 2 and 5: another branch and a leaf.
fn records() -> RecordTable {
    let mut entries = VecMap::new();
    entries.insert(nibbles(&[]), vec![0, 0b100100, 0, 0xa0]);
    entries.insert(nibbles(&[2]), vec![0, 1, 0, 0xc1, 0x01]);
    entries.insert(nibbles(&[5]), vec![1, 2, 7, 8, 3, 0xc2, 1, 2, 2, 0xaa, 0xbb]);
    entries.insert(nibbles(&[6]), vec![1, 1, 3, 1, 0xc3, 3]);
    entries.insert(nibbles(&[6, 3]), vec![0, 1, 0, 0xc5, 0x05]);
    RecordTable { entries }
}

fn reference(bytes: &[u8]) -> Node {
    Node::HashNode(RlpNode::from_raw(bytes).unwrap())
}

fn expected_root() -> Node {
    let mut children: Vec<Option<Box<Node>>> = (0..17).map(|_| None).collect();
    children[2] = Some(Box::new(reference(&[0xc1, 0x01])));
    children[5] = Some(Box::new(reference(&[0xc2, 1, 2])));
    Node::FullNode { children, flags: NodeFlag::new(None) }
}

fn expected_leaf() -> Node {
    Node::ShortNode {
        key: nibbles(&[7, 8]),
        value: Box::new(Node::ValueNode(vec![0xaa, 0xbb])),
        flags: NodeFlag::new(None),
    }
}

#[test]
fn nodes_are_put_together_from_records() {
    let reader: AccountTrieReader<RecordTable, NodeStore> = AccountTrieReader::new(records(), None);
    assert_eq!(reader.read(&nibbles(&[])), Ok(Some(expected_root())));
    assert_eq!(reader.read(&nibbles(&[5])), Ok(Some(expected_leaf())));
    assert_eq!(
        reader.read(&nibbles(&[6])),
        Ok(Some(Node::ShortNode {
            key: nibbles(&[3]),
            value: Box::new(reference(&[0xc5, 0x05])),
            flags: NodeFlag::new(None),
        }))
    );
    assert_eq!(reader.read(&nibbles(&[9])), Ok(None));
}

#[test]
fn storage_nodes_are_found_by_account() {
    let mut accounts = VecMap::new();
    accounts.insert([1; 32], records());
    let table = StorageRecordTable { accounts };
    let reader: StorageTrieReader<StorageRecordTable, NodeStore> =
        StorageTrieReader::new(table, [1; 32], None);
    assert_eq!(reader.read(&nibbles(&[])), Ok(Some(expected_root())));
    assert_eq!(reader.read(&nibbles(&[5])), Ok(Some(expected_leaf())));
    assert_eq!(reader.read(&nibbles(&[3])), Ok(None));
    let mut accounts = VecMap::new();
    accounts.insert([1; 32], records());
    let other: StorageTrieReader<StorageRecordTable, NodeStore> =
        StorageTrieReader::new(StorageRecordTable { accounts }, [2; 32], None);
    assert_eq!(other.read(&nibbles(&[])), Ok(None));
}

#[test]
fn cached_nodes_come_first() {
    let mut cache = NodeStore::new();
    cache.apply(&Vec::new(), vec![(nibbles(&[5]), expected_leaf())]);
    let empty = RecordTable { entries: VecMap::new() };
    let reader = AccountTrieReader::new(empty, Some(cache));
    assert_eq!(reader.read(&nibbles(&[5])), Ok(Some(expected_leaf())));
    assert_eq!(reader.read(&nibbles(&[])), Ok(None));
}

#[test]
fn malformed_records_are_told() {
    let table = records();
    let parse = |value: &[u8]| parse_nested_trie_node(&nibbles(&[]), value, &table);
    for value in [
        &[][..],
        &[9],
        &[2, 1],
        &[0, 1],
        &[0, 1, 0, 0xa0],
        &[1],
        &[1, 2, 7],
        &[1, 1, 3, 1, 0xc3, 0],
        &[1, 1, 15, 1, 0xc3, 3],
    ] {
        assert_eq!(parse(value), Err(DatabaseError::Decode));
    }
}

#[test]
fn branch_paths_go_on_from_their_parent() {
    assert!(check_branch_path(&nibbles(&[1, 2]), 3, &nibbles(&[1, 2, 3])));
    assert!(!check_branch_path(&nibbles(&[1, 2]), 3, &nibbles(&[1, 2, 4])));
    assert!(!check_branch_path(&nibbles(&[1, 2]), 3, &nibbles(&[1, 2])));
}

fn tables() -> MemoryTables {
    let mut tables = MemoryTables {
        accounts: VecMap::new(),
        storages: VecMap::new(),
        account_changes: vec![(1, [1; 20]), (2, [2; 20]), (3, [3; 20])],
        storage_changes: vec![(2, [4; 20], [5; 32]), (2, [4; 20], [6; 32]), (9, [1; 20], [5; 32])],
    };
    tables.accounts.insert(keccak256([1; 20]).0, account(1));
    tables.accounts.insert(keccak256([2; 20]).0, account(2));
    tables.accounts.insert(keccak256([4; 20]).0, account(4));
    let mut slots = VecMap::new();
    slots.insert(keccak256([5; 32]).0, [55; 32]);
    slots.insert([0; 32], [1; 32]);
    slots.insert([255; 32], [2; 32]);
    tables.storages.insert(keccak256([4; 20]).0, slots);
    tables
}

#[test]
fn changed_state_of_some_blocks() {
    let state = read_hashed_state(&tables(), Some((2, 3))).unwrap();
    assert_eq!(state.accounts.len(), 3);
    assert_eq!(state.accounts.get(&keccak256([2; 20]).0), Some(&Some(account(2))));
    assert_eq!(state.accounts.get(&keccak256([3; 20]).0), Some(&None));
    assert_eq!(state.accounts.get(&keccak256([4; 20]).0), Some(&Some(account(4))));
    assert_eq!(state.storages.len(), 1);
    let storage = state.storages.get(&keccak256([4; 20]).0).unwrap();
    assert!(!storage.wiped);
    assert_eq!(storage.storage.len(), 2);
    assert_eq!(storage.storage.get(&keccak256([5; 32]).0), Some(&[55; 32]));
    assert_eq!(storage.storage.get(&keccak256([6; 32]).0), Some(&[0; 32]));
}

#[test]
fn whole_state() {
    let state = read_hashed_state(&tables(), None).unwrap();
    assert_eq!(state.accounts.len(), 3);
    assert_eq!(state.accounts.get(&keccak256([1; 20]).0), Some(&Some(account(1))));
    let storage = state.storages.get(&keccak256([4; 20]).0).unwrap();
    assert_eq!(storage.storage.len(), 3);
    assert_eq!(storage.storage.get(&[255; 32]), Some(&[2; 32]));
}

#[test]
fn root_of_nothing_changes_nothing() {
    let mut db = StateDb::new();
    assert!(db.is_empty());
    let state = read_hashed_state(&tables(), None).unwrap();
    let root = db.advance(&state).unwrap();
    assert!(!db.is_empty());
    let again = read_hashed_state(&tables(), None).unwrap();
    let (same, updates) = NestedStateRoot::new(&db).calculate(&again).unwrap();
    assert_eq!(same, root);
    db.write_trie_updatesv2(updates);
    assert_eq!(db.advance(&again).unwrap(), root);
}

/// Records whose read fails at some paths, with the last half-byte as the code.
struct FailsAt {
    records: RecordTable,
    paths: Vec<Nibbles>,
}

impl NodeRecords for FailsAt {
    fn records(&self) -> Records {
        unreachable!()
    }

    fn faithful(&self) -> bool {
        unreachable!()
    }

    fn reliable(&self) -> bool {
        unreachable!()
    }

    fn record(&self, path: &Nibbles) -> Result<Option<Vec<u8>>, DatabaseError> {
        if self.paths.contains(path) {
            return Err(failure(path.as_slice().last().copied().unwrap_or(99)));
        }
        self.records.record(path)
    }
}

fn failure(code: u8) -> DatabaseError {
    DatabaseError::Read(DatabaseErrorInfo { message: "torn".to_string(), code: code as i32 })
}

#[test]
fn only_the_children_that_are_there_are_read() {
    let read = |paths: &[&[u8]], at: &[u8]| {
        let table =
            FailsAt { records: records(), paths: paths.iter().map(|p| nibbles(p)).collect() };
        let reader: AccountTrieReader<FailsAt, NodeStore> = AccountTrieReader::new(table, None);
        reader.read(&nibbles(at))
    };
    // Bits 2 and 5 are set.
    assert_eq!(read(&[&[0], &[1], &[3], &[4], &[6]], &[]), Ok(Some(expected_root())));
    assert_eq!(read(&[&[5]], &[]), Err(failure(5)));
    assert_eq!(read(&[&[5], &[2]], &[]), Err(failure(2)));
    assert_eq!(read(&[&[]], &[]), Err(failure(99)));
    // An extension that ends at [6, 3], and a leaf.
    assert_eq!(read(&[&[6, 3]], &[6]), Err(failure(3)));
    assert!(read(&[&[6, 4]], &[6]).unwrap().is_some());
    assert_eq!(read(&[&[5, 7, 8]], &[5]), Ok(Some(expected_leaf())));
}
