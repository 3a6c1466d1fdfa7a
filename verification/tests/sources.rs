use gravity_state::errors::{DatabaseError, ProviderError};
use gravity_state::memory::StoreReader;
use gravity_state::nested_root::{NestedStateRoot, StateSource};
use gravity_state::nibbles::Nibbles;
use gravity_state::node::Node;
use gravity_state::reader::{
    AccountTrieReader, NodeCache, NodeRecords, RecordTable, Records, StorageRecordTable,
};
use gravity_state::rlp::B256;
use gravity_state::state::{Account, HashedPostState, HashedStorage};
use gravity_state::state_db::{genesis_root, StateDb};
use gravity_state::store::TrieReader;
use gravity_state::table_source::{CachedTables, RecordTables, TrieTables};
use gravity_state::tree::EMPTY_ROOT_HASH;
use gravity_state::vec_map::VecMap;

const FIRST: B256 = [0x11; 32];
const SECOND: B256 = [0x22; 32];
const SLOT: B256 = [0x33; 32];

fn account(nonce: u64) -> Account {
    Account { nonce, balance: [0; 32], bytecode_hash: None }
}

fn state(accounts: &[(B256, Option<u64>)]) -> HashedPostState {
    let mut state = HashedPostState::new();
    for (address, nonce) in accounts {
        state.accounts.insert(*address, nonce.map(account));
        if nonce.is_some() {
            let mut storage = HashedStorage { wiped: false, storage: VecMap::new() };
            storage.storage.insert(SLOT, [7; 32]);
            state.storages.insert(*address, storage);
        }
    }
    state
}

fn no_records() -> (RecordTable, StorageRecordTable) {
    (RecordTable { entries: VecMap::new() }, StorageRecordTable { accounts: VecMap::new() })
}

/// The record of the only node of a trie.
fn leaf_record(nodes: StoreReader<'_>) -> RecordTable {
    let mut entries = VecMap::new();
    match nodes.read(&Nibbles::new()) {
        Ok(Some(Node::ShortNode { key, value, .. })) => {
            let mut record = vec![1, 64];
            record.extend_from_slice(key.as_slice());
            record.extend_from_slice(&[1, 0xc0, 2]);
            match *value {
                Node::ValueNode(value) => record.extend_from_slice(&value),
                other => panic!("{:?}", other),
            }
            entries.insert(Nibbles::new(), record);
        }
        other => panic!("{:?}", other),
    }
    RecordTable { entries }
}

/// Records that cannot be read.
struct Torn;

impl NodeRecords for Torn {
    fn records(&self) -> Records {
        unreachable!()
    }

    fn faithful(&self) -> bool {
        unreachable!()
    }

    fn reliable(&self) -> bool {
        unreachable!()
    }

    fn record(&self, _path: &Nibbles) -> Result<Option<Vec<u8>>, DatabaseError> {
        Err(DatabaseError::Decode)
    }
}

#[test]
fn tables_without_records_hold_nothing() {
    let (accounts, storages) = no_records();
    let tables = RecordTables { accounts: &accounts, storages: &storages };
    let changes = state(&[(FIRST, Some(1)), (SECOND, Some(2))]);
    let source: NestedStateRoot<CachedTables<RecordTables<'_>, &StateDb>> =
        NestedStateRoot::with_cache(tables, None);
    let (root, _) = source.calculate(&changes).unwrap();
    assert_eq!(root, genesis_root(&changes));
}

#[test]
fn cached_nodes_are_as_good_as_stored_ones() {
    let mut db = StateDb::new();
    db.advance(&state(&[(FIRST, Some(1)), (SECOND, Some(2))])).unwrap();
    let (accounts, storages) = no_records();
    let tables = RecordTables { accounts: &accounts, storages: &storages };
    let changes = state(&[(FIRST, None), (SECOND, Some(3))]);
    let cached = NestedStateRoot::with_cache(tables, Some(&db)).calculate(&changes).unwrap();
    let stored = NestedStateRoot::new(&db).calculate(&changes).unwrap();
    assert_eq!(cached, stored);
    assert_eq!(cached.0, genesis_root(&state(&[(SECOND, Some(3))])));
}

#[test]
fn nodes_are_read_from_the_records_of_the_tables() {
    let mut db = StateDb::new();
    db.advance(&state(&[(FIRST, Some(1))])).unwrap();
    let accounts = leaf_record(db.account_nodes());
    let mut by_account = VecMap::new();
    by_account.insert(FIRST, leaf_record(db.storage_nodes(&FIRST)));
    let storages = StorageRecordTable { accounts: by_account };
    let tables = RecordTables { accounts: &accounts, storages: &storages };
    assert!(tables.accounts().is_ok());
    let source: CachedTables<RecordTables<'_>, &StateDb> = CachedTables::new(tables, None);
    let reader = source.account_reader().unwrap();
    assert_eq!(reader.read(&Nibbles::new()), db.account_nodes().read(&Nibbles::new()));
    let changes = state(&[(SECOND, Some(2))]);
    let (root, _) = NestedStateRoot::new(source).calculate(&changes).unwrap();
    assert_eq!(root, genesis_root(&state(&[(FIRST, Some(1)), (SECOND, Some(2))])));
}

#[test]
fn cached_node_is_read_though_the_table_fails() {
    let mut db = StateDb::new();
    db.advance(&state(&[(FIRST, Some(1))])).unwrap();
    let reader = AccountTrieReader::new(Torn, Some(db.account_nodes()));
    assert_eq!(reader.read(&Nibbles::new()), Ok(db.account_nodes().cached_node(&Nibbles::new())));
    assert!(reader.read(&Nibbles::new()).unwrap().is_some());
    let elsewhere = Nibbles::from_nibbles_unchecked(&[1]);
    assert_eq!(reader.read(&elsewhere), Err(DatabaseError::Decode));
}

#[test]
fn deleting_all_accounts_leaves_no_node() {
    let mut db = StateDb::new();
    let first_root = db.advance(&state(&[(FIRST, Some(1))])).unwrap();
    db.advance(&state(&[(SECOND, Some(2))])).unwrap();
    assert_eq!(db.advance(&state(&[(SECOND, None)])).unwrap(), first_root);
    let (_, updates) = NestedStateRoot::new(&db).calculate(&state(&[(FIRST, None)])).unwrap();
    assert!(updates.storage_tries.get(&FIRST).unwrap().is_deleted);
    assert_eq!(db.advance(&state(&[(FIRST, None)])).unwrap(), EMPTY_ROOT_HASH);
    assert!(db.is_empty());
}

#[test]
fn unchanged_storage_has_no_updates() {
    let mut db = StateDb::new();
    db.advance(&state(&[(FIRST, Some(1))])).unwrap();
    let mut again = HashedPostState::new();
    again.accounts.insert(FIRST, Some(account(2)));
    let (_, updates) = NestedStateRoot::new(&db).calculate(&again).unwrap();
    assert!(updates.storage_tries.is_empty());
    assert!(!updates.account_nodes.is_empty());
}

/// Tables that cannot be had.
struct Locked;

impl TrieTables for Locked {
    type Accounts = Torn;

    type Storages = StorageRecordTable;

    fn account_records(&self) -> Records {
        unreachable!()
    }

    fn storage_records(&self, _hashed_address: gravity_state::bytes::ByteSeq) -> Records {
        unreachable!()
    }

    fn reliable(&self) -> bool {
        unreachable!()
    }

    fn accounts(&self) -> Result<Torn, ProviderError> {
        Ok(Torn)
    }

    fn storages(&self) -> Result<StorageRecordTable, ProviderError> {
        Err(ProviderError::BestBlockNotFound)
    }
}

#[test]
fn failures_of_the_tables_are_handed_on() {
    let source = NestedStateRoot::<CachedTables<Locked, &StateDb>>::with_cache(Locked, None);
    let failed = source.calculate(&state(&[(FIRST, Some(1))]));
    assert_eq!(failed, Err(ProviderError::BestBlockNotFound));
    let failed = source.calculate(&state(&[(FIRST, None)]));
    assert_eq!(failed, Err(ProviderError::Database(DatabaseError::Decode)));
}

#[test]
fn two_rounds_come_to_the_same_as_one() {
    let with_slots = |address: B256, nonce: u64, slots: &[(u8, u8)]| {
        let mut state = HashedPostState::new();
        state.accounts.insert(address, Some(account(nonce)));
        let mut storage = HashedStorage { wiped: false, storage: VecMap::new() };
        for (slot, value) in slots {
            storage.storage.insert([*slot; 32], [*value; 32]);
        }
        state.storages.insert(address, storage);
        state
    };
    let mut rounds = StateDb::new();
    rounds.advance(&with_slots(FIRST, 1, &[(0x10, 1), (0x20, 2)])).unwrap();
    let root = rounds.advance(&with_slots(FIRST, 2, &[(0x20, 0), (0x30, 3)])).unwrap();
    let mut once = StateDb::new();
    let merged = with_slots(FIRST, 2, &[(0x10, 1), (0x20, 0), (0x30, 3)]);
    assert_eq!(once.advance(&merged).unwrap(), root);
    let top = |db: &StateDb| db.account_nodes().read(&Nibbles::new());
    assert_eq!(top(&once), top(&rounds));
    let at = |db: &StateDb| db.storage_nodes(&FIRST).read(&Nibbles::new());
    assert_eq!(at(&once), at(&rounds));
}
