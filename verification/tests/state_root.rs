use std::collections::BTreeMap;
use std::collections::HashMap;

use alloy_primitives::{keccak256, Address, B256, U256};
use alloy_trie::{HashBuilder, TrieAccount};
use rand::Rng;

use gravity_state::memory::NoWriter;
use gravity_state::nested_root::{NestedStateRoot, StateSource};
use gravity_state::nibbles::Nibbles;
use gravity_state::node::Node;
use gravity_state::state::{
    Account, HashedPostState, HashedStorage, StorageTrieUpdatesV2, TrieUpdatesV2, KECCAK_EMPTY,
};
use gravity_state::state_db::{genesis_root, StateDb};
use gravity_state::tree::EMPTY_ROOT_HASH;
use gravity_state::trie::Trie;
use gravity_state::vec_map::VecMap;

type State = HashMap<Address, (Account, HashMap<B256, U256>)>;

fn account(nonce: u64, balance: U256) -> Account {
    Account { nonce, balance: balance.to_be_bytes(), bytecode_hash: None }
}

/// The root of a trie with the given keys and values, built by `alloy_trie`.
fn expected_root(entries: &BTreeMap<B256, Vec<u8>>) -> B256 {
    let mut builder = HashBuilder::default();
    for (key, value) in entries {
        builder.add_leaf(nybbles::Nibbles::unpack(key), value);
    }
    builder.root()
}

fn expected_storage_root(storage: &HashMap<B256, U256>) -> B256 {
    let entries = storage
        .iter()
        .filter(|(_, v)| !v.is_zero())
        .map(|(k, v)| (keccak256(k), alloy_rlp::encode(v)))
        .collect();
    expected_root(&entries)
}

fn expected_state_root(state: &State) -> B256 {
    let entries = state
        .iter()
        .map(|(address, (account, storage))| {
            let account = TrieAccount::new(
                account.nonce,
                U256::from_be_bytes(account.balance),
                expected_storage_root(storage),
                B256::from(account.bytecode_hash.unwrap_or(KECCAK_EMPTY)),
            );
            (keccak256(address), alloy_rlp::encode(account))
        })
        .collect();
    expected_root(&entries)
}

fn calculate(state: &State, db: &StateDb, is_insert: bool) -> ([u8; 32], TrieUpdatesV2) {
    let mut storage_tries = VecMap::new();
    let mut batch: Vec<(Nibbles, Option<Node>)> = Vec::new();
    for (address, (account, storage)) in state {
        let hashed_address = keccak256(address).0;
        let reader = (&db).storage_reader(&hashed_address).unwrap();
        let mut storage_trie = Trie::open(reader, NoWriter).unwrap();
        let mut slots: Vec<(Nibbles, Option<Node>)> = Vec::new();
        for (slot, value) in storage {
            let value = alloy_rlp::encode_fixed_size(value).to_vec();
            slots.push((
                Nibbles::unpack(keccak256(slot).as_slice()),
                is_insert.then_some(Node::ValueNode(value)),
            ));
        }
        storage_trie.update(slots, 64).unwrap();
        let storage_root = storage_trie.hash();
        let rlp_account = account.into_trie_account(&storage_root);
        let output = storage_trie.take_output();
        let updates = StorageTrieUpdatesV2 {
            is_deleted: false,
            storage_nodes: output.update_nodes,
            removed_nodes: output.removed_nodes,
        };
        batch.push((
            Nibbles::unpack(&hashed_address),
            is_insert.then_some(Node::ValueNode(rlp_account)),
        ));
        assert!(storage_tries.insert(hashed_address, updates).is_none());
    }
    let reader = (&db).account_reader().unwrap();
    let mut account_trie = Trie::open(reader, NoWriter).unwrap();
    account_trie.update(batch, 64).unwrap();
    let root = account_trie.hash();
    let output = account_trie.take_output();
    (
        root,
        TrieUpdatesV2 {
            account_nodes: output.update_nodes,
            removed_nodes: output.removed_nodes,
            storage_tries,
        },
    )
}

fn random_state() -> State {
    let mut rng = rand::rng();
    (0..100)
        .map(|_| {
            let address = Address::from(rng.random::<[u8; 20]>());
            let account = account(0, U256::from(rng.random::<u64>()));
            let mut storage = HashMap::<B256, U256>::default();
            if rng.random_bool(0.7) {
                for _ in 0..100 {
                    storage.insert(
                        B256::from(U256::from(rng.random::<u64>())),
                        U256::from(rng.random::<u64>()),
                    );
                }
            }
            (address, (account, storage))
        })
        .collect()
}

fn merge_state(mut state1: State, state2: State) -> State {
    for (address, (account, storage)) in state2 {
        let origin = state1.entry(address).or_insert((account, HashMap::new()));
        origin.0 = account;
        origin.1.extend(storage);
    }
    state1
}

fn hashed(state: &State) -> HashedPostState {
    let mut hashed_state = HashedPostState::new();
    for (address, (account, storage)) in state {
        let hashed_address = keccak256(address).0;
        hashed_state.accounts.insert(hashed_address, Some(*account));
        let mut hashed_storage = HashedStorage { wiped: false, storage: VecMap::new() };
        for (slot, value) in storage {
            hashed_storage.storage.insert(keccak256(slot).0, value.to_be_bytes());
        }
        hashed_state.storages.insert(hashed_address, hashed_storage);
    }
    hashed_state
}

#[test]
fn nested_state_root() {
    let state1 = random_state();
    let mut db = StateDb::new();

    let (state_root1, trie_input1) = calculate(&state1, &db, true);
    assert_eq!(state_root1, expected_state_root(&state1).0);

    db.write_trie_updatesv2(trie_input1);
    let state2 = random_state();
    let (state_root2, trie_input2) = calculate(&state2, &db, true);
    let state_merged = merge_state(state1.clone(), state2.clone());
    db.write_trie_updatesv2(trie_input2);

    assert_eq!(state_root2, expected_state_root(&state_merged).0);
    let (state_root_merged, ..) = calculate(&state_merged, &StateDb::new(), true);
    assert_eq!(state_root2, state_root_merged);

    if state_merged.len() == state1.len() + state2.len() {
        let (delete_root1, delete_input1) = calculate(&state2, &db, false);
        assert_eq!(delete_root1, state_root1);
        db.write_trie_updatesv2(delete_input1);
        let (delete_root2, delete_input2) = calculate(&state1, &db, false);
        // all data is gone
        assert_eq!(delete_root2, EMPTY_ROOT_HASH);
        db.write_trie_updatesv2(delete_input2);
        assert!(db.is_empty());
    }
}

#[test]
fn nested_hash_calculate() {
    let state = random_state();
    let db = StateDb::new();
    let (root_hash, ..) = NestedStateRoot::new(&db).calculate(&hashed(&state)).unwrap();
    assert_eq!(root_hash, expected_state_root(&state).0);
}

#[test]
fn genesis_root_is_that_of_the_first_step() {
    let state = random_state();
    assert_eq!(genesis_root(&hashed(&state)), expected_state_root(&state).0);
    assert_eq!(genesis_root(&HashedPostState::new()), EMPTY_ROOT_HASH);
}

#[test]
fn empty_root_and_code_hash() {
    assert_eq!(EMPTY_ROOT_HASH, alloy_trie::EMPTY_ROOT_HASH.0);
    assert_eq!(KECCAK_EMPTY, alloy_primitives::KECCAK256_EMPTY.0);
}
