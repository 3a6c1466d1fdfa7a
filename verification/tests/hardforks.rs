use alloy_primitives::keccak256;

use gravity_state::bytes::ByteSeq;
use gravity_state::chain::{
    is_gravity_chain_id, ForkCondition, GravityHardfork, GravityHardforks,
    GRAVITY_MAINNET_CHAIN_ID, GRAVITY_TESTNET_CHAIN_ID,
};
use gravity_state::hardfork::{
    apply_gravity_hardfork_upgrades, gravity_hardfork_state_for_block, hardfork_upgrade_diff,
    merge_state, AccountInfo, AccountSource, AppliedV, BatchStoragePatch, BytecodeUpgrade,
    ChangeLog, ChangedAccount, EvmState, EvmStorageSlot, HardforkUpgrades, InfoV, MemoryState,
    StateExecutor, StateV, StoragePatch, Upgrades, TOUCHED,
};
use gravity_state::pipe_error::BlockExecutionError;
use gravity_state::state::KECCAK_EMPTY;
use gravity_state::vec_map::VecMap;

const SYSTEM: [u8; 20] = [1; 20];
const EXTRA: [u8; 20] = [2; 20];
const ABSENT: [u8; 20] = [3; 20];
const SLOT: [u8; 32] = [7; 32];
const OTHER_SLOT: [u8; 32] = [8; 32];

fn word(last: u8) -> [u8; 32] {
    let mut word = [0; 32];
    word[31] = last;
    word
}

/// New code for system contracts alone.
struct Plain(&'static [BytecodeUpgrade]);

impl HardforkUpgrades for Plain {
    fn name(&self) -> &'static str {
        "Plain"
    }

    fn system_upgrades(&self) -> &'static [BytecodeUpgrade] {
        self.0
    }
}

struct Fork {
    system: &'static [BytecodeUpgrade],
    extra: &'static [BytecodeUpgrade],
    patches: &'static [StoragePatch],
    batches: &'static [BatchStoragePatch],
}

impl HardforkUpgrades for Fork {
    fn name(&self) -> &'static str {
        "Fork"
    }

    fn system_upgrades(&self) -> &'static [BytecodeUpgrade] {
        self.system
    }

    fn extra_upgrades(&self) -> &'static [BytecodeUpgrade] {
        self.extra
    }

    fn storage_patches(&self) -> &'static [StoragePatch] {
        self.patches
    }

    fn batch_storage_patches(&self) -> &'static [BatchStoragePatch] {
        self.batches
    }
}

const NOTHING: Plain = Plain(&[]);

const CODE: Plain = Plain(&[(SYSTEM, &[0x60, 0x01])]);

const PATCH: Fork =
    Fork { system: &[], extra: &[], patches: &[(SYSTEM, SLOT, [9; 32])], batches: &[] };

fn state() -> MemoryState {
    let mut state = MemoryState { accounts: VecMap::new(), storage: VecMap::new() };
    for address in [SYSTEM, EXTRA] {
        let info = AccountInfo {
            balance: word(100),
            nonce: 5,
            code_hash: KECCAK_EMPTY,
            code: None,
        };
        state.accounts.insert(address, info);
    }
    let mut slots = VecMap::new();
    slots.insert(SLOT, word(42));
    state.storage.insert(SYSTEM, slots);
    state
}

/// A state that cannot be read.
struct Unreadable;

impl AccountSource for Unreadable {
    fn info_of(&self, _address: ByteSeq) -> Option<InfoV> {
        unreachable!()
    }

    fn slot_of(&self, _address: ByteSeq, _slot: ByteSeq) -> [u8; 32] {
        unreachable!()
    }

    fn reliable(&self) -> bool {
        unreachable!()
    }

    fn basic_ref(&self, _address: &[u8; 20]) -> Result<Option<AccountInfo>, String> {
        Err("\"io\"".to_string())
    }

    fn storage_ref(&self, _address: &[u8; 20], _slot: &[u8; 32]) -> Result<[u8; 32], String> {
        Err("\"io\"".to_string())
    }
}

/// An executor that takes nothing.
struct Refusing;

impl StateExecutor for Refusing {
    fn applied(&self) -> AppliedV {
        unreachable!()
    }

    fn accepts(&self, _changes: StateV) -> bool {
        unreachable!()
    }

    fn refuses(&self, _changes: StateV, _e: BlockExecutionError) -> bool {
        unreachable!()
    }

    fn apply_state_change(&mut self, _changes: EvmState) -> Result<(), BlockExecutionError> {
        Err(BlockExecutionError { message: "refused".to_string() })
    }
}

fn forks(alpha: u64, beta: u64) -> GravityHardforks {
    GravityHardforks {
        alpha: ForkCondition::Timestamp(alpha),
        beta: ForkCondition::Block(beta),
        gamma: ForkCondition::Never,
        delta: ForkCondition::Never,
    }
}

fn upgrades() -> Upgrades<Plain, Fork, Plain, Plain> {
    Upgrades { alpha: CODE, beta: PATCH, gamma: NOTHING, delta: NOTHING }
}

#[test]
fn chains_by_id() {
    assert!(is_gravity_chain_id(GRAVITY_MAINNET_CHAIN_ID));
    assert!(is_gravity_chain_id(GRAVITY_TESTNET_CHAIN_ID));
    assert!(is_gravity_chain_id(127001));
    assert!(is_gravity_chain_id(7771113));
    assert!(!is_gravity_chain_id(1));
}

#[test]
fn forks_activate_by_time_or_block() {
    let forks = forks(10, 20);
    assert!(forks.fork(GravityHardfork::Alpha).active_at_timestamp(10));
    assert!(!forks.fork(GravityHardfork::Alpha).active_at_timestamp(9));
    assert!(!forks.fork(GravityHardfork::Alpha).transitions_at_block(10));
    assert!(forks.fork(GravityHardfork::Beta).transitions_at_block(20));
    assert!(!forks.fork(GravityHardfork::Beta).transitions_at_block(21));
    assert!(!forks.fork(GravityHardfork::Gamma).active_at_timestamp(u64::MAX));
    assert!(!forks.fork(GravityHardfork::Delta).transitions_at_block(0));
}

#[test]
fn new_code_keeps_balance_and_nonce() {
    let fork = Fork {
        system: &[(SYSTEM, &[0x60, 0x01]), (ABSENT, &[0x00])],
        extra: &[(EXTRA, &[0x5b])],
        patches: &[],
        batches: &[],
    };
    let changes = hardfork_upgrade_diff(&fork, &state()).unwrap();
    assert_eq!(changes.len(), 2);
    let account = changes.get(&SYSTEM).unwrap();
    assert_eq!(account.info.balance, word(100));
    assert_eq!(account.info.nonce, 5);
    assert_eq!(account.info.code_hash, keccak256([0x60, 0x01]).0);
    assert_eq!(account.info.code, Some(vec![0x60, 0x01]));
    assert_eq!(account.status, TOUCHED);
    assert!(account.storage.is_empty());
    assert_eq!(changes.get(&EXTRA).unwrap().info.code, Some(vec![0x5b]));
    assert!(!changes.contains_key(&ABSENT));
}

#[test]
fn patches_remember_what_was_there() {
    let fork = Fork {
        system: &[],
        extra: &[],
        patches: &[(SYSTEM, SLOT, [9; 32]), (ABSENT, SLOT, [1; 32])],
        batches: &[(&[SYSTEM, EXTRA], OTHER_SLOT, [2; 32])],
    };
    let changes = hardfork_upgrade_diff(&fork, &state()).unwrap();
    let account = changes.get(&SYSTEM).unwrap();
    assert_eq!(
        account.storage.get(&SLOT),
        Some(&EvmStorageSlot {
            original_value: word(42),
            present_value: [9; 32],
            transaction_id: 0,
            is_cold: false,
        })
    );
    assert_eq!(account.storage.get(&OTHER_SLOT).unwrap().original_value, [0; 32]);
    assert_eq!(account.storage.get(&OTHER_SLOT).unwrap().present_value, [2; 32]);
    assert_eq!(account.info.nonce, 5);
    assert_eq!(changes.get(&EXTRA).unwrap().storage.len(), 1);
    let absent = &changes.get(&ABSENT).unwrap().info;
    assert_eq!((absent.balance, absent.nonce), ([0; 32], 0));
    assert_eq!(absent.code_hash, KECCAK_EMPTY);
}

#[test]
fn failed_reads_are_told_with_the_address() {
    let error = hardfork_upgrade_diff(&CODE, &Unreadable).unwrap_err();
    assert_eq!(
        error.message,
        "hardfork upgrade read 0x0101010101010101010101010101010101010101: \"io\""
    );
    let error = hardfork_upgrade_diff(&PATCH, &Unreadable).unwrap_err();
    assert_eq!(
        error.message,
        "hardfork patch read 0x0101010101010101010101010101010101010101: \"io\""
    );
    let mixed = Plain(&[(
        [
            0x5a, 0xae, 0xb6, 0x05, 0x3f, 0x3e, 0x94, 0xc9, 0xb9, 0xa0, 0x9f, 0x33, 0x66, 0x94,
            0x35, 0xe7, 0xef, 0x1b, 0xea, 0xed,
        ],
        &[0],
    )]);
    let error = hardfork_upgrade_diff(&mixed, &Unreadable).unwrap_err();
    assert_eq!(
        error.message,
        "hardfork upgrade read 0x5aAeb6053F3E94C9b9A09f33669435E7Ef1BeAed: \"io\""
    );
}

#[test]
fn due_forks_are_merged() {
    let db = state();
    let both = gravity_hardfork_state_for_block(&forks(10, 20), &upgrades(), 20, 10, &db).unwrap();
    let account = both.get(&SYSTEM).unwrap();
    assert_eq!(account.storage.get(&SLOT).unwrap().present_value, [9; 32]);
    assert_eq!(account.info.code, None);
    let alpha = gravity_hardfork_state_for_block(&forks(10, 20), &upgrades(), 21, 11, &db).unwrap();
    assert_eq!(alpha.get(&SYSTEM).unwrap().info.code, Some(vec![0x60, 0x01]));
    let none = gravity_hardfork_state_for_block(&forks(10, 20), &upgrades(), 19, 9, &db).unwrap();
    assert!(none.is_empty());
}

#[test]
fn merged_storage_is_joined() {
    let slot = |value: u8| EvmStorageSlot {
        original_value: [0; 32],
        present_value: [value; 32],
        transaction_id: 0,
        is_cold: false,
    };
    let account = |nonce: u64, status: u8, key: [u8; 32], value: u8| {
        let mut storage = VecMap::new();
        storage.insert(key, slot(value));
        ChangedAccount {
            info: AccountInfo { balance: [0; 32], nonce, code_hash: KECCAK_EMPTY, code: None },
            storage,
            status,
            transaction_id: 0,
        }
    };
    let mut into: EvmState = VecMap::new();
    into.insert(SYSTEM, account(1, 1, SLOT, 1));
    let mut from: EvmState = VecMap::new();
    from.insert(SYSTEM, account(2, TOUCHED, OTHER_SLOT, 2));
    from.insert(EXTRA, account(3, TOUCHED, SLOT, 3));
    merge_state(&mut into, from);
    let merged = into.get(&SYSTEM).unwrap();
    assert_eq!(merged.info.nonce, 2);
    assert_eq!(merged.status, 1 | TOUCHED);
    assert_eq!(merged.storage.get(&SLOT), Some(&slot(1)));
    assert_eq!(merged.storage.get(&OTHER_SLOT), Some(&slot(2)));
    assert_eq!(into.get(&EXTRA).unwrap().info.nonce, 3);
    let mut again: EvmState = VecMap::new();
    merge_state(&mut again, into);
    merge_state(&mut again, VecMap::new());
    assert_eq!(again.len(), 2);
    assert_eq!(again.get(&SYSTEM).unwrap().storage.len(), 2);
}

#[test]
fn changes_are_applied_once() {
    let db = state();
    let mut log = ChangeLog { changes: Vec::new() };
    apply_gravity_hardfork_upgrades(&mut log, &forks(10, 20), &upgrades(), 5, 5, &db).unwrap();
    assert!(log.changes.is_empty());
    apply_gravity_hardfork_upgrades(&mut log, &forks(10, 20), &upgrades(), 5, 50, &db).unwrap();
    assert_eq!(log.changes.len(), 1);
    assert!(log.changes[0].contains_key(&SYSTEM));
    let refused =
        apply_gravity_hardfork_upgrades(&mut Refusing, &forks(10, 20), &upgrades(), 5, 50, &db);
    assert_eq!(refused, Err(BlockExecutionError { message: "refused".to_string() }));
    assert_eq!(
        apply_gravity_hardfork_upgrades(&mut Refusing, &forks(10, 20), &upgrades(), 5, 5, &db),
        Ok(())
    );
    let unread = apply_gravity_hardfork_upgrades(
        &mut log,
        &forks(10, 20),
        &upgrades(),
        5,
        50,
        &Unreadable,
    );
    assert!(unread.unwrap_err().message.starts_with("hardfork upgrade read 0x0101"));
    assert_eq!(log.changes.len(), 1);
}

#[test]
fn what_is_not_listed_stays() {
    assert_eq!(CODE.name(), "Plain");
    assert_eq!(CODE.system_upgrades().len(), 1);
    assert!(CODE.extra_upgrades().is_empty());
    assert!(CODE.storage_patches().is_empty());
    assert!(CODE.batch_storage_patches().is_empty());
    assert!(hardfork_upgrade_diff(&NOTHING, &state()).unwrap().is_empty());
}

#[test]
fn bad_code_for_an_absent_account_does_no_harm() {
    let delegation = Plain(&[(ABSENT, &[0xef, 0x01, 0x00])]);
    assert!(hardfork_upgrade_diff(&delegation, &state()).unwrap().is_empty());
}
