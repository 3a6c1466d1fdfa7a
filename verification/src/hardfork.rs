//! State changes that hardforks make: new code for contracts, and patched storage slots.

use vstd::prelude::*;
use vstd::slice::slice_to_vec;
use vstd::string::StringExecFns;

use crate::bytes::ByteSeq;
use crate::chain::{ForkCondition, GravityHardfork, GravityHardforks};
use crate::pipe_error::BlockExecutionError;
use crate::rlp::{keccak, keccak256, B256, U256, ZERO_WORD};
use crate::state::KECCAK_EMPTY;
use crate::trie_cache::Address;
use crate::vec_map::{distinct, entries_map, lemma_next_entry, MapKey, VecMap};

verus! {

/// New code for the contract at an address.
pub type BytecodeUpgrade = (Address, &'static [u8]);

/// A new value for a slot of the contract at an address.
pub type StoragePatch = (Address, B256, U256);

/// A new value for the same slot of many contracts.
pub type BatchStoragePatch = (&'static [Address], B256, U256);

/// The mark of an account that has to be written.
pub const TOUCHED: u8 = 4;

/// What is known of an account.
#[derive(Debug, PartialEq, Eq)]
pub struct AccountInfo {
    /// Its balance.
    pub balance: U256,
    /// How many transactions it has sent.
    pub nonce: u64,
    /// The hash of its code.
    pub code_hash: B256,
    /// Its code, where that is loaded.
    pub code: Option<Vec<u8>>,
}

/// The mathematical view of an [`AccountInfo`].
pub ghost struct InfoV {
    /// Of [`AccountInfo::balance`].
    pub balance: U256,
    /// Of [`AccountInfo::nonce`].
    pub nonce: u64,
    /// Of [`AccountInfo::code_hash`].
    pub code_hash: B256,
    /// Of [`AccountInfo::code`].
    pub code: Option<Seq<u8>>,
}

impl View for AccountInfo {
    type V = InfoV;

    open spec fn view(&self) -> InfoV {
        InfoV {
            balance: self.balance,
            nonce: self.nonce,
            code_hash: self.code_hash,
            code: match self.code {
                Some(c) => Some(c@),
                None => None,
            },
        }
    }
}

/// What is known of an account that does not exist.
pub open spec fn no_info() -> InfoV {
    InfoV { balance: ZERO_WORD, nonce: 0, code_hash: KECCAK_EMPTY, code: Some(Seq::empty()) }
}

/// A changed slot.
#[derive(Debug, Clone, Copy, PartialEq, Eq)]
pub struct EvmStorageSlot {
    /// The value before the change.
    pub original_value: U256,
    /// The value after it.
    pub present_value: U256,
    /// The transaction that last used the slot.
    pub transaction_id: u64,
    /// Whether the slot has yet to be loaded.
    pub is_cold: bool,
}

/// A changed account.
#[derive(Debug, PartialEq, Eq)]
pub struct ChangedAccount {
    /// What is known of the account.
    pub info: AccountInfo,
    /// The changed slots.
    pub storage: VecMap<U256, EvmStorageSlot>,
    /// Marks, one to a bit.
    pub status: u8,
    /// The transaction that last used the account.
    pub transaction_id: u64,
}

/// The mathematical view of a [`ChangedAccount`].
pub ghost struct AccountV {
    /// Of [`ChangedAccount::info`].
    pub info: InfoV,
    /// Of [`ChangedAccount::storage`].
    pub storage: Map<Seq<u8>, EvmStorageSlot>,
    /// Of [`ChangedAccount::status`].
    pub status: u8,
    /// Of [`ChangedAccount::transaction_id`].
    pub transaction_id: u64,
}

impl View for ChangedAccount {
    type V = AccountV;

    open spec fn view(&self) -> AccountV {
        AccountV {
            info: self.info@,
            storage: self.storage@,
            status: self.status,
            transaction_id: self.transaction_id,
        }
    }
}

/// Changed accounts by address.
pub type EvmState = VecMap<Address, ChangedAccount>;

/// The mathematical view of changed accounts.
pub type StateV = Map<Seq<u8>, AccountV>;

/// The views of changed accounts.
pub open spec fn state_view(m: Map<Seq<u8>, ChangedAccount>) -> StateV {
    m.map_values(|a: ChangedAccount| a@)
}

/// What a hardfork upgrades. What it does not list it leaves as it is.
pub trait HardforkUpgrades {
    /// The name of the hardfork.
    fn name(&self) -> &'static str;

    /// New code for system contracts.
    fn system_upgrades(&self) -> &'static [BytecodeUpgrade];

    /// New code for other contracts.
    fn extra_upgrades(&self) -> (r: &'static [BytecodeUpgrade])
        default_ensures
            r@ == Seq::<BytecodeUpgrade>::empty(),
    {
        let r: &'static [BytecodeUpgrade] = &[];
        assert(r@ =~= Seq::empty());
        r
    }

    /// New slot values.
    fn storage_patches(&self) -> (r: &'static [StoragePatch])
        default_ensures
            r@ == Seq::<StoragePatch>::empty(),
    {
        let r: &'static [StoragePatch] = &[];
        assert(r@ =~= Seq::empty());
        r
    }

    /// New values for the same slot of many contracts.
    fn batch_storage_patches(&self) -> (r: &'static [BatchStoragePatch])
        default_ensures
            r@ == Seq::<BatchStoragePatch>::empty(),
    {
        let r: &'static [BatchStoragePatch] = &[];
        assert(r@ =~= Seq::empty());
        r
    }
}

/// What a hardfork lists.
pub ghost struct UpgradeLists {
    /// New code for system contracts.
    pub system: Seq<BytecodeUpgrade>,
    /// New code for other contracts.
    pub extra: Seq<BytecodeUpgrade>,
    /// New slot values.
    pub patches: Seq<StoragePatch>,
    /// New values for the same slot of many contracts.
    pub batches: Seq<BatchStoragePatch>,
}

/// `us` may be the new code for system contracts.
pub open spec fn lists_system<H: HardforkUpgrades>(h: H, us: Seq<BytecodeUpgrade>) -> bool {
    exists|r: &'static [BytecodeUpgrade]|
        r@ == us && #[trigger] call_ensures(H::system_upgrades, (&h,), r)
}

/// `us` may be the new code for other contracts.
pub open spec fn lists_extra<H: HardforkUpgrades>(h: H, us: Seq<BytecodeUpgrade>) -> bool {
    exists|r: &'static [BytecodeUpgrade]|
        r@ == us && #[trigger] call_ensures(H::extra_upgrades, (&h,), r)
}

/// `ps` may be the new slot values.
pub open spec fn lists_patches<H: HardforkUpgrades>(h: H, ps: Seq<StoragePatch>) -> bool {
    exists|r: &'static [StoragePatch]|
        r@ == ps && #[trigger] call_ensures(H::storage_patches, (&h,), r)
}

/// `bs` may be the new values for the same slot of many contracts.
pub open spec fn lists_batches<H: HardforkUpgrades>(h: H, bs: Seq<BatchStoragePatch>) -> bool {
    exists|r: &'static [BatchStoragePatch]|
        r@ == bs && #[trigger] call_ensures(H::batch_storage_patches, (&h,), r)
}

/// `l` is what a hardfork lists.
pub open spec fn listed_by<H: HardforkUpgrades>(h: H, l: UpgradeLists) -> bool {
    &&& lists_system(h, l.system)
    &&& lists_extra(h, l.extra)
    &&& lists_patches(h, l.patches)
    &&& lists_batches(h, l.batches)
}

/// The state before a hardfork.
pub trait AccountSource {
    /// What is known of an account.
    spec fn info_of(&self, address: ByteSeq) -> Option<InfoV>;

    /// The value of a slot.
    spec fn slot_of(&self, address: ByteSeq, slot: ByteSeq) -> U256;

    /// Reads do not fail.
    spec fn reliable(&self) -> bool;

    /// What is known of an account. A failure is told in words.
    fn basic_ref(&self, address: &Address) -> (r: Result<Option<AccountInfo>, String>)
        ensures
            r matches Ok(i) ==> match i {
                Some(i) => self.info_of(address@) == Some(i@),
                None => self.info_of(address@) is None,
            },
            self.reliable() ==> r is Ok,
    ;

    /// The value of a slot. A failure is told in words.
    fn storage_ref(&self, address: &Address, slot: &U256) -> (r: Result<U256, String>)
        ensures
            r matches Ok(v) ==> v == self.slot_of(address@, slot@),
            self.reliable() ==> r is Ok,
    ;
}

/// An address in the mixed-case form that carries a checksum.
pub uninterp spec fn checksum_text(address: Seq<u8>) -> Seq<char>;

/// Calls `to_string` of an `alloy_primitives::Address`, which writes it in the mixed-case form
/// that carries a checksum. Its result is named [`checksum_text`].
#[verifier::external_body]
fn address_text(address: &Address) -> (r: String)
    ensures
        r@ == checksum_text(address@),
{
    alloy_primitives::Address::from(*address).to_string()
}

/// Bytes that can be code: those that start like a delegation are one.
pub open spec fn is_code(bytes: Seq<u8>) -> bool {
    bytes.len() >= 2 && bytes[0] == 0xef && bytes[1] == 0x01 ==> bytes.len() == 23 && bytes[2] == 0
}

/// Calls `revm::bytecode::Bytecode::new_raw` and gives the bytes that the code was made of. It
/// refuses bytes that start like a delegation and are none.
#[verifier::external_body]
fn raw_bytecode(bytes: &[u8]) -> (r: Vec<u8>)
    requires
        is_code(bytes@),
    ensures
        r@ == bytes@,
{
    let bytes = alloy_primitives::Bytes::copy_from_slice(bytes);
    revm::bytecode::Bytecode::new_raw(bytes).original_bytes().to_vec()
}

/// The message of a failed read.
pub open spec fn read_message(what: Seq<char>, address: Seq<u8>, failure: Seq<char>) -> Seq<char> {
    what + checksum_text(address) + ": "@ + failure
}

/// `e` tells that the read of the account at `address` failed, and what the failure was.
pub open spec fn info_read_failed<DB: AccountSource>(
    db: DB,
    what: Seq<char>,
    address: Address,
    e: BlockExecutionError,
) -> bool {
    exists|failure: String| #[trigger]
        call_ensures(
            DB::basic_ref,
            (&db, &address),
            Err::<Option<AccountInfo>, String>(failure),
        ) && e.message@ == read_message(what, address@, failure@)
}

/// `e` tells that the read of a slot failed, and what the failure was.
pub open spec fn slot_read_failed<DB: AccountSource>(
    db: DB,
    address: Address,
    slot: U256,
    e: BlockExecutionError,
) -> bool {
    exists|failure: String| #[trigger]
        call_ensures(DB::storage_ref, (&db, &address, &slot), Err::<U256, String>(failure))
            && e.message@ == read_message("hardfork patch read "@, address@, failure@)
}

/// `e` tells that the read for the new code of one of some contracts failed.
pub open spec fn code_failed<DB: AccountSource>(
    db: DB,
    us: Seq<BytecodeUpgrade>,
    e: BlockExecutionError,
) -> bool {
    exists|i: int|
        0 <= i < us.len() && info_read_failed(
            db,
            "hardfork upgrade read "@,
            (#[trigger] us[i]).0,
            e,
        )
}

/// `e` tells that a read for a new slot value failed.
pub open spec fn patch_failed<DB: AccountSource>(
    db: DB,
    address: Address,
    slot: U256,
    e: BlockExecutionError,
) -> bool {
    slot_read_failed(db, address, slot, e) || info_read_failed(
        db,
        "hardfork patch read "@,
        address,
        e,
    )
}

/// `e` tells that a read for one of some new slot values failed.
pub open spec fn patches_failed<DB: AccountSource>(
    db: DB,
    ps: Seq<StoragePatch>,
    e: BlockExecutionError,
) -> bool {
    exists|i: int|
        0 <= i < ps.len() && patch_failed(db, (#[trigger] ps[i]).0, ps[i].1, e)
}

/// `e` tells that a read for the same slot of one of some contracts failed.
pub open spec fn batch_failed<DB: AccountSource>(
    db: DB,
    b: BatchStoragePatch,
    e: BlockExecutionError,
) -> bool {
    exists|k: int| 0 <= k < b.0@.len() && patch_failed(db, #[trigger] b.0@[k], b.1, e)
}

/// `e` tells that a read for one of some such batches failed.
pub open spec fn batches_failed<DB: AccountSource>(
    db: DB,
    bs: Seq<BatchStoragePatch>,
    e: BlockExecutionError,
) -> bool {
    exists|i: int| 0 <= i < bs.len() && batch_failed(db, #[trigger] bs[i], e)
}

/// `e` tells that a read for the changes of a hardfork failed.
pub open spec fn diff_failed<H: HardforkUpgrades, DB: AccountSource>(
    h: H,
    db: DB,
    e: BlockExecutionError,
) -> bool {
    ||| exists|us: Seq<BytecodeUpgrade>| #[trigger]
        lists_system(h, us) && code_failed(db, us, e)
    ||| exists|us: Seq<BytecodeUpgrade>| #[trigger]
        lists_extra(h, us) && code_failed(db, us, e)
    ||| exists|ps: Seq<StoragePatch>| #[trigger]
        lists_patches(h, ps) && patches_failed(db, ps, e)
    ||| exists|bs: Seq<BatchStoragePatch>| #[trigger]
        lists_batches(h, bs) && batches_failed(db, bs, e)
}

/// The error of a failed read: what was read for, the address and the failure.
fn read_error(what: &str, address: &Address, failure: &String) -> (r: BlockExecutionError)
    ensures
        r.message@ == read_message(what@, address@, failure@),
{
    let message = what.to_owned().concat(address_text(address).as_str()).concat(": ").concat(
        failure.as_str(),
    );
    BlockExecutionError { message }
}

/// An account without changed slots that has to be written.
pub open spec fn touched(info: InfoV) -> AccountV {
    AccountV { info, storage: Map::empty(), status: TOUCHED, transaction_id: 0 }
}

/// `m` with new code for one contract. A contract that does not exist gets none; one that does
/// keeps its balance and nonce.
pub open spec fn with_code<DB: AccountSource>(m: StateV, db: DB, u: BytecodeUpgrade) -> StateV {
    match db.info_of(u.0@) {
        Some(info) => m.insert(
            u.0@,
            touched(InfoV { code_hash: keccak(u.1@), code: Some(u.1@), ..info }),
        ),
        None => m,
    }
}

/// `m` with new code for some contracts.
pub open spec fn with_codes<DB: AccountSource>(m: StateV, db: DB, us: Seq<BytecodeUpgrade>) -> StateV
    decreases us.len(),
{
    if us.len() == 0 {
        m
    } else {
        with_code(with_codes(m, db, us.drop_last()), db, us.last())
    }
}

/// `m` with a new slot value. An account that `m` does not have yet comes in as it is.
pub open spec fn with_patch<DB: AccountSource>(
    m: StateV,
    db: DB,
    address: Seq<u8>,
    slot: Seq<u8>,
    value: U256,
) -> StateV {
    let account = if m.contains_key(address) {
        m[address]
    } else {
        touched(
            match db.info_of(address) {
                Some(info) => info,
                None => no_info(),
            },
        )
    };
    m.insert(
        address,
        AccountV {
            storage: account.storage.insert(
                slot,
                EvmStorageSlot {
                    original_value: db.slot_of(address, slot),
                    present_value: value,
                    transaction_id: 0,
                    is_cold: false,
                },
            ),
            ..account
        },
    )
}

/// `m` with some new slot values.
pub open spec fn with_patches<DB: AccountSource>(m: StateV, db: DB, ps: Seq<StoragePatch>) -> StateV
    decreases ps.len(),
{
    if ps.len() == 0 {
        m
    } else {
        let p = ps.last();
        with_patch(with_patches(m, db, ps.drop_last()), db, p.0@, p.1@, p.2)
    }
}

/// `m` with a new value for the same slot of some contracts.
pub open spec fn with_batch<DB: AccountSource>(
    m: StateV,
    db: DB,
    addresses: Seq<Address>,
    slot: Seq<u8>,
    value: U256,
) -> StateV
    decreases addresses.len(),
{
    if addresses.len() == 0 {
        m
    } else {
        with_patch(
            with_batch(m, db, addresses.drop_last(), slot, value),
            db,
            addresses.last()@,
            slot,
            value,
        )
    }
}

/// `m` with some such batches.
pub open spec fn with_batches<DB: AccountSource>(
    m: StateV,
    db: DB,
    bs: Seq<BatchStoragePatch>,
) -> StateV
    decreases bs.len(),
{
    if bs.len() == 0 {
        m
    } else {
        let b = bs.last();
        with_batch(with_batches(m, db, bs.drop_last()), db, b.0@, b.1@, b.2)
    }
}

/// What a hardfork with these lists changes.
pub open spec fn upgrade_diff<DB: AccountSource>(l: UpgradeLists, db: DB) -> StateV {
    let code = with_codes(with_codes(Map::empty(), db, l.system), db, l.extra);
    with_batches(with_patches(code, db, l.patches), db, l.batches)
}

/// What is new code for an account that `db` knows can be code.
pub open spec fn upgrades_are_code<DB: AccountSource>(us: Seq<BytecodeUpgrade>, db: DB) -> bool {
    forall|i: int|
        0 <= i < us.len() && db.info_of((#[trigger] us[i]).0@) is Some ==> is_code(us[i].1@)
}

/// All new code of a hardfork for accounts that `db` knows can be code.
pub open spec fn fork_is_code<H: HardforkUpgrades, DB: AccountSource>(h: H, db: DB) -> bool {
    &&& forall|us: Seq<BytecodeUpgrade>| #[trigger]
        lists_system(h, us) ==> upgrades_are_code(us, db)
    &&& forall|us: Seq<BytecodeUpgrade>| #[trigger]
        lists_extra(h, us) ==> upgrades_are_code(us, db)
}

/// A changed account is put in place.
proof fn lemma_state_insert(m: Map<Seq<u8>, ChangedAccount>, a: Seq<u8>, x: ChangedAccount)
    ensures
        state_view(m.insert(a, x)) == state_view(m).insert(a, x@),
{
    assert(state_view(m.insert(a, x)) =~= state_view(m).insert(a, x@));
}

/// Puts new code in place.
fn upgrade_code<DB: AccountSource>(changes: &mut EvmState, db: &DB, upgrades: &[BytecodeUpgrade])
    -> (r: Result<(), BlockExecutionError>)
    requires
        upgrades_are_code(upgrades@, *db),
    ensures
        db.reliable() ==> r is Ok,
        r is Ok ==> state_view(final(changes)@) == with_codes(
            state_view(old(changes)@),
            *db,
            upgrades@,
        ),
        r matches Err(e) ==> code_failed(*db, upgrades@, e),
{
    let ghost start = state_view(changes@);
    let mut i: usize = 0;
    assert(upgrades@.take(0) =~= Seq::empty());
    while i < upgrades.len()
        invariant
            i <= upgrades@.len(),
            upgrades_are_code(upgrades@, *db),
            state_view(changes@) == with_codes(start, *db, upgrades@.take(i as int)),
        decreases upgrades@.len() - i,
    {
        proof {
            assert(upgrades@.take(i + 1).drop_last() =~= upgrades@.take(i as int));
            assert(upgrades@.take(i + 1).last() == upgrades@[i as int]);
        }
        let (address, bytecode) = upgrades[i];
        match db.basic_ref(&address) {
            Ok(Some(info)) => {
                let account = ChangedAccount {
                    info: AccountInfo {
                        balance: info.balance,
                        nonce: info.nonce,
                        code_hash: keccak256(bytecode),
                        code: Some(raw_bytecode(bytecode)),
                    },
                    storage: VecMap::new(),
                    status: TOUCHED,
                    transaction_id: 0,
                };
                proof {
                    lemma_state_insert(changes@, address@, account);
                }
                changes.insert(address, account);
            },
            Ok(None) => {},
            Err(e) => return Err(read_error("hardfork upgrade read ", &address, &e)),
        }
        i += 1;
    }
    assert(upgrades@.take(i as int) =~= upgrades@);
    Ok(())
}

/// Puts a new slot value in place.
fn patch_storage<DB: AccountSource>(
    changes: &mut EvmState,
    db: &DB,
    address: Address,
    slot: U256,
    value: U256,
) -> (r: Result<(), BlockExecutionError>)
    ensures
        db.reliable() ==> r is Ok,
        r is Ok ==> state_view(final(changes)@) == with_patch(
            state_view(old(changes)@),
            *db,
            address@,
            slot@,
            value,
        ),
        r matches Err(e) ==> {
            &&& final(changes)@ == old(changes)@
            &&& slot_read_failed(*db, address, slot, e) || !old(changes)@.contains_key(address@)
                && info_read_failed(*db, "hardfork patch read "@, address, e)
        },
{
    let ghost before = changes@;
    let original_value = match db.storage_ref(&address, &slot) {
        Ok(v) => v,
        Err(e) => return Err(read_error("hardfork patch read ", &address, &e)),
    };
    let mut account = match changes.remove(&address) {
        Some(account) => account,
        None => {
            let info = match db.basic_ref(&address) {
                Ok(Some(info)) => info,
                Ok(None) => AccountInfo {
                    balance: ZERO_WORD,
                    nonce: 0,
                    code_hash: KECCAK_EMPTY,
                    code: Some(Vec::new()),
                },
                    Err(e) => {
                    assert(changes@ =~= before);
                    return Err(read_error("hardfork patch read ", &address, &e));
                },
            };
            ChangedAccount { info, storage: VecMap::new(), status: TOUCHED, transaction_id: 0 }
        },
    };
    proof {
        if !before.contains_key(address@) && db.info_of(address@) is None {
            assert(account.info@.code->0 =~= Seq::<u8>::empty());
        }
    }
    account.storage.insert(
        slot,
        EvmStorageSlot { original_value, present_value: value, transaction_id: 0, is_cold: false },
    );
    proof {
        assert(before.remove(address@).insert(address@, account) =~= before.insert(
            address@,
            account,
        ));
        lemma_state_insert(before, address@, account);
    }
    changes.insert(address, account);
    Ok(())
}

/// What a hardfork changes in the state that `db` holds.
pub fn hardfork_upgrade_diff<H: HardforkUpgrades, DB: AccountSource>(hardfork: &H, db: &DB) -> (r:
    Result<EvmState, BlockExecutionError>)
    requires
        fork_is_code(*hardfork, *db),
    ensures
        db.reliable() ==> r is Ok,
        r matches Ok(changes) ==> exists|l: UpgradeLists| #[trigger]
            listed_by(*hardfork, l) && state_view(changes@) == upgrade_diff(l, *db),
        r matches Err(e) ==> diff_failed(*hardfork, *db, e),
{
    let mut changes: EvmState = VecMap::new();
    assert(state_view(changes@) =~= Map::<Seq<u8>, AccountV>::empty());
    let system = hardfork.system_upgrades();
    assert(lists_system(*hardfork, system@));
    match upgrade_code(&mut changes, db, system) {
        Ok(()) => {},
        Err(e) => return Err(e),
    }
    let extra = hardfork.extra_upgrades();
    assert(lists_extra(*hardfork, extra@));
    match upgrade_code(&mut changes, db, extra) {
        Ok(()) => {},
        Err(e) => return Err(e),
    }
    let patches = hardfork.storage_patches();
    assert(lists_patches(*hardfork, patches@));
    let ghost code = state_view(changes@);
    let mut i: usize = 0;
    assert(patches@.take(0) =~= Seq::empty());
    while i < patches.len()
        invariant
            i <= patches@.len(),
            lists_patches(*hardfork, patches@),
            state_view(changes@) == with_patches(code, *db, patches@.take(i as int)),
        decreases patches@.len() - i,
    {
        proof {
            assert(patches@.take(i + 1).drop_last() =~= patches@.take(i as int));
            assert(patches@.take(i + 1).last() == patches@[i as int]);
        }
        let (address, slot, value) = patches[i];
        match patch_storage(&mut changes, db, address, slot, value) {
            Ok(()) => {},
            Err(e) => return Err(e),
        }
        i += 1;
    }
    assert(patches@.take(i as int) =~= patches@);
    let batches = hardfork.batch_storage_patches();
    assert(lists_batches(*hardfork, batches@));
    let ghost patched = state_view(changes@);
    let mut b: usize = 0;
    assert(batches@.take(0) =~= Seq::empty());
    while b < batches.len()
        invariant
            b <= batches@.len(),
            lists_batches(*hardfork, batches@),
            state_view(changes@) == with_batches(patched, *db, batches@.take(b as int)),
        decreases batches@.len() - b,
    {
        let ghost before = state_view(changes@);
        proof {
            assert(batches@.take(b + 1).drop_last() =~= batches@.take(b as int));
            assert(batches@.take(b + 1).last() == batches@[b as int]);
        }
        let (addresses, slot, value) = batches[b];
        let mut k: usize = 0;
        assert(addresses@.take(0) =~= Seq::empty());
        while k < addresses.len()
            invariant
                k <= addresses@.len(),
                b < batches@.len(),
                lists_batches(*hardfork, batches@),
                batches@[b as int] == (addresses, slot, value),
                state_view(changes@) == with_batch(
                    before,
                    *db,
                    addresses@.take(k as int),
                    slot@,
                    value,
                ),
            decreases addresses@.len() - k,
        {
            proof {
                assert(addresses@.take(k + 1).drop_last() =~= addresses@.take(k as int));
                assert(addresses@.take(k + 1).last() == addresses@[k as int]);
            }
            match patch_storage(&mut changes, db, addresses[k], slot, value) {
                Ok(()) => {},
                Err(e) => {
                    assert(patch_failed(*db, batches@[b as int].0@[k as int], slot, e));
                    return Err(e);
                },
            }
            k += 1;
        }
        assert(addresses@.take(k as int) =~= addresses@);
        b += 1;
    }
    proof {
        assert(batches@.take(b as int) =~= batches@);
        let l = UpgradeLists {
            system: system@,
            extra: extra@,
            patches: patches@,
            batches: batches@,
        };
        assert(listed_by(*hardfork, l));
    }
    Ok(changes)
}

/// A change on top of another: the later one's information, the marks of both, and the slots of
/// both, where the later one's go first.
pub open spec fn merged_account(a: AccountV, b: AccountV) -> AccountV {
    AccountV {
        info: b.info,
        storage: a.storage.union_prefer_right(b.storage),
        status: a.status | b.status,
        transaction_id: a.transaction_id,
    }
}

/// Changes on top of others.
pub open spec fn merged(into: StateV, from: StateV) -> StateV {
    Map::new(
        |a: Seq<u8>| into.contains_key(a) || from.contains_key(a),
        |a: Seq<u8>|
            if into.contains_key(a) && from.contains_key(a) {
                merged_account(into[a], from[a])
            } else if from.contains_key(a) {
                from[a]
            } else {
                into[a]
            },
    )
}

/// Puts changes on top of others.
pub fn merge_state(into: &mut EvmState, from: EvmState)
    ensures
        state_view(final(into)@) == merged(state_view(old(into)@), state_view(from@)),
{
    let ghost start = into@;
    let entries = from.into_entries();
    let ghost all = entries@;
    let ghost mut k: int = 0;
    proof {
        assert(all.take(0) =~= Seq::empty());
        assert(state_view(entries_map(all.take(0))) =~= Map::<Seq<u8>, AccountV>::empty());
        assert(merged(state_view(start), state_view(entries_map(all.take(0)))) =~= state_view(
            start,
        ));
    }
    for entry in it: entries
        invariant
            k == it.index(),
            it.seq() == all,
            distinct(all),
            state_view(into@) == merged(state_view(start), state_view(entries_map(all.take(k)))),
    {
        let (address, account) = entry;
        let ghost before = into@;
        let ghost done = entries_map(all.take(k));
        let ghost given = account@;
        let merged_one = match into.remove(&address) {
            Some(existing) => {
                let mut storage = existing.storage;
                storage.extend(account.storage);
                ChangedAccount {
                    info: account.info,
                    storage,
                    status: existing.status | account.status,
                    transaction_id: existing.transaction_id,
                }
            },
            None => account,
        };
        let ghost x = merged_one;
        into.insert(address, merged_one);
        proof {
            lemma_next_entry(all, k);
            assert(!done.contains_key(address@));
            assert(before.remove(address@).insert(address@, x) =~= before.insert(address@, x));
            lemma_state_insert(before, address@, x);
            lemma_state_insert(done, address@, account);
            let left = state_view(before).insert(address@, x@);
            let right = merged(state_view(start), state_view(done).insert(address@, given));
            assert forall|a: Seq<u8>| #[trigger]
                left.contains_key(a) == right.contains_key(a) && (left.contains_key(a) ==> left[a]
                    == right[a]) by {
                assert(state_view(before).contains_key(a) == merged(
                    state_view(start),
                    state_view(done),
                ).contains_key(a));
                if a == address@ {
                    assert(state_view(before).contains_key(a) == state_view(start).contains_key(a));
                    if state_view(start).contains_key(a) {
                        assert(state_view(before)[a] == state_view(start)[a]);
                    }
                }
            }
            assert(left =~= right);
            k = k + 1;
        }
    }
    assert(all.take(k) =~= all);
}

/// The changes of one more hardfork on top, where it is `due`.
pub open spec fn with_fork<DB: AccountSource>(
    m: StateV,
    due: bool,
    l: UpgradeLists,
    db: DB,
) -> StateV {
    if due {
        merged(m, upgrade_diff(l, db))
    } else {
        m
    }
}

/// A block.
pub ghost struct BlockV {
    /// Its number.
    pub number: u64,
    /// Its time.
    pub timestamp: u64,
}

/// The first hardfork is due: from its time on.
pub open spec fn alpha_due(forks: GravityHardforks, block: BlockV) -> bool {
    forks.alpha matches ForkCondition::Timestamp(t) && block.timestamp >= t
}

/// A later hardfork is due: at its block alone.
pub open spec fn due_at(fork: ForkCondition, block: BlockV) -> bool {
    fork == ForkCondition::Block(block.number)
}

/// What all hardforks list.
pub ghost struct ForkLists {
    /// Of [`GravityHardfork::Alpha`].
    pub alpha: UpgradeLists,
    /// Of [`GravityHardfork::Beta`].
    pub beta: UpgradeLists,
    /// Of [`GravityHardfork::Gamma`].
    pub gamma: UpgradeLists,
    /// Of [`GravityHardfork::Delta`].
    pub delta: UpgradeLists,
}

/// The changes of all hardforks that are due.
pub open spec fn due_changes<DB: AccountSource>(
    forks: GravityHardforks,
    lists: ForkLists,
    block: BlockV,
    db: DB,
) -> StateV {
    let alpha = with_fork(Map::empty(), alpha_due(forks, block), lists.alpha, db);
    let beta = with_fork(alpha, due_at(forks.beta, block), lists.beta, db);
    let gamma = with_fork(beta, due_at(forks.gamma, block), lists.gamma, db);
    with_fork(gamma, due_at(forks.delta, block), lists.delta, db)
}

/// What each hardfork upgrades.
pub struct Upgrades<
    A: HardforkUpgrades,
    B: HardforkUpgrades,
    G: HardforkUpgrades,
    D: HardforkUpgrades,
> {
    /// Of [`GravityHardfork::Alpha`].
    pub alpha: A,
    /// Of [`GravityHardfork::Beta`].
    pub beta: B,
    /// Of [`GravityHardfork::Gamma`].
    pub gamma: G,
    /// Of [`GravityHardfork::Delta`].
    pub delta: D,
}

/// `lists` is what the hardforks list that are due.
pub open spec fn due_lists<
    A: HardforkUpgrades,
    B: HardforkUpgrades,
    G: HardforkUpgrades,
    D: HardforkUpgrades,
>(
    forks: GravityHardforks,
    upgrades: Upgrades<A, B, G, D>,
    block: BlockV,
    lists: ForkLists,
) -> bool {
    &&& alpha_due(forks, block) ==> listed_by(upgrades.alpha, lists.alpha)
    &&& due_at(forks.beta, block) ==> listed_by(upgrades.beta, lists.beta)
    &&& due_at(forks.gamma, block) ==> listed_by(upgrades.gamma, lists.gamma)
    &&& due_at(forks.delta, block) ==> listed_by(upgrades.delta, lists.delta)
}

/// What is new code by a hardfork that is due, for an account that `db` knows, can be code.
pub open spec fn due_code<
    A: HardforkUpgrades,
    B: HardforkUpgrades,
    G: HardforkUpgrades,
    D: HardforkUpgrades,
    DB: AccountSource,
>(forks: GravityHardforks, upgrades: Upgrades<A, B, G, D>, block: BlockV, db: DB) -> bool {
    &&& alpha_due(forks, block) ==> fork_is_code(upgrades.alpha, db)
    &&& due_at(forks.beta, block) ==> fork_is_code(upgrades.beta, db)
    &&& due_at(forks.gamma, block) ==> fork_is_code(upgrades.gamma, db)
    &&& due_at(forks.delta, block) ==> fork_is_code(upgrades.delta, db)
}

/// `e` tells that a read for the changes of a hardfork that is due failed.
pub open spec fn state_failed<
    A: HardforkUpgrades,
    B: HardforkUpgrades,
    G: HardforkUpgrades,
    D: HardforkUpgrades,
    DB: AccountSource,
>(
    forks: GravityHardforks,
    upgrades: Upgrades<A, B, G, D>,
    block: BlockV,
    db: DB,
    e: BlockExecutionError,
) -> bool {
    ||| alpha_due(forks, block) && diff_failed(upgrades.alpha, db, e)
    ||| due_at(forks.beta, block) && diff_failed(upgrades.beta, db, e)
    ||| due_at(forks.gamma, block) && diff_failed(upgrades.gamma, db, e)
    ||| due_at(forks.delta, block) && diff_failed(upgrades.delta, db, e)
}

/// Puts the changes of a hardfork on top, where it is `due`.
fn add_fork<H: HardforkUpgrades, DB: AccountSource>(
    changes: &mut EvmState,
    due: bool,
    hardfork: &H,
    db: &DB,
) -> (r: Result<Ghost<UpgradeLists>, BlockExecutionError>)
    requires
        due ==> fork_is_code(*hardfork, *db),
    ensures
        db.reliable() ==> r is Ok,
        r matches Ok(l) ==> (due ==> listed_by(*hardfork, l@)) && state_view(final(changes)@)
            == with_fork(state_view(old(changes)@), due, l@, *db),
        r matches Err(e) ==> due && diff_failed(*hardfork, *db, e) && final(changes)@ == old(
            changes,
        )@,
{
    let ghost mut lists: UpgradeLists = arbitrary();
    if due {
        match hardfork_upgrade_diff(hardfork, db) {
            Ok(diff) => {
                proof {
                    let made = state_view(diff@);
                    lists = choose|l: UpgradeLists| #[trigger]
                        listed_by(*hardfork, l) && made == upgrade_diff(l, *db);
                }
                merge_state(changes, diff);
            },
            Err(e) => return Err(e),
        }
    }
    Ok(Ghost(lists))
}

/// The changes of all hardforks that are due at a block.
pub fn gravity_hardfork_state_for_block<
    A: HardforkUpgrades,
    B: HardforkUpgrades,
    G: HardforkUpgrades,
    D: HardforkUpgrades,
    DB: AccountSource,
>(
    forks: &GravityHardforks,
    upgrades: &Upgrades<A, B, G, D>,
    block_number: u64,
    timestamp: u64,
    db: &DB,
) -> (r: Result<EvmState, BlockExecutionError>)
    requires
        due_code(*forks, *upgrades, (BlockV { number: block_number, timestamp }), *db),
    ensures
        db.reliable() ==> r is Ok,
        ({
            let block = BlockV { number: block_number, timestamp };
            match r {
                Ok(changes) => exists|lists: ForkLists| #[trigger]
                    due_lists(*forks, *upgrades, block, lists) && state_view(changes@)
                        == due_changes(*forks, lists, block, *db),
                Err(e) => state_failed(*forks, *upgrades, block, *db, e),
            }
        }),
{
    let ghost block = BlockV { number: block_number, timestamp };
    let mut changes: EvmState = VecMap::new();
    assert(state_view(changes@) =~= Map::<Seq<u8>, AccountV>::empty());
    let alpha = forks.fork(GravityHardfork::Alpha).active_at_timestamp(timestamp);
    let alpha_lists = match add_fork(&mut changes, alpha, &upgrades.alpha, db) {
        Ok(lists) => lists,
        Err(e) => return Err(e),
    };
    let beta = forks.fork(GravityHardfork::Beta).transitions_at_block(block_number);
    let beta_lists = match add_fork(&mut changes, beta, &upgrades.beta, db) {
        Ok(lists) => lists,
        Err(e) => return Err(e),
    };
    let gamma = forks.fork(GravityHardfork::Gamma).transitions_at_block(block_number);
    let gamma_lists = match add_fork(&mut changes, gamma, &upgrades.gamma, db) {
        Ok(lists) => lists,
        Err(e) => return Err(e),
    };
    let delta = forks.fork(GravityHardfork::Delta).transitions_at_block(block_number);
    let delta_lists = match add_fork(&mut changes, delta, &upgrades.delta, db) {
        Ok(lists) => lists,
        Err(e) => return Err(e),
    };
    proof {
        let lists = ForkLists {
            alpha: alpha_lists@,
            beta: beta_lists@,
            gamma: gamma_lists@,
            delta: delta_lists@,
        };
        assert(due_lists(*forks, *upgrades, block, lists));
    }
    Ok(changes)
}

/// The views of changes, one after the other.
pub type AppliedV = Seq<StateV>;

/// An executor that takes changes to the state.
pub trait StateExecutor {
    /// The changes that it has taken, one after the other.
    spec fn applied(&self) -> AppliedV;

    /// It does not refuse these changes.
    spec fn accepts(&self, changes: StateV) -> bool;

    /// It may refuse these changes with this error.
    spec fn refuses(&self, changes: StateV, e: BlockExecutionError) -> bool;

    /// Takes changes to the state.
    fn apply_state_change(&mut self, changes: EvmState) -> (r: Result<(), BlockExecutionError>)
        ensures
            r is Ok ==> final(self).applied() == old(self).applied().push(state_view(changes@)),
            r matches Err(e) ==> old(self).refuses(state_view(changes@), e),
            old(self).accepts(state_view(changes@)) ==> r is Ok,
    ;
}

/// `after` is an executor that was asked, where there are changes, to take them, and answered `r`.
pub open spec fn applied_to<E: StateExecutor>(
    before: E,
    changes: StateV,
    after: E,
    r: Result<(), BlockExecutionError>,
) -> bool {
    if changes == Map::<Seq<u8>, AccountV>::empty() {
        after == before && r is Ok
    } else {
        &&& before.accepts(changes) ==> r is Ok
        &&& match r {
            Ok(_) => after.applied() == before.applied().push(changes),
            Err(e) => before.refuses(changes, e),
        }
    }
}

/// Applies the changes of all hardforks that are due at a block. Nothing is applied where there
/// are no changes.
pub fn apply_gravity_hardfork_upgrades<
    E: StateExecutor,
    A: HardforkUpgrades,
    B: HardforkUpgrades,
    G: HardforkUpgrades,
    D: HardforkUpgrades,
    DB: AccountSource,
>(
    executor: &mut E,
    forks: &GravityHardforks,
    upgrades: &Upgrades<A, B, G, D>,
    block_number: u64,
    timestamp: u64,
    db: &DB,
) -> (r: Result<(), BlockExecutionError>)
    requires
        due_code(*forks, *upgrades, (BlockV { number: block_number, timestamp }), *db),
    ensures
        ({
            let block = BlockV { number: block_number, timestamp };
            ||| {
                &&& !db.reliable()
                &&& r matches Err(e) && state_failed(*forks, *upgrades, block, *db, e)
                &&& *final(executor) == *old(executor)
            }
            ||| exists|lists: ForkLists| #[trigger]
                due_lists(*forks, *upgrades, block, lists) && applied_to(
                    *old(executor),
                    due_changes(*forks, lists, block, *db),
                    *final(executor),
                    r,
                )
        }),
{
    let changes = match gravity_hardfork_state_for_block(
        forks,
        upgrades,
        block_number,
        timestamp,
        db,
    ) {
        Ok(changes) => changes,
        Err(e) => return Err(e),
    };
    proof {
        let due = state_view(changes@);
        if changes@ == Map::<Seq<u8>, ChangedAccount>::empty() {
            assert(due =~= Map::<Seq<u8>, AccountV>::empty());
        } else if due == Map::<Seq<u8>, AccountV>::empty() {
            assert forall|a: Seq<u8>| !#[trigger] changes@.contains_key(a) by {
                assert(!due.contains_key(a));
            }
            assert(changes@ =~= Map::<Seq<u8>, ChangedAccount>::empty());
        }
    }
    if !changes.is_empty() {
        return executor.apply_state_change(changes);
    }
    Ok(())
}

/// Changes are made with care: an account that exists keeps its balance and nonce, every account
/// is marked to be written, and every slot tells the value that it had.
pub open spec fn careful<DB: AccountSource>(m: StateV, db: DB) -> bool {
    forall|a: Seq<u8>| #[trigger]
        m.contains_key(a) ==> {
            &&& db.info_of(a) matches Some(i) ==> m[a].info.balance == i.balance && m[a].info.nonce
                == i.nonce
            &&& m[a].status == TOUCHED
            &&& forall|s: Seq<u8>| #[trigger]
                m[a].storage.contains_key(s) ==> m[a].storage[s].original_value == db.slot_of(a, s)
        }
}

proof fn lemma_careful_codes<DB: AccountSource>(m: StateV, db: DB, us: Seq<BytecodeUpgrade>)
    requires
        careful(m, db),
    ensures
        careful(with_codes(m, db, us), db),
    decreases us.len(),
{
    if us.len() > 0 {
        lemma_careful_codes(m, db, us.drop_last());
        let before = with_codes(m, db, us.drop_last());
        let after = with_code(before, db, us.last());
        assert forall|a: Seq<u8>| #[trigger] after.contains_key(a) implies {
            &&& db.info_of(a) matches Some(i) ==> after[a].info.balance == i.balance
                && after[a].info.nonce == i.nonce
            &&& after[a].status == TOUCHED
            &&& forall|s: Seq<u8>| #[trigger]
                after[a].storage.contains_key(s) ==> after[a].storage[s].original_value
                    == db.slot_of(a, s)
        } by {
            if a != us.last().0@ || db.info_of(a) is None {
                assert(before.contains_key(a));
            }
        }
    }
}

proof fn lemma_careful_patch<DB: AccountSource>(
    m: StateV,
    db: DB,
    address: Seq<u8>,
    slot: Seq<u8>,
    value: U256,
)
    requires
        careful(m, db),
    ensures
        careful(with_patch(m, db, address, slot, value), db),
{
    let after = with_patch(m, db, address, slot, value);
    assert forall|a: Seq<u8>| #[trigger] after.contains_key(a) implies {
        &&& db.info_of(a) matches Some(i) ==> after[a].info.balance == i.balance
            && after[a].info.nonce == i.nonce
        &&& after[a].status == TOUCHED
        &&& forall|s: Seq<u8>| #[trigger]
            after[a].storage.contains_key(s) ==> after[a].storage[s].original_value == db.slot_of(
                a,
                s,
            )
    } by {
        if a != address {
            assert(m.contains_key(a));
        } else if m.contains_key(address) {
            assert(m[address].status == TOUCHED);
        }
    }
}

proof fn lemma_careful_patches<DB: AccountSource>(m: StateV, db: DB, ps: Seq<StoragePatch>)
    requires
        careful(m, db),
    ensures
        careful(with_patches(m, db, ps), db),
    decreases ps.len(),
{
    if ps.len() > 0 {
        lemma_careful_patches(m, db, ps.drop_last());
        let p = ps.last();
        lemma_careful_patch(with_patches(m, db, ps.drop_last()), db, p.0@, p.1@, p.2);
    }
}

proof fn lemma_careful_batch<DB: AccountSource>(
    m: StateV,
    db: DB,
    addresses: Seq<Address>,
    slot: Seq<u8>,
    value: U256,
)
    requires
        careful(m, db),
    ensures
        careful(with_batch(m, db, addresses, slot, value), db),
    decreases addresses.len(),
{
    if addresses.len() > 0 {
        let rest = addresses.drop_last();
        lemma_careful_batch(m, db, rest, slot, value);
        lemma_careful_patch(
            with_batch(m, db, rest, slot, value),
            db,
            addresses.last()@,
            slot,
            value,
        );
    }
}

proof fn lemma_careful_batches<DB: AccountSource>(m: StateV, db: DB, bs: Seq<BatchStoragePatch>)
    requires
        careful(m, db),
    ensures
        careful(with_batches(m, db, bs), db),
    decreases bs.len(),
{
    if bs.len() > 0 {
        lemma_careful_batches(m, db, bs.drop_last());
        let b = bs.last();
        lemma_careful_batch(with_batches(m, db, bs.drop_last()), db, b.0@, b.1@, b.2);
    }
}

/// A hardfork keeps the balance and the nonce of every account that exists, and tells of every
/// slot that it patches what it held before.
pub proof fn law_upgrades_are_careful<DB: AccountSource>(l: UpgradeLists, db: DB)
    ensures
        careful(upgrade_diff(l, db), db),
{
    let none: StateV = Map::empty();
    lemma_careful_codes(none, db, l.system);
    let system = with_codes(none, db, l.system);
    lemma_careful_codes(system, db, l.extra);
    let code = with_codes(system, db, l.extra);
    lemma_careful_patches(code, db, l.patches);
    lemma_careful_batches(with_patches(code, db, l.patches), db, l.batches);
}

/// Careful changes on top of careful changes are careful.
pub proof fn law_merged_changes_are_careful<DB: AccountSource>(into: StateV, from: StateV, db: DB)
    requires
        careful(into, db),
        careful(from, db),
    ensures
        careful(merged(into, from), db),
{
    let m = merged(into, from);
    assert(4u8 | 4u8 == 4u8) by (bit_vector);
    assert forall|a: Seq<u8>| #[trigger] m.contains_key(a) implies {
        &&& db.info_of(a) matches Some(i) ==> m[a].info.balance == i.balance && m[a].info.nonce
            == i.nonce
        &&& m[a].status == TOUCHED
        &&& forall|s: Seq<u8>| #[trigger]
            m[a].storage.contains_key(s) ==> m[a].storage[s].original_value == db.slot_of(a, s)
    } by {
        if into.contains_key(a) {
            assert(into[a].status == TOUCHED);
        }
        if from.contains_key(a) {
            assert(from[a].status == TOUCHED);
        }
        assert forall|s: Seq<u8>| #[trigger]
            m[a].storage.contains_key(s) implies m[a].storage[s].original_value == db.slot_of(
            a,
            s,
        ) by {
            if from.contains_key(a) && from[a].storage.contains_key(s) {
                assert(from[a].storage[s].original_value == db.slot_of(a, s));
            } else if into.contains_key(a) {
                assert(into[a].storage.contains_key(s));
            }
        }
    }
}

/// Merging nothing changes nothing.
pub proof fn law_merging_nothing(m: StateV)
    ensures
        merged(m, Map::empty()) == m,
        merged(Map::empty(), m) == m,
{
    assert(merged(m, Map::empty()) =~= m);
    assert(merged(Map::empty(), m) =~= m);
}

/// State in memory.
#[derive(Debug, PartialEq, Eq)]
pub struct MemoryState {
    /// The accounts.
    pub accounts: VecMap<Address, AccountInfo>,
    /// The slots by address and key. A slot that is missing is zero.
    pub storage: VecMap<Address, VecMap<U256, U256>>,
}

impl AccountSource for MemoryState {
    open spec fn info_of(&self, address: Seq<u8>) -> Option<InfoV> {
        if self.accounts@.contains_key(address) {
            Some(self.accounts@[address]@)
        } else {
            None
        }
    }

    open spec fn slot_of(&self, address: Seq<u8>, slot: Seq<u8>) -> U256 {
        if self.storage@.contains_key(address) && self.storage@[address]@.contains_key(slot) {
            self.storage@[address]@[slot]
        } else {
            ZERO_WORD
        }
    }

    open spec fn reliable(&self) -> bool {
        true
    }

    fn basic_ref(&self, address: &Address) -> (r: Result<Option<AccountInfo>, String>) {
        match self.accounts.get(address) {
            Some(info) => {
                let code = match &info.code {
                    Some(code) => Some(slice_to_vec(code.as_slice())),
                    None => None,
                };
                Ok(
                    Some(
                        AccountInfo {
                            balance: info.balance,
                            nonce: info.nonce,
                            code_hash: info.code_hash,
                            code,
                        },
                    ),
                )
            },
            None => Ok(None),
        }
    }

    fn storage_ref(&self, address: &Address, slot: &U256) -> (r: Result<U256, String>) {
        match self.storage.get(address) {
            Some(slots) => match slots.get(slot) {
                Some(value) => Ok(*value),
                None => Ok(ZERO_WORD),
            },
            None => Ok(ZERO_WORD),
        }
    }
}

/// Keeps the changes that it is given.
#[derive(Debug, PartialEq, Eq)]
pub struct ChangeLog {
    /// The changes, one after the other.
    pub changes: Vec<EvmState>,
}

impl StateExecutor for ChangeLog {
    open spec fn applied(&self) -> AppliedV {
        self.changes@.map_values(|c: EvmState| state_view(c@))
    }

    open spec fn accepts(&self, changes: StateV) -> bool {
        true
    }

    open spec fn refuses(&self, changes: StateV, e: BlockExecutionError) -> bool {
        false
    }

    fn apply_state_change(&mut self, changes: EvmState) -> (r: Result<(), BlockExecutionError>)
        ensures
            r is Ok,
            final(self).changes@ == old(self).changes@.push(changes),
    {
        let ghost before = self.applied();
        self.changes.push(changes);
        assert(self.applied() =~= before.push(state_view(changes@)));
        Ok(())
    }
}

} // verus!
