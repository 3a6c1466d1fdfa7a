//! What hardforks change, account by account and slot by slot.

use vstd::prelude::*;

use crate::chain::{ForkCondition, GravityHardforks};
use crate::hardfork::{
    applied_to, batch_failed, batches_failed, checksum_text, code_failed, diff_failed, due_changes,
    due_lists, info_read_failed, listed_by, merged, patch_failed, patches_failed, read_message,
    slot_read_failed, state_failed, state_view, upgrade_diff, with_batch, with_batches,
    with_codes, with_fork, with_patch, with_patches, AccountInfo, AccountSource, AccountV,
    BatchStoragePatch, BlockV, BytecodeUpgrade, ChangeLog, ChangedAccount, EvmStorageSlot,
    ForkLists, HardforkUpgrades, InfoV, MemoryState, StateExecutor, StateV, StoragePatch,
    UpgradeLists, Upgrades,
};
use crate::pipe_error::BlockExecutionError;
use crate::rlp::{keccak, U256, ZERO_WORD};
use crate::state::KECCAK_EMPTY;
use crate::trie_cache::Address;

verus! {

/// The changed slot of an account, where it is changed.
pub open spec fn slot_in(m: StateV, address: Seq<u8>, slot: Seq<u8>) -> Option<EvmStorageSlot> {
    if m.contains_key(address) && m[address].storage.contains_key(slot) {
        Some(m[address].storage[slot])
    } else {
        None
    }
}

/// A slot that held what `db` says, and now holds `value`.
pub open spec fn patched_slot<DB: AccountSource>(
    db: DB,
    address: Seq<u8>,
    slot: Seq<u8>,
    value: U256,
) -> EvmStorageSlot {
    EvmStorageSlot {
        original_value: db.slot_of(address, slot),
        present_value: value,
        transaction_id: 0,
        is_cold: false,
    }
}

/// An account but for its slots: as it is staged, or as it comes in where it is not.
spec fn head_of<DB: AccountSource>(m: StateV, db: DB, address: Seq<u8>) -> (InfoV, u8, u64) {
    if m.contains_key(address) {
        (m[address].info, m[address].status, m[address].transaction_id)
    } else {
        (
            match db.info_of(address) {
                Some(info) => info,
                None => InfoV {
                    balance: ZERO_WORD,
                    nonce: 0,
                    code_hash: KECCAK_EMPTY,
                    code: Some(Seq::empty()),
                },
            },
            4,
            0,
        )
    }
}

/// `address` gets new code.
pub open spec fn upgraded(us: Seq<BytecodeUpgrade>, address: Seq<u8>) -> bool {
    exists|i: int| 0 <= i < us.len() && (#[trigger] us[i]).0@ == address
}

/// `address` has a slot patched.
pub open spec fn account_patched(ps: Seq<StoragePatch>, address: Seq<u8>) -> bool {
    exists|i: int| 0 <= i < ps.len() && (#[trigger] ps[i]).0@ == address
}

/// `slot` of `address` is patched.
pub open spec fn slot_patched(ps: Seq<StoragePatch>, address: Seq<u8>, slot: Seq<u8>) -> bool {
    exists|i: int| 0 <= i < ps.len() && (#[trigger] ps[i]).0@ == address && ps[i].1@ == slot
}

/// `address` is one of some addresses.
pub open spec fn address_listed(addresses: Seq<Address>, address: Seq<u8>) -> bool {
    exists|k: int| 0 <= k < addresses.len() && (#[trigger] addresses[k])@ == address
}

/// `address` has a slot patched by a batch.
pub open spec fn account_batched(bs: Seq<BatchStoragePatch>, address: Seq<u8>) -> bool {
    exists|b: int| 0 <= b < bs.len() && address_listed((#[trigger] bs[b]).0@, address)
}

/// `slot` of `address` is patched by a batch.
pub open spec fn slot_batched(bs: Seq<BatchStoragePatch>, address: Seq<u8>, slot: Seq<u8>) -> bool {
    exists|b: int|
        0 <= b < bs.len() && address_listed((#[trigger] bs[b]).0@, address) && bs[b].1@ == slot
}

proof fn lemma_patch<DB: AccountSource>(
    m: StateV,
    db: DB,
    x: Seq<u8>,
    y: Seq<u8>,
    value: U256,
    address: Seq<u8>,
    slot: Seq<u8>,
)
    ensures
        ({
            let after = with_patch(m, db, x, y, value);
            &&& head_of(after, db, address) == head_of(m, db, address)
            &&& after.contains_key(address) == (m.contains_key(address) || x == address)
            &&& slot_in(after, address, slot) == if x == address && y == slot {
                Some(patched_slot(db, address, slot, value))
            } else {
                slot_in(m, address, slot)
            }
        }),
{
}

proof fn lemma_patches<DB: AccountSource>(
    m: StateV,
    db: DB,
    ps: Seq<StoragePatch>,
    address: Seq<u8>,
    slot: Seq<u8>,
)
    ensures
        ({
            let after = with_patches(m, db, ps);
            &&& head_of(after, db, address) == head_of(m, db, address)
            &&& after.contains_key(address) == (m.contains_key(address) || account_patched(
                ps,
                address,
            ))
            &&& !slot_patched(ps, address, slot) ==> slot_in(after, address, slot) == slot_in(
                m,
                address,
                slot,
            )
        }),
    decreases ps.len(),
{
    if ps.len() > 0 {
        let rest = ps.drop_last();
        let p = ps.last();
        lemma_patches(m, db, rest, address, slot);
        lemma_patch(with_patches(m, db, rest), db, p.0@, p.1@, p.2, address, slot);
        assert(ps[ps.len() - 1] == p);
        if account_patched(rest, address) {
            let i = choose|i: int| 0 <= i < rest.len() && (#[trigger] rest[i]).0@ == address;
            assert(ps[i].0@ == address);
        }
        if account_patched(ps, address) && p.0@ != address {
            let i = choose|i: int| 0 <= i < ps.len() && (#[trigger] ps[i]).0@ == address;
            assert(rest[i].0@ == address);
        }
        if slot_patched(rest, address, slot) {
            let i = choose|i: int|
                0 <= i < rest.len() && (#[trigger] rest[i]).0@ == address && rest[i].1@ == slot;
            assert(ps[i].0@ == address && ps[i].1@ == slot);
        }
    }
}

proof fn lemma_patches_last<DB: AccountSource>(m: StateV, db: DB, ps: Seq<StoragePatch>, i: int)
    requires
        0 <= i < ps.len(),
        forall|j: int|
            i < j < ps.len() ==> (#[trigger] ps[j]).0@ != ps[i].0@ || ps[j].1@ != ps[i].1@,
    ensures
        slot_in(with_patches(m, db, ps), ps[i].0@, ps[i].1@) == Some(
            patched_slot(db, ps[i].0@, ps[i].1@, ps[i].2),
        ),
    decreases ps.len(),
{
    let rest = ps.drop_last();
    let p = ps.last();
    lemma_patch(with_patches(m, db, rest), db, p.0@, p.1@, p.2, ps[i].0@, ps[i].1@);
    if i < rest.len() {
        assert(ps[ps.len() - 1] == p);
        assert forall|j: int| i < j < rest.len() implies (#[trigger] rest[j]).0@ != rest[i].0@
            || rest[j].1@ != rest[i].1@ by {
            assert(ps[j] == rest[j]);
        }
        lemma_patches_last(m, db, rest, i);
    }
}

proof fn lemma_batch<DB: AccountSource>(
    m: StateV,
    db: DB,
    addresses: Seq<Address>,
    y: Seq<u8>,
    value: U256,
    address: Seq<u8>,
    slot: Seq<u8>,
)
    ensures
        ({
            let after = with_batch(m, db, addresses, y, value);
            &&& head_of(after, db, address) == head_of(m, db, address)
            &&& after.contains_key(address) == (m.contains_key(address) || address_listed(
                addresses,
                address,
            ))
            &&& slot_in(after, address, slot) == if address_listed(addresses, address) && y
                == slot {
                Some(patched_slot(db, address, slot, value))
            } else {
                slot_in(m, address, slot)
            }
        }),
    decreases addresses.len(),
{
    if addresses.len() > 0 {
        let rest = addresses.drop_last();
        let x = addresses.last()@;
        lemma_batch(m, db, rest, y, value, address, slot);
        lemma_patch(with_batch(m, db, rest, y, value), db, x, y, value, address, slot);
        assert(addresses[addresses.len() - 1]@ == x);
        if address_listed(rest, address) {
            let k = choose|k: int| 0 <= k < rest.len() && (#[trigger] rest[k])@ == address;
            assert(addresses[k]@ == address);
        }
        if address_listed(addresses, address) && x != address {
            let k = choose|k: int|
                0 <= k < addresses.len() && (#[trigger] addresses[k])@ == address;
            assert(rest[k]@ == address);
        }
    }
}

proof fn lemma_batches<DB: AccountSource>(
    m: StateV,
    db: DB,
    bs: Seq<BatchStoragePatch>,
    address: Seq<u8>,
    slot: Seq<u8>,
)
    ensures
        ({
            let after = with_batches(m, db, bs);
            &&& head_of(after, db, address) == head_of(m, db, address)
            &&& after.contains_key(address) == (m.contains_key(address) || account_batched(
                bs,
                address,
            ))
            &&& !slot_batched(bs, address, slot) ==> slot_in(after, address, slot) == slot_in(
                m,
                address,
                slot,
            )
        }),
    decreases bs.len(),
{
    if bs.len() > 0 {
        let rest = bs.drop_last();
        let last = bs.last();
        lemma_batches(m, db, rest, address, slot);
        lemma_batch(
            with_batches(m, db, rest),
            db,
            last.0@,
            last.1@,
            last.2,
            address,
            slot,
        );
        assert(bs[bs.len() - 1] == last);
        if account_batched(rest, address) {
            let b = choose|b: int|
                0 <= b < rest.len() && address_listed((#[trigger] rest[b]).0@, address);
            assert(address_listed(bs[b].0@, address));
        }
        if account_batched(bs, address) && !address_listed(last.0@, address) {
            let b = choose|b: int|
                0 <= b < bs.len() && address_listed((#[trigger] bs[b]).0@, address);
            assert(address_listed(rest[b].0@, address));
        }
        if slot_batched(rest, address, slot) {
            let b = choose|b: int|
                0 <= b < rest.len() && address_listed((#[trigger] rest[b]).0@, address)
                    && rest[b].1@ == slot;
            assert(address_listed(bs[b].0@, address) && bs[b].1@ == slot);
        }
    }
}

proof fn lemma_batches_last<DB: AccountSource>(
    m: StateV,
    db: DB,
    bs: Seq<BatchStoragePatch>,
    b: int,
    address: Seq<u8>,
)
    requires
        0 <= b < bs.len(),
        address_listed(bs[b].0@, address),
        forall|c: int|
            b < c < bs.len() ==> !address_listed((#[trigger] bs[c]).0@, address) || bs[c].1@
                != bs[b].1@,
    ensures
        slot_in(with_batches(m, db, bs), address, bs[b].1@) == Some(
            patched_slot(db, address, bs[b].1@, bs[b].2),
        ),
    decreases bs.len(),
{
    let rest = bs.drop_last();
    let last = bs.last();
    lemma_batch(
        with_batches(m, db, rest),
        db,
        last.0@,
        last.1@,
        last.2,
        address,
        bs[b].1@,
    );
    if b < rest.len() {
        assert(bs[bs.len() - 1] == last);
        assert forall|c: int| b < c < rest.len() implies !address_listed(
            (#[trigger] rest[c]).0@,
            address,
        ) || rest[c].1@ != rest[b].1@ by {
            assert(bs[c] == rest[c]);
        }
        lemma_batches_last(m, db, rest, b, address);
    }
}

proof fn lemma_codes<DB: AccountSource>(
    m: StateV,
    db: DB,
    us: Seq<BytecodeUpgrade>,
    address: Seq<u8>,
)
    ensures
        ({
            let after = with_codes(m, db, us);
            let new = upgraded(us, address) && db.info_of(address) is Some;
            &&& after.contains_key(address) == (m.contains_key(address) || new)
            &&& new ==> after[address].storage == Map::<Seq<u8>, EvmStorageSlot>::empty()
                && after[address].status == 4 && after[address].transaction_id == 0
            &&& !new && m.contains_key(address) ==> after[address] == m[address]
        }),
    decreases us.len(),
{
    if us.len() > 0 {
        let rest = us.drop_last();
        lemma_codes(m, db, rest, address);
        assert(us[us.len() - 1] == us.last());
        if upgraded(rest, address) {
            let i = choose|i: int| 0 <= i < rest.len() && (#[trigger] rest[i]).0@ == address;
            assert(us[i].0@ == address);
        }
        if upgraded(us, address) && us.last().0@ != address {
            let i = choose|i: int| 0 <= i < us.len() && (#[trigger] us[i]).0@ == address;
            assert(rest[i].0@ == address);
        }
    }
}

proof fn lemma_codes_last<DB: AccountSource>(m: StateV, db: DB, us: Seq<BytecodeUpgrade>, i: int)
    requires
        0 <= i < us.len(),
        db.info_of(us[i].0@) is Some,
        forall|j: int| i < j < us.len() ==> (#[trigger] us[j]).0@ != us[i].0@,
    ensures
        with_codes(m, db, us).contains_key(us[i].0@),
        with_codes(m, db, us)[us[i].0@] == (AccountV {
            info: InfoV {
                balance: db.info_of(us[i].0@)->0.balance,
                nonce: db.info_of(us[i].0@)->0.nonce,
                code_hash: keccak(us[i].1@),
                code: Some(us[i].1@),
            },
            storage: Map::empty(),
            status: 4,
            transaction_id: 0,
        }),
    decreases us.len(),
{
    let rest = us.drop_last();
    if i < rest.len() {
        assert(us[us.len() - 1].0@ != us[i].0@);
        assert forall|j: int| i < j < rest.len() implies (#[trigger] rest[j]).0@ != rest[i].0@ by {
            assert(us[j].0@ != us[i].0@);
        }
        lemma_codes_last(m, db, rest, i);
    }
}

/// A slot value that a hardfork lists by itself, and that nothing later in its lists replaces,
/// is in the diff, whatever else happens to the account. So is what the slot held before.
pub proof fn law_patch_is_in_the_diff<DB: AccountSource>(l: UpgradeLists, db: DB, i: int)
    requires
        0 <= i < l.patches.len(),
        forall|j: int|
            i < j < l.patches.len() ==> (#[trigger] l.patches[j]).0@ != l.patches[i].0@
                || l.patches[j].1@ != l.patches[i].1@,
        forall|b: int, k: int|
            0 <= b < l.batches.len() && 0 <= k < l.batches[b].0@.len() ==> (
            #[trigger] l.batches[b].0@[k])@ != l.patches[i].0@ || l.batches[b].1@
                != l.patches[i].1@,
    ensures
        ({
            let diff = upgrade_diff(l, db);
            let (address, slot, value) = l.patches[i];
            &&& diff.contains_key(address@)
            &&& diff[address@].storage.contains_key(slot@)
            &&& diff[address@].storage[slot@].present_value == value
            &&& diff[address@].storage[slot@].original_value == db.slot_of(address@, slot@)
            &&& diff[address@].storage[slot@].transaction_id == 0
            &&& !diff[address@].storage[slot@].is_cold
        }),
{
    let code = with_codes(with_codes(Map::empty(), db, l.system), db, l.extra);
    let (address, slot, value) = l.patches[i];
    lemma_patches_last(code, db, l.patches, i);
    if slot_batched(l.batches, address@, slot@) {
        let b = choose|b: int|
            0 <= b < l.batches.len() && address_listed((#[trigger] l.batches[b]).0@, address@)
                && l.batches[b].1@ == slot@;
        let k = choose|k: int|
            0 <= k < l.batches[b].0@.len() && (#[trigger] l.batches[b].0@[k])@ == address@;
        assert(l.batches[b].0@[k]@ == address@);
    }
    lemma_batches(with_patches(code, db, l.patches), db, l.batches, address@, slot@);
}

/// A slot value that a hardfork lists for many contracts, and that no later batch replaces, is
/// in the diff for each of them.
pub proof fn law_batch_is_in_the_diff<DB: AccountSource>(l: UpgradeLists, db: DB, b: int, k: int)
    requires
        0 <= b < l.batches.len(),
        0 <= k < l.batches[b].0@.len(),
        forall|c: int, j: int|
            b < c < l.batches.len() && 0 <= j < l.batches[c].0@.len() ==> (
            #[trigger] l.batches[c].0@[j])@ != l.batches[b].0@[k]@ || l.batches[c].1@
                != l.batches[b].1@,
    ensures
        ({
            let diff = upgrade_diff(l, db);
            let address = l.batches[b].0@[k]@;
            let slot = l.batches[b].1@;
            &&& diff.contains_key(address)
            &&& diff[address].storage.contains_key(slot)
            &&& diff[address].storage[slot].present_value == l.batches[b].2
            &&& diff[address].storage[slot].original_value == db.slot_of(address, slot)
            &&& diff[address].storage[slot].transaction_id == 0
            &&& !diff[address].storage[slot].is_cold
        }),
{
    let code = with_codes(with_codes(Map::empty(), db, l.system), db, l.extra);
    let address = l.batches[b].0@[k]@;
    assert(address_listed(l.batches[b].0@, address));
    assert forall|c: int| b < c < l.batches.len() implies !address_listed(
        (#[trigger] l.batches[c]).0@,
        address,
    ) || l.batches[c].1@ != l.batches[b].1@ by {
        if address_listed(l.batches[c].0@, address) {
            let j = choose|j: int|
                0 <= j < l.batches[c].0@.len() && (#[trigger] l.batches[c].0@[j])@ == address;
            assert(l.batches[c].0@[j]@ == address);
        }
    }
    lemma_batches_last(with_patches(code, db, l.patches), db, l.batches, b, address);
}

/// New code that a hardfork lists for a contract that exists, and that nothing later in its
/// lists replaces, is in the diff, also where slots of the contract are patched. The balance and
/// the nonce stay.
pub proof fn law_code_is_in_the_diff<DB: AccountSource>(l: UpgradeLists, db: DB, i: int)
    requires
        0 <= i < l.system.len() + l.extra.len(),
        db.info_of((l.system + l.extra)[i].0@) is Some,
        forall|j: int|
            i < j < l.system.len() + l.extra.len() ==> (#[trigger] (l.system + l.extra)[j]).0@
                != (l.system + l.extra)[i].0@,
    ensures
        ({
            let diff = upgrade_diff(l, db);
            let (address, code) = (l.system + l.extra)[i];
            let before = db.info_of(address@)->0;
            &&& diff.contains_key(address@)
            &&& diff[address@].info.code == Some(code@)
            &&& diff[address@].info.code_hash == keccak(code@)
            &&& diff[address@].info.balance == before.balance
            &&& diff[address@].info.nonce == before.nonce
            &&& diff[address@].status == 4
            &&& diff[address@].transaction_id == 0
        }),
{
    let all = l.system + l.extra;
    let n = l.system.len() as int;
    let address = all[i].0@;
    let none: StateV = Map::empty();
    let system = with_codes(none, db, l.system);
    let code = with_codes(system, db, l.extra);
    if i < n {
        assert forall|j: int| i < j < l.system.len() implies (#[trigger] l.system[j]).0@
            != l.system[i].0@ by {
            assert(all[j] == l.system[j]);
        }
        lemma_codes_last(none, db, l.system, i);
        if upgraded(l.extra, address) {
            let j = choose|j: int| 0 <= j < l.extra.len() && (#[trigger] l.extra[j]).0@ == address;
            assert(all[n + j] == l.extra[j]);
        }
        lemma_codes(system, db, l.extra, address);
    } else {
        assert forall|j: int| i - n < j < l.extra.len() implies (#[trigger] l.extra[j]).0@
            != l.extra[i - n].0@ by {
            assert(all[n + j] == l.extra[j]);
        }
        lemma_codes_last(system, db, l.extra, i - n);
    }
    lemma_patches(code, db, l.patches, address, Seq::empty());
    lemma_batches(with_patches(code, db, l.patches), db, l.batches, address, Seq::empty());
}

/// An account of which only slots are patched keeps all that is known of it, its code too. One
/// that does not exist comes in without balance, nonce and code.
pub proof fn law_patched_account_stays<DB: AccountSource>(l: UpgradeLists, db: DB, address: Seq<u8>)
    requires
        upgrade_diff(l, db).contains_key(address),
        forall|i: int| 0 <= i < l.system.len() ==> (#[trigger] l.system[i]).0@ != address,
        forall|i: int| 0 <= i < l.extra.len() ==> (#[trigger] l.extra[i]).0@ != address,
    ensures
        upgrade_diff(l, db)[address].status == 4,
        db.info_of(address) matches Some(info) ==> upgrade_diff(l, db)[address].info == info,
        db.info_of(address) is None ==> upgrade_diff(l, db)[address].info == (InfoV {
            balance: ZERO_WORD,
            nonce: 0,
            code_hash: KECCAK_EMPTY,
            code: Some(Seq::empty()),
        }),
{
    let none: StateV = Map::empty();
    let system = with_codes(none, db, l.system);
    let code = with_codes(system, db, l.extra);
    lemma_codes(none, db, l.system, address);
    lemma_codes(system, db, l.extra, address);
    lemma_patches(code, db, l.patches, address, Seq::empty());
    lemma_batches(with_patches(code, db, l.patches), db, l.batches, address, Seq::empty());
}

/// The diff holds what a hardfork lists and nothing else: an account in it has a slot patched, or
/// exists and gets new code, and a slot in it is patched.
pub proof fn law_nothing_else_is_in_the_diff<DB: AccountSource>(
    l: UpgradeLists,
    db: DB,
    address: Seq<u8>,
    slot: Seq<u8>,
)
    requires
        upgrade_diff(l, db).contains_key(address),
    ensures
        ({
            ||| db.info_of(address) is Some && exists|i: int|
                0 <= i < l.system.len() && (#[trigger] l.system[i]).0@ == address
            ||| db.info_of(address) is Some && exists|i: int|
                0 <= i < l.extra.len() && (#[trigger] l.extra[i]).0@ == address
            ||| exists|i: int| 0 <= i < l.patches.len() && (#[trigger] l.patches[i]).0@ == address
            ||| exists|b: int, k: int|
                0 <= b < l.batches.len() && 0 <= k < l.batches[b].0@.len() && (
                #[trigger] l.batches[b].0@[k])@ == address
        }),
        upgrade_diff(l, db)[address].storage.contains_key(slot) ==> {
            ||| exists|i: int|
                0 <= i < l.patches.len() && (#[trigger] l.patches[i]).0@ == address
                    && l.patches[i].1@ == slot
            ||| exists|b: int, k: int|
                0 <= b < l.batches.len() && 0 <= k < l.batches[b].0@.len() && (
                #[trigger] l.batches[b].0@[k])@ == address && l.batches[b].1@ == slot
        },
{
    let none: StateV = Map::empty();
    let system = with_codes(none, db, l.system);
    let code = with_codes(system, db, l.extra);
    let patched = with_patches(code, db, l.patches);
    lemma_codes(none, db, l.system, address);
    lemma_codes(system, db, l.extra, address);
    lemma_patches(code, db, l.patches, address, slot);
    lemma_batches(patched, db, l.batches, address, slot);
    if account_batched(l.batches, address) {
        let b = choose|b: int|
            0 <= b < l.batches.len() && address_listed((#[trigger] l.batches[b]).0@, address);
        let k = choose|k: int|
            0 <= k < l.batches[b].0@.len() && (#[trigger] l.batches[b].0@[k])@ == address;
        assert(l.batches[b].0@[k]@ == address);
    }
    if slot_batched(l.batches, address, slot) {
        let b = choose|b: int|
            0 <= b < l.batches.len() && address_listed((#[trigger] l.batches[b]).0@, address)
                && l.batches[b].1@ == slot;
        let k = choose|k: int|
            0 <= k < l.batches[b].0@.len() && (#[trigger] l.batches[b].0@[k])@ == address;
        assert(l.batches[b].0@[k]@ == address && l.batches[b].1@ == slot);
    } else if slot_patched(l.patches, address, slot) {
    } else {
        assert(slot_in(upgrade_diff(l, db), address, slot) == slot_in(code, address, slot));
        assert(code.contains_key(address) ==> code[address].storage == Map::<
            Seq<u8>,
            EvmStorageSlot,
        >::empty());
    }
}

/// Changes on top of others have every account of both. What is known of an account comes from
/// the later changes where they have it, and so does a slot. The marks of both are kept.
pub proof fn law_merged_account(into: StateV, from: StateV, address: Seq<u8>, slot: Seq<u8>)
    ensures
        ({
            let m = merged(into, from);
            &&& m.contains_key(address) <==> into.contains_key(address) || from.contains_key(
                address,
            )
            &&& from.contains_key(address) ==> m[address].info == from[address].info
            &&& into.contains_key(address) && !from.contains_key(address) ==> m[address]
                == into[address]
            &&& !into.contains_key(address) && from.contains_key(address) ==> m[address]
                == from[address]
            &&& into.contains_key(address) && from.contains_key(address) ==> m[address].status
                == into[address].status | from[address].status && m[address].transaction_id
                == into[address].transaction_id
            &&& from.contains_key(address) && from[address].storage.contains_key(slot)
                ==> m[address].storage.contains_key(slot) && m[address].storage[slot]
                == from[address].storage[slot]
            &&& into.contains_key(address) && into[address].storage.contains_key(slot) && !(
            from.contains_key(address) && from[address].storage.contains_key(slot))
                ==> m[address].storage.contains_key(slot) && m[address].storage[slot]
                == into[address].storage[slot]
            &&& m.contains_key(address) && m[address].storage.contains_key(slot) ==> (
            into.contains_key(address) && into[address].storage.contains_key(slot)
                || from.contains_key(address) && from[address].storage.contains_key(slot))
        }),
{
}

/// Where one hardfork alone is due at a block, the changes are those that it lists, for each of
/// the four. Where none is due there are none.
pub proof fn law_one_fork_due<DB: AccountSource>(
    forks: GravityHardforks,
    lists: ForkLists,
    block: BlockV,
    db: DB,
)
    ensures
        ({
            let alpha = forks.alpha is Timestamp && forks.alpha->Timestamp_0 <= block.timestamp;
            let beta = forks.beta == ForkCondition::Block(block.number);
            let gamma = forks.gamma == ForkCondition::Block(block.number);
            let delta = forks.delta == ForkCondition::Block(block.number);
            let changes = due_changes(forks, lists, block, db);
            &&& alpha && !beta && !gamma && !delta ==> changes == upgrade_diff(lists.alpha, db)
            &&& !alpha && beta && !gamma && !delta ==> changes == upgrade_diff(lists.beta, db)
            &&& !alpha && !beta && gamma && !delta ==> changes == upgrade_diff(lists.gamma, db)
            &&& !alpha && !beta && !gamma && delta ==> changes == upgrade_diff(lists.delta, db)
            &&& !alpha && !beta && !gamma && !delta ==> changes == Map::<
                Seq<u8>,
                AccountV,
            >::empty()
        }),
{
    assert(merged(Map::empty(), upgrade_diff(lists.alpha, db)) =~= upgrade_diff(lists.alpha, db));
    assert(merged(Map::empty(), upgrade_diff(lists.beta, db)) =~= upgrade_diff(lists.beta, db));
    assert(merged(Map::empty(), upgrade_diff(lists.gamma, db)) =~= upgrade_diff(lists.gamma, db));
    assert(merged(Map::empty(), upgrade_diff(lists.delta, db)) =~= upgrade_diff(lists.delta, db));
}

/// The accounts of every hardfork that is due are in the changes, and no others. What is known of
/// an account is what the last hardfork says that is due and has it.
pub proof fn law_due_accounts<DB: AccountSource>(
    forks: GravityHardforks,
    lists: ForkLists,
    block: BlockV,
    db: DB,
    address: Seq<u8>,
)
    ensures
        ({
            let alpha = forks.alpha is Timestamp && forks.alpha->Timestamp_0 <= block.timestamp
                && upgrade_diff(lists.alpha, db).contains_key(address);
            let beta = forks.beta == ForkCondition::Block(block.number) && upgrade_diff(
                lists.beta,
                db,
            ).contains_key(address);
            let gamma = forks.gamma == ForkCondition::Block(block.number) && upgrade_diff(
                lists.gamma,
                db,
            ).contains_key(address);
            let delta = forks.delta == ForkCondition::Block(block.number) && upgrade_diff(
                lists.delta,
                db,
            ).contains_key(address);
            let changes = due_changes(forks, lists, block, db);
            &&& changes.contains_key(address) <==> alpha || beta || gamma || delta
            &&& delta ==> changes[address].info == upgrade_diff(lists.delta, db)[address].info
            &&& gamma && !delta ==> changes[address].info == upgrade_diff(
                lists.gamma,
                db,
            )[address].info
            &&& beta && !gamma && !delta ==> changes[address].info == upgrade_diff(
                lists.beta,
                db,
            )[address].info
            &&& alpha && !beta && !gamma && !delta ==> changes[address].info == upgrade_diff(
                lists.alpha,
                db,
            )[address].info
        }),
{
    let block_alpha = forks.alpha is Timestamp && forks.alpha->Timestamp_0 <= block.timestamp;
    let none: StateV = Map::empty();
    let a = with_fork(none, block_alpha, lists.alpha, db);
    let b = with_fork(a, forks.beta == ForkCondition::Block(block.number), lists.beta, db);
    let g = with_fork(b, forks.gamma == ForkCondition::Block(block.number), lists.gamma, db);
    let d = with_fork(g, forks.delta == ForkCondition::Block(block.number), lists.delta, db);
    assert(due_changes(forks, lists, block, db) == d);
    law_merged_account(none, upgrade_diff(lists.alpha, db), address, Seq::empty());
    law_merged_account(a, upgrade_diff(lists.beta, db), address, Seq::empty());
    law_merged_account(b, upgrade_diff(lists.gamma, db), address, Seq::empty());
    law_merged_account(g, upgrade_diff(lists.delta, db), address, Seq::empty());
}

/// The slots of every hardfork that is due are in the changes, and no others. A slot has the value
/// that the last hardfork gives it that is due and has it.
pub proof fn law_due_slots<DB: AccountSource>(
    forks: GravityHardforks,
    lists: ForkLists,
    block: BlockV,
    db: DB,
    address: Seq<u8>,
    slot: Seq<u8>,
)
    ensures
        ({
            let alpha = if forks.alpha is Timestamp && forks.alpha->Timestamp_0
                <= block.timestamp {
                slot_in(upgrade_diff(lists.alpha, db), address, slot)
            } else {
                None
            };
            let beta = if forks.beta == ForkCondition::Block(block.number) {
                slot_in(upgrade_diff(lists.beta, db), address, slot)
            } else {
                None
            };
            let gamma = if forks.gamma == ForkCondition::Block(block.number) {
                slot_in(upgrade_diff(lists.gamma, db), address, slot)
            } else {
                None
            };
            let delta = if forks.delta == ForkCondition::Block(block.number) {
                slot_in(upgrade_diff(lists.delta, db), address, slot)
            } else {
                None
            };
            slot_in(due_changes(forks, lists, block, db), address, slot) == if delta is Some {
                delta
            } else if gamma is Some {
                gamma
            } else if beta is Some {
                beta
            } else {
                alpha
            }
        }),
{
    let block_alpha = forks.alpha is Timestamp && forks.alpha->Timestamp_0 <= block.timestamp;
    let none: StateV = Map::empty();
    let a = with_fork(none, block_alpha, lists.alpha, db);
    let b = with_fork(a, forks.beta == ForkCondition::Block(block.number), lists.beta, db);
    let g = with_fork(b, forks.gamma == ForkCondition::Block(block.number), lists.gamma, db);
    let d = with_fork(g, forks.delta == ForkCondition::Block(block.number), lists.delta, db);
    assert(due_changes(forks, lists, block, db) == d);
    law_merged_account(none, upgrade_diff(lists.alpha, db), address, slot);
    law_merged_account(a, upgrade_diff(lists.beta, db), address, slot);
    law_merged_account(b, upgrade_diff(lists.gamma, db), address, slot);
    law_merged_account(g, upgrade_diff(lists.delta, db), address, slot);
}

/// The lists that count for a hardfork are those that it gives: each of the four is what it
/// answers when it is asked for it.
pub proof fn law_lists_are_asked_for<H: HardforkUpgrades>(h: H, l: UpgradeLists)
    requires
        listed_by(h, l),
    ensures
        exists|r: &'static [BytecodeUpgrade]|
            r@ == l.system && #[trigger] call_ensures(H::system_upgrades, (&h,), r),
        exists|r: &'static [BytecodeUpgrade]|
            r@ == l.extra && #[trigger] call_ensures(H::extra_upgrades, (&h,), r),
        exists|r: &'static [StoragePatch]|
            r@ == l.patches && #[trigger] call_ensures(H::storage_patches, (&h,), r),
        exists|r: &'static [BatchStoragePatch]|
            r@ == l.batches && #[trigger] call_ensures(H::batch_storage_patches, (&h,), r),
{
}

/// Every hardfork that is due is asked for its lists.
pub proof fn law_due_forks_are_asked<
    A: HardforkUpgrades,
    B: HardforkUpgrades,
    G: HardforkUpgrades,
    D: HardforkUpgrades,
>(forks: GravityHardforks, upgrades: Upgrades<A, B, G, D>, block: BlockV, lists: ForkLists)
    requires
        due_lists(forks, upgrades, block, lists),
    ensures
        forks.alpha is Timestamp && forks.alpha->Timestamp_0 <= block.timestamp ==> listed_by(
            upgrades.alpha,
            lists.alpha,
        ),
        forks.beta == ForkCondition::Block(block.number) ==> listed_by(upgrades.beta, lists.beta),
        forks.gamma == ForkCondition::Block(block.number) ==> listed_by(
            upgrades.gamma,
            lists.gamma,
        ),
        forks.delta == ForkCondition::Block(block.number) ==> listed_by(
            upgrades.delta,
            lists.delta,
        ),
{
}

/// Changes are handed to an executor once and whole. One that accepts them has taken them, and
/// where there are none it is left alone.
pub proof fn law_changes_are_applied<E: StateExecutor>(
    before: E,
    changes: StateV,
    after: E,
    r: Result<(), BlockExecutionError>,
    address: Seq<u8>,
)
    requires
        applied_to(before, changes, after, r),
    ensures
        changes.contains_key(address) && before.accepts(changes) ==> r is Ok && after.applied()
            == before.applied().push(changes),
        changes.contains_key(address) && r is Ok ==> after.applied() == before.applied().push(
            changes,
        ),
        changes == Map::<Seq<u8>, AccountV>::empty() ==> after == before && r is Ok,
        r is Err ==> before.refuses(changes, r->Err_0),
{
}

/// A failed read is told with what was read for, the address in the form that carries a checksum,
/// and the failure.
pub proof fn law_failed_reads<DB: AccountSource>(
    db: DB,
    us: Seq<BytecodeUpgrade>,
    address: Address,
    slot: U256,
    e: BlockExecutionError,
)
    ensures
        code_failed(db, us, e) ==> exists|i: int, failure: String|
            0 <= i < us.len() && #[trigger] call_ensures(
                DB::basic_ref,
                (&db, &us[i].0),
                Err::<Option<AccountInfo>, String>(failure),
            ) && e.message@ == "hardfork upgrade read "@ + checksum_text(us[i].0@) + ": "@
                + failure@,
        patch_failed(db, address, slot, e) ==> (exists|failure: String| #[trigger]
            call_ensures(DB::storage_ref, (&db, &address, &slot), Err::<U256, String>(failure))
                && e.message@ == "hardfork patch read "@ + checksum_text(address@) + ": "@
                + failure@) || (exists|failure: String| #[trigger]
            call_ensures(
                DB::basic_ref,
                (&db, &address),
                Err::<Option<AccountInfo>, String>(failure),
            ) && e.message@ == "hardfork patch read "@ + checksum_text(address@) + ": "@
                + failure@),
{
    if code_failed(db, us, e) {
        let i = choose|i: int|
            0 <= i < us.len() && info_read_failed(
                db,
                "hardfork upgrade read "@,
                (#[trigger] us[i]).0,
                e,
            );
        let failure = choose|failure: String| #[trigger]
            call_ensures(
                DB::basic_ref,
                (&db, &us[i].0),
                Err::<Option<AccountInfo>, String>(failure),
            ) && e.message@ == read_message("hardfork upgrade read "@, us[i].0@, failure@);
        assert(call_ensures(
            DB::basic_ref,
            (&db, &us[i].0),
            Err::<Option<AccountInfo>, String>(failure),
        ));
    }
}

/// Changed accounts are what they hold, under the same addresses.
pub proof fn law_views_of_changes(m: Map<Seq<u8>, ChangedAccount>, address: Seq<u8>)
    ensures
        state_view(m).contains_key(address) <==> m.contains_key(address),
        m.contains_key(address) ==> {
            let account = m[address];
            let seen = state_view(m)[address];
            &&& seen.info.balance == account.info.balance
            &&& seen.info.nonce == account.info.nonce
            &&& seen.info.code_hash == account.info.code_hash
            &&& seen.info.code == match account.info.code {
                Some(code) => Some(code@),
                None => None,
            }
            &&& seen.storage == account.storage@
            &&& seen.status == account.status
            &&& seen.transaction_id == account.transaction_id
        },
{
}

/// State in memory knows the accounts and the slots that it was given. A slot that it was not given
/// is zero, and an account that it was not given does not exist.
pub proof fn law_state_in_memory(state: MemoryState, address: Seq<u8>, slot: Seq<u8>)
    ensures
        state.accounts@.contains_key(address) ==> state.info_of(address) == Some(
            state.accounts@[address]@,
        ),
        !state.accounts@.contains_key(address) ==> state.info_of(address) is None,
        state.storage@.contains_key(address) && state.storage@[address]@.contains_key(slot)
            ==> state.slot_of(address, slot) == state.storage@[address]@[slot],
        !(state.storage@.contains_key(address) && state.storage@[address]@.contains_key(slot))
            ==> state.slot_of(address, slot) == ZERO_WORD,
        forall|i: int| 0 <= i < 32 ==> #[trigger] ZERO_WORD@[i] == 0,
{
}

/// A log of changes has taken each of its changes, in their order.
pub proof fn law_log_of_changes(log: ChangeLog, i: int)
    ensures
        log.applied().len() == log.changes@.len(),
        0 <= i < log.changes@.len() ==> log.applied()[i] == state_view(log.changes@[i]@),
{
}

/// What is told of a failed read: what was read for, the address and the failure.
spec fn read_told(e: BlockExecutionError, address: Seq<u8>, failure: Seq<char>) -> bool {
    ||| e.message@ == "hardfork upgrade read "@ + checksum_text(address) + ": "@ + failure
    ||| e.message@ == "hardfork patch read "@ + checksum_text(address) + ": "@ + failure
}

/// Changes fail only by a hardfork that is due, and what is told is of a failed read.
pub proof fn law_failed_changes<
    A: HardforkUpgrades,
    B: HardforkUpgrades,
    G: HardforkUpgrades,
    D: HardforkUpgrades,
    DB: AccountSource,
>(
    forks: GravityHardforks,
    upgrades: Upgrades<A, B, G, D>,
    block: BlockV,
    db: DB,
    e: BlockExecutionError,
)
    requires
        state_failed(forks, upgrades, block, db, e),
    ensures
        forks.alpha is Timestamp && forks.alpha->Timestamp_0 <= block.timestamp || forks.beta
            == ForkCondition::Block(block.number) || forks.gamma == ForkCondition::Block(
            block.number,
        ) || forks.delta == ForkCondition::Block(block.number),
        exists|address: Seq<u8>, failure: Seq<char>|
            e.message@ == #[trigger] ("hardfork upgrade read "@ + checksum_text(address) + ": "@
                + failure) || e.message@ == "hardfork patch read "@ + checksum_text(address) + ": "@
                + failure,
{
    let (address, failure) = if diff_failed(upgrades.alpha, db, e) {
        lemma_failed_diff(upgrades.alpha, db, e)
    } else if diff_failed(upgrades.beta, db, e) {
        lemma_failed_diff(upgrades.beta, db, e)
    } else if diff_failed(upgrades.gamma, db, e) {
        lemma_failed_diff(upgrades.gamma, db, e)
    } else {
        lemma_failed_diff(upgrades.delta, db, e)
    };
    let told = "hardfork upgrade read "@ + checksum_text(address) + ": "@ + failure;
    assert(e.message@ == told || e.message@ == "hardfork patch read "@ + checksum_text(address)
        + ": "@ + failure);
}

/// Which read a diff failed by.
proof fn lemma_failed_diff<H: HardforkUpgrades, DB: AccountSource>(
    h: H,
    db: DB,
    e: BlockExecutionError,
) -> (r: (Seq<u8>, Seq<char>))
    requires
        diff_failed(h, db, e),
    ensures
        read_told(e, r.0, r.1),
{
    if exists|us: Seq<BytecodeUpgrade>| code_failed(db, us, e) {
        let us = choose|us: Seq<BytecodeUpgrade>| code_failed(db, us, e);
        let i = choose|i: int|
            0 <= i < us.len() && info_read_failed(
                db,
                "hardfork upgrade read "@,
                (#[trigger] us[i]).0,
                e,
            );
        lemma_failed_info(db, "hardfork upgrade read "@, us[i].0, e)
    } else if exists|ps: Seq<StoragePatch>| patches_failed(db, ps, e) {
        let ps = choose|ps: Seq<StoragePatch>| patches_failed(db, ps, e);
        let i = choose|i: int|
            0 <= i < ps.len() && patch_failed(db, (#[trigger] ps[i]).0, ps[i].1, e);
        lemma_failed_patch(db, ps[i].0, ps[i].1, e)
    } else {
        let bs = choose|bs: Seq<BatchStoragePatch>| batches_failed(db, bs, e);
        let i = choose|i: int| 0 <= i < bs.len() && batch_failed(db, #[trigger] bs[i], e);
        let b = bs[i];
        let k = choose|k: int| 0 <= k < b.0@.len() && patch_failed(db, #[trigger] b.0@[k], b.1, e);
        lemma_failed_patch(db, b.0@[k], b.1, e)
    }
}

proof fn lemma_failed_info<DB: AccountSource>(
    db: DB,
    what: Seq<char>,
    address: Address,
    e: BlockExecutionError,
) -> (r: (Seq<u8>, Seq<char>))
    requires
        info_read_failed(db, what, address, e),
    ensures
        r.0 == address@,
        e.message@ == what + checksum_text(r.0) + ": "@ + r.1,
{
    let failure = choose|failure: String| #[trigger]
        call_ensures(
            DB::basic_ref,
            (&db, &address),
            Err::<Option<AccountInfo>, String>(failure),
        ) && e.message@ == read_message(what, address@, failure@);
    (address@, failure@)
}

proof fn lemma_failed_patch<DB: AccountSource>(
    db: DB,
    address: Address,
    slot: U256,
    e: BlockExecutionError,
) -> (r: (Seq<u8>, Seq<char>))
    requires
        patch_failed(db, address, slot, e),
    ensures
        r.0 == address@,
        e.message@ == "hardfork patch read "@ + checksum_text(r.0) + ": "@ + r.1,
{
    if slot_read_failed(db, address, slot, e) {
        let failure = choose|failure: String| #[trigger]
            call_ensures(DB::storage_ref, (&db, &address, &slot), Err::<U256, String>(failure))
                && e.message@ == read_message("hardfork patch read "@, address@, failure@);
        (address@, failure@)
    } else {
        lemma_failed_info(db, "hardfork patch read "@, address, e)
    }
}

} // verus!
