//! Collects changed state by hashed keys from the tables that hold it.

use vstd::prelude::*;

use crate::bytes::{at_most, lemma_lex_total, lemma_lex_trans, lex_le, ByteSeq};
use crate::errors::DatabaseError;
use crate::rlp::{keccak, keccak256, B256, U256, ZERO_WORD};
use crate::state::{Account, HashedPostState, HashedStorage};
use crate::trie_cache::Address;
use crate::vec_map::{
    distinct, entries_map, has_entry, lemma_entry, lemma_next_entry, MapKey, VecMap,
};

verus! {

/// Accounts by hashed address.
pub type AccountRows = Map<Seq<u8>, Account>;

/// Slots by hashed key.
pub type SlotRows = Map<Seq<u8>, U256>;

/// Addresses in order.
pub type AddressList = Seq<Address>;

/// Slots in order, each with its address.
pub type SlotList = Seq<(Address, B256)>;

/// The tables of accounts and storage by hash, and of what blocks changed.
pub trait HashedTables {
    /// The accounts by hashed address.
    spec fn accounts(&self) -> AccountRows;

    /// The slots of an account by hashed key.
    spec fn slots(&self, hashed_address: ByteSeq) -> SlotRows;

    /// The accounts that the blocks from `first` to `last` changed, in the order of the changes.
    spec fn changed_accounts(&self, first: u64, last: u64) -> AddressList;

    /// The slots that the blocks from `first` to `last` changed, in the order of the changes.
    spec fn changed_slots(&self, first: u64, last: u64) -> SlotList;

    /// Reads do not fail.
    spec fn reliable(&self) -> bool;

    /// The account with a hashed address.
    fn seek_account(&self, hashed_address: &B256) -> (r: Result<Option<Account>, DatabaseError>)
        ensures
            r matches Ok(a) ==> a == account_in(self.accounts(), hashed_address@),
            self.reliable() ==> r is Ok,
    ;

    /// The first slot of an account at or after a hashed key.
    fn seek_slot(&self, hashed_address: &B256, hashed_slot: &B256) -> (r: Result<
        Option<(B256, U256)>,
        DatabaseError,
    >)
        ensures
            r matches Ok(Some(e)) ==> first_slot(
                self.slots(hashed_address@),
                hashed_slot@,
                e.0@,
                e.1,
            ),
            r matches Ok(None) ==> forall|q: Seq<u8>| #[trigger]
                self.slots(hashed_address@).contains_key(q) ==> !lex_le(hashed_slot@, q),
            self.reliable() ==> r is Ok,
    ;

    /// The accounts that some blocks changed.
    fn walk_account_changes(&self, first: u64, last: u64) -> (r: Result<Vec<Address>, DatabaseError>)
        ensures
            r matches Ok(v) ==> v@ == self.changed_accounts(first, last),
            self.reliable() ==> r is Ok,
    ;

    /// The slots that some blocks changed.
    fn walk_storage_changes(&self, first: u64, last: u64) -> (r: Result<
        Vec<(Address, B256)>,
        DatabaseError,
    >)
        ensures
            r matches Ok(v) ==> v@ == self.changed_slots(first, last),
            self.reliable() ==> r is Ok,
    ;

    /// All accounts.
    fn walk_accounts(&self) -> (r: Result<Vec<(B256, Account)>, DatabaseError>)
        ensures
            r matches Ok(v) ==> distinct(v@) && entries_map(v@) == self.accounts(),
            self.reliable() ==> r is Ok,
    ;

    /// All slots, as hashed address, hashed key and value.
    fn walk_slots(&self) -> (r: Result<Vec<(B256, B256, U256)>, DatabaseError>)
        ensures
            r matches Ok(v) ==> forall|a: Seq<u8>| #[trigger] self.slots(a) == listed_slots(v@, a),
            self.reliable() ==> r is Ok,
    ;
}

/// The account with a hashed address.
pub open spec fn account_in(accounts: Map<Seq<u8>, Account>, address: Seq<u8>) -> Option<Account> {
    if accounts.contains_key(address) {
        Some(accounts[address])
    } else {
        None
    }
}

/// `p` with value `v` is the first of `slots` at or after `from`.
pub open spec fn first_slot(
    slots: Map<Seq<u8>, U256>,
    from: Seq<u8>,
    p: Seq<u8>,
    v: U256,
) -> bool {
    &&& slots.contains_key(p)
    &&& slots[p] == v
    &&& lex_le(from, p)
    &&& forall|q: Seq<u8>| #[trigger] slots.contains_key(q) && lex_le(from, q) ==> lex_le(p, q)
}

/// The slots of one account in a list of slots. A later value replaces an earlier one.
pub open spec fn listed_slots(list: Seq<(B256, B256, U256)>, address: Seq<u8>) -> Map<
    Seq<u8>,
    U256,
>
    decreases list.len(),
{
    if list.len() == 0 {
        Map::empty()
    } else {
        let rest = listed_slots(list.drop_last(), address);
        let e = list.last();
        if e.0@ == address {
            rest.insert(e.1@, e.2)
        } else {
            rest
        }
    }
}

/// The slots of one account by hashed key that a list of changes names, with the values that the
/// tables hold. A slot that they do not hold is zero.
pub open spec fn slots_named(
    list: Seq<(Address, B256)>,
    slots: Map<Seq<u8>, U256>,
    address: Seq<u8>,
) -> Map<Seq<u8>, U256> {
    Map::new(
        |s: Seq<u8>|
            exists|i: int|
                0 <= i < list.len() && keccak((#[trigger] list[i]).0@)@ == address && keccak(
                    list[i].1@,
                )@ == s,
        |s: Seq<u8>|
            if slots.contains_key(s) {
                slots[s]
            } else {
                ZERO_WORD
            },
    )
}

/// A list of changes names the account.
pub open spec fn account_named(list: Seq<Address>, address: Seq<u8>) -> bool {
    exists|i: int| 0 <= i < list.len() && keccak((#[trigger] list[i])@)@ == address
}

/// A list of slot changes names the account.
pub open spec fn owner_named(list: Seq<(Address, B256)>, address: Seq<u8>) -> bool {
    exists|i: int| 0 <= i < list.len() && keccak((#[trigger] list[i]).0@)@ == address
}

/// The storage changes in a state: nothing is wiped, and the slots are as `slots` says.
pub open spec fn storage_is(
    storages: Map<Seq<u8>, HashedStorage>,
    address: Seq<u8>,
    present: bool,
    slots: Map<Seq<u8>, U256>,
) -> bool {
    &&& storages.contains_key(address) == present
    &&& present ==> !storages[address].wiped && storages[address].storage@ == slots
}

/// `state` is what the tables hold of what the blocks from `first` to `last` changed.
pub open spec fn range_state<T: HashedTables>(
    tables: T,
    first: u64,
    last: u64,
    state: HashedPostState,
) -> bool {
    let accounts = tables.changed_accounts(first, last);
    let slots = tables.changed_slots(first, last);
    &&& forall|a: Seq<u8>| #[trigger]
        state.accounts@.contains_key(a) == (account_named(accounts, a) || owner_named(slots, a))
    &&& forall|a: Seq<u8>| #[trigger]
        state.accounts@.contains_key(a) ==> state.accounts@[a] == account_in(tables.accounts(), a)
    &&& forall|a: Seq<u8>|
        #![trigger state.storages@.contains_key(a)]
        storage_is(
            state.storages@,
            a,
            owner_named(slots, a),
            slots_named(slots, tables.slots(a), a),
        )
}

/// `state` is all that the tables hold.
pub open spec fn full_state<T: HashedTables>(tables: T, state: HashedPostState) -> bool {
    &&& forall|a: Seq<u8>| #[trigger]
        state.accounts@.contains_key(a) == tables.accounts().contains_key(a)
    &&& forall|a: Seq<u8>| #[trigger]
        state.accounts@.contains_key(a) ==> state.accounts@[a] == Some(tables.accounts()[a])
    &&& forall|a: Seq<u8>|
        #![trigger state.storages@.contains_key(a)]
        storage_is(
            state.storages@,
            a,
            tables.slots(a) != Map::<Seq<u8>, U256>::empty(),
            tables.slots(a),
        )
}

/// Sets a slot in the storage changes of an account.
fn set_slot(storages: &mut VecMap<B256, HashedStorage>, address: B256, slot: B256, value: U256)
    requires
        old(storages)@.contains_key(address@) ==> !old(storages)@[address@].wiped,
    ensures
        final(storages)@.contains_key(address@),
        !final(storages)@[address@].wiped,
        final(storages)@[address@].storage@ == (if old(storages)@.contains_key(address@) {
            old(storages)@[address@].storage@
        } else {
            Map::empty()
        }).insert(slot@, value),
        forall|a: Seq<u8>|
            a != address@ ==> #[trigger] final(storages)@.contains_key(a) == old(
                storages,
            )@.contains_key(a) && (old(storages)@.contains_key(a) ==> final(storages)@[a] == old(
                storages,
            )@[a]),
{
    let mut storage = match storages.remove(&address) {
        Some(storage) => storage,
        None => HashedStorage { wiped: false, storage: VecMap::new() },
    };
    storage.storage.insert(slot, value);
    storages.insert(address, storage);
}

/// `e` came of a search for an account.
pub open spec fn account_seek_failed<T: HashedTables>(tables: T, e: DatabaseError) -> bool {
    exists|a: B256| #[trigger]
        call_ensures(T::seek_account, (&tables, &a), Err::<Option<Account>, DatabaseError>(e))
}

/// `e` came of a search for a slot.
pub open spec fn slot_seek_failed<T: HashedTables>(tables: T, e: DatabaseError) -> bool {
    exists|a: B256, k: B256| #[trigger]
        call_ensures(T::seek_slot, (&tables, &a, &k), Err::<Option<(B256, U256)>, DatabaseError>(e))
}

/// `e` came of a read that the state of a range of blocks takes, or all state.
pub open spec fn state_read_failed<T: HashedTables>(
    tables: T,
    range: Option<(u64, u64)>,
    e: DatabaseError,
) -> bool {
    match range {
        Some((first, last)) => {
            ||| call_ensures(
                T::walk_account_changes,
                (&tables, first, last),
                Err::<Vec<Address>, DatabaseError>(e),
            )
            ||| call_ensures(
                T::walk_storage_changes,
                (&tables, first, last),
                Err::<Vec<(Address, B256)>, DatabaseError>(e),
            )
            ||| account_seek_failed(tables, e)
            ||| slot_seek_failed(tables, e)
        },
        None => {
            ||| call_ensures(
                T::walk_accounts,
                (&tables,),
                Err::<Vec<(B256, Account)>, DatabaseError>(e),
            )
            ||| call_ensures(
                T::walk_slots,
                (&tables,),
                Err::<Vec<(B256, B256, U256)>, DatabaseError>(e),
            )
        },
    }
}

/// The value of a slot. One that is not there is zero.
fn slot_value<T: HashedTables>(tables: &T, address: &B256, slot: &B256) -> (r: Result<
    U256,
    DatabaseError,
>)
    ensures
        r matches Ok(v) ==> v == if tables.slots(address@).contains_key(slot@) {
            tables.slots(address@)[slot@]
        } else {
            ZERO_WORD
        },
        tables.reliable() ==> r is Ok,
        r matches Err(e) ==> slot_seek_failed(*tables, e),
{
    proof {
        lemma_lex_total(slot@, slot@);
    }
    match tables.seek_slot(address, slot) {
        Ok(Some((key, value))) => {
            proof {
                lemma_lex_total(slot@, key@);
            }
            if key.same_key(slot) {
                Ok(value)
            } else {
                Ok(ZERO_WORD)
            }
        },
        Ok(None) => Ok(ZERO_WORD),
        Err(e) => Err(e),
    }
}

/// The state that the blocks from `first` to `last` changed, as the tables hold it.
fn read_range<T: HashedTables>(tables: &T, first: u64, last: u64) -> (r: Result<
    HashedPostState,
    DatabaseError,
>)
    ensures
        r matches Ok(state) ==> range_state(*tables, first, last, state),
        tables.reliable() ==> r is Ok,
        r matches Err(e) ==> state_read_failed(*tables, Some((first, last)), e),
{
    let mut accounts: VecMap<B256, Option<Account>> = VecMap::new();
    let mut storages: VecMap<B256, HashedStorage> = VecMap::new();
    let account_list = match tables.walk_account_changes(first, last) {
        Ok(list) => list,
        Err(e) => return Err(e),
    };
    let mut i: usize = 0;
    while i < account_list.len()
        invariant
            i <= account_list@.len(),
            forall|a: Seq<u8>| #[trigger]
                accounts@.contains_key(a) == account_named(account_list@.take(i as int), a),
            forall|a: Seq<u8>| #[trigger]
                accounts@.contains_key(a) ==> accounts@[a] == account_in(tables.accounts(), a),
        decreases account_list@.len() - i,
    {
        let hashed_address = keccak256(account_list[i].as_slice());
        let account = match tables.seek_account(&hashed_address) {
            Ok(account) => account,
            Err(e) => return Err(e),
        };
        let ghost before = accounts@;
        accounts.insert(hashed_address, account);
        proof {
            assert forall|a: Seq<u8>| #[trigger]
                accounts@.contains_key(a) == account_named(account_list@.take(i + 1), a) by {
                lemma_account_named(account_list@, i as int, a);
                assert(before.contains_key(a) == account_named(account_list@.take(i as int), a));
            }
        }
        i += 1;
    }
    assert(account_list@.take(i as int) =~= account_list@);
    let slot_list = match tables.walk_storage_changes(first, last) {
        Ok(list) => list,
        Err(e) => return Err(e),
    };
    let ghost slots = slot_list@;
    let mut k: usize = 0;
    proof {
        assert forall|a: Seq<u8>|
            #![trigger storages@.contains_key(a)]
            storage_is(
                storages@,
                a,
                owner_named(slots.take(0), a),
                slots_named(slots.take(0), tables.slots(a), a),
            ) by {}
    }
    while k < slot_list.len()
        invariant
            k <= slot_list@.len(),
            slots == slot_list@,
            forall|a: Seq<u8>| #[trigger]
                accounts@.contains_key(a) == (account_named(account_list@, a) || owner_named(
                    slots.take(k as int),
                    a,
                )),
            forall|a: Seq<u8>| #[trigger]
                accounts@.contains_key(a) ==> accounts@[a] == account_in(tables.accounts(), a),
            forall|a: Seq<u8>|
                #![trigger storages@.contains_key(a)]
                storage_is(
                    storages@,
                    a,
                    owner_named(slots.take(k as int), a),
                    slots_named(slots.take(k as int), tables.slots(a), a),
                ),
        decreases slot_list@.len() - k,
    {
        let hashed_address = keccak256(slot_list[k].0.as_slice());
        let ghost accounts_before = accounts@;
        let ghost storages_before = storages@;
        if !accounts.contains_key(&hashed_address) {
            let account = match tables.seek_account(&hashed_address) {
                Ok(account) => account,
                Err(e) => return Err(e),
            };
            accounts.insert(hashed_address, account);
        }
        let hashed_slot = keccak256(slot_list[k].1.as_slice());
        let value = match slot_value(tables, &hashed_address, &hashed_slot) {
            Ok(value) => value,
            Err(e) => return Err(e),
        };
        assert(storage_is(
            storages_before,
            hashed_address@,
            owner_named(slots.take(k as int), hashed_address@),
            slots_named(
                slots.take(k as int),
                tables.slots(hashed_address@),
                hashed_address@,
            ),
        )) by {
            assert(storages_before.contains_key(hashed_address@)
                || !storages_before.contains_key(hashed_address@));
        }
        set_slot(&mut storages, hashed_address, hashed_slot, value);
        proof {
            assert forall|a: Seq<u8>| #[trigger]
                accounts@.contains_key(a) == (account_named(account_list@, a) || owner_named(
                    slots.take(k + 1),
                    a,
                )) by {
                lemma_owner_named(slots, k as int, a);
                assert(accounts_before.contains_key(a) == (account_named(account_list@, a)
                    || owner_named(slots.take(k as int), a)));
            }
            assert forall|a: Seq<u8>|
                #![trigger storages@.contains_key(a)]
                storage_is(
                    storages@,
                    a,
                    owner_named(slots.take(k + 1), a),
                    slots_named(slots.take(k + 1), tables.slots(a), a),
                ) by {
                lemma_owner_named(slots, k as int, a);
                lemma_slots_named(slots, k as int, tables.slots(a), a);
                assert(storages_before.contains_key(a) || !storages_before.contains_key(a));
                assert(storage_is(
                    storages_before,
                    a,
                    owner_named(slots.take(k as int), a),
                    slots_named(slots.take(k as int), tables.slots(a), a),
                ));
            }
        }
        k += 1;
    }
    assert(slots.take(k as int) =~= slots);
    Ok(HashedPostState { accounts, storages })
}

proof fn lemma_account_named(list: Seq<Address>, i: int, a: Seq<u8>)
    requires
        0 <= i < list.len(),
    ensures
        account_named(list.take(i + 1), a) == (account_named(list.take(i), a) || keccak(
            list[i]@,
        )@ == a),
{
    let x = list.take(i);
    let y = list.take(i + 1);
    if account_named(x, a) {
        let j = choose|j: int| 0 <= j < x.len() && keccak((#[trigger] x[j])@)@ == a;
        assert(keccak(y[j]@)@ == a);
    }
    if account_named(y, a) {
        let j = choose|j: int| 0 <= j < y.len() && keccak((#[trigger] y[j])@)@ == a;
        if j < i {
            assert(keccak(x[j]@)@ == a);
        }
    }
    if keccak(list[i]@)@ == a {
        assert(keccak(y[i]@)@ == a);
    }
}

proof fn lemma_owner_named(list: Seq<(Address, B256)>, i: int, a: Seq<u8>)
    requires
        0 <= i < list.len(),
    ensures
        owner_named(list.take(i + 1), a) == (owner_named(list.take(i), a) || keccak(list[i].0@)@
            == a),
{
    let x = list.take(i);
    let y = list.take(i + 1);
    if owner_named(x, a) {
        let j = choose|j: int| 0 <= j < x.len() && keccak((#[trigger] x[j]).0@)@ == a;
        assert(keccak(y[j].0@)@ == a);
    }
    if owner_named(y, a) {
        let j = choose|j: int| 0 <= j < y.len() && keccak((#[trigger] y[j]).0@)@ == a;
        if j < i {
            assert(keccak(x[j].0@)@ == a);
        }
    }
    if keccak(list[i].0@)@ == a {
        assert(keccak(y[i].0@)@ == a);
    }
}

proof fn lemma_slots_named(
    list: Seq<(Address, B256)>,
    i: int,
    slots: Map<Seq<u8>, U256>,
    a: Seq<u8>,
)
    requires
        0 <= i < list.len(),
    ensures
        slots_named(list.take(i + 1), slots, a) == (if keccak(list[i].0@)@ == a {
            let s = keccak(list[i].1@)@;
            slots_named(list.take(i), slots, a).insert(
                s,
                if slots.contains_key(s) {
                    slots[s]
                } else {
                    ZERO_WORD
                },
            )
        } else {
            slots_named(list.take(i), slots, a)
        }),
        !owner_named(list.take(i), a) ==> slots_named(list.take(i), slots, a) == Map::<
            Seq<u8>,
            U256,
        >::empty(),
{
    let x = list.take(i);
    let y = list.take(i + 1);
    let before = slots_named(x, slots, a);
    let after = slots_named(y, slots, a);
    let mine = keccak(list[i].0@)@ == a;
    assert forall|s: Seq<u8>| #[trigger]
        after.contains_key(s) == (before.contains_key(s) || mine && keccak(list[i].1@)@ == s) by {
        if before.contains_key(s) {
            let j = choose|j: int|
                0 <= j < x.len() && keccak((#[trigger] x[j]).0@)@ == a && keccak(x[j].1@)@ == s;
            assert(keccak(y[j].0@)@ == a && keccak(y[j].1@)@ == s);
        }
        if after.contains_key(s) {
            let j = choose|j: int|
                0 <= j < y.len() && keccak((#[trigger] y[j]).0@)@ == a && keccak(y[j].1@)@ == s;
            if j < i {
                assert(keccak(x[j].0@)@ == a && keccak(x[j].1@)@ == s);
            }
        }
        if mine && keccak(list[i].1@)@ == s {
            assert(keccak(y[i].0@)@ == a && keccak(y[i].1@)@ == s);
        }
    }
    if mine {
        let s = keccak(list[i].1@)@;
        assert(after =~= before.insert(
            s,
            if slots.contains_key(s) {
                slots[s]
            } else {
                ZERO_WORD
            },
        ));
    } else {
        assert(after =~= before);
    }
    if !owner_named(x, a) {
        assert forall|s: Seq<u8>| !#[trigger] before.contains_key(s) by {
            if before.contains_key(s) {
                let j = choose|j: int|
                    0 <= j < x.len() && keccak((#[trigger] x[j]).0@)@ == a && keccak(x[j].1@)@ == s;
                assert(keccak(x[j].0@)@ == a);
            }
        }
        assert(before =~= Map::<Seq<u8>, U256>::empty());
    }
}

/// All state that the tables hold.
fn read_all<T: HashedTables>(tables: &T) -> (r: Result<HashedPostState, DatabaseError>)
    ensures
        r matches Ok(state) ==> full_state(*tables, state),
        tables.reliable() ==> r is Ok,
        r matches Err(e) ==> state_read_failed(*tables, None, e),
{
    let mut accounts: VecMap<B256, Option<Account>> = VecMap::new();
    let mut storages: VecMap<B256, HashedStorage> = VecMap::new();
    let account_list = match tables.walk_accounts() {
        Ok(list) => list,
        Err(e) => return Err(e),
    };
    let ghost all = account_list@;
    let mut i: usize = 0;
    while i < account_list.len()
        invariant
            i <= account_list@.len(),
            all == account_list@,
            distinct(all),
            forall|a: Seq<u8>| #[trigger]
                accounts@.contains_key(a) == has_entry(all.take(i as int), a),
            forall|j: int|
                0 <= j < i ==> accounts@[(#[trigger] all[j]).0@] == Some(all[j].1),
        decreases account_list@.len() - i,
    {
        let (hashed_address, account) = account_list[i];
        let ghost before = accounts@;
        accounts.insert(hashed_address, Some(account));
        proof {
            assert forall|a: Seq<u8>| #[trigger]
                accounts@.contains_key(a) == has_entry(all.take(i + 1), a) by {
                lemma_prefix_entry(all, i as int, a);
                assert(before.contains_key(a) == has_entry(all.take(i as int), a));
            }
            assert forall|j: int| 0 <= j < i + 1 implies accounts@[(#[trigger] all[j]).0@] == Some(
                all[j].1,
            ) by {
                if j < i {
                    assert(all[j].0.key() != all[i as int].0.key());
                }
            }
        }
        i += 1;
    }
    proof {
        assert(all.take(i as int) =~= all);
        assert forall|a: Seq<u8>| #[trigger] accounts@.contains_key(a) implies accounts@[a] == Some(
            tables.accounts()[a],
        ) by {
            let j = choose|j: int| 0 <= j < all.len() && (#[trigger] all[j]).0.key() == a;
            lemma_entry(all, j);
            assert(accounts@[all[j].0@] == Some(all[j].1));
        }
    }
    let slot_list = match tables.walk_slots() {
        Ok(list) => list,
        Err(e) => return Err(e),
    };
    let ghost slots = slot_list@;
    let mut k: usize = 0;
    proof {
        assert(slots.take(0) =~= Seq::empty());
        assert forall|a: Seq<u8>|
            #![trigger storages@.contains_key(a)]
            storage_is(
                storages@,
                a,
                listed_slots(slots.take(0), a) != Map::<Seq<u8>, U256>::empty(),
                listed_slots(slots.take(0), a),
            ) by {}
    }
    while k < slot_list.len()
        invariant
            k <= slot_list@.len(),
            slots == slot_list@,
            forall|a: Seq<u8>|
                #![trigger storages@.contains_key(a)]
                storage_is(
                    storages@,
                    a,
                    listed_slots(slots.take(k as int), a) != Map::<Seq<u8>, U256>::empty(),
                    listed_slots(slots.take(k as int), a),
                ),
        decreases slot_list@.len() - k,
    {
        let (hashed_address, hashed_slot, value) = slot_list[k];
        let ghost before = storages@;
        assert(before.contains_key(hashed_address@) || !before.contains_key(hashed_address@));
        set_slot(&mut storages, hashed_address, hashed_slot, value);
        proof {
            assert(slots.take(k + 1).drop_last() =~= slots.take(k as int));
            assert(slots.take(k + 1).last() == slots[k as int]);
            assert forall|a: Seq<u8>|
                #![trigger storages@.contains_key(a)]
                storage_is(
                    storages@,
                    a,
                    listed_slots(slots.take(k + 1), a) != Map::<Seq<u8>, U256>::empty(),
                    listed_slots(slots.take(k + 1), a),
                ) by {
                assert(before.contains_key(a) || !before.contains_key(a));
                assert(storage_is(
                    before,
                    a,
                    listed_slots(slots.take(k as int), a) != Map::<Seq<u8>, U256>::empty(),
                    listed_slots(slots.take(k as int), a),
                ));
                if a == hashed_address@ {
                    assert(listed_slots(slots.take(k + 1), a).contains_key(hashed_slot@));
                }
            }
        }
        k += 1;
    }
    assert(slots.take(k as int) =~= slots);
    Ok(HashedPostState { accounts, storages })
}

proof fn lemma_prefix_entry<V>(list: Seq<(B256, V)>, i: int, a: Seq<u8>)
    requires
        0 <= i < list.len(),
    ensures
        has_entry(list.take(i + 1), a) == (has_entry(list.take(i), a) || list[i].0@ == a),
{
    let x = list.take(i);
    let y = list.take(i + 1);
    if has_entry(x, a) {
        let j = choose|j: int| 0 <= j < x.len() && (#[trigger] x[j]).0.key() == a;
        assert(y[j].0.key() == a);
    }
    if has_entry(y, a) {
        let j = choose|j: int| 0 <= j < y.len() && (#[trigger] y[j]).0.key() == a;
        if j < i {
            assert(x[j].0.key() == a);
        }
    }
    if list[i].0@ == a {
        assert(y[i].0.key() == a);
    }
}

/// The state that a range of blocks changed, or all state, as the tables hold it.
pub fn read_hashed_state<T: HashedTables>(tables: &T, range: Option<(u64, u64)>) -> (r: Result<
    HashedPostState,
    DatabaseError,
>)
    ensures
        r matches Ok(state) ==> match range {
            Some((first, last)) => range_state(*tables, first, last, state),
            None => full_state(*tables, state),
        },
        tables.reliable() ==> r is Ok,
        r matches Err(e) ==> state_read_failed(*tables, range, e),
{
    match range {
        Some((first, last)) => read_range(tables, first, last),
        None => read_all(tables),
    }
}

/// The tables in memory.
#[derive(Debug, PartialEq, Eq)]
pub struct MemoryTables {
    /// The accounts by hashed address.
    pub accounts: VecMap<B256, Account>,
    /// The slots by hashed address and hashed key.
    pub storages: VecMap<B256, VecMap<B256, U256>>,
    /// Which block changed which account.
    pub account_changes: Vec<(u64, Address)>,
    /// Which block changed which slot.
    pub storage_changes: Vec<(u64, Address, B256)>,
}

/// The changes of the blocks from `first` to `last` to accounts.
pub open spec fn accounts_between(changes: Seq<(u64, Address)>, first: u64, last: u64) -> Seq<
    Address,
>
    decreases changes.len(),
{
    if changes.len() == 0 {
        Seq::empty()
    } else {
        let rest = accounts_between(changes.drop_last(), first, last);
        if first <= changes.last().0 <= last {
            rest.push(changes.last().1)
        } else {
            rest
        }
    }
}

/// The changes of the blocks from `first` to `last` to slots.
pub open spec fn slots_between(changes: Seq<(u64, Address, B256)>, first: u64, last: u64) -> Seq<
    (Address, B256),
>
    decreases changes.len(),
{
    if changes.len() == 0 {
        Seq::empty()
    } else {
        let rest = slots_between(changes.drop_last(), first, last);
        if first <= changes.last().0 <= last {
            rest.push((changes.last().1, changes.last().2))
        } else {
            rest
        }
    }
}

impl HashedTables for MemoryTables {
    open spec fn accounts(&self) -> Map<Seq<u8>, Account> {
        self.accounts@
    }

    open spec fn slots(&self, hashed_address: Seq<u8>) -> Map<Seq<u8>, U256> {
        if self.storages@.contains_key(hashed_address) {
            self.storages@[hashed_address]@
        } else {
            Map::empty()
        }
    }

    open spec fn changed_accounts(&self, first: u64, last: u64) -> Seq<Address> {
        accounts_between(self.account_changes@, first, last)
    }

    open spec fn changed_slots(&self, first: u64, last: u64) -> Seq<(Address, B256)> {
        slots_between(self.storage_changes@, first, last)
    }

    open spec fn reliable(&self) -> bool {
        true
    }

    fn seek_account(&self, hashed_address: &B256) -> (r: Result<Option<Account>, DatabaseError>) {
        match self.accounts.get(hashed_address) {
            Some(a) => Ok(Some(*a)),
            None => Ok(None),
        }
    }

    fn seek_slot(&self, hashed_address: &B256, hashed_slot: &B256) -> (r: Result<
        Option<(B256, U256)>,
        DatabaseError,
    >) {
        let table = match self.storages.get(hashed_address) {
            Some(table) => table,
            None => return Ok(None),
        };
        let n = table.len();
        let ghost listing = table.listing();
        let mut best: Option<(B256, U256)> = None;
        let mut i: usize = 0;
        while i < n
            invariant
                i <= n,
                n == listing.len(),
                listing == table.listing(),
                best matches Some(b) ==> table@.contains_key(b.0@) && table@[b.0@] == b.1 && lex_le(
                    hashed_slot@,
                    b.0@,
                ),
                forall|j: int|
                    0 <= j < i && lex_le(hashed_slot@, (#[trigger] listing[j]).0@) ==> best is Some
                        && lex_le((best->0).0@, listing[j].0@),
            decreases n - i,
        {
            let (p, v) = table.entry(i);
            proof {
                lemma_lex_total(p@, p@);
            }
            if at_most(hashed_slot.as_slice(), p.as_slice()) {
                match best {
                    Some(b) => {
                        proof {
                            lemma_lex_total(p@, b.0@);
                        }
                        if at_most(p.as_slice(), b.0.as_slice()) {
                            proof {
                                assert forall|j: int|
                                    0 <= j < i && lex_le(
                                        hashed_slot@,
                                        (#[trigger] listing[j]).0@,
                                    ) implies lex_le(p@, listing[j].0@) by {
                                    lemma_lex_trans(p@, b.0@, listing[j].0@);
                                }
                            }
                            best = Some((*p, *v));
                        }
                    },
                    None => {
                        best = Some((*p, *v));
                    },
                }
            }
            i += 1;
        }
        proof {
            assert forall|q: Seq<u8>| #[trigger]
                table@.contains_key(q) && lex_le(hashed_slot@, q) implies best is Some && lex_le(
                (best->0).0@,
                q,
            ) by {
                assert(has_entry(listing, q));
                let j = choose|j: int| 0 <= j < listing.len() && (#[trigger] listing[j]).0.key() == q;
                assert(listing[j].0@ == q);
            }
        }
        Ok(best)
    }

    fn walk_account_changes(&self, first: u64, last: u64) -> (r: Result<
        Vec<Address>,
        DatabaseError,
    >) {
        let ghost all = self.account_changes@;
        let mut r: Vec<Address> = Vec::new();
        let mut i: usize = 0;
        assert(all.take(0) =~= Seq::empty());
        while i < self.account_changes.len()
            invariant
                i <= all.len(),
                all == self.account_changes@,
                r@ == accounts_between(all.take(i as int), first, last),
            decreases all.len() - i,
        {
            proof {
                assert(all.take(i + 1).drop_last() =~= all.take(i as int));
                assert(all.take(i + 1).last() == all[i as int]);
            }
            let (block, address) = self.account_changes[i];
            if first <= block && block <= last {
                r.push(address);
            }
            i += 1;
        }
        assert(all.take(i as int) =~= all);
        Ok(r)
    }

    fn walk_storage_changes(&self, first: u64, last: u64) -> (r: Result<
        Vec<(Address, B256)>,
        DatabaseError,
    >) {
        let ghost all = self.storage_changes@;
        let mut r: Vec<(Address, B256)> = Vec::new();
        let mut i: usize = 0;
        assert(all.take(0) =~= Seq::empty());
        while i < self.storage_changes.len()
            invariant
                i <= all.len(),
                all == self.storage_changes@,
                r@ == slots_between(all.take(i as int), first, last),
            decreases all.len() - i,
        {
            proof {
                assert(all.take(i + 1).drop_last() =~= all.take(i as int));
                assert(all.take(i + 1).last() == all[i as int]);
            }
            let (block, address, slot) = self.storage_changes[i];
            if first <= block && block <= last {
                r.push((address, slot));
            }
            i += 1;
        }
        assert(all.take(i as int) =~= all);
        Ok(r)
    }

    fn walk_accounts(&self) -> (r: Result<Vec<(B256, Account)>, DatabaseError>) {
        let n = self.accounts.len();
        let ghost listing = self.accounts.listing();
        let mut r: Vec<(B256, Account)> = Vec::with_capacity(n);
        let mut i: usize = 0;
        while i < n
            invariant
                i <= n,
                n == listing.len(),
                listing == self.accounts.listing(),
                r@ == listing.take(i as int),
            decreases n - i,
        {
            let (address, account) = self.accounts.entry(i);
            r.push((*address, *account));
            i += 1;
        }
        assert(listing.take(i as int) =~= listing);
        Ok(r)
    }

    fn walk_slots(&self) -> (r: Result<Vec<(B256, B256, U256)>, DatabaseError>) {
        let n = self.storages.len();
        let ghost listing = self.storages.listing();
        let mut r: Vec<(B256, B256, U256)> = Vec::new();
        let mut i: usize = 0;
        while i < n
            invariant
                i <= n,
                n == listing.len(),
                listing == self.storages.listing(),
                distinct(listing),
                forall|a: Seq<u8>| #[trigger]
                    listed_slots(r@, a) == if has_entry(listing.take(i as int), a) {
                        entries_map(listing)[a]@
                    } else {
                        Map::<Seq<u8>, U256>::empty()
                    },
            decreases n - i,
        {
            let ghost before = r@;
            let (address, slots) = self.storages.entry(i);
            let m = slots.len();
            let ghost inner = slots.listing();
            let mut k: usize = 0;
            assert(inner.take(0) =~= Seq::empty());
            proof {
                lemma_entry(listing, i as int);
                assert forall|a: Seq<u8>| a == address@ implies !#[trigger] has_entry(
                    listing.take(i as int),
                    a,
                ) by {
                    if has_entry(listing.take(i as int), a) {
                        let j = choose|j: int|
                            0 <= j < i && (#[trigger] listing.take(i as int)[j]).0.key() == a;
                        assert(listing[j].0.key() != listing[i as int].0.key());
                    }
                }
                assert(entries_map(inner.take(0)) =~= Map::<Seq<u8>, U256>::empty());
            }
            while k < m
                invariant
                    k <= m,
                    m == inner.len(),
                    inner == slots.listing(),
                    distinct(inner),
                    forall|a: Seq<u8>| #[trigger]
                        listed_slots(r@, a) == if a == address@ {
                            entries_map(inner.take(k as int))
                        } else {
                            listed_slots(before, a)
                        },
                decreases m - k,
            {
                let (slot, value) = slots.entry(k);
                let ghost mid = r@;
                r.push((*address, *slot, *value));
                proof {
                    assert(r@.drop_last() =~= mid);
                    lemma_next_entry(inner, k as int);
                    assert forall|a: Seq<u8>| #[trigger]
                        listed_slots(r@, a) == if a == address@ {
                            entries_map(inner.take(k + 1))
                        } else {
                            listed_slots(before, a)
                        } by {
                        assert(listed_slots(mid, a) == if a == address@ {
                            entries_map(inner.take(k as int))
                        } else {
                            listed_slots(before, a)
                        });
                    }
                }
                k += 1;
            }
            proof {
                assert(inner.take(k as int) =~= inner);
                assert forall|a: Seq<u8>| #[trigger]
                    listed_slots(r@, a) == if has_entry(listing.take(i + 1), a) {
                        entries_map(listing)[a]@
                    } else {
                        Map::<Seq<u8>, U256>::empty()
                    } by {
                    lemma_prefix_entry(listing, i as int, a);
                    assert(listed_slots(before, a) == if has_entry(listing.take(i as int), a) {
                        entries_map(listing)[a]@
                    } else {
                        Map::<Seq<u8>, U256>::empty()
                    });
                }
            }
            i += 1;
        }
        assert(listing.take(i as int) =~= listing);
        Ok(r)
    }
}

/// The state of a range of blocks has every account that they changed, as the tables hold it. One
/// that they do not hold is deleted.
pub proof fn law_changed_accounts_are_read<T: HashedTables>(
    tables: T,
    first: u64,
    last: u64,
    state: HashedPostState,
    i: int,
)
    requires
        range_state(tables, first, last, state),
        0 <= i < tables.changed_accounts(first, last).len(),
    ensures
        ({
            let address = keccak(tables.changed_accounts(first, last)[i]@)@;
            &&& state.accounts@.contains_key(address)
            &&& tables.accounts().contains_key(address) ==> state.accounts@[address] == Some(
                tables.accounts()[address],
            )
            &&& !tables.accounts().contains_key(address) ==> state.accounts@[address] is None
        }),
{
    let address = keccak(tables.changed_accounts(first, last)[i]@)@;
    assert(account_named(tables.changed_accounts(first, last), address));
    assert(state.accounts@.contains_key(address));
}

/// The state of a range of blocks has every slot that they changed, with the value that the tables
/// hold, or zero where they hold none. It has the account of the slot too, and wipes nothing.
pub proof fn law_changed_slots_are_read<T: HashedTables>(
    tables: T,
    first: u64,
    last: u64,
    state: HashedPostState,
    i: int,
)
    requires
        range_state(tables, first, last, state),
        0 <= i < tables.changed_slots(first, last).len(),
    ensures
        ({
            let address = keccak(tables.changed_slots(first, last)[i].0@)@;
            let slot = keccak(tables.changed_slots(first, last)[i].1@)@;
            let held = tables.slots(address);
            &&& state.storages@.contains_key(address)
            &&& !state.storages@[address].wiped
            &&& state.storages@[address].storage@.contains_key(slot)
            &&& held.contains_key(slot) ==> state.storages@[address].storage@[slot] == held[slot]
            &&& !held.contains_key(slot) ==> state.storages@[address].storage@[slot] == ZERO_WORD
            &&& state.accounts@.contains_key(address)
            &&& tables.accounts().contains_key(address) ==> state.accounts@[address] == Some(
                tables.accounts()[address],
            )
            &&& !tables.accounts().contains_key(address) ==> state.accounts@[address] is None
        }),
{
    let list = tables.changed_slots(first, last);
    let address = keccak(list[i].0@)@;
    let slot = keccak(list[i].1@)@;
    assert(owner_named(list, address));
    assert(state.accounts@.contains_key(address));
    assert(storage_is(
        state.storages@,
        address,
        owner_named(list, address),
        slots_named(list, tables.slots(address), address),
    )) by {
        assert(state.storages@.contains_key(address) || !state.storages@.contains_key(address));
    }
    assert(slots_named(list, tables.slots(address), address).contains_key(slot));
}

/// The state of a range of blocks has nothing that they did not change.
pub proof fn law_only_changes_are_read<T: HashedTables>(
    tables: T,
    first: u64,
    last: u64,
    state: HashedPostState,
    address: Seq<u8>,
    slot: Seq<u8>,
)
    requires
        range_state(tables, first, last, state),
    ensures
        state.accounts@.contains_key(address) ==> (exists|i: int|
            0 <= i < tables.changed_accounts(first, last).len() && keccak(
                (#[trigger] tables.changed_accounts(first, last)[i])@,
            )@ == address) || (exists|i: int|
            0 <= i < tables.changed_slots(first, last).len() && keccak(
                (#[trigger] tables.changed_slots(first, last)[i]).0@,
            )@ == address),
        state.storages@.contains_key(address) && state.storages@[address].storage@.contains_key(
            slot,
        ) ==> exists|i: int|
            0 <= i < tables.changed_slots(first, last).len() && keccak(
                (#[trigger] tables.changed_slots(first, last)[i]).0@,
            )@ == address && keccak(tables.changed_slots(first, last)[i].1@)@ == slot,
{
    let list = tables.changed_slots(first, last);
    if state.storages@.contains_key(address) {
        assert(storage_is(
            state.storages@,
            address,
            owner_named(list, address),
            slots_named(list, tables.slots(address), address),
        ));
    }
}

/// All state is every account and every slot that the tables hold, and nothing else.
pub proof fn law_all_state_is_read<T: HashedTables>(
    tables: T,
    state: HashedPostState,
    address: Seq<u8>,
    slot: Seq<u8>,
)
    requires
        full_state(tables, state),
    ensures
        tables.accounts().contains_key(address) ==> state.accounts@.contains_key(address)
            && state.accounts@[address] == Some(tables.accounts()[address]),
        state.accounts@.contains_key(address) ==> tables.accounts().contains_key(address),
        tables.slots(address).contains_key(slot) ==> state.storages@.contains_key(address)
            && !state.storages@[address].wiped && state.storages@[address].storage@.contains_key(
            slot,
        ) && state.storages@[address].storage@[slot] == tables.slots(address)[slot],
        state.storages@.contains_key(address) && state.storages@[address].storage@.contains_key(
            slot,
        ) ==> tables.slots(address).contains_key(slot),
{
    assert(state.accounts@.contains_key(address) == tables.accounts().contains_key(address));
    assert(storage_is(
        state.storages@,
        address,
        tables.slots(address) != Map::<Seq<u8>, U256>::empty(),
        tables.slots(address),
    )) by {
        assert(state.storages@.contains_key(address) || !state.storages@.contains_key(address));
    }
}

/// The changes of a range of blocks are those of its first and last block and of all between, in
/// their order, and no others.
pub proof fn law_changes_between(
    accounts: Seq<(u64, Address)>,
    slots: Seq<(u64, Address, B256)>,
    block: u64,
    address: Address,
    slot: B256,
    first: u64,
    last: u64,
)
    ensures
        accounts_between(Seq::empty(), first, last) == Seq::<Address>::empty(),
        slots_between(Seq::empty(), first, last) == Seq::<(Address, B256)>::empty(),
        first <= block && block <= last ==> accounts_between(
            accounts.push((block, address)),
            first,
            last,
        ) == accounts_between(accounts, first, last).push(address),
        block < first || last < block ==> accounts_between(
            accounts.push((block, address)),
            first,
            last,
        ) == accounts_between(accounts, first, last),
        first <= block && block <= last ==> slots_between(
            slots.push((block, address, slot)),
            first,
            last,
        ) == slots_between(slots, first, last).push((address, slot)),
        block < first || last < block ==> slots_between(
            slots.push((block, address, slot)),
            first,
            last,
        ) == slots_between(slots, first, last),
{
    assert(accounts.push((block, address)).drop_last() =~= accounts);
    assert(slots.push((block, address, slot)).drop_last() =~= slots);
}

/// Of the slots in a list, those of an account are its slots, and the last value counts.
pub proof fn law_listed_slots(
    list: Seq<(B256, B256, U256)>,
    entry: (B256, B256, U256),
    address: Seq<u8>,
)
    ensures
        listed_slots(Seq::empty(), address) == Map::<Seq<u8>, U256>::empty(),
        entry.0@ == address ==> listed_slots(list.push(entry), address) == listed_slots(
            list,
            address,
        ).insert(entry.1@, entry.2),
        entry.0@ != address ==> listed_slots(list.push(entry), address) == listed_slots(
            list,
            address,
        ),
{
    assert(list.push(entry).drop_last() =~= list);
}

/// Tables in memory hold the accounts and slots that they were given.
pub proof fn law_tables_in_memory(tables: MemoryTables, address: Seq<u8>, first: u64, last: u64)
    ensures
        tables.accounts() == tables.accounts@,
        tables.storages@.contains_key(address) ==> tables.slots(address)
            == tables.storages@[address]@,
        !tables.storages@.contains_key(address) ==> tables.slots(address) == Map::<
            Seq<u8>,
            U256,
        >::empty(),
        tables.changed_accounts(first, last) == accounts_between(
            tables.account_changes@,
            first,
            last,
        ),
        tables.changed_slots(first, last) == slots_between(tables.storage_changes@, first, last),
{
}

} // verus!
