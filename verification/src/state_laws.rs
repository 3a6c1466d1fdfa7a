//! What stands in the state tries after a set of changes, key by key.

use vstd::prelude::*;

use crate::nested_root::{
    account_changes, new_accounts, new_storage, storage_after, storage_of, StateSource,
};
use crate::nibbles::{
    is_word_path, lemma_packed_unpacked, lemma_unpacked_packed, packed, unpacked,
};
use crate::node::NodeV;
use crate::output::written;
use crate::rlp::{law_account_encoding, rlp_account, rlp_string, without_leading_zeros, B256};
use crate::state::{
    storage_changes, Account, HashedPostState, HashedStorage, TrieUpdatesV2, KECCAK_EMPTY,
};
use crate::state_db::{
    account_tree_of, advanced, genesis_accounts, storage_tree_of, stores_a_tree, tree_stored,
    updates_written, StateDb,
};
use crate::store::{storable_root, store_of, Stored};
use crate::tree::{contents, lemma_root_determined, root_hash, state_root, Tree};
use crate::trie::without;

verus! {

/// The entry of an account with code holds its nonce, its balance, the storage root and the hash
/// of the code. That of an account without code holds the hash of no bytes in place of the last.
pub proof fn law_account_entry(account: Account, root: B256)
    ensures
        account.bytecode_hash matches Some(h) ==> account.encoded(root) == rlp_account(
            account.nonce,
            account.balance@,
            root@,
            h@,
        ),
        account.bytecode_hash is None ==> account.encoded(root) == rlp_account(
            account.nonce,
            account.balance@,
            root@,
            KECCAK_EMPTY@,
        ),
{
}

/// Accounts with different code have different entries, whatever else is the same, and so have an
/// account with code and one without.
pub proof fn law_entry_tells_code(a: Account, b: Account, root: B256, other: B256)
    ensures
        a.bytecode_hash is Some && b.bytecode_hash is Some && a.bytecode_hash->0@
            != b.bytecode_hash->0@ ==> a.encoded(root) != b.encoded(other),
        a.bytecode_hash is Some && b.bytecode_hash is None && a.bytecode_hash->0@ != KECCAK_EMPTY@
            ==> a.encoded(root) != b.encoded(other),
{
    law_account_entry(a, root);
    law_account_entry(b, other);
    if a.encoded(root) == b.encoded(other) {
        law_account_encoding(
            a.nonce,
            a.balance@,
            root@,
            a.code_hash()@,
            b.nonce,
            b.balance@,
            other@,
            b.code_hash()@,
        );
    }
}

/// Accounts with the same entry have the same nonce and balance, and the same storage root.
pub proof fn law_entry_tells_account(a: Account, b: Account, root: B256, other: B256)
    requires
        a.encoded(root) == b.encoded(other),
    ensures
        a.nonce == b.nonce,
        a.balance@ == b.balance@,
        root@ == other@,
{
    law_account_encoding(
        a.nonce,
        a.balance@,
        root@,
        a.code_hash()@,
        b.nonce,
        b.balance@,
        other@,
        b.code_hash()@,
    );
}

/// A slot that is changed stands in the storage trie under the half-bytes of its hash: with its
/// value as a string without leading zeros, or not at all where the value is zero.
pub proof fn law_changed_slot(before: Option<Tree>, changes: HashedStorage, slot: Seq<u8>)
    requires
        !changes.wiped,
        changes.storage@.contains_key(slot),
        slot.len() == 32,
    ensures
        ({
            let after = storage_after(before, Some(changes));
            let value = changes.storage@[slot]@;
            let path = unpacked(slot);
            &&& (forall|i: int| 0 <= i < 32 ==> #[trigger] value[i] == 0)
                ==> !after.contains_key(path)
            &&& (exists|i: int| 0 <= i < 32 && #[trigger] value[i] != 0)
                ==> after.contains_key(path) && after[path] == rlp_string(
                without_leading_zeros(value),
            )
        }),
{
    lemma_packed_unpacked(slot);
    let path = unpacked(slot);
    assert(is_word_path(path));
    assert(storage_changes(changes.storage@).contains_key(path));
}

/// What is not changed in a storage trie is as it was. Where a storage is wiped nothing is left.
pub proof fn law_other_slots(before: Option<Tree>, changes: HashedStorage, path: Seq<u8>)
    ensures
        changes.wiped ==> !storage_after(before, Some(changes)).contains_key(path),
        !changes.wiped && !(exists|slot: Seq<u8>|
            #![trigger changes.storage@.contains_key(slot)]
            changes.storage@.contains_key(slot) && slot.len() == 32 && unpacked(slot) == path)
            ==> {
            let after = storage_after(before, Some(changes));
            &&& after.contains_key(path) == contents(before).contains_key(path)
            &&& after.contains_key(path) ==> after[path] == contents(before)[path]
        },
        storage_after(before, None) == contents(before),
{
    let c = storage_changes(changes.storage@);
    if c.contains_key(path) {
        lemma_unpacked_packed(path);
        assert(changes.storage@.contains_key(packed(path)));
        assert(packed(path).len() == 32);
    }
}

/// An account that is changed stands in the account trie under the half-bytes of its hashed
/// address, with the root of its storage after the changes. One that is deleted does not.
pub proof fn law_changed_account<P: StateSource>(
    source: P,
    state: &HashedPostState,
    address: Seq<u8>,
)
    requires
        state.accounts@.contains_key(address),
        address.len() == 32,
    ensures
        ({
            let after = new_accounts(source, state);
            let path = unpacked(address);
            let changes = if state.storages@.contains_key(address) {
                Some(state.storages@[address])
            } else {
                None
            };
            let root = state_root(storage_after(source.storage_tree(address), changes));
            match state.accounts@[address] {
                Some(account) => after.contains_key(path) && after[path] == rlp_account(
                    account.nonce,
                    account.balance@,
                    root@,
                    match account.bytecode_hash {
                        Some(h) => h@,
                        None => KECCAK_EMPTY@,
                    },
                ),
                None => !after.contains_key(path),
            }
        }),
{
    lemma_packed_unpacked(address);
    let path = unpacked(address);
    assert(is_word_path(path));
    assert(account_changes(source, state).contains_key(path));
    if let Some(account) = state.accounts@[address] {
        law_account_entry(account, state_root(new_storage(source, state, address)));
    }
}

/// Accounts that are not changed stand in the account trie as they did.
pub proof fn law_other_accounts<P: StateSource>(source: P, state: &HashedPostState, path: Seq<u8>)
    requires
        forall|address: Seq<u8>| #[trigger]
            state.accounts@.contains_key(address) && address.len() == 32 ==> unpacked(address)
                != path,
    ensures
        new_accounts(source, state).contains_key(path) == contents(
            source.account_tree(),
        ).contains_key(path),
        new_accounts(source, state).contains_key(path) ==> new_accounts(source, state)[path]
            == contents(source.account_tree())[path],
{
    let c = account_changes(source, state);
    if c.contains_key(path) {
        lemma_unpacked_packed(path);
        assert(state.accounts@.contains_key(packed(path)));
        assert(packed(path).len() == 32);
    }
}

/// The account trie that a state makes of nothing has an entry for each account that is there,
/// under the half-bytes of its hashed address, with the root of its slots.
pub proof fn law_genesis_account(state: &HashedPostState, address: Seq<u8>)
    requires
        state.accounts@.contains_key(address),
        address.len() == 32,
    ensures
        ({
            let after = genesis_accounts(state);
            let path = unpacked(address);
            let changes = if state.storages@.contains_key(address) {
                Some(state.storages@[address])
            } else {
                None
            };
            let root = state_root(storage_after(None, changes));
            match state.accounts@[address] {
                Some(account) => after.contains_key(path) && after[path] == rlp_account(
                    account.nonce,
                    account.balance@,
                    root@,
                    match account.bytecode_hash {
                        Some(h) => h@,
                        None => KECCAK_EMPTY@,
                    },
                ),
                None => !after.contains_key(path),
            }
        }),
{
    lemma_packed_unpacked(address);
    let path = unpacked(address);
    assert(is_word_path(path));
    if let Some(account) = state.accounts@[address] {
        law_account_entry(account, state_root(storage_after(None, storage_of(state, address))));
    }
}

/// The account trie that a state makes of nothing has no other entries.
pub proof fn law_genesis_accounts_only(state: &HashedPostState, path: Seq<u8>)
    requires
        genesis_accounts(state).contains_key(path),
    ensures
        exists|address: Seq<u8>| #[trigger]
            state.accounts@.contains_key(address) && address.len() == 32
                && state.accounts@[address] is Some && unpacked(address) == path,
{
    lemma_unpacked_packed(path);
    assert(state.accounts@.contains_key(packed(path)));
    assert(packed(path).len() == 32);
}

/// What a trie that is stored holds has the root hash of the trie.
proof fn lemma_stored_root(s: Stored)
    requires
        stores_a_tree(s),
    ensures
        state_root(contents(tree_stored(s))) == root_hash(tree_stored(s)),
{
    let t = tree_stored(s);
    assert(storable_root(t) && store_of(t) == s);
    lemma_root_determined(t);
}

/// The root hash after a round of changes is that of the account trie as it is then stored.
pub proof fn law_root_of_what_is_stored(
    before: StateDb,
    state: &HashedPostState,
    after: StateDb,
    root: B256,
)
    requires
        advanced(before, state, after, root),
    ensures
        root == root_hash(account_tree_of(after)),
{
    lemma_stored_root(after.account_store());
}

/// After a round of changes the entry of a changed account holds its nonce, its balance and its
/// code hash, and the root hash of its storage trie as it is then stored. A deleted account has
/// neither an entry nor storage.
pub proof fn law_stored_account(
    before: StateDb,
    state: &HashedPostState,
    after: StateDb,
    root: B256,
    address: Seq<u8>,
)
    requires
        advanced(before, state, after, root),
        state.accounts@.contains_key(address),
        address.len() == 32,
    ensures
        ({
            let entries = contents(account_tree_of(after));
            let path = unpacked(address);
            match state.accounts@[address] {
                Some(account) => entries.contains_key(path) && entries[path] == rlp_account(
                    account.nonce,
                    account.balance@,
                    root_hash(storage_tree_of(after, address))@,
                    match account.bytecode_hash {
                        Some(h) => h@,
                        None => KECCAK_EMPTY@,
                    },
                ),
                None => !entries.contains_key(path) && contents(storage_tree_of(after, address))
                    == Map::<Seq<u8>, Seq<u8>>::empty(),
            }
        }),
{
    law_changed_account(&before, state, address);
    assert(stores_a_tree(after.storage_store(address)));
    lemma_stored_root(after.storage_store(address));
    assert(contents(storage_tree_of(after, address)) == if state.accounts@[address] is None {
        Map::<Seq<u8>, Seq<u8>>::empty()
    } else {
        new_storage(&before, state, address)
    });
}

/// After a round of changes a changed slot of an account that is there stands in its storage trie
/// with its value, or not at all where the value is zero.
pub proof fn law_stored_slot(
    before: StateDb,
    state: &HashedPostState,
    after: StateDb,
    root: B256,
    address: Seq<u8>,
    slot: Seq<u8>,
)
    requires
        advanced(before, state, after, root),
        state.accounts@.contains_key(address),
        state.accounts@[address] is Some,
        state.storages@.contains_key(address),
        !state.storages@[address].wiped,
        state.storages@[address].storage@.contains_key(slot),
        slot.len() == 32,
    ensures
        ({
            let slots = contents(storage_tree_of(after, address));
            let value = state.storages@[address].storage@[slot]@;
            let path = unpacked(slot);
            &&& (forall|i: int| 0 <= i < 32 ==> #[trigger] value[i] == 0)
                ==> !slots.contains_key(path)
            &&& (exists|i: int| 0 <= i < 32 && #[trigger] value[i] != 0)
                ==> slots.contains_key(path) && slots[path] == rlp_string(
                without_leading_zeros(value),
            )
        }),
{
    law_changed_slot(storage_tree_of(before, address), state.storages@[address], slot);
    assert(contents(storage_tree_of(after, address)) == new_storage(&before, state, address));
}

/// A round of changes leaves the slots alone that it does not name, and so the storage of every
/// account that it does not change, and the entry of such an account.
pub proof fn law_unchanged_stays_stored(
    before: StateDb,
    state: &HashedPostState,
    after: StateDb,
    root: B256,
    address: Seq<u8>,
    path: Seq<u8>,
)
    requires
        advanced(before, state, after, root),
        address.len() == 32,
    ensures
        !state.accounts@.contains_key(address) ==> contents(storage_tree_of(after, address))
            == contents(storage_tree_of(before, address)),
        !state.accounts@.contains_key(address) ==> contents(account_tree_of(after)).contains_key(
            unpacked(address),
        ) == contents(account_tree_of(before)).contains_key(unpacked(address)),
        !state.accounts@.contains_key(address) && contents(account_tree_of(before)).contains_key(
            unpacked(address),
        ) ==> contents(account_tree_of(after))[unpacked(address)] == contents(
            account_tree_of(before),
        )[unpacked(address)],
        state.accounts@.contains_key(address) && state.accounts@[address] is Some
            && !state.storages@.contains_key(address) ==> contents(storage_tree_of(after, address))
            == contents(storage_tree_of(before, address)),
        state.accounts@.contains_key(address) && state.accounts@[address] is Some
            && state.storages@.contains_key(address) && !state.storages@[address].wiped && !(exists|
            slot: Seq<u8>,
        |
            #![trigger state.storages@[address].storage@.contains_key(slot)]
            state.storages@[address].storage@.contains_key(slot) && slot.len() == 32 && unpacked(
                slot,
            ) == path) ==> {
            let old_slots = contents(storage_tree_of(before, address));
            let new_slots = contents(storage_tree_of(after, address));
            &&& new_slots.contains_key(path) == old_slots.contains_key(path)
            &&& new_slots.contains_key(path) ==> new_slots[path] == old_slots[path]
        },
        state.accounts@.contains_key(address) && state.storages@.contains_key(address)
            && state.storages@[address].wiped ==> contents(storage_tree_of(after, address))
            == Map::<Seq<u8>, Seq<u8>>::empty(),
{
    if state.accounts@.contains_key(address) {
        assert(contents(storage_tree_of(after, address)) == if state.accounts@[address] is None {
            Map::<Seq<u8>, Seq<u8>>::empty()
        } else {
            new_storage(&before, state, address)
        });
        if state.storages@.contains_key(address) {
            law_other_slots(storage_tree_of(before, address), state.storages@[address], path);
        }
    } else {
        assert(after.storage_store(address) == before.storage_store(address));
        assert forall|a: Seq<u8>| #[trigger]
            state.accounts@.contains_key(a) && a.len() == 32 implies unpacked(a) != unpacked(
            address,
        ) by {
            lemma_packed_unpacked(a);
            lemma_packed_unpacked(address);
        }
        law_other_accounts(&before, state, unpacked(address));
    }
}

/// Updates that are written delete the storage tries that they say are gone, and leave those alone
/// that they do not have.
pub proof fn law_written_storage(
    before: StateDb,
    updates: TrieUpdatesV2,
    after: StateDb,
    address: Seq<u8>,
)
    requires
        updates_written(before, updates, after),
    ensures
        ({
            let tries = updates.storage_tries@;
            &&& !tries.contains_key(address) ==> after.storage_store(address)
                == before.storage_store(address)
            &&& tries.contains_key(address) && tries[address].is_deleted ==> after.storage_store(
                address,
            ) == Map::<Seq<u8>, NodeV>::empty()
            &&& tries.contains_key(address) && !tries[address].is_deleted ==> after.storage_store(
                address,
            ) == written(
                without(before.storage_store(address), tries[address].removed_nodes@),
                tries[address].storage_nodes@,
            )
            &&& after.account_store() == written(
                without(before.account_store(), updates.removed_nodes@),
                updates.account_nodes@,
            )
        }),
{
    assert(after.storage_store(address) == after.storage_store(address));
}

} // verus!
