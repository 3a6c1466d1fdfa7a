//! The root hash of the state after a set of changes, and the trie nodes that change with it.

use vstd::prelude::*;

use crate::bytes::ByteSeq;
use crate::errors::ProviderError;
use crate::hashed_tables::{
    full_state, range_state, read_hashed_state, state_read_failed, HashedTables,
};
use crate::memory::NoWriter;
use crate::nibbles::{is_word_path, lemma_packed_unpacked, packed, unpacked, Nibbles};
use crate::node::{Node, NodeV};
use crate::output::{flat_updates, lemma_encodable_storable, written};
use crate::rlp::B256;
use crate::state::{
    change_view, lemma_changed_overlay, lemma_word_changes, overlay, storage_batch, storage_changes,
    Account, HashedPostState, HashedStorage, StorageTrieUpdatesV2, TrieUpdatesV2,
};
use crate::store::{lemma_store_unique, read_failed, storable_root, store_of, TrieReader};
use crate::tree::{
    canonical_root, contents, lemma_contents_key, lemma_has_key, lemma_root_determined,
    lemma_spread_encodable, root_get, spread, state_root, tree_for, Tree, EMPTY_ROOT_HASH,
};
use crate::trie::{changed, model_keys_of_length, without, Trie};
use crate::vec_map::{distinct, entries_map, has_entry, lemma_entry, MapKey, VecMap};

verus! {

/// Where the stored state tries can be read.
pub trait StateSource {
    /// Reads the account trie.
    type AccountReader: TrieReader;

    /// Reads one storage trie.
    type StorageReader: TrieReader;

    /// The stored account trie.
    spec fn account_tree(&self) -> Option<Tree>;

    /// The stored storage trie of an account.
    spec fn storage_tree(&self, hashed_address: ByteSeq) -> Option<Tree>;

    /// What is stored is those tries.
    spec fn consistent(&self) -> bool;

    /// Readers can be had, and do not fail.
    spec fn reliable(&self) -> bool;

    /// A reader of the account trie.
    fn account_reader(&self) -> (r: Result<Self::AccountReader, ProviderError>)
        ensures
            self.consistent() ==> (r matches Ok(reader) ==> reader.faithful() && storable_root(
                self.account_tree(),
            ) && reader.nodes() == store_of(self.account_tree())),
            self.reliable() ==> r is Ok && r->Ok_0.reliable(),
    ;

    /// A reader of the storage trie of an account.
    fn storage_reader(&self, hashed_address: &B256) -> (r: Result<
        Self::StorageReader,
        ProviderError,
    >)
        ensures
            self.consistent() ==> (r matches Ok(reader) ==> reader.faithful() && storable_root(
                self.storage_tree(hashed_address@),
            ) && reader.nodes() == store_of(self.storage_tree(hashed_address@))),
            self.reliable() ==> r is Ok && r->Ok_0.reliable(),
    ;
}

/// The storage of an account after `changes`.
pub open spec fn storage_after(
    before: Option<Tree>,
    changes: Option<HashedStorage>,
) -> Map<Seq<u8>, Seq<u8>> {
    match changes {
        Some(s) => if s.wiped {
            Map::empty()
        } else {
            overlay(contents(before), storage_changes(s.storage@))
        },
        None => contents(before),
    }
}

/// The changes to the storage of an account.
pub open spec fn storage_of(state: &HashedPostState, address: Seq<u8>) -> Option<HashedStorage> {
    if state.storages@.contains_key(address) {
        Some(state.storages@[address])
    } else {
        None
    }
}

/// The storage of an account after the changes in `state`.
pub open spec fn new_storage<P: StateSource>(
    source: P,
    state: &HashedPostState,
    address: Seq<u8>,
) -> Map<Seq<u8>, Seq<u8>> {
    storage_after(source.storage_tree(address), storage_of(state, address))
}

/// What stands in the account trie for an account after the changes in `state`.
pub open spec fn new_account<P: StateSource>(
    source: P,
    state: &HashedPostState,
    address: Seq<u8>,
) -> Option<Seq<u8>> {
    match state.accounts@[address] {
        Some(a) => Some(a.encoded(state_root(new_storage(source, state, address)))),
        None => None,
    }
}

/// What `state` changes in the account trie.
pub open spec fn account_changes<P: StateSource>(
    source: P,
    state: &HashedPostState,
) -> Map<Seq<u8>, Option<Seq<u8>>> {
    Map::new(
        |k: Seq<u8>| is_word_path(k) && state.accounts@.contains_key(packed(k)),
        |k: Seq<u8>| new_account(source, state, packed(k)),
    )
}

/// The contents of the account trie after the changes in `state`.
pub open spec fn new_accounts<P: StateSource>(source: P, state: &HashedPostState) -> Map<
    Seq<u8>,
    Seq<u8>,
> {
    overlay(contents(source.account_tree()), account_changes(source, state))
}

/// There is a trie that holds `m`, and it can be stored.
pub open spec fn holdable(m: Map<Seq<u8>, Seq<u8>>) -> bool {
    storable_root(tree_for(m)) && contents(tree_for(m)) == m
}

/// The whole storage of the account goes: the account is deleted, or its storage is wiped.
pub open spec fn storage_deleted(account: Option<Account>, changes: Option<HashedStorage>) -> bool {
    account is None || changes is Some && changes->0.wiped
}

/// `updates` turns the stored trie `before` into that of `after`. Without updates the two are
/// the same.
pub open spec fn storage_settled(
    before: Option<Tree>,
    account: Option<Account>,
    changes: Option<HashedStorage>,
    updates: Option<StorageTrieUpdatesV2>,
) -> bool {
    if storage_deleted(account, changes) {
        updates is Some && updates->0.is_deleted && updates->0.storage_nodes@.len() == 0
            && updates->0.removed_nodes@.len() == 0
    } else {
        let after = tree_for(storage_after(before, changes));
        holdable(storage_after(before, changes)) && match updates {
            Some(u) => !u.is_deleted && (u.storage_nodes@.len() > 0 || u.removed_nodes@.len() > 0)
                && written(
                without(store_of(before), u.removed_nodes@),
                u.storage_nodes@,
            ) == store_of(after) && flat_updates(u.storage_nodes@),
            None => store_of(before) == store_of(after),
        }
    }
}

/// `e` says that the stored storage trie of an account could not be read.
pub open spec fn storage_read_failed<P: StateSource>(
    source: P,
    hashed_address: B256,
    e: ProviderError,
) -> bool {
    ||| call_ensures(
        P::storage_reader,
        (&source, &hashed_address),
        Err::<P::StorageReader, ProviderError>(e),
    )
    ||| exists|reader: P::StorageReader| #[trigger]
        call_ensures(
            P::storage_reader,
            (&source, &hashed_address),
            Ok::<P::StorageReader, ProviderError>(reader),
        ) && (e matches ProviderError::Database(d) && read_failed(reader, d))
}

/// `e` says that the stored account trie could not be read.
pub open spec fn account_read_failed<P: StateSource>(source: P, e: ProviderError) -> bool {
    ||| call_ensures(
        P::account_reader,
        (&source,),
        Err::<P::AccountReader, ProviderError>(e),
    )
    ||| exists|reader: P::AccountReader| #[trigger]
        call_ensures(
            P::account_reader,
            (&source,),
            Ok::<P::AccountReader, ProviderError>(reader),
        ) && (e matches ProviderError::Database(d) && read_failed(reader, d))
}

/// Calculates state roots.
pub struct NestedStateRoot<P: StateSource> {
    provider: P,
}

impl<P: StateSource> NestedStateRoot<P> {
    /// Where the stored tries are read.
    pub closed spec fn source(&self) -> P {
        self.provider
    }

    /// Calculates on what `provider` holds.
    pub fn new(provider: P) -> (r: NestedStateRoot<P>)
        ensures
            r.source() == provider,
    {
        NestedStateRoot { provider }
    }

    /// What the changes to one account and its storage come to: the entry of the account trie,
    /// and the changed nodes of the storage trie.
    pub fn account_update(
        &self,
        hashed_address: &B256,
        account: &Option<Account>,
        storage: Option<&HashedStorage>,
    ) -> (r: Result<(Option<Node>, Option<StorageTrieUpdatesV2>), ProviderError>)
        requires
            self.source().consistent(),
            model_keys_of_length(contents(self.source().storage_tree(hashed_address@)), 64),
            account is Some ==> spread(
                storage_after(self.source().storage_tree(hashed_address@), copied(storage)),
            ),
        ensures
            StateSource::reliable(&self.source()) ==> r is Ok,
            storage_deleted(*account, copied(storage)) ==> r is Ok,
            r matches Err(e) ==> storage_read_failed(self.source(), *hashed_address, e),
            r matches Ok((node, updates)) ==> {
                let before = self.source().storage_tree(hashed_address@);
                &&& node is Some <==> account is Some
                &&& node matches Some(n) ==> n@ is Value
                &&& node matches Some(n) ==> change_view(node) == Some(
                    account->0.encoded(state_root(storage_after(before, copied(storage)))),
                )
                &&& storage_settled(before, *account, copied(storage), updates)
            },
    {
        let account = match account {
            Some(account) => account,
            None => return Ok((None, Some(StorageTrieUpdatesV2::deleted()))),
        };
        if let Some(storage) = storage {
            if storage.wiped {
                proof {
                    lemma_empty_contents();
                }
                let node = Node::ValueNode(account.into_trie_account(&EMPTY_ROOT_HASH));
                return Ok((Some(node), Some(StorageTrieUpdatesV2::deleted())));
            }
        }
        let reader = match self.provider.storage_reader(hashed_address) {
            Ok(reader) => reader,
            Err(e) => return Err(e),
        };
        let ghost before = self.source().storage_tree(hashed_address@);
        let mut trie = match Trie::open(reader, NoWriter) {
            Ok(trie) => trie,
            Err(e) => return Err(ProviderError::Database(e)),
        };
        proof {
            lemma_store_unique(trie.tree(), before);
        }
        let batch = match storage {
            Some(storage) => storage_batch(&storage.storage),
            None => Vec::new(),
        };
        match trie.update(batch, 64) {
            Ok(()) => {},
            Err(e) => return Err(ProviderError::Database(e)),
        }
        let ghost after = storage_after(before, copied(storage));
        proof {
            assert(trie.model() == after);
            trie.lemma_valid();
            lemma_root_determined(trie.tree());
            if let Some(t) = trie.tree() {
                lemma_spread_encodable(t);
                lemma_encodable_storable(t);
            }
        }
        let root = trie.hash();
        let node = Node::ValueNode(account.into_trie_account(&root));
        let output = trie.take_output();
        if output.is_empty() {
            proof {
                assert(output.removed_nodes@ =~= Seq::empty());
                assert(without(store_of(before), output.removed_nodes@) =~= store_of(before));
            }
            Ok((Some(node), None))
        } else {
            Ok(
                (
                    Some(node),
                    Some(
                        StorageTrieUpdatesV2 {
                            is_deleted: false,
                            storage_nodes: output.update_nodes,
                            removed_nodes: output.removed_nodes,
                        },
                    ),
                ),
            )
        }
    }
}

/// The changes of `state` to one account come to what the root calculation gives.
pub open spec fn account_settled<P: StateSource>(
    source: P,
    state: &HashedPostState,
    updates: Map<Seq<u8>, StorageTrieUpdatesV2>,
    address: Seq<u8>,
) -> bool {
    storage_settled(
        source.storage_tree(address),
        state.accounts@[address],
        storage_of(state, address),
        if updates.contains_key(address) {
            Some(updates[address])
        } else {
            None
        },
    )
}

/// What `source` has stored is tries. They have 64 half-bytes in every key, and so have those
/// after the changes in `state`, where no two keys differ in the last half-byte alone.
pub open spec fn calculable<P: StateSource>(source: P, state: &HashedPostState) -> bool {
    &&& source.consistent()
    &&& model_keys_of_length(contents(source.account_tree()), 64)
    &&& spread(new_accounts(source, state))
    &&& forall|a: Seq<u8>| #[trigger]
        state.accounts@.contains_key(a) ==> {
            &&& model_keys_of_length(contents(source.storage_tree(a)), 64)
            &&& state.accounts@[a] is Some ==> spread(new_storage(source, state, a))
        }
}

/// `root` is the root hash after the changes in `state`, and `updates` turns the stored tries
/// into those after them.
pub open spec fn calculated<P: StateSource>(
    source: P,
    state: &HashedPostState,
    root: B256,
    updates: TrieUpdatesV2,
) -> bool {
    let after = new_accounts(source, state);
    &&& root == state_root(after)
    &&& written(
        without(store_of(source.account_tree()), updates.removed_nodes@),
        updates.account_nodes@,
    ) == store_of(tree_for(after))
    &&& holdable(after)
    &&& flat_updates(updates.account_nodes@)
    &&& forall|a: Seq<u8>| #[trigger]
        state.accounts@.contains_key(a) ==> account_settled(
            source,
            state,
            updates.storage_tries@,
            a,
        )
    &&& forall|a: Seq<u8>| #[trigger]
        updates.storage_tries@.contains_key(a) ==> state.accounts@.contains_key(a)
}

/// Where every account is deleted, the root hash is that of an empty trie, the updates leave
/// nothing of the account trie, and they delete the storage trie of each account.
pub proof fn law_every_account_deleted<P: StateSource>(
    source: P,
    state: &HashedPostState,
    root: B256,
    updates: TrieUpdatesV2,
)
    requires
        calculated(source, state, root, updates),
        forall|a: Seq<u8>| #[trigger]
            state.accounts@.contains_key(a) ==> state.accounts@[a] is None,
        forall|k: Seq<u8>| #[trigger]
            contents(source.account_tree()).contains_key(k) ==> is_word_path(k)
                && state.accounts@.contains_key(packed(k)),
    ensures
        root == EMPTY_ROOT_HASH,
        written(
            without(store_of(source.account_tree()), updates.removed_nodes@),
            updates.account_nodes@,
        ) == Map::<Seq<u8>, NodeV>::empty(),
        forall|a: Seq<u8>| #[trigger]
            state.accounts@.contains_key(a) ==> updates.storage_tries@.contains_key(a)
                && updates.storage_tries@[a].is_deleted,
{
    let after = new_accounts(source, state);
    let changes = account_changes(source, state);
    assert forall|k: Seq<u8>| !#[trigger] after.contains_key(k) by {
        if contents(source.account_tree()).contains_key(k) {
            assert(changes.contains_key(k));
        }
    }
    assert(after =~= Map::<Seq<u8>, Seq<u8>>::empty());
    lemma_empty_contents();
    lemma_holds_nothing(tree_for(after));
    assert(store_of(None) =~= Map::<Seq<u8>, NodeV>::empty());
    assert forall|a: Seq<u8>| #[trigger] state.accounts@.contains_key(a) implies
        updates.storage_tries@.contains_key(a) && updates.storage_tries@[a].is_deleted by {
        assert(account_settled(source, state, updates.storage_tries@, a));
    }
}

impl<P: StateSource> NestedStateRoot<P> {
    /// The root hash after the changes in `hashed_state`, and the nodes that change.
    pub fn calculate(&self, hashed_state: &HashedPostState) -> (r: Result<
        (B256, TrieUpdatesV2),
        ProviderError,
    >)
        requires
            calculable(self.source(), hashed_state),
        ensures
            StateSource::reliable(&self.source()) ==> r is Ok,
            r matches Err(e) ==> account_read_failed(self.source(), e) || exists|a: B256|
                #[trigger]
                hashed_state.accounts@.contains_key(a@) && storage_read_failed(self.source(), a, e),
            r matches Ok((root, updates)) ==> calculated(
                self.source(),
                hashed_state,
                root,
                updates,
            ),
    {
        let ghost source = self.source();
        let n = hashed_state.accounts.len();
        let ghost listing = hashed_state.accounts.listing();
        let mut account_batch: Vec<(Nibbles, Option<Node>)> = Vec::with_capacity(n);
        let mut storage_tries: VecMap<B256, StorageTrieUpdatesV2> = VecMap::new();
        let mut i: usize = 0;
        while i < n
            invariant
                i <= n,
                n == listing.len(),
                listing == hashed_state.accounts.listing(),
                distinct(listing),
                hashed_state.accounts@ == entries_map(listing),
                source == self.source(),
                calculable(source, hashed_state),
                account_batch@.len() == i,
                forall|j: int|
                    0 <= j < i ==> {
                        &&& (#[trigger] account_batch@[j]).0@ == unpacked(listing[j].0@)
                        &&& change_view(account_batch@[j].1) == new_account(
                            source,
                            hashed_state,
                            listing[j].0@,
                        )
                        &&& account_batch@[j].1 matches Some(v) ==> v@ is Value
                    },
                forall|j: int|
                    0 <= j < i ==> account_settled(
                        source,
                        hashed_state,
                        storage_tries@,
                        (#[trigger] listing[j]).0@,
                    ),
                forall|a: Seq<u8>| #[trigger]
                    storage_tries@.contains_key(a) ==> exists|j: int|
                        0 <= j < i && (#[trigger] listing[j]).0@ == a,
            decreases n - i,
        {
            let (hashed_address, account) = hashed_state.accounts.entry(i);
            let ghost address = hashed_address@;
            let storage = hashed_state.storages.get(hashed_address);
            assert(copied(storage) == storage_of(hashed_state, address));
            assert(hashed_state.accounts@.contains_key(address));
            let (node, updates) = match self.account_update(hashed_address, account, storage) {
                Ok(r) => r,
                Err(e) => {
                    assert(hashed_state.accounts@.contains_key(hashed_address@)
                        && storage_read_failed(source, *hashed_address, e));
                    return Err(e);
                },
            };
            account_batch.push((Nibbles::unpack(hashed_address.as_slice()), node));
            let ghost tries_before = storage_tries@;
            assert(!tries_before.contains_key(address)) by {
                if tries_before.contains_key(address) {
                    let j = choose|j: int| 0 <= j < i && (#[trigger] listing[j]).0@ == address;
                    assert(listing[j].0.key() != listing[i as int].0.key());
                }
            }
            if let Some(updates) = updates {
                storage_tries.insert(*hashed_address, updates);
            }
            proof {
                assert forall|j: int| 0 <= j < i + 1 implies account_settled(
                    source,
                    hashed_state,
                    storage_tries@,
                    (#[trigger] listing[j]).0@,
                ) by {
                    if j < i {
                        assert(listing[j].0.key() != listing[i as int].0.key());
                        assert(account_settled(source, hashed_state, tries_before, listing[j].0@));
                    }
                }
                assert forall|a: Seq<u8>| #[trigger]
                    storage_tries@.contains_key(a) implies exists|j: int|
                    0 <= j < i + 1 && (#[trigger] listing[j]).0@ == a by {
                    if a == address {
                        assert(listing[i as int].0@ == a);
                    } else {
                        assert(tries_before.contains_key(a));
                        let j = choose|j: int| 0 <= j < i && (#[trigger] listing[j]).0@ == a;
                        assert(listing[j].0@ == a);
                    }
                }
            }
            i += 1;
        }
        let ghost changes = account_changes(source, hashed_state);
        let ghost before = source.account_tree();
        proof {
            lemma_word_changes(listing, account_batch@);
            assert forall|k: Seq<u8>| #[trigger]
                changes.contains_key(k) == has_entry(account_batch@, k) by {}
            assert forall|j: int| 0 <= j < account_batch@.len() implies changes[(
            #[trigger] account_batch@[j]).0@] == change_view(account_batch@[j].1) by {
                lemma_packed_unpacked(listing[j].0@);
            }
            lemma_changed_overlay(contents(before), account_batch@, changes);
        }
        let reader = match self.provider.account_reader() {
            Ok(reader) => reader,
            Err(e) => return Err(e),
        };
        let mut trie = match Trie::open(reader, NoWriter) {
            Ok(trie) => trie,
            Err(e) => return Err(ProviderError::Database(e)),
        };
        proof {
            lemma_store_unique(trie.tree(), before);
        }
        match trie.update(account_batch, 64) {
            Ok(()) => {},
            Err(e) => return Err(ProviderError::Database(e)),
        }
        proof {
            trie.lemma_valid();
            lemma_root_determined(trie.tree());
            if let Some(t) = trie.tree() {
                lemma_spread_encodable(t);
                lemma_encodable_storable(t);
            }
        }
        let root = trie.hash();
        let output = trie.take_output();
        proof {
            assert forall|a: Seq<u8>| #[trigger]
                hashed_state.accounts@.contains_key(a) implies account_settled(
                source,
                hashed_state,
                storage_tries@,
                a,
            ) by {
                assert(has_entry(listing, a));
                let j = choose|j: int| 0 <= j < listing.len() && (#[trigger] listing[j]).0.key() == a;
                assert(account_settled(source, hashed_state, storage_tries@, listing[j].0@));
            }
            assert forall|a: Seq<u8>| #[trigger]
                storage_tries@.contains_key(a) implies hashed_state.accounts@.contains_key(a) by {
                let j = choose|j: int| 0 <= j < n && (#[trigger] listing[j]).0@ == a;
                lemma_entry(listing, j);
            }
        }
        Ok(
            (
                root,
                TrieUpdatesV2 {
                    account_nodes: output.update_nodes,
                    removed_nodes: output.removed_nodes,
                    storage_tries,
                },
            ),
        )
    }
}

impl<P: StateSource + HashedTables> NestedStateRoot<P> {
    /// The state that a range of blocks changed, or all state, as the tables hold it.
    pub fn read_hashed_state(&self, range: Option<(u64, u64)>) -> (r: Result<
        HashedPostState,
        ProviderError,
    >)
        ensures
            r matches Ok(state) ==> match range {
                Some((first, last)) => range_state(self.source(), first, last, state),
                None => full_state(self.source(), state),
            },
            HashedTables::reliable(&self.source()) ==> r is Ok,
            r matches Err(e) ==> (e matches ProviderError::Database(d) && state_read_failed(
                self.source(),
                range,
                d,
            )),
    {
        match read_hashed_state(&self.provider, range) {
            Ok(state) => Ok(state),
            Err(e) => Err(ProviderError::Database(e)),
        }
    }
}

/// What a reference that may be missing refers to.
pub open spec fn copied(storage: Option<&HashedStorage>) -> Option<HashedStorage> {
    match storage {
        Some(s) => Some(*s),
        None => None,
    }
}

/// A trie without keys is empty.
pub proof fn lemma_holds_nothing(t: Option<Tree>)
    requires
        canonical_root(t),
        contents(t) == Map::<Seq<u8>, Seq<u8>>::empty(),
    ensures
        t is None,
{
    if let Some(tree) = t {
        let k = lemma_has_key(tree);
        lemma_contents_key(t, k);
        assert(root_get(t, k) is Some);
    }
}

/// A trie without keys has the root hash of an empty trie.
pub proof fn lemma_empty_contents()
    ensures
        state_root(Map::empty()) == EMPTY_ROOT_HASH,
{
    assert(contents(None) =~= Map::<Seq<u8>, Seq<u8>>::empty());
    lemma_root_determined(None);
}

/// What is calculated is the root hash after the changes. For each changed account it has what the
/// storage trie takes: nothing but its deletion where the account is deleted or the storage wiped,
/// and otherwise the nodes that make the stored trie that of the new slots.
pub proof fn law_calculated<P: StateSource>(
    source: P,
    state: &HashedPostState,
    root: B256,
    updates: TrieUpdatesV2,
    address: Seq<u8>,
)
    requires
        calculated(source, state, root, updates),
    ensures
        root == state_root(new_accounts(source, state)),
        !state.accounts@.contains_key(address) ==> !updates.storage_tries@.contains_key(address),
        state.accounts@.contains_key(address) && (state.accounts@[address] is None
            || state.storages@.contains_key(address) && state.storages@[address].wiped) ==> {
            &&& updates.storage_tries@.contains_key(address)
            &&& updates.storage_tries@[address].is_deleted
            &&& updates.storage_tries@[address].storage_nodes@.len() == 0
            &&& updates.storage_tries@[address].removed_nodes@.len() == 0
        },
        state.accounts@.contains_key(address) && state.accounts@[address] is Some && !(
        state.storages@.contains_key(address) && state.storages@[address].wiped) ==> {
            let before = store_of(source.storage_tree(address));
            let after = store_of(tree_for(new_storage(source, state, address)));
            &&& contents(tree_for(new_storage(source, state, address))) == new_storage(
                source,
                state,
                address,
            )
            &&& !updates.storage_tries@.contains_key(address) ==> after == before
            &&& updates.storage_tries@.contains_key(address) ==> {
                let u = updates.storage_tries@[address];
                !u.is_deleted && written(without(before, u.removed_nodes@), u.storage_nodes@)
                    == after
            }
        },
{
    if state.accounts@.contains_key(address) {
        assert(account_settled(source, state, updates.storage_tries@, address));
    }
}

} // verus!
