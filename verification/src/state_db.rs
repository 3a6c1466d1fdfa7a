//! A database of state tries in memory.

use vstd::pervasive::unreached;
use vstd::prelude::*;

use crate::errors::ProviderError;
use crate::memory::{NodeStore, StoreReader};
use crate::nested_root::{
    account_changes, account_settled, calculable, calculated, lemma_empty_contents,
    lemma_holds_nothing, new_accounts, new_storage, storage_after, storage_deleted, storage_of, NestedStateRoot,
    StateSource,
};
use crate::nibbles::{is_word_path, lemma_unpacked_packed, packed, shared_len, unpacked};
use crate::node::NodeV;
use crate::output::{flat_updates, written};
use crate::rlp::{lemma_account_len, lemma_stripped_len, B256, U256};
use crate::state::{
    is_zero_word, overlay, storage_changes, Account, HashedPostState, HashedStorage,
    StorageTrieUpdatesV2, TrieUpdatesV2,
};
use crate::store::{lemma_store_unique, storable_root, store_of, Stored, TrieReader};
use crate::tree::{
    contents, lemma_root_determined, spread, state_root, tree_for, Tree, EMPTY_ROOT_HASH,
};
use crate::trie::{model_keys_of_length, without};
use crate::vec_map::{distinct, entries_map, has_entry, lemma_entry, MapKey, VecMap};

verus! {

/// The trie that `s` is the store of.
pub open spec fn tree_stored(s: Stored) -> Option<Tree> {
    choose|t: Option<Tree>| #[trigger] storable_root(t) && store_of(t) == s
}

/// `s` is the store of a trie.
pub open spec fn stores_a_tree(s: Stored) -> bool {
    exists|t: Option<Tree>| #[trigger] storable_root(t) && store_of(t) == s
}

/// What [`tree_stored`] says of the store of a trie.
pub proof fn lemma_tree_stored(t: Option<Tree>)
    requires
        storable_root(t),
    ensures
        stores_a_tree(store_of(t)),
        tree_stored(store_of(t)) == t,
{
    let u = tree_stored(store_of(t));
    assert(storable_root(u) && store_of(u) == store_of(t));
    lemma_store_unique(t, u);
}

/// Nothing is stored of an empty trie.
pub proof fn lemma_nothing_stored()
    ensures
        store_of(None) == Map::<Seq<u8>, NodeV>::empty(),
{
    assert(store_of(None) =~= Map::<Seq<u8>, NodeV>::empty());
}

/// The store for `address`, which is empty where there is none.
pub open spec fn store_at(m: Map<Seq<u8>, NodeStore>, address: Seq<u8>) -> Stored {
    if m.contains_key(address) {
        m[address]@
    } else {
        Map::empty()
    }
}

/// `s` after removals and updates.
pub open spec fn updated_store(s: Stored, u: StorageTrieUpdatesV2) -> Stored {
    if u.is_deleted {
        Map::empty()
    } else {
        written(without(s, u.removed_nodes@), u.storage_nodes@)
    }
}

/// `updates` can be written to `db`: every store is then that of a trie.
pub open spec fn writable(db: StateDb, updates: TrieUpdatesV2) -> bool {
    &&& flat_updates(updates.account_nodes@)
    &&& stores_a_tree(
        written(without(db.account_store(), updates.removed_nodes@), updates.account_nodes@),
    )
    &&& forall|a: Seq<u8>| #[trigger]
        updates.storage_tries@.contains_key(a) ==> flat_updates(
            updates.storage_tries@[a].storage_nodes@,
        ) && stores_a_tree(updated_store(db.storage_store(a), updates.storage_tries@[a]))
}

/// `after` is `before` with `updates` written.
pub open spec fn updates_written(
    before: StateDb,
    updates: TrieUpdatesV2,
    after: StateDb,
) -> bool {
    &&& after.settled()
    &&& after.account_store() == written(
        without(before.account_store(), updates.removed_nodes@),
        updates.account_nodes@,
    )
    &&& forall|a: Seq<u8>| #[trigger]
        after.storage_store(a) == if updates.storage_tries@.contains_key(a) {
            updated_store(before.storage_store(a), updates.storage_tries@[a])
        } else {
            before.storage_store(a)
        }
}

/// The stored state tries.
#[derive(Debug, PartialEq, Eq)]
pub struct StateDb {
    account_trie: NodeStore,
    storage_tries: VecMap<B256, NodeStore>,
}

impl StateDb {
    /// Every store is that of a trie, and no store is empty but that of the account trie.
    #[verifier::type_invariant]
    spec fn consistent(self) -> bool {
        &&& stores_a_tree(self.account_trie@)
        &&& forall|a: Seq<u8>| #[trigger]
            self.storage_tries@.contains_key(a) ==> stores_a_tree(self.storage_tries@[a]@)
                && self.storage_tries@[a]@ != Map::<Seq<u8>, NodeV>::empty()
    }

    /// The nodes of the account trie.
    pub closed spec fn account_store(&self) -> Stored {
        self.account_trie@
    }

    /// The nodes of the storage trie of an account.
    pub closed spec fn storage_store(&self, address: Seq<u8>) -> Stored {
        store_at(self.storage_tries@, address)
    }

    /// Every store is that of a trie: the account trie, and the storage trie of each account.
    pub open spec fn settled(&self) -> bool {
        &&& stores_a_tree(self.account_store())
        &&& forall|a: Seq<u8>| stores_a_tree(#[trigger] self.storage_store(a))
    }

    /// A database without tries.
    pub fn new() -> (r: StateDb)
        ensures
            r.settled(),
            r.account_store() == Map::<Seq<u8>, NodeV>::empty(),
            forall|a: Seq<u8>| #[trigger]
                r.storage_store(a) == Map::<Seq<u8>, NodeV>::empty(),
    {
        proof {
            lemma_nothing_stored();
            lemma_tree_stored(None);
        }
        StateDb { account_trie: NodeStore::new(), storage_tries: VecMap::new() }
    }

    /// Reads the nodes of the account trie.
    pub fn account_nodes(&self) -> (r: StoreReader<'_>)
        ensures
            r.nodes() == self.account_store(),
    {
        StoreReader { store: Some(&self.account_trie) }
    }

    /// Reads the nodes of the storage trie of an account.
    pub fn storage_nodes(&self, hashed_address: &B256) -> (r: StoreReader<'_>)
        ensures
            r.nodes() == self.storage_store(hashed_address@),
    {
        StoreReader { store: self.storage_tries.get(hashed_address) }
    }

    /// Whether no node is stored.
    pub fn is_empty(&self) -> (r: bool)
        ensures
            self.settled(),
            r == (self.account_store() == Map::<Seq<u8>, NodeV>::empty() && forall|a: Seq<u8>|
                #[trigger] self.storage_store(a) == Map::<Seq<u8>, NodeV>::empty()),
    {
        proof {
            use_type_invariant(self);
            lemma_nothing_stored();
            lemma_tree_stored(None);
            if self.storage_tries@ != Map::<Seq<u8>, NodeStore>::empty() {
                if forall|a: Seq<u8>| !#[trigger] self.storage_tries@.contains_key(a) {
                    assert(self.storage_tries@ =~= Map::<Seq<u8>, NodeStore>::empty());
                }
                let a = choose|a: Seq<u8>| #[trigger] self.storage_tries@.contains_key(a);
                assert(self.storage_store(a) != Map::<Seq<u8>, NodeV>::empty());
            }
        }
        self.account_trie.is_empty() && self.storage_tries.is_empty()
    }

    /// Writes changed nodes.
    pub fn write_trie_updatesv2(&mut self, updates: TrieUpdatesV2)
        requires
            writable(*old(self), updates),
        ensures
            updates_written(*old(self), updates, *final(self)),
    {
        proof {
            use_type_invariant(&*self);
            lemma_nothing_stored();
            lemma_tree_stored(None);
        }
        let TrieUpdatesV2 { account_nodes, removed_nodes, storage_tries } = updates;
        let mut account_trie = NodeStore::new();
        std::mem::swap(&mut account_trie, &mut self.account_trie);
        account_trie.apply(&removed_nodes, account_nodes);
        let mut tries: VecMap<B256, NodeStore> = VecMap::new();
        std::mem::swap(&mut tries, &mut self.storage_tries);
        let ghost start = tries@;
        let ghost tree_updates = storage_tries@;
        let entries = storage_tries.into_entries();
        let ghost listing = entries@;
        let ghost mut k: int = 0;
        for entry in it: entries
            invariant
                k == it.index(),
                it.seq() == listing,
                distinct(listing),
                tree_updates == entries_map(listing),
                forall|a: Seq<u8>| #[trigger]
                    tree_updates.contains_key(a) ==> flat_updates(tree_updates[a].storage_nodes@)
                        && stores_a_tree(updated_store(store_at(start, a), tree_updates[a])),
                forall|a: Seq<u8>| #[trigger]
                    tries@.contains_key(a) ==> stores_a_tree(tries@[a]@) && tries@[a]@ != Map::<
                        Seq<u8>,
                        NodeV,
                    >::empty(),
                forall|a: Seq<u8>| #[trigger]
                    store_at(tries@, a) == if has_entry(listing.take(k), a) {
                        updated_store(store_at(start, a), tree_updates[a])
                    } else {
                        store_at(start, a)
                    },
        {
            let ghost before = tries@;
            let (address, trie_updates) = entry;
            let ghost u = trie_updates;
            proof {
                assert(entry == listing[k]);
                lemma_entry(listing, k);
                assert(!has_entry(listing.take(k), address@)) by {
                    if has_entry(listing.take(k), address@) {
                        let j = choose|j: int|
                            0 <= j < k && (#[trigger] listing.take(k)[j]).0.key() == address@;
                        assert(listing[j].0.key() != listing[k].0.key());
                    }
                }
                assert(store_at(before, address@) == store_at(start, address@));
            }
            let old_store = tries.remove(&address);
            if !trie_updates.is_deleted {
                let mut store = match old_store {
                    Some(store) => store,
                    None => NodeStore::new(),
                };
                assert(store@ == store_at(start, address@));
                store.apply(&trie_updates.removed_nodes, trie_updates.storage_nodes);
                if !store.is_empty() {
                    tries.insert(address, store);
                }
            }
            proof {
                assert(store_at(tries@, address@) == updated_store(store_at(start, address@), u));
                assert forall|a: Seq<u8>| #[trigger]
                    store_at(tries@, a) == if has_entry(listing.take(k + 1), a) {
                        updated_store(store_at(start, a), tree_updates[a])
                    } else {
                        store_at(start, a)
                    } by {
                    lemma_prefix_entries(listing, k, a);
                    if a != address@ {
                        assert(store_at(tries@, a) == store_at(before, a));
                    }
                }
                k = k + 1;
            }
        }
        proof {
            assert(listing.take(k) =~= listing);
        }
        self.account_trie = account_trie;
        self.storage_tries = tries;
        proof {
            assert forall|a: Seq<u8>| stores_a_tree(#[trigger] self.storage_store(a)) by {}
        }
    }
}

/// One more entry.
proof fn lemma_prefix_entries<V>(listing: Seq<(B256, V)>, k: int, a: Seq<u8>)
    requires
        0 <= k < listing.len(),
    ensures
        has_entry(listing.take(k + 1), a) == (has_entry(listing.take(k), a) || listing[k].0@ == a),
{
    if has_entry(listing.take(k + 1), a) {
        let j = choose|j: int| 0 <= j < k + 1 && (#[trigger] listing.take(k + 1)[j]).0.key() == a;
        if j < k {
            assert(listing.take(k)[j].0.key() == a);
        }
    }
    if has_entry(listing.take(k), a) {
        let j = choose|j: int| 0 <= j < k && (#[trigger] listing.take(k)[j]).0.key() == a;
        assert(listing.take(k + 1)[j].0.key() == a);
    }
    if listing[k].0@ == a {
        assert(listing.take(k + 1)[k].0.key() == a);
    }
}

impl<'a> StateSource for &'a StateDb {
    type AccountReader = StoreReader<'a>;

    type StorageReader = StoreReader<'a>;

    open spec fn account_tree(&self) -> Option<Tree> {
        tree_stored(self.account_store())
    }

    open spec fn storage_tree(&self, hashed_address: Seq<u8>) -> Option<Tree> {
        tree_stored(self.storage_store(hashed_address))
    }

    open spec fn consistent(&self) -> bool {
        true
    }

    open spec fn reliable(&self) -> bool {
        true
    }

    fn account_reader(&self) -> (r: Result<StoreReader<'a>, ProviderError>) {
        proof {
            use_type_invariant(*self);
        }
        Ok(self.account_nodes())
    }

    fn storage_reader(&self, hashed_address: &B256) -> (r: Result<StoreReader<'a>, ProviderError>) {
        proof {
            use_type_invariant(*self);
            lemma_nothing_stored();
            lemma_tree_stored(None);
        }
        Ok(self.storage_nodes(hashed_address))
    }
}

/// The trie of `db` that holds the accounts.
pub open spec fn account_tree_of(db: StateDb) -> Option<Tree> {
    (&db).account_tree()
}

/// The trie of `db` that holds the storage of an account.
pub open spec fn storage_tree_of(db: StateDb, address: Seq<u8>) -> Option<Tree> {
    (&db).storage_tree(address)
}

/// `after` is `before` with the changes in `state` made, and `root` is its root hash.
pub open spec fn advanced(
    before: StateDb,
    state: &HashedPostState,
    after: StateDb,
    root: B256,
) -> bool {
    &&& before.settled()
    &&& after.settled()
    &&& root == state_root(new_accounts(&before, state))
    &&& contents(account_tree_of(after)) == new_accounts(&before, state)
    &&& forall|a: Seq<u8>| #[trigger]
        state.accounts@.contains_key(a) ==> contents(storage_tree_of(after, a))
            == if state.accounts@[a] is None {
            Map::<Seq<u8>, Seq<u8>>::empty()
        } else {
            new_storage(&before, state, a)
        }
    &&& forall|a: Seq<u8>|
        !state.accounts@.contains_key(a) ==> #[trigger] after.storage_store(a)
            == before.storage_store(a)
}

/// A store of a trie without keys holds no node.
proof fn lemma_stores_nothing(s: Stored)
    requires
        stores_a_tree(s),
        contents(tree_stored(s)) == Map::<Seq<u8>, Seq<u8>>::empty(),
    ensures
        s == Map::<Seq<u8>, NodeV>::empty(),
{
    lemma_nothing_stored();
    let t = tree_stored(s);
    assert(storable_root(t) && store_of(t) == s);
    lemma_holds_nothing(t);
}

/// Stores of tries with the same contents hold the same nodes.
proof fn lemma_same_store(s: Stored, s2: Stored)
    requires
        stores_a_tree(s),
        stores_a_tree(s2),
        contents(tree_stored(s)) == contents(tree_stored(s2)),
    ensures
        s == s2,
{
    let t = tree_stored(s);
    let t2 = tree_stored(s2);
    assert(storable_root(t) && store_of(t) == s);
    assert(storable_root(t2) && store_of(t2) == s2);
    lemma_root_determined(t);
    lemma_root_determined(t2);
}

/// What is calculated for the tries of a database can be written to it.
pub proof fn law_calculated_can_be_written(
    db: StateDb,
    state: &HashedPostState,
    root: B256,
    updates: TrieUpdatesV2,
)
    requires
        db.settled(),
        calculated(&db, state, root, updates),
    ensures
        writable(db, updates),
{
    let tries = updates.storage_tries@;
    lemma_nothing_stored();
    lemma_tree_stored(None);
    lemma_tree_stored(tree_for(new_accounts(&db, state)));
    assert forall|a: Seq<u8>| #[trigger] tries.contains_key(a) implies flat_updates(
        tries[a].storage_nodes@,
    ) && stores_a_tree(updated_store(db.storage_store(a), tries[a])) by {
        assert(account_settled(&db, state, tries, a));
        assert(stores_a_tree(db.storage_store(a)));
        if !tries[a].is_deleted {
            lemma_tree_stored(tree_for(new_storage(&db, state, a)));
        }
    }
}

/// A database to which the updates are written that were calculated for it holds the state after
/// the changes.
pub proof fn law_written_updates_count(
    before: StateDb,
    state: &HashedPostState,
    root: B256,
    updates: TrieUpdatesV2,
    after: StateDb,
)
    requires
        before.settled(),
        calculated(&before, state, root, updates),
        updates_written(before, updates, after),
    ensures
        advanced(before, state, after, root),
{
    let tries = updates.storage_tries@;
    lemma_nothing_stored();
    lemma_tree_stored(None);
    lemma_tree_stored(tree_for(new_accounts(&before, state)));
    assert(contents(None) =~= Map::<Seq<u8>, Seq<u8>>::empty());
    assert forall|a: Seq<u8>| #[trigger] state.accounts@.contains_key(a) implies contents(
        storage_tree_of(after, a),
    ) == if state.accounts@[a] is None {
        Map::<Seq<u8>, Seq<u8>>::empty()
    } else {
        new_storage(&before, state, a)
    } by {
        assert(account_settled(&before, state, tries, a));
        assert(stores_a_tree(before.storage_store(a)));
        if !storage_deleted(state.accounts@[a], storage_of(state, a)) {
            lemma_tree_stored(tree_for(new_storage(&before, state, a)));
        }
        assert(after.storage_store(a) == if tries.contains_key(a) {
            updated_store(before.storage_store(a), tries[a])
        } else {
            before.storage_store(a)
        });
    }
}

/// Where every account that is there is deleted, no node is left, neither of the account trie nor
/// of a storage trie, and the root hash is that of an empty trie.
pub proof fn law_all_deleted(before: StateDb, state: &HashedPostState, after: StateDb, root: B256)
    requires
        advanced(before, state, after, root),
        forall|a: Seq<u8>| #[trigger]
            state.accounts@.contains_key(a) ==> state.accounts@[a] is None,
        forall|k: Seq<u8>| #[trigger]
            contents(account_tree_of(before)).contains_key(k) ==> is_word_path(k)
                && state.accounts@.contains_key(packed(k)),
        forall|a: Seq<u8>|
            !state.accounts@.contains_key(a) ==> #[trigger] before.storage_store(a) == Map::<
                Seq<u8>,
                NodeV,
            >::empty(),
    ensures
        root == EMPTY_ROOT_HASH,
        after.account_store() == Map::<Seq<u8>, NodeV>::empty(),
        forall|a: Seq<u8>| #[trigger]
            after.storage_store(a) == Map::<Seq<u8>, NodeV>::empty(),
{
    let m = new_accounts(&before, state);
    let changes = account_changes(&before, state);
    assert forall|k: Seq<u8>| !#[trigger] m.contains_key(k) by {
        if contents(account_tree_of(before)).contains_key(k) {
            assert(changes.contains_key(k));
        }
    }
    assert(m =~= Map::<Seq<u8>, Seq<u8>>::empty());
    lemma_empty_contents();
    lemma_stores_nothing(after.account_store());
    assert forall|a: Seq<u8>| #[trigger] after.storage_store(a) == Map::<
        Seq<u8>,
        NodeV,
    >::empty() by {
        if state.accounts@.contains_key(a) {
            assert(contents(storage_tree_of(after, a)) == Map::<Seq<u8>, Seq<u8>>::empty());
            lemma_stores_nothing(after.storage_store(a));
        } else {
            assert(before.storage_store(a) == Map::<Seq<u8>, NodeV>::empty());
        }
    }
}

/// Accounts that a first set of changes adds and a second deletes leave nothing behind: every
/// node is stored as before the first, and the root hash is that of before.
pub proof fn law_deleting_what_was_added(
    start: StateDb,
    added: &HashedPostState,
    middle: StateDb,
    first_root: B256,
    deleted: &HashedPostState,
    end: StateDb,
    last_root: B256,
)
    requires
        advanced(start, added, middle, first_root),
        advanced(middle, deleted, end, last_root),
        added.accounts@.dom() == deleted.accounts@.dom(),
        forall|a: Seq<u8>| #[trigger]
            deleted.accounts@.contains_key(a) ==> deleted.accounts@[a] is None,
        forall|a: Seq<u8>| #[trigger]
            added.accounts@.contains_key(a) ==> start.storage_store(a) == Map::<
                Seq<u8>,
                NodeV,
            >::empty(),
        forall|k: Seq<u8>| #[trigger]
            contents(account_tree_of(start)).contains_key(k) ==> !added.accounts@.contains_key(
                packed(k),
            ),
    ensures
        end.account_store() == start.account_store(),
        forall|a: Seq<u8>| #[trigger] end.storage_store(a) == start.storage_store(a),
        last_root == state_root(contents(account_tree_of(start))),
{
    let m0 = contents(account_tree_of(start));
    let m1 = new_accounts(&start, added);
    let m2 = new_accounts(&middle, deleted);
    let c1 = account_changes(&start, added);
    let c2 = account_changes(&middle, deleted);
    assert(contents((&middle).account_tree()) == m1);
    assert forall|k: Seq<u8>| #[trigger]
        m2.contains_key(k) == m0.contains_key(k) && (m0.contains_key(k) ==> m2[k] == m0[k]) by {
        assert(added.accounts@.dom().contains(packed(k)) == deleted.accounts@.dom().contains(
            packed(k),
        ));
        assert(c1.contains_key(k) == c2.contains_key(k));
        assert(c2.contains_key(k) ==> c2[k] is None);
        assert(m1.contains_key(k) == if c1.contains_key(k) {
            c1[k] is Some
        } else {
            m0.contains_key(k)
        });
    }
    assert(m2 =~= m0);
    lemma_same_store(end.account_store(), start.account_store());
    assert forall|a: Seq<u8>| #[trigger] end.storage_store(a) == start.storage_store(a) by {
        assert(added.accounts@.dom().contains(a) == deleted.accounts@.dom().contains(a));
        if deleted.accounts@.contains_key(a) {
            assert(contents(storage_tree_of(end, a)) == Map::<Seq<u8>, Seq<u8>>::empty());
            lemma_stores_nothing(end.storage_store(a));
        } else {
            assert(middle.storage_store(a) == start.storage_store(a));
        }
    }
}

/// Two rounds that add accounts, the second none of the first, and then two that delete them, the
/// later ones first: after the third round the root hash is that of after the first, and after
/// the fourth it is that of an empty trie and no node is left.
pub proof fn law_rounds_undone(
    nothing: StateDb,
    h1: &HashedPostState,
    db1: StateDb,
    r1: B256,
    h2: &HashedPostState,
    db2: StateDb,
    r2: B256,
    d2: &HashedPostState,
    db3: StateDb,
    r3: B256,
    d1: &HashedPostState,
    db4: StateDb,
    r4: B256,
)
    requires
        nothing.account_store() == Map::<Seq<u8>, NodeV>::empty(),
        forall|a: Seq<u8>| #[trigger]
            nothing.storage_store(a) == Map::<Seq<u8>, NodeV>::empty(),
        advanced(nothing, h1, db1, r1),
        advanced(db1, h2, db2, r2),
        advanced(db2, d2, db3, r3),
        advanced(db3, d1, db4, r4),
        h1.accounts@.dom().disjoint(h2.accounts@.dom()),
        d1.accounts@.dom() == h1.accounts@.dom(),
        d2.accounts@.dom() == h2.accounts@.dom(),
        forall|a: Seq<u8>| #[trigger] d1.accounts@.contains_key(a) ==> d1.accounts@[a] is None,
        forall|a: Seq<u8>| #[trigger] d2.accounts@.contains_key(a) ==> d2.accounts@[a] is None,
    ensures
        r3 == r1,
        r4 == EMPTY_ROOT_HASH,
        db4.account_store() == Map::<Seq<u8>, NodeV>::empty(),
        forall|a: Seq<u8>| #[trigger]
            db4.storage_store(a) == Map::<Seq<u8>, NodeV>::empty(),
{
    lemma_nothing_stored();
    lemma_tree_stored(None);
    assert(contents(None) =~= Map::<Seq<u8>, Seq<u8>>::empty());
    let m1 = contents(account_tree_of(db1));
    assert(account_tree_of(nothing) is None);
    assert forall|k: Seq<u8>| #[trigger] m1.contains_key(k) implies is_word_path(k)
        && h1.accounts@.contains_key(packed(k)) && !h2.accounts@.contains_key(packed(k)) by {
        assert(account_changes(&nothing, h1).contains_key(k));
        assert(h1.accounts@.dom().contains(packed(k)));
        assert(!h2.accounts@.dom().contains(packed(k)));
    }
    assert forall|a: Seq<u8>| #[trigger] h2.accounts@.contains_key(a) implies db1.storage_store(a)
        == Map::<Seq<u8>, NodeV>::empty() by {
        assert(h2.accounts@.dom().contains(a));
        assert(!h1.accounts@.dom().contains(a));
        assert(db1.storage_store(a) == nothing.storage_store(a));
    }
    law_deleting_what_was_added(db1, h2, db2, r2, d2, db3, r3);
    assert(account_tree_of(db3) == account_tree_of(db1));
    assert forall|k: Seq<u8>| #[trigger]
        contents(account_tree_of(db3)).contains_key(k) implies is_word_path(k)
        && d1.accounts@.contains_key(packed(k)) by {
        assert(m1.contains_key(k));
        assert(h1.accounts@.dom().contains(packed(k)));
    }
    assert forall|a: Seq<u8>| !d1.accounts@.contains_key(a) implies #[trigger] db3.storage_store(a)
        == Map::<Seq<u8>, NodeV>::empty() by {
        assert(!h1.accounts@.dom().contains(a));
        assert(db1.storage_store(a) == nothing.storage_store(a));
    }
    law_all_deleted(db3, d1, db4, r4);
}

/// The slots that changes to a storage name.
pub open spec fn slots_of(changes: Option<HashedStorage>) -> Map<Seq<u8>, U256> {
    match changes {
        Some(s) => s.storage@,
        None => Map::empty(),
    }
}

/// `both` makes of a storage what `first` and then `second` make of it. `gone` says that nothing
/// is left of the storage after the first: a storage cannot be wiped and filled in one round.
pub open spec fn merged_storage(
    first: Option<HashedStorage>,
    gone: bool,
    second: Option<HashedStorage>,
    both: Option<HashedStorage>,
) -> bool {
    if second is Some && second->0.wiped {
        both is Some && both->0.wiped
    } else if gone {
        &&& both is Some && both->0.wiped
        &&& forall|k: Seq<u8>| #[trigger]
            slots_of(second).contains_key(k) ==> is_zero_word(slots_of(second)[k]@)
    } else {
        &&& both is Some ==> !both->0.wiped
        &&& slots_of(both) == slots_of(first).union_prefer_right(slots_of(second))
    }
}

/// What `state` changes in the storage of an account, where it changes the account.
pub open spec fn own_storage(state: &HashedPostState, address: Seq<u8>) -> Option<HashedStorage> {
    if state.accounts@.contains_key(address) {
        storage_of(state, address)
    } else {
        None
    }
}

/// `state` takes the storage of an account away, with the account or alone.
pub open spec fn takes_storage(state: &HashedPostState, address: Seq<u8>) -> bool {
    state.accounts@.contains_key(address) && storage_deleted(
        state.accounts@[address],
        storage_of(state, address),
    )
}

/// `both` is the changes of `first` and then of `second` in one round.
pub open spec fn merged_states(
    first: &HashedPostState,
    second: &HashedPostState,
    both: &HashedPostState,
) -> bool {
    &&& both.accounts@ == first.accounts@.union_prefer_right(second.accounts@)
    &&& forall|a: Seq<u8>| #[trigger]
        both.accounts@.contains_key(a) && both.accounts@[a] is Some ==> merged_storage(
            own_storage(first, a),
            takes_storage(first, a),
            own_storage(second, a),
            own_storage(both, a),
        )
}

/// The storage of an account after two rounds is that after both in one.
proof fn lemma_merged_storage(
    start: StateDb,
    first: &HashedPostState,
    middle: StateDb,
    root: B256,
    second: &HashedPostState,
    both: &HashedPostState,
    a: Seq<u8>,
)
    requires
        advanced(start, first, middle, root),
        merged_states(first, second, both),
        both.accounts@.contains_key(a),
        both.accounts@[a] is Some,
    ensures
        second.accounts@.contains_key(a) ==> new_storage(&middle, second, a) == new_storage(
            &start,
            both,
            a,
        ),
        !second.accounts@.contains_key(a) ==> new_storage(&start, first, a) == new_storage(
            &start,
            both,
            a,
        ),
{
    let m0 = contents(storage_tree_of(start, a));
    let s1 = own_storage(first, a);
    let s2 = own_storage(second, a);
    let s = own_storage(both, a);
    let x = slots_of(s1);
    let y = slots_of(s2);
    assert(merged_storage(s1, takes_storage(first, a), s2, s));
    lemma_no_slots_change_nothing(m0);
    if second.accounts@.contains_key(a) {
        let m1 = contents(storage_tree_of(middle, a));
        if !first.accounts@.contains_key(a) {
            assert(middle.storage_store(a) == start.storage_store(a));
        }
        lemma_no_slots_change_nothing(m1);
        if s2 is Some && s2->0.wiped {
        } else if takes_storage(first, a) {
            assert(m1 =~= Map::<Seq<u8>, Seq<u8>>::empty());
            assert(overlay(m1, storage_changes(y)) =~= Map::<Seq<u8>, Seq<u8>>::empty());
        } else {
            assert(m1 == overlay(m0, storage_changes(x)));
            assert(overlay(m1, storage_changes(y)) =~= overlay(
                m0,
                storage_changes(x.union_prefer_right(y)),
            ));
        }
    } else {
        assert(first.accounts@.contains_key(a));
        assert(x.union_prefer_right(y) =~= x);
    }
}

/// Changes without slots change nothing.
proof fn lemma_no_slots_change_nothing(m: Map<Seq<u8>, Seq<u8>>)
    ensures
        overlay(m, storage_changes(Map::empty())) == m,
{
    assert(overlay(m, storage_changes(Map::empty())) =~= m);
}

/// Two rounds of changes come to the same as both in one: the same nodes are stored, and the
/// root hash is the same.
pub proof fn law_rounds_merge(
    start: StateDb,
    first: &HashedPostState,
    middle: StateDb,
    first_root: B256,
    second: &HashedPostState,
    end: StateDb,
    last_root: B256,
    both: &HashedPostState,
    at_once: StateDb,
    root: B256,
)
    requires
        advanced(start, first, middle, first_root),
        advanced(middle, second, end, last_root),
        advanced(start, both, at_once, root),
        merged_states(first, second, both),
    ensures
        root == last_root,
        at_once.account_store() == end.account_store(),
        forall|a: Seq<u8>| #[trigger] at_once.storage_store(a) == end.storage_store(a),
{
    let m0 = contents(account_tree_of(start));
    let m1 = new_accounts(&start, first);
    let m2 = new_accounts(&middle, second);
    let m = new_accounts(&start, both);
    let c1 = account_changes(&start, first);
    let c2 = account_changes(&middle, second);
    let c = account_changes(&start, both);
    assert(contents((&middle).account_tree()) == m1);
    assert forall|k: Seq<u8>| #[trigger]
        m.contains_key(k) == m2.contains_key(k) && (m.contains_key(k) ==> m[k] == m2[k]) by {
        let a = packed(k);
        assert(both.accounts@.contains_key(a) == (first.accounts@.contains_key(a)
            || second.accounts@.contains_key(a)));
        assert(c.contains_key(k) == (c1.contains_key(k) || c2.contains_key(k)));
        if c.contains_key(k) && both.accounts@[a] is Some {
            lemma_merged_storage(start, first, middle, first_root, second, both, a);
        }
        assert(m1.contains_key(k) == if c1.contains_key(k) {
            c1[k] is Some
        } else {
            m0.contains_key(k)
        });
    }
    assert(m =~= m2);
    lemma_same_store(at_once.account_store(), end.account_store());
    assert forall|a: Seq<u8>| #[trigger] at_once.storage_store(a) == end.storage_store(a) by {
        assert(both.accounts@.contains_key(a) == (first.accounts@.contains_key(a)
            || second.accounts@.contains_key(a)));
        if both.accounts@.contains_key(a) {
            if both.accounts@[a] is Some {
                lemma_merged_storage(start, first, middle, first_root, second, both, a);
            }
            if !second.accounts@.contains_key(a) {
                assert(end.storage_store(a) == middle.storage_store(a));
            }
            assert(contents(storage_tree_of(at_once, a)) == contents(storage_tree_of(end, a)));
            lemma_same_store(at_once.storage_store(a), end.storage_store(a));
        } else {
            assert(at_once.storage_store(a) == start.storage_store(a));
            assert(middle.storage_store(a) == start.storage_store(a));
            assert(end.storage_store(a) == middle.storage_store(a));
        }
    }
}

impl StateDb {
    /// Makes the changes in `state`, and gives the root hash after them.
    pub fn advance(&mut self, state: &HashedPostState) -> (r: Result<B256, ProviderError>)
        requires
            calculable(&*old(self), state),
        ensures
            r is Ok,
            advanced(*old(self), state, *final(self), r->Ok_0),
    {
        let ghost db = *self;
        let (root, updates) = match NestedStateRoot::new(&*self).calculate(state) {
            Ok(r) => r,
            Err(e) => return Err(e),
        };
        proof {
            use_type_invariant(&*self);
            lemma_nothing_stored();
            lemma_tree_stored(None);
            assert(db.settled());
            law_calculated_can_be_written(db, state, root, updates);
        }
        let ghost u = updates;
        self.write_trie_updatesv2(updates);
        proof {
            law_written_updates_count(db, state, root, u, *self);
        }
        Ok(root)
    }
}

/// No two different words in use share all of their path but the last half-byte.
pub open spec fn words_spread<V>(words: Map<Seq<u8>, V>, in_use: spec_fn(V) -> bool) -> bool {
    forall|a: Seq<u8>, b: Seq<u8>| #[trigger]
        words.contains_key(a) && #[trigger] words.contains_key(b) && a != b && in_use(words[a])
            && in_use(words[b]) ==> shared_len(unpacked(a), unpacked(b)) < 63
}

/// The accounts of `state`, and the slots of each, are [`words_spread`].
pub open spec fn state_spread(state: &HashedPostState) -> bool {
    &&& words_spread(state.accounts@, |a: Option<Account>| a is Some)
    &&& forall|a: Seq<u8>| #[trigger]
        state.storages@.contains_key(a) ==> words_spread(
            state.storages@[a].storage@,
            |v: U256| !is_zero_word(v@),
        )
}

/// The account trie that `state` makes of nothing.
pub open spec fn genesis_accounts(state: &HashedPostState) -> Map<Seq<u8>, Seq<u8>> {
    Map::new(
        |k: Seq<u8>|
            is_word_path(k) && state.accounts@.contains_key(packed(k))
                && state.accounts@[packed(k)] is Some,
        |k: Seq<u8>|
            state.accounts@[packed(k)]->0.encoded(
                state_root(storage_after(None, storage_of(state, packed(k)))),
            ),
    )
}

/// The storage of an account that had none is spread where its slots are.
proof fn lemma_new_storage_spread(storage: Map<Seq<u8>, U256>)
    requires
        words_spread(storage, |v: U256| !is_zero_word(v@)),
    ensures
        spread(overlay(Map::empty(), storage_changes(storage))),
{
    let m = overlay(Map::empty(), storage_changes(storage));
    assert forall|k: Seq<u8>| #[trigger] m.contains_key(k) implies is_word_path(k)
        && storage.contains_key(packed(k)) && !is_zero_word(storage[packed(k)]@) && m[k].len() <= 64 by {
        let v = storage[packed(k)]@;
        lemma_stripped_len(v);
        assert(storage_changes(storage).contains_key(k));
    }
    assert forall|k: Seq<u8>, l: Seq<u8>| #[trigger]
        m.contains_key(k) && #[trigger] m.contains_key(l) && k != l implies shared_len(k, l)
        < 63 by {
        lemma_unpacked_packed(k);
        lemma_unpacked_packed(l);
        assert(storage.contains_key(packed(k)) && storage.contains_key(packed(l)));
    }
}

/// The root hash of the state that `state` makes of nothing.
pub fn genesis_root(state: &HashedPostState) -> (r: B256)
    requires
        state_spread(state),
    ensures
        r == state_root(genesis_accounts(state)),
{
    let mut db = StateDb::new();
    proof {
        lemma_nothing_stored();
        lemma_tree_stored(None);
        let source = &db;
        assert(contents(None) =~= Map::<Seq<u8>, Seq<u8>>::empty());
        assert(source.account_tree() is None);
        let c = account_changes(source, state);
        let m = new_accounts(source, state);
        assert forall|k: Seq<u8>| #[trigger]
            m.contains_key(k) == genesis_accounts(state).contains_key(k) && (m.contains_key(k)
                ==> m[k] == genesis_accounts(state)[k]) by {
            assert(source.storage_store(packed(k)) == Map::<Seq<u8>, NodeV>::empty());
            assert(c.contains_key(k) == (is_word_path(k) && state.accounts@.contains_key(
                packed(k),
            )));
        }
        assert(m =~= genesis_accounts(state));
        assert forall|k: Seq<u8>| #[trigger] m.contains_key(k) implies is_word_path(k)
            && state.accounts@.contains_key(packed(k)) && state.accounts@[packed(k)] is Some
            && m[k].len() <= 128 by {
            assert(c.contains_key(k));
            let a = state.accounts@[packed(k)]->0;
            let root = state_root(new_storage(source, state, packed(k)));
            lemma_account_len(a.nonce, a.balance@, root@, a.code_hash()@);
        }
        assert(spread(m)) by {
            assert forall|k: Seq<u8>, l: Seq<u8>| #[trigger]
                m.contains_key(k) && #[trigger] m.contains_key(l) && k != l implies shared_len(k, l)
                < 63 by {
                lemma_unpacked_packed(k);
                lemma_unpacked_packed(l);
                assert(state.accounts@.contains_key(packed(k)) && state.accounts@.contains_key(
                    packed(l),
                ));
            }
        }
        assert forall|a: Seq<u8>| #[trigger] state.accounts@.contains_key(a) implies {
            &&& model_keys_of_length(contents(source.storage_tree(a)), 64)
            &&& state.accounts@[a] is Some ==> spread(new_storage(source, state, a))
        } by {
            assert(source.storage_store(a) == Map::<Seq<u8>, NodeV>::empty());
            assert(source.storage_tree(a) is None);
            if state.storages@.contains_key(a) {
                lemma_new_storage_spread(state.storages@[a].storage@);
            }
        }
    }
    match db.advance(state) {
        Ok(root) => root,
        Err(_) => unreached(),
    }
}

} // verus!
