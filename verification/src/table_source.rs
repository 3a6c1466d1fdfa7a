//! The stored state tries as they are read from tables of records, with a cache in front.

use vstd::prelude::*;

use crate::bytes::ByteSeq;
use crate::errors::{DatabaseError, ProviderError};
use crate::memory::StoreReader;
use crate::nested_root::{NestedStateRoot, StateSource};
use crate::nibbles::Nibbles;
use crate::node::Node;
use crate::reader::{
    readable, records_sound, AccountTrieReader, NodeCache, NodeRecords, RecordTable, Records,
    StorageRecordTable, StorageRecords, StorageTrieReader,
};
use crate::rlp::B256;
use crate::state_db::{
    lemma_nothing_stored, lemma_tree_stored, stores_a_tree, tree_stored, StateDb,
};
use crate::store::{Stored, TrieReader};
use crate::stored::StorageNodeEntry;
use crate::tree::Tree;

verus! {

/// The tables of the records of all tries.
pub trait TrieTables {
    /// The records of the account trie.
    type Accounts: NodeRecords;

    /// The records of the storage tries.
    type Storages: StorageRecords;

    /// What the records of the account trie are.
    spec fn account_records(&self) -> Records;

    /// What the records of the storage trie of an account are.
    spec fn storage_records(&self, hashed_address: ByteSeq) -> Records;

    /// The tables can be had, and reads do not fail.
    spec fn reliable(&self) -> bool;

    /// The table of the account trie.
    fn accounts(&self) -> (r: Result<Self::Accounts, ProviderError>)
        ensures
            r matches Ok(t) ==> t.faithful() && t.records() == self.account_records(),
            self.reliable() ==> r is Ok && r->Ok_0.reliable(),
    ;

    /// The table of the storage tries.
    fn storages(&self) -> (r: Result<Self::Storages, ProviderError>)
        ensures
            r matches Ok(t) ==> t.faithful() && forall|a: Seq<u8>| #[trigger]
                t.storage_records(a) == self.storage_records(a),
            self.reliable() ==> r is Ok && r->Ok_0.reliable(),
    ;
}

/// A cache of the nodes of all tries.
pub trait StateNodeCache {
    /// The cached nodes of the account trie.
    type Accounts: NodeCache;

    /// The cached nodes of one storage trie.
    type Storage: NodeCache;

    /// What the cached nodes of the account trie are.
    spec fn account_nodes(&self) -> Stored;

    /// What the cached nodes of the storage trie of an account are.
    spec fn storage_nodes(&self, hashed_address: ByteSeq) -> Stored;

    /// The nodes of the account trie.
    fn accounts(&self) -> (r: Self::Accounts)
        ensures
            r.cached_nodes() == self.account_nodes(),
    ;

    /// The nodes of the storage trie of an account.
    fn storage(&self, hashed_address: &B256) -> (r: Self::Storage)
        ensures
            r.cached_nodes() == self.storage_nodes(hashed_address@),
    ;
}

/// A cache of nodes that can be read from the records anyway changes nothing.
pub proof fn law_cache_is_transparent(cache: Stored, records: Records)
    requires
        forall|p: Seq<u8>| #[trigger]
            cache.contains_key(p) ==> readable(Map::empty(), records).contains_key(p) && cache[p]
                == readable(Map::empty(), records)[p],
    ensures
        readable(cache, records) == readable(Map::empty(), records),
{
    assert(readable(cache, records) =~= readable(Map::empty(), records));
}

/// Tables of records, and a cache that comes first where there is one.
pub struct CachedTables<T: TrieTables, C: StateNodeCache> {
    tables: T,
    cache: Option<C>,
}

impl<T: TrieTables, C: StateNodeCache> CachedTables<T, C> {
    /// The tables.
    pub closed spec fn tables(&self) -> T {
        self.tables
    }

    /// The cache.
    pub closed spec fn cache(&self) -> Option<C> {
        self.cache
    }

    /// Reads from `cache` and `tables`.
    pub fn new(tables: T, cache: Option<C>) -> (r: CachedTables<T, C>)
        ensures
            r.tables() == tables,
            r.cache() == cache,
    {
        CachedTables { tables, cache }
    }

    /// The nodes of the account trie that can be read.
    pub open spec fn account_nodes(&self) -> Stored {
        readable(
            match self.cache() {
                Some(c) => c.account_nodes(),
                None => Map::empty(),
            },
            self.tables().account_records(),
        )
    }

    /// The nodes of the storage trie of an account that can be read.
    pub open spec fn storage_nodes(&self, hashed_address: Seq<u8>) -> Stored {
        readable(
            match self.cache() {
                Some(c) => c.storage_nodes(hashed_address),
                None => Map::empty(),
            },
            self.tables().storage_records(hashed_address),
        )
    }
}

impl<T: TrieTables, C: StateNodeCache> StateSource for CachedTables<T, C> {
    type AccountReader = AccountTrieReader<T::Accounts, C::Accounts>;

    type StorageReader = StorageTrieReader<T::Storages, C::Storage>;

    open spec fn account_tree(&self) -> Option<Tree> {
        tree_stored(self.account_nodes())
    }

    open spec fn storage_tree(&self, hashed_address: Seq<u8>) -> Option<Tree> {
        tree_stored(self.storage_nodes(hashed_address))
    }

    open spec fn consistent(&self) -> bool {
        &&& stores_a_tree(self.account_nodes())
        &&& forall|a: Seq<u8>| stores_a_tree(#[trigger] self.storage_nodes(a))
    }

    open spec fn reliable(&self) -> bool {
        &&& self.tables().reliable()
        &&& records_sound(self.tables().account_records())
        &&& forall|a: Seq<u8>| records_sound(#[trigger] self.tables().storage_records(a))
    }

    fn account_reader(&self) -> (r: Result<Self::AccountReader, ProviderError>)
        ensures
            r matches Ok(reader) ==> reader.faithful() && reader.nodes() == self.account_nodes(),
            r matches Err(e) ==> call_ensures(
                T::accounts,
                (&self.tables(),),
                Err::<T::Accounts, ProviderError>(e),
            ),
    {
        let records = match self.tables.accounts() {
            Ok(records) => records,
            Err(e) => return Err(e),
        };
        let cache = match &self.cache {
            Some(cache) => Some(cache.accounts()),
            None => None,
        };
        Ok(AccountTrieReader::new(records, cache))
    }

    fn storage_reader(&self, hashed_address: &B256) -> (r: Result<
        Self::StorageReader,
        ProviderError,
    >)
        ensures
            r matches Ok(reader) ==> reader.faithful() && reader.nodes() == self.storage_nodes(
                hashed_address@,
            ),
            r matches Err(e) ==> call_ensures(
                T::storages,
                (&self.tables(),),
                Err::<T::Storages, ProviderError>(e),
            ),
    {
        let table = match self.tables.storages() {
            Ok(table) => table,
            Err(e) => return Err(e),
        };
        let cache = match &self.cache {
            Some(cache) => Some(cache.storage(hashed_address)),
            None => None,
        };
        proof {
            assert(stores_a_tree(self.storage_nodes(hashed_address@)) || !self.consistent());
            assert(table.storage_records(hashed_address@) == self.tables().storage_records(
                hashed_address@,
            ));
            assert(records_sound(self.tables().storage_records(hashed_address@))
                || !self.reliable());
        }
        Ok(StorageTrieReader::new(table, *hashed_address, cache))
    }
}

impl<'a> NodeRecords for &'a RecordTable {
    open spec fn records(&self) -> Records {
        (**self).records()
    }

    open spec fn faithful(&self) -> bool {
        true
    }

    open spec fn reliable(&self) -> bool {
        true
    }

    fn record(&self, path: &Nibbles) -> (r: Result<Option<Vec<u8>>, DatabaseError>) {
        (**self).record(path)
    }
}

impl<'a> StorageRecords for &'a StorageRecordTable {
    open spec fn storage_records(&self, hashed_address: Seq<u8>) -> Records {
        (**self).storage_records(hashed_address)
    }

    open spec fn faithful(&self) -> bool {
        true
    }

    open spec fn reliable(&self) -> bool {
        true
    }

    fn seek_by_key_subkey(&self, hashed_address: &B256, path: &Nibbles) -> (r: Result<
        Option<StorageNodeEntry>,
        DatabaseError,
    >) {
        (**self).seek_by_key_subkey(hashed_address, path)
    }
}

/// Tables in memory.
pub struct RecordTables<'a> {
    /// The records of the account trie.
    pub accounts: &'a RecordTable,
    /// The records of the storage tries.
    pub storages: &'a StorageRecordTable,
}

impl<'a> TrieTables for RecordTables<'a> {
    type Accounts = &'a RecordTable;

    type Storages = &'a StorageRecordTable;

    open spec fn account_records(&self) -> Records {
        self.accounts.records()
    }

    open spec fn storage_records(&self, hashed_address: Seq<u8>) -> Records {
        self.storages.storage_records(hashed_address)
    }

    open spec fn reliable(&self) -> bool {
        true
    }

    fn accounts(&self) -> (r: Result<&'a RecordTable, ProviderError>) {
        Ok(self.accounts)
    }

    fn storages(&self) -> (r: Result<&'a StorageRecordTable, ProviderError>) {
        Ok(self.storages)
    }
}

impl<'a> NodeCache for StoreReader<'a> {
    open spec fn cached_nodes(&self) -> Stored {
        self.nodes()
    }

    fn cached_node(&self, path: &Nibbles) -> (r: Option<Node>) {
        match self.store {
            Some(store) => store.get(path),
            None => None,
        }
    }
}

impl<'a> StateNodeCache for &'a StateDb {
    type Accounts = StoreReader<'a>;

    type Storage = StoreReader<'a>;

    open spec fn account_nodes(&self) -> Stored {
        self.account_store()
    }

    open spec fn storage_nodes(&self, hashed_address: Seq<u8>) -> Stored {
        self.storage_store(hashed_address)
    }

    fn accounts(&self) -> (r: StoreReader<'a>) {
        (**self).account_nodes()
    }

    fn storage(&self, hashed_address: &B256) -> (r: StoreReader<'a>) {
        (**self).storage_nodes(hashed_address)
    }
}

/// In front of tables without records a database of state tries stands for itself, and no cache
/// for nothing at all.
pub proof fn law_cache_before_empty_tables<'a, T: TrieTables>(source: CachedTables<T, &'a StateDb>)
    requires
        source.tables().account_records() == Map::<Seq<u8>, Seq<u8>>::empty(),
        forall|a: Seq<u8>| #[trigger]
            source.tables().storage_records(a) == Map::<Seq<u8>, Seq<u8>>::empty(),
        source.cache() matches Some(db) ==> db.settled(),
    ensures
        source.consistent(),
        source.account_tree() == match source.cache() {
            Some(db) => db.account_tree(),
            None => None,
        },
        forall|a: Seq<u8>| #[trigger]
            source.storage_tree(a) == match source.cache() {
                Some(db) => db.storage_tree(a),
                None => None,
            },
{
    lemma_nothing_stored();
    lemma_tree_stored(None);
    let none = Map::<Seq<u8>, Seq<u8>>::empty();
    let accounts = match source.cache() {
        Some(db) => db.account_store(),
        None => Map::empty(),
    };
    assert(readable(accounts, none) =~= accounts);
    assert forall|a: Seq<u8>| stores_a_tree(#[trigger] source.storage_nodes(a))
        && source.storage_tree(a) == match source.cache() {
        Some(db) => db.storage_tree(a),
        None => None,
    } by {
        let slots = match source.cache() {
            Some(db) => db.storage_store(a),
            None => Map::empty(),
        };
        assert(source.tables().storage_records(a) == none);
        assert(readable(slots, none) =~= slots);
    }
    assert forall|a: Seq<u8>| #[trigger] source.storage_tree(a) == match source.cache() {
        Some(db) => db.storage_tree(a),
        None => None,
    } by {
        assert(stores_a_tree(source.storage_nodes(a)));
    }
}

impl<T: TrieTables, C: StateNodeCache> NestedStateRoot<CachedTables<T, C>> {
    /// Calculates on what `provider` holds, with `cache` in front of it.
    pub fn with_cache(provider: T, cache: Option<C>) -> (r: NestedStateRoot<CachedTables<T, C>>)
        ensures
            r.source().tables() == provider,
            r.source().cache() == cache,
    {
        NestedStateRoot::new(CachedTables::new(provider, cache))
    }
}

/// Cached nodes come before the records, in the account trie and in the storage trie of each
/// account. Without a cache the records alone count.
pub proof fn law_cached_nodes<T: TrieTables, C: StateNodeCache>(
    source: CachedTables<T, C>,
    address: Seq<u8>,
    path: Seq<u8>,
)
    ensures
        source.cache() matches Some(c) ==> {
            &&& c.account_nodes().contains_key(path) ==> source.account_nodes().contains_key(path)
                && source.account_nodes()[path] == c.account_nodes()[path]
            &&& c.storage_nodes(address).contains_key(path) ==> source.storage_nodes(
                address,
            ).contains_key(path) && source.storage_nodes(address)[path] == c.storage_nodes(
                address,
            )[path]
            &&& !c.account_nodes().contains_key(path) ==> source.account_nodes().contains_key(path)
                == readable(Map::empty(), source.tables().account_records()).contains_key(path)
            &&& !c.storage_nodes(address).contains_key(path) ==> source.storage_nodes(
                address,
            ).contains_key(path) == readable(
                Map::empty(),
                source.tables().storage_records(address),
            ).contains_key(path)
        },
        source.cache() is None ==> source.account_nodes() == readable(
            Map::empty(),
            source.tables().account_records(),
        ),
        source.cache() is None ==> source.storage_nodes(address) == readable(
            Map::empty(),
            source.tables().storage_records(address),
        ),
{
}

} // verus!
