//! A cache in front of the stored state and its tries.

use vstd::prelude::*;

use crate::nibbles::Nibbles;
use crate::node::BranchNodeCompact;
use crate::rlp::{B256, U256};
use crate::state::Account;

verus! {

/// An address.
pub type Address = [u8; 20];

/// What a cached value is found by.
#[derive(Debug, PartialEq, Eq)]
pub enum StorageCacheKey {
    /// An account by address.
    StateAccount(Address),
    /// Code by hash.
    StateContract(B256),
    /// A slot by address and key.
    StateStorage(Address, B256),
    /// An account by hashed address.
    HashAccount(B256),
    /// A slot by hashed address and hashed key.
    HashStorage(B256, B256),
    /// A branch of the account trie.
    TrieAccout(Nibbles),
    /// A branch of a storage trie.
    TrieStorage(B256, Nibbles),
}

/// A cached value.
#[derive(Debug, PartialEq, Eq)]
pub enum StorageCacheValue {
    /// An account.
    StateAccount(Account),
    /// Code.
    StateContract(Vec<u8>),
    /// A slot.
    StateStorage(U256),
    /// An account.
    HashAccount(Account),
    /// A slot.
    HashStorage(U256),
    /// A branch of the account trie.
    TrieAccout(BranchNodeCompact),
    /// A branch of a storage trie.
    TrieStorage(BranchNodeCompact),
}

/// A cache that may hold a value. What it holds is up to the implementation.
pub trait TrieCacheReader {
    /// The account with a hashed address.
    fn hashed_account(&self, hash_address: B256) -> Option<Account>;

    /// The slot with a hashed key.
    fn hashed_storage(&self, hash_address: B256, hash_slot: B256) -> Option<U256>;

    /// The branch of the account trie at a path.
    fn trie_account(&self, nibbles: Nibbles) -> Option<BranchNodeCompact>;

    /// The branch of a storage trie at a path.
    fn trie_storage(&self, hash_address: B256, nibbles: Nibbles) -> Option<BranchNodeCompact>;

    /// Offers a value to the cache.
    fn cache(&self, key: StorageCacheKey, value: StorageCacheValue);
}

/// A cache that holds nothing.
#[derive(Debug, Clone, Copy)]
pub struct NoopTrieCacheReader {}

impl TrieCacheReader for NoopTrieCacheReader {
    fn hashed_account(&self, _hash_address: B256) -> (r: Option<Account>)
        ensures
            r is None,
    {
        None
    }

    fn hashed_storage(&self, _hash_address: B256, _hash_slot: B256) -> (r: Option<U256>)
        ensures
            r is None,
    {
        None
    }

    fn trie_account(&self, _nibbles: Nibbles) -> (r: Option<BranchNodeCompact>)
        ensures
            r is None,
    {
        None
    }

    fn trie_storage(&self, _hash_address: B256, _nibbles: Nibbles) -> (r: Option<
        BranchNodeCompact,
    >)
        ensures
            r is None,
    {
        None
    }

    fn cache(&self, _key: StorageCacheKey, _value: StorageCacheValue) {
    }
}

} // verus!
