//! Hashed state: accounts and storage by hash, and what they change in the state tries.

use vstd::prelude::*;

use crate::nibbles::{
    is_word_path, lemma_packed_unpacked, lemma_unpacked_packed, packed, unpacked, Nibbles,
};
use crate::node::Node;
use crate::rlp::{
    encode_account, encode_fixed_size, rlp_account, rlp_string, without_leading_zeros, B256, U256,
};
use crate::trie::changed;
use crate::vec_map::{distinct, entries_map, has_entry, lemma_entry, MapKey, VecMap};

verus! {

/// The hash of no bytes, the code hash of an account without code.
pub const KECCAK_EMPTY: [u8; 32] = [
    0xc5,
    0xd2,
    0x46,
    0x01,
    0x86,
    0xf7,
    0x23,
    0x3c,
    0x92,
    0x7e,
    0x7d,
    0xb2,
    0xdc,
    0xc7,
    0x03,
    0xc0,
    0xe5,
    0x00,
    0xb6,
    0x53,
    0xca,
    0x82,
    0x27,
    0x3b,
    0x7b,
    0xfa,
    0xd8,
    0x04,
    0x5d,
    0x85,
    0xa4,
    0x70,
];

/// An account.
#[derive(Debug, Clone, Copy, PartialEq, Eq)]
pub struct Account {
    /// How many transactions it has sent.
    pub nonce: u64,
    /// Its balance.
    pub balance: U256,
    /// The hash of its code, where it has code.
    pub bytecode_hash: Option<B256>,
}

impl Account {
    /// The code hash that stands in the account trie.
    pub open spec fn code_hash(&self) -> B256 {
        match self.bytecode_hash {
            Some(h) => h,
            None => KECCAK_EMPTY,
        }
    }

    /// The encoding of the account with storage root `root`.
    pub open spec fn encoded(&self, root: B256) -> Seq<u8> {
        rlp_account(self.nonce, self.balance@, root@, self.code_hash()@)
    }

    /// The encoding of the account with storage root `root`.
    pub fn into_trie_account(&self, root: &B256) -> (r: Vec<u8>)
        ensures
            r@ == self.encoded(*root),
            self.bytecode_hash matches Some(h) ==> r@ == rlp_account(
                self.nonce,
                self.balance@,
                root@,
                h@,
            ),
            self.bytecode_hash is None ==> r@ == rlp_account(
                self.nonce,
                self.balance@,
                root@,
                KECCAK_EMPTY@,
            ),
    {
        let code = match self.bytecode_hash {
            Some(h) => h,
            None => KECCAK_EMPTY,
        };
        encode_account(self.nonce, &self.balance, root, &code)
    }
}

/// Changes to the storage of one account.
#[derive(Debug, PartialEq, Eq)]
pub struct HashedStorage {
    /// Whether everything that was there is gone.
    pub wiped: bool,
    /// New values by hashed slot. Zero clears the slot.
    pub storage: VecMap<B256, U256>,
}

/// Changes to the state.
#[derive(Debug, PartialEq, Eq)]
pub struct HashedPostState {
    /// Accounts by hashed address. A missing account is deleted.
    pub accounts: VecMap<B256, Option<Account>>,
    /// Storage by hashed address.
    pub storages: VecMap<B256, HashedStorage>,
}

impl HashedPostState {
    /// No changes.
    pub fn new() -> (r: HashedPostState)
        ensures
            r.accounts@ == Map::<Seq<u8>, Option<Account>>::empty(),
            r.storages@ == Map::<Seq<u8>, HashedStorage>::empty(),
    {
        HashedPostState { accounts: VecMap::new(), storages: VecMap::new() }
    }
}

/// `m` with the entries of `c` in place. A key without a value is taken out.
pub open spec fn overlay(
    m: Map<Seq<u8>, Seq<u8>>,
    c: Map<Seq<u8>, Option<Seq<u8>>>,
) -> Map<Seq<u8>, Seq<u8>> {
    Map::new(
        |k: Seq<u8>|
            if c.contains_key(k) {
                c[k] is Some
            } else {
                m.contains_key(k)
            },
        |k: Seq<u8>|
            if c.contains_key(k) {
                c[k]->0
            } else {
                m[k]
            },
    )
}

/// All bytes of `v` are zero.
pub open spec fn is_zero_word(v: Seq<u8>) -> bool {
    forall|i: int| 0 <= i < v.len() ==> #[trigger] v[i] == 0
}

/// What stands in a storage trie for a slot with value `v`.
pub open spec fn slot_value(v: Seq<u8>) -> Option<Seq<u8>> {
    if is_zero_word(v) {
        None
    } else {
        Some(rlp_string(without_leading_zeros(v)))
    }
}

/// What new slot values change in a storage trie.
pub open spec fn storage_changes(storage: Map<Seq<u8>, U256>) -> Map<Seq<u8>, Option<Seq<u8>>> {
    Map::new(
        |k: Seq<u8>| is_word_path(k) && storage.contains_key(packed(k)),
        |k: Seq<u8>| slot_value(storage[packed(k)]@),
    )
}

/// The value that a change sets.
pub open spec fn change_view(change: Option<Node>) -> Option<Seq<u8>> {
    match change {
        Some(v) => Some(v@->Value_0),
        None => None,
    }
}

/// A list of changes makes what it says of each key, where no key comes twice.
proof fn lemma_changed_key(
    m: Map<Seq<u8>, Seq<u8>>,
    changes: Seq<(Nibbles, Option<Node>)>,
    k: Seq<u8>,
)
    requires
        distinct(changes),
    ensures
        ({
            let after = changed(m, changes);
            if has_entry(changes, k) {
                let c = change_view(entries_map(changes)[k]);
                after.contains_key(k) == (c is Some) && (c is Some ==> after[k] == c->0)
            } else {
                after.contains_key(k) == m.contains_key(k) && (m.contains_key(k) ==> after[k]
                    == m[k])
            }
        }),
    decreases changes.len(),
{
    if changes.len() > 0 {
        let rest = changes.drop_last();
        let n = changes.len() - 1;
        assert(distinct(rest)) by {
            assert forall|i: int, j: int| 0 <= i < j < rest.len() implies (
            #[trigger] rest[i]).0.key() != (#[trigger] rest[j]).0.key() by {
                assert(changes[i].0.key() != changes[j].0.key());
            }
        }
        lemma_changed_key(m, rest, k);
        lemma_entry(changes, n);
        if changes.last().0@ == k {
            assert(changes[n].0.key() == k);
        } else {
            if has_entry(rest, k) {
                let j = choose|j: int| 0 <= j < rest.len() && (#[trigger] rest[j]).0.key() == k;
                assert(changes[j].0.key() == k);
                lemma_entry(changes, j);
                lemma_entry(rest, j);
            } else if has_entry(changes, k) {
                let j = choose|j: int|
                    0 <= j < changes.len() && (#[trigger] changes[j]).0.key() == k;
                assert(rest[j].0.key() == k);
            }
        }
    }
}

/// A list of changes without a key twice makes the overlay that it lists.
pub proof fn lemma_changed_overlay(
    m: Map<Seq<u8>, Seq<u8>>,
    changes: Seq<(Nibbles, Option<Node>)>,
    c: Map<Seq<u8>, Option<Seq<u8>>>,
)
    requires
        distinct(changes),
        forall|k: Seq<u8>| #[trigger] c.contains_key(k) == has_entry(changes, k),
        forall|i: int|
            0 <= i < changes.len() ==> c[(#[trigger] changes[i]).0@] == change_view(changes[i].1),
    ensures
        changed(m, changes) == overlay(m, c),
{
    let a = changed(m, changes);
    let b = overlay(m, c);
    assert forall|k: Seq<u8>| #[trigger]
        a.contains_key(k) == b.contains_key(k) && (a.contains_key(k) ==> a[k] == b[k]) by {
        lemma_changed_key(m, changes, k);
        if has_entry(changes, k) {
            let j = choose|j: int| 0 <= j < changes.len() && (#[trigger] changes[j]).0.key() == k;
            lemma_entry(changes, j);
        }
        assert(c.contains_key(k) == has_entry(changes, k));
    }
    assert(a =~= b);
}

/// Whether all bytes are zero.
fn is_zero(v: &U256) -> (r: bool)
    ensures
        r == is_zero_word(v@),
{
    let mut i: usize = 0;
    while i < 32
        invariant
            i <= 32,
            forall|j: int| 0 <= j < i ==> #[trigger] v@[j] == 0,
        decreases 32 - i,
    {
        if v[i] != 0 {
            assert(v@[i as int] != 0);
            return false;
        }
        i += 1;
    }
    true
}

/// What stands in a storage trie for a slot with value `v`.
fn slot_node(v: &U256) -> (r: Option<Node>)
    ensures
        change_view(r) == slot_value(v@),
        r matches Some(n) ==> n@ is Value,
{
    if is_zero(v) {
        None
    } else {
        Some(Node::ValueNode(encode_fixed_size(v)))
    }
}

/// Changes listed by the paths of 32-byte keys.
pub proof fn lemma_word_changes<V>(
    listing: Seq<(B256, V)>,
    changes: Seq<(Nibbles, Option<Node>)>,
)
    requires
        distinct(listing),
        changes.len() == listing.len(),
        forall|i: int|
            0 <= i < changes.len() ==> (#[trigger] changes[i]).0@ == unpacked(listing[i].0@),
    ensures
        distinct(changes),
        forall|k: Seq<u8>| #[trigger]
            has_entry(changes, k) == (is_word_path(k) && entries_map(listing).contains_key(
                packed(k),
            )),
        forall|i: int|
            0 <= i < changes.len() ==> is_word_path((#[trigger] changes[i]).0@) && entries_map(
                listing,
            ).contains_key(packed(changes[i].0@)) && entries_map(listing)[packed(changes[i].0@)]
                == listing[i].1,
{
    assert forall|i: int| 0 <= i < changes.len() implies is_word_path((#[trigger] changes[i]).0@)
        && packed(changes[i].0@) == listing[i].0@ && entries_map(listing).contains_key(
        packed(changes[i].0@),
    ) && entries_map(listing)[packed(changes[i].0@)] == listing[i].1 by {
        lemma_packed_unpacked(listing[i].0@);
        lemma_entry(listing, i);
    }
    assert forall|i: int, j: int| 0 <= i < j < changes.len() implies (
    #[trigger] changes[i]).0.key() != (#[trigger] changes[j]).0.key() by {
        assert(packed(changes[i].0@) == listing[i].0@);
        assert(packed(changes[j].0@) == listing[j].0@);
        assert(listing[i].0.key() != listing[j].0.key());
    }
    assert forall|k: Seq<u8>| #[trigger]
        has_entry(changes, k) == (is_word_path(k) && entries_map(listing).contains_key(
            packed(k),
        )) by {
        if has_entry(changes, k) {
            let i = choose|i: int| 0 <= i < changes.len() && (#[trigger] changes[i]).0.key() == k;
            assert(is_word_path(changes[i].0@));
        }
        if is_word_path(k) && entries_map(listing).contains_key(packed(k)) {
            assert(has_entry(listing, packed(k)));
            let i = choose|i: int|
                0 <= i < listing.len() && (#[trigger] listing[i]).0.key() == packed(k);
            lemma_unpacked_packed(k);
            assert(changes[i].0.key() == k);
        }
    }
}

/// The changes to a storage trie, by path.
pub fn storage_batch(storage: &VecMap<B256, U256>) -> (r: Vec<(Nibbles, Option<Node>)>)
    ensures
        forall|m: Map<Seq<u8>, Seq<u8>>| #[trigger]
            changed(m, r@) == overlay(m, storage_changes(storage@)),
        forall|i: int|
            0 <= i < r@.len() ==> {
                &&& (#[trigger] r@[i]).0@.len() == 64
                &&& r@[i].1 matches Some(v) ==> v@ is Value
            },
{
    let n = storage.len();
    let ghost listing = storage.listing();
    let mut r: Vec<(Nibbles, Option<Node>)> = Vec::with_capacity(n);
    let mut i: usize = 0;
    while i < n
        invariant
            i <= n,
            n == listing.len(),
            listing == storage.listing(),
            r@.len() == i,
            forall|j: int|
                0 <= j < i ==> {
                    &&& (#[trigger] r@[j]).0@ == unpacked(listing[j].0@)
                    &&& change_view(r@[j].1) == slot_value(listing[j].1@)
                    &&& r@[j].1 matches Some(v) ==> v@ is Value
                },
        decreases n - i,
    {
        let (slot, value) = storage.entry(i);
        r.push((Nibbles::unpack(slot.as_slice()), slot_node(value)));
        i += 1;
    }
    proof {
        let c = storage_changes(storage@);
        lemma_word_changes(listing, r@);
        assert forall|k: Seq<u8>| #[trigger] c.contains_key(k) == has_entry(r@, k) by {}
        assert forall|m: Map<Seq<u8>, Seq<u8>>| #[trigger]
            changed(m, r@) == overlay(m, storage_changes(storage@)) by {
            lemma_changed_overlay(m, r@, c);
        }
    }
    r
}

/// New and removed nodes of a storage trie.
#[derive(Debug, PartialEq, Eq)]
pub struct StorageTrieUpdatesV2 {
    /// Whether the whole trie is gone.
    pub is_deleted: bool,
    /// The nodes that are new or different.
    pub storage_nodes: Vec<(Nibbles, Node)>,
    /// The paths at which there is no node any more.
    pub removed_nodes: Vec<Nibbles>,
}

impl StorageTrieUpdatesV2 {
    /// The whole trie is gone.
    pub fn deleted() -> (r: StorageTrieUpdatesV2)
        ensures
            r.is_deleted,
            r.storage_nodes@.len() == 0,
            r.removed_nodes@.len() == 0,
    {
        StorageTrieUpdatesV2 {
            is_deleted: true,
            storage_nodes: Vec::new(),
            removed_nodes: Vec::new(),
        }
    }
}

/// New and removed nodes of all state tries. Removal comes first.
#[derive(Debug, PartialEq, Eq)]
pub struct TrieUpdatesV2 {
    /// The nodes of the account trie that are new or different.
    pub account_nodes: Vec<(Nibbles, Node)>,
    /// The paths of the account trie at which there is no node any more.
    pub removed_nodes: Vec<Nibbles>,
    /// The storage tries, by hashed address.
    pub storage_tries: VecMap<B256, StorageTrieUpdatesV2>,
}

} // verus!
