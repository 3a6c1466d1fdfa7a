//! Providers of state, and their options.

use vstd::prelude::*;

use crate::errors::ProviderError;
use crate::rlp::{B256, U256};
use crate::state::{Account, HashedPostState, KECCAK_EMPTY};
use crate::text::{chars_of, number, parse_u64};
use crate::trie_cache::Address;
use crate::vec_map::MapKey;

verus! {

/// The answer to a question about one property of an account, from the answer to that about the
/// account.
pub open spec fn property_of<T>(
    account: Result<Option<Account>, ProviderError>,
    property: spec_fn(Account) -> T,
) -> Result<Option<T>, ProviderError> {
    match account {
        Ok(Some(a)) => Ok(Some(property(a))),
        Ok(None) => Ok(None),
        Err(e) => Err(e),
    }
}

/// The hash under which the code of an account is found, where it has code.
pub open spec fn code_hash_of(account: Result<Option<Account>, ProviderError>) -> Option<B256> {
    match account {
        Ok(Some(a)) => match a.bytecode_hash {
            Some(h) => if h@ == KECCAK_EMPTY@ {
                None
            } else {
                Some(h)
            },
            None => None,
        },
        _ => None,
    }
}

/// A source of accounts, storage and code. What it holds is up to the implementation.
pub trait StateProvider {
    /// The account with an address.
    fn basic_account(&self, addr: &Address) -> Result<Option<Account>, ProviderError>;

    /// The value of a slot.
    fn storage(&self, account: &Address, storage_key: &B256) -> Result<
        Option<U256>,
        ProviderError,
    >;

    /// The code with a hash.
    fn bytecode_by_hash(&self, code_hash: &B256) -> Result<Option<Vec<u8>>, ProviderError>;

    /// The code of the account with an address, where there is an account and it has code. A
    /// failure to read the account or the code is handed on.
    fn account_code(&self, addr: &Address) -> (r: Result<Option<Vec<u8>>, ProviderError>)
        ensures
            exists|a: Result<Option<Account>, ProviderError>| #[trigger]
                call_ensures(Self::basic_account, (self, addr), a) && match a {
                    Err(e) => r == Err::<Option<Vec<u8>>, ProviderError>(e),
                    Ok(_) => match code_hash_of(a) {
                        Some(h) => call_ensures(Self::bytecode_by_hash, (self, &h), r),
                        None => r == Ok::<Option<Vec<u8>>, ProviderError>(None),
                    },
                },
    {
        let account = self.basic_account(addr);
        let acc = match account {
            Ok(Some(acc)) => acc,
            Ok(None) => return Ok(None),
            Err(e) => return Err(e),
        };
        if let Some(code_hash) = acc.bytecode_hash {
            if code_hash.same_key(&KECCAK_EMPTY) {
                return Ok(None);
            }
            return self.bytecode_by_hash(&code_hash);
        }
        Ok(None)
    }

    /// The balance of the account with an address. A failure to read it is handed on.
    fn account_balance(&self, addr: &Address) -> (r: Result<Option<U256>, ProviderError>)
        ensures
            exists|a: Result<Option<Account>, ProviderError>| #[trigger]
                call_ensures(Self::basic_account, (self, addr), a) && r == property_of(
                    a,
                    |a: Account| a.balance,
                ),
    {
        match self.basic_account(addr) {
            Ok(Some(acc)) => Ok(Some(acc.balance)),
            Ok(None) => Ok(None),
            Err(e) => Err(e),
        }
    }

    /// The nonce of the account with an address. A failure to read it is handed on.
    fn account_nonce(&self, addr: &Address) -> (r: Result<Option<u64>, ProviderError>)
        ensures
            exists|a: Result<Option<Account>, ProviderError>| #[trigger]
                call_ensures(Self::basic_account, (self, addr), a) && r == property_of(
                    a,
                    |a: Account| a.nonce,
                ),
    {
        match self.basic_account(addr) {
            Ok(Some(acc)) => Ok(Some(acc.nonce)),
            Ok(None) => Ok(None),
            Err(e) => Err(e),
        }
    }
}

/// How a provider is to work.
#[derive(Debug, Clone, Copy, PartialEq, Eq)]
pub struct StateProviderOptions {
    parallel: usize,
    raw_db: bool,
}

impl StateProviderOptions {
    /// There is at least one thread.
    #[verifier::type_invariant]
    spec fn some_thread(self) -> bool {
        self.parallel > 0
    }

    /// The number of threads.
    pub closed spec fn threads(&self) -> usize {
        self.parallel
    }

    /// Whether the database is handed out as it is.
    pub closed spec fn raw(&self) -> bool {
        self.raw_db
    }

    /// A number of threads, which cannot be zero.
    pub fn new(parallel: usize) -> (r: Option<StateProviderOptions>)
        ensures
            r is Some <==> parallel > 0,
            r matches Some(o) ==> o.threads() == parallel && !o.raw(),
    {
        if parallel > 0 {
            Some(StateProviderOptions { parallel, raw_db: false })
        } else {
            None
        }
    }

    /// The options given by a setting: as many threads as it says, or eight where it is missing
    /// or no number. There are no options with zero threads.
    pub fn from_setting(parallel: Option<&str>) -> (r: Option<StateProviderOptions>)
        ensures
            ({
                let n = match parallel {
                    Some(text) => match number(text@, usize::MAX as nat) {
                        Some(n) => n,
                        None => 8,
                    },
                    None => 8,
                };
                &&& r is Some <==> n > 0
                &&& r matches Some(o) ==> o.threads() == n && !o.raw()
            }),
    {
        let n: usize = match parallel {
            Some(text) => match parse_u64(chars_of(text).as_slice()) {
                Some(n) if n <= usize::MAX as u64 => n as usize,
                _ => 8,
            },
            None => 8,
        };
        StateProviderOptions::new(n)
    }

    /// Hands the database out as it is.
    pub fn with_raw_db(self) -> (r: StateProviderOptions)
        ensures
            r.threads() == self.threads(),
            r.raw(),
    {
        proof {
            use_type_invariant(&self);
        }
        StateProviderOptions { parallel: self.parallel, raw_db: true }
    }

    /// The number of threads.
    pub fn parallel(&self) -> (r: usize)
        ensures
            r == self.threads(),
            r > 0,
    {
        proof {
            use_type_invariant(self);
        }
        self.parallel
    }

    /// Whether the database is handed out as it is.
    pub fn raw_db(&self) -> (r: bool)
        ensures
            r == self.raw(),
    {
        self.raw_db
    }
}

impl Default for StateProviderOptions {
    fn default() -> (r: StateProviderOptions)
        ensures
            r.threads() == 1,
            !r.raw(),
    {
        StateProviderOptions { parallel: 1, raw_db: false }
    }
}

/// The options of a call that names none.
pub open spec fn default_options(o: StateProviderOptions) -> bool {
    o.threads() == 1 && !o.raw()
}

/// A block by number, by tag or by hash.
#[derive(Debug, Clone, Copy, PartialEq, Eq)]
pub enum BlockId {
    /// By number or tag.
    Number(BlockNumberOrTag),
    /// By hash.
    Hash(B256),
}

/// A block by number or by tag.
#[derive(Debug, Clone, Copy, PartialEq, Eq, Structural)]
pub enum BlockNumberOrTag {
    /// The latest block.
    Latest,
    /// The finalized block.
    Finalized,
    /// The safe block.
    Safe,
    /// The first block.
    Earliest,
    /// The block after the latest.
    Pending,
    /// The block with a number.
    Number(u64),
}

/// Hands out providers for historical, latest and pending state.
pub trait StateProviderFactory {
    /// The providers.
    type Provider;

    /// A provider for the latest state.
    fn latest_with_opts(&self, opts: StateProviderOptions) -> Result<Self::Provider, ProviderError>;

    /// A provider for the latest state, with the default options.
    fn latest(&self) -> (r: Result<Self::Provider, ProviderError>)
        ensures
            exists|o: StateProviderOptions|
                default_options(o) && #[trigger] call_ensures(
                    Self::latest_with_opts,
                    (self, o),
                    r,
                ),
    {
        self.latest_with_opts(StateProviderOptions::default())
    }

    /// A provider for the historical state after the block with a hash.
    fn history_by_block_hash_with_opts(
        &self,
        block: B256,
        opts: StateProviderOptions,
    ) -> Result<Self::Provider, ProviderError>;

    /// A provider for the historical state after the block with a hash, with the default options.
    fn history_by_block_hash(&self, block: B256) -> (r: Result<Self::Provider, ProviderError>)
        ensures
            exists|o: StateProviderOptions|
                default_options(o) && #[trigger] call_ensures(
                    Self::history_by_block_hash_with_opts,
                    (self, block, o),
                    r,
                ),
    {
        self.history_by_block_hash_with_opts(block, StateProviderOptions::default())
    }

    /// A provider for the historical state after the block with a number.
    fn history_by_block_number(&self, block: u64) -> Result<Self::Provider, ProviderError>;

    /// A provider for the state after the block with a number or tag.
    fn state_by_block_number_or_tag(&self, number_or_tag: BlockNumberOrTag) -> Result<
        Self::Provider,
        ProviderError,
    >;

    /// A provider for the state after a block. One that is named by its hash is historical.
    fn state_by_block_id(&self, block_id: BlockId) -> (r: Result<Self::Provider, ProviderError>)
        ensures
            match block_id {
                BlockId::Number(n) => call_ensures(
                    Self::state_by_block_number_or_tag,
                    (self, n),
                    r,
                ),
                BlockId::Hash(h) => call_ensures(Self::history_by_block_hash, (self, h), r),
            },
    {
        match block_id {
            BlockId::Number(block_number) => self.state_by_block_number_or_tag(block_number),
            BlockId::Hash(block_hash) => self.history_by_block_hash(block_hash),
        }
    }

    /// A provider for the state after the block with a hash, historical or pending.
    fn state_by_block_hash_with_opts(
        &self,
        block: B256,
        opts: StateProviderOptions,
    ) -> Result<Self::Provider, ProviderError>;

    /// A provider for the state after the block with a hash, historical or pending, with the
    /// default options.
    fn state_by_block_hash(&self, block: B256) -> (r: Result<Self::Provider, ProviderError>)
        ensures
            exists|o: StateProviderOptions|
                default_options(o) && #[trigger] call_ensures(
                    Self::state_by_block_hash_with_opts,
                    (self, block, o),
                    r,
                ),
    {
        self.state_by_block_hash_with_opts(block, StateProviderOptions::default())
    }

    /// A provider for the pending state, which is the latest where no block is pending.
    fn pending(&self) -> Result<Self::Provider, ProviderError>;

    /// A provider for the state after the pending block with a hash, where there is one.
    fn pending_state_by_hash_with_opts(
        &self,
        block_hash: B256,
        opts: StateProviderOptions,
    ) -> Result<Option<Self::Provider>, ProviderError>;

    /// A provider for the state after the pending block with a hash, where there is one, with
    /// the default options.
    fn pending_state_by_hash(&self, block_hash: B256) -> (r: Result<
        Option<Self::Provider>,
        ProviderError,
    >)
        ensures
            exists|o: StateProviderOptions|
                default_options(o) && #[trigger] call_ensures(
                    Self::pending_state_by_hash_with_opts,
                    (self, block_hash, o),
                    r,
                ),
    {
        self.pending_state_by_hash_with_opts(block_hash, StateProviderOptions::default())
    }
}

/// Turns into a provider for historical state.
pub trait TryIntoHistoricalStateProvider: Sized {
    /// The provider.
    type Provider;

    /// A provider for the state after the block with a number.
    fn try_into_history_at_block(self, block_number: u64) -> Result<Self::Provider, ProviderError>;
}

/// Gives the outcome of executing a block.
pub trait StateReader {
    /// The outcome.
    type Outcome;

    /// The outcome of a block, where it is known.
    fn get_state(&self, block: u64) -> Result<Option<Self::Outcome>, ProviderError>;
}

/// Hashes the keys of changed state.
pub trait HashedPostStateProvider {
    /// The changed state.
    type Bundle;

    /// The changed state by hashed keys.
    fn hashed_post_state(&self, bundle_state: &Self::Bundle) -> HashedPostState;
}

/// Names the way in which state is committed to.
pub trait StateCommitmentProvider {
    /// The way in which state is committed to.
    type StateCommitment;
}

/// The code of an account is looked for by its hash, but for that of no bytes. An account without
/// a code hash, one that is not there and one that could not be read have no code to look for.
pub proof fn law_code_hash(account: Account, e: ProviderError)
    ensures
        account.bytecode_hash matches Some(h) ==> (h@ != KECCAK_EMPTY@ ==> code_hash_of(
            Ok(Some(account)),
        ) == Some(h)),
        account.bytecode_hash matches Some(h) ==> (h@ == KECCAK_EMPTY@ ==> code_hash_of(
            Ok(Some(account)),
        ) is None),
        account.bytecode_hash is None ==> code_hash_of(Ok(Some(account))) is None,
        code_hash_of(Ok(None)) is None,
        code_hash_of(Err(e)) is None,
{
}

/// A property of an account that is there is told, one of an account that is not there is missing,
/// and a failure is handed on.
pub proof fn law_property<T>(account: Account, e: ProviderError, property: spec_fn(Account) -> T)
    ensures
        property_of(Ok(Some(account)), property) == Ok::<Option<T>, ProviderError>(
            Some(property(account)),
        ),
        property_of(Ok(None), property) == Ok::<Option<T>, ProviderError>(None),
        property_of(Err(e), property) == Err::<Option<T>, ProviderError>(e),
{
}

/// Where no options are named there is one thread, and the database is not handed out.
pub proof fn law_default_options(o: StateProviderOptions)
    requires
        default_options(o),
    ensures
        o.threads() == 1,
        !o.raw(),
{
}

} // verus!
