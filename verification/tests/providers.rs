use gravity_state::config::Config;
use gravity_state::errors::ProviderError;
use gravity_state::nibbles::Nibbles;
use gravity_state::state::{Account, KECCAK_EMPTY};
use gravity_state::state_provider::{
    BlockId, BlockNumberOrTag, StateProvider, StateProviderFactory, StateProviderOptions,
};
use gravity_state::trie_cache::{
    NoopTrieCacheReader, StorageCacheKey, StorageCacheValue, TrieCacheReader,
};

type Address = [u8; 20];
type B256 = [u8; 32];

/// One account with code.
struct One;

impl StateProvider for One {
    fn basic_account(&self, addr: &Address) -> Result<Option<Account>, ProviderError> {
        match addr[0] {
            1 => Ok(Some(Account { nonce: 7, balance: [3; 32], bytecode_hash: Some([9; 32]) })),
            2 => Ok(Some(Account {
                nonce: 0,
                balance: [0; 32],
                bytecode_hash: Some(KECCAK_EMPTY),
            })),
            3 => Ok(Some(Account { nonce: 0, balance: [0; 32], bytecode_hash: None })),
            4 => Err(ProviderError::BestBlockNotFound),
            _ => Ok(None),
        }
    }

    fn storage(&self, _account: &Address, _key: &B256) -> Result<Option<B256>, ProviderError> {
        Ok(None)
    }

    fn bytecode_by_hash(&self, code_hash: &B256) -> Result<Option<Vec<u8>>, ProviderError> {
        Ok((code_hash == &[9; 32]).then_some(vec![0x60]))
    }
}

/// Says what it was asked for.
struct Echo;

impl StateProviderFactory for Echo {
    type Provider = String;

    fn latest_with_opts(&self, opts: StateProviderOptions) -> Result<String, ProviderError> {
        Ok(format!("latest {} {}", opts.parallel(), opts.raw_db()))
    }

    fn history_by_block_hash_with_opts(
        &self,
        block: B256,
        opts: StateProviderOptions,
    ) -> Result<String, ProviderError> {
        Ok(format!("history {} {}", block[0], opts.parallel()))
    }

    fn history_by_block_number(&self, block: u64) -> Result<String, ProviderError> {
        Ok(format!("number {}", block))
    }

    fn state_by_block_number_or_tag(
        &self,
        number_or_tag: BlockNumberOrTag,
    ) -> Result<String, ProviderError> {
        Ok(format!("{:?}", number_or_tag))
    }

    fn state_by_block_hash_with_opts(
        &self,
        block: B256,
        opts: StateProviderOptions,
    ) -> Result<String, ProviderError> {
        Ok(format!("state {} {}", block[0], opts.parallel()))
    }

    fn pending(&self) -> Result<String, ProviderError> {
        Ok("pending".to_string())
    }

    fn pending_state_by_hash_with_opts(
        &self,
        block_hash: B256,
        opts: StateProviderOptions,
    ) -> Result<Option<String>, ProviderError> {
        Ok(Some(format!("pending {} {}", block_hash[0], opts.parallel())))
    }
}

#[test]
fn accounts_are_read_part_by_part() {
    assert_eq!(One.account_code(&[1; 20]), Ok(Some(vec![0x60])));
    assert_eq!(One.account_code(&[2; 20]), Ok(None));
    assert_eq!(One.account_code(&[3; 20]), Ok(None));
    assert_eq!(One.account_code(&[5; 20]), Ok(None));
    assert_eq!(One.account_balance(&[1; 20]), Ok(Some([3; 32])));
    assert_eq!(One.account_balance(&[5; 20]), Ok(None));
    assert_eq!(One.account_nonce(&[1; 20]), Ok(Some(7)));
    assert_eq!(One.account_nonce(&[5; 20]), Ok(None));
    assert_eq!(One.account_nonce(&[4; 20]), Err(ProviderError::BestBlockNotFound));
    assert_eq!(One.account_code(&[4; 20]), Err(ProviderError::BestBlockNotFound));
}

#[test]
fn options_have_threads() {
    let options = StateProviderOptions::default();
    assert_eq!((options.parallel(), options.raw_db()), (1, false));
    assert!(options.with_raw_db().raw_db());
    assert_eq!(options.with_raw_db().parallel(), 1);
    assert_eq!(StateProviderOptions::from_setting(None).unwrap().parallel(), 8);
    assert_eq!(StateProviderOptions::from_setting(Some("3")).unwrap().parallel(), 3);
    assert_eq!(StateProviderOptions::from_setting(Some("many")).unwrap().parallel(), 8);
    assert!(StateProviderOptions::from_setting(Some("0")).is_none());
    assert!(StateProviderOptions::new(0).is_none());
}

#[test]
fn factories_use_default_options() {
    assert_eq!(Echo.latest(), Ok("latest 1 false".to_string()));
    assert_eq!(Echo.history_by_block_hash([4; 32]), Ok("history 4 1".to_string()));
    assert_eq!(Echo.state_by_block_hash([5; 32]), Ok("state 5 1".to_string()));
    assert_eq!(Echo.pending_state_by_hash([6; 32]), Ok(Some("pending 6 1".to_string())));
    assert_eq!(
        Echo.state_by_block_id(BlockId::Number(BlockNumberOrTag::Number(3))),
        Ok("Number(3)".to_string())
    );
    assert_eq!(Echo.state_by_block_id(BlockId::Hash([7; 32])), Ok("history 7 1".to_string()));
}

#[test]
fn settings_switch_parts_off() {
    let config = Config::from_settings(None, Some(String::new()));
    assert_eq!(config, Config { disable_pipe_execution: false, disable_grevm: true });
    let config = Config::from_settings(Some("0".to_string()), None);
    assert_eq!(config, Config { disable_pipe_execution: true, disable_grevm: false });
}

#[test]
fn empty_cache_has_nothing() {
    let cache = NoopTrieCacheReader {};
    cache.cache(StorageCacheKey::HashAccount([1; 32]), StorageCacheValue::HashStorage([2; 32]));
    assert_eq!(cache.hashed_account([1; 32]), None);
    assert_eq!(cache.hashed_storage([1; 32], [1; 32]), None);
    assert_eq!(cache.trie_account(Nibbles::new()), None);
    assert_eq!(cache.trie_storage([1; 32], Nibbles::new()), None);
}
