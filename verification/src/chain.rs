//! The chains and their hardforks.

use vstd::prelude::*;

verus! {

/// The chain id of the main network.
pub const GRAVITY_MAINNET_CHAIN_ID: u64 = 127001;

/// The chain id of the test network.
pub const GRAVITY_TESTNET_CHAIN_ID: u64 = 7771113;

/// Whether `chain_id` is that of the main or the test network.
pub fn is_gravity_chain_id(chain_id: u64) -> (r: bool)
    ensures
        r == (chain_id == GRAVITY_MAINNET_CHAIN_ID || chain_id == GRAVITY_TESTNET_CHAIN_ID),
        r == (chain_id == 127001 || chain_id == 7771113),
{
    chain_id == GRAVITY_MAINNET_CHAIN_ID || chain_id == GRAVITY_TESTNET_CHAIN_ID
}

/// The hardforks.
#[derive(Debug, Clone, Copy, PartialEq, Eq, Structural)]
pub enum GravityHardfork {
    /// Upgrades the staking contracts and ends proof-of-work rewards.
    Alpha,
    /// Upgrades the stake pool contracts with the right factory.
    Beta,
    /// Audit fixes: changes to precompiles, and upgrades of twelve contracts.
    Gamma,
    /// Activates governance by setting its owner.
    Delta,
}

/// When a hardfork activates.
#[derive(Debug, Clone, Copy, PartialEq, Eq, Structural)]
pub enum ForkCondition {
    /// From a block on.
    Block(u64),
    /// From a time on.
    Timestamp(u64),
    /// Not at all.
    Never,
}

impl ForkCondition {
    /// Whether the fork goes by time and is active at `timestamp`.
    pub fn active_at_timestamp(&self, timestamp: u64) -> (r: bool)
        ensures
            r == (*self matches ForkCondition::Timestamp(t) && timestamp >= t),
    {
        match self {
            ForkCondition::Timestamp(t) => timestamp >= *t,
            _ => false,
        }
    }

    /// Whether the fork goes by block and activates at `block_number`.
    pub fn transitions_at_block(&self, block_number: u64) -> (r: bool)
        ensures
            r == (*self == ForkCondition::Block(block_number)),
    {
        match self {
            ForkCondition::Block(b) => block_number == *b,
            _ => false,
        }
    }
}

/// When each hardfork activates.
#[derive(Debug, Clone, Copy, PartialEq, Eq)]
pub struct GravityHardforks {
    /// Of [`GravityHardfork::Alpha`].
    pub alpha: ForkCondition,
    /// Of [`GravityHardfork::Beta`].
    pub beta: ForkCondition,
    /// Of [`GravityHardfork::Gamma`].
    pub gamma: ForkCondition,
    /// Of [`GravityHardfork::Delta`].
    pub delta: ForkCondition,
}

impl GravityHardforks {
    /// When `fork` activates.
    pub open spec fn condition(&self, fork: GravityHardfork) -> ForkCondition {
        match fork {
            GravityHardfork::Alpha => self.alpha,
            GravityHardfork::Beta => self.beta,
            GravityHardfork::Gamma => self.gamma,
            GravityHardfork::Delta => self.delta,
        }
    }

    /// When `fork` activates.
    pub fn fork(&self, fork: GravityHardfork) -> (r: ForkCondition)
        ensures
            r == self.condition(fork),
            fork == GravityHardfork::Alpha ==> r == self.alpha,
            fork == GravityHardfork::Beta ==> r == self.beta,
            fork == GravityHardfork::Gamma ==> r == self.gamma,
            fork == GravityHardfork::Delta ==> r == self.delta,
    {
        match fork {
            GravityHardfork::Alpha => self.alpha,
            GravityHardfork::Beta => self.beta,
            GravityHardfork::Gamma => self.gamma,
            GravityHardfork::Delta => self.delta,
        }
    }
}

} // verus!
