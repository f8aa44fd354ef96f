//! What the wallet daemon reports of the chain.
use vstd::prelude::*;

verus! {

/// The state of the chain, amounts in atomic units.
#[derive(Debug)]
pub struct ChainInfo {
    /// The name of the network
    pub network: String,
    /// The average block time in milliseconds
    pub average_block_time: u64,
    /// The reward of the next block
    pub block_reward: u64,
    /// The supply that will never be exceeded
    pub maximum_supply: u64,
    /// The supply in circulation
    pub circulating_supply: u64,
}

/// The difficulty of the chain.
#[derive(Debug)]
pub struct ChainDifficulty {
    /// The network's hash rate, with its unit
    pub hashrate_formatted: String,
}

/// One report of the daemon.
#[derive(Debug)]
pub struct XelisStatsSnapshot {
    pub info: ChainInfo,
    pub difficulty: ChainDifficulty,
}

} // verus!
