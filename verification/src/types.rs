//! The data model: chains, protocols, addresses, event logs, pools, and the
//! protocol-specific interpretation of liquidity-affecting logs.
//!
//! Values that on the chain are byte blobs (contract addresses, event
//! payloads) are held here as plain integers and tagged unions, so that every
//! rule about them can be stated and checked; an embedder converts between
//! these and its wire representation at the edge.

use vstd::prelude::*;

verus! {

/// The blockchain network a pool lives on.
#[derive(Clone, Copy, PartialEq, Eq, Structural, Debug)]
pub enum Chain {
    Ethereum,
    Base,
}

/// The DEX protocol/version a pool belongs to. Each pool type is classified
/// into a family that decides how its liquidity logs are interpreted:
/// constant-product pools carry absolute reserve snapshots, concentrated
/// liquidity pools carry liquidity deltas, and the rest are not interpreted
/// yet.
#[derive(Clone, Copy, PartialEq, Eq, Structural, Debug)]
pub enum PoolType {
    UniswapV2,
    SushiSwapV2,
    UniswapV3,
    SushiSwapV3,
    BalancerV2,
}

impl PoolType {
    /// True of constant-product (reserve snapshot) pool types.
    pub open spec fn spec_is_v2(self) -> bool {
        self == PoolType::UniswapV2 || self == PoolType::SushiSwapV2
    }

    /// True of concentrated-liquidity (tick/liquidity delta) pool types.
    pub open spec fn spec_is_v3(self) -> bool {
        self == PoolType::UniswapV3 || self == PoolType::SushiSwapV3
    }

    /// True of weighted-pool types, whose liquidity logs are not interpreted
    /// yet.
    pub open spec fn spec_is_balancer(self) -> bool {
        self == PoolType::BalancerV2
    }

    pub fn is_v2(&self) -> (r: bool)
        ensures
            r == self.spec_is_v2(),
    {
        matches!(self, PoolType::UniswapV2 | PoolType::SushiSwapV2)
    }

    pub fn is_v3(&self) -> (r: bool)
        ensures
            r == self.spec_is_v3(),
    {
        matches!(self, PoolType::UniswapV3 | PoolType::SushiSwapV3)
    }

    pub fn is_balancer(&self) -> (r: bool)
        ensures
            r == self.spec_is_balancer(),
    {
        matches!(self, PoolType::BalancerV2)
    }
}

/// A 20-byte contract address, held as three machine words (8 + 8 + 4
/// bytes, most significant first). Addresses are globally unique per chain.
#[derive(Clone, Copy, PartialEq, Eq, Structural, Debug)]
pub struct Address {
    pub hi: u64,
    pub mid: u64,
    pub lo: u32,
}

impl Address {
    /// A short-hand for addresses whose upper words are zero, convenient for
    /// small fixtures.
    pub fn from_low(lo: u32) -> (a: Address)
        ensures
            a == (Address { hi: 0, mid: 0, lo }),
    {
        Address { hi: 0, mid: 0, lo }
    }
}

/// The decoded payload of an event log.
#[derive(Clone, Copy, PartialEq, Eq, Structural, Debug)]
pub enum LogEvent {
    /// A factory announces a newly created pool contract.
    PairCreated { pool: Address },
    /// A constant-product pool reports its full reserves after a trade.
    ReserveSync { reserve0: u128, reserve1: u128 },
    /// A concentrated-liquidity pool reports its in-range liquidity: the
    /// absolute value after the event, and the signed change it applied.
    LiquidityUpdate { liquidity: u128, delta: i128 },
    /// Anything this engine does not interpret.
    Other,
}

/// One event log, already decoded from its wire form.
#[derive(Clone, Copy, PartialEq, Eq, Structural, Debug)]
pub struct Log {
    /// The contract that emitted the log.
    pub emitter: Address,
    /// The block the log was included in.
    pub block_number: u64,
    /// The event signature topic, as a fingerprint word.
    pub event_sig: u64,
    /// The decoded payload.
    pub event: LogEvent,
}

/// The mutable, protocol-specific part of a pool record.
#[derive(Clone, Copy, PartialEq, Eq, Structural, Debug)]
pub enum PoolState {
    V2 { reserve0: u128, reserve1: u128 },
    V3 { liquidity: u128 },
    Other,
}

/// A materialized record of one on-chain liquidity venue.
#[derive(Clone, Copy, PartialEq, Eq, Structural, Debug)]
pub struct Pool {
    /// The pool contract's address; immutable once the pool is created.
    pub address: Address,
    /// The protocol the pool belongs to; decides log interpretation.
    pub pool_type: PoolType,
    pub token0: Address,
    pub token1: Address,
    /// The tradable state, valid as of the block the pool was last synced to.
    pub state: PoolState,
}

impl Pool {
    /// A pool is well formed when its state variant agrees with its
    /// protocol family.
    pub open spec fn wf(self) -> bool {
        &&& self.pool_type.spec_is_v2() ==> self.state is V2
        &&& self.pool_type.spec_is_v3() ==> self.state is V3
        &&& self.pool_type.spec_is_balancer() ==> self.state is Other
    }
}

/// The per-protocol capability bundle: everything the engine needs to know
/// about one pool type in order to discover its pools. One such record is
/// registered per pool type; all remaining protocol knowledge is the log
/// interpretation dispatched on the pool-type family.
#[derive(Clone, Copy, PartialEq, Eq, Structural, Debug)]
pub struct FetcherConfig {
    pub pool_type: PoolType,
    /// The factory contract whose creation events announce new pools.
    pub factory: Address,
    /// The signature topic of the creation event.
    pub creation_event_sig: u64,
}

/// Why a sync run failed. Chunk-level fetch failures are absorbed by the
/// retry/drop policy and never surface here; these are the fatal kinds.
#[derive(Clone, Debug)]
pub enum PoolSyncError {
    /// No RPC endpoint was configured.
    EndpointNotSet,
    /// The configured RPC endpoint could not be parsed.
    ParseEndpointError,
    /// The chain data source failed fatally, e.g. the head-height query.
    ProviderError(String),
    /// The pool store failed to load or persist state.
    DatabaseError(String),
}

/// Whether `l` is a pool-creation event of the factory described by `cfg`.
pub open spec fn is_creation_log(l: Log, cfg: FetcherConfig) -> bool {
    l.emitter == cfg.factory && l.event_sig == cfg.creation_event_sig && l.event is PairCreated
}

/// The pool address a creation log announces.
pub open spec fn spec_created_address(l: Log) -> Address {
    l.event->PairCreated_pool
}

/// Extracts the announced pool address from a log, if it is a creation
/// event of the factory described by `cfg`.
pub fn creation_address(l: &Log, cfg: &FetcherConfig) -> (r: Option<Address>)
    ensures
        r is Some <==> is_creation_log(*l, *cfg),
        r is Some ==> r->0 == spec_created_address(*l),
{
    if l.emitter == cfg.factory && l.event_sig == cfg.creation_event_sig {
        match l.event {
            LogEvent::PairCreated { pool } => Some(pool),
            _ => None,
        }
    } else {
        None
    }
}

/// `cur` moved by `delta`, clamped to the `u128` range.
pub open spec fn spec_saturating_add_delta(cur: u128, delta: i128) -> u128 {
    if cur + delta > u128::MAX {
        u128::MAX
    } else if cur + delta < 0 {
        0u128
    } else {
        (cur + delta) as u128
    }
}

/// Applies a signed liquidity delta to an unsigned liquidity value,
/// saturating at both ends of the `u128` range.
pub fn saturating_add_delta(cur: u128, delta: i128) -> (r: u128)
    ensures
        r == spec_saturating_add_delta(cur, delta),
{
    if delta >= 0 {
        let d = delta as u128;
        if cur <= u128::MAX - d {
            cur + d
        } else {
            u128::MAX
        }
    } else {
        // -delta computed without overflowing i128::MIN
        let d = (-(delta + 1)) as u128 + 1;
        assert(d == -(delta as int));
        if cur >= d {
            cur - d
        } else {
            0
        }
    }
}

/// How one liquidity-relevant log changes one pool's state.
///
/// The interpretation is dispatched on the pool-type family:
/// - constant-product pools take the reserve snapshot as absolute values,
///   whether or not this is an initial replay;
/// - concentrated-liquidity pools take the absolute liquidity during an
///   initial (genesis-style) replay and apply the signed delta during an
///   incremental update;
/// - weighted pools are not interpreted yet;
/// - a payload that does not fit the pool's family leaves the pool unchanged.
///
/// The pool's address, type and tokens never change.
pub open spec fn spec_apply_log(p: Pool, l: Log, initial: bool) -> Pool {
    if p.pool_type.spec_is_v2() {
        match l.event {
            LogEvent::ReserveSync { reserve0, reserve1 } => Pool {
                state: PoolState::V2 { reserve0, reserve1 },
                ..p
            },
            _ => p,
        }
    } else if p.pool_type.spec_is_v3() {
        match l.event {
            LogEvent::LiquidityUpdate { liquidity, delta } => {
                if initial {
                    Pool { state: PoolState::V3 { liquidity }, ..p }
                } else {
                    match p.state {
                        PoolState::V3 { liquidity: cur } => Pool {
                            state: PoolState::V3 {
                                liquidity: spec_saturating_add_delta(cur, delta),
                            },
                            ..p
                        },
                        _ => p,
                    }
                }
            },
            _ => p,
        }
    } else {
        p
    }
}

/// Applies one liquidity-relevant log to a pool; see [`spec_apply_log`].
pub fn apply_log(p: Pool, l: &Log, initial: bool) -> (r: Pool)
    ensures
        r == spec_apply_log(p, *l, initial),
{
    if p.pool_type.is_v2() {
        match l.event {
            LogEvent::ReserveSync { reserve0, reserve1 } => Pool {
                state: PoolState::V2 { reserve0, reserve1 },
                ..p
            },
            _ => p,
        }
    } else if p.pool_type.is_v3() {
        match l.event {
            LogEvent::LiquidityUpdate { liquidity, delta } => {
                if initial {
                    Pool { state: PoolState::V3 { liquidity }, ..p }
                } else {
                    match p.state {
                        PoolState::V3 { liquidity: cur } => Pool {
                            state: PoolState::V3 {
                                liquidity: saturating_add_delta(cur, delta),
                            },
                            ..p
                        },
                        _ => p,
                    }
                }
            },
            _ => p,
        }
    } else {
        p
    }
}

/// Checks at run time that a pool's state variant agrees with its
/// protocol family.
pub fn check_wf(p: &Pool) -> (r: bool)
    ensures
        r == p.wf(),
{
    if p.pool_type.is_v2() {
        matches!(p.state, PoolState::V2 { .. })
    } else if p.pool_type.is_v3() {
        matches!(p.state, PoolState::V3 { .. })
    } else {
        matches!(p.state, PoolState::Other)
    }
}

/// Applying a log changes at most the pool's state: address, type and
/// tokens are kept, and well-formedness is preserved.
pub proof fn lemma_apply_log_frame(p: Pool, l: Log, initial: bool)
    ensures
        spec_apply_log(p, l, initial).address == p.address,
        spec_apply_log(p, l, initial).pool_type == p.pool_type,
        spec_apply_log(p, l, initial).token0 == p.token0,
        spec_apply_log(p, l, initial).token1 == p.token1,
        p.wf() ==> spec_apply_log(p, l, initial).wf(),
{
}

} // verus!
