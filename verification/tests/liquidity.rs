//! Chronological log application, backfill semantics, and the
//! protocol-specific log interpretation.

use pool_sync::database::MemoryDatabase;
use pool_sync::database::PoolDatabase;
use pool_sync::logs::collect_blocks;
use pool_sync::logs::logs_in_range;
use pool_sync::logs::update_liquidity;
use pool_sync::pool_sync::PoolSync;
use pool_sync::store::PoolMap;
use pool_sync::syncer::SimSyncer;
use pool_sync::types::Address;
use pool_sync::types::Chain;
use pool_sync::types::FetcherConfig;
use pool_sync::types::Log;
use pool_sync::types::LogEvent;
use pool_sync::types::Pool;
use pool_sync::types::PoolState;
use pool_sync::types::PoolType;
use pool_sync::types::apply_log;
use pool_sync::types::saturating_add_delta;

const SIG: u64 = 77;

fn addr(n: u32) -> Address {
    Address::from_low(n)
}

fn v2_pool(a: Address) -> Pool {
    Pool {
        address: a,
        pool_type: PoolType::UniswapV2,
        token0: addr(900),
        token1: addr(901),
        state: PoolState::V2 { reserve0: 0, reserve1: 0 },
    }
}

fn v3_pool(a: Address) -> Pool {
    Pool {
        address: a,
        pool_type: PoolType::UniswapV3,
        token0: addr(900),
        token1: addr(901),
        state: PoolState::V3 { liquidity: 0 },
    }
}

fn reserve_log(block: u64, pool: Address, reserve0: u128, reserve1: u128) -> Log {
    Log {
        emitter: pool,
        block_number: block,
        event_sig: SIG,
        event: LogEvent::ReserveSync { reserve0, reserve1 },
    }
}

fn liquidity_log(block: u64, pool: Address, liquidity: u128, delta: i128) -> Log {
    Log {
        emitter: pool,
        block_number: block,
        event_sig: SIG,
        event: LogEvent::LiquidityUpdate { liquidity, delta },
    }
}

#[test]
fn logs_are_applied_in_block_order_not_delivery_order() {
    // the source returns the block-10 log before the block-9 log; the
    // block-9 state must be overwritten by the block-10 state
    let a = addr(5);
    let source = vec![reserve_log(10, a, 10, 10), reserve_log(9, a, 9, 9)];
    let mut pools = PoolMap::new();
    pools.upsert(v2_pool(a));
    let touched = update_liquidity(&mut pools, &source, 0, 20, false);
    assert_eq!(touched, vec![a]);
    let p = pools.get(&a).unwrap();
    assert_eq!(p.state, PoolState::V2 { reserve0: 10, reserve1: 10 });
}

#[test]
fn logs_in_one_block_keep_delivery_order() {
    let a = addr(6);
    let source = vec![reserve_log(4, a, 1, 1), reserve_log(4, a, 2, 2)];
    let mut pools = PoolMap::new();
    pools.upsert(v2_pool(a));
    update_liquidity(&mut pools, &source, 0, 4, false);
    let p = pools.get(&a).unwrap();
    assert_eq!(p.state, PoolState::V2 { reserve0: 2, reserve1: 2 });
}

#[test]
fn logs_outside_the_range_are_not_applied() {
    let a = addr(7);
    let source = vec![reserve_log(3, a, 3, 3), reserve_log(8, a, 8, 8)];
    let mut pools = PoolMap::new();
    pools.upsert(v2_pool(a));
    let touched = update_liquidity(&mut pools, &source, 4, 9, false);
    assert_eq!(touched.len(), 1);
    let p = pools.get(&a).unwrap();
    assert_eq!(p.state, PoolState::V2 { reserve0: 8, reserve1: 8 });
}

#[test]
fn untracked_addresses_are_ignored() {
    let a = addr(8);
    let other = addr(9);
    let source = vec![reserve_log(2, other, 5, 5)];
    let mut pools = PoolMap::new();
    pools.upsert(v2_pool(a));
    let touched = update_liquidity(&mut pools, &source, 0, 10, false);
    assert_eq!(touched.len(), 0);
    let p = pools.get(&a).unwrap();
    assert_eq!(p.state, PoolState::V2 { reserve0: 0, reserve1: 0 });
}

#[test]
fn backfill_of_new_pool_covers_genesis_through_watermark() {
    // watermark 50 already recorded; a pool created at block 60 has one
    // liquidity event at block 30 (covered by the backfill, read as an
    // absolute value) and one at block 80 (covered by the update, read as
    // a delta)
    let a = addr(14);
    let factory = addr(500);
    let cfg = FetcherConfig {
        pool_type: PoolType::UniswapV3,
        factory,
        creation_event_sig: SIG,
    };
    let creation = Log {
        emitter: factory,
        block_number: 60,
        event_sig: SIG,
        event: LogEvent::PairCreated { pool: a },
    };
    let logs = vec![creation, liquidity_log(30, a, 77, 77), liquidity_log(80, a, 70, -7)];
    let mut templates = PoolMap::new();
    templates.upsert(v3_pool(a));
    let syncer = SimSyncer::new(100, true, logs, templates, Vec::new());
    let mut database = MemoryDatabase::new();
    database
        .update_last_processed_block(Chain::Ethereum, PoolType::UniswapV3, 50)
        .unwrap();
    let mut engine = PoolSync::new(vec![cfg], syncer, database, Chain::Ethereum);

    let (pools, reached) = engine.sync_pools().unwrap();
    assert_eq!(reached, 100);
    assert_eq!(pools.len(), 1);
    // backfill set 77 absolutely, the update applied the -7 delta
    assert_eq!(pools[0].state, PoolState::V3 { liquidity: 70 });
    let wm = engine
        .database_ref()
        .get_last_processed_block(Chain::Ethereum, PoolType::UniswapV3)
        .unwrap();
    assert_eq!(wm, Some(100));
}

#[test]
fn initial_replay_takes_liquidity_as_absolute() {
    let a = addr(15);
    let p = v3_pool(a);
    let l = liquidity_log(1, a, 123, 5);
    let initial = apply_log(p, &l, true);
    assert_eq!(initial.state, PoolState::V3 { liquidity: 123 });
    let incremental = apply_log(p, &l, false);
    assert_eq!(incremental.state, PoolState::V3 { liquidity: 5 });
}

#[test]
fn mismatched_payloads_leave_the_pool_unchanged() {
    let a = addr(16);
    let v2 = v2_pool(a);
    let l = liquidity_log(1, a, 9, 9);
    assert_eq!(apply_log(v2, &l, false), v2);
    let balancer = Pool {
        address: a,
        pool_type: PoolType::BalancerV2,
        token0: addr(900),
        token1: addr(901),
        state: PoolState::Other,
    };
    let r = reserve_log(1, a, 4, 4);
    assert_eq!(apply_log(balancer, &r, false), balancer);
}

#[test]
fn saturating_delta_clamps_at_both_ends() {
    assert_eq!(saturating_add_delta(10, -20), 0);
    assert_eq!(saturating_add_delta(u128::MAX - 1, 5), u128::MAX);
    assert_eq!(saturating_add_delta(10, 5), 15);
    assert_eq!(saturating_add_delta(10, i128::MIN), 0);
}

#[test]
fn range_restriction_and_block_collection() {
    let a = addr(17);
    let source = vec![reserve_log(5, a, 1, 1), reserve_log(2, a, 2, 2), reserve_log(5, a, 3, 3)];
    let in_range = logs_in_range(&source, 2, 5);
    assert_eq!(in_range.len(), 3);
    let narrowed = logs_in_range(&source, 3, 4);
    assert_eq!(narrowed.len(), 0);
    let blocks = collect_blocks(&in_range);
    assert_eq!(blocks, vec![2, 5]);
}
