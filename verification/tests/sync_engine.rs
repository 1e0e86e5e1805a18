//! End-to-end runs of the sync engine against a deterministic in-memory
//! chain source.

use pool_sync::database::MemoryDatabase;
use pool_sync::database::PoolDatabase;
use pool_sync::pool_sync::PoolSync;
use pool_sync::store::PoolMap;
use pool_sync::syncer::SimSyncer;
use pool_sync::syncer::Syncer;
use pool_sync::types::Address;
use pool_sync::types::Chain;
use pool_sync::types::FetcherConfig;
use pool_sync::types::Log;
use pool_sync::types::LogEvent;
use pool_sync::types::Pool;
use pool_sync::types::PoolSyncError;
use pool_sync::types::PoolState;
use pool_sync::types::PoolType;

const PAIR_CREATED_SIG: u64 = 0x0d36_48bd;

fn factory() -> Address {
    Address { hi: 0xfac, mid: 0, lo: 1 }
}

fn cfg_v2() -> FetcherConfig {
    FetcherConfig {
        pool_type: PoolType::UniswapV2,
        factory: factory(),
        creation_event_sig: PAIR_CREATED_SIG,
    }
}

fn addr(n: u32) -> Address {
    Address::from_low(n)
}

fn creation_log(block: u64, pool: Address) -> Log {
    Log {
        emitter: factory(),
        block_number: block,
        event_sig: PAIR_CREATED_SIG,
        event: LogEvent::PairCreated { pool },
    }
}

fn reserve_log(block: u64, pool: Address, reserve0: u128, reserve1: u128) -> Log {
    Log {
        emitter: pool,
        block_number: block,
        event_sig: 0x1c41_1e9a,
        event: LogEvent::ReserveSync { reserve0, reserve1 },
    }
}

fn v2_template(a: Address) -> Pool {
    Pool {
        address: a,
        pool_type: PoolType::UniswapV2,
        token0: addr(1000),
        token1: addr(1001),
        state: PoolState::V2 { reserve0: 0, reserve1: 0 },
    }
}

fn templates_for(addrs: &[Address]) -> PoolMap {
    let mut m = PoolMap::new();
    for a in addrs {
        m.upsert(v2_template(*a));
    }
    m
}

#[test]
fn scenario_single_pool_full_sync() {
    // chain head 100, no prior watermark, one creation at block 50 for A,
    // one reserve update for A at block 80
    let a = addr(7);
    let logs = vec![creation_log(50, a), reserve_log(80, a, 500, 900)];
    let syncer = SimSyncer::new(100, true, logs, templates_for(&[a]), Vec::new());
    let database = MemoryDatabase::new();
    let mut engine = PoolSync::new(vec![cfg_v2()], syncer, database, Chain::Ethereum);

    let (pools, reached) = engine.sync_pools().unwrap();
    assert_eq!(reached, 100);
    assert_eq!(pools.len(), 1);
    assert_eq!(pools[0].address, a);
    assert_eq!(pools[0].pool_type, PoolType::UniswapV2);
    assert_eq!(pools[0].state, PoolState::V2 { reserve0: 500, reserve1: 900 });

    // the pool and the watermark are durably persisted
    let wm = engine
        .database_ref()
        .get_last_processed_block(Chain::Ethereum, PoolType::UniswapV2)
        .unwrap();
    assert_eq!(wm, Some(100));
    let stored = engine
        .database_ref()
        .load_pools(Chain::Ethereum, None)
        .unwrap();
    assert_eq!(stored.len(), 1);
    assert_eq!(stored[0], pools[0]);
}

#[test]
fn builder_configures_engine() {
    let a = addr(9);
    let logs = vec![creation_log(3, a)];
    let syncer = SimSyncer::new(5, true, logs, templates_for(&[a]), Vec::new());
    let database = MemoryDatabase::new();
    let mut engine = PoolSync::<SimSyncer, MemoryDatabase>::builder()
        .add_pool(cfg_v2())
        .add_pool(cfg_v2())  // a repeated pool type keeps its first config
        .chain(Chain::Ethereum)
        .build(syncer, database);
    let (pools, reached) = engine.sync_pools().unwrap();
    assert_eq!(reached, 5);
    assert_eq!(pools.len(), 1);
    assert_eq!(pools[0].address, a);
}

#[test]
fn rerunning_a_synced_range_adds_no_duplicates() {
    let a = addr(11);
    let b = addr(12);
    let logs = vec![creation_log(10, a), creation_log(20, b), reserve_log(30, a, 1, 2)];
    let syncer = SimSyncer::new(40, true, logs, templates_for(&[a, b]), Vec::new());
    let database = MemoryDatabase::new();
    let mut engine = PoolSync::new(vec![cfg_v2()], syncer, database, Chain::Ethereum);

    let (first, _) = engine.sync_pools().unwrap();
    assert_eq!(first.len(), 2);
    let (second, reached) = engine.sync_pools().unwrap();
    assert_eq!(reached, 40);
    assert_eq!(second.len(), 2);
    let mut addrs: Vec<u32> = second.iter().map(|p| p.address.lo).collect();
    addrs.sort();
    assert_eq!(addrs, vec![11, 12]);
    // the store still holds exactly one record per address
    let stored = engine
        .database_ref()
        .load_pools(Chain::Ethereum, None)
        .unwrap();
    assert_eq!(stored.len(), 2);
}

#[test]
fn discovery_is_idempotent_over_a_fixed_range() {
    let a = addr(21);
    let b = addr(22);
    let logs = vec![creation_log(5, a), creation_log(7, b)];
    let syncer = SimSyncer::new(10, true, logs, templates_for(&[a, b]), Vec::new());
    let r1 = syncer.fetch_addresses(1, 10, &cfg_v2()).unwrap();
    let r2 = syncer.fetch_addresses(1, 10, &cfg_v2()).unwrap();
    assert_eq!(r1, r2);
    assert_eq!(r1.len(), 2);
}

#[test]
fn permanently_failing_chunk_is_dropped_not_fatal() {
    // discovery range 1..=25000 splits into three chunks; the middle one
    // (starting at 10001) fails permanently
    let a1 = addr(31);
    let a2 = addr(32);
    let a3 = addr(33);
    let logs = vec![
        creation_log(5_000, a1),
        creation_log(15_000, a2),
        creation_log(25_000, a3),
    ];
    let syncer = SimSyncer::new(
        25_000,
        true,
        logs,
        templates_for(&[a1, a2, a3]),
        vec![10_001],
    );
    let database = MemoryDatabase::new();
    let mut engine = PoolSync::new(vec![cfg_v2()], syncer, database, Chain::Ethereum);

    let (pools, reached) = engine.sync_pools().unwrap();
    assert_eq!(reached, 25_000);
    let mut addrs: Vec<u32> = pools.iter().map(|p| p.address.lo).collect();
    addrs.sort();
    // the failing chunk's address is missing; the run still completed
    assert_eq!(addrs, vec![31, 33]);
}

#[test]
fn watermark_never_regresses() {
    // the stored watermark is ahead of the head: nothing to do, nothing
    // moves backwards
    let mut database = MemoryDatabase::new();
    database
        .update_last_processed_block(Chain::Ethereum, PoolType::UniswapV2, 100)
        .unwrap();
    let syncer = SimSyncer::new(50, true, Vec::new(), PoolMap::new(), Vec::new());
    let mut engine = PoolSync::new(vec![cfg_v2()], syncer, database, Chain::Ethereum);
    let (pools, reached) = engine.sync_pools().unwrap();
    assert_eq!(reached, 50);
    assert_eq!(pools.len(), 0);
    let wm = engine
        .database_ref()
        .get_last_processed_block(Chain::Ethereum, PoolType::UniswapV2)
        .unwrap();
    assert_eq!(wm, Some(100));
}

#[test]
fn unreachable_head_is_fatal() {
    let syncer = SimSyncer::new(10, false, Vec::new(), PoolMap::new(), Vec::new());
    let database = MemoryDatabase::new();
    let mut engine = PoolSync::new(vec![cfg_v2()], syncer, database, Chain::Ethereum);
    let r = engine.sync_pools();
    assert!(matches!(r, Err(PoolSyncError::ProviderError(_))));
}
