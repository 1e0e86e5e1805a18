//! Unit checks for chunking, retry policy, event decoding, and the two
//! stores.

use pool_sync::database::MemoryDatabase;
use pool_sync::database::PoolDatabase;
use pool_sync::ranges::ADDRESS_CHUNK_SIZE;
use pool_sync::ranges::MAX_JITTER_MS;
use pool_sync::ranges::RETRY_LIMIT;
use pool_sync::ranges::chunk_ranges;
use pool_sync::ranges::retry_backoff;
use pool_sync::store::PoolMap;
use pool_sync::types::Address;
use pool_sync::types::Chain;
use pool_sync::types::FetcherConfig;
use pool_sync::types::Log;
use pool_sync::types::LogEvent;
use pool_sync::types::Pool;
use pool_sync::types::PoolState;
use pool_sync::types::PoolType;
use pool_sync::types::creation_address;

fn addr(n: u32) -> Address {
    Address::from_low(n)
}

fn pool(n: u32, reserve0: u128) -> Pool {
    Pool {
        address: addr(n),
        pool_type: PoolType::SushiSwapV2,
        token0: addr(800),
        token1: addr(801),
        state: PoolState::V2 { reserve0, reserve1: 0 },
    }
}

#[test]
fn chunks_partition_the_range_exactly() {
    let chunks = chunk_ranges(0, 25_000, 10_000);
    assert_eq!(chunks, vec![(0, 9_999), (10_000, 19_999), (20_000, 25_000)]);
    let single = chunk_ranges(5, 5, ADDRESS_CHUNK_SIZE);
    assert_eq!(single, vec![(5, 5)]);
    let exact = chunk_ranges(10, 29, 10);
    assert_eq!(exact, vec![(10, 19), (20, 29)]);
}

#[test]
fn retry_budget_is_enforced_with_bounded_jitter() {
    for failures in 0..RETRY_LIMIT {
        let decision = retry_backoff(failures);
        match decision {
            Some(pause) => assert!(pause <= MAX_JITTER_MS),
            None => panic!("retry denied inside the budget"),
        }
    }
    assert_eq!(retry_backoff(RETRY_LIMIT), None);
    assert_eq!(retry_backoff(RETRY_LIMIT + 1), None);
}

#[test]
fn creation_events_are_matched_on_factory_and_signature() {
    let cfg = FetcherConfig {
        pool_type: PoolType::UniswapV2,
        factory: addr(40),
        creation_event_sig: 9,
    };
    let good = Log {
        emitter: addr(40),
        block_number: 1,
        event_sig: 9,
        event: LogEvent::PairCreated { pool: addr(41) },
    };
    assert_eq!(creation_address(&good, &cfg), Some(addr(41)));
    let wrong_factory = Log { emitter: addr(99), ..good };
    assert_eq!(creation_address(&wrong_factory, &cfg), None);
    let wrong_sig = Log { event_sig: 8, ..good };
    assert_eq!(creation_address(&wrong_sig, &cfg), None);
    let wrong_event = Log {
        event: LogEvent::ReserveSync { reserve0: 1, reserve1: 1 },
        ..good
    };
    assert_eq!(creation_address(&wrong_event, &cfg), None);
}

#[test]
fn pool_map_upserts_by_address() {
    let mut m = PoolMap::new();
    assert_eq!(m.len(), 0);
    assert!(!m.contains(&addr(1)));
    m.upsert(pool(1, 10));
    m.upsert(pool(2, 20));
    assert_eq!(m.len(), 2);
    assert_eq!(m.get(&addr(1)).unwrap().state, PoolState::V2 { reserve0: 10, reserve1: 0 });
    // replacing keeps one record per address
    m.upsert(pool(1, 99));
    assert_eq!(m.len(), 2);
    assert_eq!(m.get(&addr(1)).unwrap().state, PoolState::V2 { reserve0: 99, reserve1: 0 });
    let v = m.to_vec();
    assert_eq!(v.len(), 2);
}

#[test]
fn memory_database_upserts_and_filters() {
    let mut db = MemoryDatabase::new();
    db.save_pools(&vec![pool(1, 1), pool(2, 2)], Chain::Ethereum).unwrap();
    db.save_pools(&vec![pool(1, 7)], Chain::Ethereum).unwrap();
    db.save_pools(&vec![pool(3, 3)], Chain::Base).unwrap();

    let eth = db.load_pools(Chain::Ethereum, None).unwrap();
    assert_eq!(eth.len(), 2);
    let base = db.load_pools(Chain::Base, None).unwrap();
    assert_eq!(base.len(), 1);

    let selected = db
        .load_pools(Chain::Ethereum, Some(&vec![PoolType::SushiSwapV2]))
        .unwrap();
    assert_eq!(selected.len(), 2);
    let none = db
        .load_pools(Chain::Ethereum, Some(&vec![PoolType::UniswapV3]))
        .unwrap();
    assert_eq!(none.len(), 0);

    // the later upsert won
    let one: Vec<Pool> = eth.into_iter().filter(|p| p.address == addr(1)).collect();
    assert_eq!(one[0].state, PoolState::V2 { reserve0: 7, reserve1: 0 });
}

#[test]
fn watermarks_are_kept_per_chain_and_type() {
    let mut db = MemoryDatabase::new();
    assert_eq!(
        db.get_last_processed_block(Chain::Ethereum, PoolType::UniswapV2).unwrap(),
        None
    );
    db.update_last_processed_block(Chain::Ethereum, PoolType::UniswapV2, 5).unwrap();
    db.update_last_processed_block(Chain::Ethereum, PoolType::UniswapV3, 9).unwrap();
    db.update_last_processed_block(Chain::Base, PoolType::UniswapV2, 3).unwrap();
    assert_eq!(
        db.get_last_processed_block(Chain::Ethereum, PoolType::UniswapV2).unwrap(),
        Some(5)
    );
    assert_eq!(
        db.get_last_processed_block(Chain::Ethereum, PoolType::UniswapV3).unwrap(),
        Some(9)
    );
    assert_eq!(
        db.get_last_processed_block(Chain::Base, PoolType::UniswapV2).unwrap(),
        Some(3)
    );
    db.update_last_processed_block(Chain::Ethereum, PoolType::UniswapV2, 8).unwrap();
    assert_eq!(
        db.get_last_processed_block(Chain::Ethereum, PoolType::UniswapV2).unwrap(),
        Some(8)
    );
}

#[test]
fn pool_type_families() {
    assert!(PoolType::UniswapV2.is_v2());
    assert!(PoolType::SushiSwapV2.is_v2());
    assert!(PoolType::UniswapV3.is_v3());
    assert!(PoolType::SushiSwapV3.is_v3());
    assert!(PoolType::BalancerV2.is_balancer());
    assert!(!PoolType::UniswapV2.is_v3());
    assert!(!PoolType::BalancerV2.is_v2());
}
