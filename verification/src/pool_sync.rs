//! The synchronization engine.
//!
//! [`PoolSync`] drives round-robin synchronization across the registered
//! protocols until every protocol's watermark reaches the chain head. One
//! pass over one protocol discovers new pool addresses behind the head,
//! builds and backfills the new pools, applies the remaining liquidity
//! history to every tracked pool, persists what changed, and advances the
//! watermark.
//!
//! A watermark of `w` means blocks `0..=w` are fully processed; an absent
//! watermark reads as 0. A pass over a protocol whose watermark `w` lies
//! behind the head `h` discovers addresses in `w+1..=h`, backfills new
//! pools over `0..=w` as an initial replay, and updates liquidity for all
//! pools over `w+1..=h`: the backfill and the update partition `0..=h`
//! with no block skipped and none applied twice. (A watermark of 0 makes
//! the backfill cover only the genesis block, which carries no pool
//! events.)

use vstd::prelude::*;

use crate::database::PoolDatabase;
use crate::database::lemma_upsert_frame_step;
use crate::database::lemma_upsert_keeps_key;
use crate::database::lemma_upsert_pools_map;
use crate::database::saved_key;
use crate::logs::fold_range_at;
use crate::logs::is_discovered;
use crate::logs::lemma_fold_range_at_frame;
use crate::logs::lemma_fold_range_no_logs;
use crate::logs::lemma_fold_range_split;
use crate::store::PoolMap;
use crate::syncer::Syncer;
use crate::types::Address;
use crate::types::Chain;
use crate::types::FetcherConfig;
use crate::types::Log;
use crate::types::Pool;
use crate::types::PoolSyncError;
use crate::types::PoolType;
use crate::types::is_creation_log;
use crate::types::spec_created_address;

verus! {

/// `p` advanced by the incremental update range `last_block+1 ..=
/// current_block`.
pub open spec fn advanced(
    a: Address,
    p: Pool,
    src: Seq<Log>,
    last_block: u64,
    current_block: u64,
) -> Pool {
    fold_range_at(a, p, src, last_block + 1, current_block as int, false)
}

/// `p` backfilled by the initial replay range `0 ..= last_block`.
pub open spec fn backfilled(a: Address, p: Pool, src: Seq<Log>, last_block: u64) -> Pool {
    fold_range_at(a, p, src, 0, last_block as int, true)
}


/// Whether some creation event of the factory described by `cfg` announces
/// pool address `a`, anywhere in the history.
pub open spec fn announces(src: Seq<Log>, cfg: FetcherConfig, a: Address) -> bool {
    exists|i: int|
        0 <= i < src.len() && is_creation_log(#[trigger] src[i], cfg) && spec_created_address(
            src[i],
        ) == a
}

/// The chain-level uniqueness assumption of the data model: a pool address
/// is announced by at most one registered factory, and an announced
/// address that is already stored is stored under that factory's pool
/// type. Pool addresses are globally unique per chain, so a well-formed
/// history and store satisfy this.
pub open spec fn addresses_consistent<S: Syncer, D: PoolDatabase>(
    syncer: S,
    db: D,
    fetchers: Seq<FetcherConfig>,
    chain: Chain,
) -> bool {
    &&& forall|i: int, j: int, a: Address|
        0 <= i < fetchers.len() && 0 <= j < fetchers.len() && i != j && #[trigger] announces(
            syncer.source(),
            fetchers[i],
            a,
        ) ==> !(#[trigger] announces(syncer.source(), fetchers[j], a))
    &&& forall|i: int, a: Address|
        0 <= i < fetchers.len() && #[trigger] announces(syncer.source(), fetchers[i], a)
            && db.pools().dom().contains((chain, a)) ==> db.pools()[(chain, a)].pool_type
            == fetchers[i].pool_type
}

/// Whether the registry holds pairwise-distinct pool types.
pub open spec fn distinct_pool_types(s: Seq<FetcherConfig>) -> bool {
    forall|i: int, j: int|
        0 <= i < j < s.len() ==> (#[trigger] s[i]).pool_type != (#[trigger] s[j]).pool_type
}

/// Whether `t` is one of the registered pool types.
pub open spec fn registered(fetchers: Seq<FetcherConfig>, t: PoolType) -> bool {
    exists|i: int| 0 <= i < fetchers.len() && (#[trigger] fetchers[i]).pool_type == t
}

/// Whether the store holds `p` for `chain` under its own address.
pub open spec fn pool_stored<D: PoolDatabase>(db: D, chain: Chain, p: Pool) -> bool {
    db.pools().dom().contains((chain, p.address)) && db.pools()[(chain, p.address)] == p
}

/// Whether the store holds a pool of type `t` for `chain` at address `a`.
pub open spec fn stored_of_type<D: PoolDatabase>(db: D, chain: Chain, t: PoolType, a: Address) -> bool {
    db.pools().dom().contains((chain, a)) && db.pools()[(chain, a)].pool_type == t
}

/// Whether key `k` is stored after but not before: a freshly added record.
pub open spec fn db_dom_new<D: PoolDatabase>(db_before: D, db_after: D, k: (Chain, Address)) -> bool {
    db_after.pools().dom().contains(k) && !db_before.pools().dom().contains(k)
}

/// Watermark monotonicity at one key: a recorded watermark stays recorded
/// and never decreases.
pub open spec fn wm_monotone<D: PoolDatabase>(db_before: D, db_after: D, k: (Chain, PoolType)) -> bool {
    db_before.watermarks().dom().contains(k) ==> db_after.watermarks().dom().contains(k)
        && db_before.watermarks()[k] <= db_after.watermarks()[k]
}

/// The watermark recorded for pool type `t` on `chain`, read as 0 when
/// none is recorded.
pub open spec fn wm_of<D: PoolDatabase>(db: D, chain: Chain, t: PoolType) -> u64 {
    if db.watermarks().dom().contains((chain, t)) {
        db.watermarks()[(chain, t)]
    } else {
        0
    }
}

/// Whether the protocol behind key `k` had blocks left to process below
/// head `h`.
pub open spec fn wm_behind<D: PoolDatabase>(db: D, k: (Chain, PoolType), h: u64) -> bool {
    if db.watermarks().dom().contains(k) {
        db.watermarks()[k] < h
    } else {
        h > 0
    }
}

/// What a finished run guarantees for the watermark at key `k`: a protocol
/// that was behind head `h` is now recorded exactly at `h`; one that was
/// not is untouched.
pub open spec fn wm_caught_up<D: PoolDatabase>(db_before: D, db_after: D, k: (Chain, PoolType), h: u64) -> bool {
    &&& wm_behind(db_before, k, h) ==> db_after.watermarks().dom().contains(k)
        && db_after.watermarks()[k] == h
    &&& !wm_behind(db_before, k, h) ==> (db_after.watermarks().dom().contains(k)
        <==> db_before.watermarks().dom().contains(k)) && (db_before.watermarks().dom().contains(
        k,
    ) ==> db_after.watermarks()[k] == db_before.watermarks()[k])
}

/// Whether the in-memory watermark `wm` mirrors the stored one: equal when
/// one is recorded, zero when none is.
pub open spec fn wm_mirror<D: PoolDatabase>(db: D, k: (Chain, PoolType), wm: u64) -> bool {
    &&& db.watermarks().dom().contains(k) ==> db.watermarks()[k] == wm
    &&& !db.watermarks().dom().contains(k) ==> wm == 0
}

/// Whether working set `m` for `cfg` mirrors the store: every tracked pool
/// is keyed by its own address, carries the registry's pool type, and is
/// stored exactly as tracked.
pub open spec fn map_mirror<D: PoolDatabase>(
    db: D,
    chain: Chain,
    cfg: FetcherConfig,
    m: Map<Address, Pool>,
) -> bool {
    forall|a: Address|
        #[trigger] m.dom().contains(a) ==> m[a].address == a && m[a].pool_type == cfg.pool_type
            && pool_stored(db, chain, m[a])
}

/// Whether every stored pool of type `t` is tracked by `m`.
pub open spec fn stored_complete<D: PoolDatabase>(
    db: D,
    chain: Chain,
    t: PoolType,
    m: Map<Address, Pool>,
) -> bool {
    forall|a: Address| #[trigger] stored_of_type(db, chain, t, a) ==> m.dom().contains(a)
}

/// Whether the result vector holds a pool filed under address `a`.
pub open spec fn result_has_address(pools: Seq<Pool>, a: Address) -> bool {
    exists|j: int| 0 <= j < pools.len() && (#[trigger] pools[j]).address == a
}

/// Whether any of the working sets tracks address `a`.
pub open spec fn in_some_working_set(loaded: Seq<PoolMap>, a: Address) -> bool {
    exists|j: int| 0 <= j < loaded.len() && (#[trigger] loaded[j])@.dom().contains(a)
}

/// A working set that has not been synced yet: it tracks exactly the
/// pools the store held for its type at the start of the run, each with
/// its stored value.
pub open spec fn slot_unprocessed<D: PoolDatabase>(
    db_init: D,
    chain: Chain,
    t: PoolType,
    m: Map<Address, Pool>,
) -> bool {
    &&& forall|a: Address|
        #[trigger] m.dom().contains(a) <==> stored_of_type(db_init, chain, t, a)
    &&& forall|a: Address| #[trigger] m.dom().contains(a) ==> m[a] == db_init.pools()[(chain, a)]
}

/// A working set that has completed its pass to `head`: pools the store
/// held at the start carry their stored value advanced over
/// `init_wm+1..=head`, and every other tracked pool was discovered in that
/// range, successfully built, and carries the update applied to its
/// backfilled build.
pub open spec fn slot_processed<S: Syncer, D: PoolDatabase>(
    syncer: S,
    db_init: D,
    chain: Chain,
    cfg: FetcherConfig,
    m: Map<Address, Pool>,
    init_wm: u64,
    head: u64,
) -> bool {
    forall|a: Address|
        #[trigger] m.dom().contains(a) ==> {
            if stored_of_type(db_init, chain, cfg.pool_type, a) {
                m[a] == advanced(a, db_init.pools()[(chain, a)], syncer.source(), init_wm, head)
            } else {
                &&& init_wm < head
                &&& is_discovered(syncer.source(), cfg, (init_wm + 1) as u64, head, a)
                &&& syncer.built(a, cfg.pool_type, head) is Some
                &&& m[a] == advanced(
                    a,
                    backfilled(
                        a,
                        syncer.built(a, cfg.pool_type, head)->0,
                        syncer.source(),
                        init_wm,
                    ),
                    syncer.source(),
                    init_wm,
                    head,
                )
            }
        }
}

/// What one returned pool is worth. A pool the store already held (under
/// its address on this chain) is that stored record advanced over
/// `w+1..=head` against the source when its type's watermark `w` was
/// behind the head, and unchanged otherwise. Any other returned pool was
/// freshly discovered in its registered type's `w+1..=head`, successfully
/// built, and carries the update range applied to its backfilled build.
pub open spec fn returned_pool_ok<S: Syncer, D: PoolDatabase>(
    syncer: S,
    db_before: D,
    fetchers: Seq<FetcherConfig>,
    chain: Chain,
    head: u64,
    p: Pool,
) -> bool {
    if db_before.pools().dom().contains((chain, p.address)) {
        let p0 = db_before.pools()[(chain, p.address)];
        let w = wm_of(db_before, chain, p0.pool_type);
        p == if w < head {
            advanced(p.address, p0, syncer.source(), w, head)
        } else {
            p0
        }
    } else {
        exists|i: int|
            0 <= i < fetchers.len() && (#[trigger] fetchers[i]).pool_type == p.pool_type && {
                let w = wm_of(db_before, chain, fetchers[i].pool_type);
                &&& w < head
                &&& is_discovered(syncer.source(), fetchers[i], (w + 1) as u64, head, p.address)
                &&& syncer.built(p.address, fetchers[i].pool_type, head) is Some
                &&& p == advanced(
                    p.address,
                    backfilled(
                        p.address,
                        syncer.built(p.address, fetchers[i].pool_type, head)->0,
                        syncer.source(),
                        w,
                    ),
                    syncer.source(),
                    w,
                    head,
                )
            }
    }
}

/// What a successful `sync_pools` run returns and leaves behind: the block
/// reached is the head; every registered protocol's watermark caught up to
/// it; the returned pools have pairwise-distinct addresses, carry
/// registered types, and each is durably stored exactly as returned; every
/// pool that was stored under a registered type before the run is in the
/// result; each returned pool's value is pinned to the event history by
/// [`returned_pool_ok`]; and the store changed only at returned addresses
/// on this chain.
pub open spec fn sync_post<S: Syncer, D: PoolDatabase>(
    syncer: S,
    db_before: D,
    db_after: D,
    fetchers: Seq<FetcherConfig>,
    chain: Chain,
    pools: Seq<Pool>,
    head: u64,
) -> bool {
    &&& head == syncer.head()
    &&& forall|i: int|
        0 <= i < fetchers.len() ==> #[trigger] wm_caught_up(
            db_before,
            db_after,
            (chain, fetchers[i].pool_type),
            head,
        )
    &&& crate::store::distinct_addresses(pools)
    &&& forall|j: int|
        0 <= j < pools.len() ==> #[trigger] pool_stored(db_after, chain, pools[j]) && registered(
            fetchers,
            pools[j].pool_type,
        )
    &&& forall|a: Address, t: PoolType|
        #[trigger] stored_of_type(db_before, chain, t, a) && registered(fetchers, t) ==> exists|
            j: int,
        | 0 <= j < pools.len() && (#[trigger] pools[j]).address == a
    &&& forall|j: int|
        0 <= j < pools.len() ==> #[trigger] returned_pool_ok(
            syncer,
            db_before,
            fetchers,
            chain,
            head,
            pools[j],
        )
    &&& forall|c: Chain, a2: Address|
        !(c == chain && result_has_address(pools, a2)) ==> #[trigger] db_key_unchanged(
            db_before,
            db_after,
            (c, a2),
        )
}

/// Whether the store holds key `k` exactly as it did before: present in
/// neither or in both states, with an unchanged record.
pub open spec fn db_key_unchanged<D: PoolDatabase>(
    db_before: D,
    db_after: D,
    k: (Chain, Address),
) -> bool {
    &&& db_after.pools().dom().contains(k) <==> db_before.pools().dom().contains(k)
    &&& db_before.pools().dom().contains(k) ==> db_after.pools()[k] == db_before.pools()[k]
}

/// Whether a key the store held before is still held: the store never
/// deletes a pool.
pub open spec fn db_key_kept<D: PoolDatabase>(
    db_before: D,
    db_after: D,
    k: (Chain, Address),
) -> bool {
    db_before.pools().dom().contains(k) ==> db_after.pools().dom().contains(k)
}

/// What a completed merge of freshly built pools guarantees: previously
/// tracked pools are untouched, every addition was discovered in the pass
/// range and successfully built, additions carry their backfilled state,
/// and the store mirrors the working set.
pub open spec fn build_post<S: Syncer, D: PoolDatabase>(
    syncer: S,
    db_before: D,
    db_after: D,
    pools_before: Map<Address, Pool>,
    pools_after: Map<Address, Pool>,
    cfg: FetcherConfig,
    last_block: u64,
    current_block: u64,
    chain: Chain,
) -> bool {
    &&& forall|a: Address|
        #[trigger] pools_before.dom().contains(a) ==> pools_after.dom().contains(a)
            && pools_after[a] == pools_before[a]
    &&& forall|a: Address|
        #[trigger] pools_after.dom().contains(a) && !pools_before.dom().contains(a) ==> {
            &&& is_discovered(syncer.source(), cfg, (last_block + 1) as u64, current_block, a)
            &&& syncer.built(a, cfg.pool_type, current_block) is Some
            &&& pools_after[a] == backfilled(
                a,
                syncer.built(a, cfg.pool_type, current_block)->0,
                syncer.source(),
                last_block,
            )
            &&& pools_after[a].address == a
            &&& pools_after[a].pool_type == cfg.pool_type
        }
    &&& forall|a: Address|
        #[trigger] pools_after.dom().contains(a) ==> db_after.pools().dom().contains((chain, a))
            && db_after.pools()[(chain, a)] == pools_after[a]
    &&& forall|c: Chain, a2: Address|
        !(c == chain && (pools_before.dom().contains(a2) || is_discovered(
            syncer.source(),
            cfg,
            (last_block + 1) as u64,
            current_block,
            a2,
        ))) ==> #[trigger] db_key_unchanged(db_before, db_after, (c, a2))
    &&& forall|c: Chain, a2: Address|
        !(c == chain && pools_after.dom().contains(a2)) ==> #[trigger] db_key_unchanged(
            db_before,
            db_after,
            (c, a2),
        )
}

/// What a completed pass over one pool type guarantees: the working set
/// kept every pool and gained only discovered, built ones; old pools were
/// advanced over the update range and new pools were backfilled and then
/// advanced; everything tracked is persisted; and the watermark moved to
/// the head, touching nothing else.
pub open spec fn pass_post<S: Syncer, D: PoolDatabase>(
    syncer: S,
    db_before: D,
    db_after: D,
    pools_before: Map<Address, Pool>,
    pools_after: Map<Address, Pool>,
    cfg: FetcherConfig,
    last_block: u64,
    current_block: u64,
    chain: Chain,
) -> bool {
    &&& forall|a: Address|
        #[trigger] pools_before.dom().contains(a) ==> pools_after.dom().contains(a)
    &&& forall|a: Address|
        #[trigger] pools_after.dom().contains(a) && !pools_before.dom().contains(a)
            ==> is_discovered(syncer.source(), cfg, (last_block + 1) as u64, current_block, a)
            && syncer.built(a, cfg.pool_type, current_block) is Some
    &&& forall|a: Address|
        #[trigger] pools_before.dom().contains(a) ==> pools_after[a] == advanced(
            a,
            pools_before[a],
            syncer.source(),
            last_block,
            current_block,
        )
    &&& forall|a: Address|
        #[trigger] pools_after.dom().contains(a) && !pools_before.dom().contains(a)
            ==> pools_after[a] == advanced(
            a,
            backfilled(
                a,
                syncer.built(a, cfg.pool_type, current_block)->0,
                syncer.source(),
                last_block,
            ),
            syncer.source(),
            last_block,
            current_block,
        )
    &&& forall|a: Address|
        #[trigger] pools_after.dom().contains(a) ==> pools_after[a].address == a
            && pools_after[a].pool_type == cfg.pool_type
    &&& forall|a: Address|
        #[trigger] pools_after.dom().contains(a) ==> db_after.pools().dom().contains((chain, a))
            && db_after.pools()[(chain, a)] == pools_after[a]
    &&& forall|c: Chain, a2: Address|
        #[trigger] db_dom_new(db_before, db_after, (c, a2)) ==> c == chain
            && pools_after.dom().contains(a2)
    &&& forall|c: Chain, a2: Address|
        !(c == chain && pools_after.dom().contains(a2)) ==> #[trigger] db_key_unchanged(
            db_before,
            db_after,
            (c, a2),
        )
    &&& db_after.watermarks() == db_before.watermarks().insert(
        (chain, cfg.pool_type),
        current_block,
    )
}

/// Synchronizes one pool type from `last_block` (exclusive) to
/// `current_block` (inclusive): discovers new pools, builds and backfills
/// them, updates liquidity for all tracked pools, persists the changes,
/// and advances the watermark.
#[verifier::rlimit(100)]
#[verifier::spinoff_prover]
fn sync_pool_type<S: Syncer, D: PoolDatabase>(
    syncer: &S,
    database: &mut D,
    cfg: FetcherConfig,
    last_block: u64,
    current_block: u64,
    existing_pools: &mut PoolMap,
    chain: Chain,
) -> (r: Result<(), PoolSyncError>)
    requires
        old(database).wf(),
        old(existing_pools).wf(),
        last_block < current_block,
        forall|a: Address|
            #[trigger] old(existing_pools)@.dom().contains(a) ==> {
                &&& old(database).pools().dom().contains((chain, a))
                &&& old(database).pools()[(chain, a)] == old(existing_pools)@[a]
                &&& old(existing_pools)@[a].address == a
                &&& old(existing_pools)@[a].pool_type == cfg.pool_type
            },
        old(database).watermarks().dom().contains((chain, cfg.pool_type)) ==> old(
            database,
        ).watermarks()[(chain, cfg.pool_type)] <= current_block,
    ensures
        final(database).wf(),
        final(existing_pools).wf(),
        // the store's pools change only on this chain, at tracked or
        // freshly discovered addresses
        forall|c: Chain, a2: Address|
            !(c == chain && (old(existing_pools)@.dom().contains(a2) || is_discovered(
                syncer.source(),
                cfg,
                (last_block + 1) as u64,
                current_block,
                a2,
            ))) ==> #[trigger] db_key_unchanged(*old(database), *final(database), (c, a2)),
        r is Ok ==> pass_post(
            *syncer,
            *old(database),
            *final(database),
            old(existing_pools)@,
            final(existing_pools)@,
            cfg,
            last_block,
            current_block,
            chain,
        ),
        forall|c: Chain, a2: Address|
            #[trigger] db_key_kept(*old(database), *final(database), ((c, a2))),
        r is Err ==> final(database).watermarks() == old(database).watermarks(),
{
    let ghost src = syncer.source();
    let ghost dom0 = old(existing_pools)@.dom();
    let ghost db0 = old(database).pools();
    let sync_start = last_block + 1;
    let sync_end = current_block;

    // Fetch new pool addresses announced in the discovery range.
    let discovered = match syncer.fetch_addresses(sync_start, sync_end, &cfg) {
        Ok(v) => v,
        Err(e) => {
            proof {
                lemma_db_frames_refl(*database);
            }
            return Err(e);
        },
    };

    // Keep only addresses that are not tracked yet.
    let mut new_addresses: Vec<Address> = Vec::new();
    let mut i: usize = 0;
    while i < discovered.len()
        invariant
            i <= discovered.len(),
            existing_pools == old(existing_pools),
            forall|k: int|
                0 <= k < discovered@.len() ==> is_discovered(
                    src,
                    cfg,
                    sync_start,
                    sync_end,
                    #[trigger] discovered@[k],
                ),
            forall|k: int|
                0 <= k < new_addresses@.len() ==> is_discovered(
                    src,
                    cfg,
                    sync_start,
                    sync_end,
                    #[trigger] new_addresses@[k],
                ) && !dom0.contains(new_addresses@[k]),
            dom0 == old(existing_pools)@.dom(),
        decreases discovered.len() - i,
    {
        let a = discovered[i];
        if !existing_pools.contains(&a) {
            new_addresses.push(a);
        }
        i = i + 1;
    }

    // Build the new pools at the head and backfill their liquidity from
    // genesis through the watermark, then persist them and merge them
    // into the working set.
    match build_new_pools(
        syncer,
        database,
        cfg,
        last_block,
        current_block,
        existing_pools,
        chain,
        &new_addresses,
    ) {
        Ok(u) => u,
        Err(e) => {
            return Err(e);
        },
    };

    // Every tracked pool now has liquidity up to the watermark; apply the
    // remaining range and persist what was touched.
    let ghost mid = existing_pools@;
    let ghost db_mid_val = *database;
    let ghost db_mid = database.pools();
    proof {
        assert(forall|a: Address|
            dom0.contains(a) ==> #[trigger] mid.dom().contains(a) && mid[a] == old(
                existing_pools,
            )@[a]);
        assert(forall|a: Address|
            #[trigger] mid.dom().contains(a) && !dom0.contains(a) ==> is_discovered(
                src,
                cfg,
                sync_start,
                sync_end,
                a,
            ) && syncer.built(a, cfg.pool_type, sync_end) is Some && mid[a] == backfilled(
                a,
                syncer.built(a, cfg.pool_type, sync_end)->0,
                src,
                last_block,
            ) && mid[a].address == a && mid[a].pool_type == cfg.pool_type);
        assert(forall|a: Address|
            #[trigger] mid.dom().contains(a) ==> db_mid.dom().contains((chain, a)) && db_mid[(
                chain,
                a,
            )] == mid[a]);
        assert forall|c: Chain, a2: Address|
            !(c == chain && (dom0.contains(a2) || is_discovered(
                src,
                cfg,
                sync_start,
                sync_end,
                a2,
            ))) implies #[trigger] db_key_unchanged(*old(database), db_mid_val, (c, a2)) by {
            assert(db_key_unchanged(*old(database), db_mid_val, (c, a2)));
        };
        assert(database.watermarks() == old(database).watermarks());
    }
    let touched = match syncer.populate_liquidity(
        existing_pools,
        &cfg.pool_type,
        sync_start,
        sync_end,
        false,
    ) {
        Ok(t) => t,
        Err(e) => {
            proof {
                assert forall|c: Chain, a2: Address|
                    !(c == chain && (dom0.contains(a2) || is_discovered(
                        src,
                        cfg,
                        sync_start,
                        sync_end,
                        a2,
                    ))) implies #[trigger] db_key_unchanged(*old(database), *database, (c, a2)) by {
                    assert(db_key_unchanged(*old(database), db_mid_val, (c, a2)));
                    assert(db_key_unchanged(*old(database), *database, (c, a2)));
                };
                assert forall|c: Chain, a2: Address| #[trigger] db_key_kept(
                    *old(database),
                    *database,
                    ((c, a2)),
                ) by {
                    assert(db_key_kept(*old(database), db_mid_val, ((c, a2))));
                };
            }
            return Err(e);
        },
    };
    let mut pools_to_save: Vec<Pool> = Vec::new();
    let mut t: usize = 0;
    while t < touched.len()
        invariant
            t <= touched.len(),
            existing_pools.wf(),
            forall|k: int| 0 <= k < touched@.len() ==> mid.dom().contains(#[trigger] touched@[k]),
            existing_pools@.dom() == mid.dom(),
            crate::store::distinct_addresses(pools_to_save@),
            forall|k: int|
                0 <= k < pools_to_save@.len() ==> {
                    let p = #[trigger] pools_to_save@[k];
                    &&& existing_pools@.dom().contains(p.address)
                    &&& existing_pools@[p.address] == p
                    &&& touched@.contains(p.address)
                },
            forall|k: int|
                0 <= k < t ==> exists|x: int|
                    0 <= x < pools_to_save@.len() && (#[trigger] pools_to_save@[x]).address == (
                    #[trigger] touched@[k]),
        decreases touched.len() - t,
    {
        let a = touched[t];
        match existing_pools.get(&a) {
            Some(p) => {
                if !contains_pool_address(&pools_to_save, &a) {
                    let ghost prev = pools_to_save@;
                    pools_to_save.push(p);
                    proof {
                        assert forall|x: int, y: int|
                            0 <= x < y < pools_to_save@.len() implies (
                        #[trigger] pools_to_save@[x]).address != (
                        #[trigger] pools_to_save@[y]).address by {
                            if y == pools_to_save@.len() - 1 {
                                assert(prev[x] == pools_to_save@[x]);
                            }
                        };
                        assert(pools_to_save@[pools_to_save@.len() - 1].address == a);
                        assert(touched@[t as int] == a);
                        assert(touched@.contains(a));
                        assert forall|k: int| 0 <= k < t + 1 implies exists|x: int|
                            0 <= x < pools_to_save@.len() && (#[trigger] pools_to_save@[x]).address
                                == (#[trigger] touched@[k]) by {
                            if k < t {
                                let x = choose|x: int|
                                    0 <= x < prev.len() && (#[trigger] prev[x]).address == (
                                    touched@[k]);
                                assert(pools_to_save@[x].address == touched@[k]);
                            } else {
                                assert(pools_to_save@[pools_to_save@.len() - 1].address
                                    == touched@[k]);
                            }
                        };
                    }
                } else {
                    proof {
                        let x = choose|x: int|
                            0 <= x < pools_to_save@.len() && (#[trigger] pools_to_save@[x]).address
                                == a;
                    }
                }
            },
            None => {
                proof {
                    assert(existing_pools@.dom().contains(touched@[t as int]));
                }
            },
        }
        t = t + 1;
    }
    let ghost db_pre_save = database.pools();
    proof {
        assert(db_pre_save == db_mid);
        // untouched pools saw no logs in the update range, so the update
        // left them exactly as the store already has them
        assert forall|a: Address| #[trigger] mid.dom().contains(a) && !touched@.contains(
            a,
        ) implies existing_pools@[a] == mid[a] by {
            lemma_fold_range_no_logs(a, mid[a], src, sync_start as int, sync_end as int, false);
        };
        // the keys this save writes all belong to tracked pools
        assert forall|k: (Chain, Address)|
            !(k.0 == chain && mid.dom().contains(k.1)) implies !saved_key(
            pools_to_save@,
            chain,
            k,
        ) by {
            if saved_key(pools_to_save@, chain, k) {
                let x = choose|x: int|
                    0 <= x < pools_to_save@.len() && k == (
                    chain,
                    (#[trigger] pools_to_save@[x]).address,
                    );
                assert(existing_pools@.dom().contains(pools_to_save@[x].address));
                assert(mid.dom().contains(pools_to_save@[x].address));
            }
        };
    }
    match database.save_pools(&pools_to_save, chain) {
        Ok(u) => u,
        Err(e) => {
            proof {
                assert forall|c: Chain, a2: Address|
                    !(c == chain && (dom0.contains(a2) || is_discovered(
                        src,
                        cfg,
                        sync_start,
                        sync_end,
                        a2,
                    ))) implies #[trigger] db_key_unchanged(*old(database), *database, (c, a2)) by {
                    assert(db_key_unchanged(*old(database), db_mid_val, (c, a2)));
                    assert(db_key_unchanged(*old(database), *database, (c, a2)));
                };
                assert forall|c: Chain, a2: Address| #[trigger] db_key_kept(
                    *old(database),
                    *database,
                    ((c, a2)),
                ) by {
                    assert(db_key_kept(*old(database), db_mid_val, ((c, a2))));
                };
            }
            return Err(e);
        },
    };
    proof {
        lemma_upsert_pools_map(db_pre_save, pools_to_save@, chain);
        assert(database.watermarks() == old(database).watermarks());
        // the store now mirrors the updated working set
        assert forall|a: Address| #[trigger] existing_pools@.dom().contains(
            a,
        ) implies database.pools().dom().contains((chain, a)) && database.pools()[(chain, a)]
            == existing_pools@[a] by {
            if touched@.contains(a) {
                let k = choose|k: int| 0 <= k < touched@.len() && touched@[k] == a;
                let x = choose|x: int|
                    0 <= x < pools_to_save@.len() && (#[trigger] pools_to_save@[x]).address == a;
                assert(database.pools()[(chain, pools_to_save@[x].address)] == pools_to_save@[x]);
            } else {
                assert(!saved_key(pools_to_save@, chain, (chain, a))) by {
                    if saved_key(pools_to_save@, chain, (chain, a)) {
                        let x = choose|x: int|
                            0 <= x < pools_to_save@.len() && (chain, a) == (
                            chain,
                            (#[trigger] pools_to_save@[x]).address,
                            );
                        assert(touched@.contains(pools_to_save@[x].address));
                    }
                }
                lemma_upsert_frame_step(db_pre_save, pools_to_save@, chain, (chain, a));
                assert(db_pre_save.dom().contains((chain, a)) && db_pre_save[(chain, a)]
                    == mid[a]);
            }
        };
        // keys outside this pass are still untouched
        assert forall|c: Chain, a2: Address|
            !(c == chain && (dom0.contains(a2) || is_discovered(
                src,
                cfg,
                sync_start,
                sync_end,
                a2,
            ))) implies #[trigger] db_key_unchanged(*old(database), *database, (c, a2)) by {
            assert(db_key_unchanged(*old(database), db_mid_val, (c, a2)));
            assert(!(chain == chain && mid.dom().contains(a2)) ==> !saved_key(
                pools_to_save@,
                chain,
                (c, a2),
            ));
            assert(!saved_key(pools_to_save@, chain, (c, a2)));
            lemma_upsert_frame_step(db_pre_save, pools_to_save@, chain, (c, a2));
        };
        // nothing the store held was deleted
        assert forall|c: Chain, a2: Address| #[trigger] db_key_kept(
            *old(database),
            *database,
            ((c, a2)),
        ) by {
            assert(db_key_kept(*old(database), db_mid_val, ((c, a2))));
            if db_mid_val.pools().dom().contains((c, a2)) {
                lemma_upsert_keeps_key(db_pre_save, pools_to_save@, chain, (c, a2));
            }
        };
    }
    let ghost db_post_save = *database;
    match database.update_last_processed_block(chain, cfg.pool_type, sync_end) {
        Ok(u) => u,
        Err(e) => {
            proof {
                assert forall|c: Chain, a2: Address|
                    !(c == chain && (dom0.contains(a2) || is_discovered(
                        src,
                        cfg,
                        sync_start,
                        sync_end,
                        a2,
                    ))) implies #[trigger] db_key_unchanged(*old(database), *database, (c, a2)) by {
                    assert(db_key_unchanged(*old(database), db_post_save, (c, a2)));
                    assert(db_key_unchanged(*old(database), *database, (c, a2)));
                };
                assert forall|c: Chain, a2: Address| #[trigger] db_key_kept(
                    *old(database),
                    *database,
                    ((c, a2)),
                ) by {
                    assert(db_key_kept(*old(database), db_post_save, ((c, a2))));
                };
            }
            return Err(e);
        },
    };
    proof {
        assert forall|c: Chain, a2: Address|
            !(c == chain && (dom0.contains(a2) || is_discovered(
                src,
                cfg,
                sync_start,
                sync_end,
                a2,
            ))) implies #[trigger] db_key_unchanged(*old(database), *database, (c, a2)) by {
            assert(db_key_unchanged(*old(database), db_post_save, (c, a2)));
            assert(db_key_unchanged(*old(database), *database, (c, a2)));
        };
        assert forall|c: Chain, a2: Address| #[trigger] db_key_kept(
            *old(database),
            *database,
            ((c, a2)),
        ) by {
            assert(db_key_kept(*old(database), db_post_save, ((c, a2))));
        };
        assert(sync_start as int == last_block + 1);
        // values of previously tracked pools
        assert forall|a: Address| #[trigger] dom0.contains(a) implies existing_pools@[a]
            == advanced(a, old(existing_pools)@[a], src, last_block, current_block) by {
            assert(mid.dom().contains(a));
            assert(mid[a] == old(existing_pools)@[a]);
            assert(existing_pools@[a] == fold_range_at(
                a,
                mid[a],
                src,
                sync_start as int,
                sync_end as int,
                false,
            ));
        };
        // values of freshly discovered pools
        assert forall|a: Address|
            #[trigger] existing_pools@.dom().contains(a) && !dom0.contains(
                a,
            ) implies existing_pools@[a] == advanced(
            a,
            backfilled(a, syncer.built(a, cfg.pool_type, current_block)->0, src, last_block),
            src,
            last_block,
            current_block,
        ) by {
            assert(mid.dom().contains(a));
            assert(existing_pools@[a] == fold_range_at(
                a,
                mid[a],
                src,
                sync_start as int,
                sync_end as int,
                false,
            ));
        };
        // every tracked pool keeps its address and type
        assert forall|a: Address|
            #[trigger] existing_pools@.dom().contains(a) implies existing_pools@[a].address == a
            && existing_pools@[a].pool_type == cfg.pool_type by {
            assert(mid[a].address == a && mid[a].pool_type == cfg.pool_type);
            lemma_fold_range_at_frame(a, mid[a], src, sync_start as int, sync_end as int, false);
        };
        // writes were confined to keys of the final working set
        assert forall|c: Chain, a2: Address|
            !(c == chain && existing_pools@.dom().contains(a2)) implies #[trigger] db_key_unchanged(
            *old(database),
            *database,
            (c, a2),
        ) by {
            assert(!(c == chain && mid.dom().contains(a2)));
            assert(db_key_unchanged(*old(database), db_mid_val, (c, a2)));
            assert(!saved_key(pools_to_save@, chain, (c, a2)));
            lemma_upsert_frame_step(db_pre_save, pools_to_save@, chain, (c, a2));
            assert(db_key_unchanged(*old(database), db_post_save, (c, a2)));
            assert(db_key_unchanged(*old(database), *database, (c, a2)));
        };
        // freshly stored keys belong to the final working set
        assert forall|c: Chain, a2: Address|
            #[trigger] db_dom_new(*old(database), *database, (c, a2)) implies c == chain
            && existing_pools@.dom().contains(a2) by {
            if !(c == chain && existing_pools@.dom().contains(a2)) {
                assert(db_key_unchanged(*old(database), *database, (c, a2)));
            }
        };
        assert(pass_post(
            *syncer,
            *old(database),
            *database,
            old(existing_pools)@,
            existing_pools@,
            cfg,
            last_block,
            current_block,
            chain,
        ));
    }
    Ok(())
}

/// Builds, backfills, persists and merges the pools freshly discovered at
/// the given addresses. With no addresses this is a no-op; a failure
/// leaves both the working set and the store as they were.
#[verifier::rlimit(100)]
#[verifier::spinoff_prover]
fn build_new_pools<S: Syncer, D: PoolDatabase>(
    syncer: &S,
    database: &mut D,
    cfg: FetcherConfig,
    last_block: u64,
    current_block: u64,
    existing_pools: &mut PoolMap,
    chain: Chain,
    new_addresses: &Vec<Address>,
) -> (r: Result<(), PoolSyncError>)
    requires
        old(database).wf(),
        old(existing_pools).wf(),
        last_block < current_block,
        forall|k: int|
            0 <= k < new_addresses@.len() ==> is_discovered(
                syncer.source(),
                cfg,
                (last_block + 1) as u64,
                current_block,
                #[trigger] new_addresses@[k],
            ) && !old(existing_pools)@.dom().contains(new_addresses@[k]),
        forall|a: Address|
            #[trigger] old(existing_pools)@.dom().contains(a) ==> {
                &&& old(database).pools().dom().contains((chain, a))
                &&& old(database).pools()[(chain, a)] == old(existing_pools)@[a]
            },
    ensures
        final(database).wf(),
        final(existing_pools).wf(),
        final(database).watermarks() == old(database).watermarks(),
        forall|c: Chain, a2: Address|
            #[trigger] db_key_kept(*old(database), *final(database), ((c, a2))),
        r is Err ==> final(database).pools() == old(database).pools() && final(existing_pools)@
            == old(existing_pools)@,
        r is Ok ==> build_post(
            *syncer,
            *old(database),
            *final(database),
            old(existing_pools)@,
            final(existing_pools)@,
            cfg,
            last_block,
            current_block,
            chain,
        ),
{
    let ghost src = syncer.source();
    let ghost dom0 = old(existing_pools)@.dom();
    let ghost db0 = old(database).pools();
    let ghost sync_start: u64 = (last_block + 1) as u64;
    let ghost sync_end: u64 = current_block;
    if new_addresses.len() == 0 {
        proof {
            lemma_db_frames_refl(*database);
            assert forall|c: Chain, a2: Address| #[trigger] db_key_unchanged(
                *old(database),
                *database,
                (c, a2),
            ) by {}
        }
        return Ok(());
    }

    let mut new_pools = match syncer.populate_pool_info(
        new_addresses,
        &cfg.pool_type,
        current_block,
    ) {
        Ok(m) => m,
        Err(e) => {
            proof {
                assert forall|c: Chain, a2: Address| #[trigger] db_key_kept(
                    *old(database),
                    *database,
                    ((c, a2)),
                ) by {}
            }
            return Err(e);
        },
    };
    let ghost built_map = new_pools@;
    match syncer.populate_liquidity(&mut new_pools, &cfg.pool_type, 0, last_block, true) {
        Ok(_) => {},
        Err(e) => {
            proof {
                assert forall|c: Chain, a2: Address| #[trigger] db_key_kept(
                    *old(database),
                    *database,
                    ((c, a2)),
                ) by {}
            }
            return Err(e);
        },
    };
    let new_vec = new_pools.to_vec();
    proof {
        assert forall|k: int| 0 <= k < new_vec@.len() implies {
            let a = (#[trigger] new_vec@[k]).address;
            &&& new_pools@.dom().contains(a)
            &&& new_pools@[a] == new_vec@[k]
            &&& !dom0.contains(a)
            &&& is_discovered(src, cfg, sync_start, sync_end, a)
            &&& syncer.built(a, cfg.pool_type, sync_end) is Some
            &&& new_pools@[a] == backfilled(
                a,
                syncer.built(a, cfg.pool_type, sync_end)->0,
                src,
                last_block,
            )
            &&& new_pools@[a].address == a
            &&& new_pools@[a].pool_type == cfg.pool_type
        } by {
            let a = new_vec@[k].address;
            assert(new_pools@.dom().contains(a));
            assert(built_map.dom().contains(a));
            assert(new_addresses@.contains(a));
            let y = choose|y: int| 0 <= y < new_addresses@.len() && new_addresses@[y] == a;
            assert(is_discovered(src, cfg, sync_start, sync_end, new_addresses@[y]));
            assert(!dom0.contains(new_addresses@[y]));
            assert(Some(built_map[a]) == syncer.built(a, cfg.pool_type, sync_end));
            assert(new_pools@[a] == fold_range_at(
                a,
                built_map[a],
                src,
                0,
                last_block as int,
                true,
            ));
            lemma_fold_range_at_frame(a, built_map[a], src, 0, last_block as int, true);
        };
    }
    match database.save_pools(&new_vec, chain) {
        Ok(u) => u,
        Err(e) => {
            proof {
                assert forall|c: Chain, a2: Address| #[trigger] db_key_kept(
                    *old(database),
                    *database,
                    ((c, a2)),
                ) by {}
            }
            return Err(e);
        },
    };
    proof {
        lemma_upsert_pools_map(db0, new_vec@, chain);
        assert forall|c: Chain, a2: Address| #[trigger] db_key_kept(
            *old(database),
            *database,
            ((c, a2)),
        ) by {
            if db0.dom().contains((c, a2)) {
                lemma_upsert_keeps_key(db0, new_vec@, chain, (c, a2));
            }
        };
    }
    let mut j: usize = 0;
    while j < new_vec.len()
        invariant
            j <= new_vec.len(),
            existing_pools.wf(),
            forall|k: int|
                0 <= k < new_vec@.len() ==> {
                    let a = (#[trigger] new_vec@[k]).address;
                    &&& new_pools@.dom().contains(a)
                    &&& new_pools@[a] == new_vec@[k]
                    &&& !dom0.contains(a)
                },
            forall|a: Address|
                #[trigger] existing_pools@.dom().contains(a) <==> dom0.contains(a) || exists|
                    k: int,
                | 0 <= k < j && (#[trigger] new_vec@[k]).address == a,
            forall|a: Address|
                dom0.contains(a) ==> #[trigger] existing_pools@[a] == old(
                    existing_pools,
                )@[a],
            forall|a: Address|
                #[trigger] existing_pools@.dom().contains(a) && !dom0.contains(a)
                    ==> existing_pools@[a] == new_pools@[a],
        decreases new_vec.len() - j,
    {
        existing_pools.upsert(new_vec[j]);
        proof {
            assert forall|a: Address| #[trigger] existing_pools@.dom().contains(a) implies (
            dom0.contains(a) || exists|k: int|
                0 <= k < j + 1 && (#[trigger] new_vec@[k]).address == a) by {
                if a == new_vec@[j as int].address {
                    assert(new_vec@[j as int].address == a);
                }
            };
        }
        j = j + 1;
    }
    proof {
        assert forall|a: Address|
            #[trigger] existing_pools@.dom().contains(a) && !dom0.contains(a) implies {
            &&& is_discovered(src, cfg, sync_start, sync_end, a)
            &&& syncer.built(a, cfg.pool_type, sync_end) is Some
            &&& existing_pools@[a] == backfilled(
                a,
                syncer.built(a, cfg.pool_type, sync_end)->0,
                src,
                last_block,
            )
            &&& existing_pools@[a].address == a
            &&& existing_pools@[a].pool_type == cfg.pool_type
        } by {
            let k = choose|k: int|
                0 <= k < new_vec@.len() && (#[trigger] new_vec@[k]).address == a;
            assert(existing_pools@[a] == new_pools@[a]);
        };
        assert forall|a: Address|
            #[trigger] existing_pools@.dom().contains(a) implies database.pools().dom().contains(
            (chain, a),
        ) && database.pools()[(chain, a)] == existing_pools@[a] by {
            if dom0.contains(a) {
                assert(!saved_key(new_vec@, chain, (chain, a))) by {
                    if saved_key(new_vec@, chain, (chain, a)) {
                        let x = choose|x: int|
                            0 <= x < new_vec@.len() && (chain, a) == (
                            chain,
                            (#[trigger] new_vec@[x]).address,
                            );
                        assert(!dom0.contains(new_vec@[x].address));
                    }
                }
                lemma_upsert_frame_step(db0, new_vec@, chain, (chain, a));
            } else {
                let k = choose|k: int|
                    0 <= k < new_vec@.len() && (#[trigger] new_vec@[k]).address == a;
                assert(database.pools()[(chain, new_vec@[k].address)] == new_vec@[k]);
            }
        };
        assert forall|c: Chain, a2: Address|
            !(c == chain && (dom0.contains(a2) || is_discovered(
                src,
                cfg,
                sync_start,
                sync_end,
                a2,
            ))) implies #[trigger] db_key_unchanged(*old(database), *database, (c, a2)) by {
            assert(!saved_key(new_vec@, chain, (c, a2))) by {
                if saved_key(new_vec@, chain, (c, a2)) {
                    let x = choose|x: int|
                        0 <= x < new_vec@.len() && (c, a2) == (
                        chain,
                        (#[trigger] new_vec@[x]).address,
                        );
                    assert(is_discovered(src, cfg, sync_start, sync_end, new_vec@[x].address));
                }
            }
            lemma_upsert_frame_step(db0, new_vec@, chain, (c, a2));
        };
        assert forall|c: Chain, a2: Address|
            !(c == chain && existing_pools@.dom().contains(a2)) implies #[trigger] db_key_unchanged(
            *old(database),
            *database,
            (c, a2),
        ) by {
            assert(!saved_key(new_vec@, chain, (c, a2))) by {
                if saved_key(new_vec@, chain, (c, a2)) {
                    let x = choose|x: int|
                        0 <= x < new_vec@.len() && (c, a2) == (
                        chain,
                        (#[trigger] new_vec@[x]).address,
                        );
                    assert(existing_pools@.dom().contains(new_vec@[x].address));
                }
            }
            lemma_upsert_frame_step(db0, new_vec@, chain, (c, a2));
        };
        assert(build_post(
            *syncer,
            *old(database),
            *database,
            old(existing_pools)@,
            existing_pools@,
            cfg,
            last_block,
            current_block,
            chain,
        ));
    }
    Ok(())
}

/// Whether `v` holds a pool filed under address `a`.
fn contains_pool_address(v: &Vec<Pool>, a: &Address) -> (r: bool)
    ensures
        r == exists|x: int| 0 <= x < v@.len() && (#[trigger] v@[x]).address == *a,
{
    let mut i: usize = 0;
    while i < v.len()
        invariant
            i <= v.len(),
            forall|k: int| 0 <= k < i ==> (#[trigger] v@[k]).address != *a,
        decreases v.len() - i,
    {
        if v[i].address == *a {
            proof {
                assert(v@[i as int].address == *a);
            }
            return true;
        }
        i = i + 1;
    }
    false
}



/// The per-protocol state a running synchronization maintains: a
/// well-formed working set mirroring the store, completeness for the
/// protocol's stored pools now and at the start of the run, and an
/// in-memory watermark mirroring the stored one, which either still has
/// its starting value or was advanced to the head.
pub open spec fn slot_ok<S: Syncer, D: PoolDatabase>(
    syncer: S,
    db_init: D,
    db: D,
    chain: Chain,
    cfg: FetcherConfig,
    m: PoolMap,
    init_wm: u64,
    wm: u64,
    head: u64,
) -> bool {
    &&& m.wf()
    &&& map_mirror(db, chain, cfg, m@)
    &&& stored_complete(db, chain, cfg.pool_type, m@)
    &&& stored_complete(db_init, chain, cfg.pool_type, m@)
    &&& wm_mirror(db, (chain, cfg.pool_type), wm)
    &&& wm_mirror(db_init, (chain, cfg.pool_type), init_wm)
    &&& (wm == init_wm || (init_wm < head && wm == head))
    &&& (db.watermarks().dom().contains((chain, cfg.pool_type)) <==> (
    db_init.watermarks().dom().contains((chain, cfg.pool_type)) || wm != init_wm))
    &&& (wm == init_wm ==> slot_unprocessed(db_init, chain, cfg.pool_type, m@))
    &&& (wm != init_wm ==> slot_processed(syncer, db_init, chain, cfg, m@, init_wm, head))
}

/// A recorded watermark stays exactly recorded: reflexivity of the
/// watermark-monotonicity relation.
proof fn lemma_wm_monotone_refl<D: PoolDatabase>(db: D)
    ensures
        forall|c: Chain, t: PoolType| #[trigger] wm_monotone(db, db, ((c, t))),
{
    assert forall|c: Chain, t: PoolType| #[trigger] wm_monotone(db, db, ((c, t))) by {}
}

/// An untouched store keeps and leaves unchanged every key.
proof fn lemma_db_frames_refl<D: PoolDatabase>(db: D)
    ensures
        forall|c: Chain, a2: Address| #[trigger] db_key_kept(db, db, ((c, a2))),
        forall|c: Chain, a2: Address| #[trigger] db_key_unchanged(db, db, ((c, a2))),
{
    assert forall|c: Chain, a2: Address| #[trigger] db_key_kept(db, db, ((c, a2))) by {}
    assert forall|c: Chain, a2: Address| #[trigger] db_key_unchanged(db, db, ((c, a2))) by {}
}

/// A discovered address was announced.
proof fn lemma_discovered_announces(src: Seq<Log>, cfg: FetcherConfig, lo: u64, hi: u64, a: Address)
    requires
        is_discovered(src, cfg, lo, hi, a),
    ensures
        announces(src, cfg, a),
{
    let i = choose|i: int|
        0 <= i < src.len() && is_creation_log(#[trigger] src[i], cfg) && lo <= src[i].block_number
            <= hi && spec_created_address(src[i]) == a;
    assert(is_creation_log(src[i], cfg) && spec_created_address(src[i]) == a);
}

/// Configures a [`PoolSync`]: which protocols to watch on which chain.
pub struct PoolSyncBuilder {
    fetchers: Vec<FetcherConfig>,
    chain: Chain,
}

impl PoolSyncBuilder {
    /// The registered per-protocol configurations, in registration order.
    pub closed spec fn spec_fetchers(&self) -> Seq<FetcherConfig> {
        self.fetchers@
    }

    /// The chain to synchronize.
    pub closed spec fn spec_chain(&self) -> Chain {
        self.chain
    }

    /// Well-formedness: one configuration per pool type.
    pub open spec fn wf(&self) -> bool {
        distinct_pool_types(self.spec_fetchers())
    }

    /// Registers a protocol. A pool type registered earlier keeps its
    /// first configuration.
    pub fn add_pool(self, cfg: FetcherConfig) -> (b: PoolSyncBuilder)
        requires
            self.wf(),
        ensures
            b.wf(),
            b.spec_chain() == self.spec_chain(),
            registered(self.spec_fetchers(), cfg.pool_type) ==> b.spec_fetchers()
                == self.spec_fetchers(),
            !registered(self.spec_fetchers(), cfg.pool_type) ==> b.spec_fetchers()
                == self.spec_fetchers().push(cfg),
    {
        let mut fetchers = self.fetchers;
        let mut i: usize = 0;
        while i < fetchers.len()
            invariant
                i <= fetchers.len(),
                fetchers@ == self.spec_fetchers(),
                distinct_pool_types(fetchers@),
                forall|k: int| 0 <= k < i ==> (#[trigger] fetchers@[k]).pool_type != cfg.pool_type,
            decreases fetchers.len() - i,
        {
            if fetchers[i].pool_type == cfg.pool_type {
                proof {
                    assert(fetchers@[i as int].pool_type == cfg.pool_type);
                }
                return PoolSyncBuilder { fetchers, chain: self.chain };
            }
            i = i + 1;
        }
        proof {
            if registered(self.spec_fetchers(), cfg.pool_type) {
                let k = choose|k: int|
                    0 <= k < fetchers@.len() && (#[trigger] fetchers@[k]).pool_type
                        == cfg.pool_type;
            }
        }
        fetchers.push(cfg);
        PoolSyncBuilder { fetchers, chain: self.chain }
    }

    /// Selects the chain to synchronize.
    pub fn chain(self, chain: Chain) -> (b: PoolSyncBuilder)
        ensures
            b.spec_fetchers() == self.spec_fetchers(),
            b.spec_chain() == chain,
            self.wf() ==> b.wf(),
    {
        PoolSyncBuilder { fetchers: self.fetchers, chain }
    }

    /// Finishes configuration with the chain source and pool store to use.
    pub fn build<S: Syncer, D: PoolDatabase>(self, syncer: S, database: D) -> (ps: PoolSync<S, D>)
        requires
            self.wf(),
            database.wf(),
        ensures
            ps.wf(),
            ps.fetchers() == self.spec_fetchers(),
            ps.chain() == self.spec_chain(),
            ps.syncer() == syncer,
            ps.database() == database,
    {
        PoolSync { fetchers: self.fetchers, syncer, database, chain: self.chain }
    }
}

impl Default for PoolSyncBuilder {
    /// An empty registry targeting the default chain.
    fn default() -> (b: PoolSyncBuilder)
        ensures
            b.spec_fetchers() == Seq::<FetcherConfig>::empty(),
            b.spec_chain() == Chain::Ethereum,
            b.wf(),
    {
        let b = PoolSyncBuilder { fetchers: Vec::new(), chain: Chain::Ethereum };
        proof {
            assert(b.spec_fetchers() =~= Seq::<FetcherConfig>::empty());
        }
        b
    }
}

/// The synchronization engine: a registry of protocols, a chain source, a
/// pool store, and the chain to keep in sync.
pub struct PoolSync<S, D> {
    fetchers: Vec<FetcherConfig>,
    syncer: S,
    database: D,
    chain: Chain,
}

impl<S: Syncer, D: PoolDatabase> PoolSync<S, D> {
    /// The registered per-protocol configurations.
    pub closed spec fn fetchers(&self) -> Seq<FetcherConfig> {
        self.fetchers@
    }

    /// The chain being synchronized.
    pub closed spec fn chain(&self) -> Chain {
        self.chain
    }

    /// The chain source.
    pub closed spec fn syncer(&self) -> S {
        self.syncer
    }

    /// The pool store.
    pub closed spec fn database(&self) -> D {
        self.database
    }

    /// Well-formedness: one configuration per pool type, over a
    /// well-formed store.
    pub open spec fn wf(&self) -> bool {
        distinct_pool_types(self.fetchers()) && self.database().wf()
    }

    /// Assembles an engine from its parts. Each pool type maps to exactly
    /// one fetcher configuration.
    pub fn new(fetchers: Vec<FetcherConfig>, syncer: S, database: D, chain: Chain) -> (ps:
        PoolSync<S, D>)
        requires
            distinct_pool_types(fetchers@),
            database.wf(),
        ensures
            ps.wf(),
            ps.fetchers() == fetchers@,
            ps.chain() == chain,
            ps.syncer() == syncer,
            ps.database() == database,
    {
        PoolSync { fetchers, syncer, database, chain }
    }

    /// Read access to the pool store, e.g. to inspect persisted state
    /// after a run.
    pub fn database_ref(&self) -> (r: &D)
        ensures
            *r == self.database(),
    {
        &self.database
    }

    /// A builder to configure sync parameters.
    pub fn builder() -> (b: PoolSyncBuilder)
        ensures
            b.spec_fetchers() == Seq::<FetcherConfig>::empty(),
            b.spec_chain() == Chain::Ethereum,
            b.wf(),
    {
        PoolSyncBuilder::default()
    }

    /// Loads the stored pools of every registered protocol into one
    /// working set per protocol.
    fn load_existing_pools(&self, chain: Chain) -> (r: Result<Vec<PoolMap>, PoolSyncError>)
        requires
            self.wf(),
        ensures
            r is Ok ==> {
                let v = r->Ok_0;
                &&& v@.len() == self.fetchers().len()
                &&& forall|j: int|
                    0 <= j < v@.len() ==> (#[trigger] v@[j]).wf() && map_mirror(
                        self.database(),
                        chain,
                        self.fetchers()[j],
                        v@[j]@,
                    ) && stored_complete(
                        self.database(),
                        chain,
                        self.fetchers()[j].pool_type,
                        v@[j]@,
                    )
            },
    {
        let mut out: Vec<PoolMap> = Vec::new();
        let mut i: usize = 0;
        while i < self.fetchers.len()
            invariant
                i <= self.fetchers@.len(),
                self.wf(),
                out@.len() == i,
                forall|j: int|
                    0 <= j < i ==> (#[trigger] out@[j]).wf() && map_mirror(
                        self.database,
                        chain,
                        self.fetchers@[j],
                        out@[j]@,
                    ) && stored_complete(
                        self.database,
                        chain,
                        self.fetchers@[j].pool_type,
                        out@[j]@,
                    ),
            decreases self.fetchers@.len() - i,
        {
            let cfg = self.fetchers[i];
            let types: Vec<PoolType> = vec![cfg.pool_type];
            let lv = match self.database.load_pools(chain, Some(&types)) {
                Ok(v) => v,
                Err(e) => {
                    return Err(e);
                },
            };
            let mut m = PoolMap::new();
            let mut j: usize = 0;
            while j < lv.len()
                invariant
                    j <= lv.len(),
                    m.wf(),
                    crate::store::distinct_addresses(lv@),
                    forall|a: Address|
                        #[trigger] m@.dom().contains(a) <==> exists|k: int|
                            0 <= k < j && (#[trigger] lv@[k]).address == a,
                    forall|k: int| 0 <= k < j ==> m@[(#[trigger] lv@[k]).address] == lv@[k],
                decreases lv.len() - j,
            {
                m.upsert(lv[j]);
                proof {
                    assert forall|a: Address| #[trigger] m@.dom().contains(a) implies exists|
                        k: int,
                    | 0 <= k < j + 1 && (#[trigger] lv@[k]).address == a by {
                        if a == lv@[j as int].address {
                            assert(lv@[j as int].address == a);
                        }
                    };
                    assert forall|k: int|
                        0 <= k < j + 1 implies m@[(#[trigger] lv@[k]).address] == lv@[k] by {
                        if k < j {
                            assert(lv@[k].address != lv@[j as int].address);
                        }
                    };
                }
                j = j + 1;
            }
            proof {
                assert(types@ =~= seq![cfg.pool_type]);
                assert forall|a: Address| #[trigger] m@.dom().contains(a) implies m@[a].address
                    == a && m@[a].pool_type == cfg.pool_type && pool_stored(
                    self.database,
                    chain,
                    m@[a],
                ) by {
                    let k = choose|k: int| 0 <= k < lv@.len() && (#[trigger] lv@[k]).address == a;
                    assert(m@[lv@[k].address] == lv@[k]);
                    assert(crate::database::type_selected(
                        lv@[k],
                        crate::database::filter_view(Some(&types)),
                    ));
                    assert(types@.contains(lv@[k].pool_type));
                    let x = choose|x: int|
                        0 <= x < types@.len() && types@[x] == lv@[k].pool_type;
                    assert(types@[0] == cfg.pool_type);
                };
                assert forall|a: Address|
                    #[trigger] stored_of_type(
                        self.database,
                        chain,
                        cfg.pool_type,
                        a,
                    ) implies m@.dom().contains(a) by {
                    assert(types@[0] == cfg.pool_type);
                    assert(types@.contains(self.database.pools()[(chain, a)].pool_type));
                    assert(crate::database::type_selected(
                        self.database.pools()[(chain, a)],
                        crate::database::filter_view(Some(&types)),
                    ));
                    assert(self.database.pools().dom().contains((chain, a)));
                    let k = choose|k: int| 0 <= k < lv@.len() && (#[trigger] lv@[k]).address == a;
                    assert(lv@[k].address == a);
                };
            }
            out.push(m);
            i = i + 1;
        }
        Ok(out)
    }

    /// Synchronizes all registered protocols with the chain, round-robin,
    /// until every watermark reaches the head, and returns every tracked
    /// pool together with the block height the state is valid for. On
    /// success, [`sync_post`] pins what came back: each returned pool is
    /// its stored record advanced over the update range, or a freshly
    /// discovered pool's backfilled build so advanced, stored exactly as
    /// returned.
    ///
    /// Progress is persisted as it is made: a failed run deletes nothing
    /// and leaves every watermark where it was or further ahead, never
    /// behind, so a retry resumes from the last durable watermark.
    #[verifier::rlimit(100)]
    #[verifier::spinoff_prover]
    pub fn sync_pools(&mut self) -> (r: Result<(Vec<Pool>, u64), PoolSyncError>)
        requires
            old(self).wf(),
            addresses_consistent(
                old(self).syncer(),
                old(self).database(),
                old(self).fetchers(),
                old(self).chain(),
            ),
        ensures
            final(self).wf(),
            final(self).fetchers() == old(self).fetchers(),
            final(self).chain() == old(self).chain(),
            final(self).syncer() == old(self).syncer(),
            forall|c: Chain, t: PoolType|
                #[trigger] wm_monotone(old(self).database(), final(self).database(), ((c, t))),
            forall|c: Chain, a2: Address|
                #[trigger] db_key_kept(old(self).database(), final(self).database(), ((c, a2))),
            r is Ok ==> sync_post(
                old(self).syncer(),
                old(self).database(),
                final(self).database(),
                old(self).fetchers(),
                old(self).chain(),
                (r->Ok_0).0@,
                (r->Ok_0).1,
            ),
    {
        let ghost db_init = old(self).database();
        let chain = self.chain;
        let n = self.fetchers.len();

        // Load the block each protocol has been synced up to.
        let mut wms: Vec<u64> = Vec::new();
        let mut i: usize = 0;
        while i < n
            invariant
                i <= n,
                n == self.fetchers@.len(),
                self.fetchers@ == old(self).fetchers(),
                self.chain == old(self).chain(),
                self.syncer == old(self).syncer(),
                self.database == old(self).database(),
                self.database.wf(),
                distinct_pool_types(self.fetchers@),
                chain == self.chain,
                wms@.len() == i,
                forall|j: int|
                    0 <= j < i ==> wm_mirror(
                        self.database,
                        (chain, (#[trigger] self.fetchers@[j]).pool_type),
                        wms@[j],
                    ),
            decreases n - i,
        {
            let w = match self.database.get_last_processed_block(chain, self.fetchers[i].pool_type)
            {
                Ok(o) => match o {
                    Some(w) => w,
                    None => 0u64,
                },
                Err(e) => {
                    proof {
                        lemma_wm_monotone_refl(self.database);
                        lemma_db_frames_refl(self.database);
                    }
                    return Err(e);
                },
            };
            wms.push(w);
            i = i + 1;
        }

        // Load the pools that have already been synced for the registered
        // pool types.
        let mut loaded = match self.load_existing_pools(chain) {
            Ok(v) => v,
            Err(e) => {
                proof {
                    lemma_wm_monotone_refl(self.database);
                    lemma_db_frames_refl(self.database);
                }
                return Err(e);
            },
        };
        let ghost init_wms = wms@;
        proof {
            lemma_wm_monotone_refl(self.database);
            lemma_db_frames_refl(self.database);
            assert forall|c: Chain, a2: Address|
                !(c == chain && in_some_working_set(loaded@, a2))
                    implies #[trigger] db_key_unchanged(db_init, self.database, (c, a2)) by {
                assert(db_key_unchanged(self.database, self.database, ((c, a2))));
            };
            assert forall|j: int|
                0 <= j < n implies #[trigger] slot_ok(
                self.syncer,
                db_init,
                self.database,
                chain,
                self.fetchers@[j],
                loaded@[j],
                init_wms[j],
                wms@[j],
                self.syncer.head(),
            ) by {
                assert(loaded@[j].wf());
                assert(wm_mirror(
                    self.database,
                    (chain, self.fetchers@[j].pool_type),
                    wms@[j],
                ));
            };
        }

        // Round-robin until every protocol has caught up with the head,
        // re-reading the head each pass since it may have moved while
        // fetching.
        let mut current_block: u64 = 0;
        loop
            invariant_except_break
                n == self.fetchers@.len(),
                wms@.len() == n,
                loaded@.len() == n,
                chain == self.chain,
                self.fetchers@ == old(self).fetchers(),
                self.chain == old(self).chain(),
                self.syncer == old(self).syncer(),
                distinct_pool_types(self.fetchers@),
                self.database.wf(),
                db_init == old(self).database(),
                addresses_consistent(self.syncer, self.database, self.fetchers@, chain),
                forall|c: Chain, t: PoolType|
                    #[trigger] wm_monotone(db_init, self.database, ((c, t))),
                forall|c: Chain, a2: Address|
                    #[trigger] db_key_kept(db_init, self.database, ((c, a2))),
                forall|c: Chain, a2: Address|
                    !(c == chain && in_some_working_set(loaded@, a2))
                        ==> #[trigger] db_key_unchanged(db_init, self.database, (c, a2)),
                forall|j: int|
                    0 <= j < n ==> #[trigger] slot_ok(
                        self.syncer,
                        db_init,
                        self.database,
                        chain,
                        self.fetchers@[j],
                        loaded@[j],
                        init_wms[j],
                        wms@[j],
                        self.syncer.head(),
                    ),
            ensures
                n == self.fetchers@.len(),
                wms@.len() == n,
                loaded@.len() == n,
                chain == self.chain,
                self.fetchers@ == old(self).fetchers(),
                self.chain == old(self).chain(),
                self.syncer == old(self).syncer(),
                distinct_pool_types(self.fetchers@),
                self.database.wf(),
                addresses_consistent(self.syncer, self.database, self.fetchers@, chain),
                forall|c: Chain, t: PoolType|
                    #[trigger] wm_monotone(db_init, self.database, ((c, t))),
                forall|c: Chain, a2: Address|
                    #[trigger] db_key_kept(db_init, self.database, ((c, a2))),
                forall|c: Chain, a2: Address|
                    !(c == chain && in_some_working_set(loaded@, a2))
                        ==> #[trigger] db_key_unchanged(db_init, self.database, (c, a2)),
                forall|j: int|
                    0 <= j < n ==> #[trigger] slot_ok(
                        self.syncer,
                        db_init,
                        self.database,
                        chain,
                        self.fetchers@[j],
                        loaded@[j],
                        init_wms[j],
                        wms@[j],
                        self.syncer.head(),
                    ),
                current_block == self.syncer.head(),
                forall|j: int| 0 <= j < n ==> #[trigger] wms@[j] >= current_block,
            decreases
                    (if exists|j: int| 0 <= j < n && #[trigger] wms@[j] < self.syncer.head() {
                        1int
                    } else {
                        0int
                    }),
        {
            current_block = match self.syncer.block_number() {
                Ok(b) => b,
                Err(e) => {
                    return Err(e);
                },
            };
            let ghost entry_wms = wms@;
            let mut did_work = false;
            let mut i2: usize = 0;
            while i2 < n
                invariant
                    i2 <= n,
                    n == self.fetchers@.len(),
                    wms@.len() == n,
                    loaded@.len() == n,
                    chain == self.chain,
                    self.fetchers@ == old(self).fetchers(),
                    self.chain == old(self).chain(),
                    self.syncer == old(self).syncer(),
                    distinct_pool_types(self.fetchers@),
                    self.database.wf(),
                    db_init == old(self).database(),
                    current_block == self.syncer.head(),
                    addresses_consistent(self.syncer, self.database, self.fetchers@, chain),
                    forall|c: Chain, t: PoolType|
                        #[trigger] wm_monotone(db_init, self.database, ((c, t))),
                    forall|c: Chain, a2: Address|
                        #[trigger] db_key_kept(db_init, self.database, ((c, a2))),
                    forall|c: Chain, a2: Address|
                        !(c == chain && in_some_working_set(loaded@, a2))
                            ==> #[trigger] db_key_unchanged(db_init, self.database, (c, a2)),

                    forall|j: int|
                        0 <= j < n ==> #[trigger] slot_ok(
                            self.syncer,
                            db_init,
                            self.database,
                            chain,
                            self.fetchers@[j],
                            loaded@[j],
                            init_wms[j],
                            wms@[j],
                            self.syncer.head(),
                        ),
                    forall|j: int| 0 <= j < i2 ==> #[trigger] wms@[j] >= current_block,
                    forall|j: int| i2 <= j < n ==> #[trigger] wms@[j] == entry_wms[j],
                    did_work ==> exists|j: int|
                        0 <= j < n && #[trigger] entry_wms[j] < self.syncer.head(),
                decreases n - i2,
            {
                let cfg = self.fetchers[i2];
                let w = wms[i2];
                let ghost db_before_pass = self.database;
                let ghost loaded_before = loaded@;
                let ghost iter_wms = wms@;
                if w < current_block {
                    did_work = true;
                    proof {
                        assert(iter_wms[i2 as int] == entry_wms[i2 as int]);
                        assert(entry_wms[i2 as int] < self.syncer.head());
                    }
                    let mut working = loaded.remove(i2);
                    let ghost m_before = working@;
                    proof {
                        assert(slot_ok(
                            self.syncer,
                            db_init,
                            db_before_pass,
                            chain,
                            self.fetchers@[i2 as int],
                            loaded_before[i2 as int],
                            init_wms[i2 as int],
                            iter_wms[i2 as int],
                            self.syncer.head(),
                        ));
                        assert(working == loaded_before[i2 as int]);
                        assert(working.wf());
                    }
                    let res = sync_pool_type(
                        &self.syncer,
                        &mut self.database,
                        cfg,
                        w,
                        current_block,
                        &mut working,
                        chain,
                    );
                    loaded.insert(i2, working);
                    proof {
                        assert(loaded@ =~= loaded_before.update(i2 as int, working));
                    }
                    match res {
                        Ok(u) => u,
                        Err(e) => {
                            proof {
                                assert forall|c: Chain, t: PoolType| #[trigger] wm_monotone(
                                    db_init,
                                    self.database,
                                    ((c, t)),
                                ) by {
                                    assert(wm_monotone(db_init, db_before_pass, ((c, t))));
                                };
                                assert forall|c: Chain, a2: Address| #[trigger] db_key_kept(
                                    db_init,
                                    self.database,
                                    ((c, a2)),
                                ) by {
                                    assert(db_key_kept(db_init, db_before_pass, ((c, a2))));
                                    assert(db_key_kept(db_before_pass, self.database, ((c, a2))));
                                };
                            }
                            return Err(e);
                        },
                    };
                    wms[i2] = current_block;
                    proof {
                        let fs = self.fetchers@;
                        let head = self.syncer.head();
                        assert forall|c: Chain, t: PoolType| #[trigger] wm_monotone(
                            db_init,
                            self.database,
                            ((c, t)),
                        ) by {
                            assert(wm_monotone(db_init, db_before_pass, ((c, t))));
                            assert(slot_ok(
                                self.syncer,
                                db_init,
                                db_before_pass,
                                chain,
                                fs[i2 as int],
                                loaded_before[i2 as int],
                                init_wms[i2 as int],
                                iter_wms[i2 as int],
                                head,
                            ));
                        };
                        // nothing the store held was deleted
                        assert forall|c: Chain, a2: Address| #[trigger] db_key_kept(
                            db_init,
                            self.database,
                            ((c, a2)),
                        ) by {
                            assert(db_key_kept(db_init, db_before_pass, ((c, a2))));
                            assert(db_key_kept(db_before_pass, self.database, ((c, a2))));
                        };
                        // keys outside every working set are untouched
                        assert forall|c: Chain, a2: Address|
                            !(c == chain && in_some_working_set(loaded@, a2))
                                implies #[trigger] db_key_unchanged(
                            db_init,
                            self.database,
                            (c, a2),
                        ) by {
                            if c == chain {
                                assert(!in_some_working_set(loaded_before, a2)) by {
                                    if in_some_working_set(loaded_before, a2) {
                                        let x = choose|x: int|
                                            0 <= x < loaded_before.len() && (
                                            #[trigger] loaded_before[x])@.dom().contains(a2);
                                        if x == i2 {
                                            assert(loaded_before[i2 as int]@ == m_before);
                                            assert(m_before.dom().contains(a2));
                                            assert(working@.dom().contains(a2));
                                            assert(loaded@[i2 as int]@.dom().contains(a2));
                                        } else {
                                            assert(loaded@[x]@.dom().contains(a2));
                                        }
                                    }
                                }
                                assert(!(c == chain && working@.dom().contains(a2))) by {
                                    if working@.dom().contains(a2) {
                                        assert(loaded@[i2 as int]@.dom().contains(a2));
                                    }
                                }
                            }
                            assert(db_key_unchanged(db_init, db_before_pass, (c, a2)));
                            assert(db_key_unchanged(db_before_pass, self.database, (c, a2)));
                        };
                        // each slot's state survives the pass
                        assert forall|j: int| 0 <= j < n implies #[trigger] slot_ok(
                            self.syncer,
                            db_init,
                            self.database,
                            chain,
                            fs[j],
                            loaded@[j],
                            init_wms[j],
                            wms@[j],
                            head,
                        ) by {
                            assert(slot_ok(
                                self.syncer,
                                db_init,
                                db_before_pass,
                                chain,
                                fs[j],
                                loaded_before[j],
                                init_wms[j],
                                iter_wms[j],
                                head,
                            ));
                            if j == i2 {
                                assert(loaded@[j] == working);
                                assert forall|a: Address| #[trigger] working@.dom().contains(
                                    a,
                                ) implies working@[a].address == a && working@[a].pool_type
                                    == cfg.pool_type && pool_stored(
                                    self.database,
                                    chain,
                                    working@[a],
                                ) by {}
                                assert forall|a: Address| #[trigger] stored_of_type(
                                    self.database,
                                    chain,
                                    cfg.pool_type,
                                    a,
                                ) implies working@.dom().contains(a) by {
                                    if !working@.dom().contains(a) {
                                        assert(db_key_unchanged(
                                            db_before_pass,
                                            self.database,
                                            (chain, a),
                                        ));
                                        assert(stored_of_type(
                                            db_before_pass,
                                            chain,
                                            cfg.pool_type,
                                            a,
                                        ));
                                        assert(m_before.dom().contains(a));
                                    }
                                };
                                assert forall|a: Address| #[trigger] stored_of_type(
                                    db_init,
                                    chain,
                                    cfg.pool_type,
                                    a,
                                ) implies working@.dom().contains(a) by {
                                    assert(m_before.dom().contains(a));
                                };
                            } else {
                                assert(loaded@[j] == loaded_before[j]);
                                let mj = loaded_before[j]@;
                                assert forall|a: Address| #[trigger] mj.dom().contains(
                                    a,
                                ) implies mj[a].address == a && mj[a].pool_type == fs[j].pool_type
                                    && pool_stored(self.database, chain, mj[a]) by {
                                    assert(pool_stored(db_before_pass, chain, mj[a]));
                                    assert(!m_before.dom().contains(a)) by {
                                        if m_before.dom().contains(a) {
                                            assert(m_before[a].pool_type == cfg.pool_type);
                                            assert(pool_stored(db_before_pass, chain, m_before[a]));
                                            assert(fs[i2 as int].pool_type != fs[j].pool_type);
                                        }
                                    }
                                    assert(!is_discovered(
                                        self.syncer.source(),
                                        cfg,
                                        (w + 1) as u64,
                                        current_block,
                                        a,
                                    )) by {
                                        if is_discovered(
                                            self.syncer.source(),
                                            cfg,
                                            (w + 1) as u64,
                                            current_block,
                                            a,
                                        ) {
                                            lemma_discovered_announces(
                                                self.syncer.source(),
                                                cfg,
                                                (w + 1) as u64,
                                                current_block,
                                                a,
                                            );
                                            assert(announces(self.syncer.source(), fs[i2 as int], a));
                                            assert(db_before_pass.pools()[(chain, a)].pool_type
                                                == fs[i2 as int].pool_type);
                                            assert(fs[i2 as int].pool_type != fs[j].pool_type);
                                        }
                                    }
                                    assert(db_key_unchanged(db_before_pass, self.database, (chain, a)));
                                };
                                assert forall|a: Address| #[trigger] stored_of_type(
                                    self.database,
                                    chain,
                                    fs[j].pool_type,
                                    a,
                                ) implies mj.dom().contains(a) by {
                                    if working@.dom().contains(a) {
                                        assert(self.database.pools()[(chain, a)].pool_type
                                            == cfg.pool_type);
                                        assert(fs[i2 as int].pool_type != fs[j].pool_type);
                                    } else {
                                        assert(db_key_unchanged(
                                            db_before_pass,
                                            self.database,
                                            (chain, a),
                                        ));
                                        assert(stored_of_type(
                                            db_before_pass,
                                            chain,
                                            fs[j].pool_type,
                                            a,
                                        ));
                                    }
                                };
                                assert((chain, fs[j].pool_type) != (chain, cfg.pool_type));
                            }
                        };
                        // the updated working set stays consistent with the
                        // uniqueness assumption
                        assert forall|x: int, a: Address|
                            0 <= x < fs.len() && #[trigger] announces(
                                self.syncer.source(),
                                fs[x],
                                a,
                            ) && self.database.pools().dom().contains(
                                (chain, a),
                            ) implies self.database.pools()[(chain, a)].pool_type
                            == fs[x].pool_type by {
                            if working@.dom().contains(a) {
                                assert(self.database.pools()[(chain, a)].pool_type
                                    == cfg.pool_type);
                                if m_before.dom().contains(a) {
                                    assert(pool_stored(db_before_pass, chain, m_before[a]));
                                    assert(db_before_pass.pools()[(chain, a)].pool_type
                                        == fs[x].pool_type);
                                } else {
                                    assert(is_discovered(
                                        self.syncer.source(),
                                        cfg,
                                        (w + 1) as u64,
                                        current_block,
                                        a,
                                    ));
                                    lemma_discovered_announces(
                                        self.syncer.source(),
                                        cfg,
                                        (w + 1) as u64,
                                        current_block,
                                        a,
                                    );
                                    assert(announces(self.syncer.source(), fs[i2 as int], a));
                                    if x != i2 {
                                        assert(!announces(self.syncer.source(), fs[x], a));
                                    }
                                }
                            } else {
                                assert(db_key_unchanged(db_before_pass, self.database, (chain, a)));
                                assert(db_before_pass.pools().dom().contains((chain, a)));
                            }
                        };
                    }
                }
                i2 = i2 + 1;
            }
            if !did_work {
                break;
            }
            proof {
                assert forall|j: int| 0 <= j < n implies !(#[trigger] wms@[j]
                    < self.syncer.head()) by {}
            }
        }

        // Collect all pools into a single vector.
        let mut all: Vec<Pool> = Vec::new();
        let mut i3: usize = 0;
        while i3 < n
            invariant
                i3 <= n,
                n == self.fetchers@.len(),
                loaded@.len() == n,
                chain == self.chain,
                self.fetchers@ == old(self).fetchers(),
                distinct_pool_types(self.fetchers@),
                db_init == old(self).database(),
                forall|j: int|
                    0 <= j < n ==> #[trigger] slot_ok(
                        self.syncer,
                        db_init,
                        self.database,
                        chain,
                        self.fetchers@[j],
                        loaded@[j],
                        init_wms[j],
                        wms@[j],
                        self.syncer.head(),
                    ),
                crate::store::distinct_addresses(all@),
                forall|j: int|
                    0 <= j < all@.len() ==> #[trigger] pool_stored(
                        self.database,
                        chain,
                        all@[j],
                    ),
                forall|j: int|
                    0 <= j < all@.len() ==> exists|x: int|
                        0 <= x < i3 && (#[trigger] all@[j]).pool_type == self.fetchers@[x].pool_type
                            && loaded@[x]@.dom().contains(all@[j].address) && loaded@[x]@[all@[
                            j].address] == all@[j],
                forall|x: int, a: Address|
                    0 <= x < i3 && #[trigger] loaded@[x]@.dom().contains(a) ==> exists|j: int|
                        0 <= j < all@.len() && (#[trigger] all@[j]).address == a,
                forall|x: int, a: Address|
                    0 <= x < i3 && #[trigger] stored_of_type(
                        db_init,
                        chain,
                        self.fetchers@[x].pool_type,
                        a,
                    ) ==> exists|j: int| 0 <= j < all@.len() && (#[trigger] all@[j]).address == a,
            decreases n - i3,
        {
            proof {
                assert(slot_ok(
                    self.syncer,
                    db_init,
                    self.database,
                    chain,
                    self.fetchers@[i3 as int],
                    loaded@[i3 as int],
                    init_wms[i3 as int],
                    wms@[i3 as int],
                    self.syncer.head(),
                ));
            }
            let seg = loaded[i3].to_vec();
            let ghost all_before = all@;
            let mut k: usize = 0;
            while k < seg.len()
                invariant
                    k <= seg.len(),
                    i3 < n,
                    n == self.fetchers@.len(),
                    loaded@.len() == n,
                    chain == self.chain,
                    distinct_pool_types(self.fetchers@),
                    seg@ == loaded@[i3 as int].seq(),
                    loaded@[i3 as int].wf(),
                    crate::store::distinct_addresses(seg@),
                    forall|y: int|
                        0 <= y < seg@.len() ==> loaded@[i3 as int]@.dom().contains(
                            (#[trigger] seg@[y]).address,
                        ) && loaded@[i3 as int]@[seg@[y].address] == seg@[y],
                    map_mirror(self.database, chain, self.fetchers@[i3 as int], loaded@[i3 as int]@),
                    forall|j: int|
                        0 <= j < all_before.len() ==> #[trigger] all@[j] == all_before[j],
                    all@.len() == all_before.len() + k,
                    forall|y: int| 0 <= y < k ==> all@[all_before.len() + y] == #[trigger] seg@[y],
                    crate::store::distinct_addresses(all_before),
                    forall|j: int|
                        0 <= j < all_before.len() ==> #[trigger] pool_stored(
                            self.database,
                            chain,
                            all_before[j],
                        ),
                    forall|j: int|
                        0 <= j < all_before.len() ==> exists|x: int|
                            0 <= x < i3 && (#[trigger] all_before[j]).pool_type
                                == self.fetchers@[x].pool_type && loaded@[x]@.dom().contains(
                                all_before[j].address,
                            ) && loaded@[x]@[all_before[j].address] == all_before[j],
                    crate::store::distinct_addresses(all@),
                    forall|j: int|
                        0 <= j < all@.len() ==> #[trigger] pool_stored(
                            self.database,
                            chain,
                            all@[j],
                        ),
                    forall|j: int|
                        0 <= j < all@.len() ==> exists|x: int|
                            0 <= x < i3 + 1 && (#[trigger] all@[j]).pool_type
                                == self.fetchers@[x].pool_type && loaded@[x]@.dom().contains(
                                all@[j].address,
                            ) && loaded@[x]@[all@[j].address] == all@[j],
                decreases seg.len() - k,
            {
                let p = seg[k];
                let ghost prev_all = all@;
                all.push(p);
                proof {
                    assert(loaded@[i3 as int]@.dom().contains(seg@[k as int].address));
                    assert(p.pool_type == self.fetchers@[i3 as int].pool_type);
                    assert(pool_stored(self.database, chain, p));
                    assert forall|x2: int, y2: int|
                        0 <= x2 < y2 < all@.len() implies (#[trigger] all@[x2]).address != (
                    #[trigger] all@[y2]).address by {
                        if y2 == all@.len() - 1 {
                            assert(all@[x2] == prev_all[x2]);
                            if all@[x2].address == p.address {
                                assert(pool_stored(self.database, chain, prev_all[x2]));
                                assert(prev_all[x2] == p);
                                let x = choose|x: int|
                                    0 <= x < i3 + 1 && (#[trigger] prev_all[x2]).pool_type
                                        == self.fetchers@[x].pool_type && loaded@[x]@.dom().contains(
                                        prev_all[x2].address,
                                    ) && loaded@[x]@[prev_all[x2].address] == prev_all[x2];
                                if x2 < all_before.len() {
                                    let x3 = choose|x3: int|
                                        0 <= x3 < i3 && (#[trigger] all_before[x2]).pool_type
                                            == self.fetchers@[x3].pool_type && loaded@[x3]@.dom().contains(
                                            all_before[x2].address,
                                        ) && loaded@[x3]@[all_before[x2].address] == all_before[x2];
                                    assert(self.fetchers@[x3].pool_type
                                        != self.fetchers@[i3 as int].pool_type);
                                } else {
                                    assert(prev_all[x2] == seg@[x2 - all_before.len()]);
                                }
                            }
                        }
                    };
                    assert forall|j: int| 0 <= j < all@.len() implies exists|x: int|
                        0 <= x < i3 + 1 && (#[trigger] all@[j]).pool_type
                            == self.fetchers@[x].pool_type && loaded@[x]@.dom().contains(
                            all@[j].address,
                        ) && loaded@[x]@[all@[j].address] == all@[j] by {
                        if j == all@.len() - 1 {
                            assert(all@[j].pool_type == self.fetchers@[i3 as int].pool_type
                                && loaded@[i3 as int]@.dom().contains(all@[j].address)
                                && loaded@[i3 as int]@[all@[j].address] == all@[j]);
                        } else {
                            assert(all@[j] == prev_all[j]);
                        }
                    };
                }
                k = k + 1;
            }
            proof {
                assert forall|x: int, a: Address|
                    0 <= x < i3 + 1 && #[trigger] loaded@[x]@.dom().contains(a) implies exists|
                    j: int,
                | 0 <= j < all@.len() && (#[trigger] all@[j]).address == a by {
                    if x == i3 {
                        let y = choose|y: int|
                            0 <= y < seg@.len() && (#[trigger] seg@[y]).address == a;
                        assert(all@[all_before.len() + y].address == a);
                    } else {
                        let j = choose|j: int|
                            0 <= j < all_before.len() && (#[trigger] all_before[j]).address == a;
                        assert(all@[j].address == a);
                    }
                };
                assert forall|x: int, a: Address|
                    0 <= x < i3 + 1 && #[trigger] stored_of_type(
                        db_init,
                        chain,
                        self.fetchers@[x].pool_type,
                        a,
                    ) implies exists|j: int|
                    0 <= j < all@.len() && (#[trigger] all@[j]).address == a by {
                    if x == i3 {
                        assert(slot_ok(
                            self.syncer,
                            db_init,
                            self.database,
                            chain,
                            self.fetchers@[i3 as int],
                            loaded@[i3 as int],
                            init_wms[i3 as int],
                            wms@[i3 as int],
                            self.syncer.head(),
                        ));
                        assert(loaded@[i3 as int]@.dom().contains(a));
                        let y = choose|y: int|
                            0 <= y < seg@.len() && (#[trigger] seg@[y]).address == a;
                        assert(all@[all_before.len() + y].address == a);
                    } else {
                        let j = choose|j: int|
                            0 <= j < all_before.len() && (#[trigger] all_before[j]).address == a;
                        assert(all@[j].address == a);
                    }
                };
            }
            i3 = i3 + 1;
        }

        proof {
            let fs = old(self).fetchers();
            let head = self.syncer.head();
            assert forall|i4: int| 0 <= i4 < fs.len() implies #[trigger] wm_caught_up(
                db_init,
                self.database,
                (chain, fs[i4].pool_type),
                head,
            ) by {
                assert(slot_ok(
                    self.syncer,
                    db_init,
                    self.database,
                    chain,
                    fs[i4],
                    loaded@[i4],
                    init_wms[i4],
                    wms@[i4],
                    head,
                ));
            };
            assert forall|j: int| 0 <= j < all@.len() implies #[trigger] pool_stored(
                self.database,
                chain,
                all@[j],
            ) && registered(fs, all@[j].pool_type) by {
                let x = choose|x: int|
                    0 <= x < n && (#[trigger] all@[j]).pool_type == self.fetchers@[x].pool_type;
                assert(fs[x].pool_type == all@[j].pool_type);
            };
            assert forall|a: Address, t: PoolType|
                #[trigger] stored_of_type(db_init, chain, t, a) && registered(
                    fs,
                    t,
                ) implies exists|j: int|
                0 <= j < all@.len() && (#[trigger] all@[j]).address == a by {
                let x = choose|x: int| 0 <= x < fs.len() && (#[trigger] fs[x]).pool_type == t;
                assert(stored_of_type(db_init, chain, self.fetchers@[x].pool_type, a));
            };
            // each returned pool is pinned to the event history
            assert forall|j: int| 0 <= j < all@.len() implies #[trigger] returned_pool_ok(
                old(self).syncer(),
                db_init,
                fs,
                chain,
                head,
                all@[j],
            ) by {
                let p = all@[j];
                let a = p.address;
                let x = choose|x: int|
                    0 <= x < n && (#[trigger] all@[j]).pool_type == self.fetchers@[x].pool_type
                        && loaded@[x]@.dom().contains(all@[j].address) && loaded@[x]@[all@[
                        j].address] == all@[j];
                let cfgx = self.fetchers@[x];
                assert(slot_ok(
                    self.syncer,
                    db_init,
                    self.database,
                    chain,
                    cfgx,
                    loaded@[x],
                    init_wms[x],
                    wms@[x],
                    head,
                ));
                let m = loaded@[x]@;
                assert(m.dom().contains(a));
                assert(p == m[a]);
                assert(wms@[x] >= head);
                if wms@[x] == init_wms[x] {
                    // this protocol was never behind: the pool is exactly
                    // its stored record
                    assert(stored_of_type(db_init, chain, cfgx.pool_type, a));
                    assert(p == db_init.pools()[(chain, a)]);
                    assert(db_init.pools()[(chain, a)].pool_type == cfgx.pool_type);
                    assert(wm_of(db_init, chain, cfgx.pool_type) == init_wms[x]);
                } else {
                    assert(init_wms[x] < head && wms@[x] == head);
                    if stored_of_type(db_init, chain, cfgx.pool_type, a) {
                        assert(p == advanced(
                            a,
                            db_init.pools()[(chain, a)],
                            self.syncer.source(),
                            init_wms[x],
                            head,
                        ));
                        assert(db_init.pools()[(chain, a)].pool_type == cfgx.pool_type);
                        assert(wm_of(db_init, chain, cfgx.pool_type) == init_wms[x]);
                    } else {
                        assert(is_discovered(
                            self.syncer.source(),
                            cfgx,
                            (init_wms[x] + 1) as u64,
                            head,
                            a,
                        ));
                        lemma_discovered_announces(
                            self.syncer.source(),
                            cfgx,
                            (init_wms[x] + 1) as u64,
                            head,
                            a,
                        );
                        assert(announces(self.syncer.source(), cfgx, a));
                        // a freshly discovered address cannot be a stored
                        // one: a stored record under an announced address
                        // carries the announcing factory's type
                        assert(!db_init.pools().dom().contains((chain, a))) by {
                            if db_init.pools().dom().contains((chain, a)) {
                                assert(announces(old(self).syncer().source(), fs[x], a));
                                assert(db_init.pools()[(chain, a)].pool_type == fs[x].pool_type);
                                assert(stored_of_type(db_init, chain, cfgx.pool_type, a));
                            }
                        }
                        assert(wm_of(db_init, chain, fs[x].pool_type) == init_wms[x]);
                        assert((#[trigger] fs[x]).pool_type == p.pool_type);
                    }
                }
            };
            // the store changed only at returned addresses on this chain
            assert forall|c2: Chain, a2: Address|
                !(c2 == chain && result_has_address(all@, a2)) implies #[trigger] db_key_unchanged(
                db_init,
                self.database,
                (c2, a2),
            ) by {
                if c2 == chain {
                    assert(!in_some_working_set(loaded@, a2)) by {
                        if in_some_working_set(loaded@, a2) {
                            let x = choose|x: int|
                                0 <= x < loaded@.len() && (#[trigger] loaded@[x])@.dom().contains(
                                    a2,
                                );
                            assert(result_has_address(all@, a2));
                        }
                    }
                }
                assert(db_key_unchanged(db_init, self.database, (c2, a2)));
            };
            assert(sync_post(
                old(self).syncer(),
                db_init,
                self.database,
                fs,
                chain,
                all@,
                current_block,
            ));
        }
        Ok((all, current_block))
    }
}



/// Re-running a sync over an already-synced range changes nothing: when no
/// registered protocol is behind the head, a successful run returns exactly
/// stored records, leaves every stored pool untouched, and leaves the
/// registered watermarks exactly where they were — no duplicate and no
/// changed entry can appear.
pub proof fn lemma_rerun_is_stable<S: Syncer, D: PoolDatabase>(
    syncer: S,
    db_before: D,
    db_after: D,
    fetchers: Seq<FetcherConfig>,
    chain: Chain,
    pools: Seq<Pool>,
    head: u64,
)
    requires
        sync_post(syncer, db_before, db_after, fetchers, chain, pools, head),
        forall|i: int|
            0 <= i < fetchers.len() ==> !wm_behind(
                db_before,
                (chain, (#[trigger] fetchers[i]).pool_type),
                head,
            ),
    ensures
        forall|j: int|
            0 <= j < pools.len() ==> #[trigger] pool_stored(db_before, chain, pools[j]),
        forall|c: Chain, a2: Address| #[trigger] db_key_unchanged(db_before, db_after, (c, a2)),
        forall|i: int|
            0 <= i < fetchers.len() ==> (db_after.watermarks().dom().contains(
                (chain, (#[trigger] fetchers[i]).pool_type),
            ) <==> db_before.watermarks().dom().contains((chain, fetchers[i].pool_type))) && (
            db_before.watermarks().dom().contains((chain, fetchers[i].pool_type))
                ==> db_after.watermarks()[(chain, fetchers[i].pool_type)]
                == db_before.watermarks()[(chain, fetchers[i].pool_type)]),
{
    assert forall|j: int| 0 <= j < pools.len() implies #[trigger] pool_stored(
        db_before,
        chain,
        pools[j],
    ) by {
        let p = pools[j];
        let a = p.address;
        assert(sync_post(syncer, db_before, db_after, fetchers, chain, pools, head));
        assert(returned_pool_ok(syncer, db_before, fetchers, chain, head, p));
        if db_before.pools().dom().contains((chain, a)) {
            let p0 = db_before.pools()[(chain, a)];
            let w = wm_of(db_before, chain, p0.pool_type);
            // the pool keeps its type either way, so its type's watermark
            // was not behind and the stored record was returned unchanged
            assert(p.pool_type == p0.pool_type) by {
                if w < head {
                    lemma_fold_range_at_frame(a, p0, syncer.source(), w + 1, head as int, false);
                }
            }
            assert(pool_stored(db_after, chain, pools[j]));
            assert(registered(fetchers, pools[j].pool_type));
            let i = choose|i: int|
                0 <= i < fetchers.len() && (#[trigger] fetchers[i]).pool_type == p.pool_type;
            assert(!wm_behind(db_before, (chain, fetchers[i].pool_type), head));
            assert(w >= head);
            assert(p == p0);
        } else {
            // a fresh discovery needs a watermark behind the head, which
            // no registered type has
            let i = choose|i: int|
                0 <= i < fetchers.len() && (#[trigger] fetchers[i]).pool_type == p.pool_type && {
                    let w = wm_of(db_before, chain, fetchers[i].pool_type);
                    &&& w < head
                    &&& is_discovered(syncer.source(), fetchers[i], (w + 1) as u64, head, p.address)
                    &&& syncer.built(p.address, fetchers[i].pool_type, head) is Some
                    &&& p == advanced(
                        p.address,
                        backfilled(
                            p.address,
                            syncer.built(p.address, fetchers[i].pool_type, head)->0,
                            syncer.source(),
                            w,
                        ),
                        syncer.source(),
                        w,
                        head,
                    )
                };
            assert(!wm_behind(db_before, (chain, fetchers[i].pool_type), head));
        }
    };
    assert forall|c: Chain, a2: Address| #[trigger] db_key_unchanged(
        db_before,
        db_after,
        (c, a2),
    ) by {
        if c == chain && result_has_address(pools, a2) {
            let j = choose|j: int| 0 <= j < pools.len() && (#[trigger] pools[j]).address == a2;
            assert(pool_stored(db_before, chain, pools[j]));
            assert(pool_stored(db_after, chain, pools[j]));
        } else {
            assert(db_key_unchanged(db_before, db_after, (c, a2)));
        }
    };
    assert forall|i: int|
        0 <= i < fetchers.len() implies (db_after.watermarks().dom().contains(
        (chain, (#[trigger] fetchers[i]).pool_type),
    ) <==> db_before.watermarks().dom().contains((chain, fetchers[i].pool_type))) && (
    db_before.watermarks().dom().contains((chain, fetchers[i].pool_type))
        ==> db_after.watermarks()[(chain, fetchers[i].pool_type)]
        == db_before.watermarks()[(chain, fetchers[i].pool_type)]) by {
        assert(wm_caught_up(db_before, db_after, (chain, fetchers[i].pool_type), head));
    };
}

/// For pools outside the concentrated-liquidity family the initial-replay
/// flag changes nothing about one log's effect.
proof fn lemma_apply_log_flag(p: Pool, l: Log)
    requires
        !p.pool_type.spec_is_v3(),
    ensures
        crate::types::spec_apply_log(p, l, true) == crate::types::spec_apply_log(p, l, false),
{
}

/// For pools outside the concentrated-liquidity family the initial-replay
/// flag changes nothing about a sequence's effect.
proof fn lemma_apply_seq_flag(p: Pool, ls: Seq<Log>)
    requires
        !p.pool_type.spec_is_v3(),
    ensures
        crate::logs::apply_seq(p, ls, true) == crate::logs::apply_seq(p, ls, false),
    decreases ls.len(),
{
    if ls.len() > 0 {
        lemma_apply_log_flag(p, ls[0]);
        crate::types::lemma_apply_log_frame(p, ls[0], false);
        lemma_apply_seq_flag(crate::types::spec_apply_log(p, ls[0], false), ls.drop_first());
    }
}

/// For pools outside the concentrated-liquidity family a replay gives the
/// same state whether it is flagged as initial or incremental.
proof fn lemma_fold_range_flag(a: Address, p: Pool, src: Seq<Log>, lo: int, hi: int)
    requires
        !p.pool_type.spec_is_v3(),
    ensures
        fold_range_at(a, p, src, lo, hi, true) == fold_range_at(a, p, src, lo, hi, false),
    decreases hi + 1 - lo,
{
    if lo <= hi {
        lemma_apply_seq_flag(p, crate::logs::addr_block_logs(src, a, lo));
        crate::logs::lemma_apply_seq_frame(p, crate::logs::addr_block_logs(src, a, lo), false);
        lemma_fold_range_flag(
            a,
            crate::logs::apply_seq(p, crate::logs::addr_block_logs(src, a, lo), false),
            src,
            lo + 1,
            hi,
        );
    }
}

/// Backfill completeness for a freshly discovered pool of the reserve
/// family: backfilling `0..=w` as an initial replay and then applying the
/// update range `w+1..=h` reaches exactly the state of one uninterrupted
/// replay of `0..=h` — no block of the pool's history is skipped and none
/// is applied twice. (Concentrated-liquidity pools read the two phases
/// differently by design: the initial replay takes liquidity values as
/// absolute, the update phase as deltas.)
pub proof fn lemma_backfill_then_update_covers(
    a: Address,
    p: Pool,
    src: Seq<Log>,
    last_block: u64,
    current_block: u64,
)
    requires
        !p.pool_type.spec_is_v3(),
        last_block < current_block,
    ensures
        advanced(a, backfilled(a, p, src, last_block), src, last_block, current_block)
            == fold_range_at(a, p, src, 0, current_block as int, false),
{
    lemma_fold_range_flag(a, p, src, 0, last_block as int);
    lemma_fold_range_split(a, p, src, 0, last_block as int, current_block as int, false);
}

} // verus!
