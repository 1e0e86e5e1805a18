//! The syncer abstraction: the engine's window onto the chain.
//!
//! A [`Syncer`] answers four questions: how high the chain is, which pool
//! addresses a factory announced in a block range, what a batch of pools
//! looks like as of a block, and what a range of liquidity history does to
//! the tracked pools. Its contract is stated against the deterministic
//! event history the source serves; [`SimSyncer`] is a verified in-memory
//! source over a fixed history, used to exercise the engine and to model
//! the chunked, best-effort discovery fetch, including chunks that fail
//! permanently and are dropped with their results.

use vstd::prelude::*;

use crate::logs::fold_range_at;
use crate::logs::has_log_in_range;
use crate::logs::is_discovered;
use crate::logs::lemma_filter_push;
use crate::logs::update_liquidity;
use crate::ranges::ADDRESS_CHUNK_SIZE;
use crate::ranges::chunk_ranges;
use crate::ranges::chunk_seq;
use crate::ranges::lemma_chunk_seq_partition;
use crate::store::PoolMap;
use crate::types::Address;
use crate::types::FetcherConfig;
use crate::types::Log;
use crate::types::Pool;
use crate::types::PoolSyncError;
use crate::types::PoolType;
use crate::types::creation_address;
use crate::types::is_creation_log;
use crate::types::spec_created_address;

verus! {

/// A source of chain data. The three spec functions are the model an
/// implementation is specified against: the head height it reports, the
/// deterministic event history it serves (in delivery order, not
/// necessarily block order), and what building a pool at a block yields.
pub trait Syncer: Sized {
    /// The chain head height this source currently reports. The default
    /// is a placeholder; a verified implementation overrides it with its
    /// own model.
    open spec fn head(&self) -> u64 {
        0
    }

    /// The event history this source serves, in delivery order. The
    /// default is a placeholder; a verified implementation overrides it
    /// with its own model.
    open spec fn source(&self) -> Seq<Log> {
        Seq::empty()
    }

    /// The pool record that building address `a` of type `pt` as of
    /// `block` yields, if building succeeds; a failing build is dropped
    /// from its batch rather than failing the batch. The default is a
    /// placeholder; a verified implementation overrides it with its own
    /// model.
    open spec fn built(&self, a: Address, pt: PoolType, block: u64) -> Option<Pool> {
        Option::None
    }

    /// The current chain head.
    fn block_number(&self) -> (r: Result<u64, PoolSyncError>)
        ensures
            r is Ok ==> r->Ok_0 == self.head(),
    ;

    /// Every distinct address whose creation event matches the factory and
    /// signature of `cfg` within `[start_block, end_block]`, best effort: a
    /// chunk of the range whose fetch fails permanently is dropped, so the
    /// result may cover only part of the range, but never strays outside
    /// it. Duplicates are allowed; the caller de-duplicates.
    fn fetch_addresses(&self, start_block: u64, end_block: u64, cfg: &FetcherConfig) -> (r: Result<
        Vec<Address>,
        PoolSyncError,
    >)
        requires
            start_block <= end_block,
        ensures
            r is Ok ==> forall|k: int|
                0 <= k < r->Ok_0@.len() ==> is_discovered(
                    self.source(),
                    *cfg,
                    start_block,
                    end_block,
                    #[trigger] r->Ok_0@[k],
                ),
    ;

    /// Materializes full pool records for a batch of addresses as of
    /// `block_num`. An address whose build fails is dropped from the
    /// result; every returned pool is well formed, of the requested type,
    /// and filed under its own address.
    fn populate_pool_info(&self, addresses: &Vec<Address>, pool_type: &PoolType, block_num: u64) -> (r:
        Result<PoolMap, PoolSyncError>)
        ensures
            r is Ok ==> {
                let m = r->Ok_0;
                &&& m.wf()
                &&& forall|a: Address| #[trigger] m@.dom().contains(a) ==> addresses@.contains(a)
                &&& forall|a: Address|
                    #[trigger] m@.dom().contains(a) ==> Some(m@[a]) == self.built(
                        a,
                        *pool_type,
                        block_num,
                    )
                &&& forall|a: Address|
                    #[trigger] m@.dom().contains(a) ==> m@[a].address == a && m@[a].pool_type
                        == *pool_type && m@[a].wf()
            },
    ;

    /// Applies the liquidity-relevant history of `[start_block,
    /// end_block]` to the tracked pools, in ascending block order, source
    /// order within a block, and reports which pools were touched so the
    /// caller knows what to persist. `is_initial_sync` marks a
    /// genesis-style replay, which treats concentrated-liquidity values as
    /// absolute rather than as deltas.
    fn populate_liquidity(
        &self,
        pools: &mut PoolMap,
        pool_type: &PoolType,
        start_block: u64,
        end_block: u64,
        is_initial_sync: bool,
    ) -> (r: Result<Vec<Address>, PoolSyncError>)
        requires
            old(pools).wf(),
            start_block <= end_block,
        ensures
            r is Ok ==> {
                let touched = r->Ok_0;
                &&& final(pools).wf()
                &&& final(pools)@.dom() == old(pools)@.dom()
                &&& forall|a: Address|
                    #[trigger] old(pools)@.dom().contains(a) ==> final(pools)@[a] == fold_range_at(
                        a,
                        old(pools)@[a],
                        self.source(),
                        start_block as int,
                        end_block as int,
                        is_initial_sync,
                    )
                &&& forall|k: int|
                    0 <= k < touched@.len() ==> old(pools)@.dom().contains(#[trigger] touched@[k])
                &&& forall|a: Address|
                    #[trigger] touched@.contains(a) <==> (old(pools)@.dom().contains(a)
                        && has_log_in_range(
                        self.source(),
                        a,
                        start_block as int,
                        end_block as int,
                    ))
            },
            r is Err ==> final(pools).wf() && final(pools)@ == old(pools)@,
    ;
}

/// Keeps logs that are creation events of the factory described by `cfg`
/// with a block in `[lo, hi]`.
pub open spec fn pred_creation_in(cfg: FetcherConfig, lo: int, hi: int) -> spec_fn(Log) -> bool {
    |l: Log| is_creation_log(l, cfg) && lo <= l.block_number <= hi
}

/// The pool addresses announced by matching creation events of `[lo, hi]`,
/// in delivery order.
pub open spec fn sim_extract(logs: Seq<Log>, cfg: FetcherConfig, lo: int, hi: int) -> Seq<
    Address,
> {
    logs.filter(pred_creation_in(cfg, lo, hi)).map_values(|l: Log| spec_created_address(l))
}

/// What the chunked, best-effort discovery fetch over a fixed history
/// returns: chunk by chunk in range order, skipping the chunks whose start
/// block is marked as permanently failing.
pub open spec fn sim_fetched(
    logs: Seq<Log>,
    failed: Seq<u64>,
    cfg: FetcherConfig,
    chunks: Seq<(u64, u64)>,
) -> Seq<Address>
    decreases chunks.len(),
{
    if chunks.len() == 0 {
        Seq::empty()
    } else {
        (if failed.contains(chunks[0].0) {
            Seq::empty()
        } else {
            sim_extract(logs, cfg, chunks[0].0 as int, chunks[0].1 as int)
        }) + sim_fetched(logs, failed, cfg, chunks.drop_first())
    }
}

/// Discovery over a fixed history is idempotent: two runs over the same
/// range return the same addresses, in particular the same set, however
/// the failing chunks fell out.
pub proof fn lemma_fetch_addresses_idempotent(
    r1: Seq<Address>,
    r2: Seq<Address>,
    logs: Seq<Log>,
    failed: Seq<u64>,
    cfg: FetcherConfig,
    chunks: Seq<(u64, u64)>,
)
    requires
        r1 == sim_fetched(logs, failed, cfg, chunks),
        r2 == sim_fetched(logs, failed, cfg, chunks),
    ensures
        r1 == r2,
        r1.to_set() == r2.to_set(),
{
}

/// Everything the best-effort fetch returns was announced by a matching
/// creation event inside the queried range.
proof fn lemma_sim_fetched_discovered(
    logs: Seq<Log>,
    failed: Seq<u64>,
    cfg: FetcherConfig,
    chunks: Seq<(u64, u64)>,
    start_block: u64,
    end_block: u64,
)
    requires
        forall|j: int|
            0 <= j < chunks.len() ==> start_block <= (#[trigger] chunks[j]).0 && chunks[j].1
                <= end_block,
    ensures
        forall|k: int|
            0 <= k < sim_fetched(logs, failed, cfg, chunks).len() ==> is_discovered(
                logs,
                cfg,
                start_block,
                end_block,
                #[trigger] sim_fetched(logs, failed, cfg, chunks)[k],
            ),
    decreases chunks.len(),
{
    if chunks.len() > 0 {
        assert(forall|j: int|
            0 <= j < chunks.drop_first().len() ==> start_block <= (#[trigger] chunks.drop_first()[
                j]).0 && chunks.drop_first()[j].1 <= end_block);
        lemma_sim_fetched_discovered(logs, failed, cfg, chunks.drop_first(), start_block, end_block);
        let lo = chunks[0].0 as int;
        let hi = chunks[0].1 as int;
        let head: Seq<Address> = if failed.contains(chunks[0].0) {
            Seq::empty()
        } else {
            sim_extract(logs, cfg, lo, hi)
        };
        let rest = sim_fetched(logs, failed, cfg, chunks.drop_first());
        assert forall|k: int| 0 <= k < (head + rest).len() implies is_discovered(
            logs,
            cfg,
            start_block,
            end_block,
            #[trigger] (head + rest)[k],
        ) by {
            if k < head.len() {
                let filtered = logs.filter(pred_creation_in(cfg, lo, hi));
                assert(head[k] == spec_created_address(filtered[k]));
                Seq::lemma_filter_pred(logs, pred_creation_in(cfg, lo, hi), k);
                assert(filtered.contains(filtered[k]));
                Seq::lemma_filter_contains_rev(logs, pred_creation_in(cfg, lo, hi), filtered[k]);
                let i = choose|i: int| 0 <= i < logs.len() && logs[i] == filtered[k];
                assert(is_creation_log(logs[i], cfg) && start_block <= logs[i].block_number
                    <= end_block && spec_created_address(logs[i]) == head[k]);
            } else {
                assert((head + rest)[k] == rest[k - head.len()]);
            }
        };
    }
}

/// A deterministic in-memory chain source over a fixed event history.
///
/// The history is served exactly as stored; pool metadata comes from a
/// fixed template per address; and the chunks of a discovery range whose
/// start block is listed in `failed_chunks` fail permanently, so their
/// addresses are dropped from the result, the way an exhausted retry
/// budget drops a chunk.
pub struct SimSyncer {
    head: u64,
    head_available: bool,
    logs: Vec<Log>,
    templates: PoolMap,
    failed_chunks: Vec<u64>,
}

impl SimSyncer {
    #[verifier::type_invariant]
    spec fn inv(&self) -> bool {
        self.templates.wf()
    }

    /// The head height the source will report.
    pub closed spec fn sim_head(&self) -> u64 {
        self.head
    }

    /// Whether the head-height query succeeds.
    pub closed spec fn sim_head_available(&self) -> bool {
        self.head_available
    }

    /// The fixed event history.
    pub closed spec fn sim_logs(&self) -> Seq<Log> {
        self.logs@
    }

    /// The fixed pool metadata, keyed by address.
    pub closed spec fn sim_templates(&self) -> Map<Address, Pool> {
        self.templates@
    }

    /// The start blocks of the chunks that fail permanently.
    pub closed spec fn sim_failed(&self) -> Seq<u64> {
        self.failed_chunks@
    }

    /// A source over the given history. `head_available` decides whether
    /// head-height queries succeed; `failed_chunks` lists the start blocks
    /// of discovery chunks that fail permanently.
    pub fn new(
        head: u64,
        head_available: bool,
        logs: Vec<Log>,
        templates: PoolMap,
        failed_chunks: Vec<u64>,
    ) -> (s: SimSyncer)
        requires
            templates.wf(),
        ensures
            s.sim_head() == head,
            s.sim_head_available() == head_available,
            s.sim_logs() == logs@,
            s.sim_templates() == templates@,
            s.sim_failed() == failed_chunks@,
    {
        SimSyncer { head, head_available, logs, templates, failed_chunks }
    }
}

/// Whether `v` holds the value `x`.
fn contains_u64(v: &Vec<u64>, x: u64) -> (r: bool)
    ensures
        r == v@.contains(x),
{
    let mut i: usize = 0;
    while i < v.len()
        invariant
            i <= v.len(),
            forall|k: int| 0 <= k < i ==> v@[k] != x,
        decreases v.len() - i,
    {
        if v[i] == x {
            proof {
                assert(v@[i as int] == x);
            }
            return true;
        }
        i = i + 1;
    }
    proof {
        if v@.contains(x) {
            let k = choose|k: int| 0 <= k < v@.len() && v@[k] == x;
        }
    }
    false
}

impl Syncer for SimSyncer {
    open spec fn head(&self) -> u64 {
        self.sim_head()
    }

    open spec fn source(&self) -> Seq<Log> {
        self.sim_logs()
    }

    open spec fn built(&self, a: Address, pt: PoolType, block: u64) -> Option<Pool> {
        if self.sim_templates().dom().contains(a) && self.sim_templates()[a].address == a
            && self.sim_templates()[a].pool_type == pt && self.sim_templates()[a].wf() {
            Some(self.sim_templates()[a])
        } else {
            None
        }
    }

    fn block_number(&self) -> (r: Result<u64, PoolSyncError>)
        ensures
            r is Ok <==> self.sim_head_available(),
    {
        if self.head_available {
            Ok(self.head)
        } else {
            Err(PoolSyncError::ProviderError("failed to get block".to_string()))
        }
    }

    fn fetch_addresses(&self, start_block: u64, end_block: u64, cfg: &FetcherConfig) -> (r: Result<
        Vec<Address>,
        PoolSyncError,
    >)
        ensures
            r is Ok,
            r->Ok_0@ == sim_fetched(
                self.sim_logs(),
                self.sim_failed(),
                *cfg,
                chunk_seq(start_block, end_block, ADDRESS_CHUNK_SIZE),
            ),
    {
        let ghost all_chunks = chunk_seq(start_block, end_block, ADDRESS_CHUNK_SIZE);
        let chunks = chunk_ranges(start_block, end_block, ADDRESS_CHUNK_SIZE);
        let mut out: Vec<Address> = Vec::new();
        proof {
            assert(all_chunks.subrange(0, all_chunks.len() as int) =~= all_chunks);
            assert(out@ =~= Seq::<Address>::empty());
            assert(out@ + sim_fetched(self.sim_logs(), self.sim_failed(), *cfg, all_chunks)
                =~= sim_fetched(self.sim_logs(), self.sim_failed(), *cfg, all_chunks));
        }
        let mut ci: usize = 0;
        while ci < chunks.len()
            invariant
                ci <= chunks.len(),
                chunks@ == all_chunks,
                sim_fetched(self.sim_logs(), self.sim_failed(), *cfg, all_chunks) == out@
                    + sim_fetched(
                    self.sim_logs(),
                    self.sim_failed(),
                    *cfg,
                    all_chunks.subrange(ci as int, all_chunks.len() as int),
                ),
            decreases chunks.len() - ci,
        {
            let (lo, hi) = chunks[ci];
            let ghost suffix = all_chunks.subrange(ci as int, all_chunks.len() as int);
            proof {
                assert(suffix[0] == all_chunks[ci as int]);
                assert(suffix.drop_first() =~= all_chunks.subrange(
                    ci as int + 1,
                    all_chunks.len() as int,
                ));
            }
            if !contains_u64(&self.failed_chunks, lo) {
                let ghost pred = pred_creation_in(*cfg, lo as int, hi as int);
                let ghost before = out@;
                proof {
                    assert(self.logs@.subrange(0, 0) =~= Seq::<Log>::empty());
                    assert(Seq::<Log>::empty().filter(pred) =~= Seq::<Log>::empty()) by {
                        reveal(Seq::filter);
                    }
                    assert(Seq::<Log>::empty().map_values(|l: Log| spec_created_address(l))
                        =~= Seq::<Address>::empty());
                    assert(out@ =~= before + sim_extract(
                        self.logs@.subrange(0, 0),
                        *cfg,
                        lo as int,
                        hi as int,
                    ));
                }
                let mut j: usize = 0;
                while j < self.logs.len()
                    invariant
                        j <= self.logs.len(),
                        out@ == before + sim_extract(
                            self.logs@.subrange(0, j as int),
                            *cfg,
                            lo as int,
                            hi as int,
                        ),
                    decreases self.logs.len() - j,
                {
                    let l = self.logs[j];
                    proof {
                        assert(self.logs@.subrange(0, j + 1) =~= self.logs@.subrange(
                            0,
                            j as int,
                        ).push(self.logs@[j as int]));
                        lemma_filter_push(
                            self.logs@.subrange(0, j as int),
                            pred_creation_in(*cfg, lo as int, hi as int),
                            self.logs@[j as int],
                        );
                    }
                    if lo <= l.block_number && l.block_number <= hi {
                        match creation_address(&l, cfg) {
                            Some(a) => {
                                out.push(a);
                                proof {
                                    let prev = self.logs@.subrange(0, j as int).filter(
                                        pred_creation_in(*cfg, lo as int, hi as int),
                                    );
                                    assert(prev.push(self.logs@[j as int]).map_values(
                                        |l2: Log| spec_created_address(l2),
                                    ) =~= prev.map_values(|l2: Log| spec_created_address(l2)).push(
                                        spec_created_address(self.logs@[j as int]),
                                    ));
                                }
                            },
                            None => {},
                        }
                    }
                    j = j + 1;
                }
                proof {
                    assert(self.logs@.subrange(0, self.logs@.len() as int) =~= self.logs@);
                }
            }
            ci = ci + 1;
        }
        proof {
            assert(all_chunks.subrange(all_chunks.len() as int, all_chunks.len() as int)
                =~= Seq::<(u64, u64)>::empty());
            assert(out@ + Seq::<Address>::empty() =~= out@);
            lemma_chunk_seq_partition(start_block, end_block, ADDRESS_CHUNK_SIZE);
            lemma_sim_fetched_discovered(
                self.sim_logs(),
                self.sim_failed(),
                *cfg,
                all_chunks,
                start_block,
                end_block,
            );
        }
        Ok(out)
    }

    fn populate_pool_info(&self, addresses: &Vec<Address>, pool_type: &PoolType, block_num: u64) -> (r:
        Result<PoolMap, PoolSyncError>)
        ensures
            r is Ok,
            forall|k: int|
                0 <= k < addresses@.len() && self.built(
                    #[trigger] addresses@[k],
                    *pool_type,
                    block_num,
                ) is Some ==> r->Ok_0@.dom().contains(addresses@[k]),
    {
        proof {
            use_type_invariant(self);
        }
        let mut m = PoolMap::new();
        let mut i: usize = 0;
        while i < addresses.len()
            invariant
                i <= addresses.len(),
                self.templates.wf(),
                m.wf(),
                forall|a: Address| #[trigger] m@.dom().contains(a) ==> addresses@.contains(a),
                forall|a: Address|
                    #[trigger] m@.dom().contains(a) ==> Some(m@[a]) == self.built(
                        a,
                        *pool_type,
                        block_num,
                    ),
                forall|a: Address|
                    #[trigger] m@.dom().contains(a) ==> m@[a].address == a && m@[a].pool_type
                        == *pool_type && m@[a].wf(),
                forall|k: int|
                    0 <= k < i && self.built(
                        #[trigger] addresses@[k],
                        *pool_type,
                        block_num,
                    ) is Some ==> m@.dom().contains(addresses@[k]),
            decreases addresses.len() - i,
        {
            let a = addresses[i];
            match self.templates.get(&a) {
                Some(t) => {
                    if t.pool_type == *pool_type && crate::types::check_wf(&t) {
                        m.upsert(t);
                        proof {
                            assert(addresses@.contains(addresses@[i as int]));
                        }
                    }
                },
                None => {},
            }
            i = i + 1;
        }
        Ok(m)
    }

    fn populate_liquidity(
        &self,
        pools: &mut PoolMap,
        pool_type: &PoolType,
        start_block: u64,
        end_block: u64,
        is_initial_sync: bool,
    ) -> (r: Result<Vec<Address>, PoolSyncError>)
        ensures
            r is Ok,
    {
        let touched = update_liquidity(pools, &self.logs, start_block, end_block, is_initial_sync);
        Ok(touched)
    }
}

} // verus!
