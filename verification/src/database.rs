//! The pool store: persisted pool records and per-(chain, protocol)
//! watermarks.
//!
//! The engine talks to the store through the [`PoolDatabase`] trait: bulk
//! load, idempotent upsert keyed by `(chain, address)`, and watermark reads
//! and writes. The store never deletes a pool, and a watermark is only ever
//! moved forward. [`MemoryDatabase`] is a verified in-memory store.

use vstd::prelude::*;

use crate::store::PoolMap;
use crate::store::distinct_addresses;
use crate::types::Address;
use crate::types::Chain;
use crate::types::Pool;
use crate::types::PoolSyncError;
use crate::types::PoolType;

verus! {

/// Whether the pool-type filter of a bulk load selects `p`: no filter
/// selects everything.
pub open spec fn type_selected(p: Pool, filt: Option<Seq<PoolType>>) -> bool {
    match filt {
        Option::None => true,
        Option::Some(ts) => ts.contains(p.pool_type),
    }
}

/// The ghost image of an optional pool-type filter.
pub open spec fn filter_view(filt: Option<&Vec<PoolType>>) -> Option<Seq<PoolType>> {
    match filt {
        Option::None => Option::None,
        Option::Some(v) => Option::Some(v@),
    }
}

/// `m` after upserting each of `ps` under `(chain, address)`, first to
/// last; on a repeated address the later record wins.
pub open spec fn upsert_pools_map(
    m: Map<(Chain, Address), Pool>,
    ps: Seq<Pool>,
    chain: Chain,
) -> Map<(Chain, Address), Pool>
    decreases ps.len(),
{
    if ps.len() == 0 {
        m
    } else {
        upsert_pools_map(m, ps.drop_last(), chain).insert(
            (chain, ps.last().address),
            ps.last(),
        )
    }
}

/// Whether `k` is one of the keys a bulk upsert of `ps` on `chain` writes.
pub open spec fn saved_key(ps: Seq<Pool>, chain: Chain, k: (Chain, Address)) -> bool {
    exists|i: int| 0 <= i < ps.len() && k == (chain, (#[trigger] ps[i]).address)
}

/// A bulk upsert stores each record under its own address and leaves every
/// other key untouched.
pub proof fn lemma_upsert_pools_map(m: Map<(Chain, Address), Pool>, ps: Seq<Pool>, chain: Chain)
    requires
        distinct_addresses(ps),
    ensures
        forall|i: int|
            0 <= i < ps.len() ==> upsert_pools_map(m, ps, chain).dom().contains(
                (chain, (#[trigger] ps[i]).address),
            ) && upsert_pools_map(m, ps, chain)[(chain, ps[i].address)] == ps[i],
        forall|k: (Chain, Address)|
            !saved_key(ps, chain, k) && m.dom().contains(k) ==> #[trigger] upsert_pools_map(
                m,
                ps,
                chain,
            ).dom().contains(k) && upsert_pools_map(m, ps, chain)[k] == m[k],
        forall|k: (Chain, Address)|
            !saved_key(ps, chain, k) && #[trigger] upsert_pools_map(m, ps, chain).dom().contains(
                k,
            ) ==> m.dom().contains(k),
    decreases ps.len(),
{
    if ps.len() == 0 {
        assert(upsert_pools_map(m, ps, chain) == m);
    } else {
        let t = ps.drop_last();
        assert(distinct_addresses(t));
        lemma_upsert_pools_map(m, t, chain);
        assert forall|i: int|
            0 <= i < ps.len() implies upsert_pools_map(m, ps, chain).dom().contains(
            (chain, (#[trigger] ps[i]).address),
        ) && upsert_pools_map(m, ps, chain)[(chain, ps[i].address)] == ps[i] by {
            if i < ps.len() - 1 {
                assert(t[i] == ps[i]);
                assert(ps[i].address != ps.last().address);
                assert(!saved_key(t, chain, (chain, ps[i].address)) ==> upsert_pools_map(
                    m,
                    t,
                    chain,
                ).dom().contains((chain, ps[i].address)));
                assert(saved_key(t, chain, (chain, ps[i].address))) by {
                    assert(t[i].address == ps[i].address);
                }
            }
        };
        assert forall|k: (Chain, Address)|
            !saved_key(ps, chain, k) && m.dom().contains(k) implies #[trigger] upsert_pools_map(
            m,
            ps,
            chain,
        ).dom().contains(k) && upsert_pools_map(m, ps, chain)[k] == m[k] by {
            lemma_upsert_frame_step(m, ps, chain, k);
        };
        assert forall|k: (Chain, Address)|
            !saved_key(ps, chain, k) && #[trigger] upsert_pools_map(m, ps, chain).dom().contains(
                k,
            ) implies m.dom().contains(k) by {
            lemma_upsert_frame_step(m, ps, chain, k);
        };
    }
}

/// A bulk upsert never deletes: every key stored before is stored after.
pub proof fn lemma_upsert_keeps_key(
    m: Map<(Chain, Address), Pool>,
    ps: Seq<Pool>,
    chain: Chain,
    k: (Chain, Address),
)
    requires
        m.dom().contains(k),
    ensures
        upsert_pools_map(m, ps, chain).dom().contains(k),
    decreases ps.len(),
{
    if ps.len() == 0 {
        assert(upsert_pools_map(m, ps, chain) == m);
    } else {
        lemma_upsert_keeps_key(m, ps.drop_last(), chain, k);
        assert(upsert_pools_map(m, ps, chain) == upsert_pools_map(m, ps.drop_last(), chain).insert(
            (chain, ps.last().address),
            ps.last(),
        ));
    }
}

/// One key outside the written set is untouched by a bulk upsert.
pub proof fn lemma_upsert_frame_step(
    m: Map<(Chain, Address), Pool>,
    ps: Seq<Pool>,
    chain: Chain,
    k: (Chain, Address),
)
    requires
        !saved_key(ps, chain, k),
    ensures
        upsert_pools_map(m, ps, chain).dom().contains(k) <==> m.dom().contains(k),
        m.dom().contains(k) ==> upsert_pools_map(m, ps, chain)[k] == m[k],
    decreases ps.len(),
{
    if ps.len() == 0 {
        assert(upsert_pools_map(m, ps, chain) == m);
    } else {
        let t = ps.drop_last();
        assert(!saved_key(t, chain, k)) by {
            if saved_key(t, chain, k) {
                let i = choose|i: int| 0 <= i < t.len() && k == (chain, (#[trigger] t[i]).address);
                assert(k == (chain, ps[i].address));
            }
        }
        assert(k != (chain, ps.last().address)) by {
            assert(ps[ps.len() - 1].address == ps.last().address);
        }
        lemma_upsert_frame_step(m, t, chain, k);
        assert(upsert_pools_map(m, ps, chain) == upsert_pools_map(m, t, chain).insert(
            (chain, ps.last().address),
            ps.last(),
        ));
    }
}

/// Saving the same records again changes nothing: the bulk upsert is
/// idempotent, so re-running a sync over an already-synced range
/// introduces no duplicate entries and no changed records in the store.
pub proof fn lemma_upsert_idempotent(m: Map<(Chain, Address), Pool>, ps: Seq<Pool>, chain: Chain)
    requires
        distinct_addresses(ps),
    ensures
        upsert_pools_map(upsert_pools_map(m, ps, chain), ps, chain) == upsert_pools_map(
            m,
            ps,
            chain,
        ),
{
    let m1 = upsert_pools_map(m, ps, chain);
    let m2 = upsert_pools_map(m1, ps, chain);
    lemma_upsert_pools_map(m, ps, chain);
    lemma_upsert_pools_map(m1, ps, chain);
    assert forall|k: (Chain, Address)| #[trigger] m2.dom().contains(k) implies m1.dom().contains(
        k,
    ) && m2[k] == m1[k] by {
        if saved_key(ps, chain, k) {
            let i = choose|i: int| 0 <= i < ps.len() && k == (chain, (#[trigger] ps[i]).address);
            assert(m1[(chain, ps[i].address)] == ps[i]);
            assert(m2[(chain, ps[i].address)] == ps[i]);
        } else {
            lemma_upsert_frame_step(m1, ps, chain, k);
        }
    };
    assert forall|k: (Chain, Address)| #[trigger] m1.dom().contains(k) implies m2.dom().contains(
        k,
    ) by {
        if !saved_key(ps, chain, k) {
            lemma_upsert_frame_step(m1, ps, chain, k);
        } else {
            let i = choose|i: int| 0 <= i < ps.len() && k == (chain, (#[trigger] ps[i]).address);
            assert(m2.dom().contains((chain, ps[i].address)));
        }
    };
    assert(m2 =~= m1);
}

/// Durable storage for pool records and watermarks. The two spec functions
/// are the store's model: the pools it holds, keyed by `(chain, address)`,
/// and the last fully processed block per `(chain, pool type)`.
///
/// Writes are specified as atomic: a call that returns an error leaves the
/// store as it was. Pools are never deleted, and
/// [`update_last_processed_block`](Self::update_last_processed_block)
/// requires the watermark never to regress, so a crash between calls can
/// lose no processed history, only re-process the tail after the last
/// durable watermark.
pub trait PoolDatabase: Sized {
    /// Well-formedness of the store's own representation; established by
    /// its constructor and preserved by every operation. The default is a
    /// placeholder; a verified implementation overrides it with its own
    /// model.
    open spec fn wf(&self) -> bool {
        true
    }

    /// The stored pool records. The default is a placeholder; a verified
    /// implementation overrides it with its own model.
    open spec fn pools(&self) -> Map<(Chain, Address), Pool> {
        Map::empty()
    }

    /// The stored watermarks. The default is a placeholder; a verified
    /// implementation overrides it with its own model.
    open spec fn watermarks(&self) -> Map<(Chain, PoolType), u64> {
        Map::empty()
    }

    /// Loads every stored pool of `chain` whose type passes the filter.
    fn load_pools(&self, chain: Chain, pool_types: Option<&Vec<PoolType>>) -> (r: Result<
        Vec<Pool>,
        PoolSyncError,
    >)
        requires
            self.wf(),
        ensures
            r is Ok ==> {
                let v = r->Ok_0;
                &&& distinct_addresses(v@)
                &&& forall|i: int|
                    0 <= i < v@.len() ==> {
                        let p = #[trigger] v@[i];
                        &&& self.pools().dom().contains((chain, p.address))
                        &&& self.pools()[(chain, p.address)] == p
                        &&& type_selected(p, filter_view(pool_types))
                    }
                &&& forall|a: Address|
                    #[trigger] self.pools().dom().contains((chain, a)) && type_selected(
                        self.pools()[(chain, a)],
                        filter_view(pool_types),
                    ) ==> exists|i: int| 0 <= i < v@.len() && (#[trigger] v@[i]).address == a
            },
    ;

    /// Upserts each record under `(chain, address)`: existing records are
    /// replaced, none is deleted.
    fn save_pools(&mut self, pools: &Vec<Pool>, chain: Chain) -> (r: Result<(), PoolSyncError>)
        requires
            old(self).wf(),
        ensures
            final(self).wf(),
            r is Ok ==> final(self).pools() == upsert_pools_map(old(self).pools(), pools@, chain)
                && final(self).watermarks() == old(self).watermarks(),
            r is Err ==> final(self).pools() == old(self).pools() && final(self).watermarks()
                == old(self).watermarks(),
    ;

    /// The last fully processed block for `(chain, pool_type)`, if one was
    /// ever recorded.
    fn get_last_processed_block(&self, chain: Chain, pool_type: PoolType) -> (r: Result<
        Option<u64>,
        PoolSyncError,
    >)
        requires
            self.wf(),
        ensures
            r is Ok ==> {
                let o = r->Ok_0;
                &&& o is Some <==> self.watermarks().dom().contains((chain, pool_type))
                &&& o is Some ==> o->0 == self.watermarks()[(chain, pool_type)]
            },
    ;

    /// Records `block` as the last fully processed block for `(chain,
    /// pool_type)`. The caller must never move a watermark backwards.
    fn update_last_processed_block(&mut self, chain: Chain, pool_type: PoolType, block: u64) -> (r:
        Result<(), PoolSyncError>)
        requires
            old(self).wf(),
            old(self).watermarks().dom().contains((chain, pool_type)) ==> old(
                self,
            ).watermarks()[(chain, pool_type)] <= block,
        ensures
            final(self).wf(),
            r is Ok ==> final(self).watermarks() == old(self).watermarks().insert(
                (chain, pool_type),
                block,
            ) && final(self).pools() == old(self).pools(),
            r is Err ==> final(self).pools() == old(self).pools() && final(self).watermarks()
                == old(self).watermarks(),
    ;
}

/// Whether the pool-type keys of `s` are pairwise distinct.
pub open spec fn distinct_types(s: Seq<(PoolType, u64)>) -> bool {
    forall|i: int, j: int| 0 <= i < j < s.len() ==> (#[trigger] s[i]).0 != (#[trigger] s[j]).0
}

/// The map a sequence of watermark entries denotes; on duplicate keys the
/// later entry wins.
pub open spec fn wm_seq_to_map(s: Seq<(PoolType, u64)>) -> Map<PoolType, u64>
    decreases s.len(),
{
    if s.len() == 0 {
        Map::empty()
    } else {
        wm_seq_to_map(s.drop_last()).insert(s.last().0, s.last().1)
    }
}

proof fn lemma_wm_map_dom(s: Seq<(PoolType, u64)>)
    ensures
        forall|t: PoolType|
            #[trigger] wm_seq_to_map(s).dom().contains(t) <==> exists|i: int|
                0 <= i < s.len() && (#[trigger] s[i]).0 == t,
    decreases s.len(),
{
    if s.len() > 0 {
        lemma_wm_map_dom(s.drop_last());
        assert forall|t: PoolType| #[trigger] wm_seq_to_map(s).dom().contains(t) implies exists|
            i: int,
        | 0 <= i < s.len() && (#[trigger] s[i]).0 == t by {
            if t == s.last().0 {
                assert(s[s.len() - 1].0 == t);
            } else {
                assert(wm_seq_to_map(s.drop_last()).dom().contains(t));
                let i = choose|i: int|
                    0 <= i < s.drop_last().len() && (#[trigger] s.drop_last()[i]).0 == t;
                assert(s[i].0 == t);
            }
        };
        assert forall|t: PoolType|
            exists|i: int|
                0 <= i < s.len() && (#[trigger] s[i]).0 == t implies #[trigger] wm_seq_to_map(
            s,
        ).dom().contains(t) by {
            let i = choose|i: int| 0 <= i < s.len() && (#[trigger] s[i]).0 == t;
            if i < s.len() - 1 {
                assert(s.drop_last()[i].0 == t);
                assert(wm_seq_to_map(s.drop_last()).dom().contains(t));
            }
        };
    }
}

proof fn lemma_wm_map_get(s: Seq<(PoolType, u64)>)
    requires
        distinct_types(s),
    ensures
        forall|i: int|
            0 <= i < s.len() ==> wm_seq_to_map(s).dom().contains((#[trigger] s[i]).0)
                && wm_seq_to_map(s)[s[i].0] == s[i].1,
    decreases s.len(),
{
    if s.len() > 0 {
        assert(distinct_types(s.drop_last()));
        lemma_wm_map_get(s.drop_last());
        assert forall|i: int|
            0 <= i < s.len() implies wm_seq_to_map(s).dom().contains((#[trigger] s[i]).0)
            && wm_seq_to_map(s)[s[i].0] == s[i].1 by {
            if i < s.len() - 1 {
                assert(s.drop_last()[i] == s[i]);
                assert(s[i].0 != s.last().0);
            }
        };
    }
}

proof fn lemma_wm_map_update(s: Seq<(PoolType, u64)>, i: int, e: (PoolType, u64))
    requires
        distinct_types(s),
        0 <= i < s.len(),
        e.0 == s[i].0,
    ensures
        wm_seq_to_map(s.update(i, e)) == wm_seq_to_map(s).insert(e.0, e.1),
    decreases s.len(),
{
    if i == s.len() - 1 {
        assert(s.update(i, e).drop_last() =~= s.drop_last());
        assert(s.update(i, e).last() == e);
        assert(wm_seq_to_map(s.update(i, e)) =~= wm_seq_to_map(s).insert(e.0, e.1));
    } else {
        assert(distinct_types(s.drop_last()));
        assert(s.drop_last()[i] == s[i]);
        lemma_wm_map_update(s.drop_last(), i, e);
        assert(s.update(i, e).drop_last() =~= s.drop_last().update(i, e));
        assert(s.update(i, e).last() == s.last());
        assert(e.0 != s.last().0);
        assert(wm_seq_to_map(s.update(i, e)) =~= wm_seq_to_map(s).insert(e.0, e.1));
    }
}

/// The watermarks of one chain: at most one entry per pool type.
pub struct WatermarkMap {
    items: Vec<(PoolType, u64)>,
}

impl View for WatermarkMap {
    type V = Map<PoolType, u64>;

    closed spec fn view(&self) -> Map<PoolType, u64> {
        wm_seq_to_map(self.items@)
    }
}

impl WatermarkMap {
    /// Well-formedness: at most one entry per pool type.
    pub closed spec fn wf(&self) -> bool {
        distinct_types(self.items@)
    }

    pub fn new() -> (m: WatermarkMap)
        ensures
            m.wf(),
            m@ =~= Map::<PoolType, u64>::empty(),
    {
        WatermarkMap { items: Vec::new() }
    }

    fn find(&self, t: &PoolType) -> (r: Option<usize>)
        ensures
            match r {
                Some(i) => i < self.items@.len() && self.items@[i as int].0 == *t,
                None => forall|i: int|
                    0 <= i < self.items@.len() ==> (#[trigger] self.items@[i]).0 != *t,
            },
    {
        let mut i: usize = 0;
        while i < self.items.len()
            invariant
                i <= self.items.len(),
                forall|j: int| 0 <= j < i ==> (#[trigger] self.items@[j]).0 != *t,
            decreases self.items.len() - i,
        {
            if self.items[i].0 == *t {
                return Some(i);
            }
            i = i + 1;
        }
        None
    }

    /// The recorded watermark for `t`, if any.
    pub fn get(&self, t: &PoolType) -> (r: Option<u64>)
        requires
            self.wf(),
        ensures
            r is Some <==> self@.dom().contains(*t),
            r is Some ==> r->0 == self@[*t],
    {
        proof {
            lemma_wm_map_dom(self.items@);
            lemma_wm_map_get(self.items@);
        }
        match self.find(t) {
            Some(i) => Some(self.items[i].1),
            None => None,
        }
    }

    /// Records `v` as the watermark for `t`, replacing any earlier record.
    pub fn set(&mut self, t: PoolType, v: u64)
        requires
            old(self).wf(),
        ensures
            final(self).wf(),
            final(self)@ == old(self)@.insert(t, v),
    {
        proof {
            lemma_wm_map_dom(self.items@);
        }
        match self.find(&t) {
            Some(i) => {
                proof {
                    lemma_wm_map_update(self.items@, i as int, (t, v));
                }
                self.items[i] = (t, v);
            },
            None => {
                self.items.push((t, v));
                proof {
                    assert(self.items@.drop_last() =~= old(self).items@);
                }
            },
        }
    }
}

/// A verified in-memory pool store: one pool map and one watermark map per
/// chain.
pub struct MemoryDatabase {
    pools_ethereum: PoolMap,
    pools_base: PoolMap,
    wm_ethereum: WatermarkMap,
    wm_base: WatermarkMap,
}

impl MemoryDatabase {
    /// The pool records stored for one chain.
    pub closed spec fn chain_pools(&self, chain: Chain) -> Map<Address, Pool> {
        match chain {
            Chain::Ethereum => self.pools_ethereum@,
            Chain::Base => self.pools_base@,
        }
    }

    /// The watermarks stored for one chain.
    pub closed spec fn chain_watermarks(&self, chain: Chain) -> Map<PoolType, u64> {
        match chain {
            Chain::Ethereum => self.wm_ethereum@,
            Chain::Base => self.wm_base@,
        }
    }

    /// An empty store.
    pub fn new() -> (db: MemoryDatabase)
        ensures
            db.wf(),
            db.pools() =~= Map::<(Chain, Address), Pool>::empty(),
            db.watermarks() =~= Map::<(Chain, PoolType), u64>::empty(),
    {
        let db = MemoryDatabase {
            pools_ethereum: PoolMap::new(),
            pools_base: PoolMap::new(),
            wm_ethereum: WatermarkMap::new(),
            wm_base: WatermarkMap::new(),
        };
        proof {
            assert forall|k: (Chain, Address)| !(#[trigger] db.pools().dom().contains(k)) by {
                if db.chain_pools(k.0).dom().contains(k.1) {
                }
            };
            assert forall|k: (Chain, PoolType)| !(#[trigger] db.watermarks().dom().contains(
                k,
            )) by {
                if db.chain_watermarks(k.0).dom().contains(k.1) {
                }
            };
            assert(db.pools() =~= Map::<(Chain, Address), Pool>::empty());
            assert(db.watermarks() =~= Map::<(Chain, PoolType), u64>::empty());
        }
        db
    }
}

/// Whether `v` holds the pool type `t`.
fn contains_pool_type(v: &Vec<PoolType>, t: &PoolType) -> (r: bool)
    ensures
        r == v@.contains(*t),
{
    let mut i: usize = 0;
    while i < v.len()
        invariant
            i <= v.len(),
            forall|k: int| 0 <= k < i ==> v@[k] != *t,
        decreases v.len() - i,
    {
        if v[i] == *t {
            proof {
                assert(v@[i as int] == *t);
            }
            return true;
        }
        i = i + 1;
    }
    proof {
        if v@.contains(*t) {
            let k = choose|k: int| 0 <= k < v@.len() && v@[k] == *t;
        }
    }
    false
}

impl PoolDatabase for MemoryDatabase {
    closed spec fn wf(&self) -> bool {
        &&& self.pools_ethereum.wf()
        &&& self.pools_base.wf()
        &&& self.wm_ethereum.wf()
        &&& self.wm_base.wf()
    }

    closed spec fn pools(&self) -> Map<(Chain, Address), Pool> {
        Map::new(
            |k: (Chain, Address)| self.chain_pools(k.0).dom().contains(k.1),
            |k: (Chain, Address)| self.chain_pools(k.0)[k.1],
        )
    }

    closed spec fn watermarks(&self) -> Map<(Chain, PoolType), u64> {
        Map::new(
            |k: (Chain, PoolType)| self.chain_watermarks(k.0).dom().contains(k.1),
            |k: (Chain, PoolType)| self.chain_watermarks(k.0)[k.1],
        )
    }

    fn load_pools(&self, chain: Chain, pool_types: Option<&Vec<PoolType>>) -> (r: Result<
        Vec<Pool>,
        PoolSyncError,
    >)
        ensures
            r is Ok,
    {
        let all = match chain {
            Chain::Ethereum => self.pools_ethereum.to_vec(),
            Chain::Base => self.pools_base.to_vec(),
        };
        let mut out: Vec<Pool> = Vec::new();
        let mut i: usize = 0;
        while i < all.len()
            invariant
                i <= all.len(),
                distinct_addresses(all@),
                forall|k: int|
                    0 <= k < all@.len() ==> self.chain_pools(chain).dom().contains(
                        (#[trigger] all@[k]).address,
                    ) && self.chain_pools(chain)[all@[k].address] == all@[k],
                distinct_addresses(out@),
                forall|j: int|
                    0 <= j < out@.len() ==> {
                        let p = #[trigger] out@[j];
                        &&& self.chain_pools(chain).dom().contains(p.address)
                        &&& self.chain_pools(chain)[p.address] == p
                        &&& type_selected(p, filter_view(pool_types))
                    },
                forall|k: int|
                    0 <= k < i && type_selected(#[trigger] all@[k], filter_view(pool_types))
                        ==> out@.contains(all@[k]),
                forall|j: int|
                    0 <= j < out@.len() ==> exists|k: int|
                        0 <= k < i && all@[k] == #[trigger] out@[j],
            decreases all.len() - i,
        {
            let p = all[i];
            let selected = match pool_types {
                Option::None => true,
                Option::Some(ts) => contains_pool_type(ts, &p.pool_type),
            };
            if selected {
                let ghost prev = out@;
                out.push(p);
                proof {
                    assert forall|x: int, y: int|
                        0 <= x < y < out@.len() implies (#[trigger] out@[x]).address != (
                    #[trigger] out@[y]).address by {
                        if y == out@.len() - 1 {
                            // a clashing address would mean the same entry of
                            // `all` was pushed twice, but each entry of `all`
                            // is considered once and their addresses are
                            // pairwise distinct
                            if out@[x].address == out@[y].address {
                                assert(prev[x] == out@[x]);
                                assert(prev.contains(prev[x]));
                                let k = choose|k: int| 0 <= k < i && all@[k] == #[trigger] prev[x];
                                assert(all@[k].address == all@[i as int].address);
                            }
                        }
                    };
                    assert forall|j: int| 0 <= j < out@.len() implies exists|k: int|
                        0 <= k < i + 1 && all@[k] == #[trigger] out@[j] by {
                        if j < out@.len() - 1 {
                            let k = choose|k: int| 0 <= k < i && all@[k] == #[trigger] prev[j];
                            assert(all@[k] == out@[j]);
                        } else {
                            assert(all@[i as int] == out@[j]);
                        }
                    };
                    assert forall|k: int|
                        0 <= k < i + 1 && type_selected(
                            #[trigger] all@[k],
                            filter_view(pool_types),
                        ) implies out@.contains(all@[k]) by {
                        if k < i {
                            assert(prev.contains(all@[k]));
                            let j = choose|j: int| 0 <= j < prev.len() && prev[j] == all@[k];
                            assert(out@[j] == all@[k]);
                        } else {
                            assert(out@[out@.len() - 1] == all@[k]);
                        }
                    };
                }
            } else {
                proof {
                    assert forall|k: int|
                        0 <= k < i + 1 && type_selected(
                            #[trigger] all@[k],
                            filter_view(pool_types),
                        ) implies out@.contains(all@[k]) by {
                        if k == i {
                            assert(!type_selected(all@[k], filter_view(pool_types)));
                        }
                    };
                }
            }
            i = i + 1;
        }
        proof {
            assert forall|a: Address|
                #[trigger] self.pools().dom().contains((chain, a)) && type_selected(
                    self.pools()[(chain, a)],
                    filter_view(pool_types),
                ) implies exists|j: int|
                0 <= j < out@.len() && (#[trigger] out@[j]).address == a by {
                let k = choose|k: int| 0 <= k < all@.len() && (#[trigger] all@[k]).address == a;
                assert(all@[k] == self.chain_pools(chain)[a]);
                assert(out@.contains(all@[k]));
                let j = choose|j: int| 0 <= j < out@.len() && out@[j] == all@[k];
                assert(out@[j].address == a);
            };
        }
        Ok(out)
    }

    fn save_pools(&mut self, pools: &Vec<Pool>, chain: Chain) -> (r: Result<(), PoolSyncError>)
        ensures
            r is Ok,
    {
        let ghost orig = self.pools();
        let mut i: usize = 0;
        while i < pools.len()
            invariant
                i <= pools.len(),
                self.pools_ethereum.wf(),
                self.pools_base.wf(),
                self.wm_ethereum.wf(),
                self.wm_base.wf(),
                self.pools() == upsert_pools_map(orig, pools@.subrange(0, i as int), chain),
                self.watermarks() == old(self).watermarks(),
                self.chain_watermarks(Chain::Ethereum) == old(self).chain_watermarks(
                    Chain::Ethereum,
                ),
                self.chain_watermarks(Chain::Base) == old(self).chain_watermarks(Chain::Base),
            decreases pools.len() - i,
        {
            let p = pools[i];
            let ghost before = self.pools();
            match chain {
                Chain::Ethereum => self.pools_ethereum.upsert(p),
                Chain::Base => self.pools_base.upsert(p),
            }
            proof {
                assert(self.pools() =~= before.insert((chain, p.address), p));
                assert(pools@.subrange(0, i + 1) =~= pools@.subrange(0, i as int).push(
                    pools@[i as int],
                ));
                assert(pools@.subrange(0, i + 1).drop_last() =~= pools@.subrange(0, i as int));
                assert(self.watermarks() =~= old(self).watermarks());
            }
            i = i + 1;
        }
        proof {
            assert(pools@.subrange(0, pools@.len() as int) =~= pools@);
        }
        Ok(())
    }

    fn get_last_processed_block(&self, chain: Chain, pool_type: PoolType) -> (r: Result<
        Option<u64>,
        PoolSyncError,
    >)
        ensures
            r is Ok,
    {
        let o = match chain {
            Chain::Ethereum => self.wm_ethereum.get(&pool_type),
            Chain::Base => self.wm_base.get(&pool_type),
        };
        Ok(o)
    }

    fn update_last_processed_block(&mut self, chain: Chain, pool_type: PoolType, block: u64) -> (r:
        Result<(), PoolSyncError>)
        ensures
            r is Ok,
    {
        match chain {
            Chain::Ethereum => self.wm_ethereum.set(pool_type, block),
            Chain::Base => self.wm_base.set(pool_type, block),
        }
        proof {
            assert(self.watermarks() =~= old(self).watermarks().insert((chain, pool_type), block));
            assert(self.pools() =~= old(self).pools());
        }
        Ok(())
    }
}

} // verus!
