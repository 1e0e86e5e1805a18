//! Chronological application of liquidity logs.
//!
//! Fetch tasks complete in arbitrary order, so the logs of a block range
//! arrive unordered. Before they touch any pool they are grouped by block
//! number and the blocks are visited in ascending order, keeping the source
//! order of logs that share a block. The specification of what a range of
//! history does to a pool is [`fold_range_at`]: block by block in ascending
//! order, each block's logs in source order.

use vstd::prelude::*;

use crate::store::PoolMap;
use crate::types::Address;
use crate::types::FetcherConfig;
use crate::types::Log;
use crate::types::Pool;
use crate::types::apply_log;
use crate::types::is_creation_log;
use crate::types::lemma_apply_log_frame;
use crate::types::spec_apply_log;
use crate::types::spec_created_address;

verus! {

/// Keeps logs whose block lies in `[lo, hi]`.
pub open spec fn pred_in_range(lo: int, hi: int) -> spec_fn(Log) -> bool {
    |l: Log| lo <= l.block_number <= hi
}

/// Keeps logs emitted by `a` in block `b`.
pub open spec fn pred_addr_block(a: Address, b: int) -> spec_fn(Log) -> bool {
    |l: Log| l.emitter == a && l.block_number == b
}

/// The logs of `src` that `a` emitted in block `b`, in source order.
pub open spec fn addr_block_logs(src: Seq<Log>, a: Address, b: int) -> Seq<Log> {
    src.filter(pred_addr_block(a, b))
}

/// Applies `ls` to `p` front to back.
pub open spec fn apply_seq(p: Pool, ls: Seq<Log>, initial: bool) -> Pool
    decreases ls.len(),
{
    if ls.len() == 0 {
        p
    } else {
        apply_seq(spec_apply_log(p, ls[0], initial), ls.drop_first(), initial)
    }
}

/// What replaying the blocks `lo..=hi` of `src` does to a pool filed under
/// address `a`: blocks are visited in ascending order, and within one block
/// the logs addressed to `a` are applied in source order.
pub open spec fn fold_range_at(
    a: Address,
    p: Pool,
    src: Seq<Log>,
    lo: int,
    hi: int,
    initial: bool,
) -> Pool
    decreases hi + 1 - lo,
{
    if lo > hi {
        p
    } else {
        fold_range_at(
            a,
            apply_seq(p, addr_block_logs(src, a, lo), initial),
            src,
            lo + 1,
            hi,
            initial,
        )
    }
}

/// Whether `src` holds a log emitted by `a` in a block of `[lo, hi]`.
pub open spec fn has_log_in_range(src: Seq<Log>, a: Address, lo: int, hi: int) -> bool {
    exists|i: int|
        0 <= i < src.len() && (#[trigger] src[i]).emitter == a && lo <= src[i].block_number <= hi
}

/// Whether `s` holds a log emitted by `a`.
pub open spec fn has_addr_log(s: Seq<Log>, a: Address) -> bool {
    exists|i: int| 0 <= i < s.len() && (#[trigger] s[i]).emitter == a
}

/// Whether `src` holds a creation event of the factory described by `cfg`,
/// in a block of `[lo, hi]`, announcing pool address `a`.
pub open spec fn is_discovered(
    src: Seq<Log>,
    cfg: FetcherConfig,
    lo: u64,
    hi: u64,
    a: Address,
) -> bool {
    exists|i: int|
        0 <= i < src.len() && is_creation_log(#[trigger] src[i], cfg) && lo <= src[i].block_number
            <= hi && spec_created_address(src[i]) == a
}

/// Whether some log of `v` belongs to block `b`.
pub open spec fn block_occurs(v: Seq<Log>, b: u64) -> bool {
    exists|k: int| 0 <= k < v.len() && (#[trigger] v[k]).block_number == b
}

/// Whether the values of `s` are strictly increasing.
pub open spec fn strictly_ascending(s: Seq<u64>) -> bool {
    forall|i: int, j: int| 0 <= i < j < s.len() ==> s[i] < s[j]
}

/// Filtering a sequence extended by one element keeps the filtered prefix
/// and appends the element exactly when it matches.
pub proof fn lemma_filter_push(s: Seq<Log>, pred: spec_fn(Log) -> bool, x: Log)
    ensures
        s.push(x).filter(pred) == if pred(x) {
            s.filter(pred).push(x)
        } else {
            s.filter(pred)
        },
{
    reveal(Seq::filter);
    assert(s.push(x).drop_last() =~= s);
    assert(s.push(x).last() == x);
}

/// A filter whose predicate rejects every element yields the empty sequence.
pub proof fn lemma_filter_none(s: Seq<Log>, pred: spec_fn(Log) -> bool)
    requires
        forall|i: int| 0 <= i < s.len() ==> !pred(#[trigger] s[i]),
    ensures
        s.filter(pred) == Seq::<Log>::empty(),
    decreases s.len(),
{
    reveal(Seq::filter);
    if s.len() > 0 {
        assert(forall|i: int| 0 <= i < s.drop_last().len() ==> !pred(#[trigger] s.drop_last()[i]));
        lemma_filter_none(s.drop_last(), pred);
    }
}

/// Filters by pointwise-equal predicates coincide.
pub proof fn lemma_filter_ext(s: Seq<Log>, p: spec_fn(Log) -> bool, q: spec_fn(Log) -> bool)
    requires
        forall|l: Log| #[trigger] p(l) <==> #[trigger] q(l),
    ensures
        s.filter(p) == s.filter(q),
    decreases s.len(),
{
    reveal(Seq::filter);
    if s.len() > 0 {
        lemma_filter_ext(s.drop_last(), p, q);
    }
}

/// Two filters in a row are one filter by the conjunction.
pub proof fn lemma_filter_compose(
    s: Seq<Log>,
    p: spec_fn(Log) -> bool,
    q: spec_fn(Log) -> bool,
    pq: spec_fn(Log) -> bool,
)
    requires
        forall|l: Log| #[trigger] pq(l) <==> p(l) && q(l),
    ensures
        s.filter(p).filter(q) == s.filter(pq),
    decreases s.len(),
{
    reveal(Seq::filter);
    if s.len() > 0 {
        let t = s.drop_last();
        lemma_filter_compose(t, p, q, pq);
        if p(s.last()) {
            lemma_filter_push(t.filter(p), q, s.last());
        }
    }
}

/// Applying one more log is one more application.
pub proof fn lemma_apply_seq_push(p: Pool, s: Seq<Log>, x: Log, initial: bool)
    ensures
        apply_seq(p, s.push(x), initial) == spec_apply_log(apply_seq(p, s, initial), x, initial),
    decreases s.len(),
{
    if s.len() == 0 {
        let q2 = spec_apply_log(p, x, initial);
        assert(s.push(x)[0] == x);
        assert(apply_seq(p, s.push(x), initial) == apply_seq(
            q2,
            s.push(x).drop_first(),
            initial,
        ));
        assert(s.push(x).drop_first() =~= Seq::<Log>::empty());
        assert(apply_seq(q2, Seq::<Log>::empty(), initial) == q2);
        assert(apply_seq(p, s, initial) == p);
    } else {
        let q = spec_apply_log(p, s[0], initial);
        assert(s.push(x)[0] == s[0]);
        assert(s.push(x).drop_first() =~= s.drop_first().push(x));
        assert(apply_seq(p, s.push(x), initial) == apply_seq(
            q,
            s.drop_first().push(x),
            initial,
        ));
        lemma_apply_seq_push(q, s.drop_first(), x, initial);
        assert(apply_seq(p, s, initial) == apply_seq(q, s.drop_first(), initial));
    }
}

/// Applying a sequence of logs changes at most the pool's state.
pub proof fn lemma_apply_seq_frame(p: Pool, ls: Seq<Log>, initial: bool)
    ensures
        apply_seq(p, ls, initial).address == p.address,
        apply_seq(p, ls, initial).pool_type == p.pool_type,
        apply_seq(p, ls, initial).token0 == p.token0,
        apply_seq(p, ls, initial).token1 == p.token1,
        p.wf() ==> apply_seq(p, ls, initial).wf(),
    decreases ls.len(),
{
    if ls.len() > 0 {
        lemma_apply_log_frame(p, ls[0], initial);
        lemma_apply_seq_frame(spec_apply_log(p, ls[0], initial), ls.drop_first(), initial);
    }
}

/// Replaying a block range changes at most the pool's state.
pub proof fn lemma_fold_range_at_frame(
    a: Address,
    p: Pool,
    src: Seq<Log>,
    lo: int,
    hi: int,
    initial: bool,
)
    ensures
        fold_range_at(a, p, src, lo, hi, initial).address == p.address,
        fold_range_at(a, p, src, lo, hi, initial).pool_type == p.pool_type,
        fold_range_at(a, p, src, lo, hi, initial).token0 == p.token0,
        fold_range_at(a, p, src, lo, hi, initial).token1 == p.token1,
        p.wf() ==> fold_range_at(a, p, src, lo, hi, initial).wf(),
    decreases hi + 1 - lo,
{
    if lo <= hi {
        lemma_apply_seq_frame(p, addr_block_logs(src, a, lo), initial);
        lemma_fold_range_at_frame(
            a,
            apply_seq(p, addr_block_logs(src, a, lo), initial),
            src,
            lo + 1,
            hi,
            initial,
        );
    }
}

/// Replaying `lo..=hi` is replaying `lo..=mid` and then `mid+1..=hi`: the
/// two ranges partition the whole one, with no block skipped and none
/// replayed twice.
pub proof fn lemma_fold_range_split(
    a: Address,
    p: Pool,
    src: Seq<Log>,
    lo: int,
    mid: int,
    hi: int,
    initial: bool,
)
    requires
        lo <= mid + 1,
        mid <= hi,
    ensures
        fold_range_at(a, p, src, lo, hi, initial) == fold_range_at(
            a,
            fold_range_at(a, p, src, lo, mid, initial),
            src,
            mid + 1,
            hi,
            initial,
        ),
    decreases mid + 1 - lo,
{
    if lo <= mid {
        lemma_fold_range_split(
            a,
            apply_seq(p, addr_block_logs(src, a, lo), initial),
            src,
            lo + 1,
            mid,
            hi,
            initial,
        );
    }
}

/// Replaying a range in which `a` emitted nothing leaves the pool as it is.
pub proof fn lemma_fold_range_no_logs(
    a: Address,
    p: Pool,
    src: Seq<Log>,
    lo: int,
    hi: int,
    initial: bool,
)
    requires
        forall|i: int|
            0 <= i < src.len() ==> !((#[trigger] src[i]).emitter == a && lo
                <= src[i].block_number <= hi),
    ensures
        fold_range_at(a, p, src, lo, hi, initial) == p,
    decreases hi + 1 - lo,
{
    if lo <= hi {
        assert forall|i: int| 0 <= i < src.len() implies !(#[trigger] pred_addr_block(a, lo)(
            src[i],
        )) by {
            assert(!(src[i].emitter == a && lo <= src[i].block_number <= hi));
        };
        lemma_filter_none(src, pred_addr_block(a, lo));
        lemma_fold_range_no_logs(a, p, src, lo + 1, hi, initial);
    }
}

/// Restricting to a block range first does not change a single block's
/// logs inside that range.
pub proof fn lemma_range_restrict(src: Seq<Log>, lo: int, hi: int, a: Address, b: int)
    requires
        lo <= b <= hi,
    ensures
        src.filter(pred_in_range(lo, hi)).filter(pred_addr_block(a, b)) == addr_block_logs(
            src,
            a,
            b,
        ),
{
    let pq: spec_fn(Log) -> bool = |l: Log|
        (lo <= l.block_number <= hi) && (l.emitter == a && l.block_number == b);
    lemma_filter_compose(src, pred_in_range(lo, hi), pred_addr_block(a, b), pq);
    lemma_filter_ext(src, pq, pred_addr_block(a, b));
}

/// `a` emitted a log in `[lo, hi]` exactly when the range restriction of
/// the source holds a log of `a`.
pub proof fn lemma_in_range_has_addr(src: Seq<Log>, lo: int, hi: int, a: Address)
    ensures
        has_addr_log(src.filter(pred_in_range(lo, hi)), a) <==> has_log_in_range(src, a, lo, hi),
{
    let in_range = src.filter(pred_in_range(lo, hi));
    if has_addr_log(in_range, a) {
        let i = choose|i: int| 0 <= i < in_range.len() && (#[trigger] in_range[i]).emitter == a;
        Seq::lemma_filter_pred(src, pred_in_range(lo, hi), i);
        Seq::lemma_filter_contains_rev(src, pred_in_range(lo, hi), in_range[i]);
        let j = choose|j: int| 0 <= j < src.len() && src[j] == in_range[i];
        assert(src[j].emitter == a && lo <= src[j].block_number <= hi);
    }
    if has_log_in_range(src, a, lo, hi) {
        let i = choose|i: int|
            0 <= i < src.len() && (#[trigger] src[i]).emitter == a && lo <= src[i].block_number
                <= hi;
        Seq::lemma_filter_contains(src, pred_in_range(lo, hi), i);
        let j = choose|j: int| 0 <= j < in_range.len() && in_range[j] == src[i];
        assert(in_range[j].emitter == a);
    }
}

/// Keeps the logs whose block lies in the inclusive range `[lo, hi]`,
/// in source order.
pub fn logs_in_range(src: &Vec<Log>, lo: u64, hi: u64) -> (out: Vec<Log>)
    ensures
        out@ == src@.filter(pred_in_range(lo as int, hi as int)),
{
    let ghost pred = pred_in_range(lo as int, hi as int);
    let mut out: Vec<Log> = Vec::new();
    proof {
        assert(src@.subrange(0, 0) =~= Seq::<Log>::empty());
        assert(Seq::<Log>::empty().filter(pred) =~= Seq::<Log>::empty()) by {
            reveal(Seq::filter);
        }
    }
    let mut i: usize = 0;
    while i < src.len()
        invariant
            i <= src.len(),
            out@ == src@.subrange(0, i as int).filter(pred_in_range(lo as int, hi as int)),
        decreases src.len() - i,
    {
        let l = src[i];
        proof {
            assert(src@.subrange(0, i + 1) =~= src@.subrange(0, i as int).push(src@[i as int]));
            lemma_filter_push(
                src@.subrange(0, i as int),
                pred_in_range(lo as int, hi as int),
                src@[i as int],
            );
        }
        if lo <= l.block_number && l.block_number <= hi {
            out.push(l);
        }
        i = i + 1;
    }
    proof {
        assert(src@.subrange(0, src@.len() as int) =~= src@);
    }
    out
}

/// The distinct block numbers occurring in `v`, in strictly ascending
/// order.
pub fn collect_blocks(v: &Vec<Log>) -> (blocks: Vec<u64>)
    ensures
        strictly_ascending(blocks@),
        forall|k: int| 0 <= k < v@.len() ==> blocks@.contains((#[trigger] v@[k]).block_number),
        forall|j: int| 0 <= j < blocks@.len() ==> block_occurs(v@, #[trigger] blocks@[j]),
{
    let mut blocks: Vec<u64> = Vec::new();
    let mut i: usize = 0;
    while i < v.len()
        invariant
            i <= v.len(),
            strictly_ascending(blocks@),
            forall|k: int| 0 <= k < i ==> blocks@.contains((#[trigger] v@[k]).block_number),
            forall|j: int| 0 <= j < blocks@.len() ==> block_occurs(v@, #[trigger] blocks@[j]),
        decreases v.len() - i,
    {
        let b = v[i].block_number;
        let mut pos: usize = 0;
        while pos < blocks.len() && blocks[pos] < b
            invariant
                pos <= blocks.len(),
                forall|k: int| 0 <= k < pos ==> blocks@[k] < b,
            decreases blocks.len() - pos,
        {
            pos = pos + 1;
        }
        if pos < blocks.len() && blocks[pos] == b {
            // already collected
            proof {
                assert(blocks@.contains(b));
            }
        } else {
            let ghost old_blocks = blocks@;
            blocks.insert(pos, b);
            proof {
                old_blocks.insert_ensures(pos as int, b);
                lemma_insert_contains(old_blocks, pos as int, b);
                assert forall|x: int, y: int|
                    0 <= x < y < blocks@.len() implies blocks@[x] < blocks@[y] by {
                    if x < pos && y < pos {
                    } else if x < pos && y == pos {
                    } else if x < pos && y > pos {
                        assert(blocks@[y] == old_blocks[y - 1]);
                    } else if x == pos && y > pos {
                        assert(blocks@[y] == old_blocks[y - 1]);
                        assert(old_blocks[y - 1] > b);
                    } else {
                        assert(blocks@[x] == old_blocks[x - 1]);
                        assert(blocks@[y] == old_blocks[y - 1]);
                    }
                };
                assert forall|j: int| 0 <= j < blocks@.len() implies block_occurs(
                    v@,
                    #[trigger] blocks@[j],
                ) by {
                    if j == pos {
                        assert(v@[i as int].block_number == blocks@[j]);
                    } else {
                        let jj: int = if j < pos {
                            j
                        } else {
                            j - 1
                        };
                        assert(blocks@[j] == old_blocks[jj]);
                        assert(block_occurs(v@, old_blocks[jj]));
                    }
                };
            }
        }
        i = i + 1;
    }
    blocks
}

/// Applies the logs of block `b` among `in_range`, in source order, to
/// whichever tracked pool each log addresses.
fn apply_block(pools: &mut PoolMap, in_range: &Vec<Log>, b: u64, initial: bool)
    requires
        old(pools).wf(),
    ensures
        final(pools).wf(),
        final(pools)@.dom() == old(pools)@.dom(),
        forall|a: Address|
            #[trigger] old(pools)@.dom().contains(a) ==> final(pools)@[a] == apply_seq(
                old(pools)@[a],
                in_range@.filter(pred_addr_block(a, b as int)),
                initial,
            ),
{
    let ghost base = pools@;
    proof {
        assert(in_range@.subrange(0, 0) =~= Seq::<Log>::empty());
        assert forall|a: Address| #[trigger] base.dom().contains(a) implies base[a] == apply_seq(
            base[a],
            in_range@.subrange(0, 0).filter(pred_addr_block(a, b as int)),
            initial,
        ) by {
            assert(Seq::<Log>::empty().filter(pred_addr_block(a, b as int))
                =~= Seq::<Log>::empty()) by {
                reveal(Seq::filter);
            }
        };
    }
    let mut i: usize = 0;
    while i < in_range.len()
        invariant
            i <= in_range.len(),
            pools.wf(),
            pools@.dom() == base.dom(),
            forall|a: Address|
                #[trigger] base.dom().contains(a) ==> pools@[a] == apply_seq(
                    base[a],
                    in_range@.subrange(0, i as int).filter(pred_addr_block(a, b as int)),
                    initial,
                ),
        decreases in_range.len() - i,
    {
        let l = in_range[i];
        let ghost mid = pools@;
        if l.block_number == b {
            match pools.get(&l.emitter) {
                Some(p) => {
                    let p2 = apply_log(p, &l, initial);
                    proof {
                        crate::types::lemma_apply_log_frame(p, in_range@[i as int], initial);
                    }
                    pools.upsert(p2);
                    proof {
                        assert(pools@.dom() =~= mid.dom());
                    }
                },
                None => {},
            }
        }
        proof {
            assert(in_range@.subrange(0, i + 1) =~= in_range@.subrange(0, i as int).push(
                in_range@[i as int],
            ));
            assert forall|a: Address| #[trigger] base.dom().contains(a) implies pools@[a]
                == apply_seq(
                base[a],
                in_range@.subrange(0, i + 1).filter(pred_addr_block(a, b as int)),
                initial,
            ) by {
                let prefix = in_range@.subrange(0, i as int);
                lemma_filter_push(prefix, pred_addr_block(a, b as int), in_range@[i as int]);
                if l.emitter == a && l.block_number == b {
                    lemma_apply_seq_push(
                        base[a],
                        prefix.filter(pred_addr_block(a, b as int)),
                        in_range@[i as int],
                        initial,
                    );
                }
            };
        }
        i = i + 1;
    }
    proof {
        assert(in_range@.subrange(0, in_range@.len() as int) =~= in_range@);
    }
}

/// Whether `v` holds the address `a`.
fn contains_address(v: &Vec<Address>, a: &Address) -> (r: bool)
    ensures
        r == v@.contains(*a),
{
    let mut i: usize = 0;
    while i < v.len()
        invariant
            i <= v.len(),
            forall|k: int| 0 <= k < i ==> v@[k] != *a,
        decreases v.len() - i,
    {
        if v[i].hi == a.hi && v[i].mid == a.mid && v[i].lo == a.lo {
            proof {
                assert(v@[i as int] == *a);
            }
            return true;
        }
        i = i + 1;
    }
    proof {
        if v@.contains(*a) {
            let k = choose|k: int| 0 <= k < v@.len() && v@[k] == *a;
        }
    }
    false
}

/// The addresses of tracked pools that some log of `in_range` addresses,
/// without repetition.
fn compute_touched(pools: &PoolMap, in_range: &Vec<Log>) -> (touched: Vec<Address>)
    requires
        pools.wf(),
    ensures
        forall|k: int| 0 <= k < touched@.len() ==> pools@.dom().contains(#[trigger] touched@[k]),
        forall|a: Address|
            #[trigger] touched@.contains(a) <==> (pools@.dom().contains(a) && has_addr_log(
                in_range@,
                a,
            )),
{
    let mut touched: Vec<Address> = Vec::new();
    let mut i: usize = 0;
    while i < in_range.len()
        invariant
            i <= in_range.len(),
            forall|k: int|
                0 <= k < touched@.len() ==> pools@.dom().contains(#[trigger] touched@[k]),
            forall|a: Address|
                #[trigger] touched@.contains(a) <==> (pools@.dom().contains(a) && has_addr_log(
                    in_range@.subrange(0, i as int),
                    a,
                )),
        decreases in_range.len() - i,
    {
        let l = in_range[i];
        let ghost before = touched@;
        if pools.contains(&l.emitter) && !contains_address(&touched, &l.emitter) {
            touched.push(l.emitter);
        }
        proof {
            assert forall|a: Address| #[trigger] touched@.contains(a) implies (
            pools@.dom().contains(a) && has_addr_log(in_range@.subrange(0, i + 1), a)) by {
                let k = choose|k: int| 0 <= k < touched@.len() && touched@[k] == a;
                if k < before.len() {
                    assert(before[k] == a);
                    assert(before.contains(a));
                    let m = choose|m: int|
                        0 <= m < i && (#[trigger] in_range@.subrange(0, i as int)[m]).emitter == a;
                    assert(in_range@.subrange(0, i + 1)[m].emitter == a);
                } else {
                    assert(a == in_range@[i as int].emitter);
                    assert(in_range@.subrange(0, i + 1)[i as int].emitter == a);
                }
            };
            assert forall|a: Address|
                (pools@.dom().contains(a) && has_addr_log(
                    in_range@.subrange(0, i + 1),
                    a,
                )) implies #[trigger] touched@.contains(a) by {
                let m = choose|m: int|
                    0 <= m < i + 1 && (#[trigger] in_range@.subrange(0, i + 1)[m]).emitter == a;
                if m < i {
                    assert(in_range@.subrange(0, i as int)[m].emitter == a);
                    assert(before.contains(a));
                    let k = choose|k: int| 0 <= k < before.len() && before[k] == a;
                    assert(touched@[k] == a);
                } else {
                    // the current log addresses `a`
                    assert(in_range@[i as int].emitter == a);
                    if before.contains(a) {
                        let k = choose|k: int| 0 <= k < before.len() && before[k] == a;
                        assert(touched@[k] == a);
                    } else {
                        assert(touched@[touched@.len() - 1] == a);
                    }
                }
            };
        }
        i = i + 1;
    }
    proof {
        assert(in_range@.subrange(0, in_range@.len() as int) =~= in_range@);
    }
    touched
}

/// Fetches nothing itself: applies the given source logs whose block lies
/// in `[lo, hi]` to the tracked pools, in ascending block order, keeping
/// source order within a block, and reports which tracked pools were
/// addressed by at least one such log.
pub fn update_liquidity(
    pools: &mut PoolMap,
    source: &Vec<Log>,
    lo: u64,
    hi: u64,
    initial: bool,
) -> (touched: Vec<Address>)
    requires
        old(pools).wf(),
        lo <= hi,
    ensures
        final(pools).wf(),
        final(pools)@.dom() == old(pools)@.dom(),
        forall|a: Address|
            #[trigger] old(pools)@.dom().contains(a) ==> final(pools)@[a] == fold_range_at(
                a,
                old(pools)@[a],
                source@,
                lo as int,
                hi as int,
                initial,
            ),
        forall|k: int|
            0 <= k < touched@.len() ==> old(pools)@.dom().contains(#[trigger] touched@[k]),
        forall|a: Address|
            #[trigger] touched@.contains(a) <==> (old(pools)@.dom().contains(a)
                && has_log_in_range(source@, a, lo as int, hi as int)),
{
    let ghost src = source@;
    let ghost orig = pools@;
    let in_range = logs_in_range(source, lo, hi);
    let blocks = collect_blocks(&in_range);
    let mut g: usize = 0;
    while g < blocks.len()
        invariant
            g <= blocks.len(),
            lo <= hi,
            pools.wf(),
            pools@.dom() == orig.dom(),
            src == source@,
            in_range@ == src.filter(pred_in_range(lo as int, hi as int)),
            strictly_ascending(blocks@),
            forall|k: int|
                0 <= k < in_range@.len() ==> blocks@.contains(
                    (#[trigger] in_range@[k]).block_number,
                ),
            forall|j: int|
                0 <= j < blocks@.len() ==> block_occurs(in_range@, #[trigger] blocks@[j]),
            forall|a: Address|
                #[trigger] orig.dom().contains(a) ==> pools@[a] == fold_range_at(
                    a,
                    orig[a],
                    src,
                    lo as int,
                    if g == 0 {
                        lo as int - 1
                    } else {
                        blocks@[g as int - 1] as int
                    },
                    initial,
                ),
        decreases blocks.len() - g,
    {
        let b = blocks[g];
        let ghost prev: int = if g == 0 {
            lo as int - 1
        } else {
            blocks@[g as int - 1] as int
        };
        proof {
            // the block has a log in range, so it lies in [lo, hi]
            assert(block_occurs(in_range@, blocks@[g as int]));
            let k = choose|k: int|
                0 <= k < in_range@.len() && (#[trigger] in_range@[k]).block_number == blocks@[
                    g as int];
            Seq::lemma_filter_pred(src, pred_in_range(lo as int, hi as int), k);
            assert(lo <= b <= hi);
            assert(prev < b);
        }
        let ghost before = pools@;
        apply_block(pools, &in_range, b, initial);
        proof {
            assert forall|a: Address| #[trigger] orig.dom().contains(a) implies pools@[a]
                == fold_range_at(a, orig[a], src, lo as int, b as int, initial) by {
                // no log of `a` sits in the gap between the previous block
                // and this one
                assert forall|i2: int| 0 <= i2 < src.len() implies !((#[trigger] src[
                i2]).emitter == a && prev + 1 <= src[i2].block_number <= b as int - 1) by {
                    if src[i2].emitter == a && prev + 1 <= src[i2].block_number <= b as int - 1 {
                        Seq::lemma_filter_contains(src, pred_in_range(lo as int, hi as int), i2);
                        let k = choose|k: int|
                            0 <= k < in_range@.len() && in_range@[k] == src[i2];
                        assert(blocks@.contains(in_range@[k].block_number));
                        let j = choose|j: int|
                            0 <= j < blocks@.len() && blocks@[j] == src[i2].block_number;
                        if j < g {
                            assert(j <= g - 1);
                            if j < g - 1 {
                                assert(blocks@[j] < blocks@[g as int - 1]);
                            }
                            assert(blocks@[j] <= prev);
                        } else {
                            if j > g {
                                assert(blocks@[g as int] < blocks@[j]);
                            }
                            assert(blocks@[j] >= b);
                        }
                    }
                };
                lemma_fold_range_no_logs(a, before[a], src, prev + 1, b as int - 1, initial);
                lemma_range_restrict(src, lo as int, hi as int, a, b as int);
                // one block is one application step
                let y = apply_seq(before[a], addr_block_logs(src, a, b as int), initial);
                assert(fold_range_at(a, y, src, b as int + 1, b as int, initial) == y);
                assert(fold_range_at(a, before[a], src, b as int, b as int, initial)
                    == fold_range_at(a, y, src, b as int + 1, b as int, initial));
                lemma_fold_range_split(a, before[a], src, prev + 1, b as int - 1, b as int, initial);
                lemma_fold_range_split(a, orig[a], src, lo as int, prev, b as int, initial);
            };
        }
        g = g + 1;
    }
    proof {
        let last: int = if blocks@.len() == 0 {
            lo as int - 1
        } else {
            blocks@[blocks@.len() - 1] as int
        };
        assert forall|a: Address| #[trigger] orig.dom().contains(a) implies pools@[a]
            == fold_range_at(a, orig[a], src, lo as int, hi as int, initial) by {
            // no log of `a` lies after the last collected block
            assert forall|i2: int| 0 <= i2 < src.len() implies !((#[trigger] src[i2]).emitter == a
                && last + 1 <= src[i2].block_number <= hi as int) by {
                if src[i2].emitter == a && last + 1 <= src[i2].block_number <= hi as int {
                    assert(lo <= src[i2].block_number <= hi);
                    Seq::lemma_filter_contains(src, pred_in_range(lo as int, hi as int), i2);
                    let k = choose|k: int| 0 <= k < in_range@.len() && in_range@[k] == src[i2];
                    assert(blocks@.contains(in_range@[k].block_number));
                    let j = choose|j: int|
                        0 <= j < blocks@.len() && blocks@[j] == src[i2].block_number;
                    if j < blocks@.len() - 1 {
                        assert(blocks@[j] < blocks@[blocks@.len() - 1]);
                    }
                    assert(blocks@[j] <= last);
                }
            };
            lemma_fold_range_no_logs(a, pools@[a], src, last + 1, hi as int, initial);
            lemma_fold_range_split(a, orig[a], src, lo as int, last, hi as int, initial);
        };
    }
    let touched = compute_touched(pools, &in_range);
    proof {
        assert forall|a: Address| #[trigger] touched@.contains(a) implies (orig.dom().contains(a)
            && has_log_in_range(src, a, lo as int, hi as int)) by {
            lemma_in_range_has_addr(src, lo as int, hi as int, a);
        };
        assert forall|a: Address|
            (orig.dom().contains(a) && has_log_in_range(
                src,
                a,
                lo as int,
                hi as int,
            )) implies #[trigger] touched@.contains(a) by {
            lemma_in_range_has_addr(src, lo as int, hi as int, a);
        };
    }
    touched
}

/// The order in which the source delivers logs of different blocks is
/// irrelevant: two histories that agree, block by block, on the logs a
/// pool emitted — in the same within-block order — replay to the same
/// state, however their deliveries were interleaved.
pub proof fn lemma_fold_range_delivery_order(
    a: Address,
    p: Pool,
    src1: Seq<Log>,
    src2: Seq<Log>,
    lo: int,
    hi: int,
    initial: bool,
)
    requires
        forall|b: int| lo <= b <= hi ==> addr_block_logs(src1, a, b) == addr_block_logs(src2, a, b),
    ensures
        fold_range_at(a, p, src1, lo, hi, initial) == fold_range_at(a, p, src2, lo, hi, initial),
    decreases hi + 1 - lo,
{
    if lo <= hi {
        assert(addr_block_logs(src1, a, lo) == addr_block_logs(src2, a, lo));
        lemma_fold_range_delivery_order(
            a,
            apply_seq(p, addr_block_logs(src1, a, lo), initial),
            src1,
            src2,
            lo + 1,
            hi,
            initial,
        );
    }
}

/// Inserting into a sequence adds exactly that element to its contents.
pub proof fn lemma_insert_contains(s: Seq<u64>, pos: int, x: u64)
    requires
        0 <= pos <= s.len(),
    ensures
        forall|y: u64| #[trigger] s.insert(pos, x).contains(y) <==> (s.contains(y) || y == x),
{
    s.insert_ensures(pos, x);
    assert forall|y: u64| #[trigger] s.insert(pos, x).contains(y) implies (s.contains(y) || y
        == x) by {
        let i = choose|i: int| 0 <= i < s.insert(pos, x).len() && s.insert(pos, x)[i] == y;
        if i < pos {
            assert(s[i] == y);
        } else if i > pos {
            assert(s[i - 1] == y);
        }
    };
    assert forall|y: u64| (s.contains(y) || y == x) implies #[trigger] s.insert(pos, x).contains(
        y,
    ) by {
        if y == x {
            assert(s.insert(pos, x)[pos] == y);
        } else {
            let i = choose|i: int| 0 <= i < s.len() && s[i] == y;
            if i < pos {
                assert(s.insert(pos, x)[i] == y);
            } else {
                assert(s.insert(pos, x)[i + 1] == y);
            }
        }
    };
}

} // verus!
