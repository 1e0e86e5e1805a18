//! An address-keyed collection of pools: the in-memory working set that a
//! sync run mutates, and the building block of the pool store.
//!
//! The collection is a plain vector with pairwise-distinct addresses, viewed
//! in specifications as a `Map<Address, Pool>`. Keeping the key inside the
//! record (a pool knows its own address) means an upsert can never put a
//! record under a foreign key, which is what rules out duplicate entries.

use vstd::prelude::*;

use crate::types::Address;
use crate::types::Pool;

verus! {

/// Whether the pools of `s` have pairwise-distinct addresses.
pub open spec fn distinct_addresses(s: Seq<Pool>) -> bool {
    forall|i: int, j: int|
        0 <= i < j < s.len() ==> (#[trigger] s[i]).address != (#[trigger] s[j]).address
}

/// The map a sequence of pools denotes; on duplicate addresses the later
/// entry wins.
pub open spec fn seq_to_map(s: Seq<Pool>) -> Map<Address, Pool>
    decreases s.len(),
{
    if s.len() == 0 {
        Map::empty()
    } else {
        seq_to_map(s.drop_last()).insert(s.last().address, s.last())
    }
}

/// The domain of `seq_to_map(s)` is exactly the set of addresses occurring
/// in `s`, it is finite, and every value sits under its own address.
pub proof fn lemma_seq_to_map_dom(s: Seq<Pool>)
    ensures
        seq_to_map(s).dom().finite(),
        forall|a: Address|
            #[trigger] seq_to_map(s).dom().contains(a) <==> exists|i: int|
                0 <= i < s.len() && (#[trigger] s[i]).address == a,
        forall|a: Address|
            #[trigger] seq_to_map(s).dom().contains(a) ==> seq_to_map(s)[a].address == a,
    decreases s.len(),
{
    if s.len() == 0 {
    } else {
        lemma_seq_to_map_dom(s.drop_last());
        assert forall|a: Address| #[trigger] seq_to_map(s).dom().contains(a) implies exists|i: int|
            0 <= i < s.len() && (#[trigger] s[i]).address == a by {
            if a == s.last().address {
                assert(s[s.len() - 1].address == a);
            } else {
                let i = choose|i: int| 0 <= i < s.drop_last().len() && (#[trigger] s.drop_last()[
                    i]).address == a;
                assert(s[i].address == a);
            }
        };
        assert forall|a: Address|
            exists|i: int|
                0 <= i < s.len() && (#[trigger] s[i]).address == a implies #[trigger] seq_to_map(
            s,
        ).dom().contains(a) by {
            let i = choose|i: int| 0 <= i < s.len() && (#[trigger] s[i]).address == a;
            if i < s.len() - 1 {
                assert(s.drop_last()[i].address == a);
            }
        };
    }
}

/// With distinct addresses, every entry of `s` is found in the map under
/// its address.
pub proof fn lemma_seq_to_map_get(s: Seq<Pool>)
    requires
        distinct_addresses(s),
    ensures
        forall|i: int|
            0 <= i < s.len() ==> seq_to_map(s).dom().contains((#[trigger] s[i]).address)
                && seq_to_map(s)[s[i].address] == s[i],
    decreases s.len(),
{
    if s.len() == 0 {
    } else {
        assert(distinct_addresses(s.drop_last()));
        lemma_seq_to_map_get(s.drop_last());
        assert forall|i: int|
            0 <= i < s.len() implies seq_to_map(s).dom().contains((#[trigger] s[i]).address)
            && seq_to_map(s)[s[i].address] == s[i] by {
            if i < s.len() - 1 {
                assert(s.drop_last()[i] == s[i]);
                assert(s[i].address != s.last().address);
            }
        };
    }
}

/// With distinct addresses, the map has exactly one entry per element.
pub proof fn lemma_seq_to_map_len(s: Seq<Pool>)
    requires
        distinct_addresses(s),
    ensures
        seq_to_map(s).dom().len() == s.len(),
    decreases s.len(),
{
    lemma_seq_to_map_dom(s);
    if s.len() == 0 {
        assert(seq_to_map(s).dom() =~= Set::<Address>::empty());
    } else {
        assert(distinct_addresses(s.drop_last()));
        lemma_seq_to_map_len(s.drop_last());
        lemma_seq_to_map_dom(s.drop_last());
        assert(!seq_to_map(s.drop_last()).dom().contains(s.last().address)) by {
            if seq_to_map(s.drop_last()).dom().contains(s.last().address) {
                let i = choose|i: int|
                    0 <= i < s.drop_last().len() && (#[trigger] s.drop_last()[i]).address
                        == s.last().address;
                assert(s[i].address == s[s.len() - 1].address);
            }
        }
    }
}

/// Updating the entry at `i` in place, keeping its address, is an insert on
/// the map.
proof fn lemma_seq_to_map_update(s: Seq<Pool>, i: int, p: Pool)
    requires
        distinct_addresses(s),
        0 <= i < s.len(),
        p.address == s[i].address,
    ensures
        seq_to_map(s.update(i, p)) == seq_to_map(s).insert(p.address, p),
    decreases s.len(),
{
    if i == s.len() - 1 {
        assert(s.update(i, p).drop_last() =~= s.drop_last());
        assert(s.update(i, p).last() == p);
        assert(seq_to_map(s.update(i, p)) =~= seq_to_map(s).insert(p.address, p));
    } else {
        assert(distinct_addresses(s.drop_last()));
        assert(s.drop_last()[i] == s[i]);
        lemma_seq_to_map_update(s.drop_last(), i, p);
        assert(s.update(i, p).drop_last() =~= s.drop_last().update(i, p));
        assert(s.update(i, p).last() == s.last());
        assert(p.address != s.last().address);
        assert(seq_to_map(s.update(i, p)) == seq_to_map(s.drop_last().update(i, p)).insert(
            s.last().address,
            s.last(),
        ));
        assert(seq_to_map(s).insert(p.address, p) =~= seq_to_map(s.drop_last()).insert(
            p.address,
            p,
        ).insert(s.last().address, s.last()));
    }
}

/// The working set for one pool type: at most one pool per address.
pub struct PoolMap {
    items: Vec<Pool>,
}

impl View for PoolMap {
    type V = Map<Address, Pool>;

    closed spec fn view(&self) -> Map<Address, Pool> {
        seq_to_map(self.items@)
    }
}

impl PoolMap {
    /// Well-formedness: the stored addresses are pairwise distinct.
    pub closed spec fn wf(&self) -> bool {
        distinct_addresses(self.items@)
    }

    /// The stored pools, in insertion order.
    pub closed spec fn seq(&self) -> Seq<Pool> {
        self.items@
    }

    pub fn new() -> (m: PoolMap)
        ensures
            m.wf(),
            m@ =~= Map::<Address, Pool>::empty(),
            m.seq() =~= Seq::<Pool>::empty(),
    {
        PoolMap { items: Vec::new() }
    }

    /// The number of pools held.
    pub fn len(&self) -> (n: usize)
        requires
            self.wf(),
        ensures
            n == self@.dom().len(),
            n == self.seq().len(),
    {
        proof {
            lemma_seq_to_map_len(self.items@);
        }
        self.items.len()
    }

    fn find(&self, a: &Address) -> (r: Option<usize>)
        ensures
            match r {
                Some(i) => i < self.seq().len() && self.seq()[i as int].address == *a,
                None => forall|i: int|
                    0 <= i < self.seq().len() ==> (#[trigger] self.seq()[i]).address != *a,
            },
    {
        let mut i: usize = 0;
        while i < self.items.len()
            invariant
                i <= self.items.len(),
                forall|j: int| 0 <= j < i ==> (#[trigger] self.items@[j]).address != *a,
            decreases self.items.len() - i,
    {
            if self.items[i].address == *a {
                return Some(i);
            }
            i = i + 1;
        }
        None
    }

    /// Whether a pool is tracked under address `a`.
    pub fn contains(&self, a: &Address) -> (r: bool)
        ensures
            r == self@.dom().contains(*a),
    {
        proof {
            lemma_seq_to_map_dom(self.items@);
        }
        self.find(a).is_some()
    }

    /// The pool tracked under address `a`, if any. A found pool carries the
    /// address it is filed under.
    pub fn get(&self, a: &Address) -> (r: Option<Pool>)
        requires
            self.wf(),
        ensures
            r is Some <==> self@.dom().contains(*a),
            r is Some ==> r->0 == self@[*a] && r->0.address == *a,
    {
        proof {
            lemma_seq_to_map_dom(self.items@);
            lemma_seq_to_map_get(self.items@);
        }
        match self.find(a) {
            Some(i) => Some(self.items[i]),
            None => None,
        }
    }

    /// Inserts `p` under its own address, replacing any pool already filed
    /// there.
    pub fn upsert(&mut self, p: Pool)
        requires
            old(self).wf(),
        ensures
            final(self).wf(),
            final(self)@ == old(self)@.insert(p.address, p),
    {
        proof {
            lemma_seq_to_map_dom(self.items@);
        }
        match self.find(&p.address) {
            Some(i) => {
                proof {
                    lemma_seq_to_map_update(self.items@, i as int, p);
                }
                self.items[i] = p;
            },
            None => {
                self.items.push(p);
                proof {
                    assert(self.items@.drop_last() =~= old(self).items@);
                }
            },
        }
    }

    /// All tracked pools as a vector: pairwise-distinct addresses, each
    /// entry filed in the map under its own address, and one entry per
    /// tracked address.
    pub fn to_vec(&self) -> (r: Vec<Pool>)
        requires
            self.wf(),
        ensures
            r@ == self.seq(),
            distinct_addresses(r@),
            forall|i: int|
                0 <= i < r@.len() ==> self@.dom().contains((#[trigger] r@[i]).address) && self@[r@[
                    i].address] == r@[i],
            forall|a: Address|
                #[trigger] self@.dom().contains(a) ==> exists|i: int|
                    0 <= i < r@.len() && (#[trigger] r@[i]).address == a,
    {
        proof {
            lemma_seq_to_map_dom(self.items@);
            lemma_seq_to_map_get(self.items@);
        }
        let mut r: Vec<Pool> = Vec::new();
        let mut i: usize = 0;
        while i < self.items.len()
            invariant
                i <= self.items.len(),
                r@ == self.items@.subrange(0, i as int),
            decreases self.items.len() - i,
        {
            r.push(self.items[i]);
            proof {
                assert(r@ =~= self.items@.subrange(0, i + 1));
            }
            i = i + 1;
        }
        proof {
            assert(r@ =~= self.items@);
        }
        r
    }
}

} // verus!
