//! Order book backend over ordered maps: resting orders and price levels
//! live in two slabs, each side maps its prices to level keys in an ordered
//! map, and a hash index finds an order by its id. Any price is accepted.
use vstd::prelude::*;
use vstd::std_specs::btree::spec_btree_map_iter;
use vstd::std_specs::iter::IteratorSpec;
use std::collections::{BTreeMap, VecDeque};
use rustc_hash::FxHashMap;
use slab::Slab;
use super::{
    book_wf, is_queued, lemma_book_wf_frame, lemma_queue_qty_congruent, lemma_queue_qty_le_keys,
    lemma_queue_qty_prepend, lemma_queue_qty_push, lemma_queue_qty_remove, level_shown, open_qty, pool_qty,
    queue_qty, shows_level, shows_some_level, takes_every_order, counts, crossing_keys, crossing_total, lemma_crossing_none, lemma_level_sum_remove, level_sum, LevelModel, OrderBookBackend,
};
use crate::collections::{fx_default, fx_get, fx_insert, fx_remove};
use crate::orders::{OrderData, RestingOrder};
use crate::outcome::CommandFailure;
use crate::snapshot::PriceLevelModel;
use crate::sbe::side::Side;
use crate::types::{OrderId, Price, Quantity};

verus! {

broadcast use {vstd::laws_cmp::group_laws_cmp, vstd::std_specs::btree::group_btree_axioms};

/// One price level: the keys of its orders in time priority, the open
/// quantity they hold, and its price.
pub struct PriceLevel {
    queue: VecDeque<usize>,
    total_qty: u64,
    price: Price,
}

/// What the order slab of a sparse backend holds, by key.
pub uninterp spec fn resting_slab_contents(s: Slab<RestingOrder<usize>>) -> Map<usize, RestingOrder<usize>>;

/// What the level slab of a sparse backend holds, by key.
pub uninterp spec fn level_slab_contents(s: Slab<PriceLevel>) -> Map<usize, PriceLevel>;

/// `Slab::new`: an empty slab.
#[verifier::external_body]
fn resting_slab_new() -> (r: Slab<RestingOrder<usize>>)
    ensures
        resting_slab_contents(r).dom().is_empty(),
{
    Slab::new()
}

/// `Slab::insert`: stores `v` under a key that was free, and returns the key.
#[verifier::external_body]
fn resting_slab_insert(s: &mut Slab<RestingOrder<usize>>, v: RestingOrder<usize>) -> (k: usize)
    ensures
        !resting_slab_contents(*old(s)).contains_key(k),
        resting_slab_contents(*final(s)) == resting_slab_contents(*old(s)).insert(k, v),
{
    s.insert(v)
}

/// `Slab::try_remove`: takes out the value under `k`, if there is one.
#[verifier::external_body]
fn resting_slab_try_remove(s: &mut Slab<RestingOrder<usize>>, k: usize) -> (r: Option<RestingOrder<usize>>)
    ensures
        resting_slab_contents(*old(s)).contains_key(k) ==> r == Some(resting_slab_contents(*old(s))[k])
            && resting_slab_contents(*final(s)) == resting_slab_contents(*old(s)).remove(k),
        !resting_slab_contents(*old(s)).contains_key(k) ==> r is None && resting_slab_contents(*final(s))
            == resting_slab_contents(*old(s)),
{
    s.try_remove(k)
}

/// `Slab::get`: the value under `k`, if there is one.
#[verifier::external_body]
fn resting_slab_get(s: &Slab<RestingOrder<usize>>, k: usize) -> (r: Option<&RestingOrder<usize>>)
    ensures
        r == if resting_slab_contents(*s).contains_key(k) {
            Some(&resting_slab_contents(*s)[k])
        } else {
            None
        },
{
    s.get(k)
}

/// `Slab`'s `IndexMut`: replaces the value under `k`, which must be present.
#[verifier::external_body]
fn resting_slab_set(s: &mut Slab<RestingOrder<usize>>, k: usize, v: RestingOrder<usize>)
    requires
        resting_slab_contents(*old(s)).contains_key(k),
    ensures
        resting_slab_contents(*final(s)) == resting_slab_contents(*old(s)).insert(k, v),
{
    s[k] = v;
}

/// `Slab::new`: an empty slab.
#[verifier::external_body]
fn level_slab_new() -> (r: Slab<PriceLevel>)
    ensures
        level_slab_contents(r).dom().is_empty(),
{
    Slab::new()
}

/// `Slab::insert`: stores `v` under a key that was free, and returns the key.
#[verifier::external_body]
fn level_slab_insert(s: &mut Slab<PriceLevel>, v: PriceLevel) -> (k: usize)
    ensures
        !level_slab_contents(*old(s)).contains_key(k),
        level_slab_contents(*final(s)) == level_slab_contents(*old(s)).insert(k, v),
{
    s.insert(v)
}

/// `Slab::try_remove`: takes out the value under `k`, if there is one.
#[verifier::external_body]
fn level_slab_try_remove(s: &mut Slab<PriceLevel>, k: usize) -> (r: Option<PriceLevel>)
    ensures
        level_slab_contents(*old(s)).contains_key(k) ==> r == Some(level_slab_contents(*old(s))[k])
            && level_slab_contents(*final(s)) == level_slab_contents(*old(s)).remove(k),
        !level_slab_contents(*old(s)).contains_key(k) ==> r is None && level_slab_contents(*final(s))
            == level_slab_contents(*old(s)),
{
    s.try_remove(k)
}

/// `Slab::get`: the value under `k`, if there is one.
#[verifier::external_body]
fn level_slab_get(s: &Slab<PriceLevel>, k: usize) -> (r: Option<&PriceLevel>)
    ensures
        r == if level_slab_contents(*s).contains_key(k) {
            Some(&level_slab_contents(*s)[k])
        } else {
            None
        },
{
    s.get(k)
}

/// `Slab`'s `IndexMut`: a mutable borrow of the value under `k`, which must
/// be present; what is written through it is what the slab then holds there.
#[verifier::external_body]
fn level_slab_index_mut(s: &mut Slab<PriceLevel>, k: usize) -> (r: &mut PriceLevel)
    requires
        level_slab_contents(*old(s)).contains_key(k),
    ensures
        *r == level_slab_contents(*old(s))[k],
        level_slab_contents(*final(s)) == level_slab_contents(*old(s)).insert(k, *final(r)),
{
    &mut s[k]
}

/// A level's queue repeats no order, holds only stored orders, and its
/// aggregate covers each of them and is covered by the whole pool.
proof fn lemma_queue_facts(pool: Map<usize, RestingOrder<usize>>, m: Map<usize, LevelModel<usize>>, ids: Map<u64, usize>, l: usize)
    requires
        book_wf(pool, m, ids),
        m.contains_key(l),
    ensures
        m[l].queue.no_duplicates(),
        forall|k: int|
            0 <= k < m[l].queue.len() ==> pool.contains_key(#[trigger] m[l].queue[k]) && open_qty(
                pool[m[l].queue[k]],
            ) <= m[l].total,
        m[l].total <= pool_qty(pool),
{
    let q = m[l].queue;
    assert(q.no_duplicates()) by {
        assert forall|a: int, b: int| 0 <= a < q.len() && 0 <= b < q.len() && a != b implies q[a] != q[b] by {
            assert(m[l].queue[a] == q[a]);
            assert(m[l].queue[b] == q[b]);
        }
    }
    assert forall|k: int| 0 <= k < q.len() implies pool.contains_key(#[trigger] m[l].queue[k]) && open_qty(
        pool[m[l].queue[k]],
    ) <= m[l].total by {
        lemma_queue_qty_remove(pool, q, k);
        lemma_queue_nonneg(pool, q.remove(k));
    }
    assert forall|k: int| 0 <= k < q.len() implies pool.dom().contains(#[trigger] q[k]) by {
        assert(m[l].queue[k] == q[k]);
    }
    lemma_queue_qty_le_keys(pool, q, pool.dom());
}

/// Queue sums are never negative.
proof fn lemma_queue_nonneg(pool: Map<usize, RestingOrder<usize>>, q: Seq<usize>)
    ensures
        queue_qty(pool, q) >= 0,
    decreases q.len(),
{
    if q.len() > 0 {
        lemma_queue_nonneg(pool, q.drop_last());
    }
}

/// Facts needed to queue a stored, unqueued order at a level.
proof fn lemma_push_facts(pool: Map<usize, RestingOrder<usize>>, m: Map<usize, LevelModel<usize>>, ids: Map<u64, usize>, l: usize, i: usize)
    requires
        book_wf(pool, m, ids),
        m.contains_key(l),
        pool.contains_key(i),
        !is_queued(m, i),
        pool_qty(pool) <= u64::MAX,
    ensures
        !m[l].queue.contains(i),
        m[l].queue.push(i).no_duplicates(),
        (seq![i] + m[l].queue).no_duplicates(),
        m[l].total + open_qty(pool[i]) <= u64::MAX,
{
    let q = m[l].queue;
    lemma_queue_facts(pool, m, ids, l);
    assert(!q.contains(i)) by {
        if q.contains(i) {
            let k = q.index_of(i);
            assert(m[l].queue[k] == i);
        }
    }
    let pq = q.push(i);
    assert(pq.no_duplicates());
    assert((seq![i] + q).no_duplicates()) by {
        let fq = seq![i] + q;
        assert forall|a: int, b: int| 0 <= a < fq.len() && 0 <= b < fq.len() && a != b implies fq[a] != fq[b] by {
            if a == 0 && b > 0 {
                assert(fq[b] == q[b - 1]);
            } else if b == 0 && a > 0 {
                assert(fq[a] == q[a - 1]);
            } else if a > 0 && b > 0 {
                assert(fq[a] == q[a - 1]);
                assert(fq[b] == q[b - 1]);
            }
        }
    }
    assert forall|k: int| 0 <= k < pq.len() implies pool.dom().contains(#[trigger] pq[k]) by {
        if k < q.len() {
            assert(m[l].queue[k] == q[k]);
        }
    }
    lemma_queue_qty_le_keys(pool, pq, pool.dom());
    lemma_queue_qty_push(pool, q, i);
}

/// Replacing the queue and aggregate of one level keeps an abstract book
/// consistent when the new queue repeats no order, holds the old queue's
/// orders with one order added or taken out, and the aggregate is its sum.
proof fn lemma_replace_level(
    pool: Map<usize, RestingOrder<usize>>,
    m: Map<usize, LevelModel<usize>>,
    ids: Map<u64, usize>,
    l: usize,
    nq: Seq<usize>,
    total: u64,
    i: usize,
    adding: bool,
)
    requires
        book_wf(pool, m, ids),
        m.contains_key(l),
        nq.no_duplicates(),
        adding ==> forall|x: usize| nq.contains(x) <==> (m[l].queue.contains(x) || x == i),
        !adding ==> forall|x: usize| nq.contains(x) <==> (m[l].queue.contains(x) && x != i),
        adding ==> pool.contains_key(i) && !is_queued(m, i) && pool[i].level_idx == l,
        !adding ==> m[l].queue.contains(i),
        total == queue_qty(pool, nq),
    ensures
        book_wf(pool, m.insert(l, LevelModel { queue: nq, total, ..m[l] }), ids),
{
    let q = m[l].queue;
    let nm = m.insert(l, LevelModel { queue: nq, total, ..m[l] });
    assert forall|p: usize, k: int|
        p != l && m.contains_key(p) && 0 <= k < m[p].queue.len() implies !q.contains(
        #[trigger] m[p].queue[k],
    ) && m[p].queue[k] != i by {
        if q.contains(m[p].queue[k]) {
            let j = q.index_of(m[p].queue[k]);
            assert(m[l].queue[j] == m[p].queue[k]);
        }
        if adding {
            assert(is_queued(m, m[p].queue[k]));
        } else {
            let j = q.index_of(i);
            assert(m[l].queue[j] == i);
        }
    }
    assert forall|p: usize, k: int|
        #![trigger nm[p].queue[k]]
        nm.contains_key(p) && 0 <= k < nm[p].queue.len() implies pool.contains_key(nm[p].queue[k])
        && pool[nm[p].queue[k]].level_idx == p by {
        if p == l {
            let x = nq[k];
            assert(nq.contains(x));
            if x == i && adding {
            } else {
                let j = q.index_of(x);
                assert(m[l].queue[j] == x);
            }
        } else {
            assert(m[p].queue[k] == nm[p].queue[k]);
        }
    }
    assert forall|l1: usize, k1: int, l2: usize, k2: int|
        #![trigger nm[l1].queue[k1], nm[l2].queue[k2]]
        nm.contains_key(l1) && nm.contains_key(l2) && 0 <= k1 < nm[l1].queue.len() && 0 <= k2
            < nm[l2].queue.len() && (l1 != l2 || k1 != k2) implies nm[l1].queue[k1] != nm[l2].queue[k2] by {
        if l1 == l && l2 == l {
        } else if l1 == l {
            assert(m[l2].queue[k2] == nm[l2].queue[k2]);
            assert(nq.contains(nq[k1]));
        } else if l2 == l {
            assert(m[l1].queue[k1] == nm[l1].queue[k1]);
            assert(nq.contains(nq[k2]));
        } else {
            assert(m[l1].queue[k1] == nm[l1].queue[k1]);
            assert(m[l2].queue[k2] == nm[l2].queue[k2]);
        }
    }
    assert forall|p: usize| #[trigger] nm.contains_key(p) implies nm[p].total == queue_qty(pool, nm[p].queue) by {
        if p != l {
            assert(nm[p] == m[p]);
        }
    }
}

/// A new empty level keeps an abstract book consistent.
proof fn lemma_add_level(pool: Map<usize, RestingOrder<usize>>, m: Map<usize, LevelModel<usize>>, ids: Map<u64, usize>, l: usize, lm: LevelModel<usize>)
    requires
        book_wf(pool, m, ids),
        !m.contains_key(l),
        lm.queue.len() == 0,
        lm.total == 0,
    ensures
        book_wf(pool, m.insert(l, lm), ids),
{
    let nm = m.insert(l, lm);
    assert forall|p: usize, k: int|
        #![trigger nm[p].queue[k]]
        nm.contains_key(p) && 0 <= k < nm[p].queue.len() implies pool.contains_key(nm[p].queue[k])
        && pool[nm[p].queue[k]].level_idx == p by {
        assert(m[p].queue[k] == nm[p].queue[k]);
    }
    assert forall|l1: usize, k1: int, l2: usize, k2: int|
        #![trigger nm[l1].queue[k1], nm[l2].queue[k2]]
        nm.contains_key(l1) && nm.contains_key(l2) && 0 <= k1 < nm[l1].queue.len() && 0 <= k2
            < nm[l2].queue.len() && (l1 != l2 || k1 != k2) implies nm[l1].queue[k1] != nm[l2].queue[k2] by {
        assert(m[l1].queue[k1] == nm[l1].queue[k1]);
        assert(m[l2].queue[k2] == nm[l2].queue[k2]);
    }
    assert forall|p: usize| #[trigger] nm.contains_key(p) implies nm[p].total == queue_qty(pool, nm[p].queue) by {
        if p != l {
            assert(nm[p] == m[p]);
        } else {
            assert(nm[p].queue =~= Seq::empty());
        }
    }
}

/// Dropping an empty level keeps an abstract book consistent.
proof fn lemma_drop_level(pool: Map<usize, RestingOrder<usize>>, m: Map<usize, LevelModel<usize>>, ids: Map<u64, usize>, l: usize)
    requires
        book_wf(pool, m, ids),
        m.contains_key(l),
        m[l].queue.len() == 0,
    ensures
        book_wf(pool, m.remove(l), ids),
{
    let nm = m.remove(l);
    assert forall|p: usize, k: int|
        #![trigger nm[p].queue[k]]
        nm.contains_key(p) && 0 <= k < nm[p].queue.len() implies pool.contains_key(nm[p].queue[k])
        && pool[nm[p].queue[k]].level_idx == p by {
        assert(m[p].queue[k] == nm[p].queue[k]);
    }
    assert forall|l1: usize, k1: int, l2: usize, k2: int|
        #![trigger nm[l1].queue[k1], nm[l2].queue[k2]]
        nm.contains_key(l1) && nm.contains_key(l2) && 0 <= k1 < nm[l1].queue.len() && 0 <= k2
            < nm[l2].queue.len() && (l1 != l2 || k1 != k2) implies nm[l1].queue[k1] != nm[l2].queue[k2] by {
        assert(m[l1].queue[k1] == nm[l1].queue[k1]);
        assert(m[l2].queue[k2] == nm[l2].queue[k2]);
    }
    assert forall|p: usize| #[trigger] nm.contains_key(p) implies nm[p].total == queue_qty(pool, nm[p].queue) by {
        assert(nm[p] == m[p]);
    }
}

/// Changing the quantity of a queued order and the aggregate of its level
/// by the same amount keeps an abstract book consistent.
proof fn lemma_requantify(pool: Map<usize, RestingOrder<usize>>, m: Map<usize, LevelModel<usize>>, ids: Map<u64, usize>, i: usize, o: RestingOrder<usize>, total: u64)
    requires
        book_wf(pool, m, ids),
        pool.contains_key(i),
        m.contains_key(pool[i].level_idx),
        m[pool[i].level_idx].queue.contains(i),
        o.level_idx == pool[i].level_idx,
        o.data.order_id == pool[i].data.order_id,
        total == m[pool[i].level_idx].total - open_qty(pool[i]) + open_qty(o),
    ensures
        book_wf(pool.insert(i, o), m.insert(pool[i].level_idx, LevelModel { total, ..m[pool[i].level_idx] }), ids),
{
    let l = pool[i].level_idx;
    let p2 = pool.insert(i, o);
    let nm = m.insert(l, LevelModel { total, ..m[l] });
    let k = m[l].queue.index_of(i);
    assert(m[l].queue[k] == i);
    assert forall|a: usize, j: int|
        #![trigger nm[a].queue[j]]
        nm.contains_key(a) && 0 <= j < nm[a].queue.len() implies p2.contains_key(nm[a].queue[j])
        && p2[nm[a].queue[j]].level_idx == a by {
        assert(m[a].queue[j] == nm[a].queue[j]);
    }
    assert forall|l1: usize, k1: int, l2: usize, k2: int|
        #![trigger nm[l1].queue[k1], nm[l2].queue[k2]]
        nm.contains_key(l1) && nm.contains_key(l2) && 0 <= k1 < nm[l1].queue.len() && 0 <= k2
            < nm[l2].queue.len() && (l1 != l2 || k1 != k2) implies nm[l1].queue[k1] != nm[l2].queue[k2] by {
        assert(m[l1].queue[k1] == nm[l1].queue[k1]);
        assert(m[l2].queue[k2] == nm[l2].queue[k2]);
    }
    assert forall|a: usize| #[trigger] nm.contains_key(a) implies nm[a].total == queue_qty(p2, nm[a].queue) by {
        let qa = m[a].queue;
        if a == l {
            lemma_queue_qty_remove(pool, qa, k);
            lemma_queue_qty_remove(p2, qa, k);
            let r = qa.remove(k);
            assert forall|j: int| 0 <= j < r.len() implies open_qty(#[trigger] p2[r[j]]) == open_qty(pool[r[j]]) by {
                let qj = if j < k { j } else { j + 1 };
                assert(r[j] == qa[qj]);
                assert(m[l].queue[qj] != m[l].queue[k]);
            }
            lemma_queue_qty_congruent(p2, pool, r);
        } else {
            assert forall|j: int| 0 <= j < qa.len() implies open_qty(#[trigger] p2[qa[j]]) == open_qty(pool[qa[j]]) by {
                assert(m[a].queue[j] != m[l].queue[k]);
            }
            lemma_queue_qty_congruent(p2, pool, qa);
        }
    }
    assert forall|id: u64| #[trigger] ids.contains_key(id) implies p2.contains_key(ids[id]) && p2[ids[id]].data.order_id.0 == id by {
    }
}

/// Order book backend over ordered maps.
pub struct SparseBackend {
    orders: Slab<RestingOrder<usize>>,
    levels: Slab<PriceLevel>,
    bids: BTreeMap<u64, usize>,
    asks: BTreeMap<u64, usize>,
    order_map: FxHashMap<u64, usize>,
}

impl SparseBackend {
    /// Resting orders by key.
    pub closed spec fn order_view(&self) -> Map<usize, RestingOrder<usize>> {
        resting_slab_contents(self.orders)
    }

    /// Price levels by key.
    pub closed spec fn level_view(&self) -> Map<usize, PriceLevel> {
        level_slab_contents(self.levels)
    }

    /// Whether level `l` is the bid level at its price.
    pub closed spec fn holds_bid(&self, l: usize) -> bool {
        let p = self.level_view()[l].price.0;
        self.bids@.contains_key(p) && self.bids@[p] == l
    }

    /// Whether level `l` is the ask level at its price.
    pub closed spec fn holds_ask(&self, l: usize) -> bool {
        let p = self.level_view()[l].price.0;
        self.asks@.contains_key(p) && self.asks@[p] == l
    }

    /// The levels as an abstract book.
    pub closed spec fn level_models(&self) -> Map<usize, LevelModel<usize>> {
        Map::new(
            |l: usize| self.level_view().contains_key(l),
            |l: usize|
                LevelModel {
                    price: self.level_view()[l].price.0,
                    is_bid: self.holds_bid(l),
                    total: self.level_view()[l].total_qty,
                    queue: self.level_view()[l].queue@,
                },
        )
    }

    /// The two price maps and the level slab agree: every entry of a side
    /// names a level with that price, every level is the entry of one side
    /// at its price, and no level is the entry of both.
    pub closed spec fn trees_wf(&self) -> bool {
        let lv = self.level_view();
        &&& lv.dom().finite()
        &&& forall|p: u64|
            #[trigger] self.bids@.contains_key(p) ==> lv.contains_key(self.bids@[p]) && lv[self.bids@[p]].price.0
                == p
        &&& forall|p: u64|
            #[trigger] self.asks@.contains_key(p) ==> lv.contains_key(self.asks@[p]) && lv[self.asks@[p]].price.0
                == p
        &&& forall|l: usize| #[trigger] lv.contains_key(l) ==> self.holds_bid(l) || self.holds_ask(l)
        &&& forall|p: u64|
            self.bids@.contains_key(p) && #[trigger] self.asks@.contains_key(p) ==> self.bids@[p]
                != self.asks@[p]
    }

    /// Internal consistency.
    pub closed spec fn sparse_wf(&self) -> bool {
        &&& self.trees_wf()
        &&& book_wf(self.order_view(), self.level_models(), self.order_map@)
    }

    /// An empty book.
    pub fn new() -> (r: Self)
        ensures
            r.wf(),
            r.pool() == Map::<usize, RestingOrder<usize>>::empty(),
            r.levels() == Map::<usize, LevelModel<usize>>::empty(),
            r.ids() == Map::<u64, usize>::empty(),
    {
        let r = SparseBackend {
            orders: resting_slab_new(),
            levels: level_slab_new(),
            bids: BTreeMap::new(),
            asks: BTreeMap::new(),
            order_map: fx_default(),
        };
        proof {
            assert(r.order_view() =~= Map::empty());
            assert(r.level_view() =~= Map::empty());
            assert(r.level_models() =~= Map::empty());
        }
        r
    }
}


/// Sum of the aggregates of the levels that `tree` maps the prices in
/// `prices` to.
pub closed spec fn price_sum(tree: Map<u64, usize>, lv: Map<usize, PriceLevel>, prices: Set<u64>) -> int
    decreases prices.len(),
    when prices.finite()
{
    if prices.len() == 0 {
        0
    } else {
        let p = prices.choose();
        lv[tree[p]].total_qty + price_sum(tree, lv, prices.remove(p))
    }
}

/// The queues of the levels that `tree` maps the prices in `prices` to,
/// one after the other, in the order [`price_sum`] adds them.
closed spec fn price_queue(tree: Map<u64, usize>, lv: Map<usize, PriceLevel>, prices: Set<u64>) -> Seq<usize>
    decreases prices.len(),
    when prices.finite()
{
    if prices.len() == 0 {
        Seq::empty()
    } else {
        let p = prices.choose();
        lv[tree[p]].queue@ + price_queue(tree, lv, prices.remove(p))
    }
}

/// Prices of the entries in `s` that count toward a side's depth.
closed spec fn counted_keys(s: Seq<(&u64, &usize)>, bid_side: bool, limit: u64) -> Set<u64>
    decreases s.len(),
{
    if s.len() == 0 {
        Set::empty()
    } else {
        let k = *s.last().0;
        let rest = counted_keys(s.drop_last(), bid_side, limit);
        if counts(bid_side, limit, k) {
            rest.insert(k)
        } else {
            rest
        }
    }
}

/// The counted prices of a list of entries are those of its entries that count.
proof fn lemma_counted_keys(s: Seq<(&u64, &usize)>, bid_side: bool, limit: u64)
    ensures
        counted_keys(s, bid_side, limit).finite(),
        forall|k: u64|
            #[trigger] counted_keys(s, bid_side, limit).contains(k) <==> counts(bid_side, limit, k)
                && exists|j: int| 0 <= j < s.len() && *s[j].0 == k,
    decreases s.len(),
{
    if s.len() > 0 {
        let r = s.drop_last();
        lemma_counted_keys(r, bid_side, limit);
        assert forall|k: u64| #[trigger] counted_keys(s, bid_side, limit).contains(k) <==> counts(bid_side, limit, k)
            && exists|j: int| 0 <= j < s.len() && *s[j].0 == k by {
            if counted_keys(s, bid_side, limit).contains(k) && k != *s.last().0 {
                let j = choose|j: int| 0 <= j < r.len() && *r[j].0 == k;
                assert(*s[j].0 == k);
            }
            if counts(bid_side, limit, k) && exists|j: int| 0 <= j < s.len() && *s[j].0 == k {
                let j = choose|j: int| 0 <= j < s.len() && *s[j].0 == k;
                if j < s.len() - 1 {
                    assert(*r[j].0 == k);
                }
            }
        }
    }
}

/// Adding one price adds its level's aggregate.
proof fn lemma_price_sum_insert(tree: Map<u64, usize>, lv: Map<usize, PriceLevel>, ps: Set<u64>, p: u64)
    requires
        ps.finite(),
        !ps.contains(p),
    ensures
        price_sum(tree, lv, ps.insert(p)) == price_sum(tree, lv, ps) + lv[tree[p]].total_qty,
{
    lemma_price_sum_remove(tree, lv, ps.insert(p), p);
    assert(ps.insert(p).remove(p) =~= ps);
}

/// Taking out one price takes out its level's aggregate.
proof fn lemma_price_sum_remove(tree: Map<u64, usize>, lv: Map<usize, PriceLevel>, ps: Set<u64>, p: u64)
    requires
        ps.finite(),
        ps.contains(p),
    ensures
        price_sum(tree, lv, ps) == lv[tree[p]].total_qty + price_sum(tree, lv, ps.remove(p)),
    decreases ps.len(),
{
    assert(ps.len() > 0) by {
        if ps.len() == 0 {
            assert(ps =~= Set::empty());
        }
    }
    let c = ps.choose();
    if c != p {
        lemma_price_sum_remove(tree, lv, ps.remove(c), p);
        lemma_price_sum_remove(tree, lv, ps.remove(p), c);
        assert(ps.remove(c).remove(p) =~= ps.remove(p).remove(c));
    } else {
        assert(ps.remove(c) =~= ps.remove(p));
    }
}

impl SparseBackend {
    /// The price map of the bid side or of the ask side.
    pub closed spec fn tree(&self, bid_side: bool) -> Map<u64, usize> {
        if bid_side {
            self.bids@
        } else {
            self.asks@
        }
    }

    /// Open quantity of the levels of one side whose prices count.
    pub closed spec fn side_depth(&self, bid_side: bool, limit: u64) -> int {
        price_sum(
            self.tree(bid_side),
            self.level_view(),
            self.tree(bid_side).dom().filter(|p: u64| counts(bid_side, limit, p)),
        )
    }

    /// Keys of the levels that the side `bid_side` names at the prices `ps`.
    pub closed spec fn named_levels(&self, bid_side: bool, ps: Set<u64>) -> Set<usize> {
        self.level_models().dom().filter(
            |l: usize|
                {
                    let p = self.level_view()[l].price.0;
                    &&& ps.contains(p)
                    &&& self.tree(bid_side).contains_key(p)
                    &&& self.tree(bid_side)[p] == l
                },
        )
    }

    /// The aggregates of the levels a side names at some of its prices add
    /// up to the aggregates of the levels at those prices.
    proof fn lemma_price_sum_levels(&self, bid_side: bool, ps: Set<u64>)
        requires
            self.sparse_wf(),
            ps.finite(),
            forall|p: u64| #[trigger] ps.contains(p) ==> self.tree(bid_side).contains_key(p),
        ensures
            price_sum(self.tree(bid_side), self.level_view(), ps) == level_sum(
                self.level_models(),
                self.named_levels(bid_side, ps),
            ),
        decreases ps.len(),
    {
        let tree = self.tree(bid_side);
        let lv = self.level_view();
        let m = self.level_models();
        if ps.len() == 0 {
            assert(self.named_levels(bid_side, ps) =~= Set::empty());
        } else {
            let p = ps.choose();
            let rest = ps.remove(p);
            self.lemma_price_sum_levels(bid_side, rest);
            let l = tree[p];
            assert(lv.contains_key(l) && lv[l].price.0 == p);
            let nl = self.named_levels(bid_side, ps);
            assert(nl.contains(l));
            assert(nl.remove(l) =~= self.named_levels(bid_side, rest));
            lemma_level_sum_remove(m, nl, l);
        }
    }

    /// The depth of a side sums the aggregates of its levels out to the
    /// limit.
    proof fn lemma_side_depth_levels(&self, side: Side, limit: u64)
        requires
            self.sparse_wf(),
        ensures
            self.depth(side, limit) == crossing_total(self.level_models(), side, limit),
    {
        let m = self.level_models();
        match side {
            Side::buy => {
                let ps = self.tree(true).dom().filter(|p: u64| counts(true, limit, p));
                self.lemma_price_sum_levels(true, ps);
                assert(self.named_levels(true, ps) =~= crossing_keys(m, side, limit));
            },
            Side::sell => {
                let ps = self.tree(false).dom().filter(|p: u64| counts(false, limit, p));
                self.lemma_price_sum_levels(false, ps);
                assert forall|l: usize| #[trigger] m.contains_key(l) implies (self.holds_ask(l) <==> !self.holds_bid(l)) by {
                    let p = self.level_view()[l].price.0;
                    if self.holds_ask(l) && self.holds_bid(l) {
                        assert(self.bids@.contains_key(p) && self.asks@.contains_key(p));
                    }
                }
                assert(self.named_levels(false, ps) =~= crossing_keys(m, side, limit));
            },
            Side::NullVal => {
                lemma_crossing_none(m, side, limit);
            },
        }
    }

    /// The queues of the levels at a set of prices of one side repeat no
    /// order, hold only stored orders, and sum to the levels' aggregates.
    proof fn lemma_price_queue(&self, bid_side: bool, ps: Set<u64>)
        requires
            self.sparse_wf(),
            ps.finite(),
            forall|p: u64| #[trigger] ps.contains(p) ==> self.tree(bid_side).contains_key(p),
        ensures
            price_queue(self.tree(bid_side), self.level_view(), ps).no_duplicates(),
            forall|k: int|
                0 <= k < price_queue(self.tree(bid_side), self.level_view(), ps).len() ==> exists|p: u64|
                    #[trigger] ps.contains(p) && self.level_view()[self.tree(bid_side)[p]].queue@.contains(
                        #[trigger] price_queue(self.tree(bid_side), self.level_view(), ps)[k],
                    ),
            forall|k: int|
                0 <= k < price_queue(self.tree(bid_side), self.level_view(), ps).len() ==> self.order_view().contains_key(
                    #[trigger] price_queue(self.tree(bid_side), self.level_view(), ps)[k],
                ),
            queue_qty(self.order_view(), price_queue(self.tree(bid_side), self.level_view(), ps))
                == price_sum(self.tree(bid_side), self.level_view(), ps),
        decreases ps.len(),
    {
        let tree = self.tree(bid_side);
        let lv = self.level_view();
        let m = self.level_models();
        let pool = self.order_view();
        if ps.len() > 0 {
            let p = ps.choose();
            let rest = ps.remove(p);
            self.lemma_price_queue(bid_side, rest);
            let l = tree[p];
            assert(lv.contains_key(l) && lv[l].price.0 == p);
            assert(m.contains_key(l));
            let a = lv[l].queue@;
            let b = price_queue(tree, lv, rest);
            assert(m[l].queue == a);
            lemma_queue_facts(pool, m, self.order_map@, l);
            let pq = price_queue(tree, lv, ps);
            assert(pq == a + b);
            assert forall|k: int| 0 <= k < pq.len() implies exists|q: u64|
                #[trigger] ps.contains(q) && lv[tree[q]].queue@.contains(#[trigger] pq[k]) by {
                if k < a.len() {
                    assert(a.contains(pq[k]));
                    assert(ps.contains(p));
                } else {
                    assert(pq[k] == b[k - a.len()]);
                    let q = choose|q: u64| #[trigger] rest.contains(q) && lv[tree[q]].queue@.contains(b[k - a.len()]);
                    assert(ps.contains(q));
                }
            }
            assert forall|k: int| 0 <= k < pq.len() implies pool.contains_key(#[trigger] pq[k]) by {
                if k < a.len() {
                    assert(m[l].queue[k] == pq[k]);
                } else {
                    assert(pq[k] == b[k - a.len()]);
                }
            }
            assert(pq.no_duplicates()) by {
                assert forall|x: int, y: int| 0 <= x < pq.len() && 0 <= y < pq.len() && x != y implies pq[x] != pq[y] by {
                    if x < a.len() && y >= a.len() {
                        self.lemma_disjoint_levels(bid_side, p, rest, a, b, x, y - a.len());
                    } else if y < a.len() && x >= a.len() {
                        self.lemma_disjoint_levels(bid_side, p, rest, a, b, y, x - a.len());
                    } else if x >= a.len() && y >= a.len() {
                        assert(pq[x] == b[x - a.len()]);
                        assert(pq[y] == b[y - a.len()]);
                    }
                }
            }
            super::lemma_queue_qty_append(pool, a, b);
        }
    }

    /// An order of the level at price `p` is in no level at another price of the same side.
    proof fn lemma_disjoint_levels(&self, bid_side: bool, p: u64, rest: Set<u64>, a: Seq<usize>, b: Seq<usize>, x: int, y: int)
        requires
            self.sparse_wf(),
            self.tree(bid_side).contains_key(p),
            !rest.contains(p),
            a == self.level_view()[self.tree(bid_side)[p]].queue@,
            forall|q: u64| #[trigger] rest.contains(q) ==> self.tree(bid_side).contains_key(q),
            forall|k: int|
                0 <= k < b.len() ==> exists|q: u64| #[trigger] rest.contains(q) && self.level_view()[self.tree(bid_side)[q]].queue@.contains(#[trigger] b[k]),
            0 <= x < a.len(),
            0 <= y < b.len(),
        ensures
            a[x] != b[y],
    {
        let tree = self.tree(bid_side);
        let lv = self.level_view();
        let m = self.level_models();
        let q = choose|q: u64| #[trigger] rest.contains(q) && lv[tree[q]].queue@.contains(b[y]);
        let l1 = tree[p];
        let l2 = tree[q];
        assert(lv.contains_key(l1) && lv[l1].price.0 == p);
        assert(lv.contains_key(l2) && lv[l2].price.0 == q);
        assert(l1 != l2);
        let k2 = lv[l2].queue@.index_of(b[y]);
        assert(m[l1].queue[x] == a[x]);
        assert(m[l2].queue[k2] == b[y]);
    }
}

impl SparseBackend {
    /// Open quantity of the levels of one side whose prices count: at or
    /// above `limit` for bids, at or below it for asks.
    fn depth_over(&self, bid_side: bool, limit: u64) -> (r: u64)
        requires
            self.sparse_wf(),
            pool_qty(self.order_view()) <= u64::MAX,
        ensures
            r == self.side_depth(bid_side, limit),
    {
        let tree = if bid_side {
            &self.bids
        } else {
            &self.asks
        };
        assert(tree@ == self.tree(bid_side));
        let mut total: u64 = 0;
        let ghost s = spec_btree_map_iter(tree).remaining();
        let ghost mut done: int = 0;
        for e in it: tree.iter()
            invariant
                self.sparse_wf(),
                pool_qty(self.order_view()) <= u64::MAX,
                tree@ == self.tree(bid_side),
                it.seq() == s,
                s == spec_btree_map_iter(tree).remaining(),
                s.no_duplicates(),
                done == it.index(),
                total == price_sum(tree@, self.level_view(), counted_keys(s.take(done), bid_side, limit)),
        {
            let (p, l) = e;
            let ghost i = it.index();
            proof {
                assert(e == s[i]);
                assert(s.take(i + 1).drop_last() =~= s.take(i));
                lemma_counted_keys(s.take(i), bid_side, limit);
                assert(!counted_keys(s.take(i), bid_side, limit).contains(*p)) by {
                    if counted_keys(s.take(i), bid_side, limit).contains(*p) {
                        let j = choose|j: int| 0 <= j < s.take(i).len() && *s.take(i)[j].0 == *p;
                        assert(tree@.contains_key(*s[j].0) && tree@[*s[j].0] == *s[j].1);
                        assert(tree@.contains_key(*s[i].0) && tree@[*s[i].0] == *s[i].1);
                        assert(s[j] == s[i]);
                    }
                }
            }
            if counts_at(bid_side, limit, *p) {
                let level_total = match level_slab_get(&self.levels, *l) {
                    Some(level) => level.total_qty,
                    None => 0,
                };
                proof {
                    let before = counted_keys(s.take(i), bid_side, limit);
                    lemma_price_sum_insert(tree@, self.level_view(), before, *p);
                    let after = before.insert(*p);
                    lemma_counted_keys(s.take(i + 1), bid_side, limit);
                    assert forall|q: u64| #[trigger] after.contains(q) implies self.tree(bid_side).contains_key(q) by {
                        if q != *p {
                            let j = choose|j: int| 0 <= j < s.take(i).len() && *s.take(i)[j].0 == q;
                            assert(s[j] == s.take(i)[j]);
                        }
                    }
                    self.lemma_price_queue(bid_side, after);
                    let pq = price_queue(tree@, self.level_view(), after);
                    assert forall|k: int| 0 <= k < pq.len() implies self.order_view().dom().contains(#[trigger] pq[k]) by {
                    }
                    lemma_queue_qty_le_keys(self.order_view(), pq, self.order_view().dom());
                }
                total = total + level_total;
            }
            proof {
                done = done + 1;
            }
        }
        proof {
            assert(done == s.len());
            assert(s.take(s.len() as int) =~= s);
            lemma_counted_keys(s, bid_side, limit);
            assert(counted_keys(s, bid_side, limit) =~= tree@.dom().filter(|p: u64| counts(bid_side, limit, p)));
        }
        total
    }
}

/// Whether a level at price `p` counts toward a side's depth.
fn counts_at(bid_side: bool, limit: u64, p: u64) -> (r: bool)
    ensures
        r == counts(bid_side, limit, p),
{
    if bid_side {
        p >= limit
    } else {
        p <= limit
    }
}

impl SparseBackend {
    /// The data of the orders queued at level `l`, in time priority.
    fn queue_orders(&self, l: usize) -> (r: Vec<OrderData>)
        requires
            self.sparse_wf(),
            self.level_view().contains_key(l),
        ensures
            r@ == self.level_models()[l].queue.map_values(|i: usize| self.order_view()[i].data),
    {
        let ghost m = self.level_models();
        let ghost pool = self.order_view();
        let level = level_slab_get(&self.levels, l).unwrap();
        let ghost q = level.queue@;
        assert(m.contains_key(l));
        assert(q == m[l].queue);
        let mut orders: Vec<OrderData> = Vec::new();
        let len = level.queue.len();
        let mut k: usize = 0;
        while k < len
            invariant
                self.sparse_wf(),
                m == self.level_models(),
                pool == self.order_view(),
                m.contains_key(l),
                q == m[l].queue,
                level.queue@ == q,
                len == q.len(),
                k <= len,
                orders@ == q.take(k as int).map_values(|i: usize| pool[i].data),
            decreases len - k,
        {
            let i = level.queue[k];
            proof {
                assert(m[l].queue[k as int] == i);
                assert(pool.contains_key(i));
                assert(q.take(k + 1).map_values(|i: usize| pool[i].data) =~= q.take(k as int).map_values(
                    |i: usize| pool[i].data,
                ).push(pool[i].data));
            }
            let data = resting_slab_get(&self.orders, i).unwrap().data;
            orders.push(data);
            k = k + 1;
        }
        proof {
            assert(q.take(len as int) =~= q);
        }
        orders
    }

    /// Appends a model of every level of one side to `out`; `w` names, for
    /// each entry of `out`, the level it shows, before and after.
    fn export_side(&self, bid_side: bool, out: &mut Vec<PriceLevelModel>, w: Ghost<Seq<usize>>) -> (r: Ghost<Seq<usize>>)
        requires
            self.sparse_wf(),
            w@.len() == old(out)@.len(),
            forall|j: int|
                0 <= j < w@.len() ==> self.level_models().contains_key(#[trigger] w@[j]) && shows_level(
                    old(out)@[j],
                    self.order_view(),
                    self.level_models()[w@[j]],
                ),
        ensures
            r@.len() == final(out)@.len(),
            w@.len() <= r@.len(),
            forall|j: int| 0 <= j < w@.len() ==> r@[j] == w@[j],
            forall|j: int|
                0 <= j < r@.len() ==> self.level_models().contains_key(#[trigger] r@[j]) && shows_level(
                    final(out)@[j],
                    self.order_view(),
                    self.level_models()[r@[j]],
                ),
            forall|p: u64|
                #[trigger] self.tree(bid_side).contains_key(p) ==> exists|j: int|
                    0 <= j < r@.len() && r@[j] == self.tree(bid_side)[p],
    {
        let tree = if bid_side {
            &self.bids
        } else {
            &self.asks
        };
        assert(tree@ == self.tree(bid_side));
        let ghost m = self.level_models();
        let ghost pool = self.order_view();
        let ghost s = spec_btree_map_iter(tree).remaining();
        let ghost mut done: int = 0;
        let ghost mut wit: Seq<usize> = w@;
        let ghost start = w@.len();
        for e in it: tree.iter()
            invariant
                self.sparse_wf(),
                m == self.level_models(),
                pool == self.order_view(),
                tree@ == self.tree(bid_side),
                it.seq() == s,
                s == spec_btree_map_iter(tree).remaining(),
                done == it.index(),
                0 <= done <= s.len(),
                wit.len() == out@.len(),
                wit.len() == start + done,
                start == w@.len(),
                forall|j: int| 0 <= j < start ==> wit[j] == w@[j],
                forall|j: int|
                    0 <= j < wit.len() ==> m.contains_key(#[trigger] wit[j]) && shows_level(out@[j], pool, m[wit[j]]),
                forall|k: int| 0 <= k < done ==> wit[start + k] == *(#[trigger] s[k]).1,
        {
            let (p, l) = e;
            let ghost i = it.index();
            proof {
                assert(e == s[i]);
                assert(tree@.contains_key(*s[i].0) && tree@[*s[i].0] == *s[i].1);
                assert(self.level_view().contains_key(*l));
                assert(m.contains_key(*l));
            }
            let price = *p;
            let orders = self.queue_orders(*l);
            let side = if bid_side {
                Side::buy
            } else {
                Side::sell
            };
            let lm = PriceLevelModel { price: Price(price), side, orders };
            proof {
                if bid_side {
                    assert(self.holds_bid(*l));
                } else {
                    assert(self.bids@.contains_key(price) ==> self.bids@[price] != *l);
                    assert(!self.holds_bid(*l));
                }
                assert(shows_level(lm, pool, m[*l]));
            }
            let ghost before = out@;
            out.push(lm);
            proof {
                let old_wit = wit;
                wit = wit.push(*l);
                assert forall|j: int|
                    0 <= j < wit.len() implies m.contains_key(#[trigger] wit[j]) && shows_level(out@[j], pool, m[wit[j]]) by {
                    if j < before.len() {
                        assert(out@[j] == before[j]);
                        assert(wit[j] == old_wit[j]);
                    }
                }
                assert forall|j: int| 0 <= j < start implies wit[j] == w@[j] by {
                    assert(wit[j] == old_wit[j]);
                }
                assert forall|k: int| 0 <= k < done + 1 implies wit[start + k] == *(#[trigger] s[k]).1 by {
                    if k < done {
                        assert(wit[start + k] == old_wit[start + k]);
                    }
                }
                done = done + 1;
            }
        }
        proof {
            assert(done == s.len());
            assert forall|p: u64| #[trigger] self.tree(bid_side).contains_key(p) implies exists|j: int|
                0 <= j < wit.len() && wit[j] == self.tree(bid_side)[p] by {
                let v = tree@[p];
                assert(tree@.contains_key(p));
                assert(s.contains((&p, &v)));
                let k = choose|k: int| 0 <= k < s.len() && s[k] == (&p, &v);
                assert(wit[start + k] == *s[k].1);
            }
        }
        Ghost(wit)
    }
}

impl OrderBookBackend for SparseBackend {
    type OrderIdx = usize;
    type LevelIdx = usize;

    closed spec fn wf(&self) -> bool {
        self.sparse_wf()
    }

    closed spec fn pool(&self) -> Map<usize, RestingOrder<usize>> {
        self.order_view()
    }

    closed spec fn levels(&self) -> Map<usize, LevelModel<usize>> {
        self.level_models()
    }

    closed spec fn ids(&self) -> Map<u64, usize> {
        self.order_map@
    }

    closed spec fn price_valid(&self, price: u64) -> bool {
        true
    }

    closed spec fn level_price(&self, price: u64) -> u64 {
        price
    }

    closed spec fn insert_failure(&self, order: RestingOrder<usize>) -> Option<CommandFailure> {
        None
    }

    closed spec fn depth_sums_levels(&self, side: Side, limit: u64) -> bool {
        true
    }

    proof fn lemma_depth_sums_levels(&self, side: Side, limit: u64) {
        self.lemma_side_depth_levels(side, limit);
    }

    closed spec fn depth(&self, side: Side, limit: u64) -> int {
        match side {
            Side::buy => self.side_depth(true, limit),
            Side::sell => self.side_depth(false, limit),
            Side::NullVal => 0,
        }
    }

    proof fn lemma_wf(&self) {
    }

    proof fn lemma_level_price(&self, l: usize) {
    }

    proof fn lemma_insert_failure_kinds(&self, order: RestingOrder<usize>) {
    }

    proof fn lemma_insert_failure_by_id(&self, a: RestingOrder<usize>, b: RestingOrder<usize>) {
    }

    fn insert_order(&mut self, order: RestingOrder<usize>) -> (r: Result<usize, CommandFailure>) {
        let ghost o = *old(self);
        let order_id = order.data.order_id.0;
        let idx = resting_slab_insert(&mut self.orders, order);
        fx_insert(&mut self.order_map, order_id, idx);
        proof {
            assert(self.level_view() == o.level_view());
            assert(self.level_models() =~= o.level_models());
            let m = o.level_models();
            assert forall|i: usize| is_queued(m, i) implies self.order_view().contains_key(i)
                && self.order_view()[i] == o.order_view()[i] by {
                let (l, k) = choose|l: usize, k: int|
                    #![trigger m[l].queue[k]]
                    m.contains_key(l) && 0 <= k < m[l].queue.len() && m[l].queue[k] == i;
            }
            lemma_book_wf_frame(o.order_view(), self.order_view(), m, o.order_map@, self.order_map@);
        }
        Ok(idx)
    }

    fn remove_order(&mut self, order_idx: usize) -> (r: Option<RestingOrder<usize>>) {
        let ghost o = *old(self);
        let r = resting_slab_try_remove(&mut self.orders, order_idx);
        match r {
            Some(order) => {
                fx_remove(&mut self.order_map, order.data.order_id.0);
                proof {
                    assert(self.level_view() == o.level_view());
                    assert(self.level_models() =~= o.level_models());
                    let m = o.level_models();
                    assert forall|i: usize| is_queued(m, i) implies self.order_view().contains_key(i)
                        && self.order_view()[i] == o.order_view()[i] by {
                        let (l, k) = choose|l: usize, k: int|
                            #![trigger m[l].queue[k]]
                            m.contains_key(l) && 0 <= k < m[l].queue.len() && m[l].queue[k] == i;
                    }
                    lemma_book_wf_frame(o.order_view(), self.order_view(), m, o.order_map@, self.order_map@);
                }
                Some(order)
            },
            None => None,
        }
    }

    fn get_order(&self, order_idx: usize) -> (r: Option<&RestingOrder<usize>>) {
        resting_slab_get(&self.orders, order_idx)
    }

    fn get_order_idx_by_id(&self, order_id: OrderId) -> (r: Option<usize>) {
        fx_get(&self.order_map, order_id.0)
    }

    fn get_or_create_level(&mut self, side: Side, price: Price) -> (r: usize) {
        let ghost o = *old(self);
        let bid_side = match side {
            Side::buy => true,
            _ => false,
        };
        let found = if bid_side {
            self.bids.get(&price.0)
        } else {
            self.asks.get(&price.0)
        };
        match found {
            Some(idx) => {
                let idx = *idx;
                proof {
                    assert(o.tree(bid_side).contains_key(price.0));
                }
                return idx;
            },
            None => {},
        }
        let idx = level_slab_insert(
            &mut self.levels,
            PriceLevel { queue: VecDeque::new(), total_qty: 0, price },
        );
        if bid_side {
            self.bids.insert(price.0, idx);
        } else {
            self.asks.insert(price.0, idx);
        }
        proof {
            let lm = LevelModel { price: price.0, is_bid: side == Side::buy, total: 0u64, queue: Seq::<usize>::empty() };
            assert(self.level_view()[idx].queue@ =~= Seq::<usize>::empty());
            assert forall|l: usize| o.level_view().contains_key(l) implies #[trigger] self.holds_bid(l) == o.holds_bid(l)
                && self.holds_ask(l) == o.holds_ask(l) by {
                assert(self.level_view()[l] == o.level_view()[l]);
            }
            assert(self.level_models() =~= o.level_models().insert(idx, lm));
            lemma_add_level(o.order_view(), o.level_models(), o.order_map@, idx, lm);
            assert forall|l: usize| #[trigger] self.level_view().contains_key(l) implies self.holds_bid(l)
                || self.holds_ask(l) by {
                if l != idx {
                    assert(o.holds_bid(l) || o.holds_ask(l));
                }
            }
        }
        idx
    }

    fn get_level(&self, price: Price) -> (r: Option<usize>) {
        match self.bids.get(&price.0) {
            Some(idx) => Some(*idx),
            None => match self.asks.get(&price.0) {
                Some(idx) => Some(*idx),
                None => {
                    proof {
                        assert forall|l: usize| #[trigger] self.levels().contains_key(l) implies self.levels()[l].price
                            != self.level_price(price.0) by {
                            assert(self.level_view().contains_key(l));
                            assert(self.holds_bid(l) || self.holds_ask(l));
                        }
                    }
                    None
                },
            },
        }
    }

    fn best_ask_price(&self) -> (r: Option<Price>) {
        match crate::collections::first_key(&self.asks) {
            Some(p) => {
                proof {
                    let l = self.asks@[p];
                    assert(self.level_view().contains_key(l));
                    assert(!self.holds_bid(l));
                    assert(self.levels().contains_key(l));
                    assert forall|l2: usize| #[trigger] self.levels().contains_key(l2) && !self.levels()[l2].is_bid
                        implies p <= self.levels()[l2].price by {
                        assert(self.holds_bid(l2) || self.holds_ask(l2));
                    }
                }
                Some(Price(p))
            },
            None => {
                proof {
                    assert forall|l: usize| #[trigger] self.levels().contains_key(l) implies self.levels()[l].is_bid by {
                        assert(self.holds_bid(l) || self.holds_ask(l));
                        assert(!self.asks@.dom().contains(self.level_view()[l].price.0));
                    }
                }
                None
            },
        }
    }

    fn best_bid_price(&self) -> (r: Option<Price>) {
        match crate::collections::last_key(&self.bids) {
            Some(p) => {
                proof {
                    let l = self.bids@[p];
                    assert(self.level_view().contains_key(l));
                    assert(self.holds_bid(l));
                    assert(self.levels().contains_key(l));
                    assert forall|l2: usize| #[trigger] self.levels().contains_key(l2) && self.levels()[l2].is_bid
                        implies self.levels()[l2].price <= p by {
                    }
                }
                Some(Price(p))
            },
            None => {
                proof {
                    assert forall|l: usize| #[trigger] self.levels().contains_key(l) implies !self.levels()[l].is_bid by {
                        assert(!self.bids@.dom().contains(self.level_view()[l].price.0));
                    }
                }
                None
            },
        }
    }

    fn push_to_level_back(&mut self, level_idx: usize, order_idx: usize) {
        let ghost o = *old(self);
        let order_qty = resting_slab_get(&self.orders, order_idx).unwrap().data.remaining_qty.0;
        proof {
            lemma_push_facts(o.order_view(), o.level_models(), o.order_map@, level_idx, order_idx);
        }
        let level = level_slab_index_mut(&mut self.levels, level_idx);
        level.queue.push_back(order_idx);
        level.total_qty = level.total_qty + order_qty;
        proof {
            let m = o.level_models();
            let q = m[level_idx].queue;
            let nq = q.push(order_idx);
            lemma_queue_qty_push(o.order_view(), q, order_idx);
            assert forall|x: usize| nq.contains(x) <==> (q.contains(x) || x == order_idx) by {
                if nq.contains(x) && x != order_idx {
                    let k = nq.index_of(x);
                    assert(q[k] == x);
                }
                if q.contains(x) {
                    let k = q.index_of(x);
                    assert(nq[k] == x);
                }
                if x == order_idx {
                    assert(nq[q.len() as int] == x);
                }
            }
            assert forall|l: usize| o.level_view().contains_key(l) implies #[trigger] self.holds_bid(l) == o.holds_bid(l)
                && self.holds_ask(l) == o.holds_ask(l) by {
            }
            assert(self.level_models() =~= m.insert(
                level_idx,
                LevelModel { queue: nq, total: self.level_view()[level_idx].total_qty, ..m[level_idx] },
            ));
            lemma_replace_level(
                o.order_view(),
                m,
                o.order_map@,
                level_idx,
                nq,
                self.level_view()[level_idx].total_qty,
                order_idx,
                true,
            );
        }
    }

    fn push_to_level_front(&mut self, level_idx: usize, order_idx: usize) {
        let ghost o = *old(self);
        let order_qty = resting_slab_get(&self.orders, order_idx).unwrap().data.remaining_qty.0;
        proof {
            lemma_push_facts(o.order_view(), o.level_models(), o.order_map@, level_idx, order_idx);
        }
        let level = level_slab_index_mut(&mut self.levels, level_idx);
        level.queue.push_front(order_idx);
        level.total_qty = level.total_qty + order_qty;
        proof {
            let m = o.level_models();
            let q = m[level_idx].queue;
            let nq = seq![order_idx] + q;
            lemma_queue_qty_prepend(o.order_view(), q, order_idx);
            assert forall|l: usize| o.level_view().contains_key(l) implies #[trigger] self.holds_bid(l) == o.holds_bid(l)
                && self.holds_ask(l) == o.holds_ask(l) by {
            }
            assert(self.level_models() =~= m.insert(
                level_idx,
                LevelModel { queue: nq, total: self.level_view()[level_idx].total_qty, ..m[level_idx] },
            ));
            assert forall|x: usize| nq.contains(x) <==> (q.contains(x) || x == order_idx) by {
                if nq.contains(x) && x != order_idx {
                    let k = nq.index_of(x);
                    assert(q[k - 1] == x);
                }
                if q.contains(x) {
                    let k = q.index_of(x);
                    assert(nq[k + 1] == x);
                }
                if x == order_idx {
                    assert(nq[0] == x);
                }
            }
            lemma_replace_level(
                o.order_view(),
                m,
                o.order_map@,
                level_idx,
                nq,
                self.level_view()[level_idx].total_qty,
                order_idx,
                true,
            );
        }
    }

    fn pop_from_level(&mut self, level_idx: usize) -> (r: Option<usize>) {
        let ghost o = *old(self);
        proof {
            lemma_queue_facts(o.order_view(), o.level_models(), o.order_map@, level_idx);
        }
        let level = level_slab_index_mut(&mut self.levels, level_idx);
        match level.queue.pop_front() {
            Some(order_idx) => {
                let order_qty = resting_slab_get(&self.orders, order_idx).unwrap().data.remaining_qty.0;
                level.total_qty = level.total_qty - order_qty;
                proof {
                    let m = o.level_models();
                    let q = m[level_idx].queue;
                    let nq = q.drop_first();
                    assert(q.remove(0) =~= nq);
                    lemma_queue_qty_remove(o.order_view(), q, 0);
                    assert forall|x: usize| nq.contains(x) <==> (q.contains(x) && x != order_idx) by {
                        if nq.contains(x) {
                            let k = nq.index_of(x);
                            assert(q[k + 1] == x);
                        }
                        if q.contains(x) && x != order_idx {
                            let k = q.index_of(x);
                            assert(nq[k - 1] == x);
                        }
                    }
                    assert(q[0] == order_idx);
                    assert(q.contains(order_idx));
                    assert forall|l: usize| o.level_view().contains_key(l) implies #[trigger] self.holds_bid(l)
                        == o.holds_bid(l) && self.holds_ask(l) == o.holds_ask(l) by {
                    }
                    assert(self.level_models() =~= m.insert(
                        level_idx,
                        LevelModel { queue: nq, total: self.level_view()[level_idx].total_qty, ..m[level_idx] },
                    ));
                    lemma_replace_level(
                        o.order_view(),
                        m,
                        o.order_map@,
                        level_idx,
                        nq,
                        self.level_view()[level_idx].total_qty,
                        order_idx,
                        false,
                    );
                }
                Some(order_idx)
            },
            None => {
                proof {
                    assert forall|l: usize| o.level_view().contains_key(l) implies #[trigger] self.holds_bid(l)
                        == o.holds_bid(l) && self.holds_ask(l) == o.holds_ask(l) by {
                    }
                    assert(self.level_models() =~= o.level_models());
                }
                None
            },
        }
    }

    fn remove_from_level(&mut self, level_idx: usize, order_idx: usize) {
        let ghost o = *old(self);
        let ghost m = o.level_models();
        let ghost q = m[level_idx].queue;
        proof {
            lemma_queue_facts(o.order_view(), m, o.order_map@, level_idx);
        }
        let pos = match level_slab_get(&self.levels, level_idx) {
            Some(level) => {
                let len = level.queue.len();
                let mut pos: usize = 0;
                while pos < len && level.queue[pos] != order_idx
                    invariant
                        len == q.len(),
                        level.queue@ == q,
                        q.contains(order_idx),
                        0 <= pos <= len,
                        forall|k: int| 0 <= k < pos ==> q[k] != order_idx,
                    decreases len - pos,
                {
                    pos = pos + 1;
                }
                pos
            },
            None => 0,
        };
        proof {
            let k = q.index_of(order_idx);
            assert(q[k] == order_idx);
            assert(pos == k);
        }
        let order_qty = resting_slab_get(&self.orders, order_idx).unwrap().data.remaining_qty.0;
        let level = level_slab_index_mut(&mut self.levels, level_idx);
        level.queue.remove(pos);
        level.total_qty = level.total_qty.saturating_sub(order_qty);
        proof {
            let nq = q.remove(pos as int);
            lemma_queue_qty_remove(o.order_view(), q, pos as int);
            assert forall|x: usize| nq.contains(x) <==> (q.contains(x) && x != order_idx) by {
                if nq.contains(x) {
                    let k = nq.index_of(x);
                    if k < pos {
                        assert(q[k] == x);
                    } else {
                        assert(q[k + 1] == x);
                    }
                }
                if q.contains(x) && x != order_idx {
                    let k = q.index_of(x);
                    if k < pos {
                        assert(nq[k] == x);
                    } else {
                        assert(nq[k - 1] == x);
                    }
                }
            }
            assert(nq.no_duplicates());
            assert forall|l: usize| o.level_view().contains_key(l) implies #[trigger] self.holds_bid(l) == o.holds_bid(l)
                && self.holds_ask(l) == o.holds_ask(l) by {
            }
            assert(self.level_models() =~= m.insert(
                level_idx,
                LevelModel { queue: nq, total: self.level_view()[level_idx].total_qty, ..m[level_idx] },
            ));
            lemma_replace_level(
                o.order_view(),
                m,
                o.order_map@,
                level_idx,
                nq,
                self.level_view()[level_idx].total_qty,
                order_idx,
                false,
            );
        }
    }

    fn level_order_count(&self, level_idx: usize) -> (r: usize) {
        match level_slab_get(&self.levels, level_idx) {
            Some(level) => level.queue.len(),
            None => 0,
        }
    }

    fn remove_empty_level(&mut self, level_idx: usize) {
        let ghost o = *old(self);
        if self.level_order_count(level_idx) == 0 {
            let price = match level_slab_get(&self.levels, level_idx) {
                Some(level) => level.price.0,
                None => 0,
            };
            // Only the side that holds this level gives up the price: a level
            // of the other side at the same price stays.
            let held_by_bids = match self.bids.get(&price) {
                Some(b) => *b == level_idx,
                None => false,
            };
            if held_by_bids {
                self.bids.remove(&price);
            } else {
                self.asks.remove(&price);
            }
            level_slab_try_remove(&mut self.levels, level_idx);
            proof {
                let m = o.level_models();
                assert(o.holds_bid(level_idx) || o.holds_ask(level_idx));
                assert forall|l: usize| #[trigger] self.level_view().contains_key(l) implies self.holds_bid(l)
                    == o.holds_bid(l) && self.holds_ask(l) == o.holds_ask(l) by {
                    assert(self.level_view()[l] == o.level_view()[l]);
                }
                assert(self.level_models() =~= m.remove(level_idx));
                lemma_drop_level(o.order_view(), m, o.order_map@, level_idx);
                assert forall|p: u64| #[trigger] self.bids@.contains_key(p) implies self.level_view().contains_key(
                    self.bids@[p],
                ) && self.level_view()[self.bids@[p]].price.0 == p by {
                    assert(o.bids@.contains_key(p));
                }
                assert forall|p: u64| #[trigger] self.asks@.contains_key(p) implies self.level_view().contains_key(
                    self.asks@[p],
                ) && self.level_view()[self.asks@[p]].price.0 == p by {
                    assert(o.asks@.contains_key(p));
                }
                assert forall|l: usize| #[trigger] self.level_view().contains_key(l) implies self.holds_bid(l)
                    || self.holds_ask(l) by {
                    assert(o.holds_bid(l) || o.holds_ask(l));
                }
            }
        }
    }

    fn level_total_qty(&self, level_idx: usize) -> (r: u64) {
        match level_slab_get(&self.levels, level_idx) {
            Some(level) => level.total_qty,
            None => 0,
        }
    }

    fn get_total_depth(&self, side: Side, price_limit: Price) -> (r: u64) {
        match side {
            Side::buy => self.depth_over(true, price_limit.0),
            Side::sell => self.depth_over(false, price_limit.0),
            Side::NullVal => 0,
        }
    }

    fn modify_order_qty(&mut self, order_idx: usize, new_qty: Quantity) {
        let ghost o = *old(self);
        let order = *resting_slab_get(&self.orders, order_idx).unwrap();
        let l = order.level_idx;
        let old_qty = order.data.remaining_qty.0;
        // The shown part of an iceberg never exceeds what is left of it.
        let visible = if order.data.visible_qty.0 <= new_qty.0 {
            order.data.visible_qty.0
        } else {
            new_qty.0
        };
        let updated = RestingOrder {
            data: OrderData { remaining_qty: new_qty, visible_qty: Quantity(visible), ..order.data },
            ..order
        };
        resting_slab_set(&mut self.orders, order_idx, updated);
        proof {
            lemma_queue_facts(o.order_view(), o.level_models(), o.order_map@, l);
            let q = o.level_models()[l].queue;
            let k = q.index_of(order_idx);
            assert(o.level_models()[l].queue[k] == order_idx);
            let pool = o.order_view();
            assert forall|j: int| 0 <= j < q.len() implies pool.dom().contains(#[trigger] q[j]) by {
                assert(o.level_models()[l].queue[j] == q[j]);
            }
            lemma_queue_qty_le_keys(pool, q, pool.dom());
            super::lemma_pool_qty_update(pool, order_idx, updated);
        }
        let level = level_slab_index_mut(&mut self.levels, l);
        level.total_qty = level.total_qty - old_qty + new_qty.0;
        proof {
            let m = o.level_models();
            let total = self.level_view()[l].total_qty;
            lemma_requantify(o.order_view(), m, o.order_map@, order_idx, updated, total);
            assert forall|x: usize| o.level_view().contains_key(x) implies #[trigger] self.holds_bid(x) == o.holds_bid(x)
                && self.holds_ask(x) == o.holds_ask(x) by {
            }
            assert(self.level_models() =~= m.insert(l, LevelModel { total, ..m[l] }));
        }
    }

    fn export_levels(&self) -> (r: Vec<PriceLevelModel>) {
        let mut out: Vec<PriceLevelModel> = Vec::new();
        let w1 = self.export_side(true, &mut out, Ghost(Seq::empty()));
        let ghost out1 = out@;
        let w2 = self.export_side(false, &mut out, w1);
        proof {
            let m = self.level_models();
            let pool = self.order_view();
            assert forall|j: int| 0 <= j < out@.len() implies shows_some_level(#[trigger] out@[j], pool, m) by {
                assert(m.contains_key(w2@[j]));
            }
            assert forall|l: usize| #[trigger] m.contains_key(l) implies level_shown(out@, pool, m[l]) by {
                assert(self.level_view().contains_key(l));
                let p = self.level_view()[l].price.0;
                let bid_side = self.holds_bid(l);
                if !bid_side {
                    assert(self.holds_ask(l));
                }
                assert(self.tree(bid_side).contains_key(p));
                assert(self.tree(bid_side)[p] == l);
                if bid_side {
                    let j = choose|j: int| 0 <= j < w1@.len() && w1@[j] == self.tree(true)[p];
                    assert(w2@[j] == w1@[j]);
                    assert(shows_level(out@[j], pool, m[w2@[j]]));
                } else {
                    let j = choose|j: int| 0 <= j < w2@.len() && w2@[j] == self.tree(false)[p];
                    assert(shows_level(out@[j], pool, m[w2@[j]]));
                }
            }
        }
        out
    }

    fn clear(&mut self) {
        *self = SparseBackend::new();
        proof {
            assert(self.pool().dom() =~= Set::empty());
            assert(self.levels().dom() =~= Set::empty());
            assert(self.ids().dom() =~= Set::empty());
        }
    }

    fn prefetch_entry(&self, order_idx: usize) {
    }

    fn validate_price(&self, price: Price) -> (r: bool) {
        true
    }
}

impl Default for SparseBackend {
    fn default() -> (r: Self)
        ensures
            r.wf(),
            r.pool() == Map::<usize, RestingOrder<usize>>::empty(),
            r.levels() == Map::<usize, LevelModel<usize>>::empty(),
            r.ids() == Map::<u64, usize>::empty(),
    {
        Self::new()
    }
}

/// The sparse book takes every price, keeps each order at a level of its
/// own price, and its depth of a side sums the levels of that side out to
/// any limit.
pub proof fn lemma_sparse_prices(b: &SparseBackend)
    ensures
        forall|p: u64| #[trigger] b.price_valid(p),
        forall|p: u64| #[trigger] b.level_price(p) == p,
        forall|side: Side, limit: u64| #[trigger] b.depth_sums_levels(side, limit),
{
}

/// The sparse book stores every order it is handed: its slabs grow as
/// needed and an id already in the index is simply pointed at the new order.
pub proof fn lemma_takes_every_order()
    ensures
        takes_every_order::<SparseBackend>(),
{
}

} // verus!
