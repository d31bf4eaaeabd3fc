//! The order book: an abstract model of resting orders and price levels,
//! the interface every storage backend implements against that model,
//! and the two backends.
use vstd::prelude::*;
use crate::orders::{OrderData, RestingOrder};
use crate::outcome::CommandFailure;
use crate::snapshot::PriceLevelModel;
use crate::sbe::side::Side;
use crate::types::{OrderId, Price, Quantity};

pub mod bitset;
pub mod dense;
pub mod sparse;




verus! {

/// Abstract state of one price level.
pub ghost struct LevelModel<OI> {
    /// Price of the level.
    pub price: u64,
    /// Whether the level holds bids (otherwise asks).
    pub is_bid: bool,
    /// Aggregate open quantity that the level reports.
    pub total: u64,
    /// Orders queued at the level, in time priority.
    pub queue: Seq<OI>,
}

/// Open quantity of an order.
pub open spec fn open_qty<L>(r: RestingOrder<L>) -> int {
    r.data.remaining_qty.0 as int
}

/// Sum of the open quantities of the orders listed in `q`.
pub open spec fn queue_qty<K, L>(pool: Map<K, RestingOrder<L>>, q: Seq<K>) -> int
    decreases q.len(),
{
    if q.len() == 0 {
        0
    } else {
        queue_qty(pool, q.drop_last()) + open_qty(pool[q.last()])
    }
}

/// Sum of the open quantities of the orders whose keys are in `keys`.
pub closed spec fn keys_qty<K, L>(pool: Map<K, RestingOrder<L>>, keys: Set<K>) -> int
    decreases keys.len(),
    when keys.finite()
{
    if keys.len() == 0 {
        0
    } else {
        let k = keys.choose();
        open_qty(pool[k]) + keys_qty(pool, keys.remove(k))
    }
}

/// Sum of the open quantities of every order in the pool.
pub open spec fn pool_qty<K, L>(pool: Map<K, RestingOrder<L>>) -> int {
    keys_qty(pool, pool.dom())
}

/// Sum of the aggregates of the levels whose keys are in `keys`.
pub closed spec fn level_sum<OI, LI>(levels: Map<LI, LevelModel<OI>>, keys: Set<LI>) -> int
    decreases keys.len(),
    when keys.finite()
{
    if keys.len() == 0 {
        0
    } else {
        let k = keys.choose();
        levels[k].total + level_sum(levels, keys.remove(k))
    }
}

/// Whether a level at price `p` counts toward the depth of a side out to
/// `limit`: at or above it for bids, at or below it for asks.
pub open spec fn counts(bid_side: bool, limit: u64, p: u64) -> bool {
    if bid_side {
        p >= limit
    } else {
        p <= limit
    }
}

/// Whether the level `lm` is one of `side` that counts toward its depth out
/// to `limit`.
pub open spec fn crosses_level<OI>(lm: LevelModel<OI>, side: Side, limit: u64) -> bool {
    match side {
        Side::buy => lm.is_bid && counts(true, limit, lm.price),
        Side::sell => !lm.is_bid && counts(false, limit, lm.price),
        Side::NullVal => false,
    }
}

/// Keys of the levels of `side` that count toward its depth out to `limit`.
pub open spec fn crossing_keys<OI, LI>(levels: Map<LI, LevelModel<OI>>, side: Side, limit: u64) -> Set<LI> {
    levels.dom().filter(|l: LI| crosses_level(levels[l], side, limit))
}

/// Open quantity of `side` out to `limit`, summed over the levels of a book.
pub open spec fn crossing_total<OI, LI>(levels: Map<LI, LevelModel<OI>>, side: Side, limit: u64) -> int {
    level_sum(levels, crossing_keys(levels, side, limit))
}

/// A sum of level aggregates is never negative.
pub proof fn lemma_level_sum_nonneg<OI, LI>(levels: Map<LI, LevelModel<OI>>, keys: Set<LI>)
    requires
        keys.finite(),
    ensures
        level_sum(levels, keys) >= 0,
    decreases keys.len(),
{
    if keys.len() > 0 {
        lemma_level_sum_nonneg(levels, keys.remove(keys.choose()));
    }
}

/// Removing one key from a key set removes exactly its level's aggregate.
pub proof fn lemma_level_sum_remove<OI, LI>(levels: Map<LI, LevelModel<OI>>, keys: Set<LI>, k: LI)
    requires
        keys.finite(),
        keys.contains(k),
    ensures
        level_sum(levels, keys) == levels[k].total + level_sum(levels, keys.remove(k)),
    decreases keys.len(),
{
    assert(keys.len() > 0) by {
        if keys.len() == 0 {
            assert(keys =~= Set::empty());
        }
    }
    let c = keys.choose();
    if c != k {
        lemma_level_sum_remove(levels, keys.remove(c), k);
        lemma_level_sum_remove(levels, keys.remove(k), c);
        assert(keys.remove(c).remove(k) =~= keys.remove(k).remove(c));
    } else {
        assert(keys.remove(c) =~= keys.remove(k));
    }
}

/// The sum over a key set only depends on the aggregates of those keys.
pub proof fn lemma_level_sum_congruent<OI, LI>(m1: Map<LI, LevelModel<OI>>, m2: Map<LI, LevelModel<OI>>, keys: Set<LI>)
    requires
        keys.finite(),
        forall|k: LI| keys.contains(k) ==> #[trigger] m1[k].total == m2[k].total,
    ensures
        level_sum(m1, keys) == level_sum(m2, keys),
    decreases keys.len(),
{
    if keys.len() > 0 {
        let c = keys.choose();
        lemma_level_sum_congruent(m1, m2, keys.remove(c));
    }
}

/// Replacing a level by one at the same price and side changes the depth
/// out to any limit by the change of its aggregate, if it counts there.
pub proof fn lemma_crossing_update<OI, LI>(levels: Map<LI, LevelModel<OI>>, l: LI, nl: LevelModel<OI>, side: Side, limit: u64)
    requires
        levels.dom().finite(),
        levels.contains_key(l),
        nl.price == levels[l].price,
        nl.is_bid == levels[l].is_bid,
    ensures
        crossing_total(levels.insert(l, nl), side, limit) == crossing_total(levels, side, limit) + (if crosses_level(
            levels[l],
            side,
            limit,
        ) {
            nl.total - levels[l].total
        } else {
            0
        }),
{
    let m2 = levels.insert(l, nl);
    let ks = crossing_keys(levels, side, limit);
    assert(crossing_keys(m2, side, limit) =~= ks);
    if ks.contains(l) {
        lemma_level_sum_remove(levels, ks, l);
        lemma_level_sum_remove(m2, ks, l);
        lemma_level_sum_congruent(levels, m2, ks.remove(l));
    } else {
        lemma_level_sum_congruent(levels, m2, ks);
    }
}

/// Dropping a level takes its aggregate out of the depth out to any limit,
/// if it counts there.
pub proof fn lemma_crossing_remove<OI, LI>(levels: Map<LI, LevelModel<OI>>, l: LI, side: Side, limit: u64)
    requires
        levels.dom().finite(),
        levels.contains_key(l),
    ensures
        crossing_total(levels.remove(l), side, limit) == crossing_total(levels, side, limit) - (if crosses_level(
            levels[l],
            side,
            limit,
        ) {
            levels[l].total as int
        } else {
            0
        }),
{
    let m2 = levels.remove(l);
    let ks = crossing_keys(levels, side, limit);
    assert(crossing_keys(m2, side, limit) =~= ks.remove(l));
    lemma_level_sum_congruent(levels, m2, ks.remove(l));
    if ks.contains(l) {
        lemma_level_sum_remove(levels, ks, l);
    } else {
        assert(ks.remove(l) =~= ks);
    }
}

/// With no level of `side` out to `limit`, the depth there is nothing.
pub proof fn lemma_crossing_none<OI, LI>(levels: Map<LI, LevelModel<OI>>, side: Side, limit: u64)
    requires
        forall|l: LI| #[trigger] levels.contains_key(l) ==> !crosses_level(levels[l], side, limit),
    ensures
        crossing_total(levels, side, limit) == 0,
{
    assert(crossing_keys(levels, side, limit) =~= Set::empty());
}

/// Whether `i` is queued at some level.
pub open spec fn is_queued<OI, LI>(levels: Map<LI, LevelModel<OI>>, i: OI) -> bool {
    exists|l: LI, k: int|
        #![trigger levels[l].queue[k]]
        levels.contains_key(l) && 0 <= k < levels[l].queue.len() && levels[l].queue[k] == i
}

/// Consistency of an abstract book: every queued order is in the pool and
/// knows its level, no order is queued twice, each level reports the sum
/// of its queue, and every id maps to an order that carries it.
pub open spec fn book_wf<OI, LI>(
    pool: Map<OI, RestingOrder<LI>>,
    levels: Map<LI, LevelModel<OI>>,
    ids: Map<u64, OI>,
) -> bool {
    &&& pool.dom().finite()
    &&& levels.dom().finite()
    &&& forall|l: LI, k: int|
        #![trigger levels[l].queue[k]]
        levels.contains_key(l) && 0 <= k < levels[l].queue.len() ==> pool.contains_key(
            levels[l].queue[k],
        ) && pool[levels[l].queue[k]].level_idx == l
    &&& forall|l1: LI, k1: int, l2: LI, k2: int|
        #![trigger levels[l1].queue[k1], levels[l2].queue[k2]]
        levels.contains_key(l1) && levels.contains_key(l2) && 0 <= k1 < levels[l1].queue.len()
            && 0 <= k2 < levels[l2].queue.len() && (l1 != l2 || k1 != k2) ==> levels[l1].queue[k1]
            != levels[l2].queue[k2]
    &&& forall|l: LI|
        #![trigger levels[l]]
        levels.contains_key(l) ==> levels[l].total == queue_qty(pool, levels[l].queue)
    &&& forall|id: u64|
        #![trigger ids[id]]
        ids.contains_key(id) ==> pool.contains_key(ids[id]) && pool[ids[id]].data.order_id.0 == id
}

/// Removing one key from a key set removes exactly its quantity from the sum.
pub proof fn lemma_keys_qty_remove<K, L>(pool: Map<K, RestingOrder<L>>, keys: Set<K>, k: K)
    requires
        keys.finite(),
        keys.contains(k),
    ensures
        keys_qty(pool, keys) == open_qty(pool[k]) + keys_qty(pool, keys.remove(k)),
    decreases keys.len(),
{
    assert(keys.len() > 0) by {
        if keys.len() == 0 {
            assert(keys =~= Set::empty());
        }
    }
    let c = keys.choose();
    if c != k {
        lemma_keys_qty_remove(pool, keys.remove(c), k);
        lemma_keys_qty_remove(pool, keys.remove(k), c);
        assert(keys.remove(c).remove(k) =~= keys.remove(k).remove(c));
    } else {
        assert(keys.remove(c) =~= keys.remove(k));
    }
}

/// The sum over a key set only depends on the quantities of those keys.
pub proof fn lemma_keys_qty_congruent<K, L1, L2>(
    p1: Map<K, RestingOrder<L1>>,
    p2: Map<K, RestingOrder<L2>>,
    keys: Set<K>,
)
    requires
        keys.finite(),
        forall|k: K| keys.contains(k) ==> open_qty(#[trigger] p1[k]) == open_qty(p2[k]),
    ensures
        keys_qty(p1, keys) == keys_qty(p2, keys),
    decreases keys.len(),
{
    if keys.len() > 0 {
        let c = keys.choose();
        lemma_keys_qty_congruent(p1, p2, keys.remove(c));
    }
}

/// Sums are never negative.
pub proof fn lemma_keys_qty_nonneg<K, L>(pool: Map<K, RestingOrder<L>>, keys: Set<K>)
    requires
        keys.finite(),
    ensures
        keys_qty(pool, keys) >= 0,
    decreases keys.len(),
{
    if keys.len() > 0 {
        lemma_keys_qty_nonneg(pool, keys.remove(keys.choose()));
    }
}

/// An empty book is consistent.
pub proof fn lemma_pool_qty_empty<OI, LI>()
    ensures
        book_wf(
            Map::<OI, RestingOrder<LI>>::empty(),
            Map::<LI, LevelModel<OI>>::empty(),
            Map::<u64, OI>::empty(),
        ),
{
}

/// An empty pool sums to zero.
pub proof fn lemma_pool_qty_none<K, L>(pool: Map<K, RestingOrder<L>>)
    requires
        pool.dom().is_empty(),
    ensures
        pool_qty(pool) == 0,
{
    assert(pool.dom() =~= Set::empty());
    assert(pool.dom().len() == 0);
}

/// Inserting a new order adds its quantity to the pool sum.
pub proof fn lemma_pool_qty_insert<K, L>(pool: Map<K, RestingOrder<L>>, k: K, v: RestingOrder<L>)
    requires
        pool.dom().finite(),
        !pool.contains_key(k),
    ensures
        pool_qty(pool.insert(k, v)) == pool_qty(pool) + open_qty(v),
{
    let p2 = pool.insert(k, v);
    lemma_keys_qty_remove(p2, p2.dom(), k);
    assert(p2.dom().remove(k) =~= pool.dom());
    lemma_keys_qty_congruent(p2, pool, pool.dom());
}

/// Removing an order subtracts its quantity from the pool sum.
pub proof fn lemma_pool_qty_remove<K, L>(pool: Map<K, RestingOrder<L>>, k: K)
    requires
        pool.dom().finite(),
        pool.contains_key(k),
    ensures
        pool_qty(pool.remove(k)) == pool_qty(pool) - open_qty(pool[k]),
{
    let p2 = pool.remove(k);
    lemma_keys_qty_remove(pool, pool.dom(), k);
    assert(p2.dom() =~= pool.dom().remove(k));
    lemma_keys_qty_congruent(p2, pool, p2.dom());
}

/// Replacing an order changes the pool sum by the difference of quantities.
pub proof fn lemma_pool_qty_update<K, L>(pool: Map<K, RestingOrder<L>>, k: K, v: RestingOrder<L>)
    requires
        pool.dom().finite(),
        pool.contains_key(k),
    ensures
        pool_qty(pool.insert(k, v)) == pool_qty(pool) - open_qty(pool[k]) + open_qty(v),
{
    lemma_pool_qty_remove(pool, k);
    lemma_pool_qty_insert(pool.remove(k), k, v);
    assert(pool.remove(k).insert(k, v) =~= pool.insert(k, v));
}

/// The quantities of distinct orders drawn from a key set sum to at most
/// the sum over the whole set.
pub proof fn lemma_queue_qty_le_keys<K, L>(pool: Map<K, RestingOrder<L>>, q: Seq<K>, keys: Set<K>)
    requires
        keys.finite(),
        q.no_duplicates(),
        forall|k: int| 0 <= k < q.len() ==> keys.contains(#[trigger] q[k]),
    ensures
        queue_qty(pool, q) <= keys_qty(pool, keys),
    decreases q.len(),
{
    if q.len() == 0 {
        lemma_keys_qty_nonneg(pool, keys);
    } else {
        let last = q.last();
        let rest = q.drop_last();
        assert forall|k: int| 0 <= k < rest.len() implies keys.remove(last).contains(
            #[trigger] rest[k],
        ) by {
            assert(rest[k] == q[k]);
            assert(q[k] != q[q.len() - 1]);
        }
        assert(rest.no_duplicates()) by {
            assert forall|a: int, b: int| 0 <= a < rest.len() && 0 <= b < rest.len() && a != b implies rest[a] != rest[b] by {
                assert(rest[a] == q[a]);
                assert(rest[b] == q[b]);
            }
        }
        lemma_queue_qty_le_keys(pool, rest, keys.remove(last));
        assert(keys.contains(q[q.len() - 1]));
        lemma_keys_qty_remove(pool, keys, last);
    }
}

/// Queue sums only depend on the quantities of the queued orders.
pub proof fn lemma_queue_qty_congruent<K, L1, L2>(
    p1: Map<K, RestingOrder<L1>>,
    p2: Map<K, RestingOrder<L2>>,
    q: Seq<K>,
)
    requires
        forall|k: int| 0 <= k < q.len() ==> open_qty(#[trigger] p1[q[k]]) == open_qty(p2[q[k]]),
    ensures
        queue_qty(p1, q) == queue_qty(p2, q),
    decreases q.len(),
{
    if q.len() > 0 {
        assert forall|k: int| 0 <= k < q.drop_last().len() implies open_qty(
            #[trigger] p1[q.drop_last()[k]],
        ) == open_qty(p2[q.drop_last()[k]]) by {
            assert(q.drop_last()[k] == q[k]);
        }
        lemma_queue_qty_congruent(p1, p2, q.drop_last());
        assert(open_qty(p1[q[q.len() - 1]]) == open_qty(p2[q[q.len() - 1]]));
    }
}

/// Sum of a queue with one more order at the back.
pub proof fn lemma_queue_qty_push<K, L>(pool: Map<K, RestingOrder<L>>, q: Seq<K>, i: K)
    ensures
        queue_qty(pool, q.push(i)) == queue_qty(pool, q) + open_qty(pool[i]),
{
    assert(q.push(i).drop_last() =~= q);
}

/// Sum of a queue with one more order at the front.
pub proof fn lemma_queue_qty_prepend<K, L>(pool: Map<K, RestingOrder<L>>, q: Seq<K>, i: K)
    ensures
        queue_qty(pool, seq![i] + q) == queue_qty(pool, q) + open_qty(pool[i]),
    decreases q.len(),
{
    if q.len() == 0 {
        assert((seq![i] + q).drop_last() =~= q);
    } else {
        lemma_queue_qty_prepend(pool, q.drop_last(), i);
        assert((seq![i] + q).drop_last() =~= seq![i] + q.drop_last());
        assert((seq![i] + q).last() == q.last());
    }
}

/// Sum of two queues one after the other.
pub proof fn lemma_queue_qty_append<K, L>(pool: Map<K, RestingOrder<L>>, a: Seq<K>, b: Seq<K>)
    ensures
        queue_qty(pool, a + b) == queue_qty(pool, a) + queue_qty(pool, b),
    decreases b.len(),
{
    if b.len() == 0 {
        assert(a + b =~= a);
    } else {
        lemma_queue_qty_append(pool, a, b.drop_last());
        assert((a + b).drop_last() =~= a + b.drop_last());
        assert((a + b).last() == b.last());
    }
}

/// Consistency of a book survives a change of the pool that keeps every
/// queued order, and of the id index that keeps it pointing at orders that
/// carry the id.
pub proof fn lemma_book_wf_frame<OI, LI>(
    pool1: Map<OI, RestingOrder<LI>>,
    pool2: Map<OI, RestingOrder<LI>>,
    levels: Map<LI, LevelModel<OI>>,
    ids1: Map<u64, OI>,
    ids2: Map<u64, OI>,
)
    requires
        book_wf(pool1, levels, ids1),
        pool2.dom().finite(),
        forall|i: OI| is_queued(levels, i) ==> pool2.contains_key(i) && pool2[i] == pool1[i],
        forall|id: u64|
            #[trigger] ids2.contains_key(id) ==> pool2.contains_key(ids2[id]) && pool2[ids2[id]].data.order_id.0
                == id,
    ensures
        book_wf(pool2, levels, ids2),
{
    assert forall|l: LI, k: int|
        #![trigger levels[l].queue[k]]
        levels.contains_key(l) && 0 <= k < levels[l].queue.len() implies pool2.contains_key(
        levels[l].queue[k],
    ) && pool2[levels[l].queue[k]].level_idx == l by {
        assert(is_queued(levels, levels[l].queue[k]));
    }
    assert forall|l: LI| #[trigger] levels.contains_key(l) implies levels[l].total == queue_qty(
        pool2,
        levels[l].queue,
    ) by {
        let q = levels[l].queue;
        assert forall|k: int| 0 <= k < q.len() implies open_qty(#[trigger] pool2[q[k]]) == open_qty(
            pool1[q[k]],
        ) by {
            assert(is_queued(levels, q[k]));
        }
        lemma_queue_qty_congruent(pool2, pool1, q);
    }
}

/// Sum of a queue without the element at position `k`.
pub proof fn lemma_queue_qty_remove<K, L>(pool: Map<K, RestingOrder<L>>, q: Seq<K>, k: int)
    requires
        0 <= k < q.len(),
    ensures
        queue_qty(pool, q.remove(k)) == queue_qty(pool, q) - open_qty(pool[q[k]]),
    decreases q.len(),
{
    if k == q.len() - 1 {
        assert(q.remove(k) =~= q.drop_last());
    } else {
        lemma_queue_qty_remove(pool, q.drop_last(), k);
        assert(q.remove(k).drop_last() =~= q.drop_last().remove(k));
        assert(q.remove(k).last() == q.last());
    }
}

/// Side of a level.
pub open spec fn level_side<OI>(lm: LevelModel<OI>) -> Side {
    if lm.is_bid {
        Side::buy
    } else {
        Side::sell
    }
}

/// Whether `m` shows the level `lm` of a book with orders `pool`: its
/// price, its side, and the data of its queued orders in time priority.
pub open spec fn shows_level<OI, LI>(m: PriceLevelModel, pool: Map<OI, RestingOrder<LI>>, lm: LevelModel<OI>) -> bool {
    &&& m.price.0 == lm.price
    &&& m.side == level_side(lm)
    &&& m.orders@ == lm.queue.map_values(|i: OI| pool[i].data)
}

/// Whether a backend of type `B` never refuses to store an order.
pub open spec fn takes_every_order<B: OrderBookBackend>() -> bool {
    forall|b: B, ord: RestingOrder<B::LevelIdx>| #[trigger] b.insert_failure(ord) is None
}

/// Whether `m` shows some level of a book.
pub open spec fn shows_some_level<OI, LI>(
    m: PriceLevelModel,
    pool: Map<OI, RestingOrder<LI>>,
    levels: Map<LI, LevelModel<OI>>,
) -> bool {
    exists|l: LI| #[trigger] levels.contains_key(l) && shows_level(m, pool, levels[l])
}

/// Whether some entry of `out` shows the level `lm`.
pub open spec fn level_shown<OI, LI>(out: Seq<PriceLevelModel>, pool: Map<OI, RestingOrder<LI>>, lm: LevelModel<OI>) -> bool {
    exists|j: int| 0 <= j < out.len() && shows_level(#[trigger] out[j], pool, lm)
}

/// Whether `out` shows the levels of a book and nothing else.
pub open spec fn shows_book<OI, LI>(
    out: Seq<PriceLevelModel>,
    pool: Map<OI, RestingOrder<LI>>,
    levels: Map<LI, LevelModel<OI>>,
) -> bool {
    &&& forall|j: int| 0 <= j < out.len() ==> shows_some_level(#[trigger] out[j], pool, levels)
    &&& forall|l: LI| #[trigger] levels.contains_key(l) ==> level_shown(out, pool, levels[l])
}

/// Storage interface of an order book.
///
/// Every backend exposes its state as an abstract book (a pool of orders,
/// price levels with FIFO queues, and an id index) and states each
/// operation over it, so that matching can be written once for all of them.
pub trait OrderBookBackend: Sized {
    type OrderIdx: Copy;
    type LevelIdx: Copy;

    /// Internal consistency of the backend.
    spec fn wf(&self) -> bool;

    /// Orders held by the backend, by index.
    spec fn pool(&self) -> Map<Self::OrderIdx, RestingOrder<Self::LevelIdx>>;

    /// Price levels, by index.
    spec fn levels(&self) -> Map<Self::LevelIdx, LevelModel<Self::OrderIdx>>;

    /// Index of the order that carries each known order id.
    spec fn ids(&self) -> Map<u64, Self::OrderIdx>;

    /// Whether the backend accepts orders at `price`.
    spec fn price_valid(&self, price: u64) -> bool;

    /// Price of the level that holds orders at `price`.
    spec fn level_price(&self, price: u64) -> u64;

    /// Why the backend would refuse to store `order`, if it would.
    spec fn insert_failure(&self, order: RestingOrder<Self::LevelIdx>) -> Option<CommandFailure>;

    /// Total open quantity at or beyond `limit` on `side`, as reported by
    /// [`Self::get_total_depth`].
    spec fn depth(&self, side: Side, limit: u64) -> int;

    /// Whether [`Self::depth`] of `side` out to `limit` is the sum of the
    /// aggregates of the levels of that side out to the limit (see
    /// [`crossing_total`]).
    spec fn depth_sums_levels(&self, side: Side, limit: u64) -> bool;

    /// Where the backend says so, its depth sums its levels.
    proof fn lemma_depth_sums_levels(&self, side: Side, limit: u64)
        requires
            self.wf(),
            self.depth_sums_levels(side, limit),
        ensures
            self.depth(side, limit) == crossing_total(self.levels(), side, limit),
    ;

    /// A consistent backend describes a consistent abstract book.
    proof fn lemma_wf(&self)
        requires
            self.wf(),
        ensures
            book_wf(self.pool(), self.levels(), self.ids()),
    ;

    /// The price of every level is accepted and is the price of its own level.
    proof fn lemma_level_price(&self, l: Self::LevelIdx)
        requires
            self.wf(),
            self.levels().contains_key(l),
        ensures
            self.price_valid(self.levels()[l].price),
            self.level_price(self.levels()[l].price) == self.levels()[l].price,
    ;

    /// Whether a backend refuses an order depends on the order's id alone.
    proof fn lemma_insert_failure_by_id(&self, a: RestingOrder<Self::LevelIdx>, b: RestingOrder<Self::LevelIdx>)
        requires
            a.data.order_id == b.data.order_id,
        ensures
            self.insert_failure(a) == self.insert_failure(b),
    ;

    /// A backend refuses an order only for a bad id or a full pool.
    proof fn lemma_insert_failure_kinds(&self, order: RestingOrder<Self::LevelIdx>)
        ensures
            self.insert_failure(order) matches Some(e) ==> e == CommandFailure::InvalidOrderId || e
                == CommandFailure::DuplicateOrderId || e == CommandFailure::CapacityExceeded,
    ;

    /// Stores an order and returns its index, or the reason it cannot be
    /// stored (and then changes nothing).
    fn insert_order(&mut self, order: RestingOrder<Self::LevelIdx>) -> (r: Result<
        Self::OrderIdx,
        CommandFailure,
    >)
        requires
            old(self).wf(),
        ensures
            final(self).wf(),
            match r {
                Ok(i) => {
                    &&& old(self).insert_failure(order) is None
                    &&& !old(self).pool().contains_key(i)
                    &&& final(self).pool() == old(self).pool().insert(i, order)
                    &&& final(self).levels() == old(self).levels()
                    &&& final(self).ids() == old(self).ids().insert(order.data.order_id.0, i)
                },
                Err(e) => {
                    &&& old(self).insert_failure(order) == Some(e)
                    &&& *final(self) == *old(self)
                    &&& final(self).pool() == old(self).pool()
                    &&& final(self).levels() == old(self).levels()
                    &&& final(self).ids() == old(self).ids()
                },
            },
            forall|p: u64| final(self).price_valid(p) == old(self).price_valid(p),
            forall|p: u64| final(self).level_price(p) == old(self).level_price(p),
    ;

    /// Removes a stored order that no level queues, and returns it; an
    /// order with the same id can then be stored again.
    fn remove_order(&mut self, order_idx: Self::OrderIdx) -> (r: Option<
        RestingOrder<Self::LevelIdx>,
    >)
        requires
            old(self).wf(),
            old(self).pool().contains_key(order_idx),
            !is_queued(old(self).levels(), order_idx),
        ensures
            final(self).wf(),
            r == Some(old(self).pool()[order_idx]),
            final(self).pool() == old(self).pool().remove(order_idx),
            final(self).levels() == old(self).levels(),
            final(self).ids() == old(self).ids().remove(
                old(self).pool()[order_idx].data.order_id.0,
            ),
            forall|o2: RestingOrder<Self::LevelIdx>|
                o2.data.order_id == old(self).pool()[order_idx].data.order_id ==> #[trigger] final(self).insert_failure(o2) is None,
            forall|p: u64| final(self).price_valid(p) == old(self).price_valid(p),
            forall|p: u64| final(self).level_price(p) == old(self).level_price(p),
    ;

    /// Read access to a stored order.
    fn get_order(&self, order_idx: Self::OrderIdx) -> (r: Option<&RestingOrder<Self::LevelIdx>>)
        requires
            self.wf(),
            self.pool().contains_key(order_idx),
        ensures
            r == Some(&self.pool()[order_idx]),
    ;

    /// Index of the order that carries `order_id`, if any.
    fn get_order_idx_by_id(&self, order_id: OrderId) -> (r: Option<Self::OrderIdx>)
        requires
            self.wf(),
        ensures
            r == (if self.ids().contains_key(order_id.0) {
                Some(self.ids()[order_id.0])
            } else {
                None
            }),
    ;

    /// The level for `price` on `side`, created empty if there is none; which
    /// orders the backend would refuse does not change.
    fn get_or_create_level(&mut self, side: Side, price: Price) -> (r: Self::LevelIdx)
        requires
            old(self).wf(),
            old(self).price_valid(price.0),
            side == Side::buy || side == Side::sell,
        ensures
            final(self).wf(),
            final(self).pool() == old(self).pool(),
            final(self).ids() == old(self).ids(),
            final(self).levels().contains_key(r),
            final(self).levels()[r].price == old(self).level_price(price.0),
            old(self).levels().contains_key(r) ==> final(self).levels() == old(self).levels(),
            !old(self).levels().contains_key(r) ==> final(self).levels() == old(self).levels().insert(
                r,
                LevelModel {
                    price: old(self).level_price(price.0),
                    is_bid: side == Side::buy,
                    total: 0,
                    queue: Seq::empty(),
                },
            ),
            forall|o2: RestingOrder<Self::LevelIdx>| #[trigger] final(self).insert_failure(o2) == old(self).insert_failure(o2),
            forall|p: u64| final(self).price_valid(p) == old(self).price_valid(p),
            forall|p: u64| final(self).level_price(p) == old(self).level_price(p),
    ;

    /// A level with `price`, if there is one.
    fn get_level(&self, price: Price) -> (r: Option<Self::LevelIdx>)
        requires
            self.wf(),
        ensures
            r matches Some(l) ==> self.levels().contains_key(l) && self.levels()[l].price
                == self.level_price(price.0),
            r is None && self.price_valid(price.0) ==> forall|l: Self::LevelIdx| #[trigger]
                self.levels().contains_key(l) ==> self.levels()[l].price != self.level_price(price.0),
    ;

    /// Lowest price among the ask levels.
    fn best_ask_price(&self) -> (r: Option<Price>)
        requires
            self.wf(),
        ensures
            r matches Some(p) ==> exists|l: Self::LevelIdx| #[trigger]
                self.levels().contains_key(l) && !self.levels()[l].is_bid && self.levels()[l].price
                    == p.0,
            r matches Some(p) ==> forall|l: Self::LevelIdx| #[trigger]
                self.levels().contains_key(l) && !self.levels()[l].is_bid ==> p.0
                    <= self.levels()[l].price,
            r is None ==> forall|l: Self::LevelIdx| #[trigger]
                self.levels().contains_key(l) ==> self.levels()[l].is_bid,
    ;

    /// Highest price among the bid levels.
    fn best_bid_price(&self) -> (r: Option<Price>)
        requires
            self.wf(),
        ensures
            r matches Some(p) ==> exists|l: Self::LevelIdx| #[trigger]
                self.levels().contains_key(l) && self.levels()[l].is_bid && self.levels()[l].price
                    == p.0,
            r matches Some(p) ==> forall|l: Self::LevelIdx| #[trigger]
                self.levels().contains_key(l) && self.levels()[l].is_bid ==> self.levels()[l].price
                    <= p.0,
            r is None ==> forall|l: Self::LevelIdx| #[trigger]
                self.levels().contains_key(l) ==> !self.levels()[l].is_bid,
    ;

    /// Queues a stored order at the back of a level (new orders).
    fn push_to_level_back(&mut self, level_idx: Self::LevelIdx, order_idx: Self::OrderIdx)
        requires
            old(self).wf(),
            old(self).levels().contains_key(level_idx),
            old(self).pool().contains_key(order_idx),
            old(self).pool()[order_idx].level_idx == level_idx,
            !is_queued(old(self).levels(), order_idx),
            pool_qty(old(self).pool()) <= u64::MAX,
        ensures
            final(self).wf(),
            final(self).pool() == old(self).pool(),
            final(self).ids() == old(self).ids(),
            final(self).levels() == old(self).levels().insert(
                level_idx,
                LevelModel {
                    queue: old(self).levels()[level_idx].queue.push(order_idx),
                    total: (old(self).levels()[level_idx].total + open_qty(
                        old(self).pool()[order_idx],
                    )) as u64,
                    ..old(self).levels()[level_idx]
                },
            ),
            forall|p: u64| final(self).price_valid(p) == old(self).price_valid(p),
            forall|p: u64| final(self).level_price(p) == old(self).level_price(p),
    ;

    /// Queues a stored order at the front of a level (a maker put back).
    fn push_to_level_front(&mut self, level_idx: Self::LevelIdx, order_idx: Self::OrderIdx)
        requires
            old(self).wf(),
            old(self).levels().contains_key(level_idx),
            old(self).pool().contains_key(order_idx),
            old(self).pool()[order_idx].level_idx == level_idx,
            !is_queued(old(self).levels(), order_idx),
            pool_qty(old(self).pool()) <= u64::MAX,
        ensures
            final(self).wf(),
            final(self).pool() == old(self).pool(),
            final(self).ids() == old(self).ids(),
            final(self).levels() == old(self).levels().insert(
                level_idx,
                LevelModel {
                    queue: seq![order_idx] + old(self).levels()[level_idx].queue,
                    total: (old(self).levels()[level_idx].total + open_qty(
                        old(self).pool()[order_idx],
                    )) as u64,
                    ..old(self).levels()[level_idx]
                },
            ),
            forall|p: u64| final(self).price_valid(p) == old(self).price_valid(p),
            forall|p: u64| final(self).level_price(p) == old(self).level_price(p),
    ;

    /// Takes the order at the front of a level out of its queue.
    fn pop_from_level(&mut self, level_idx: Self::LevelIdx) -> (r: Option<Self::OrderIdx>)
        requires
            old(self).wf(),
            old(self).levels().contains_key(level_idx),
        ensures
            final(self).wf(),
            final(self).pool() == old(self).pool(),
            final(self).ids() == old(self).ids(),
            old(self).levels()[level_idx].queue.len() == 0 ==> r is None && final(self).levels()
                == old(self).levels(),
            old(self).levels()[level_idx].queue.len() > 0 ==> {
                &&& r == Some(old(self).levels()[level_idx].queue[0])
                &&& final(self).levels() == old(self).levels().insert(
                    level_idx,
                    LevelModel {
                        queue: old(self).levels()[level_idx].queue.drop_first(),
                        total: (old(self).levels()[level_idx].total - open_qty(
                            old(self).pool()[old(self).levels()[level_idx].queue[0]],
                        )) as u64,
                        ..old(self).levels()[level_idx]
                    },
                )
            },
            forall|p: u64| final(self).price_valid(p) == old(self).price_valid(p),
            forall|p: u64| final(self).level_price(p) == old(self).level_price(p),
    ;

    /// Takes a queued order out of its level (cancellation, amendment).
    fn remove_from_level(&mut self, level_idx: Self::LevelIdx, order_idx: Self::OrderIdx)
        requires
            old(self).wf(),
            old(self).levels().contains_key(level_idx),
            old(self).levels()[level_idx].queue.contains(order_idx),
        ensures
            final(self).wf(),
            final(self).pool() == old(self).pool(),
            final(self).ids() == old(self).ids(),
            final(self).levels() == old(self).levels().insert(
                level_idx,
                LevelModel {
                    queue: old(self).levels()[level_idx].queue.remove(
                        old(self).levels()[level_idx].queue.index_of(order_idx),
                    ),
                    total: (old(self).levels()[level_idx].total - open_qty(
                        old(self).pool()[order_idx],
                    )) as u64,
                    ..old(self).levels()[level_idx]
                },
            ),
            forall|p: u64| final(self).price_valid(p) == old(self).price_valid(p),
            forall|p: u64| final(self).level_price(p) == old(self).level_price(p),
    ;

    /// Number of orders queued at a level.
    fn level_order_count(&self, level_idx: Self::LevelIdx) -> (r: usize)
        requires
            self.wf(),
            self.levels().contains_key(level_idx),
        ensures
            r == self.levels()[level_idx].queue.len(),
    ;

    /// Drops a level if nothing is queued at it; which orders the backend
    /// would refuse does not change.
    fn remove_empty_level(&mut self, level_idx: Self::LevelIdx)
        requires
            old(self).wf(),
            old(self).levels().contains_key(level_idx),
        ensures
            final(self).wf(),
            final(self).pool() == old(self).pool(),
            final(self).ids() == old(self).ids(),
            final(self).levels() == (if old(self).levels()[level_idx].queue.len() == 0 {
                old(self).levels().remove(level_idx)
            } else {
                old(self).levels()
            }),
            forall|o2: RestingOrder<Self::LevelIdx>| #[trigger] final(self).insert_failure(o2) == old(self).insert_failure(o2),
            forall|p: u64| final(self).price_valid(p) == old(self).price_valid(p),
            forall|p: u64| final(self).level_price(p) == old(self).level_price(p),
    ;

    /// Aggregate open quantity of a level.
    fn level_total_qty(&self, level_idx: Self::LevelIdx) -> (r: u64)
        requires
            self.wf(),
            self.levels().contains_key(level_idx),
        ensures
            r == self.levels()[level_idx].total,
    ;

    /// Open quantity on `side` from the best price out to `price_limit`.
    fn get_total_depth(&self, side: Side, price_limit: Price) -> (r: u64)
        requires
            self.wf(),
            pool_qty(self.pool()) <= u64::MAX,
        ensures
            r == self.depth(side, price_limit.0),
    ;

    /// Sets the open quantity of a queued order, keeps its level's aggregate
    /// in step, and caps the shown iceberg quantity at the new quantity.
    fn modify_order_qty(&mut self, order_idx: Self::OrderIdx, new_qty: Quantity)
        requires
            old(self).wf(),
            old(self).pool().contains_key(order_idx),
            old(self).levels().contains_key(old(self).pool()[order_idx].level_idx),
            old(self).levels()[old(self).pool()[order_idx].level_idx].queue.contains(order_idx),
            pool_qty(old(self).pool()) - open_qty(old(self).pool()[order_idx]) + new_qty.0
                <= u64::MAX,
        ensures
            final(self).wf(),
            final(self).ids() == old(self).ids(),
            ({
                let o = old(self).pool()[order_idx];
                let l = o.level_idx;
                &&& final(self).pool() == old(self).pool().insert(
                    order_idx,
                    RestingOrder {
                        data: OrderData {
                            remaining_qty: new_qty,
                            visible_qty: Quantity(
                                if o.data.visible_qty.0 <= new_qty.0 {
                                    o.data.visible_qty.0
                                } else {
                                    new_qty.0
                                },
                            ),
                            ..o.data
                        },
                        ..o
                    },
                )
                &&& final(self).levels() == old(self).levels().insert(
                    l,
                    LevelModel {
                        total: (old(self).levels()[l].total - o.data.remaining_qty.0
                            + new_qty.0) as u64,
                        ..old(self).levels()[l]
                    },
                )
            }),
            forall|p: u64| final(self).price_valid(p) == old(self).price_valid(p),
            forall|p: u64| final(self).level_price(p) == old(self).level_price(p),
    ;

    /// The levels of the book, each with its price, side and orders.
    fn export_levels(&self) -> (r: Vec<PriceLevelModel>)
        requires
            self.wf(),
        ensures
            shows_book(r@, self.pool(), self.levels()),
    ;

    /// Drops every order and every level.
    fn clear(&mut self)
        requires
            old(self).wf(),
        ensures
            final(self).wf(),
            final(self).pool().dom().is_empty(),
            final(self).levels().dom().is_empty(),
            final(self).ids().dom().is_empty(),
            forall|p: u64| final(self).price_valid(p) == old(self).price_valid(p),
            forall|p: u64| final(self).level_price(p) == old(self).level_price(p),
    ;

    /// Hint that an order is about to be read; it changes nothing.
    fn prefetch_entry(&self, order_idx: Self::OrderIdx);

    /// Whether orders at `price` are accepted.
    fn validate_price(&self, price: Price) -> (r: bool)
        ensures
            r == self.price_valid(price.0),
    ;
}

} // verus!
