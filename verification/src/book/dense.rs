//! Backend for liquid instruments: every price of a fixed range has a slot,
//! orders live in a preallocated pool, each level is an intrusive doubly
//! linked list through that pool, and two bitsets find the best prices.
use vstd::prelude::*;
use super::bitset::L3Bitset;
use super::{
    book_wf, is_queued, lemma_book_wf_frame, lemma_keys_qty_nonneg, lemma_queue_qty_le_keys,
    lemma_queue_qty_prepend, lemma_queue_qty_push, lemma_queue_qty_remove, level_shown, open_qty, pool_qty,
    queue_qty, shows_level, shows_some_level, crosses_level, crossing_keys, crossing_total, lemma_crossing_none,
    lemma_level_sum_remove, level_sum, LevelModel, OrderBookBackend,
};
use crate::orders::{OrderData, RestingOrder};
use crate::outcome::CommandFailure;
use crate::snapshot::PriceLevelModel;
use crate::sbe::side::Side;
use crate::types::{OrderId, Price, Quantity};

verus! {

/// The prices a dense backend covers: `min`, `min + tick`, ..., up to `max`.
#[derive(Clone, Copy, Debug)]
pub struct PriceRange {
    pub min: Price,
    pub max: Price,
    pub tick: Price,
}

/// Links of one pool slot in its level's list; 0 means none.
#[derive(Clone, Copy, Debug)]
pub struct OrderLink {
    pub prev: u32,
    pub next: u32,
    pub level_idx: u32,
    pub _padding: u32,
}

/// Head, tail, length and aggregate quantity of one level's list.
#[derive(Clone, Copy, Debug)]
pub struct LevelData {
    pub head: u32,
    pub tail: u32,
    pub count: u32,
    pub total_qty: u64,
}

impl Default for OrderLink {
    fn default() -> (r: OrderLink)
        ensures
            r.prev == 0 && r.next == 0 && r.level_idx == 0 && r._padding == 0,
    {
        OrderLink { prev: 0, next: 0, level_idx: 0, _padding: 0 }
    }
}

impl Default for LevelData {
    fn default() -> (r: LevelData)
        ensures
            r.head == 0 && r.tail == 0 && r.count == 0 && r.total_qty == 0,
    {
        LevelData { head: 0, tail: 0, count: 0, total_qty: 0 }
    }
}

/// Number of price slots of a range.
pub open spec fn range_depth(c: PriceRange) -> int {
    (c.max.0 - c.min.0) / (c.tick.0 as int) + 1
}

/// A no-duplicate sequence of values from `1..=n` has at most `n` elements.
proof fn lemma_distinct_bounded_len(q: Seq<u32>, n: int)
    requires
        q.no_duplicates(),
        forall|k: int| 0 <= k < q.len() ==> 1 <= #[trigger] q[k] <= n,
    ensures
        q.len() <= if n < 0 { 0 } else { n },
    decreases if n < 0 { 0 } else { n },
{
    if q.len() > 0 {
        if n <= 0 {
            assert(1 <= q[0] <= n);
        } else if q.contains(n as u32) {
            let k = q.index_of(n as u32);
            let r = q.remove(k);
            assert forall|j: int| 0 <= j < r.len() implies 1 <= #[trigger] r[j] <= n - 1 by {
                if j < k {
                    assert(r[j] == q[j]);
                } else {
                    assert(r[j] == q[j + 1]);
                }
            }
            assert(r.no_duplicates()) by {
                assert forall|a: int, b: int| 0 <= a < r.len() && 0 <= b < r.len() && a != b implies r[a] != r[b] by {
                    let qa = if a < k { a } else { a + 1 };
                    let qb = if b < k { b } else { b + 1 };
                    assert(r[a] == q[qa]);
                    assert(r[b] == q[qb]);
                }
            }
            lemma_distinct_bounded_len(r, n - 1);
        } else {
            assert forall|j: int| 0 <= j < q.len() implies 1 <= #[trigger] q[j] <= n - 1 by {
                if q[j] == n {
                    assert(q.contains(n as u32));
                }
            }
            lemma_distinct_bounded_len(q, n - 1);
        }
    }
}

/// Dense order book backend.
pub struct DenseBackend {
    pub config: PriceRange,
    pub depth: usize,
    pub bids_bitset: L3Bitset,
    pub asks_bitset: L3Bitset,
    pub level_array: Vec<Option<LevelData>>,
    pub order_pool: Vec<RestingOrder<u32>>,
    pub order_links: Vec<OrderLink>,
    pub free_list: Vec<u32>,
    pub id_to_index: Vec<u32>,
    /// Abstract state of every present level.
    pub level_models: Ghost<Map<u32, LevelModel<u32>>>,
}

impl DenseBackend {
    /// Number of pool slots that can hold orders.
    pub closed spec fn capacity(&self) -> int {
        self.order_pool@.len() - 1
    }

    /// Whether slot `i` holds a stored order.
    pub closed spec fn live(&self, i: u32) -> bool {
        1 <= i <= self.capacity() && !self.free_list@.contains(i)
    }

    /// Price of level slot `p`.
    pub closed spec fn slot_price(&self, p: int) -> u64 {
        (self.config.min.0 + p * self.config.tick.0) as u64
    }

    /// The links of `q` thread it as a list from `head` to `tail`.
    pub closed spec fn queue_linked(&self, q: Seq<u32>, head: u32, tail: u32) -> bool {
        &&& q.len() == 0 ==> head == 0 && tail == 0
        &&& q.len() > 0 ==> head == q[0] && tail == q[q.len() - 1]
        &&& forall|k: int|
            #![trigger self.order_links@[q[k] as int]]
            0 <= k < q.len() ==> self.order_links@[q[k] as int].prev == (if k == 0 {
                0
            } else {
                q[k - 1]
            }) && self.order_links@[q[k] as int].next == (if k + 1 == q.len() {
                0
            } else {
                q[k + 1]
            })
    }

    /// Concrete state of level slot `p` agrees with its abstract state.
    pub closed spec fn level_ok(&self, p: u32) -> bool {
        let m = self.level_models@;
        &&& (p as int) < self.depth ==> (self.level_array@[p as int] is Some <==> m.contains_key(p))
        &&& (p as int) < self.depth ==> (self.bids_bitset.contains(p as int) <==> (m.contains_key(p)
            && m[p].is_bid))
        &&& (p as int) < self.depth ==> (self.asks_bitset.contains(p as int) <==> (m.contains_key(p)
            && !m[p].is_bid))
        &&& m.contains_key(p) ==> {
            let d = self.level_array@[p as int]->Some_0;
            let q = m[p].queue;
            &&& (p as int) < self.depth
            &&& m[p].price == self.slot_price(p as int)
            &&& m[p].total == d.total_qty
            &&& d.count == q.len()
            &&& self.queue_linked(q, d.head, d.tail)
            &&& forall|k: int| 0 <= k < q.len() ==> #[trigger] self.live(q[k])
        }
    }

    /// Internal consistency of the backend.
    pub closed spec fn dense_wf(&self) -> bool {
        &&& self.config.tick.0 > 0
        &&& self.config.min.0 <= self.config.max.0
        &&& self.depth == range_depth(self.config)
        &&& self.depth + 128 <= u32::MAX
        &&& self.level_array@.len() == self.depth
        &&& self.bids_bitset.wf()
        &&& self.asks_bitset.wf()
        &&& self.bids_bitset.capacity() >= self.depth
        &&& self.asks_bitset.capacity() >= self.depth
        &&& forall|p: int| self.depth <= p ==> !self.bids_bitset.contains(p) && !self.asks_bitset.contains(p)
        &&& 1 <= self.order_pool@.len() < u32::MAX
        &&& self.order_links@.len() == self.order_pool@.len()
        &&& self.id_to_index@.len() == self.order_pool@.len()
        &&& self.free_list@.no_duplicates()
        &&& forall|k: int| 0 <= k < self.free_list@.len() ==> 1 <= #[trigger] self.free_list@[k] <= self.capacity()
        &&& self.level_models@.dom().finite()
        &&& forall|p: u32| #[trigger] self.level_ok(p)
        &&& forall|id: int|
            0 <= id < self.id_to_index@.len() && #[trigger] self.id_to_index@[id] != 0 ==> self.live(
                self.id_to_index@[id],
            ) && self.order_pool@[self.id_to_index@[id] as int].data.order_id.0 == id
        &&& forall|i: u32|
            #[trigger] self.live(i) ==> self.order_pool@[i as int].data.order_id.0 < self.id_to_index@.len()
                && self.id_to_index@[self.order_pool@[i as int].data.order_id.0 as int] == i
        &&& forall|i: u32|
            #[trigger] self.live(i) && !is_queued(self.level_models@, i) ==> self.order_links@[i as int].prev
                == 0 && self.order_links@[i as int].next == 0
        &&& book_wf(self.pool_view(), self.level_models@, self.ids_view())
    }

    /// Stored orders by slot.
    pub closed spec fn pool_view(&self) -> Map<u32, RestingOrder<u32>> {
        Map::new(|i: u32| self.live(i), |i: u32| self.order_pool@[i as int])
    }

    /// Slot of each known order id.
    pub closed spec fn ids_view(&self) -> Map<u64, u32> {
        Map::new(
            |id: u64| (id as int) < self.id_to_index@.len() && self.id_to_index@[id as int] != 0,
            |id: u64| self.id_to_index@[id as int],
        )
    }

    /// An empty backend for the prices of `config`, with `capacity` order slots.
    pub fn new(config: PriceRange, capacity: usize) -> (r: Self)
        requires
            config.tick.0 > 0,
            config.min.0 <= config.max.0,
            range_depth(config) + 128 <= u32::MAX,
            capacity + 1 < u32::MAX,
        ensures
            r.wf(),
            r.config == config,
            r.depth == range_depth(config),
            r.pool() == Map::<u32, RestingOrder<u32>>::empty(),
            r.levels() == Map::<u32, LevelModel<u32>>::empty(),
            r.ids() == Map::<u64, u32>::empty(),
            forall|p: u64| r.price_valid(p) == (config.min.0 <= p <= config.max.0),
            r.capacity() == capacity,
            capacity > 0 ==> !r.is_full(),
    {
        proof {
            assert(range_depth(config) >= 1) by (nonlinear_arith)
                requires
                    config.min.0 <= config.max.0,
                    config.tick.0 > 0,
                    range_depth(config) == (config.max.0 - config.min.0) / (config.tick.0 as int) + 1,
            ;
        }
        let depth = ((config.max.0 - config.min.0) / config.tick.0) as usize + 1;
        let mut free_list: Vec<u32> = Vec::new();
        let cap32 = capacity as u32;
        let mut i: u32 = cap32;
        while i > 0
            invariant
                i <= cap32,
                cap32 == capacity,
                free_list@.len() == cap32 - i,
                forall|k: int| 0 <= k < free_list@.len() ==> #[trigger] free_list@[k] == cap32 - k,
            decreases i,
        {
            free_list.push(i);
            i = i - 1;
        }
        let mut id_to_index: Vec<u32> = Vec::new();
        let mut order_pool: Vec<RestingOrder<u32>> = Vec::new();
        let mut order_links: Vec<OrderLink> = Vec::new();
        let dummy = RestingOrder { data: OrderData::default(), level_idx: 0 };
        let mut n: usize = 0;
        while n <= capacity
            invariant
                n <= capacity + 1,
                capacity + 1 < u32::MAX,
                id_to_index@.len() == n,
                order_pool@.len() == n,
                order_links@.len() == n,
                forall|k: int| 0 <= k < n ==> #[trigger] id_to_index@[k] == 0,
                forall|k: int| 0 <= k < n ==> #[trigger] order_links@[k] == (OrderLink { prev: 0, next: 0, level_idx: 0, _padding: 0 }),
            decreases capacity + 1 - n,
        {
            id_to_index.push(0);
            order_pool.push(dummy);
            order_links.push(OrderLink { prev: 0, next: 0, level_idx: 0, _padding: 0 });
            n = n + 1;
        }
        let mut level_array: Vec<Option<LevelData>> = Vec::new();
        let mut p: usize = 0;
        while p < depth
            invariant
                p <= depth,
                level_array@.len() == p,
                forall|k: int| 0 <= k < p ==> #[trigger] level_array@[k] is None,
            decreases depth - p,
        {
            level_array.push(None);
            p = p + 1;
        }
        let r = DenseBackend {
            config,
            depth,
            bids_bitset: L3Bitset::new(depth),
            asks_bitset: L3Bitset::new(depth),
            level_array,
            order_pool,
            order_links,
            free_list,
            id_to_index,
            level_models: Ghost(Map::empty()),
        };
        proof {
            assert forall|a: int, b: int| 0 <= a < r.free_list@.len() && 0 <= b < r.free_list@.len() && a != b implies r.free_list@[a] != r.free_list@[b] by {
            }
            assert(r.free_list@.no_duplicates());
            assert forall|j: u32| !r.live(j) by {
                if 1 <= j <= r.capacity() {
                    assert(r.free_list@[cap32 - j] == j);
                }
            }
            assert(r.pool_view() =~= Map::<u32, RestingOrder<u32>>::empty());
            assert(r.ids_view() =~= Map::<u64, u32>::empty());
            assert forall|p: u32| #[trigger] r.level_ok(p) by {
            }
            super::lemma_pool_qty_empty::<u32, u32>();
        }
        r
    }

    /// Level slot of `price`, if the price is in range.
    pub fn price_to_idx(&self, price: Price) -> (r: Option<usize>)
        requires
            self.config.tick.0 > 0,
            range_depth(self.config) <= usize::MAX,
        ensures
            r is Some <==> self.config.min.0 <= price.0 <= self.config.max.0,
            r matches Some(i) ==> i == (price.0 - self.config.min.0) / (self.config.tick.0 as int),
            r matches Some(i) ==> i < range_depth(self.config),
    {
        if price.0 < self.config.min.0 || price.0 > self.config.max.0 {
            return None;
        }
        proof {
            assert((price.0 - self.config.min.0) / (self.config.tick.0 as int) <= (self.config.max.0
                - self.config.min.0) / (self.config.tick.0 as int)) by (nonlinear_arith)
                requires
                    price.0 <= self.config.max.0,
                    self.config.min.0 <= price.0,
                    self.config.tick.0 > 0,
            ;
        }
        Some(((price.0 - self.config.min.0) / self.config.tick.0) as usize)
    }

    /// Price of level slot `idx`.
    pub fn idx_to_price(&self, idx: usize) -> (r: Price)
        requires
            self.config.tick.0 > 0,
            self.config.min.0 <= self.config.max.0,
            idx < range_depth(self.config),
        ensures
            r.0 == self.config.min.0 + idx * self.config.tick.0,
    {
        proof {
            lemma_slot_price_in_range(self.config, idx as int);
        }
        Price(self.config.min.0 + (idx as u64 * self.config.tick.0))
    }
}

/// The price of every slot lies in the range, and distinct slots have
/// distinct prices ordered like the slots.
pub proof fn lemma_slot_price_in_range(c: PriceRange, p: int)
    requires
        c.tick.0 > 0,
        c.min.0 <= c.max.0,
        0 <= p < range_depth(c),
    ensures
        c.min.0 <= c.min.0 + p * c.tick.0 <= c.max.0,
        (c.min.0 + p * c.tick.0 - c.min.0) / (c.tick.0 as int) == p,
{
    let t = c.tick.0 as int;
    let w = c.max.0 - c.min.0;
    assert(p * t <= w) by (nonlinear_arith)
        requires
            0 <= p <= w / t,
            t > 0,
            w >= 0,
    ;
    assert(p * t >= 0) by (nonlinear_arith)
        requires
            0 <= p,
            t > 0,
    ;
    assert((p * t) / t == p) by (nonlinear_arith)
        requires
            t > 0,
    ;
}

impl DenseBackend {
    /// Slot of a valid price.
    pub closed spec fn slot_of(&self, price: u64) -> int {
        (price - self.config.min.0) / (self.config.tick.0 as int)
    }

    /// Sum of the aggregates of the present levels in slots `lo..hi`.
    pub closed spec fn range_total(&self, lo: int, hi: int) -> int
        decreases hi - lo,
    {
        if lo >= hi {
            0
        } else {
            self.range_total(lo, hi - 1) + if self.level_models@.contains_key((hi - 1) as u32) {
                self.level_models@[(hi - 1) as u32].total as int
            } else {
                0
            }
        }
    }

    /// Highest slot holding a bid level.
    pub closed spec fn bid_top(&self) -> Option<int> {
        if exists|b: u32| #[trigger] self.level_models@.contains_key(b) && self.level_models@[b].is_bid {
            let b = choose|b: u32|
                #[trigger] self.level_models@.contains_key(b) && self.level_models@[b].is_bid
                    && forall|q: u32|
                    #[trigger] self.level_models@.contains_key(q) && self.level_models@[q].is_bid ==> q <= b;
            Some(b as int)
        } else {
            None
        }
    }

    /// Lowest slot holding an ask level.
    pub closed spec fn ask_bottom(&self) -> Option<int> {
        if exists|b: u32| #[trigger] self.level_models@.contains_key(b) && !self.level_models@[b].is_bid {
            let b = choose|b: u32|
                #[trigger] self.level_models@.contains_key(b) && !self.level_models@[b].is_bid
                    && forall|q: u32|
                    #[trigger] self.level_models@.contains_key(q) && !self.level_models@[q].is_bid ==> b <= q;
            Some(b as int)
        } else {
            None
        }
    }

    /// Open quantity that [`OrderBookBackend::get_total_depth`] reports: the
    /// aggregates of every present level from the best slot of `side` to the
    /// slot of `limit` (to the range end when `limit` is out of range).
    pub closed spec fn dense_depth(&self, side: Side, limit: u64) -> int {
        let valid = self.config.min.0 <= limit <= self.config.max.0;
        match side {
            Side::buy => {
                let li = if valid { self.slot_of(limit) } else { 0 };
                match self.bid_top() {
                    Some(b) => if b >= li { self.range_total(li, b + 1) } else { 0 },
                    None => 0,
                }
            },
            Side::sell => {
                let li = if valid { self.slot_of(limit) } else { self.depth - 1 };
                match self.ask_bottom() {
                    Some(a) => if a <= li { self.range_total(a, li + 1) } else { 0 },
                    None => 0,
                }
            },
            Side::NullVal => 0,
        }
    }

    /// Why [`OrderBookBackend::insert_order`] would refuse an order.
    pub closed spec fn dense_insert_failure(&self, order: RestingOrder<u32>) -> Option<CommandFailure> {
        let id = order.data.order_id.0;
        if id >= self.id_to_index@.len() {
            Some(CommandFailure::InvalidOrderId)
        } else if self.id_to_index@[id as int] != 0 {
            Some(CommandFailure::DuplicateOrderId)
        } else if self.free_list@.len() == 0 {
            Some(CommandFailure::CapacityExceeded)
        } else {
            None
        }
    }
}

impl DenseBackend {
    /// Replacing the queue of one level keeps the backend consistent when
    /// the new queue is threaded by the links, only links of the old queue
    /// and of the one order added or taken out changed, a taken-out order
    /// has cleared links, and the aggregate matches the new queue.
    proof fn lemma_level_replace(o: &Self, n: &Self, l: u32, nq: Seq<u32>, i: u32, adding: bool)
        requires
            o.dense_wf(),
            o.level_models@.contains_key(l),
            n.config == o.config,
            n.depth == o.depth,
            n.bids_bitset == o.bids_bitset,
            n.asks_bitset == o.asks_bitset,
            n.order_pool@ == o.order_pool@,
            n.free_list@ == o.free_list@,
            n.id_to_index@ == o.id_to_index@,
            n.order_links@.len() == o.order_links@.len(),
            n.level_array@.len() == o.level_array@.len(),
            forall|p: int| 0 <= p < n.level_array@.len() && p != l ==> n.level_array@[p] == o.level_array@[p],
            n.level_array@[l as int] is Some,
            n.level_models@ == o.level_models@.insert(
                l,
                LevelModel {
                    queue: nq,
                    total: n.level_array@[l as int]->Some_0.total_qty,
                    ..o.level_models@[l]
                },
            ),
            n.level_array@[l as int]->Some_0.count == nq.len(),
            n.queue_linked(nq, n.level_array@[l as int]->Some_0.head, n.level_array@[l as int]->Some_0.tail),
            nq.no_duplicates(),
            adding ==> forall|x: u32| nq.contains(x) <==> (o.level_models@[l].queue.contains(x) || x == i),
            !adding ==> forall|x: u32| nq.contains(x) <==> (o.level_models@[l].queue.contains(x) && x != i),
            adding ==> o.live(i) && !is_queued(o.level_models@, i) && o.order_pool@[i as int].level_idx == l,
            !adding ==> o.level_models@[l].queue.contains(i) && n.order_links@[i as int].prev == 0
                && n.order_links@[i as int].next == 0,
            forall|x: u32|
                (x as int) < o.order_links@.len() && !(o.level_models@[l].queue.contains(x) || x == i)
                    ==> n.order_links@[x as int] == o.order_links@[x as int],
            n.level_array@[l as int]->Some_0.total_qty == queue_qty(o.pool_view(), nq),
        ensures
            n.dense_wf(),
            n.pool_view() == o.pool_view(),
            n.ids_view() == o.ids_view(),
    {
        let q = o.level_models@[l].queue;
        let m = o.level_models@;
        let nm = n.level_models@;
        assert(n.pool_view() =~= o.pool_view());
        assert(n.ids_view() =~= o.ids_view());
        assert(forall|j: u32| n.live(j) == o.live(j));
        assert(o.level_ok(l));
        // members of other queues are neither in the old queue nor the moved order
        assert forall|p: u32, k: int|
            p != l && m.contains_key(p) && 0 <= k < m[p].queue.len() implies !q.contains(
            #[trigger] m[p].queue[k],
        ) && m[p].queue[k] != i by {
            if q.contains(m[p].queue[k]) {
                let j = q.index_of(m[p].queue[k]);
                assert(m[l].queue[j] == m[p].queue[k]);
            }
            if adding {
                assert(is_queued(m, m[p].queue[k]));
            } else {
                let j = q.index_of(i);
                assert(m[l].queue[j] == i);
            }
        }
        assert forall|p: u32| #[trigger] n.level_ok(p) by {
            assert(o.level_ok(p));
            if p != l && m.contains_key(p) {
                let qp = m[p].queue;
                assert(nm[p] == m[p]);
                assert forall|k: int| 0 <= k < qp.len() implies #[trigger] n.order_links@[qp[k] as int]
                    == o.order_links@[qp[k] as int] by {
                    assert(m[p].queue[k] == qp[k]);
                    assert(o.live(qp[k]));
                }
                assert(n.queue_linked(qp, n.level_array@[p as int]->Some_0.head, n.level_array@[p as int]->Some_0.tail));
            }
            if p == l {
                assert forall|k: int| 0 <= k < nq.len() implies #[trigger] n.live(nq[k]) by {
                    assert(nq.contains(nq[k]));
                    if nq[k] != i || !adding {
                        let j = q.index_of(nq[k]);
                        assert(m[l].queue[j] == nq[k]);
                    }
                }
            }
        }
        assert forall|x: u32| #[trigger] n.live(x) && !is_queued(nm, x) implies n.order_links@[x as int].prev
            == 0 && n.order_links@[x as int].next == 0 by {
            if x == i && !adding {
            } else if q.contains(x) {
                let j = q.index_of(x);
                assert(nq.contains(x));
                let k = nq.index_of(x);
                assert(nm[l].queue[k] == x);
            } else if x == i {
                assert(nq.contains(x));
                let k = nq.index_of(x);
                assert(nm[l].queue[k] == x);
            } else {
                if is_queued(m, x) {
                    let (p, k) = choose|p: u32, k: int|
                        #![trigger m[p].queue[k]]
                        m.contains_key(p) && 0 <= k < m[p].queue.len() && m[p].queue[k] == x;
                    if p == l {
                        assert(q.contains(x));
                    } else {
                        assert(nm[p].queue[k] == x);
                    }
                }
            }
        }
        assert(book_wf(n.pool_view(), nm, n.ids_view())) by {
            let pool = o.pool_view();
            assert forall|p: u32, k: int|
                #![trigger nm[p].queue[k]]
                nm.contains_key(p) && 0 <= k < nm[p].queue.len() implies pool.contains_key(nm[p].queue[k])
                && pool[nm[p].queue[k]].level_idx == p by {
                if p == l {
                    let x = nq[k];
                    assert(nq.contains(x));
                    if x == i && adding {
                    } else {
                        let j = q.index_of(x);
                        assert(m[l].queue[j] == x);
                    }
                } else {
                    assert(m[p].queue[k] == nm[p].queue[k]);
                }
            }
            assert forall|l1: u32, k1: int, l2: u32, k2: int|
                #![trigger nm[l1].queue[k1], nm[l2].queue[k2]]
                nm.contains_key(l1) && nm.contains_key(l2) && 0 <= k1 < nm[l1].queue.len() && 0 <= k2
                    < nm[l2].queue.len() && (l1 != l2 || k1 != k2) implies nm[l1].queue[k1]
                != nm[l2].queue[k2] by {
                if l1 == l && l2 == l {
                } else if l1 == l {
                    assert(m[l2].queue[k2] == nm[l2].queue[k2]);
                    assert(nq.contains(nq[k1]));
                } else if l2 == l {
                    assert(m[l1].queue[k1] == nm[l1].queue[k1]);
                    assert(nq.contains(nq[k2]));
                } else {
                    assert(m[l1].queue[k1] == nm[l1].queue[k1]);
                    assert(m[l2].queue[k2] == nm[l2].queue[k2]);
                }
            }
            assert forall|p: u32| #[trigger] nm.contains_key(p) implies nm[p].total == queue_qty(
                pool,
                nm[p].queue,
            ) by {
                if p != l {
                    assert(nm[p] == m[p]);
                }
            }
        }
    }

    /// Facts needed to queue a stored, unqueued order at a level.
    proof fn lemma_push_bounds(&self, l: u32, i: u32)
        requires
            self.dense_wf(),
            self.level_models@.contains_key(l),
            self.live(i),
            !is_queued(self.level_models@, i),
            self.order_pool@[i as int].level_idx == l,
            pool_qty(self.pool_view()) <= u64::MAX,
        ensures
            ({
                let q = self.level_models@[l].queue;
                let d = self.level_array@[l as int]->Some_0;
                &&& (l as int) < self.depth
                &&& self.level_array@[l as int] is Some
                &&& d.count + 1 < u32::MAX
                &&& d.total_qty + self.order_pool@[i as int].data.remaining_qty.0 <= u64::MAX
                &&& self.order_links@[i as int].prev == 0
                &&& self.order_links@[i as int].next == 0
                &&& !q.contains(i)
                &&& q.push(i).no_duplicates()
                &&& (seq![i] + q).no_duplicates()
                &&& d.tail != 0 ==> q.len() > 0
                &&& d.head != 0 ==> q.len() > 0
                &&& forall|k: int| 0 <= k < q.len() ==> 1 <= #[trigger] q[k] <= self.capacity()
            }),
    {
        let q = self.level_models@[l].queue;
        assert(self.level_ok(l));
        assert(q.no_duplicates()) by {
            assert forall|a: int, b: int| 0 <= a < q.len() && 0 <= b < q.len() && a != b implies q[a] != q[b] by {
                assert(self.level_models@[l].queue[a] == q[a]);
                assert(self.level_models@[l].queue[b] == q[b]);
            }
        }
        assert(!q.contains(i)) by {
            if q.contains(i) {
                let k = q.index_of(i);
                assert(self.level_models@[l].queue[k] == i);
            }
        }
        let pq = q.push(i);
        assert forall|k: int| 0 <= k < pq.len() implies 1 <= #[trigger] pq[k] <= self.capacity() by {
            if k < q.len() {
                assert(self.live(q[k]));
            }
        }
        assert(pq.no_duplicates());
        assert((seq![i] + q).no_duplicates()) by {
            let fq = seq![i] + q;
            assert forall|a: int, b: int| 0 <= a < fq.len() && 0 <= b < fq.len() && a != b implies fq[a] != fq[b] by {
                if a == 0 && b > 0 {
                    assert(fq[b] == q[b - 1]);
                } else if b == 0 && a > 0 {
                    assert(fq[a] == q[a - 1]);
                } else if a > 0 && b > 0 {
                    assert(fq[a] == q[a - 1]);
                    assert(fq[b] == q[b - 1]);
                }
            }
        }
        lemma_distinct_bounded_len(pq, self.capacity());
        let pool = self.pool_view();
        assert forall|k: int| 0 <= k < pq.len() implies pool.dom().contains(#[trigger] pq[k]) by {
            if k < q.len() {
                assert(self.live(q[k]));
            }
        }
        lemma_queue_qty_le_keys(pool, pq, pool.dom());
        lemma_queue_qty_push(pool, q, i);
    }

    /// The aggregate of a level covers the quantity of each queued order.
    proof fn lemma_queue_total(&self, l: u32)
        requires
            self.dense_wf(),
            self.level_models@.contains_key(l),
        ensures
            ({
                let q = self.level_models@[l].queue;
                let d = self.level_array@[l as int]->Some_0;
                &&& (l as int) < self.depth
                &&& self.level_array@[l as int] is Some
                &&& q.no_duplicates()
                &&& forall|k: int| 0 <= k < q.len() ==> #[trigger] self.live(q[k]) && self.order_pool@[q[k] as int].data.remaining_qty.0 <= d.total_qty
                &&& (d.head == 0) == (q.len() == 0)
            }),
    {
        let q = self.level_models@[l].queue;
        let pool = self.pool_view();
        assert(self.level_ok(l));
        assert(q.no_duplicates()) by {
            assert forall|a: int, b: int| 0 <= a < q.len() && 0 <= b < q.len() && a != b implies q[a] != q[b] by {
                assert(self.level_models@[l].queue[a] == q[a]);
                assert(self.level_models@[l].queue[b] == q[b]);
            }
        }
        assert forall|k: int| 0 <= k < q.len() implies #[trigger] self.live(q[k]) && self.order_pool@[q[k] as int].data.remaining_qty.0 <= self.level_array@[l as int]->Some_0.total_qty by {
            lemma_queue_qty_remove(pool, q, k);
            let r = q.remove(k);
            lemma_keys_qty_nonneg(pool, Set::<u32>::empty());
            lemma_queue_nonneg(pool, r);
        }
    }
}

/// Queue sums are never negative.
pub proof fn lemma_queue_nonneg(pool: Map<u32, RestingOrder<u32>>, q: Seq<u32>)
    ensures
        queue_qty(pool, q) >= 0,
    decreases q.len(),
{
    if q.len() > 0 {
        lemma_queue_nonneg(pool, q.drop_last());
    }
}

impl DenseBackend {
    /// Facts needed to change the quantity of a queued order.
    proof fn lemma_modify_bounds(&self, i: u32, new_qty: u64)
        requires
            self.dense_wf(),
            self.pool_view().contains_key(i),
            self.level_models@.contains_key(self.pool_view()[i].level_idx),
            self.level_models@[self.pool_view()[i].level_idx].queue.contains(i),
            pool_qty(self.pool_view()) - open_qty(self.pool_view()[i]) + new_qty <= u64::MAX,
        ensures
            ({
                let l = self.order_pool@[i as int].level_idx;
                let d = self.level_array@[l as int]->Some_0;
                &&& (l as int) < self.depth
                &&& self.level_array@[l as int] is Some
                &&& self.order_pool@[i as int].data.remaining_qty.0 <= d.total_qty
                &&& d.total_qty - self.order_pool@[i as int].data.remaining_qty.0 + new_qty <= u64::MAX
            }),
    {
        let l = self.order_pool@[i as int].level_idx;
        let q = self.level_models@[l].queue;
        self.lemma_queue_total(l);
        let k = q.index_of(i);
        assert(self.live(q[k]));
        let pool = self.pool_view();
        assert forall|j: int| 0 <= j < q.len() implies pool.dom().contains(#[trigger] q[j]) by {
            assert(self.live(q[j]));
        }
        lemma_queue_qty_le_keys(pool, q, pool.dom());
        assert(self.level_ok(l));
    }

    /// Changing the quantity of a queued order and the aggregate of its
    /// level by the same amount keeps the backend consistent.
    proof fn lemma_modify_wf(o: &Self, n: &Self, i: u32)
        requires
            o.dense_wf(),
            o.live(i),
            o.level_models@.contains_key(o.order_pool@[i as int].level_idx),
            o.level_models@[o.order_pool@[i as int].level_idx].queue.contains(i),
            n.config == o.config,
            n.depth == o.depth,
            n.bids_bitset == o.bids_bitset,
            n.asks_bitset == o.asks_bitset,
            n.free_list@ == o.free_list@,
            n.id_to_index@ == o.id_to_index@,
            n.order_links@ == o.order_links@,
            n.order_pool@.len() == o.order_pool@.len(),
            forall|j: int| 0 <= j < o.order_pool@.len() && j != i ==> n.order_pool@[j] == o.order_pool@[j],
            n.order_pool@[i as int].level_idx == o.order_pool@[i as int].level_idx,
            n.order_pool@[i as int].data.order_id == o.order_pool@[i as int].data.order_id,
            ({
                let l = o.order_pool@[i as int].level_idx;
                &&& n.level_array@.len() == o.level_array@.len()
                &&& forall|p: int| 0 <= p < n.level_array@.len() && p != l ==> n.level_array@[p] == o.level_array@[p]
                &&& n.level_array@[l as int] is Some
                &&& n.level_array@[l as int]->Some_0 == LevelData {
                    total_qty: n.level_array@[l as int]->Some_0.total_qty,
                    ..o.level_array@[l as int]->Some_0
                }
                &&& n.level_array@[l as int]->Some_0.total_qty == o.level_array@[l as int]->Some_0.total_qty
                    - o.order_pool@[i as int].data.remaining_qty.0 + n.order_pool@[i as int].data.remaining_qty.0
                &&& n.level_models@ == o.level_models@.insert(
                    l,
                    LevelModel { total: n.level_array@[l as int]->Some_0.total_qty, ..o.level_models@[l] },
                )
            }),
        ensures
            n.dense_wf(),
            n.pool_view() == o.pool_view().insert(i, n.order_pool@[i as int]),
            n.ids_view() == o.ids_view(),
    {
        let l = o.order_pool@[i as int].level_idx;
        let m = o.level_models@;
        let nm = n.level_models@;
        let p1 = o.pool_view();
        let p2 = n.pool_view();
        assert(p2 =~= p1.insert(i, n.order_pool@[i as int]));
        assert(n.ids_view() =~= o.ids_view());
        assert(forall|j: u32| n.live(j) == o.live(j));
        assert forall|p: u32| #[trigger] n.level_ok(p) by {
            assert(o.level_ok(p));
        }
        assert forall|x: u32| #[trigger] n.live(x) && !is_queued(nm, x) implies n.order_links@[x as int].prev
            == 0 && n.order_links@[x as int].next == 0 by {
            if is_queued(m, x) {
                let (p, k) = choose|p: u32, k: int|
                    #![trigger m[p].queue[k]]
                    m.contains_key(p) && 0 <= k < m[p].queue.len() && m[p].queue[k] == x;
                assert(nm[p].queue[k] == x);
            }
        }
        assert forall|id: int| 0 <= id < n.id_to_index@.len() && #[trigger] n.id_to_index@[id] != 0 implies n.live(
            n.id_to_index@[id],
        ) && n.order_pool@[n.id_to_index@[id] as int].data.order_id.0 == id by {
            assert(o.live(o.id_to_index@[id]));
        }
        assert(book_wf(p2, nm, n.ids_view())) by {
            assert forall|a: u32, k: int|
                #![trigger nm[a].queue[k]]
                nm.contains_key(a) && 0 <= k < nm[a].queue.len() implies p2.contains_key(nm[a].queue[k])
                && p2[nm[a].queue[k]].level_idx == a by {
                assert(m[a].queue[k] == nm[a].queue[k]);
            }
            assert forall|l1: u32, k1: int, l2: u32, k2: int|
                #![trigger nm[l1].queue[k1], nm[l2].queue[k2]]
                nm.contains_key(l1) && nm.contains_key(l2) && 0 <= k1 < nm[l1].queue.len() && 0 <= k2
                    < nm[l2].queue.len() && (l1 != l2 || k1 != k2) implies nm[l1].queue[k1]
                != nm[l2].queue[k2] by {
                assert(m[l1].queue[k1] == nm[l1].queue[k1]);
                assert(m[l2].queue[k2] == nm[l2].queue[k2]);
            }
            assert forall|a: u32| #[trigger] nm.contains_key(a) implies nm[a].total == queue_qty(
                p2,
                nm[a].queue,
            ) by {
                let qa = m[a].queue;
                if a == l {
                    assert(o.level_ok(l));
                    let k = qa.index_of(i);
                    assert(qa[k] == i);
                    assert(p2[i] == n.order_pool@[i as int]);
                    lemma_queue_qty_remove(p1, qa, k);
                    lemma_queue_qty_remove(p2, qa, k);
                    let r = qa.remove(k);
                    assert forall|j: int| 0 <= j < r.len() implies open_qty(#[trigger] p2[r[j]]) == open_qty(p1[r[j]]) by {
                        let qj = if j < k { j } else { j + 1 };
                        assert(r[j] == qa[qj]);
                        assert(m[l].queue[qj] != m[l].queue[k]);
                    }
                    super::lemma_queue_qty_congruent(p2, p1, r);
                } else {
                    assert forall|j: int| 0 <= j < qa.len() implies open_qty(#[trigger] p2[qa[j]]) == open_qty(p1[qa[j]]) by {
                        let k = m[l].queue.index_of(i);
                        assert(m[a].queue[j] != m[l].queue[k]);
                    }
                    super::lemma_queue_qty_congruent(p2, p1, qa);
                }
            }
        }
    }

    /// Splitting off the lowest slot of a range sum.
    proof fn lemma_range_total_low(&self, lo: int, hi: int)
        requires
            lo < hi,
        ensures
            self.range_total(lo, hi) == self.range_total(lo + 1, hi) + if self.level_models@.contains_key(lo as u32) {
                self.level_models@[lo as u32].total as int
            } else {
                0
            },
        decreases hi - lo,
    {
        if lo + 1 < hi {
            self.lemma_range_total_low(lo, hi - 1);
        } else {
            assert(self.range_total(lo, hi - 1) == 0);
        }
    }

    /// The queues of the levels in slots `lo..hi`, one after the other.
    closed spec fn range_queue(&self, lo: int, hi: int) -> Seq<u32>
        decreases hi - lo,
    {
        if lo >= hi {
            Seq::empty()
        } else {
            self.range_queue(lo, hi - 1) + if self.level_models@.contains_key((hi - 1) as u32) {
                self.level_models@[(hi - 1) as u32].queue
            } else {
                Seq::empty()
            }
        }
    }

    /// The levels of a slot range together hold distinct stored orders
    /// whose quantities add up to the range sum.
    proof fn lemma_range_queue(&self, lo: int, hi: int)
        requires
            self.dense_wf(),
            0 <= lo,
            hi <= self.depth,
        ensures
            self.range_queue(lo, hi).no_duplicates(),
            forall|k: int| 0 <= k < self.range_queue(lo, hi).len() ==> exists|p: u32, j: int|
                #![trigger self.level_models@[p].queue[j]]
                lo <= p < hi && self.level_models@.contains_key(p) && 0 <= j < self.level_models@[p].queue.len()
                    && self.level_models@[p].queue[j] == #[trigger] self.range_queue(lo, hi)[k],
            queue_qty(self.pool_view(), self.range_queue(lo, hi)) == self.range_total(lo, hi),
        decreases hi - lo,
    {
        let m = self.level_models@;
        if lo < hi {
            self.lemma_range_queue(lo, hi - 1);
            let a = self.range_queue(lo, hi - 1);
            let top = (hi - 1) as u32;
            let b = if m.contains_key(top) { m[top].queue } else { Seq::empty() };
            let c = a + b;
            assert(c == self.range_queue(lo, hi));
            super::lemma_queue_qty_append(self.pool_view(), a, b);
            assert forall|k: int| #![trigger c[k]] 0 <= k < c.len() implies exists|p: u32, j: int|
                #![trigger m[p].queue[j]]
                lo <= p < hi && m.contains_key(p) && 0 <= j < m[p].queue.len() && m[p].queue[j] == c[k] by {
                if k < a.len() {
                    assert(c[k] == a[k]);
                } else {
                    assert(c[k] == b[k - a.len()]);
                    assert(m[top].queue[k - a.len()] == c[k]);
                }
            }
            assert forall|x: int, y: int| 0 <= x < c.len() && 0 <= y < c.len() && x != y implies c[x] != c[y] by {
                if x < a.len() && y < a.len() {
                    assert(c[x] == a[x]);
                    assert(c[y] == a[y]);
                } else if x >= a.len() && y >= a.len() {
                    assert(m[top].queue[x - a.len()] == c[x]);
                    assert(m[top].queue[y - a.len()] == c[y]);
                } else if x < a.len() {
                    let (p, j) = choose|p: u32, j: int|
                        #![trigger m[p].queue[j]]
                        lo <= p < hi - 1 && m.contains_key(p) && 0 <= j < m[p].queue.len() && m[p].queue[j] == a[x];
                    assert(c[x] == a[x]);
                    assert(m[top].queue[y - a.len()] == c[y]);
                } else {
                    let (p, j) = choose|p: u32, j: int|
                        #![trigger m[p].queue[j]]
                        lo <= p < hi - 1 && m.contains_key(p) && 0 <= j < m[p].queue.len() && m[p].queue[j] == a[y];
                    assert(c[y] == a[y]);
                    assert(m[top].queue[x - a.len()] == c[x]);
                }
            }
            if m.contains_key(top) {
                assert(m[top].total == queue_qty(self.pool_view(), m[top].queue));
            }
        }
    }

    /// The sum over any slot range is at most the open quantity of the pool.
    proof fn lemma_range_total_le_pool(&self, lo: int, hi: int)
        requires
            self.dense_wf(),
            0 <= lo,
            hi <= self.depth,
        ensures
            self.range_total(lo, hi) <= pool_qty(self.pool_view()),
    {
        self.lemma_range_queue(lo, hi);
        let q = self.range_queue(lo, hi);
        let pool = self.pool_view();
        assert forall|k: int| 0 <= k < q.len() implies pool.dom().contains(#[trigger] q[k]) by {
            let (p, j) = choose|p: u32, j: int|
                #![trigger self.level_models@[p].queue[j]]
                lo <= p < hi && self.level_models@.contains_key(p) && 0 <= j < self.level_models@[p].queue.len()
                    && self.level_models@[p].queue[j] == q[k];
        }
        lemma_queue_qty_le_keys(pool, q, pool.dom());
    }

    /// The slot that the bid bitset reports as highest is the top bid level.
    proof fn lemma_bid_top(&self, b: int)
        requires
            self.dense_wf(),
            self.bids_bitset.contains(b),
            forall|j: int| self.bids_bitset.contains(j) ==> j <= b,
        ensures
            self.bid_top() == Some(b),
            0 <= b < self.depth,
    {
        self.bids_bitset.lemma_contains_bounds(b);
        assert(0 <= b < self.depth);
        assert((b as u32) as int == b);
        assert(self.level_ok(b as u32));
        let m = self.level_models@;
        assert(m.contains_key(b as u32) && m[b as u32].is_bid);
        assert forall|q: u32| #[trigger] m.contains_key(q) && m[q].is_bid implies q <= b by {
            assert(self.level_ok(q));
        }
        let c = choose|b: u32|
            #[trigger] self.level_models@.contains_key(b) && self.level_models@[b].is_bid
                && forall|q: u32|
                #[trigger] self.level_models@.contains_key(q) && self.level_models@[q].is_bid ==> q <= b;
        assert(self.level_ok(c));
        assert(c <= b);
        assert(b as u32 <= c);
    }

    /// With no bid bit set there is no bid level.
    proof fn lemma_no_bid(&self)
        requires
            self.dense_wf(),
            forall|j: int| self.bids_bitset.contains(j) ==> j >= self.depth,
        ensures
            self.bid_top() is None,
    {
        assert forall|b: u32| !(#[trigger] self.level_models@.contains_key(b) && self.level_models@[b].is_bid) by {
            assert(self.level_ok(b));
        }
    }

    /// The slot that the ask bitset reports as lowest is the bottom ask level.
    proof fn lemma_ask_bottom(&self, b: int)
        requires
            self.dense_wf(),
            self.asks_bitset.contains(b),
            b < self.depth,
            forall|j: int| 0 <= j < b ==> !self.asks_bitset.contains(j),
        ensures
            self.ask_bottom() == Some(b),
            0 <= b < self.depth,
    {
        self.asks_bitset.lemma_contains_bounds(b);
        assert(0 <= b);
        assert((b as u32) as int == b);
        assert(self.level_ok(b as u32));
        let m = self.level_models@;
        assert(m.contains_key(b as u32) && !m[b as u32].is_bid);
        assert forall|q: u32| #[trigger] m.contains_key(q) && !m[q].is_bid implies b <= q by {
            assert(self.level_ok(q));
        }
        let c = choose|b: u32|
            #[trigger] self.level_models@.contains_key(b) && !self.level_models@[b].is_bid
                && forall|q: u32|
                #[trigger] self.level_models@.contains_key(q) && !self.level_models@[q].is_bid ==> b <= q;
        assert(self.level_ok(c));
        assert(c <= b);
        assert(b <= c);
    }

    /// Whether every order slot is in use.
    pub closed spec fn is_full(&self) -> bool {
        self.free_list@.len() == 0
    }

    /// What the dense book takes: the prices of its range, each kept at the
    /// level of its slot (the price rounded down to a tick of the range);
    /// it refuses an order whose id is above its capacity, then one whose id
    /// it already holds, then any order when every slot is in use; its depth
    /// of a side out to a limit sums the levels of that side when the limit
    /// is in the range (on a tick, for bids) and every bid level is priced
    /// below every ask level.
    pub proof fn lemma_dense_book(&self)
        requires
            self.wf(),
        ensures
            forall|p: u64| #[trigger] self.price_valid(p) == (self.config.min.0 <= p <= self.config.max.0),
            forall|p: u64|
                self.config.min.0 <= p ==> #[trigger] self.level_price(p) == (self.config.min.0 + (p - self.config.min.0)
                    / (self.config.tick.0 as int) * self.config.tick.0) as u64,
            forall|o: RestingOrder<u32>|
                #[trigger] self.insert_failure(o) == (if o.data.order_id.0 > self.capacity() {
                    Some(CommandFailure::InvalidOrderId)
                } else if self.ids().contains_key(o.data.order_id.0) {
                    Some(CommandFailure::DuplicateOrderId)
                } else if self.is_full() {
                    Some(CommandFailure::CapacityExceeded)
                } else {
                    None
                }),
            forall|side: Side, limit: u64|
                #[trigger] self.depth_sums_levels(side, limit) == (self.config.min.0 <= limit <= self.config.max.0
                    && (side == Side::buy ==> (limit - self.config.min.0) % (self.config.tick.0 as int) == 0)
                    && forall|a: u32, b: u32|
                    #[trigger] self.levels().contains_key(a) && #[trigger] self.levels().contains_key(b)
                        && !self.levels()[a].is_bid && self.levels()[b].is_bid ==> self.levels()[b].price
                        < self.levels()[a].price),
    {
        let m = self.level_models@;
        assert forall|a: u32, b: u32| #[trigger] m.contains_key(a) && #[trigger] m.contains_key(b) implies (b < a
            <==> m[b].price < m[a].price) by {
            assert(self.level_ok(a));
            assert(self.level_ok(b));
            lemma_slot_price_in_range(self.config, a as int);
            lemma_slot_price_in_range(self.config, b as int);
            if b <= a {
                lemma_slot_price_monotone(self.config, b as int, a as int);
            } else {
                lemma_slot_price_monotone(self.config, a as int, b as int);
            }
        }
        let slots_apart = forall|a: u32, b: u32|
            #[trigger] m.contains_key(a) && #[trigger] m.contains_key(b) && !m[a].is_bid && m[b].is_bid ==> b < a;
        let prices_apart = forall|a: u32, b: u32|
            #[trigger] m.contains_key(a) && #[trigger] m.contains_key(b) && !m[a].is_bid && m[b].is_bid ==> m[b].price
                < m[a].price;
        if slots_apart {
            assert forall|a: u32, b: u32| #[trigger] m.contains_key(a) && #[trigger] m.contains_key(b) && !m[a].is_bid
                && m[b].is_bid implies m[b].price < m[a].price by {
                assert(b < a);
            }
        }
        if prices_apart {
            assert forall|a: u32, b: u32| #[trigger] m.contains_key(a) && #[trigger] m.contains_key(b) && !m[a].is_bid
                && m[b].is_bid implies b < a by {
                assert(m[b].price < m[a].price);
            }
        }
        assert(slots_apart == prices_apart);
        assert(self.levels() == m);
    }

    /// Slots holding a level in `lo..hi`.
    pub closed spec fn slot_keys(&self, lo: int, hi: int) -> Set<u32> {
        self.level_models@.dom().filter(|l: u32| lo <= l < hi)
    }

    /// The aggregates of the levels in a slot range add up to its total.
    proof fn lemma_range_total_levels(&self, lo: int, hi: int)
        requires
            self.dense_wf(),
            0 <= lo,
            hi <= self.depth,
        ensures
            self.range_total(lo, hi) == level_sum(self.level_models@, self.slot_keys(lo, hi)),
        decreases hi - lo,
    {
        let m = self.level_models@;
        if lo >= hi {
            assert(self.slot_keys(lo, hi) =~= Set::empty());
        } else {
            self.lemma_range_total_levels(lo, hi - 1);
            let t = (hi - 1) as u32;
            assert(t as int == hi - 1);
            if m.contains_key(t) {
                lemma_level_sum_remove(m, self.slot_keys(lo, hi), t);
                assert(self.slot_keys(lo, hi).remove(t) =~= self.slot_keys(lo, hi - 1));
            } else {
                assert(self.slot_keys(lo, hi) =~= self.slot_keys(lo, hi - 1));
            }
        }
    }

    /// A bid level has a highest bid level above or at it.
    proof fn lemma_top_bid_exists(&self, x: u32)
        requires
            self.dense_wf(),
            self.level_models@.contains_key(x),
            self.level_models@[x].is_bid,
        ensures
            exists|b: u32|
                #[trigger] self.level_models@.contains_key(b) && self.level_models@[b].is_bid && forall|q: u32|
                    #[trigger] self.level_models@.contains_key(q) && self.level_models@[q].is_bid ==> q <= b,
        decreases self.depth - x,
    {
        let m = self.level_models@;
        assert(self.level_ok(x));
        if exists|y: u32| #[trigger] m.contains_key(y) && m[y].is_bid && x < y {
            let y = choose|y: u32| #[trigger] m.contains_key(y) && m[y].is_bid && x < y;
            assert(self.level_ok(y));
            self.lemma_top_bid_exists(y);
        } else {
            assert(m.contains_key(x) && m[x].is_bid && forall|q: u32|
                #[trigger] m.contains_key(q) && m[q].is_bid ==> q <= x);
        }
    }

    /// An ask level has a lowest ask level below or at it.
    proof fn lemma_bottom_ask_exists(&self, x: u32)
        requires
            self.dense_wf(),
            self.level_models@.contains_key(x),
            !self.level_models@[x].is_bid,
        ensures
            exists|b: u32|
                #[trigger] self.level_models@.contains_key(b) && !self.level_models@[b].is_bid && forall|q: u32|
                    #[trigger] self.level_models@.contains_key(q) && !self.level_models@[q].is_bid ==> b <= q,
        decreases x,
    {
        let m = self.level_models@;
        if exists|y: u32| #[trigger] m.contains_key(y) && !m[y].is_bid && y < x {
            let y = choose|y: u32| #[trigger] m.contains_key(y) && !m[y].is_bid && y < x;
            self.lemma_bottom_ask_exists(y);
        } else {
            assert(m.contains_key(x) && !m[x].is_bid && forall|q: u32|
                #[trigger] m.contains_key(q) && !m[q].is_bid ==> x <= q);
        }
    }

    /// How the price of a level compares with a limit in the range: at or
    /// below it exactly for the slots up to the slot of the limit, and, for a
    /// limit on a tick, at or above it exactly from that slot on.
    proof fn lemma_level_vs_limit(&self, l: u32, limit: u64)
        requires
            self.dense_wf(),
            self.level_models@.contains_key(l),
            self.config.min.0 <= limit <= self.config.max.0,
        ensures
            (l as int) <= self.slot_of(limit) <==> self.level_models@[l].price <= limit,
            (limit - self.config.min.0) % (self.config.tick.0 as int) == 0 ==> ((l as int) >= self.slot_of(limit)
                <==> self.level_models@[l].price >= limit),
    {
        let c = self.config;
        let t = c.tick.0 as int;
        let d = limit - c.min.0;
        let li = self.slot_of(limit);
        let x = l as int;
        assert(self.level_ok(l));
        lemma_slot_price_in_range(c, x);
        assert(self.level_models@[l].price == c.min.0 + x * t);
        assert(li * t <= d < li * t + t) by (nonlinear_arith)
            requires
                t > 0,
                d >= 0,
                li == d / t,
        ;
        assert(x <= li ==> x * t <= li * t) by (nonlinear_arith)
            requires
                t > 0,
                x >= 0,
        ;
        assert(x > li ==> x * t >= li * t + t) by (nonlinear_arith)
            requires
                t > 0,
                li >= 0,
        ;
        assert(x >= li ==> x * t >= li * t) by (nonlinear_arith)
            requires
                t > 0,
                li >= 0,
        ;
        assert(x < li ==> x * t + t <= li * t) by (nonlinear_arith)
            requires
                t > 0,
                x >= 0,
        ;
        assert(d % t == 0 ==> d == li * t) by (nonlinear_arith)
            requires
                t > 0,
                d >= 0,
                li == d / t,
        ;
    }

    /// The depth of the bid side, where it is said to sum the bid levels.
    proof fn lemma_bid_depth_levels(&self, limit: u64)
        requires
            self.dense_wf(),
            self.depth_sums_levels(Side::buy, limit),
        ensures
            self.dense_depth(Side::buy, limit) == crossing_total(self.level_models@, Side::buy, limit),
    {
        let m = self.level_models@;
        let li = self.slot_of(limit);
        assert(0 <= li);
        match self.bid_top() {
            Some(b) => {
                let x = choose|x: u32| #[trigger] m.contains_key(x) && m[x].is_bid;
                self.lemma_top_bid_exists(x);
                let bb = choose|bb: u32|
                    #[trigger] m.contains_key(bb) && m[bb].is_bid && forall|q: u32|
                        #[trigger] m.contains_key(q) && m[q].is_bid ==> q <= bb;
                assert(b == bb as int);
                assert(self.level_ok(bb));
                if b >= li {
                    self.lemma_range_total_levels(li, b + 1);
                    assert forall|l: u32| #[trigger] m.contains_key(l) implies (self.slot_keys(li, b + 1).contains(l)
                        <==> crosses_level(m[l], Side::buy, limit)) by {
                        self.lemma_level_vs_limit(l, limit);
                        if !m[l].is_bid && li <= l <= b {
                            assert(m.contains_key(bb) && m[bb].is_bid);
                        }
                    }
                    assert(self.slot_keys(li, b + 1) =~= crossing_keys(m, Side::buy, limit));
                } else {
                    assert forall|l: u32| #[trigger] m.contains_key(l) implies !crosses_level(m[l], Side::buy, limit) by {
                        self.lemma_level_vs_limit(l, limit);
                    }
                    lemma_crossing_none(m, Side::buy, limit);
                }
            },
            None => {
                lemma_crossing_none(m, Side::buy, limit);
            },
        }
    }

    /// The depth of the ask side, where it is said to sum the ask levels.
    proof fn lemma_ask_depth_levels(&self, limit: u64)
        requires
            self.dense_wf(),
            self.depth_sums_levels(Side::sell, limit),
        ensures
            self.dense_depth(Side::sell, limit) == crossing_total(self.level_models@, Side::sell, limit),
    {
        let m = self.level_models@;
        let c = self.config;
        let li = self.slot_of(limit);
        assert(0 <= li < self.depth) by {
            assert(li <= (c.max.0 - c.min.0) / (c.tick.0 as int)) by (nonlinear_arith)
                requires
                    c.tick.0 > 0,
                    0 <= limit - c.min.0 <= c.max.0 - c.min.0,
                    li == (limit - c.min.0) / (c.tick.0 as int),
            ;
        }
        match self.ask_bottom() {
            Some(a) => {
                let x = choose|x: u32| #[trigger] m.contains_key(x) && !m[x].is_bid;
                self.lemma_bottom_ask_exists(x);
                let aa = choose|aa: u32|
                    #[trigger] m.contains_key(aa) && !m[aa].is_bid && forall|q: u32|
                        #[trigger] m.contains_key(q) && !m[q].is_bid ==> aa <= q;
                assert(a == aa as int);
                if a <= li {
                    self.lemma_range_total_levels(a, li + 1);
                    assert forall|l: u32| #[trigger] m.contains_key(l) implies (self.slot_keys(a, li + 1).contains(l)
                        <==> crosses_level(m[l], Side::sell, limit)) by {
                        self.lemma_level_vs_limit(l, limit);
                        if m[l].is_bid && a <= l <= li {
                            assert(m.contains_key(aa) && !m[aa].is_bid);
                        }
                    }
                    assert(self.slot_keys(a, li + 1) =~= crossing_keys(m, Side::sell, limit));
                } else {
                    assert forall|l: u32| #[trigger] m.contains_key(l) implies !crosses_level(m[l], Side::sell, limit) by {
                        self.lemma_level_vs_limit(l, limit);
                    }
                    lemma_crossing_none(m, Side::sell, limit);
                }
            },
            None => {
                lemma_crossing_none(m, Side::sell, limit);
            },
        }
    }

    /// Where the depth is said to sum the levels of a side, it does.
    proof fn lemma_dense_depth_levels(&self, side: Side, limit: u64)
        requires
            self.dense_wf(),
            self.depth_sums_levels(side, limit),
        ensures
            self.dense_depth(side, limit) == crossing_total(self.level_models@, side, limit),
    {
        match side {
            Side::buy => self.lemma_bid_depth_levels(limit),
            Side::sell => self.lemma_ask_depth_levels(limit),
            Side::NullVal => lemma_crossing_none(self.level_models@, side, limit),
        }
    }

    /// With no ask bit below the range end there is no ask level.
    proof fn lemma_no_ask(&self)
        requires
            self.dense_wf(),
            forall|j: int| self.asks_bitset.contains(j) ==> j >= self.depth,
        ensures
            self.ask_bottom() is None,
    {
        assert forall|b: u32| !(#[trigger] self.level_models@.contains_key(b) && !self.level_models@[b].is_bid) by {
            assert(self.level_ok(b));
        }
    }
}

impl DenseBackend {
    /// Two backends that agree on the pool, links, free list and id index
    /// agree on every view built from them.
    proof fn lemma_storage_frame(o: &Self, n: &Self)
        requires
            n.order_pool@ == o.order_pool@,
            n.order_links@ == o.order_links@,
            n.free_list@ == o.free_list@,
            n.id_to_index@ == o.id_to_index@,
        ensures
            forall|i: u32| #[trigger] n.live(i) == o.live(i),
            n.pool_view() == o.pool_view(),
            n.ids_view() == o.ids_view(),
            forall|q: Seq<u32>, h: u32, t: u32| #[trigger] n.queue_linked(q, h, t) == o.queue_linked(q, h, t),
    {
        assert(n.pool_view() =~= o.pool_view());
        assert(n.ids_view() =~= o.ids_view());
    }
}

impl DenseBackend {
    /// The data of the orders queued at level `l`, in time priority,
    /// following the level's links from its head.
    fn level_orders(&self, l: u32) -> (r: Vec<OrderData>)
        requires
            self.dense_wf(),
            self.level_models@.contains_key(l),
        ensures
            r@ == self.level_models@[l].queue.map_values(|i: u32| self.pool_view()[i].data),
    {
        proof {
            assert(self.level_ok(l));
        }
        let ghost q = self.level_models@[l].queue;
        let ghost pool = self.pool_view();
        let d = self.level_array[l as usize].unwrap();
        let mut orders: Vec<OrderData> = Vec::new();
        let mut curr = d.head;
        let ghost mut k: int = 0;
        while curr != 0
            invariant
                self.dense_wf(),
                self.level_ok(l),
                q == self.level_models@[l].queue,
                pool == self.pool_view(),
                self.level_models@.contains_key(l),
                self.queue_linked(q, d.head, d.tail),
                forall|j: int| 0 <= j < q.len() ==> #[trigger] self.live(q[j]),
                0 <= k <= q.len(),
                curr == (if k < q.len() {
                    q[k]
                } else {
                    0u32
                }),
                orders@ == q.take(k).map_values(|i: u32| pool[i].data),
            decreases q.len() - k,
        {
            proof {
                assert(self.live(q[k]));
                assert(self.order_links@[q[k] as int].next == (if k + 1 == q.len() {
                    0
                } else {
                    q[k + 1]
                }));
                assert(q.take(k + 1).map_values(|i: u32| pool[i].data) =~= q.take(k).map_values(
                    |i: u32| pool[i].data,
                ).push(pool[q[k]].data));
            }
            orders.push(self.order_pool[curr as usize].data);
            curr = self.order_links[curr as usize].next;
            proof {
                k = k + 1;
            }
        }
        proof {
            if k < q.len() {
                assert(self.live(q[k]));
            }
            assert(q.take(k) =~= q);
        }
        orders
    }
}

impl OrderBookBackend for DenseBackend {
    type OrderIdx = u32;
    type LevelIdx = u32;

    closed spec fn wf(&self) -> bool {
        self.dense_wf()
    }

    closed spec fn pool(&self) -> Map<u32, RestingOrder<u32>> {
        self.pool_view()
    }

    closed spec fn levels(&self) -> Map<u32, LevelModel<u32>> {
        self.level_models@
    }

    closed spec fn ids(&self) -> Map<u64, u32> {
        self.ids_view()
    }

    closed spec fn price_valid(&self, price: u64) -> bool {
        self.config.min.0 <= price <= self.config.max.0
    }

    closed spec fn level_price(&self, price: u64) -> u64 {
        self.slot_price(self.slot_of(price))
    }

    closed spec fn insert_failure(&self, order: RestingOrder<u32>) -> Option<CommandFailure> {
        self.dense_insert_failure(order)
    }

    closed spec fn depth(&self, side: Side, limit: u64) -> int {
        self.dense_depth(side, limit)
    }

    /// The depth runs over whole slots, from the best one of the side to the
    /// slot of the limit rounded down; it sums the levels of the side when
    /// the limit is in the range (on a tick, for bids) and no ask sits at or
    /// below a bid.
    closed spec fn depth_sums_levels(&self, side: Side, limit: u64) -> bool {
        let m = self.level_models@;
        &&& self.config.min.0 <= limit <= self.config.max.0
        &&& side == Side::buy ==> (limit - self.config.min.0) % (self.config.tick.0 as int) == 0
        &&& forall|a: u32, b: u32|
            #[trigger] m.contains_key(a) && #[trigger] m.contains_key(b) && !m[a].is_bid && m[b].is_bid ==> b < a
    }

    proof fn lemma_depth_sums_levels(&self, side: Side, limit: u64) {
        self.lemma_dense_depth_levels(side, limit);
    }

    proof fn lemma_wf(&self) {
    }

    proof fn lemma_insert_failure_kinds(&self, order: RestingOrder<u32>) {
    }

    proof fn lemma_insert_failure_by_id(&self, a: RestingOrder<u32>, b: RestingOrder<u32>) {
    }

    proof fn lemma_level_price(&self, l: u32) {
        assert(self.level_ok(l));
        lemma_slot_price_in_range(self.config, l as int);
    }


    fn insert_order(&mut self, order: RestingOrder<u32>) -> (r: Result<u32, CommandFailure>) {
        let order_id = order.data.order_id.0;
        if order_id >= self.id_to_index.len() as u64 {
            return Err(CommandFailure::InvalidOrderId);
        }
        if self.id_to_index[order_id as usize] != 0 {
            return Err(CommandFailure::DuplicateOrderId);
        }
        if self.free_list.len() == 0 {
            return Err(CommandFailure::CapacityExceeded);
        }
        let ghost o = *old(self);
        let idx = self.free_list.pop().unwrap();
        proof {
            assert(o.free_list@[o.free_list@.len() - 1] == idx);
            assert(1 <= idx <= o.capacity());
            assert forall|j: u32| #[trigger] o.live(j) implies j != idx by {
                assert(o.free_list@.contains(idx));
            }
        }
        self.order_pool.set(idx as usize, order);
        self.order_links.set(
            idx as usize,
            OrderLink { prev: 0, next: 0, level_idx: order.level_idx, _padding: 0 },
        );
        self.id_to_index.set(order_id as usize, idx);
        proof {
            assert forall|j: u32| #[trigger] self.live(j) == (o.live(j) || j == idx) by {
                if j == idx {
                    assert(!self.free_list@.contains(idx)) by {
                        if self.free_list@.contains(idx) {
                            let k = choose|k: int| 0 <= k < self.free_list@.len() && self.free_list@[k] == idx;
                            assert(o.free_list@[k] == o.free_list@[o.free_list@.len() - 1]);
                        }
                    }
                } else {
                    if self.free_list@.contains(j) {
                        assert(o.free_list@.contains(j));
                    }
                    if o.free_list@.contains(j) {
                        let k = choose|k: int| 0 <= k < o.free_list@.len() && o.free_list@[k] == j;
                        assert(self.free_list@[k] == j);
                    }
                }
            }
            assert(self.pool_view() =~= o.pool_view().insert(idx, order));
            assert(self.ids_view() =~= o.ids_view().insert(order_id, idx));
            assert(!is_queued(o.level_models@, idx)) by {
                if is_queued(o.level_models@, idx) {
                    let (l, k) = choose|l: u32, k: int|
                        #![trigger o.level_models@[l].queue[k]]
                        o.level_models@.contains_key(l) && 0 <= k < o.level_models@[l].queue.len()
                            && o.level_models@[l].queue[k] == idx;
                    assert(o.level_ok(l));
                }
            }
            assert forall|p: u32| #[trigger] self.level_ok(p) by {
                assert(o.level_ok(p));
                if o.level_models@.contains_key(p) {
                    let q = o.level_models@[p].queue;
                    let d = o.level_array@[p as int]->Some_0;
                    assert(o.queue_linked(q, d.head, d.tail));
                    assert forall|k: int| 0 <= k < q.len() implies #[trigger] self.order_links@[q[k] as int].prev == o.order_links@[q[k] as int].prev && self.order_links@[q[k] as int].next == o.order_links@[q[k] as int].next by {
                        assert(o.live(q[k]));
                    }
                    assert(self.queue_linked(q, d.head, d.tail));
                }
            }
            assert forall|i: u32| #[trigger] self.live(i) && !is_queued(self.level_models@, i) implies self.order_links@[i as int].prev == 0 && self.order_links@[i as int].next == 0 by {
                if i != idx {
                    assert(o.live(i));
                }
            }
            assert forall|id: int| 0 <= id < self.id_to_index@.len() && #[trigger] self.id_to_index@[id] != 0 implies self.live(self.id_to_index@[id]) && self.order_pool@[self.id_to_index@[id] as int].data.order_id.0 == id by {
                if id != order_id {
                    assert(o.id_to_index@[id] != 0);
                    assert(o.live(o.id_to_index@[id]));
                }
            }
            assert(forall|k: int| 0 <= k < self.free_list@.len() ==> self.free_list@[k] == o.free_list@[k]);
            lemma_book_wf_frame(o.pool_view(), self.pool_view(), self.level_models@, o.ids_view(), self.ids_view());
        }
        Ok(idx)
    }

    fn remove_order(&mut self, order_idx: u32) -> (r: Option<RestingOrder<u32>>)
        ensures
            !final(self).is_full(),
    {
        let ghost o = *old(self);
        if order_idx == 0 {
            return None;
        }
        let order = self.order_pool[order_idx as usize];
        let order_id = order.data.order_id.0;
        if order_id < self.id_to_index.len() as u64 {
            self.id_to_index.set(order_id as usize, 0);
        }
        proof {
            lemma_distinct_bounded_len(o.free_list@, o.capacity());
            assert(!o.free_list@.contains(order_idx));
            assert(o.free_list@.push(order_idx).no_duplicates()) by {
                let f = o.free_list@.push(order_idx);
                assert forall|a: int, b: int| 0 <= a < f.len() && 0 <= b < f.len() && a != b implies f[a] != f[b] by {
                    if a < o.free_list@.len() && b < o.free_list@.len() {
                    } else if a < o.free_list@.len() {
                        assert(o.free_list@.contains(f[a]));
                    } else {
                        assert(o.free_list@.contains(f[b]));
                    }
                }
            }
        }
        self.free_list.push(order_idx);
        proof {
            assert forall|j: u32| #[trigger] self.live(j) == (o.live(j) && j != order_idx) by {
                if self.free_list@.contains(j) && j != order_idx {
                    let k = choose|k: int| 0 <= k < self.free_list@.len() && self.free_list@[k] == j;
                    assert(o.free_list@[k] == j);
                }
                if o.free_list@.contains(j) {
                    let k = choose|k: int| 0 <= k < o.free_list@.len() && o.free_list@[k] == j;
                    assert(self.free_list@[k] == j);
                }
                if j == order_idx {
                    assert(self.free_list@[self.free_list@.len() - 1] == order_idx);
                }
            }
            assert(self.pool_view() =~= o.pool_view().remove(order_idx));
            assert(self.ids_view() =~= o.ids_view().remove(order_id));
            assert forall|p: u32| #[trigger] self.level_ok(p) by {
                assert(o.level_ok(p));
                if o.level_models@.contains_key(p) {
                    let q = o.level_models@[p].queue;
                    assert forall|k: int| 0 <= k < q.len() implies #[trigger] self.live(q[k]) by {
                        assert(is_queued(o.level_models@, q[k]));
                    }
                }
            }
            assert forall|id: int| 0 <= id < self.id_to_index@.len() && #[trigger] self.id_to_index@[id] != 0 implies self.live(self.id_to_index@[id]) && self.order_pool@[self.id_to_index@[id] as int].data.order_id.0 == id by {
                assert(o.id_to_index@[id] != 0);
                assert(o.live(o.id_to_index@[id]));
            }
            assert forall|k: int| 0 <= k < self.free_list@.len() implies 1 <= #[trigger] self.free_list@[k] <= self.capacity() by {
                if k < o.free_list@.len() {
                    assert(self.free_list@[k] == o.free_list@[k]);
                }
            }
            assert forall|i: u32| #[trigger] self.live(i) && !is_queued(self.level_models@, i) implies self.order_links@[i as int].prev == 0 && self.order_links@[i as int].next == 0 by {
                assert(o.live(i));
            }
            lemma_book_wf_frame(o.pool_view(), self.pool_view(), self.level_models@, o.ids_view(), self.ids_view());
            assert(o.live(order_idx));
            assert(self.id_to_index@[order_id as int] == 0);
            assert(self.free_list@.len() > 0);
        }
        Some(order)
    }

    fn get_or_create_level(&mut self, side: Side, price: Price) -> (r: u32) {
        let ghost o = *old(self);
        let idx = match self.price_to_idx(price) {
            Some(i) => i,
            None => {
                proof {
                    assert(false);
                }
                0
            },
        };
        proof {
            assert(o.level_ok(idx as u32));
            lemma_slot_price_in_range(self.config, idx as int);
        }
        if self.level_array[idx].is_none() {
            self.level_array.set(idx, Some(LevelData { head: 0, tail: 0, count: 0, total_qty: 0 }));
            match side {
                Side::buy => self.bids_bitset.set(idx),
                Side::sell => self.asks_bitset.set(idx),
                _ => {},
            }
            proof {
                self.level_models@ = self.level_models@.insert(
                    idx as u32,
                    LevelModel {
                        price: self.slot_price(idx as int),
                        is_bid: side == Side::buy,
                        total: 0,
                        queue: Seq::empty(),
                    },
                );
                Self::lemma_storage_frame(&o, self);
                assert forall|p: u32| #[trigger] self.level_ok(p) by {
                    assert(o.level_ok(p));
                    if p != idx as u32 && o.level_models@.contains_key(p) {
                        assert(o.level_models@[p] == self.level_models@[p]);
                    }
                }
                assert forall|i: u32| #[trigger] self.live(i) && !is_queued(self.level_models@, i) implies self.order_links@[i as int].prev == 0 && self.order_links@[i as int].next == 0 by {
                    if is_queued(o.level_models@, i) {
                        let (l, k) = choose|l: u32, k: int|
                            #![trigger o.level_models@[l].queue[k]]
                            o.level_models@.contains_key(l) && 0 <= k < o.level_models@[l].queue.len()
                                && o.level_models@[l].queue[k] == i;
                        assert(self.level_models@[l].queue[k] == i);
                    }
                }
                assert(book_wf(self.pool_view(), self.level_models@, self.ids_view())) by {
                    let m = self.level_models@;
                    assert forall|l1: u32, k1: int, l2: u32, k2: int|
                        #![trigger m[l1].queue[k1], m[l2].queue[k2]]
                        m.contains_key(l1) && m.contains_key(l2) && 0 <= k1 < m[l1].queue.len()
                            && 0 <= k2 < m[l2].queue.len() && (l1 != l2 || k1 != k2) implies m[l1].queue[k1]
                            != m[l2].queue[k2] by {
                        assert(o.level_models@[l1].queue[k1] == m[l1].queue[k1]);
                        assert(o.level_models@[l2].queue[k2] == m[l2].queue[k2]);
                    }
                }
            }
        }
        idx as u32
    }

    fn remove_empty_level(&mut self, level_idx: u32) {
        let ghost o = *old(self);
        proof {
            assert(o.level_ok(level_idx));
        }
        if let Some(level) = self.level_array[level_idx as usize] {
            if level.count == 0 {
                self.level_array.set(level_idx as usize, None);
                self.bids_bitset.unset(level_idx as usize);
                self.asks_bitset.unset(level_idx as usize);
                proof {
                    self.level_models@ = self.level_models@.remove(level_idx);
                    Self::lemma_storage_frame(&o, self);
                    assert forall|p: u32| #[trigger] self.level_ok(p) by {
                        assert(o.level_ok(p));
                        if p != level_idx && o.level_models@.contains_key(p) {
                            assert(o.level_models@[p] == self.level_models@[p]);
                        }
                    }
                    assert(book_wf(self.pool_view(), self.level_models@, self.ids_view())) by {
                        let m = self.level_models@;
                        assert forall|l: u32, k: int|
                            #![trigger m[l].queue[k]]
                            m.contains_key(l) && 0 <= k < m[l].queue.len() implies self.pool_view().contains_key(
                            m[l].queue[k],
                        ) && self.pool_view()[m[l].queue[k]].level_idx == l by {
                            assert(o.level_models@[l].queue[k] == m[l].queue[k]);
                        }
                        assert forall|l1: u32, k1: int, l2: u32, k2: int|
                            #![trigger m[l1].queue[k1], m[l2].queue[k2]]
                            m.contains_key(l1) && m.contains_key(l2) && 0 <= k1 < m[l1].queue.len()
                                && 0 <= k2 < m[l2].queue.len() && (l1 != l2 || k1 != k2) implies m[l1].queue[k1]
                                != m[l2].queue[k2] by {
                            assert(o.level_models@[l1].queue[k1] == m[l1].queue[k1]);
                            assert(o.level_models@[l2].queue[k2] == m[l2].queue[k2]);
                        }
                        assert forall|l: u32| #![trigger m[l]] m.contains_key(l) implies m[l].total == queue_qty(self.pool_view(), m[l].queue) by {
                            assert(o.level_models@[l] == m[l]);
                        }
                    }
                    assert forall|i: u32| #[trigger] self.live(i) && !is_queued(self.level_models@, i) implies self.order_links@[i as int].prev == 0 && self.order_links@[i as int].next == 0 by {
                        if is_queued(o.level_models@, i) {
                            let (l, k) = choose|l: u32, k: int|
                                #![trigger o.level_models@[l].queue[k]]
                                o.level_models@.contains_key(l) && 0 <= k < o.level_models@[l].queue.len()
                                    && o.level_models@[l].queue[k] == i;
                            assert(l != level_idx);
                            assert(self.level_models@[l].queue[k] == i);
                        }
                    }
                }
            }
        }
    }


    fn push_to_level_back(&mut self, level_idx: u32, order_idx: u32) {
        let ghost o = *old(self);
        proof {
            assert(o.level_ok(level_idx));
            o.lemma_push_bounds(level_idx, order_idx);
        }
        let mut level = match self.level_array[level_idx as usize] {
            Some(l) => l,
            None => {
                return ;
            },
        };
        let order_qty = self.order_pool[order_idx as usize].data.remaining_qty.0;
        let ghost q = o.level_models@[level_idx].queue;
        if level.tail == 0 {
            level.head = order_idx;
            level.tail = order_idx;
        } else {
            let tail = level.tail;
            let mut tl = self.order_links[tail as usize];
            tl.next = order_idx;
            self.order_links.set(tail as usize, tl);
            let mut il = self.order_links[order_idx as usize];
            il.prev = tail;
            il.next = 0;
            self.order_links.set(order_idx as usize, il);
            level.tail = order_idx;
        }
        level.count = level.count + 1;
        level.total_qty = level.total_qty + order_qty;
        self.level_array.set(level_idx as usize, Some(level));
        proof {
            let nq = q.push(order_idx);
            self.level_models@ = self.level_models@.insert(
                level_idx,
                LevelModel { queue: nq, total: level.total_qty, ..o.level_models@[level_idx] },
            );
            assert forall|k: int| 0 <= k < nq.len() implies #[trigger] self.order_links@[nq[k] as int].prev
                == (if k == 0 { 0 } else { nq[k - 1] }) && self.order_links@[nq[k] as int].next == (if k + 1
                == nq.len() { 0 } else { nq[k + 1] }) by {
                if k < q.len() {
                    assert(nq[k] == q[k]);
                    assert(o.order_links@[q[k] as int].prev == (if k == 0 { 0 } else { q[k - 1] }));
                    if k + 1 < q.len() {
                        assert(q[k] != q[q.len() - 1]);
                    }
                }
            }
            assert forall|x: u32| nq.contains(x) <==> (q.contains(x) || x == order_idx) by {
                if nq.contains(x) {
                    let k = nq.index_of(x);
                    if k < q.len() {
                        assert(q[k] == x);
                    }
                }
                if q.contains(x) {
                    let k = q.index_of(x);
                    assert(nq[k] == x);
                }
                if x == order_idx {
                    assert(nq[q.len() as int] == x);
                }
            }
            assert forall|x: u32| (x as int) < o.order_links@.len() && !(q.contains(x) || x == order_idx) implies self.order_links@[x as int] == o.order_links@[x as int] by {
                if q.len() > 0 {
                    assert(q.contains(q[q.len() - 1]));
                }
            }
            lemma_queue_qty_push(o.pool_view(), q, order_idx);
            Self::lemma_level_replace(&o, self, level_idx, nq, order_idx, true);
        }
    }

    fn push_to_level_front(&mut self, level_idx: u32, order_idx: u32) {
        let ghost o = *old(self);
        proof {
            assert(o.level_ok(level_idx));
            o.lemma_push_bounds(level_idx, order_idx);
        }
        let mut level = match self.level_array[level_idx as usize] {
            Some(l) => l,
            None => {
                return ;
            },
        };
        let order_qty = self.order_pool[order_idx as usize].data.remaining_qty.0;
        let ghost q = o.level_models@[level_idx].queue;
        if level.head == 0 {
            level.head = order_idx;
            level.tail = order_idx;
        } else {
            let head = level.head;
            let mut hl = self.order_links[head as usize];
            hl.prev = order_idx;
            self.order_links.set(head as usize, hl);
            let mut il = self.order_links[order_idx as usize];
            il.next = head;
            il.prev = 0;
            self.order_links.set(order_idx as usize, il);
            level.head = order_idx;
        }
        level.count = level.count + 1;
        level.total_qty = level.total_qty + order_qty;
        self.level_array.set(level_idx as usize, Some(level));
        proof {
            let nq = seq![order_idx] + q;
            self.level_models@ = self.level_models@.insert(
                level_idx,
                LevelModel { queue: nq, total: level.total_qty, ..o.level_models@[level_idx] },
            );
            assert forall|k: int| 0 <= k < nq.len() implies #[trigger] self.order_links@[nq[k] as int].prev
                == (if k == 0 { 0 } else { nq[k - 1] }) && self.order_links@[nq[k] as int].next == (if k + 1
                == nq.len() { 0 } else { nq[k + 1] }) by {
                if k > 0 {
                    assert(nq[k] == q[k - 1]);
                    assert(o.order_links@[q[k - 1] as int].next == (if k == q.len() { 0 } else { q[k] }));
                    if k > 1 {
                        assert(q[k - 1] != q[0]);
                    }
                }
            }
            assert forall|x: u32| nq.contains(x) <==> (q.contains(x) || x == order_idx) by {
                if nq.contains(x) {
                    let k = nq.index_of(x);
                    if k > 0 {
                        assert(q[k - 1] == x);
                    }
                }
                if q.contains(x) {
                    let k = q.index_of(x);
                    assert(nq[k + 1] == x);
                }
                if x == order_idx {
                    assert(nq[0] == x);
                }
            }
            assert forall|x: u32| (x as int) < o.order_links@.len() && !(q.contains(x) || x == order_idx) implies self.order_links@[x as int] == o.order_links@[x as int] by {
                if q.len() > 0 {
                    assert(q.contains(q[0]));
                }
            }
            lemma_queue_qty_prepend(o.pool_view(), q, order_idx);
            Self::lemma_level_replace(&o, self, level_idx, nq, order_idx, true);
        }
    }

    fn pop_from_level(&mut self, level_idx: u32) -> (r: Option<u32>) {
        let ghost o = *old(self);
        proof {
            assert(o.level_ok(level_idx));
        }
        let mut level = match self.level_array[level_idx as usize] {
            Some(l) => l,
            None => {
                return None;
            },
        };
        if level.head == 0 {
            return None;
        }
        let ghost q = o.level_models@[level_idx].queue;
        let order_idx = level.head;
        proof {
            o.lemma_queue_total(level_idx);
        }
        let order_qty = self.order_pool[order_idx as usize].data.remaining_qty.0;
        let next_idx = self.order_links[order_idx as usize].next;
        if next_idx == 0 {
            level.head = 0;
            level.tail = 0;
        } else {
            let mut nl = self.order_links[next_idx as usize];
            nl.prev = 0;
            self.order_links.set(next_idx as usize, nl);
            level.head = next_idx;
        }
        let mut ol = self.order_links[order_idx as usize];
        ol.prev = 0;
        ol.next = 0;
        self.order_links.set(order_idx as usize, ol);
        level.count = level.count - 1;
        level.total_qty = level.total_qty.saturating_sub(order_qty);
        self.level_array.set(level_idx as usize, Some(level));
        proof {
            let nq = q.drop_first();
            self.level_models@ = self.level_models@.insert(
                level_idx,
                LevelModel { queue: nq, total: level.total_qty, ..o.level_models@[level_idx] },
            );
            assert forall|k: int| 0 <= k < nq.len() implies #[trigger] self.order_links@[nq[k] as int].prev
                == (if k == 0 { 0 } else { nq[k - 1] }) && self.order_links@[nq[k] as int].next == (if k + 1
                == nq.len() { 0 } else { nq[k + 1] }) by {
                assert(nq[k] == q[k + 1]);
                assert(o.order_links@[q[k + 1] as int].next == (if k + 2 == q.len() { 0 } else { q[k + 2] }));
                assert(q[k + 1] != q[0]);
            }
            assert(nq.no_duplicates()) by {
                assert forall|a: int, b: int| 0 <= a < nq.len() && 0 <= b < nq.len() && a != b implies nq[a] != nq[b] by {
                    assert(nq[a] == q[a + 1]);
                    assert(nq[b] == q[b + 1]);
                }
            }
            assert forall|x: u32| nq.contains(x) <==> (q.contains(x) && x != order_idx) by {
                if nq.contains(x) {
                    let k = nq.index_of(x);
                    assert(q[k + 1] == x);
                    assert(q[k + 1] != q[0]);
                }
                if q.contains(x) && x != order_idx {
                    let k = q.index_of(x);
                    assert(k != 0);
                    assert(nq[k - 1] == x);
                }
            }
            assert(q =~= seq![order_idx] + nq);
            lemma_queue_qty_prepend(o.pool_view(), nq, order_idx);
            assert(q.contains(order_idx)) by {
                assert(q[0] == order_idx);
            }
            Self::lemma_level_replace(&o, self, level_idx, nq, order_idx, false);
        }
        Some(order_idx)
    }

    #[verifier::spinoff_prover]
    #[verifier::rlimit(30)]
    fn remove_from_level(&mut self, level_idx: u32, order_idx: u32) {
        let ghost o = *old(self);
        proof {
            assert(o.level_ok(level_idx));
        }
        let mut level = match self.level_array[level_idx as usize] {
            Some(l) => l,
            None => {
                return ;
            },
        };
        let ghost q = o.level_models@[level_idx].queue;
        let ghost k = q.index_of(order_idx);
        proof {
            o.lemma_queue_total(level_idx);
            assert(self.order_links@[q[k] as int].prev == (if k == 0 { 0 } else { q[k - 1] }));
        }
        let link = self.order_links[order_idx as usize];
        let order_qty = self.order_pool[order_idx as usize].data.remaining_qty.0;
        if link.prev == 0 {
            level.head = link.next;
        } else {
            let mut pl = self.order_links[link.prev as usize];
            pl.next = link.next;
            self.order_links.set(link.prev as usize, pl);
        }
        if link.next == 0 {
            level.tail = link.prev;
        } else {
            let mut nl = self.order_links[link.next as usize];
            nl.prev = link.prev;
            self.order_links.set(link.next as usize, nl);
        }
        let mut ol = self.order_links[order_idx as usize];
        ol.prev = 0;
        ol.next = 0;
        self.order_links.set(order_idx as usize, ol);
        level.count = level.count - 1;
        level.total_qty = level.total_qty.saturating_sub(order_qty);
        self.level_array.set(level_idx as usize, Some(level));
        proof {
            let nq = q.remove(k);
            self.level_models@ = self.level_models@.insert(
                level_idx,
                LevelModel { queue: nq, total: level.total_qty, ..o.level_models@[level_idx] },
            );
            assert forall|j: int| 0 <= j < nq.len() implies #[trigger] self.order_links@[nq[j] as int].prev
                == (if j == 0 { 0 } else { nq[j - 1] }) && self.order_links@[nq[j] as int].next == (if j + 1
                == nq.len() { 0 } else { nq[j + 1] }) by {
                let qj = if j < k { j } else { j + 1 };
                assert(nq[j] == q[qj]);
                assert(o.order_links@[q[qj] as int].next == (if qj + 1 == q.len() { 0 } else { q[qj + 1] }));
                assert(o.order_links@[q[qj] as int].prev == (if qj == 0 { 0 } else { q[qj - 1] }));
                assert(q[qj] != q[k]);
                if qj + 1 < q.len() && qj + 1 != k {
                    assert(q[qj] != q[qj + 1]);
                }
                if qj > 0 {
                    assert(q[qj] != q[qj - 1]);
                }
            }
            assert(nq.no_duplicates()) by {
                assert forall|a: int, b: int| 0 <= a < nq.len() && 0 <= b < nq.len() && a != b implies nq[a] != nq[b] by {
                    let qa = if a < k { a } else { a + 1 };
                    let qb = if b < k { b } else { b + 1 };
                    assert(nq[a] == q[qa]);
                    assert(nq[b] == q[qb]);
                }
            }
            assert forall|x: u32| nq.contains(x) <==> (q.contains(x) && x != order_idx) by {
                if nq.contains(x) {
                    let j = nq.index_of(x);
                    let qj = if j < k { j } else { j + 1 };
                    assert(q[qj] == x);
                    assert(q[qj] != q[k]);
                }
                if q.contains(x) && x != order_idx {
                    let j = q.index_of(x);
                    assert(j != k);
                    if j < k {
                        assert(nq[j] == x);
                    } else {
                        assert(nq[j - 1] == x);
                    }
                }
            }
            lemma_queue_qty_remove(o.pool_view(), q, k);
            Self::lemma_level_replace(&o, self, level_idx, nq, order_idx, false);
        }
    }

    fn modify_order_qty(&mut self, order_idx: u32, new_qty: Quantity) {
        let ghost o = *old(self);
        if order_idx == 0 {
            return ;
        }
        let mut order = self.order_pool[order_idx as usize];
        let level_idx = order.level_idx;
        proof {
            assert(o.level_ok(level_idx));
            o.lemma_modify_bounds(order_idx, new_qty.0);
        }
        let old_qty = order.data.remaining_qty.0;
        order.data.remaining_qty = new_qty;
        order.data.visible_qty = Quantity(
            if order.data.visible_qty.0 <= new_qty.0 {
                order.data.visible_qty.0
            } else {
                new_qty.0
            },
        );
        self.order_pool.set(order_idx as usize, order);
        if let Some(mut level) = self.level_array[level_idx as usize] {
            level.total_qty = level.total_qty - old_qty + new_qty.0;
            self.level_array.set(level_idx as usize, Some(level));
            proof {
                self.level_models@ = self.level_models@.insert(
                    level_idx,
                    LevelModel { total: level.total_qty, ..o.level_models@[level_idx] },
                );
                Self::lemma_modify_wf(&o, self, order_idx);
            }
        }
    }

    #[verifier::spinoff_prover]
    #[verifier::rlimit(30)]
    fn get_total_depth(&self, side: Side, price_limit: Price) -> (r: u64) {
        let mut total: u64 = 0;
        match side {
            Side::buy => {
                let limit_idx = match self.price_to_idx(price_limit) {
                    Some(i) => i,
                    None => 0,
                };
                if let Some(best_idx) = self.bids_bitset.find_last(self.depth) {
                    proof {
                        self.lemma_bid_top(best_idx as int);
                    }
                    if best_idx >= limit_idx {
                        let mut idx = best_idx + 1;
                        while idx > limit_idx
                            invariant
                                self.dense_wf(),
                                pool_qty(self.pool_view()) <= u64::MAX,
                                limit_idx <= idx <= best_idx + 1,
                                best_idx < self.depth,
                                total == self.range_total(idx as int, best_idx + 1),
                            decreases idx,
                        {
                            idx = idx - 1;
                            proof {
                                self.lemma_range_total_low(idx as int, best_idx + 1);
                                self.lemma_range_total_le_pool(idx as int, best_idx + 1);
                                assert(self.level_ok(idx as u32));
                            }
                            if let Some(level) = self.level_array[idx] {
                                total = total + level.total_qty;
                            }
                        }
                    }
                } else {
                    proof {
                        self.lemma_no_bid();
                    }
                }
            },
            Side::sell => {
                let limit_idx = match self.price_to_idx(price_limit) {
                    Some(i) => i,
                    None => self.depth - 1,
                };
                if let Some(best_idx) = self.asks_bitset.find_first(self.depth) {
                    proof {
                        self.lemma_ask_bottom(best_idx as int);
                    }
                    if best_idx <= limit_idx {
                        let mut idx = best_idx;
                        while idx <= limit_idx
                            invariant
                                self.dense_wf(),
                                pool_qty(self.pool_view()) <= u64::MAX,
                                best_idx <= idx <= limit_idx + 1,
                                limit_idx < self.depth,
                                total == self.range_total(best_idx as int, idx as int),
                            decreases limit_idx + 1 - idx,
                        {
                            proof {
                                self.lemma_range_total_le_pool(best_idx as int, idx + 1);
                                assert(self.level_ok(idx as u32));
                            }
                            if let Some(level) = self.level_array[idx] {
                                total = total + level.total_qty;
                            }
                            idx = idx + 1;
                        }
                    }
                } else {
                    proof {
                        self.lemma_no_ask();
                    }
                }
            },
            _ => {},
        }
        total
    }

    fn get_order(&self, order_idx: u32) -> (r: Option<&RestingOrder<u32>>) {
        if order_idx == 0 {
            None
        } else {
            Some(&self.order_pool[order_idx as usize])
        }
    }

    fn get_order_idx_by_id(&self, order_id: OrderId) -> (r: Option<u32>) {
        let id = order_id.0;
        if id < self.id_to_index.len() as u64 {
            let idx = self.id_to_index[id as usize];
            if idx != 0 {
                return Some(idx);
            }
        }
        None
    }

    fn level_order_count(&self, level_idx: u32) -> (r: usize) {
        proof {
            assert(self.level_ok(level_idx));
        }
        match self.level_array[level_idx as usize] {
            Some(l) => l.count as usize,
            None => 0,
        }
    }

    fn level_total_qty(&self, level_idx: u32) -> (r: u64) {
        proof {
            assert(self.level_ok(level_idx));
        }
        match self.level_array[level_idx as usize] {
            Some(l) => l.total_qty,
            None => 0,
        }
    }

    fn export_levels(&self) -> (r: Vec<PriceLevelModel>) {
        let ghost m = self.level_models@;
        let ghost pool = self.pool_view();
        let mut out: Vec<PriceLevelModel> = Vec::new();
        let ghost mut wit: Seq<u32> = Seq::empty();
        let mut idx: usize = 0;
        while idx < self.depth
            invariant
                self.dense_wf(),
                m == self.level_models@,
                pool == self.pool_view(),
                idx <= self.depth,
                wit.len() == out@.len(),
                forall|j: int| 0 <= j < wit.len() ==> m.contains_key(#[trigger] wit[j]) && shows_level(out@[j], pool, m[wit[j]]),
                forall|l: u32| (l as int) < idx && #[trigger] m.contains_key(l) ==> wit.contains(l),
            decreases self.depth - idx,
        {
            proof {
                assert(self.level_ok(idx as u32));
            }
            match self.level_array[idx] {
                Some(_) => {
                    let price = self.idx_to_price(idx);
                    let side = if self.bids_bitset.test(idx) {
                        Side::buy
                    } else {
                        Side::sell
                    };
                    let orders = self.level_orders(idx as u32);
                    let lm = PriceLevelModel { price, side, orders };
                    proof {
                        assert(shows_level(lm, pool, m[idx as u32]));
                    }
                    let ghost before = out@;
                    out.push(lm);
                    proof {
                        let old_wit = wit;
                        wit = wit.push(idx as u32);
                        assert forall|j: int| 0 <= j < wit.len() implies m.contains_key(#[trigger] wit[j]) && shows_level(
                            out@[j],
                            pool,
                            m[wit[j]],
                        ) by {
                            if j < before.len() {
                                assert(out@[j] == before[j]);
                                assert(wit[j] == old_wit[j]);
                            }
                        }
                        assert forall|l: u32| (l as int) < idx + 1 && #[trigger] m.contains_key(l) implies wit.contains(l) by {
                            if l == idx as u32 {
                                assert(wit[wit.len() - 1] == l);
                            } else {
                                let k = old_wit.index_of(l);
                                assert(wit[k] == l);
                            }
                        }
                    }
                },
                None => {},
            }
            idx = idx + 1;
        }
        proof {
            assert forall|j: int| 0 <= j < out@.len() implies shows_some_level(#[trigger] out@[j], pool, m) by {
                assert(m.contains_key(wit[j]));
            }
            assert forall|l: u32| #[trigger] m.contains_key(l) implies level_shown(out@, pool, m[l]) by {
                assert(self.level_ok(l));
                let j = wit.index_of(l);
                assert(shows_level(out@[j], pool, m[wit[j]]));
            }
        }
        out
    }

    fn clear(&mut self) {
        let capacity = self.order_pool.len() - 1;
        *self = DenseBackend::new(self.config, capacity);
        proof {
            assert(self.pool().dom() =~= Set::empty());
            assert(self.levels().dom() =~= Set::empty());
            assert(self.ids().dom() =~= Set::empty());
        }
    }

    fn prefetch_entry(&self, order_idx: u32) {
    }

    fn validate_price(&self, price: Price) -> (r: bool) {
        price.0 >= self.config.min.0 && price.0 <= self.config.max.0
    }

    fn get_level(&self, price: Price) -> (r: Option<u32>) {
        let idx = match self.price_to_idx(price) {
            Some(i) => i,
            None => {
                return None;
            },
        };
        proof {
            assert(self.level_ok(idx as u32));
        }
        if self.level_array[idx].is_some() {
            Some(idx as u32)
        } else {
            proof {
                assert forall|l: u32| #[trigger] self.level_models@.contains_key(l) implies self.level_models@[l].price != self.level_price(price.0) by {
                    assert(self.level_ok(l));
                    lemma_slot_price_in_range(self.config, l as int);
                    lemma_slot_price_in_range(self.config, idx as int);
                    if self.level_models@[l].price == self.level_price(price.0) {
                        assert(self.slot_price(l as int) == self.slot_price(idx as int));
                        assert(l as int == idx);
                    }
                }
            }
            None
        }
    }

    fn best_bid_price(&self) -> (r: Option<Price>) {
        proof {
            assert(forall|j: int| self.bids_bitset.contains(j) ==> j < self.depth);
        }
        match self.bids_bitset.find_last(self.depth) {
            Some(idx) => {
                proof {
                    assert(self.level_ok(idx as u32));
                    lemma_slot_price_in_range(self.config, idx as int);
                    assert(self.level_models@.contains_key(idx as u32));
                    assert(self.level_models@[idx as u32].price == self.slot_price(idx as int));
                    assert forall|l: u32| #[trigger] self.level_models@.contains_key(l) && self.level_models@[l].is_bid implies self.level_models@[l].price <= self.slot_price(idx as int) by {
                        assert(self.level_ok(l));
                        assert(self.bids_bitset.contains(l as int));
                        lemma_slot_price_in_range(self.config, l as int);
                        lemma_slot_price_monotone(self.config, l as int, idx as int);
                    }
                }
                let p = self.idx_to_price(idx);
                proof {
                    assert(self.levels().contains_key(idx as u32) && self.levels()[idx as u32].is_bid
                        && self.levels()[idx as u32].price == p.0);
                }
                Some(p)
            },
            None => {
                proof {
                    assert forall|l: u32| #[trigger] self.level_models@.contains_key(l) implies !self.level_models@[l].is_bid by {
                        assert(self.level_ok(l));
                    }
                }
                None
            },
        }
    }

    fn best_ask_price(&self) -> (r: Option<Price>) {
        match self.asks_bitset.find_first(self.depth) {
            Some(idx) => {
                proof {
                    assert(self.level_ok(idx as u32));
                    lemma_slot_price_in_range(self.config, idx as int);
                    assert(self.level_models@.contains_key(idx as u32));
                    assert(self.level_models@[idx as u32].price == self.slot_price(idx as int));
                    assert forall|l: u32| #[trigger] self.level_models@.contains_key(l) && !self.level_models@[l].is_bid implies self.slot_price(idx as int) <= self.level_models@[l].price by {
                        assert(self.level_ok(l));
                        assert(self.asks_bitset.contains(l as int));
                        lemma_slot_price_in_range(self.config, l as int);
                        lemma_slot_price_monotone(self.config, idx as int, l as int);
                    }
                }
                let p = self.idx_to_price(idx);
                proof {
                    assert(self.levels().contains_key(idx as u32) && !self.levels()[idx as u32].is_bid
                        && self.levels()[idx as u32].price == p.0);
                }
                Some(p)
            },
            None => {
                proof {
                    assert forall|l: u32| #[trigger] self.level_models@.contains_key(l) implies self.level_models@[l].is_bid by {
                        assert(self.level_ok(l));
                    }
                }
                None
            },
        }
    }
}

/// Slot prices grow with the slot.
pub proof fn lemma_slot_price_monotone(c: PriceRange, p: int, q: int)
    requires
        c.tick.0 > 0,
        0 <= p <= q,
    ensures
        p * c.tick.0 <= q * c.tick.0,
        p < q ==> p * c.tick.0 < q * c.tick.0,
{
    assert(p * c.tick.0 <= q * c.tick.0 && (p < q ==> p * c.tick.0 < q * c.tick.0)) by (nonlinear_arith)
        requires
            c.tick.0 > 0,
            0 <= p <= q,
    ;
}

} // verus!
