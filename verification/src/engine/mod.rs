//! The matching engine and the parts it is made of.
pub mod book_laws;
pub mod condition;
pub mod events;
pub mod sbe_listener;

use vstd::prelude::*;
use crate::book::{level_side, crosses_level, crossing_total, level_shown, pool_qty, queue_qty, shows_book, shows_level, takes_every_order, LevelModel, OrderBookBackend};
use crate::snapshot::{PriceLevelModel, SnapshotModel};
use crate::book::sparse::SparseBackend;
use crate::orders::{OrderData, RestingOrder};
use crate::outcome::{CommandFailure, CommandOutcome, CommandReport, OrderStatus};
use crate::sbe::control_message_codec::ControlMessageDecoder;
use crate::sbe::control_op::ControlOp;
use crate::sbe::order_amend_codec::{OrderAmendDecoder, OrderAmendFields};
use crate::sbe::order_cancel_codec::OrderCancelDecoder;
use crate::sbe::order_submit_codec::{OrderSubmitDecoder, OrderSubmitFields};
use crate::sbe::order_submit_gtd_codec::{OrderSubmitGtdDecoder, OrderSubmitGtdFields};
use crate::sbe::order_type::OrderType;
use crate::sbe::time_in_force::TimeInForce;
use crate::sbe::side::Side;
use crate::types::{OrderId, Price, Quantity, SequenceNumber, Timestamp};
use book_laws::{order_ok, parked_qty, resting_ok, resting_ok_but};
use condition::{lists_values, ConditionOrderManager, NULL_NODE};
use events::OrderEventListener;

verus! {

/// The opposite side of a buy or a sell.
pub open spec fn opposite(side: Side) -> Side {
    match side {
        Side::buy => Side::sell,
        Side::sell => Side::buy,
        Side::NullVal => Side::NullVal,
    }
}

/// One execution: a resting order (the maker) traded with an incoming one
/// (the taker) at the maker's price.
#[derive(Debug, Clone, Copy, PartialEq, Eq, Structural)]
pub struct Fill {
    pub maker_order_id: u64,
    pub taker_order_id: u64,
    pub price: u64,
    pub quantity: u64,
}

/// Total quantity of `fills`.
pub open spec fn fill_qty(fills: Seq<Fill>) -> int
    decreases fills.len(),
{
    if fills.len() == 0 {
        0
    } else {
        fill_qty(fills.drop_last()) + fills.last().quantity
    }
}

/// Every fill of `fills` has `taker` as its taker, a positive quantity, and
/// a price within `taker`'s limit when it is a limit order.
pub open spec fn fills_of(fills: Seq<Fill>, taker: OrderData) -> bool {
    forall|j: int|
        0 <= j < fills.len() ==> {
            let f = #[trigger] fills[j];
            &&& f.taker_order_id == taker.order_id.0
            &&& f.quantity > 0
            &&& limited(taker.order_type) && taker.side == Side::buy ==> f.price <= taker.price.0
            &&& limited(taker.order_type) && taker.side == Side::sell ==> f.price >= taker.price.0
        }
}

/// Whether the prices of `fills` never improve for a taker on `side`: a
/// buy pays the same or more on each fill, a sell gets the same or less.
pub open spec fn best_first(fills: Seq<Fill>, side: Side) -> bool {
    &&& side == Side::buy ==> forall|a: int, b: int|
        0 <= a < b < fills.len() ==> #[trigger] fills[a].price <= #[trigger] fills[b].price
    &&& side == Side::sell ==> forall|a: int, b: int|
        0 <= a < b < fills.len() ==> #[trigger] fills[a].price >= #[trigger] fills[b].price
}

/// Whether every fill of `fills` is at a price no worse for a taker on
/// `side` than every level of the opposite side in `levels`.
pub open spec fn no_better_left<OI, LI>(fills: Seq<Fill>, side: Side, levels: Map<LI, LevelModel<OI>>) -> bool {
    &&& side == Side::buy ==> forall|j: int, l: LI|
        0 <= j < fills.len() && #[trigger] levels.contains_key(l) && !levels[l].is_bid ==> #[trigger] fills[j].price
            <= levels[l].price
    &&& side == Side::sell ==> forall|j: int, l: LI|
        0 <= j < fills.len() && #[trigger] levels.contains_key(l) && levels[l].is_bid ==> levels[l].price
            <= #[trigger] fills[j].price
}

/// Every stored order of `pool` still has quantity open.
pub open spec fn all_open<OI, LI>(pool: Map<OI, RestingOrder<LI>>) -> bool {
    forall|i: OI| #[trigger] pool.contains_key(i) ==> pool[i].data.remaining_qty.0 > 0
}

/// Whether an order of type `t` trades only at its price or better: a
/// limit order, and a stop-limit order once it is triggered.
pub open spec fn limited(t: OrderType) -> bool {
    t == OrderType::limit || t == OrderType::stop_limit
}

/// Whether nothing on the side opposite a taker on `side` crosses it: no
/// level at all for a market order, and for a limit order none at `price`
/// or better.
pub open spec fn clear_of<OI, LI>(levels: Map<LI, LevelModel<OI>>, side: Side, order_type: OrderType, price: u64) -> bool {
    &&& side == Side::buy ==> forall|l: LI|
        #[trigger] levels.contains_key(l) && !levels[l].is_bid ==> limited(order_type) && price
            < levels[l].price
    &&& side == Side::sell ==> forall|l: LI|
        #[trigger] levels.contains_key(l) && levels[l].is_bid ==> limited(order_type)
            && levels[l].price < price
}

/// Whether a taker is done with the book: filled, or nothing opposite it
/// crosses any more.
pub open spec fn swept<OI, LI>(levels: Map<LI, LevelModel<OI>>, t: OrderData) -> bool {
    t.remaining_qty.0 == 0 || clear_of(levels, t.side, t.order_type, t.price.0)
}

/// Prices of the opposite side of a book stay beyond `floor` for a taker on
/// `side`: no ask below it for a buy, no bid above it for a sell.
pub open spec fn beyond<OI, LI>(levels: Map<LI, LevelModel<OI>>, side: Side, floor: u64) -> bool {
    &&& side == Side::buy ==> forall|l: LI|
        #[trigger] levels.contains_key(l) && !levels[l].is_bid ==> floor <= levels[l].price
    &&& side == Side::sell ==> forall|l: LI| #[trigger] levels.contains_key(l) && levels[l].is_bid ==> levels[l].price <= floor
}

/// Whether every fill is at `floor` or better for a taker on `side`.
pub open spec fn within(fills: Seq<Fill>, side: Side, floor: u64) -> bool {
    &&& side == Side::buy ==> forall|j: int| 0 <= j < fills.len() ==> #[trigger] fills[j].price <= floor
    &&& side == Side::sell ==> forall|j: int| 0 <= j < fills.len() ==> #[trigger] fills[j].price >= floor
}

/// Every level of `now` was a level of `before`, at the same price and on
/// the same side.
pub open spec fn kept_levels<OI, LI>(now: Map<LI, LevelModel<OI>>, before: Map<LI, LevelModel<OI>>) -> bool {
    forall|l: LI|
        #[trigger] now.contains_key(l) ==> before.contains_key(l) && now[l].price == before[l].price
            && now[l].is_bid == before[l].is_bid
}

/// Whether every bid level of a book is priced below every ask level.
pub open spec fn uncrossed<OI, LI>(levels: Map<LI, LevelModel<OI>>) -> bool {
    forall|a: LI, b: LI|
        #[trigger] levels.contains_key(a) && #[trigger] levels.contains_key(b) && !levels[a].is_bid
            && levels[b].is_bid ==> levels[b].price < levels[a].price
}

/// Every stored order sits at a level priced as the book prices its own
/// price.
pub open spec fn priced_at_level<OI, LI>(
    pool: Map<OI, RestingOrder<LI>>,
    levels: Map<LI, LevelModel<OI>>,
    level_price: spec_fn(u64) -> u64,
) -> bool {
    forall|i: OI| #[trigger]
        pool.contains_key(i) ==> levels[pool[i].level_idx].price == level_price(pool[i].data.price.0)
}

/// Levels kept from an uncrossed book leave it uncrossed.
proof fn lemma_uncrossed_kept<OI, LI>(now: Map<LI, LevelModel<OI>>, before: Map<LI, LevelModel<OI>>)
    requires
        uncrossed(before),
        kept_levels(now, before),
    ensures
        uncrossed(now),
{
    assert forall|a: LI, b: LI|
        #[trigger] now.contains_key(a) && #[trigger] now.contains_key(b) && !now[a].is_bid && now[b].is_bid implies now[b].price
            < now[a].price by {
        assert(before.contains_key(a) && before.contains_key(b));
    }
}

/// An order resting on its side at its own price, where nothing opposite
/// crosses it, leaves an uncrossed book uncrossed.
proof fn lemma_uncrossed_rest<OI, LI>(
    mid: Map<LI, LevelModel<OI>>,
    fin: Map<LI, LevelModel<OI>>,
    side: Side,
    order_type: OrderType,
    price: u64,
)
    requires
        uncrossed(mid),
        clear_of(mid, side, order_type, price),
        side == Side::buy || side == Side::sell,
        forall|l: LI|
            #[trigger] fin.contains_key(l) ==> (mid.contains_key(l) && fin[l].price == mid[l].price && fin[l].is_bid
                == mid[l].is_bid) || (fin[l].is_bid == (side == Side::buy) && fin[l].price == price),
    ensures
        uncrossed(fin),
{
    assert forall|a: LI, b: LI|
        #[trigger] fin.contains_key(a) && #[trigger] fin.contains_key(b) && !fin[a].is_bid && fin[b].is_bid implies fin[b].price
            < fin[a].price by {
        if mid.contains_key(a) && fin[a].price == mid[a].price && fin[a].is_bid == mid[a].is_bid {
            if mid.contains_key(b) && fin[b].price == mid[b].price && fin[b].is_bid == mid[b].is_bid {
            }
        }
    }
}

/// Whether a level of `side` at price `p` would be priced inside every
/// opposite level of `levels`: below every ask for a bid, above every bid
/// for an ask.
pub open spec fn side_clear<OI, LI>(levels: Map<LI, LevelModel<OI>>, side: Side, p: u64) -> bool {
    &&& side == Side::buy ==> forall|l: LI| #[trigger] levels.contains_key(l) && !levels[l].is_bid ==> p < levels[l].price
    &&& side == Side::sell ==> forall|l: LI| #[trigger] levels.contains_key(l) && levels[l].is_bid ==> levels[l].price < p
}

/// Levels kept from an uncrossed book, together with new levels of one side
/// each priced inside every opposite level of it, leave it uncrossed.
proof fn lemma_uncrossed_join<OI, LI>(mid: Map<LI, LevelModel<OI>>, fin: Map<LI, LevelModel<OI>>, side: Side)
    requires
        uncrossed(mid),
        side == Side::buy || side == Side::sell,
        forall|l: LI|
            #[trigger] fin.contains_key(l) ==> (mid.contains_key(l) && fin[l].price == mid[l].price && fin[l].is_bid
                == mid[l].is_bid) || (fin[l].is_bid == (side == Side::buy) && side_clear(mid, side, fin[l].price)),
    ensures
        uncrossed(fin),
{
    assert forall|a: LI, b: LI|
        #[trigger] fin.contains_key(a) && #[trigger] fin.contains_key(b) && !fin[a].is_bid && fin[b].is_bid implies fin[b].price
            < fin[a].price by {
        if mid.contains_key(a) && fin[a].price == mid[a].price && fin[a].is_bid == mid[a].is_bid {
            if mid.contains_key(b) && fin[b].price == mid[b].price && fin[b].is_bid == mid[b].is_bid {
            }
        }
    }
}

/// A level of an uncrossed book is priced inside every opposite level of
/// the book, and of any book whose levels are kept from it.
proof fn lemma_level_side_clear<OI, LI>(before: Map<LI, LevelModel<OI>>, now: Map<LI, LevelModel<OI>>, l0: LI)
    requires
        uncrossed(before),
        kept_levels(now, before),
        before.contains_key(l0),
    ensures
        side_clear(now, level_side(before[l0]), before[l0].price),
{
    assert forall|l: LI| #[trigger] now.contains_key(l) && now[l].is_bid != before[l0].is_bid implies (if before[l0].is_bid {
        before[l0].price < now[l].price
    } else {
        now[l].price < before[l0].price
    }) by {
        assert(before.contains_key(l));
    }
}

/// Every stored order of `pool` carries the id of a stored order of `before`.
pub open spec fn ids_from<OI, LI>(pool: Map<OI, RestingOrder<LI>>, before: Map<OI, RestingOrder<LI>>) -> bool {
    forall|i: OI|
        #[trigger] pool.contains_key(i) ==> exists|i0: OI|
            before.contains_key(i0) && before[i0].data.order_id == pool[i].data.order_id
}

/// Every fill of `fills` is at the price of a level of `levels` on the side
/// opposite a taker on `side`.
pub open spec fn priced_from<OI, LI>(fills: Seq<Fill>, levels: Map<LI, LevelModel<OI>>, side: Side) -> bool {
    forall|j: int|
        0 <= j < fills.len() ==> exists|l: LI|
            levels.contains_key(l) && levels[l].price == #[trigger] fills[j].price && levels[l].is_bid == (side
                == Side::sell)
}

/// Every fill of `fills` has as its taker an order parked in `store`.
pub open spec fn takers_from(fills: Seq<Fill>, store: Map<usize, OrderData>) -> bool {
    forall|j: int|
        0 <= j < fills.len() ==> exists|s: usize|
            store.contains_key(s) && store[s].order_id.0 == #[trigger] fills[j].taker_order_id
}

/// Every fill of `fills` has as its maker an order stored in `before`.
pub open spec fn makers_from<OI, LI>(fills: Seq<Fill>, before: Map<OI, RestingOrder<LI>>) -> bool {
    forall|j: int|
        0 <= j < fills.len() ==> exists|i0: OI|
            before.contains_key(i0) && before[i0].data.order_id.0 == #[trigger] fills[j].maker_order_id
}

/// No stored order of `pool` has expired at time `ts`.
pub open spec fn none_expired<OI, LI>(pool: Map<OI, RestingOrder<LI>>, ts: u64) -> bool {
    forall|i: OI| #[trigger] pool.contains_key(i) ==> !pool[i].data.spec_is_expired(ts)
}

/// Requeueing one level of a book (same price and side, same orders
/// stored) changes the depth out to any limit by the change of the sum of
/// its queue, if the level counts there.
proof fn lemma_cross_requeue<B: OrderBookBackend>(b0: B, b1: B, l: B::LevelIdx, side: Side, lim: u64)
    requires
        b0.wf(),
        b1.wf(),
        b0.levels().contains_key(l),
        b1.pool() == b0.pool(),
        b1.levels() == b0.levels().insert(l, b1.levels()[l]),
        b1.levels()[l].price == b0.levels()[l].price,
        b1.levels()[l].is_bid == b0.levels()[l].is_bid,
    ensures
        crossing_total(b1.levels(), side, lim) == crossing_total(b0.levels(), side, lim) + (if crosses_level(
            b0.levels()[l],
            side,
            lim,
        ) {
            queue_qty(b0.pool(), b1.levels()[l].queue) - queue_qty(b0.pool(), b0.levels()[l].queue)
        } else {
            0
        }),
{
    b0.lemma_wf();
    b1.lemma_wf();
    assert(b1.levels().contains_key(l));
    crate::book::lemma_crossing_update(b0.levels(), l, b1.levels()[l], side, lim);
}

/// Dropping a level with nothing queued leaves the depth out to any limit.
proof fn lemma_cross_drop<B: OrderBookBackend>(b0: B, b1: B, l: B::LevelIdx, side: Side, lim: u64)
    requires
        b0.wf(),
        b0.levels().contains_key(l),
        b0.levels()[l].queue.len() == 0,
        b1.levels() == b0.levels().remove(l),
    ensures
        crossing_total(b1.levels(), side, lim) == crossing_total(b0.levels(), side, lim),
{
    b0.lemma_wf();
    crate::book::lemma_crossing_remove(b0.levels(), l, side, lim);
}

/// A fill at a price no better than every earlier one keeps the order of
/// prices, and becomes the new bound.
/// One more fill of a taker, from a stored maker at the price of a level,
/// keeps every per-fill fact about the taker's fills.
proof fn lemma_push_fill<OI, LI>(
    mine: Seq<Fill>,
    fill: Fill,
    t0: OrderData,
    pool: Map<OI, RestingOrder<LI>>,
    levels: Map<LI, LevelModel<OI>>,
    i0: OI,
    l0: LI,
)
    requires
        fills_of(mine, t0),
        makers_from(mine, pool),
        priced_from(mine, levels, t0.side),
        fill.taker_order_id == t0.order_id.0,
        fill.quantity > 0,
        limited(t0.order_type) && t0.side == Side::buy ==> fill.price <= t0.price.0,
        limited(t0.order_type) && t0.side == Side::sell ==> fill.price >= t0.price.0,
        pool.contains_key(i0),
        pool[i0].data.order_id.0 == fill.maker_order_id,
        levels.contains_key(l0),
        levels[l0].price == fill.price,
        levels[l0].is_bid == (t0.side == Side::sell),
    ensures
        fills_of(mine.push(fill), t0),
        makers_from(mine.push(fill), pool),
        priced_from(mine.push(fill), levels, t0.side),
{
    let m2 = mine.push(fill);
    assert forall|j: int| 0 <= j < mine.len() implies #[trigger] m2[j] == mine[j] by {}
    assert(m2[mine.len() as int] == fill);
}

proof fn lemma_next_fill(fills: Seq<Fill>, fill: Fill, side: Side, floor: u64)
    requires
        best_first(fills, side),
        within(fills, side, floor),
        side == Side::buy ==> floor <= fill.price,
        side == Side::sell ==> fill.price <= floor,
    ensures
        best_first(fills.push(fill), side),
        within(fills.push(fill), side, fill.price),
{
    let f2 = fills.push(fill);
    assert forall|j: int| 0 <= j < fills.len() implies #[trigger] f2[j] == fills[j] by {}
    if side == Side::buy {
        assert forall|a: int, b: int| 0 <= a < b < f2.len() implies #[trigger] f2[a].price <= #[trigger] f2[b].price by {
            assert(f2[a] == fills[a]);
            if b < fills.len() {
                assert(f2[b] == fills[b]);
            }
        }
        assert forall|j: int| 0 <= j < f2.len() implies #[trigger] f2[j].price <= fill.price by {
            if j < fills.len() {
                assert(f2[j] == fills[j]);
            }
        }
    }
    if side == Side::sell {
        assert forall|a: int, b: int| 0 <= a < b < f2.len() implies #[trigger] f2[a].price >= #[trigger] f2[b].price by {
            assert(f2[a] == fills[a]);
            if b < fills.len() {
                assert(f2[b] == fills[b]);
            }
        }
        assert forall|j: int| 0 <= j < f2.len() implies #[trigger] f2[j].price >= fill.price by {
            if j < fills.len() {
                assert(f2[j] == fills[j]);
            }
        }
    }
}

/// Fills that each move a positive quantity move at least one unit each.
pub proof fn lemma_fill_qty_counts(fills: Seq<Fill>)
    requires
        forall|j: int| 0 <= j < fills.len() ==> (#[trigger] fills[j]).quantity > 0,
    ensures
        fill_qty(fills) >= fills.len(),
    decreases fills.len(),
{
    if fills.len() > 0 {
        let r = fills.drop_last();
        assert forall|j: int| 0 <= j < r.len() implies (#[trigger] r[j]).quantity > 0 by {
            assert(r[j] == fills[j]);
        }
        lemma_fill_qty_counts(r);
        assert(fills.last() == fills[fills.len() - 1]);
    }
}

/// Being a prefix is transitive.
pub proof fn lemma_prefix_trans<A>(a: Seq<A>, b: Seq<A>, c: Seq<A>)
    requires
        a.is_prefix_of(b),
        b.is_prefix_of(c),
    ensures
        a.is_prefix_of(c),
{
    assert(a =~= c.subrange(0, a.len() as int)) by {
        assert forall|j: int| 0 <= j < a.len() implies a[j] == c[j] by {
            assert(a[j] == b[j]);
            assert(b[j] == c[j]);
        }
    }
}

/// Single-threaded matching engine over a book backend `B`, reporting
/// events to `L`.
pub struct Engine<B: OrderBookBackend = SparseBackend, L: OrderEventListener = ()> {
    pub backend: B,
    pub(crate) last_sequence_number: SequenceNumber,
    pub(crate) last_timestamp: Timestamp,
    pub(crate) trade_id_seq: u64,
    pub listener: L,
    pub(crate) ltp: Price,
    pub(crate) cond_manager: ConditionOrderManager,
    pub(crate) last_order_id: OrderId,
    pub(crate) halted: bool,
    /// Every execution so far, in order.
    pub(crate) fills: Ghost<Seq<Fill>>,
}

impl<B: OrderBookBackend, L: OrderEventListener> Engine<B, L> {
    /// The backend is consistent, every stored order rests at its level,
    /// the parked orders are consistent and the last trigger scan has been
    /// worked off.
    pub closed spec fn inv(&self) -> bool {
        &&& self.core_inv()
        &&& self.cond_manager.pending_linked()
    }

    /// [`Self::inv`] but for the trigger scan being worked off.
    pub closed spec fn core_inv(&self) -> bool {
        &&& self.backend.wf()
        &&& resting_ok(self.backend.pool(), self.backend.levels())
        &&& forall|i: B::OrderIdx| #[trigger]
            self.backend.pool().contains_key(i) ==> self.backend.price_valid(self.backend.pool()[i].data.price.0)
        &&& priced_at_level(self.backend.pool(), self.backend.levels(), |p: u64| self.backend.level_price(p))
        &&& self.cond_manager.wf()
        &&& forall|s: usize| #[trigger]
            self.cond_manager.store().contains_key(s) ==> incoming_ok(self.cond_manager.store()[s])
                && self.backend.price_valid(self.cond_manager.store()[s].price.0)
    }

    /// Trade counter plus every open quantity the engine holds: each trade
    /// lowers the open quantities by at least two and adds one trade.
    pub closed spec fn budget(&self) -> int {
        self.trade_id_seq as int + pool_qty(self.backend.pool()) + parked_qty(self.cond_manager.store())
    }

    /// The book is consistent while the engine is.
    pub proof fn lemma_book_wf(&self)
        requires
            self.inv(),
        ensures
            self.book().wf(),
    {
    }

    /// The book, to read from.
    pub fn book_ref(&self) -> (r: &B)
        ensures
            *r == self.book(),
    {
        &self.backend
    }

    /// What the budget counts: the trades so far, the open quantity of every
    /// resting order and that of every parked order.
    pub proof fn lemma_budget(&self)
        ensures
            self.budget() == self.trade_count() + pool_qty(self.book().pool()) + parked_qty(self.parked()),
    {
    }

    /// What "unchanged but for the counters" means: the book, the listener,
    /// the parked orders, the trade count, the last trade price, the halt
    /// flag and the executions are those of `o`.
    pub proof fn lemma_unchanged_but_meta(&self, o: &Self)
        requires
            self.unchanged_but_meta(o),
        ensures
            self.book() == o.book(),
            self.events() == o.events(),
            self.parked() == o.parked(),
            self.trade_count() == o.trade_count(),
            self.last_price() == o.last_price(),
            self.is_halted() == o.is_halted(),
            self.executions() == o.executions(),
    {
    }

    /// What "the same state but the book" means: the counters, the parked
    /// orders, the halt flag, the listener's room and the prices the book
    /// takes are those of `o`.
    pub proof fn lemma_same_state_but_book(&self, o: &Self)
        requires
            self.same_state_but_book(o),
        ensures
            self.last_seq() == o.last_seq(),
            self.last_ts() == o.last_ts(),
            self.last_id() == o.last_id(),
            self.parked() == o.parked(),
            self.is_halted() == o.is_halted(),
            forall|p: u64| #[trigger] self.book().price_valid(p) == o.book().price_valid(p),
    {
    }

    /// The book backend.
    pub closed spec fn book(&self) -> B {
        self.backend
    }

    /// The event listener.
    pub closed spec fn events(&self) -> L {
        self.listener
    }

    /// Sequence number of the last accepted command.
    pub closed spec fn last_seq(&self) -> u64 {
        self.last_sequence_number.0
    }

    /// Time of the last accepted command.
    pub closed spec fn last_ts(&self) -> u64 {
        self.last_timestamp.0
    }

    /// Highest order id submitted so far.
    pub closed spec fn last_id(&self) -> u64 {
        self.last_order_id.0
    }

    /// Last trade price.
    pub closed spec fn last_price(&self) -> u64 {
        self.ltp.0
    }

    /// Number of trades so far.
    pub closed spec fn trade_count(&self) -> u64 {
        self.trade_id_seq
    }

    /// Whether a shutdown was received.
    pub closed spec fn is_halted(&self) -> bool {
        self.halted
    }

    /// Every execution so far, in order.
    pub closed spec fn executions(&self) -> Seq<Fill> {
        self.fills@
    }

    /// Parked stop and take-profit orders.
    pub closed spec fn parked(&self) -> Map<usize, OrderData> {
        self.cond_manager.store()
    }

    /// Slots of the trigger node slab.
    pub closed spec fn trigger_slots(&self) -> nat {
        self.cond_manager.slots()
    }

    /// A new engine over `backend`, reporting to `listener`.
    pub fn new(backend: B, listener: L) -> (r: Self)
        requires
            backend_ready(&backend),
        ensures
            r.inv(),
            r.book() == backend,
            r.events() == listener,
            r.last_seq() == 0,
            r.last_ts() == 0,
            r.last_id() == 0,
            r.last_price() == 0,
            r.trade_count() == 0,
            !r.is_halted(),
            r.parked() == Map::<usize, OrderData>::empty(),
            r.executions() == Seq::<Fill>::empty(),
            r.budget() == pool_qty(backend.pool()),
            r.trigger_slots() == 0,
    {
        let r = Engine {
            backend,
            last_sequence_number: SequenceNumber(0),
            last_timestamp: Timestamp(0),
            trade_id_seq: 0,
            listener,
            ltp: Price(0),
            cond_manager: ConditionOrderManager::new(),
            last_order_id: OrderId(0),
            halted: false,
            fills: Ghost(Seq::empty()),
        };
        proof {
            assert(r.cond_manager.triggered().len() == 0);
            assert(book_laws::as_resting(r.cond_manager.store()).dom() =~= Set::empty());
            crate::book::lemma_pool_qty_none(book_laws::as_resting(r.cond_manager.store()));
        }
        r
    }

    /// Sequence number of the last accepted command.
    pub fn get_last_seq(&self) -> (r: SequenceNumber)
        ensures
            r.0 == self.last_seq(),
    {
        self.last_sequence_number
    }

    /// Time of the last accepted command.
    pub fn get_last_ts(&self) -> (r: Timestamp)
        ensures
            r.0 == self.last_ts(),
    {
        self.last_timestamp
    }

    /// Highest order id submitted so far.
    pub fn get_last_order_id(&self) -> (r: OrderId)
        ensures
            r.0 == self.last_id(),
    {
        self.last_order_id
    }

    /// Last trade price.
    pub fn get_ltp(&self) -> (r: Price)
        ensures
            r.0 == self.last_price(),
    {
        self.ltp
    }

    /// Open quantity on `side` from the best price out to `price`.
    pub fn get_depth(&self, side: Side, price: Price) -> (r: u64)
        requires
            self.inv(),
            self.budget() <= u64::MAX,
        ensures
            r == self.book().depth(side, price.0),
    {
        proof {
            self.backend.lemma_wf();
            self.cond_manager.lemma_finite();
            book_laws::lemma_qty_nonneg(self.backend.pool(), self.cond_manager.store());
        }
        self.backend.get_total_depth(side, price)
    }

    /// Whether the opposite side holds at least `taker_qty` from the best
    /// price out to `taker_price`; never for an order that is neither a buy
    /// nor a sell.
    fn check_fok_fillable(&self, taker_side: Side, taker_price: Price, taker_qty: Quantity) -> (r: bool)
        requires
            self.inv(),
            self.budget() <= u64::MAX,
        ensures
            r == ((taker_side == Side::buy || taker_side == Side::sell) && self.book().depth(
                opposite(taker_side),
                taker_price.0,
            ) >= taker_qty.0),
    {
        let opp_side = match taker_side {
            Side::buy => Side::sell,
            Side::sell => Side::buy,
            _ => {
                return false;
            },
        };
        let depth = self.get_depth(opp_side, taker_price);
        depth >= taker_qty.0
    }
}

impl<B: OrderBookBackend, L: OrderEventListener> Engine<B, L> {
    /// Everything but the book, the listener, the trade counter and the last
    /// trade price is as in `o`.
    pub closed spec fn same_state_but_book(&self, o: &Self) -> bool {
        &&& self.last_sequence_number == o.last_sequence_number
        &&& self.last_timestamp == o.last_timestamp
        &&& self.cond_manager == o.cond_manager
        &&& self.last_order_id == o.last_order_id
        &&& self.halted == o.halted
        &&& self.listener.payload_capacity() == o.listener.payload_capacity()
        &&& forall|p: u64| #[trigger] self.backend.price_valid(p) == o.backend.price_valid(p)
    }

    /// Matches `taker` against the opposite side, best price first and in
    /// time priority within a price, until it is filled, the book runs out,
    /// or (for a limit order) the best price no longer crosses its limit.
    /// A post-only taker that would trade is refused; an expired maker is
    /// dropped on the way; an iceberg maker whose shown quantity is used up
    /// shows a new peak and goes to the back of its level; a level it
    /// empties does not stay behind. Nothing else makes it fail: a maker
    /// taken out is always stored again. For a limit
    /// taker on a book whose bid levels are priced below its ask levels, the
    /// open quantity crossing its price falls by exactly what it trades.
    #[verifier::spinoff_prover]
    #[verifier::rlimit(100)]
    fn match_order(
        &mut self,
        taker: &mut OrderData,
        ts: Timestamp,
        seq: SequenceNumber,
        offset: &mut usize,
    ) -> (r: Result<(), CommandFailure>)
        requires
            old(self).core_inv(),
            incoming_ok(*old(taker)),
            old(self).budget() + old(taker).remaining_qty.0 <= u64::MAX,
            *old(offset) <= old(self).listener.payload_capacity(),
        ensures
            final(self).core_inv(),
            final(self).same_state_but_book(old(self)),
            incoming_ok(*final(taker)),
            final(self).budget() + final(taker).remaining_qty.0 <= old(self).budget() + old(taker).remaining_qty.0,
            final(taker).filled_qty.0 + final(taker).remaining_qty.0 == old(taker).filled_qty.0 + old(taker).remaining_qty.0,
            *final(taker) == (OrderData {
                remaining_qty: final(taker).remaining_qty,
                filled_qty: final(taker).filled_qty,
                ..*old(taker)
            }),
            *final(offset) <= final(self).listener.payload_capacity(),
            final(self).trade_id_seq >= old(self).trade_id_seq,
            crate::sbe::order_flags::flag_bit(old(taker).flags.0, 0u16) ==> *final(taker) == *old(taker),
            r matches Err(e) ==> e == CommandFailure::PostOnlyViolation && crate::sbe::order_flags::flag_bit(
                old(taker).flags.0,
                0u16,
            ),
            r is Err ==> final(self).backend == old(self).backend && final(self).fills == old(self).fills,
            old(self).fills@.is_prefix_of(final(self).fills@),
            fills_of(final(self).fills@.subrange(old(self).fills@.len() as int, final(self).fills@.len() as int), *old(taker)),
            fill_qty(final(self).fills@.subrange(old(self).fills@.len() as int, final(self).fills@.len() as int))
                == final(taker).filled_qty.0 - old(taker).filled_qty.0,
            best_first(final(self).fills@.subrange(old(self).fills@.len() as int, final(self).fills@.len() as int), old(taker).side),
            no_better_left(
                final(self).fills@.subrange(old(self).fills@.len() as int, final(self).fills@.len() as int),
                old(taker).side,
                final(self).backend.levels(),
            ),
            r is Ok && all_open(old(self).backend.pool()) ==> swept(final(self).backend.levels(), *final(taker)),
            all_open(old(self).backend.pool()) ==> all_open(final(self).backend.pool()),
            crate::sbe::order_flags::flag_bit(old(taker).flags.0, 0u16) && old(taker).remaining_qty.0 > 0 ==> {
                &&& r is Err <==> !clear_of(
                    old(self).backend.levels(),
                    old(taker).side,
                    old(taker).order_type,
                    old(taker).price.0,
                )
                &&& r is Err ==> r == Err::<(), CommandFailure>(CommandFailure::PostOnlyViolation)
                &&& final(self).backend == old(self).backend
                &&& final(self).fills == old(self).fills
            },
            kept_levels(final(self).backend.levels(), old(self).backend.levels()),
            forall|l: B::LevelIdx|
                #[trigger] final(self).backend.levels().contains_key(l) && final(self).backend.levels()[l].queue.len() == 0
                    ==> old(self).backend.levels().contains_key(l) && old(self).backend.levels()[l].queue.len() == 0,
            forall|p: u64| #[trigger] final(self).backend.level_price(p) == old(self).backend.level_price(p),
            ids_from(final(self).backend.pool(), old(self).backend.pool()),
            final(self).fills@.len() == old(self).fills@.len() ==> final(self).ltp == old(self).ltp,
            final(self).fills@.len() > old(self).fills@.len() ==> final(self).ltp.0 == final(self).fills@.last().price,
            makers_from(
                final(self).fills@.subrange(old(self).fills@.len() as int, final(self).fills@.len() as int),
                old(self).backend.pool(),
            ),
            priced_from(
                final(self).fills@.subrange(old(self).fills@.len() as int, final(self).fills@.len() as int),
                old(self).backend.levels(),
                old(taker).side,
            ),
            old(self).listener.counts_trades() ==> final(self).listener.counts_trades()
                && final(self).listener.told_trades() == old(self).listener.told_trades() + final(self).fills@.subrange(
                old(self).fills@.len() as int,
                final(self).fills@.len() as int,
            ),
            r is Ok && all_open(old(self).backend.pool()) && none_expired(old(self).backend.pool(), ts.0) ==> crossing_total(
                final(self).backend.levels(),
                opposite(old(taker).side),
                old(taker).price.0,
            ) + final(taker).filled_qty.0 >= crossing_total(
                old(self).backend.levels(),
                opposite(old(taker).side),
                old(taker).price.0,
            ) + old(taker).filled_qty.0,
            r is Ok && all_open(old(self).backend.pool()) && none_expired(old(self).backend.pool(), ts.0) && limited(
                old(taker).order_type,
            ) && uncrossed(old(self).backend.levels()) ==> crossing_total(
                final(self).backend.levels(),
                opposite(old(taker).side),
                old(taker).price.0,
            ) + final(taker).filled_qty.0 == crossing_total(
                old(self).backend.levels(),
                opposite(old(taker).side),
                old(taker).price.0,
            ) + old(taker).filled_qty.0,
    {
        let ghost o = *old(self);
        let ghost t0 = *old(taker);
        let ghost opp = opposite(t0.side);
        let ghost lim = t0.price.0;
        let ghost cons = all_open(o.backend.pool()) && none_expired(o.backend.pool(), ts.0);
        let ghost mut floor: u64 = if old(taker).side == Side::sell {
            u64::MAX
        } else {
            0u64
        };
        if taker.flags.get_post_only() {
            proof {
                assert(o.fills@.subrange(o.fills@.len() as int, o.fills@.len() as int) =~= Seq::<Fill>::empty());
                assert(o.listener.told_trades() + Seq::<Fill>::empty() =~= o.listener.told_trades());
            }
            if taker.is_fully_filled() {
                return Ok(());
            }
            let best = match taker.side {
                Side::buy => self.backend.best_ask_price(),
                Side::sell => self.backend.best_bid_price(),
                _ => {
                    return Ok(());
                },
            };
            let best = match best {
                Some(p) => p,
                None => {
                    return Ok(());
                },
            };
            if taker.order_type == OrderType::limit || taker.order_type == OrderType::stop_limit {
                if (taker.side == Side::buy && taker.price.0 < best.0) || (taker.side == Side::sell && taker.price.0
                    > best.0) {
                    return Ok(());
                }
            }
            return Err(CommandFailure::PostOnlyViolation);
        }
        let ghost b0 = old(self).budget() + old(taker).remaining_qty.0;
        loop
            invariant
                o == *old(self),
                t0 == *old(taker),
                b0 == old(self).budget() + old(taker).remaining_qty.0,
                self.core_inv(),
                self.same_state_but_book(&o),
                incoming_ok(*taker),
                self.budget() + taker.remaining_qty.0 <= b0,
                b0 <= u64::MAX,
                taker.filled_qty.0 + taker.remaining_qty.0 == t0.filled_qty.0 + t0.remaining_qty.0,
                *taker == (OrderData { remaining_qty: taker.remaining_qty, filled_qty: taker.filled_qty, ..t0 }),
                *offset <= self.listener.payload_capacity(),
                self.trade_id_seq >= o.trade_id_seq,
                !crate::sbe::order_flags::flag_bit(t0.flags.0, 0u16),
                o.fills@.is_prefix_of(self.fills@),
                fills_of(self.fills@.subrange(o.fills@.len() as int, self.fills@.len() as int), t0),
                fill_qty(self.fills@.subrange(o.fills@.len() as int, self.fills@.len() as int)) == taker.filled_qty.0
                    - t0.filled_qty.0,
                best_first(self.fills@.subrange(o.fills@.len() as int, self.fills@.len() as int), t0.side),
                within(self.fills@.subrange(o.fills@.len() as int, self.fills@.len() as int), t0.side, floor),
                beyond(self.backend.levels(), t0.side, floor),
                all_open(o.backend.pool()) ==> all_open(self.backend.pool()),
                opp == opposite(t0.side),
                lim == t0.price.0,
                cons == (all_open(o.backend.pool()) && none_expired(o.backend.pool(), ts.0)),
                cons ==> none_expired(self.backend.pool(), ts.0),
                kept_levels(self.backend.levels(), o.backend.levels()),
                forall|l: B::LevelIdx|
                    #[trigger] self.backend.levels().contains_key(l) && self.backend.levels()[l].queue.len() == 0
                        ==> o.backend.levels().contains_key(l) && o.backend.levels()[l].queue.len() == 0,
                forall|p: u64| #[trigger] self.backend.level_price(p) == o.backend.level_price(p),
                ids_from(self.backend.pool(), o.backend.pool()),
                self.fills@.len() == o.fills@.len() ==> self.ltp == o.ltp,
                self.fills@.len() > o.fills@.len() ==> self.ltp.0 == self.fills@.last().price,
                makers_from(self.fills@.subrange(o.fills@.len() as int, self.fills@.len() as int), o.backend.pool()),
                priced_from(self.fills@.subrange(o.fills@.len() as int, self.fills@.len() as int), o.backend.levels(), t0.side),
                o.listener.counts_trades() ==> self.listener.counts_trades() && self.listener.told_trades()
                    == o.listener.told_trades() + self.fills@.subrange(o.fills@.len() as int, self.fills@.len() as int),
                cons ==> crossing_total(self.backend.levels(), opp, lim) + taker.filled_qty.0 >= crossing_total(
                    o.backend.levels(),
                    opp,
                    lim,
                ) + t0.filled_qty.0,
                cons && limited(t0.order_type) && uncrossed(o.backend.levels()) ==> crossing_total(self.backend.levels(), opp, lim) + taker.filled_qty.0
                    == crossing_total(o.backend.levels(), opp, lim) + t0.filled_qty.0,
            ensures
                all_open(o.backend.pool()) ==> swept(self.backend.levels(), *taker),
            decreases taker.remaining_qty.0, self.backend.pool().len() + self.backend.levels().len(),
        {
            proof {
                self.backend.lemma_wf();
                self.cond_manager.lemma_finite();
                book_laws::lemma_qty_nonneg(self.backend.pool(), self.cond_manager.store());
            }
            if taker.is_fully_filled() {
                break;
            }
            let best_opp_price = match taker.side {
                Side::buy => self.backend.best_ask_price(),
                Side::sell => self.backend.best_bid_price(),
                _ => {
                    break;
                },
            };
            let opp_price = match best_opp_price {
                Some(p) => p,
                None => {
                    break;
                },
            };
            let ghost l_opp = choose|l: B::LevelIdx|
                #[trigger] self.backend.levels().contains_key(l) && self.backend.levels()[l].is_bid == (t0.side
                    == Side::sell) && self.backend.levels()[l].price == opp_price.0;
            proof {
                let lv = self.backend.levels();
                if t0.side == Side::buy {
                    let l = choose|l: B::LevelIdx| #[trigger] lv.contains_key(l) && !lv[l].is_bid && lv[l].price == opp_price.0;
                    assert(floor <= opp_price.0);
                } else if t0.side == Side::sell {
                    let l = choose|l: B::LevelIdx| #[trigger] lv.contains_key(l) && lv[l].is_bid && lv[l].price == opp_price.0;
                    assert(opp_price.0 <= floor);
                }
                assert(lv.contains_key(l_opp) && lv[l_opp].is_bid == (t0.side == Side::sell) && lv[l_opp].price
                    == opp_price.0);
                assert(o.backend.levels().contains_key(l_opp) && o.backend.levels()[l_opp].is_bid == (t0.side
                    == Side::sell) && o.backend.levels()[l_opp].price == opp_price.0);
            }
            if taker.order_type == OrderType::limit || taker.order_type == OrderType::stop_limit {
                match taker.side {
                    Side::buy => {
                        if taker.price.0 < opp_price.0 {
                            break;
                        }
                    },
                    Side::sell => {
                        if taker.price.0 > opp_price.0 {
                            break;
                        }
                    },
                    _ => {},
                }
            }
            if taker.flags.get_post_only() {
                return Err(CommandFailure::PostOnlyViolation);
            }
            proof {
                let lv = self.backend.levels();
                let l = choose|l: B::LevelIdx| #[trigger] lv.contains_key(l) && lv[l].price == opp_price.0;
                self.backend.lemma_level_price(l);
            }
            let level_idx = match self.backend.get_level(opp_price) {
                Some(l) => l,
                None => {
                    proof {
                        let lv = self.backend.levels();
                        let l = choose|l: B::LevelIdx| #[trigger] lv.contains_key(l) && lv[l].price == opp_price.0;
                        assert(lv.contains_key(l));
                        assert(false);
                    }
                    continue;
                },
            };
            let ghost pool0 = self.backend.pool();
            let ghost lv0 = self.backend.levels();
            let ghost ids0 = self.backend.ids();
            let ghost bk0 = self.backend;
            let maker_idx = match self.backend.pop_from_level(level_idx) {
                Some(m) => m,
                None => {
                    proof {
                        book_laws::lemma_after_drop_level(pool0, lv0, level_idx);
                    }
                    self.backend.remove_empty_level(level_idx);
                    proof {
                        assert(self.backend.levels().len() < lv0.len());
                        if cons {
                            lemma_cross_drop(bk0, self.backend, level_idx, opp, lim);
                        }
                    }
                    continue;
                },
            };
            proof {
                book_laws::lemma_after_pop(pool0, lv0, ids0, self.backend.levels(), level_idx);
                if limited(t0.order_type) && uncrossed(o.backend.levels()) {
                    lemma_uncrossed_kept(lv0, o.backend.levels());
                    assert(lv0.contains_key(l_opp) && lv0[l_opp].price == opp_price.0);
                    assert(lv0[level_idx].price == opp_price.0);
                    assert(lv0[level_idx].is_bid == (t0.side == Side::sell));
                    assert(crosses_level(lv0[level_idx], opp, lim));
                }
                if cons {
                    let q = lv0[level_idx].queue;
                    lemma_cross_requeue(bk0, self.backend, level_idx, opp, lim);
                    crate::book::lemma_queue_qty_prepend(pool0, q.drop_first(), q[0]);
                    assert(seq![q[0]] + q.drop_first() =~= q);
                    assert(crossing_total(self.backend.levels(), opp, lim) == crossing_total(lv0, opp, lim) - (if crosses_level(lv0[level_idx], opp, lim) {
                        pool0[maker_idx].data.remaining_qty.0 as int
                    } else {
                        0
                    }));
                }
            }
            self.backend.prefetch_entry(maker_idx);
            let ghost lv1 = self.backend.levels();
            let mut maker = match self.backend.remove_order(maker_idx) {
                Some(m) => m,
                None => {
                    proof {
                        assert(false);
                    }
                    continue;
                },
            };
            proof {
                book_laws::lemma_after_remove(pool0, lv1, maker_idx);
                crate::book::lemma_pool_qty_remove(pool0, maker_idx);
                assert(order_ok(maker.data));
                assert(maker.level_idx == level_idx);
                assert(beyond(self.backend.levels(), t0.side, floor));
                assert(beyond(self.backend.levels(), t0.side, opp_price.0)) by {
                    let lv = self.backend.levels();
                    if t0.side == Side::buy {
                        assert forall|l: B::LevelIdx| #[trigger] lv.contains_key(l) && !lv[l].is_bid implies opp_price.0
                            <= lv[l].price by {
                            assert(lv0.contains_key(l));
                        }
                    }
                    if t0.side == Side::sell {
                        assert forall|l: B::LevelIdx| #[trigger] lv.contains_key(l) && lv[l].is_bid implies lv[l].price
                            <= opp_price.0 by {
                            assert(lv0.contains_key(l));
                        }
                    }
                }
            }
            if maker.data.is_expired(ts) {
                if self.backend.level_order_count(level_idx) == 0 {
                    proof {
                        book_laws::lemma_after_drop_level(self.backend.pool(), self.backend.levels(), level_idx);
                    }
                    self.backend.remove_empty_level(level_idx);
                }
                continue;
            }
            let mut trade_qty = if taker.remaining_qty.0 < maker.data.remaining_qty.0 {
                taker.remaining_qty.0
            } else {
                maker.data.remaining_qty.0
            };
            if maker.data.is_iceberg() {
                if maker.data.visible_qty.0 < trade_qty {
                    trade_qty = maker.data.visible_qty.0;
                }
            }
            proof {
                self.backend.lemma_wf();
                crate::book::lemma_keys_qty_nonneg(self.backend.pool(), self.backend.pool().dom());
            }
            if trade_qty == 0 {
                if maker.data.is_iceberg() && maker.data.visible_qty.0 == 0 {
                    proof {
                        assert(false);
                    }
                    let reload_qty = if maker.data.remaining_qty.0 < maker.data.peak_size.0 {
                        maker.data.remaining_qty.0
                    } else {
                        maker.data.peak_size.0
                    };
                    maker.data.visible_qty = Quantity(reload_qty);
                    proof {
                        self.backend.lemma_insert_failure_kinds(maker);
                    }
                    let new_maker_idx = match self.backend.insert_order(maker) {
                        Ok(i) => i,
                        Err(e) => {
                            proof {
                                assert(false);
                            }
                            return Err(e);
                        },
                    };
                    self.backend.push_to_level_back(level_idx, new_maker_idx);
                    continue;
                } else {
                    let ghost pool2 = self.backend.pool();
                    proof {
                        self.backend.lemma_insert_failure_kinds(maker);
                    }
                    let new_maker_idx = match self.backend.insert_order(maker) {
                        Ok(i) => i,
                        Err(e) => {
                            proof {
                                assert(false);
                            }
                            return Err(e);
                        },
                    };
                    let ghost lv2 = self.backend.levels();
                    proof {
                        crate::book::lemma_pool_qty_insert(pool2, new_maker_idx, maker);
                        assert(resting_ok_but(self.backend.pool(), lv2, Some(new_maker_idx))) by {
                            assert forall|i: B::OrderIdx| #[trigger] self.backend.pool().contains_key(i) && Some(new_maker_idx) != Some(i) implies order_ok(self.backend.pool()[i].data)
                                && lv2.contains_key(self.backend.pool()[i].level_idx) && lv2[self.backend.pool()[i].level_idx].queue.contains(i) by {
                                assert(pool2.contains_key(i));
                            }
                        }
                        self.backend.lemma_wf();
                        crate::book::lemma_keys_qty_nonneg(pool2, pool2.dom());
                    }
                    self.backend.push_to_level_front(level_idx, new_maker_idx);
                    proof {
                        book_laws::lemma_push_keeps(lv2[level_idx].queue, new_maker_idx);
                        book_laws::lemma_after_push(
                            self.backend.pool(),
                            lv2,
                            self.backend.levels(),
                            level_idx,
                            new_maker_idx,
                            seq![new_maker_idx] + lv2[level_idx].queue,
                        );
                    }
                    break;
                }
            }
            taker.remaining_qty.0 = taker.remaining_qty.0 - trade_qty;
            taker.filled_qty.0 = taker.filled_qty.0 + trade_qty;
            maker.data.remaining_qty.0 = maker.data.remaining_qty.0 - trade_qty;
            maker.data.filled_qty.0 = maker.data.filled_qty.0 + trade_qty;
            if maker.data.visible_qty.0 > 0 {
                maker.data.visible_qty.0 = if maker.data.visible_qty.0 > trade_qty {
                    maker.data.visible_qty.0 - trade_qty
                } else {
                    0
                };
            }
            self.trade_id_seq = self.trade_id_seq + 1;
            self.listener.on_trade(
                &maker.data,
                taker,
                Quantity(trade_qty),
                opp_price,
                ts,
                seq,
                self.trade_id_seq,
                offset,
            );
            self.ltp = opp_price;
            proof {
                let ghost before = self.fills@;
                let fill = Fill {
                    maker_order_id: maker.data.order_id.0,
                    taker_order_id: taker.order_id.0,
                    price: opp_price.0,
                    quantity: trade_qty,
                };
                self.fills@ = self.fills@.push(fill);
                let n0 = o.fills@.len() as int;
                let mine = self.fills@.subrange(n0, self.fills@.len() as int);
                assert(mine.drop_last() =~= before.subrange(n0, before.len() as int));
                assert(mine.last() == fill);
                assert(mine =~= before.subrange(n0, before.len() as int).push(fill));
                lemma_next_fill(before.subrange(n0, before.len() as int), fill, t0.side, floor);
                floor = opp_price.0;
                assert(pool0.contains_key(maker_idx));
                let i0 = choose|i0: B::OrderIdx|
                    o.backend.pool().contains_key(i0) && o.backend.pool()[i0].data.order_id == pool0[maker_idx].data.order_id;
                lemma_push_fill(
                    before.subrange(n0, before.len() as int),
                    fill,
                    t0,
                    o.backend.pool(),
                    o.backend.levels(),
                    i0,
                    l_opp,
                );
            }
            if !maker.data.is_fully_filled() {
                let ghost pool2 = self.backend.pool();
                if maker.data.visible_qty.0 == 0 && maker.data.is_iceberg() {
                    let reload_qty = if maker.data.remaining_qty.0 < maker.data.peak_size.0 {
                        maker.data.remaining_qty.0
                    } else {
                        maker.data.peak_size.0
                    };
                    maker.data.visible_qty = Quantity(reload_qty);
                    proof {
                        self.backend.lemma_insert_failure_kinds(maker);
                    }
                    let new_maker_idx = match self.backend.insert_order(maker) {
                        Ok(i) => i,
                        Err(e) => {
                            proof {
                                assert(false);
                            }
                            return Err(e);
                        },
                    };
                    let ghost lv2 = self.backend.levels();
                    proof {
                        crate::book::lemma_pool_qty_insert(pool2, new_maker_idx, maker);
                        assert(resting_ok_but(self.backend.pool(), lv2, Some(new_maker_idx))) by {
                            assert forall|i: B::OrderIdx| #[trigger] self.backend.pool().contains_key(i) && Some(new_maker_idx) != Some(i) implies order_ok(self.backend.pool()[i].data)
                                && lv2.contains_key(self.backend.pool()[i].level_idx) && lv2[self.backend.pool()[i].level_idx].queue.contains(i) by {
                                assert(pool2.contains_key(i));
                            }
                        }
                        self.backend.lemma_wf();
                        crate::book::lemma_keys_qty_nonneg(pool2, pool2.dom());
                    }
                    let ghost bk2 = self.backend;
                    self.backend.push_to_level_back(level_idx, new_maker_idx);
                    proof {
                        if cons {
                            lemma_cross_requeue(bk2, self.backend, level_idx, opp, lim);
                            crate::book::lemma_queue_qty_push(bk2.pool(), lv2[level_idx].queue, new_maker_idx);
                        }
                        book_laws::lemma_push_keeps(lv2[level_idx].queue, new_maker_idx);
                        book_laws::lemma_after_push(
                            self.backend.pool(),
                            lv2,
                            self.backend.levels(),
                            level_idx,
                            new_maker_idx,
                            lv2[level_idx].queue.push(new_maker_idx),
                        );
                    }
                    continue;
                } else {
                    proof {
                        self.backend.lemma_insert_failure_kinds(maker);
                    }
                    let new_maker_idx = match self.backend.insert_order(maker) {
                        Ok(i) => i,
                        Err(e) => {
                            proof {
                                assert(false);
                            }
                            return Err(e);
                        },
                    };
                    let ghost lv2 = self.backend.levels();
                    proof {
                        crate::book::lemma_pool_qty_insert(pool2, new_maker_idx, maker);
                        assert(resting_ok_but(self.backend.pool(), lv2, Some(new_maker_idx))) by {
                            assert forall|i: B::OrderIdx| #[trigger] self.backend.pool().contains_key(i) && Some(new_maker_idx) != Some(i) implies order_ok(self.backend.pool()[i].data)
                                && lv2.contains_key(self.backend.pool()[i].level_idx) && lv2[self.backend.pool()[i].level_idx].queue.contains(i) by {
                                assert(pool2.contains_key(i));
                            }
                        }
                        self.backend.lemma_wf();
                        crate::book::lemma_keys_qty_nonneg(pool2, pool2.dom());
                    }
                    let ghost bk2 = self.backend;
                    self.backend.push_to_level_front(level_idx, new_maker_idx);
                    proof {
                        if cons {
                            lemma_cross_requeue(bk2, self.backend, level_idx, opp, lim);
                            crate::book::lemma_queue_qty_prepend(bk2.pool(), lv2[level_idx].queue, new_maker_idx);
                        }
                        book_laws::lemma_push_keeps(lv2[level_idx].queue, new_maker_idx);
                        book_laws::lemma_after_push(
                            self.backend.pool(),
                            lv2,
                            self.backend.levels(),
                            level_idx,
                            new_maker_idx,
                            seq![new_maker_idx] + lv2[level_idx].queue,
                        );
                    }
                    break;
                }
            } else if self.backend.level_order_count(level_idx) == 0 {
                proof {
                    book_laws::lemma_after_drop_level(self.backend.pool(), self.backend.levels(), level_idx);
                }
                let ghost bk2 = self.backend;
                self.backend.remove_empty_level(level_idx);
                proof {
                    if cons {
                        lemma_cross_drop(bk2, self.backend, level_idx, opp, lim);
                    }
                }
            }
        }
        Ok(())
    }

    /// Everything but the last sequence number, time and order id is as in `o`.
    pub closed spec fn unchanged_but_meta(&self, o: &Self) -> bool {
        &&& self.backend == o.backend
        &&& self.listener == o.listener
        &&& self.cond_manager == o.cond_manager
        &&& self.trade_id_seq == o.trade_id_seq
        &&& self.ltp == o.ltp
        &&& self.halted == o.halted
        &&& self.fills == o.fills
    }

    /// Whether the submission `f` reaches matching: the engine is running,
    /// the order id is new, the sequence number advances, the price is
    /// accepted, a fill-or-kill finds enough quantity, and it is no stop.
    pub closed spec fn submit_reaches_matching(&self, f: OrderSubmitFields) -> bool {
        &&& !self.halted
        &&& f.order_id > self.last_order_id.0
        &&& f.sequence_number > self.last_sequence_number.0
        &&& self.backend.price_valid(f.price)
        &&& !(f.time_in_force == TimeInForce::fok && !((f.side == Side::buy || f.side == Side::sell)
            && self.backend.depth(opposite(f.side), f.price) >= f.quantity))
        &&& !submitted_order(f).spec_is_stop()
    }

    /// Submits an order. It is refused when the engine is halted, when its
    /// id is not above every id seen so far, or when its sequence number
    /// does not advance; the id counts as seen from the second check on, and
    /// the sequence number and time are taken from the third. An accepted
    /// submission is refused for a price the book does not take, and a
    /// fill-or-kill for too little opposite quantity; a stop order is
    /// parked; any other order is matched, the orders its trades trigger
    /// are activated, and what is left rests unless it is immediate-or-
    /// cancel. Where every resting order has quantity open and no order is
    /// parked, an order that is not filled leaves nothing on the opposite
    /// side that crosses its price (nothing at all, for a market order), and
    /// when the book also prices a level at the order's own price, a book
    /// with every bid level below every ask level stays so.
    /// Where the book's depth sums its levels and every resting order has
    /// quantity open and none has expired, a fill-or-kill order that is
    /// taken is filled in full. Where every resting order has quantity open,
    /// none has expired and every bid level is priced below every ask level,
    /// a limit order trades the smaller of its quantity and the opposite
    /// quantity that crosses its price. The book refuses an order only for
    /// a reason it gives for the order's id; an order left resting can be
    /// found by its id.
    pub fn execute_submit(&mut self, decoder: &OrderSubmitDecoder) -> (r: CommandOutcome<'_>)
        requires
            old(self).inv(),
            decoder.wf(),
            old(self).budget() + decoder.fields().quantity <= u64::MAX,
            old(self).trigger_slots() + 1 < NULL_NODE,
        ensures
            final(self).inv(),
            final(self).executions().len() == old(self).executions().len() ==> final(self).last_price()
                == old(self).last_price(),
            final(self).executions().len() > old(self).executions().len() ==> final(self).last_price()
                == final(self).executions().last().price,
            final(self).trigger_slots() <= old(self).trigger_slots() + 1,
            old(self).events().counts_trades() ==> final(self).events().counts_trades()
                && final(self).events().told_trades() == old(self).events().told_trades() + final(self).executions().subrange(
                old(self).executions().len() as int,
                final(self).executions().len() as int,
            ),
            all_open(old(self).book().pool()) ==> all_open(final(self).book().pool()),
            final(self).budget() <= old(self).budget() + decoder.fields().quantity,
            uncrossed(old(self).book().levels()) && all_open(old(self).book().pool()) && old(self).parked() == Map::<
                usize,
                OrderData,
            >::empty() && old(self).book().level_price(decoder.fields().price) == decoder.fields().price ==> uncrossed(
                final(self).book().levels(),
            ),
            ({
                let f = decoder.fields();
                if old(self).is_halted() {
                    &&& r == CommandOutcome::Rejected(CommandFailure::SystemHalted)
                    &&& *final(self) == *old(self)
                } else if f.order_id <= old(self).last_id() {
                    &&& r == CommandOutcome::Rejected(CommandFailure::DuplicateOrderId)
                    &&& *final(self) == *old(self)
                } else if f.sequence_number <= old(self).last_seq() {
                    &&& r == CommandOutcome::Rejected(CommandFailure::SequenceGap)
                    &&& final(self).unchanged_but_meta(old(self))
                    &&& final(self).last_id() == f.order_id
                    &&& final(self).last_seq() == old(self).last_seq()
                    &&& final(self).last_ts() == old(self).last_ts()
                } else {
                    &&& final(self).last_id() == f.order_id
                    &&& final(self).last_seq() == f.sequence_number
                    &&& final(self).last_ts() == f.timestamp
                    &&& !final(self).is_halted()
                    &&& !old(self).book().price_valid(f.price) ==> {
                        &&& r == CommandOutcome::Rejected(CommandFailure::InvalidPrice)
                        &&& final(self).unchanged_but_meta(old(self))
                    }
                    &&& old(self).book().price_valid(f.price) && f.time_in_force == TimeInForce::fok && !((f.side
                        == Side::buy || f.side == Side::sell) && old(self).book().depth(opposite(f.side), f.price)
                        >= f.quantity) ==> {
                        &&& r == CommandOutcome::Rejected(CommandFailure::LiquidityInsufficient)
                        &&& final(self).unchanged_but_meta(old(self))
                    }
                    &&& old(self).book().price_valid(f.price) && !(f.time_in_force == TimeInForce::fok && !((
                    f.side == Side::buy || f.side == Side::sell) && old(self).book().depth(opposite(f.side), f.price)
                        >= f.quantity)) && submitted_order(f).spec_is_stop() ==> {
                        &&& r matches CommandOutcome::Applied(rep) && rep.order_id.0 == f.order_id && rep.status
                            == OrderStatus::New && rep.timestamp.0 == f.timestamp && rep.payload@.len() == 0
                        &&& final(self).book() == old(self).book()
                        &&& final(self).executions() == old(self).executions()
                        &&& exists|s: usize|
                            !old(self).parked().contains_key(s) && final(self).parked() == old(self).parked().insert(
                                s,
                                submitted_order(f),
                            )
                    }
                    &&& old(self).submit_reaches_matching(f) && is_post_only(submitted_order(f)) && f.quantity > 0 ==> {
                        &&& (r == CommandOutcome::Rejected(CommandFailure::PostOnlyViolation)) <==> !clear_of(
                            old(self).book().levels(),
                            f.side,
                            f.order_type,
                            f.price,
                        )
                        &&& r == CommandOutcome::Rejected(CommandFailure::PostOnlyViolation) ==> final(self).book()
                            == old(self).book() && final(self).executions() == old(self).executions()
                    }
                    &&& old(self).submit_reaches_matching(f) ==> match r {
                        CommandOutcome::Applied(rep) => {
                            &&& rep.order_id.0 == f.order_id
                            &&& rep.timestamp.0 == f.timestamp
                            &&& exists|k: int|
                                {
                                    &&& old(self).executions().len() <= k <= final(self).executions().len()
                                    &&& fills_of(
                                        final(self).executions().subrange(old(self).executions().len() as int, k),
                                        submitted_order(f),
                                    )
                                    &&& makers_from(
                                        final(self).executions().subrange(old(self).executions().len() as int, k),
                                        old(self).book().pool(),
                                    )
                                    &&& best_first(
                                        final(self).executions().subrange(old(self).executions().len() as int, k),
                                        f.side,
                                    )
                                    &&& is_post_only(submitted_order(f)) ==> k == old(self).executions().len()
                                    &&& rep.status == status_for(
                                        f.time_in_force,
                                        f.quantity,
                                        fill_qty(final(self).executions().subrange(old(self).executions().len() as int, k)),
                                    )
                                    &&& all_open(old(self).book().pool()) && none_expired(old(self).book().pool(), f.timestamp)
                                        && limited(f.order_type) && uncrossed(old(self).book().levels()) ==> fill_qty(
                                        final(self).executions().subrange(old(self).executions().len() as int, k),
                                    ) == (if f.quantity <= crossing_total(old(self).book().levels(), opposite(f.side), f.price) {
                                        f.quantity as int
                                    } else {
                                        crossing_total(old(self).book().levels(), opposite(f.side), f.price)
                                    })
                                    &&& rep.status != OrderStatus::Filled && f.time_in_force != TimeInForce::ioc
                                        ==> holds_data(
                                        final(self).book().pool(),
                                        after_fills(
                                            submitted_order(f),
                                            fill_qty(final(self).executions().subrange(old(self).executions().len() as int, k)),
                                        ),
                                    )
                                }
                            &&& all_open(old(self).book().pool()) && old(self).parked() == Map::<usize, OrderData>::empty()
                                ==> rep.status == OrderStatus::Filled || clear_of(
                                final(self).book().levels(),
                                f.side,
                                f.order_type,
                                f.price,
                            )
                            &&& f.time_in_force == TimeInForce::fok && old(self).book().depth_sums_levels(
                                opposite(f.side),
                                f.price,
                            ) && all_open(
                                old(self).book().pool(),
                            ) && none_expired(old(self).book().pool(), f.timestamp) ==> rep.status == OrderStatus::Filled
                            &&& rep.status != OrderStatus::Filled && f.time_in_force != TimeInForce::ioc
                                ==> final(self).book().ids().contains_key(f.order_id)
                        },
                        CommandOutcome::Rejected(e) => {
                            ||| e == CommandFailure::PostOnlyViolation && is_post_only(submitted_order(f))
                            ||| e == CommandFailure::InvalidOrder && f.side == Side::NullVal
                            ||| book_refusal(e) && refuses_id(final(self).book(), f.order_id, e)
                        },
                    }
                }
            }),
    {
        if self.halted {
            return CommandOutcome::Rejected(CommandFailure::SystemHalted);
        }
        let order_id = OrderId(decoder.order_id());
        if order_id.0 <= self.last_order_id.0 {
            return CommandOutcome::Rejected(CommandFailure::DuplicateOrderId);
        }
        self.last_order_id = order_id;
        let seq = SequenceNumber(decoder.sequence_number());
        let ts = Timestamp(decoder.timestamp());
        if seq.0 <= self.last_sequence_number.0 {
            return CommandOutcome::Rejected(CommandFailure::SequenceGap);
        }
        self.last_sequence_number = seq;
        self.last_timestamp = ts;
        let tif = decoder.time_in_force();
        let quantity = decoder.quantity();
        let side = decoder.side();
        let price = Price(decoder.price());
        let order_type = decoder.order_type();
        if !self.backend.validate_price(price) {
            return CommandOutcome::Rejected(CommandFailure::InvalidPrice);
        }
        if tif == TimeInForce::fok && !self.check_fok_fillable(side, price, Quantity(quantity)) {
            return CommandOutcome::Rejected(CommandFailure::LiquidityInsufficient);
        }
        let mut taker_order = OrderData {
            remaining_qty: Quantity(quantity),
            filled_qty: Quantity(0),
            price,
            side,
            order_type,
            flags: decoder.flags(),
            order_id: OrderId(decoder.order_id()),
            user_id: crate::types::UserId(decoder.user_id()),
            sequence_number: seq,
            timestamp: ts,
            expiry: Timestamp(0),
            trigger_price: Price(decoder.price()),
            visible_qty: Quantity(quantity),
            peak_size: Quantity(quantity),
        };
        proof {
            assert(taker_order == submitted_order(decoder.fields()));
        }
        if taker_order.is_stop() {
            let ghost before = *self;
            self.cond_manager.register_condition_order(taker_order, self.ltp);
            proof {
                let s = choose|s: usize, n: u32|
                    {
                        &&& !before.cond_manager.store().contains_key(s)
                        &&& self.cond_manager.store() == before.cond_manager.store().insert(s, taker_order)
                        &&& self.cond_manager.pending() == before.cond_manager.pending().insert(taker_order.order_id.0, (s, n))
                        &&& !before.cond_manager.has_node(n)
                        &&& self.cond_manager.has_node(n)
                        &&& self.cond_manager.node(n).order_idx == s
                        &&& self.cond_manager.node(n).prev == NULL_NODE
                        &&& match condition::pool_of(taker_order.side, taker_order.trigger_price.0, before.ltp.0) {
                            Some(k) => {
                                &&& self.cond_manager.pool(k) == before.cond_manager.pool(k).insert(taker_order.trigger_price.0, n)
                                &&& forall|j: int| 0 <= j < 4 && j != k ==> #[trigger] self.cond_manager.pool(j) == before.cond_manager.pool(j)
                            },
                            None => forall|j: int| 0 <= j < 4 ==> #[trigger] self.cond_manager.pool(j) == before.cond_manager.pool(j),
                        }
                    };
                before.cond_manager.lemma_finite();
                book_laws::lemma_parked_insert(before.cond_manager.store(), s.0, taker_order);
                assert forall|k: usize| #[trigger] self.cond_manager.store().contains_key(k) implies incoming_ok(
                    self.cond_manager.store()[k],
                ) && self.backend.price_valid(self.cond_manager.store()[k].price.0) by {
                    if k != s.0 {
                        assert(before.cond_manager.store().contains_key(k));
                    }
                }
                assert(!old(self).parked().contains_key(s.0) && self.parked() == old(self).parked().insert(
                    s.0,
                    submitted_order(decoder.fields()),
                ));
            }
            return CommandOutcome::Applied(
                CommandReport { order_id: taker_order.order_id, status: OrderStatus::New, timestamp: ts, payload: &[] },
            );
        }
        let mut offset: usize = 0;
        let initial_ltp = self.ltp;
        let ghost before_match = *self;
        let ghost xcond = uncrossed(old(self).backend.levels()) && all_open(old(self).backend.pool())
            && old(self).parked() == Map::<usize, OrderData>::empty() && old(self).backend.level_price(
            decoder.fields().price,
        ) == decoder.fields().price;
        match self.match_order(&mut taker_order, ts, seq, &mut offset) {
            Ok(()) => {},
            Err(fail) => {
                proof {
                    if xcond {
                        lemma_uncrossed_kept(self.backend.levels(), old(self).backend.levels());
                    }
                }
                return CommandOutcome::Rejected(fail);
            },
        }
        proof {
            if xcond {
                lemma_uncrossed_kept(self.backend.levels(), old(self).backend.levels());
            }
        }
        let ghost own_end = self.fills@.len() as int;
        let ghost mid_fills = self.fills@;
        proof {
            self.backend.lemma_wf();
            crate::book::lemma_level_sum_nonneg(
                self.backend.levels(),
                crate::book::crossing_keys(self.backend.levels(), opposite(decoder.fields().side), decoder.fields().price),
            );
        }
        let ghost mid_levels = self.backend.levels();
        let ghost mine = self.fills@.subrange(before_match.fills@.len() as int, own_end);
        proof {
            assert(fill_qty(mine) == taker_order.filled_qty.0);
        }
        if self.ltp.0 != initial_ltp.0 {
            self.process_triggered_orders(ts, seq, &mut offset);
        }
        proof {
            assert(mine =~= self.fills@.subrange(before_match.fills@.len() as int, own_end)) by {
                let a = before_match.fills@.len() as int;
                assert forall|j: int| 0 <= j < own_end - a implies mine[j] == self.fills@[a + j] by {
                    assert(mid_fills[a + j] == self.fills@[a + j]);
                }
            }
        }
        let final_status = if taker_order.is_fully_filled() {
            OrderStatus::Filled
        } else {
            if tif == TimeInForce::ioc {
                if taker_order.filled_qty.0 > 0 {
                    OrderStatus::PartiallyFilled
                } else {
                    OrderStatus::Cancelled
                }
            } else {
                match taker_order.side {
                    Side::buy | Side::sell => {
                        let ghost before_rest = self.backend.levels();
                        let ghost before_pool = self.backend.pool();
                        match self.add_resting_order(taker_order) {
                            Ok(()) => {
                                proof {
                                    if xcond {
                                        lemma_uncrossed_rest(before_rest, self.backend.levels(), taker_order.side, taker_order.order_type, taker_order.price.0);
                                    }
                                    let (i, l) = choose|i: B::OrderIdx, l: B::LevelIdx|
                                        self.backend.pool() == before_pool.insert(i, RestingOrder { data: taker_order, level_idx: l });
                                    assert(self.backend.pool().contains_key(i) && self.backend.pool()[i].data == taker_order);
                                    assert(self.backend.ids().contains_key(taker_order.order_id.0));
                                }
                            },
                            Err(fail) => {
                                proof {
                                    if xcond {
                                        lemma_uncrossed_rest(before_rest, self.backend.levels(), taker_order.side, taker_order.order_type, taker_order.price.0);
                                    }
                                }
                                return CommandOutcome::Rejected(fail);
                            },
                        }
                        if taker_order.filled_qty.0 > 0 {
                            OrderStatus::PartiallyFilled
                        } else {
                            OrderStatus::New
                        }
                    },
                    _ => {
                        return CommandOutcome::Rejected(CommandFailure::InvalidOrder);
                    },
                }
            }
        };
        proof {
            let f = decoder.fields();
            assert(old(self).executions() == before_match.fills@);
            assert(old(self).executions().len() <= own_end <= self.executions().len());
            assert(fills_of(self.executions().subrange(old(self).executions().len() as int, own_end), submitted_order(f)));
            assert(best_first(self.executions().subrange(old(self).executions().len() as int, own_end), f.side));
            if is_post_only(submitted_order(f)) {
                lemma_fill_qty_counts(self.executions().subrange(old(self).executions().len() as int, own_end));
            }
            assert(final_status == status_for(f.time_in_force, f.quantity, fill_qty(
                self.executions().subrange(old(self).executions().len() as int, own_end),
            )));
            assert(old(self).submit_reaches_matching(f));
            assert(taker_order == after_fills(submitted_order(f), fill_qty(
                self.executions().subrange(old(self).executions().len() as int, own_end),
            )));
            if f.time_in_force == TimeInForce::fok && old(self).backend.depth_sums_levels(opposite(f.side), f.price) && all_open(
                old(self).backend.pool(),
            ) && none_expired(old(self).backend.pool(), f.timestamp) {
                old(self).backend.lemma_depth_sums_levels(opposite(f.side), f.price);
                if taker_order.remaining_qty.0 > 0 {
                    assert(clear_of(mid_levels, f.side, f.order_type, f.price));
                    assert forall|l: B::LevelIdx| #[trigger] mid_levels.contains_key(l) implies !crosses_level(
                        mid_levels[l],
                        opposite(f.side),
                        f.price,
                    ) by {
                    }
                    crate::book::lemma_crossing_none(mid_levels, opposite(f.side), f.price);
                    assert(false);
                }
            }
            if all_open(old(self).backend.pool()) && none_expired(old(self).backend.pool(), f.timestamp) && limited(f.order_type)
                && uncrossed(old(self).backend.levels()) {
                let ct = crossing_total(old(self).backend.levels(), opposite(f.side), f.price);
                if taker_order.remaining_qty.0 > 0 {
                    assert(clear_of(mid_levels, f.side, f.order_type, f.price));
                    assert forall|l: B::LevelIdx| #[trigger] mid_levels.contains_key(l) implies !crosses_level(
                        mid_levels[l],
                        opposite(f.side),
                        f.price,
                    ) by {
                    }
                    crate::book::lemma_crossing_none(mid_levels, opposite(f.side), f.price);
                }
                assert(taker_order.filled_qty.0 == (if f.quantity <= ct { f.quantity as int } else { ct }));
            }
            if all_open(old(self).backend.pool()) && old(self).parked() == Map::<usize, OrderData>::empty()
                && final_status != OrderStatus::Filled {
                assert(swept(mid_levels, taker_order));
                assert(clear_of(mid_levels, f.side, f.order_type, f.price));
                let lv = self.backend.levels();
                if f.side == Side::buy {
                    assert forall|l: B::LevelIdx| #[trigger] lv.contains_key(l) && !lv[l].is_bid implies limited(f.order_type) && f.price < lv[l].price by {
                        assert(mid_levels.contains_key(l));
                    }
                }
                if f.side == Side::sell {
                    assert forall|l: B::LevelIdx| #[trigger] lv.contains_key(l) && lv[l].is_bid implies limited(f.order_type) && lv[l].price < f.price by {
                        assert(mid_levels.contains_key(l));
                    }
                }
            }
        }
        CommandOutcome::Applied(
            CommandReport {
                order_id: taker_order.order_id,
                status: final_status,
                timestamp: ts,
                payload: self.listener.get_payload(offset),
            },
        )
    }

    /// Submits an order with an expiry time. It is refused when the engine
    /// is halted, when its id is not above every id seen so far, or when its
    /// sequence number does not advance; the id counts as seen from the
    /// second check on. It is then refused for a price the book does not take and for an
    /// expiry already reached; a stop order is parked; any other order is
    /// matched and what is left rests. Its trades trigger no parked order.
    /// The book refuses an order only for a reason it gives for the order's
    /// id; an order left resting can be found by its id. Where every
    /// resting order has quantity open, none has expired and every bid level
    /// is priced below every ask level, a limit order trades the smaller of
    /// its quantity and the opposite quantity that crosses its price.
    /// Where every resting order has quantity open, an order that is not
    /// filled leaves nothing on the opposite side that crosses its price, and
    /// when the book also prices a level at the order's own price, a book
    /// with every bid level below every ask level stays so.
    pub fn execute_submit_gtd(&mut self, decoder: &OrderSubmitGtdDecoder) -> (r: CommandOutcome<'_>)
        requires
            old(self).inv(),
            decoder.wf(),
            old(self).budget() + decoder.fields().quantity <= u64::MAX,
            old(self).trigger_slots() + 1 < NULL_NODE,
            decoder.fields().side == Side::buy || decoder.fields().side == Side::sell
                || submitted_gtd_order(decoder.fields()).spec_is_stop(),
        ensures
            final(self).inv(),
            final(self).executions().len() == old(self).executions().len() ==> final(self).last_price()
                == old(self).last_price(),
            final(self).executions().len() > old(self).executions().len() ==> final(self).last_price()
                == final(self).executions().last().price,
            final(self).trigger_slots() <= old(self).trigger_slots() + 1,
            old(self).events().counts_trades() ==> final(self).events().counts_trades()
                && final(self).events().told_trades() == old(self).events().told_trades() + final(self).executions().subrange(
                old(self).executions().len() as int,
                final(self).executions().len() as int,
            ),
            all_open(old(self).book().pool()) ==> all_open(final(self).book().pool()),
            final(self).budget() <= old(self).budget() + decoder.fields().quantity,
            uncrossed(old(self).book().levels()) && all_open(old(self).book().pool()) && old(self).book().level_price(
                decoder.fields().price,
            ) == decoder.fields().price ==> uncrossed(final(self).book().levels()),
            ({
                let f = decoder.fields();
                let o = submitted_gtd_order(f);
                if old(self).is_halted() {
                    &&& r == CommandOutcome::Rejected(CommandFailure::SystemHalted)
                    &&& *final(self) == *old(self)
                } else if f.order_id <= old(self).last_id() {
                    &&& r == CommandOutcome::Rejected(CommandFailure::DuplicateOrderId)
                    &&& *final(self) == *old(self)
                } else if f.sequence_number <= old(self).last_seq() {
                    &&& r == CommandOutcome::Rejected(CommandFailure::SequenceGap)
                    &&& final(self).unchanged_but_meta(old(self))
                    &&& final(self).last_id() == f.order_id
                    &&& final(self).last_seq() == old(self).last_seq()
                    &&& final(self).last_ts() == old(self).last_ts()
                } else {
                    &&& final(self).last_id() == f.order_id
                    &&& final(self).last_seq() == f.sequence_number
                    &&& final(self).last_ts() == f.timestamp
                    &&& !final(self).is_halted()
                    &&& !old(self).book().price_valid(f.price) ==> {
                        &&& r == CommandOutcome::Rejected(CommandFailure::InvalidPrice)
                        &&& final(self).unchanged_but_meta(old(self))
                    }
                    &&& old(self).book().price_valid(f.price) && o.spec_is_expired(f.timestamp) ==> {
                        &&& r == CommandOutcome::Rejected(CommandFailure::Expired)
                        &&& final(self).unchanged_but_meta(old(self))
                    }
                    &&& old(self).book().price_valid(f.price) && !o.spec_is_expired(f.timestamp)
                        && o.spec_is_stop() ==> {
                        &&& r matches CommandOutcome::Applied(rep) && rep.order_id.0 == f.order_id && rep.status
                            == OrderStatus::New && rep.timestamp.0 == f.timestamp && rep.payload@.len() == 0
                        &&& final(self).book() == old(self).book()
                        &&& final(self).executions() == old(self).executions()
                        &&& exists|s: usize|
                            !old(self).parked().contains_key(s) && final(self).parked() == old(self).parked().insert(
                                s,
                                o,
                            )
                    }
                    &&& old(self).book().price_valid(f.price) && !o.spec_is_expired(f.timestamp)
                        && !o.spec_is_stop() ==> {
                        &&& final(self).parked() == old(self).parked()
                        &&& old(self).executions().is_prefix_of(final(self).executions())
                        &&& fills_of(final(self).executions().subrange(old(self).executions().len() as int, final(self).executions().len() as int), o)
                        &&& makers_from(
                            final(self).executions().subrange(old(self).executions().len() as int, final(self).executions().len() as int),
                            old(self).book().pool(),
                        )
                        &&& best_first(final(self).executions().subrange(old(self).executions().len() as int, final(self).executions().len() as int), f.side)
                        &&& match r {
                            CommandOutcome::Applied(rep) => {
                                &&& rep.order_id.0 == f.order_id
                                &&& rep.timestamp.0 == f.timestamp
                                &&& rep.status == status_for(
                                    TimeInForce::gtd,
                                    f.quantity,
                                    fill_qty(final(self).executions().subrange(old(self).executions().len() as int, final(self).executions().len() as int)),
                                )
                                &&& all_open(old(self).book().pool()) ==> rep.status == OrderStatus::Filled || clear_of(
                                    final(self).book().levels(),
                                    f.side,
                                    f.order_type,
                                    f.price,
                                )
                                &&& rep.status != OrderStatus::Filled ==> final(self).book().ids().contains_key(f.order_id)
                                &&& all_open(old(self).book().pool()) && none_expired(old(self).book().pool(), f.timestamp)
                                    && limited(f.order_type) && uncrossed(old(self).book().levels()) ==> fill_qty(
                                    final(self).executions().subrange(old(self).executions().len() as int, final(self).executions().len() as int),
                                ) == (if f.quantity <= crossing_total(old(self).book().levels(), opposite(f.side), f.price) {
                                    f.quantity as int
                                } else {
                                    crossing_total(old(self).book().levels(), opposite(f.side), f.price)
                                })
                                &&& rep.status != OrderStatus::Filled ==> holds_data(
                                    final(self).book().pool(),
                                    after_fills(
                                        o,
                                        fill_qty(final(self).executions().subrange(old(self).executions().len() as int, final(self).executions().len() as int)),
                                    ),
                                )
                            },
                            CommandOutcome::Rejected(e) => {
                                ||| e == CommandFailure::PostOnlyViolation && is_post_only(o)
                                ||| book_refusal(e) && refuses_id(final(self).book(), f.order_id, e)
                            },
                        }
                    }
                }
            }),
    {
        if self.halted {
            return CommandOutcome::Rejected(CommandFailure::SystemHalted);
        }
        let order_id = OrderId(decoder.order_id());
        if order_id.0 <= self.last_order_id.0 {
            return CommandOutcome::Rejected(CommandFailure::DuplicateOrderId);
        }
        self.last_order_id = order_id;
        let seq = SequenceNumber(decoder.sequence_number());
        let ts = Timestamp(decoder.timestamp());
        if seq.0 <= self.last_sequence_number.0 {
            return CommandOutcome::Rejected(CommandFailure::SequenceGap);
        }
        self.last_sequence_number = seq;
        self.last_timestamp = ts;
        let mut taker_order = OrderData {
            remaining_qty: Quantity(decoder.quantity()),
            filled_qty: Quantity(0),
            price: Price(decoder.price()),
            side: decoder.side(),
            order_type: decoder.order_type(),
            flags: decoder.flags(),
            order_id: OrderId(decoder.order_id()),
            user_id: crate::types::UserId(decoder.user_id()),
            sequence_number: seq,
            timestamp: ts,
            expiry: Timestamp(decoder.expiry_time()),
            trigger_price: Price(0),
            visible_qty: Quantity(decoder.quantity()),
            peak_size: Quantity(decoder.quantity()),
        };
        proof {
            assert(taker_order == submitted_gtd_order(decoder.fields()));
        }
        if !self.backend.validate_price(taker_order.price) {
            return CommandOutcome::Rejected(CommandFailure::InvalidPrice);
        }
        if taker_order.is_expired(ts) {
            return CommandOutcome::Rejected(CommandFailure::Expired);
        }
        let mut offset: usize = 0;
        if taker_order.is_stop() {
            let ghost before = *self;
            self.cond_manager.register_condition_order(taker_order, self.ltp);
            proof {
                let s = choose|s: usize, n: u32|
                    {
                        &&& !before.cond_manager.store().contains_key(s)
                        &&& self.cond_manager.store() == before.cond_manager.store().insert(s, taker_order)
                        &&& self.cond_manager.pending() == before.cond_manager.pending().insert(taker_order.order_id.0, (s, n))
                        &&& !before.cond_manager.has_node(n)
                        &&& self.cond_manager.has_node(n)
                        &&& self.cond_manager.node(n).order_idx == s
                        &&& self.cond_manager.node(n).prev == NULL_NODE
                        &&& match condition::pool_of(taker_order.side, taker_order.trigger_price.0, before.ltp.0) {
                            Some(k) => {
                                &&& self.cond_manager.pool(k) == before.cond_manager.pool(k).insert(taker_order.trigger_price.0, n)
                                &&& forall|j: int| 0 <= j < 4 && j != k ==> #[trigger] self.cond_manager.pool(j) == before.cond_manager.pool(j)
                            },
                            None => forall|j: int| 0 <= j < 4 ==> #[trigger] self.cond_manager.pool(j) == before.cond_manager.pool(j),
                        }
                    };
                before.cond_manager.lemma_finite();
                book_laws::lemma_parked_insert(before.cond_manager.store(), s.0, taker_order);
                assert forall|k: usize| #[trigger] self.cond_manager.store().contains_key(k) implies incoming_ok(
                    self.cond_manager.store()[k],
                ) && self.backend.price_valid(self.cond_manager.store()[k].price.0) by {
                    if k != s.0 {
                        assert(before.cond_manager.store().contains_key(k));
                    }
                }
                assert(!old(self).parked().contains_key(s.0) && self.parked() == old(self).parked().insert(
                    s.0,
                    submitted_gtd_order(decoder.fields()),
                ));
            }
            return CommandOutcome::Applied(
                CommandReport { order_id: taker_order.order_id, status: OrderStatus::New, timestamp: ts, payload: &[] },
            );
        }
        let ghost xcond = uncrossed(old(self).backend.levels()) && all_open(old(self).backend.pool())
            && old(self).backend.level_price(decoder.fields().price) == decoder.fields().price;
        match self.match_order(&mut taker_order, ts, seq, &mut offset) {
            Ok(()) => {},
            Err(fail) => {
                proof {
                    if xcond {
                        lemma_uncrossed_kept(self.backend.levels(), old(self).backend.levels());
                    }
                }
                return CommandOutcome::Rejected(fail);
            },
        }
        let ghost mid_levels = self.backend.levels();
        proof {
            if xcond {
                lemma_uncrossed_kept(self.backend.levels(), old(self).backend.levels());
            }
            let f = decoder.fields();
            self.backend.lemma_wf();
            crate::book::lemma_level_sum_nonneg(
                self.backend.levels(),
                crate::book::crossing_keys(self.backend.levels(), opposite(f.side), f.price),
            );
            if all_open(old(self).backend.pool()) && none_expired(old(self).backend.pool(), f.timestamp) && limited(f.order_type)
                && uncrossed(old(self).backend.levels()) {
                let ct = crossing_total(old(self).backend.levels(), opposite(f.side), f.price);
                if taker_order.remaining_qty.0 > 0 {
                    assert(clear_of(mid_levels, f.side, f.order_type, f.price));
                    assert forall|l: B::LevelIdx| #[trigger] mid_levels.contains_key(l) implies !crosses_level(
                        mid_levels[l],
                        opposite(f.side),
                        f.price,
                    ) by {
                    }
                    crate::book::lemma_crossing_none(mid_levels, opposite(f.side), f.price);
                }
                assert(taker_order.filled_qty.0 == (if f.quantity <= ct { f.quantity as int } else { ct }));
            }
        }
        let final_status = if taker_order.is_fully_filled() {
            OrderStatus::Filled
        } else {
            let ghost before_pool = self.backend.pool();
            match self.add_resting_order(taker_order) {
                Ok(()) => {
                    proof {
                        if xcond {
                            lemma_uncrossed_rest(mid_levels, self.backend.levels(), taker_order.side, taker_order.order_type, taker_order.price.0);
                        }
                        let (i, l) = choose|i: B::OrderIdx, l: B::LevelIdx|
                            self.backend.pool() == before_pool.insert(i, RestingOrder { data: taker_order, level_idx: l });
                        assert(self.backend.pool().contains_key(i) && self.backend.pool()[i].data == taker_order);
                        assert(self.backend.ids().contains_key(taker_order.order_id.0));
                    }
                },
                Err(fail) => {
                    proof {
                        if xcond {
                            lemma_uncrossed_rest(mid_levels, self.backend.levels(), taker_order.side, taker_order.order_type, taker_order.price.0);
                        }
                    }
                    return CommandOutcome::Rejected(fail);
                },
            }
            if taker_order.filled_qty.0 > 0 {
                OrderStatus::PartiallyFilled
            } else {
                OrderStatus::New
            }
        };
        proof {
            let f = decoder.fields();
            if all_open(old(self).backend.pool()) && final_status != OrderStatus::Filled {
                assert(clear_of(mid_levels, f.side, f.order_type, f.price));
                let lv = self.backend.levels();
                if f.side == Side::buy {
                    assert forall|l: B::LevelIdx| #[trigger] lv.contains_key(l) && !lv[l].is_bid implies limited(f.order_type) && f.price < lv[l].price by {
                        assert(mid_levels.contains_key(l));
                    }
                }
                if f.side == Side::sell {
                    assert forall|l: B::LevelIdx| #[trigger] lv.contains_key(l) && lv[l].is_bid implies limited(f.order_type) && lv[l].price < f.price by {
                        assert(mid_levels.contains_key(l));
                    }
                }
            }
        }
        CommandOutcome::Applied(
            CommandReport {
                order_id: taker_order.order_id,
                status: final_status,
                timestamp: ts,
                payload: self.listener.get_payload(offset),
            },
        )
    }

    /// A system control command: a shutdown halts the engine, which then
    /// refuses every order command; other operations are refused. The
    /// sequence number must advance.
    pub fn execute_control(&mut self, decoder: &ControlMessageDecoder) -> (r: CommandOutcome<'_>)
        requires
            old(self).inv(),
            decoder.wf(),
        ensures
            final(self).inv(),
            final(self).trigger_slots() == old(self).trigger_slots(),
            final(self).budget() == old(self).budget(),
            ({
                let f = decoder.fields();
                if f.sequence_number <= old(self).last_seq() {
                    &&& r == CommandOutcome::Rejected(CommandFailure::SequenceGap)
                    &&& *final(self) == *old(self)
                } else {
                    &&& final(self).last_seq() == f.sequence_number
                    &&& final(self).last_ts() == f.timestamp
                    &&& final(self).last_id() == old(self).last_id()
                    &&& final(self).book() == old(self).book()
                    &&& final(self).parked() == old(self).parked()
                    &&& final(self).executions() == old(self).executions()
                    &&& if f.control_op == ControlOp::shutdown {
                        &&& final(self).is_halted()
                        &&& r matches CommandOutcome::Applied(rep) && rep.order_id.0 == 0 && rep.status
                            == OrderStatus::Cancelled && rep.timestamp.0 == f.timestamp && rep.payload@.len() == 0
                    } else {
                        &&& final(self).is_halted() == old(self).is_halted()
                        &&& r == CommandOutcome::Rejected(CommandFailure::InvalidOrder)
                    }
                }
            }),
    {
        let seq = SequenceNumber(decoder.sequence_number());
        let ts = Timestamp(decoder.timestamp());
        if seq.0 <= self.last_sequence_number.0 {
            return CommandOutcome::Rejected(CommandFailure::SequenceGap);
        }
        self.last_sequence_number = seq;
        self.last_timestamp = ts;
        match decoder.control_op() {
            ControlOp::shutdown => {
                self.halted = true;
                CommandOutcome::Applied(
                    CommandReport { order_id: OrderId(0), status: OrderStatus::Cancelled, timestamp: ts, payload: &[] },
                )
            },
            _ => CommandOutcome::Rejected(CommandFailure::InvalidOrder),
        }
    }

    /// Parked order of `id`, if one is pending under that id.
    pub closed spec fn parked_of(&self, id: u64) -> Option<usize> {
        if self.cond_manager.pending().contains_key(id) {
            Some(self.cond_manager.pending()[id].0)
        } else {
            None
        }
    }

    /// Cancels an order: a resting one leaves the book (and its level with
    /// it, when no other order is queued there), a parked one leaves the
    /// trigger pool. The engine must be running and the sequence number
    /// must advance; an id that is neither resting nor parked is refused.
    /// A book with every bid level below every ask level stays so.
    pub fn execute_cancel(&mut self, decoder: &OrderCancelDecoder) -> (r: CommandOutcome<'_>)
        requires
            old(self).inv(),
            decoder.wf(),
        ensures
            final(self).inv(),
            final(self).trigger_slots() == old(self).trigger_slots(),
            all_open(old(self).book().pool()) ==> all_open(final(self).book().pool()),
            final(self).budget() <= old(self).budget(),
            uncrossed(old(self).book().levels()) ==> uncrossed(final(self).book().levels()),
            ({
                let f = decoder.fields();
                if old(self).is_halted() {
                    &&& r == CommandOutcome::Rejected(CommandFailure::SystemHalted)
                    &&& *final(self) == *old(self)
                } else if f.sequence_number <= old(self).last_seq() {
                    &&& r == CommandOutcome::Rejected(CommandFailure::SequenceGap)
                    &&& *final(self) == *old(self)
                } else {
                    &&& final(self).last_seq() == f.sequence_number
                    &&& final(self).last_ts() == f.timestamp
                    &&& final(self).last_id() == old(self).last_id()
                    &&& !final(self).is_halted()
                    &&& final(self).executions() == old(self).executions()
                    &&& if old(self).book().ids().contains_key(f.order_id) {
                        &&& r matches CommandOutcome::Applied(rep) && rep.order_id.0 == f.order_id && rep.status
                            == OrderStatus::Cancelled && rep.timestamp.0 == f.timestamp && rep.payload@.len() == 0
                        &&& final(self).book().pool() == old(self).book().pool().remove(
                            old(self).book().ids()[f.order_id],
                        )
                        &&& final(self).parked() == old(self).parked()
                        &&& ({
                            let lv = old(self).book().pool()[old(self).book().ids()[f.order_id]].level_idx;
                            &&& forall|l: B::LevelIdx|
                                l != lv ==> (#[trigger] final(self).book().levels().contains_key(l) == old(self).book().levels().contains_key(l) && (old(self).book().levels().contains_key(l)
                                    ==> final(self).book().levels()[l] == old(self).book().levels()[l]))
                            &&& old(self).book().levels()[lv].queue.len() <= 1 ==> !final(self).book().levels().contains_key(lv)
                            &&& old(self).book().levels()[lv].queue.len() > 1 ==> final(self).book().levels().contains_key(lv)
                                && final(self).book().levels()[lv].queue.len() == old(self).book().levels()[lv].queue.len() - 1
                        })
                    } else if old(self).parked_of(f.order_id) is Some {
                        &&& r matches CommandOutcome::Applied(rep) && rep.order_id.0 == f.order_id && rep.status
                            == OrderStatus::Cancelled && rep.timestamp.0 == f.timestamp && rep.payload@.len() == 0
                        &&& final(self).book() == old(self).book()
                        &&& final(self).parked() == old(self).parked().remove(
                            old(self).parked_of(f.order_id)->Some_0,
                        )
                    } else {
                        &&& r == CommandOutcome::Rejected(CommandFailure::OrderNotFound)
                        &&& final(self).book() == old(self).book()
                        &&& final(self).parked() == old(self).parked()
                    }
                }
            }),
    {
        if self.halted {
            return CommandOutcome::Rejected(CommandFailure::SystemHalted);
        }
        let seq = SequenceNumber(decoder.sequence_number());
        let ts = Timestamp(decoder.timestamp());
        if seq.0 <= self.last_sequence_number.0 {
            return CommandOutcome::Rejected(CommandFailure::SequenceGap);
        }
        self.last_sequence_number = seq;
        self.last_timestamp = ts;
        let order_id = OrderId(decoder.order_id());
        proof {
            self.backend.lemma_wf();
        }
        match self.backend.get_order_idx_by_id(order_id) {
            Some(order_idx) => {
                let order_ref = self.backend.get_order(order_idx).unwrap();
                let level_idx = order_ref.level_idx;
                let ghost pool0 = self.backend.pool();
                let ghost lv0 = self.backend.levels();
                let ghost ids0 = self.backend.ids();
                self.backend.remove_from_level(level_idx, order_idx);
                proof {
                    book_laws::lemma_after_unqueue(pool0, lv0, ids0, self.backend.levels(), level_idx, order_idx);
                }
                self.backend.remove_order(order_idx);
                proof {
                    book_laws::lemma_after_remove(pool0, self.backend.levels(), order_idx);
                    crate::book::lemma_pool_qty_remove(pool0, order_idx);
                }
                let ghost lv1 = self.backend.levels();
                self.backend.remove_empty_level(level_idx);
                proof {
                    assert(lv0[level_idx].queue.contains(order_idx));
                    assert(lv1[level_idx].queue.len() == lv0[level_idx].queue.len() - 1);
                    if lv1[level_idx].queue.len() == 0 {
                        book_laws::lemma_after_drop_level(self.backend.pool(), lv1, level_idx);
                    }
                    if uncrossed(lv0) {
                        lemma_uncrossed_kept(self.backend.levels(), lv0);
                    }
                }
                CommandOutcome::Applied(
                    CommandReport { order_id, status: OrderStatus::Cancelled, timestamp: ts, payload: &[] },
                )
            },
            None => {
                let ghost before = *self;
                match self.cond_manager.remove_pending(order_id.0) {
                    Some((s_idx, node_idx)) => {
                        let ghost mid = *self;
                        proof {
                            before.cond_manager.lemma_finite();
                        }
                        match self.cond_manager.try_remove_order(s_idx) {
                            Some(order) => {
                                proof {
                                    book_laws::lemma_parked_remove(before.cond_manager.store(), s_idx);
                                }
                                self.cond_manager.unregister_condition_trigger(node_idx, &order, self.ltp);
                            },
                            None => {},
                        }
                        proof {
                            assert forall|k: usize| #[trigger] self.cond_manager.store().contains_key(k) implies incoming_ok(
                                self.cond_manager.store()[k],
                            ) && self.backend.price_valid(self.cond_manager.store()[k].price.0) by {
                                assert(before.cond_manager.store().contains_key(k));
                            }
                        }
                        CommandOutcome::Applied(
                            CommandReport { order_id, status: OrderStatus::Cancelled, timestamp: ts, payload: &[] },
                        )
                    },
                    None => CommandOutcome::Rejected(CommandFailure::OrderNotFound),
                }
            },
        }
    }

    /// The resting order an amendment of `f` acts on, if its id rests.
    pub closed spec fn amended(&self, f: OrderAmendFields) -> Option<OrderData> {
        if self.backend.ids().contains_key(f.order_id) {
            Some(self.backend.pool()[self.backend.ids()[f.order_id]].data)
        } else {
            None
        }
    }

    /// Whether the order an amendment of `f` acts on, if its id rests, sits
    /// at a level of its own side.
    pub closed spec fn amended_at_own_side(&self, f: OrderAmendFields) -> bool {
        self.backend.ids().contains_key(f.order_id) ==> {
            let r = self.backend.pool()[self.backend.ids()[f.order_id]];
            self.backend.levels()[r.level_idx].is_bid == (r.data.side == Side::buy)
        }
    }

    /// Whether the engine can carry out the amendment `f`: a re-priced order
    /// needs a price the book takes and filled plus new quantity within
    /// `u64`.
    pub closed spec fn amend_allowed(&self, f: OrderAmendFields) -> bool {
        match self.amended(f) {
            Some(cur) => if f.new_price == cur.price.0 && f.new_quantity <= cur.remaining_qty.0 {
                true
            } else {
                self.backend.price_valid(f.new_price) && cur.filled_qty.0 + f.new_quantity <= u64::MAX
            },
            None => true,
        }
    }

    /// Amends a resting order. Keeping the price without raising the
    /// quantity changes the quantity in place (the order keeps its time
    /// priority). Otherwise the order leaves the book and comes back as a
    /// new order at the new price and quantity: it is refused if it has
    /// expired (and stays out), it is matched, and what is left rests. A
    /// post-only order that would trade is refused and put back as it was;
    /// when the book refuses to store the moved order, it refuses the order
    /// as it was too, so the order stays out. Keeping the price with a new quantity of zero cancels the
    /// order. The engine must be running and the sequence number must
    /// advance. Where every resting order has quantity open, no order is parked, the
    /// book prices a level at the new price and the order sits at a level of
    /// its own side, a book with every bid level below every ask level stays
    /// so.
    #[verifier::spinoff_prover]
    #[verifier::rlimit(60)]
    pub fn execute_amend(&mut self, decoder: &OrderAmendDecoder) -> (r: CommandOutcome<'_>)
        requires
            old(self).inv(),
            decoder.wf(),
            old(self).budget() + decoder.fields().new_quantity <= u64::MAX,
            old(self).amend_allowed(decoder.fields()),
        ensures
            final(self).inv(),
            final(self).executions().len() == old(self).executions().len() ==> final(self).last_price()
                == old(self).last_price(),
            final(self).executions().len() > old(self).executions().len() ==> final(self).last_price()
                == final(self).executions().last().price,
            final(self).trigger_slots() == old(self).trigger_slots(),
            old(self).events().counts_trades() ==> final(self).events().counts_trades()
                && final(self).events().told_trades() == old(self).events().told_trades() + final(self).executions().subrange(
                old(self).executions().len() as int,
                final(self).executions().len() as int,
            ),
            all_open(old(self).book().pool()) ==> all_open(final(self).book().pool()),
            final(self).budget() <= old(self).budget() + decoder.fields().new_quantity,
            uncrossed(old(self).book().levels()) && all_open(old(self).book().pool()) && old(self).parked() == Map::<
                usize,
                OrderData,
            >::empty() && old(self).book().level_price(decoder.fields().new_price) == decoder.fields().new_price
                && old(self).amended_at_own_side(decoder.fields()) ==> uncrossed(final(self).book().levels()),
            ({
                let f = decoder.fields();
                if old(self).is_halted() {
                    &&& r == CommandOutcome::Rejected(CommandFailure::SystemHalted)
                    &&& *final(self) == *old(self)
                } else if f.sequence_number <= old(self).last_seq() {
                    &&& r == CommandOutcome::Rejected(CommandFailure::SequenceGap)
                    &&& *final(self) == *old(self)
                } else {
                    &&& final(self).last_seq() == f.sequence_number
                    &&& final(self).last_ts() == f.timestamp
                    &&& final(self).last_id() == old(self).last_id()
                    &&& !final(self).is_halted()
                    &&& match old(self).amended(f) {
                        None => {
                            &&& r == CommandOutcome::Rejected(CommandFailure::OrderNotFound)
                            &&& final(self).unchanged_but_meta(old(self))
                        },
                        Some(cur) => {
                            let i = old(self).book().ids()[f.order_id];
                            if f.new_price == cur.price.0 && f.new_quantity == 0 {
                                &&& r matches CommandOutcome::Applied(rep) && rep.order_id.0 == f.order_id
                                    && rep.status == OrderStatus::Cancelled && rep.timestamp.0 == f.timestamp
                                    && rep.payload@.len() == 0
                                &&& final(self).book().pool() == old(self).book().pool().remove(i)
                                &&& final(self).parked() == old(self).parked()
                                &&& final(self).executions() == old(self).executions()
                            } else if f.new_price == cur.price.0 && f.new_quantity <= cur.remaining_qty.0 {
                                &&& r matches CommandOutcome::Applied(rep) && rep.order_id.0 == f.order_id
                                    && rep.status == OrderStatus::New && rep.timestamp.0 == f.timestamp
                                    && rep.payload@.len() == 0
                                &&& final(self).book().pool() == old(self).book().pool().insert(
                                    i,
                                    RestingOrder {
                                        data: OrderData {
                                            remaining_qty: Quantity(f.new_quantity),
                                            visible_qty: Quantity(
                                                if cur.visible_qty.0 <= f.new_quantity {
                                                    cur.visible_qty.0
                                                } else {
                                                    f.new_quantity
                                                },
                                            ),
                                            ..cur
                                        },
                                        ..old(self).book().pool()[i]
                                    },
                                )
                                &&& final(self).book().ids() == old(self).book().ids()
                                &&& final(self).parked() == old(self).parked()
                                &&& final(self).executions() == old(self).executions()
                            } else if cur.spec_is_expired(f.timestamp) {
                                &&& r == CommandOutcome::Rejected(CommandFailure::Expired)
                                &&& final(self).book().pool() == old(self).book().pool().remove(i)
                                &&& final(self).parked() == old(self).parked()
                                &&& final(self).executions() == old(self).executions()
                            } else {
                                let moved = OrderData {
                                    price: Price(f.new_price),
                                    remaining_qty: Quantity(f.new_quantity),
                                    ..cur
                                };
                                match r {
                                    CommandOutcome::Applied(rep) => {
                                        &&& rep.order_id.0 == f.order_id
                                        &&& rep.timestamp.0 == f.timestamp
                                        &&& exists|k: int|
                                            #![trigger final(self).executions().subrange(old(self).executions().len() as int, k)]
                                            {
                                                &&& old(self).executions().len() <= k <= final(self).executions().len()
                                                &&& fills_of(final(self).executions().subrange(old(self).executions().len() as int, k), moved)
                                                &&& makers_from(
                                                    final(self).executions().subrange(old(self).executions().len() as int, k),
                                                    old(self).book().pool(),
                                                )
                                                &&& best_first(final(self).executions().subrange(old(self).executions().len() as int, k), cur.side)
                                                &&& rep.status == amend_status(
                                                    f.new_quantity,
                                                    cur.filled_qty.0,
                                                    fill_qty(final(self).executions().subrange(old(self).executions().len() as int, k)),
                                                )
                                                &&& old(self).parked() == Map::<usize, OrderData>::empty() && rep.status
                                                    != OrderStatus::Filled ==> final(self).book().ids().contains_key(f.order_id)
                                                &&& old(self).parked() == Map::<usize, OrderData>::empty() && rep.status
                                                    != OrderStatus::Filled ==> holds_data(
                                                    final(self).book().pool(),
                                                    after_fills(
                                                        moved,
                                                        fill_qty(final(self).executions().subrange(old(self).executions().len() as int, k)),
                                                    ),
                                                )
                                            }
                                    },
                                    CommandOutcome::Rejected(e) => {
                                        ||| e == CommandFailure::PostOnlyViolation && is_post_only(cur) && holds_data(
                                            final(self).book().pool(),
                                            cur,
                                        )
                                        ||| book_refusal(e) && refuses_id(final(self).book(), f.order_id, e)
                                    },
                                }
                            }
                        },
                    }
                }
            }),
    {
        if self.halted {
            return CommandOutcome::Rejected(CommandFailure::SystemHalted);
        }
        let seq = SequenceNumber(decoder.sequence_number());
        let ts = Timestamp(decoder.timestamp());
        if seq.0 <= self.last_sequence_number.0 {
            return CommandOutcome::Rejected(CommandFailure::SequenceGap);
        }
        self.last_sequence_number = seq;
        self.last_timestamp = ts;
        let order_id = OrderId(decoder.order_id());
        let new_price = Price(decoder.new_price());
        let new_qty = Quantity(decoder.new_quantity());
        proof {
            self.backend.lemma_wf();
            self.cond_manager.lemma_finite();
            book_laws::lemma_qty_nonneg(self.backend.pool(), self.cond_manager.store());
        }
        let order_idx = match self.backend.get_order_idx_by_id(order_id) {
            Some(i) => i,
            None => {
                return CommandOutcome::Rejected(CommandFailure::OrderNotFound);
            },
        };
        let current_order = *self.backend.get_order(order_idx).unwrap();
        let ghost xc = uncrossed(old(self).backend.levels()) && all_open(old(self).backend.pool())
            && old(self).parked() == Map::<usize, OrderData>::empty() && old(self).backend.level_price(
            decoder.fields().new_price,
        ) == decoder.fields().new_price && old(self).amended_at_own_side(decoder.fields());
        if new_price.0 == current_order.data.price.0 && new_qty.0 == 0 {
            let level_idx = current_order.level_idx;
            let ghost pool0 = self.backend.pool();
            let ghost lv0 = self.backend.levels();
            let ghost ids0 = self.backend.ids();
            self.backend.remove_from_level(level_idx, order_idx);
            proof {
                book_laws::lemma_after_unqueue(pool0, lv0, ids0, self.backend.levels(), level_idx, order_idx);
            }
            self.backend.remove_order(order_idx);
            proof {
                book_laws::lemma_after_remove(pool0, self.backend.levels(), order_idx);
                crate::book::lemma_pool_qty_remove(pool0, order_idx);
            }
            let ghost lv1 = self.backend.levels();
            self.backend.remove_empty_level(level_idx);
            proof {
                if lv1[level_idx].queue.len() == 0 {
                    book_laws::lemma_after_drop_level(self.backend.pool(), lv1, level_idx);
                }
                assert forall|j: B::OrderIdx| #[trigger] self.backend.pool().contains_key(j) implies self.backend.price_valid(
                    self.backend.pool()[j].data.price.0,
                ) by {
                    assert(pool0.contains_key(j));
                }
                if xc {
                    lemma_uncrossed_kept(self.backend.levels(), lv0);
                }
            }
            return CommandOutcome::Applied(
                CommandReport { order_id, status: OrderStatus::Cancelled, timestamp: ts, payload: &[] },
            );
        }
        if new_price.0 == current_order.data.price.0 && new_qty.0 <= current_order.data.remaining_qty.0 {
            let ghost pool0 = self.backend.pool();
            let ghost lv0 = self.backend.levels();
            proof {
                assert(pool0.contains_key(order_idx));
                crate::book::lemma_keys_qty_remove(pool0, pool0.dom(), order_idx);
                crate::book::lemma_keys_qty_nonneg(pool0, pool0.dom().remove(order_idx));
            }
            self.backend.modify_order_qty(order_idx, new_qty);
            proof {
                let p1 = self.backend.pool();
                let lv1 = self.backend.levels();
                crate::book::lemma_pool_qty_update(pool0, order_idx, p1[order_idx]);
                assert forall|j: B::OrderIdx| #[trigger] p1.contains_key(j) && None::<B::OrderIdx> != Some(j) implies order_ok(p1[j].data)
                    && lv1.contains_key(p1[j].level_idx) && lv1[p1[j].level_idx].queue.contains(j) by {
                    assert(pool0.contains_key(j));
                    assert(lv0[pool0[j].level_idx].queue.contains(j));
                }
                assert forall|j: B::OrderIdx| #[trigger] p1.contains_key(j) implies self.backend.price_valid(p1[j].data.price.0) by {
                    assert(pool0.contains_key(j));
                }
                if xc {
                    lemma_uncrossed_kept(lv1, lv0);
                }
            }
            return CommandOutcome::Applied(
                CommandReport { order_id, status: OrderStatus::New, timestamp: ts, payload: &[] },
            );
        }
        let old_level_idx = current_order.level_idx;
        let old_data = current_order.data;
        let ghost pool0 = self.backend.pool();
        let ghost lv0 = self.backend.levels();
        let ghost ids0 = self.backend.ids();
        self.backend.remove_from_level(old_level_idx, order_idx);
        proof {
            book_laws::lemma_after_unqueue(pool0, lv0, ids0, self.backend.levels(), old_level_idx, order_idx);
        }
        let mut order = self.backend.remove_order(order_idx).unwrap();
        proof {
            book_laws::lemma_after_remove(pool0, self.backend.levels(), order_idx);
            crate::book::lemma_pool_qty_remove(pool0, order_idx);
            assert(refusal_of(self.backend, old_data) is None);
        }
        let ghost lv1 = self.backend.levels();
        let ghost bk1 = self.backend;
        self.backend.remove_empty_level(old_level_idx);
        proof {
            assert(refusal_of(self.backend, old_data) == refusal_of(bk1, old_data));
        }
        proof {
            if lv1[old_level_idx].queue.len() == 0 {
                book_laws::lemma_after_drop_level(self.backend.pool(), lv1, old_level_idx);
            }
            assert forall|j: B::OrderIdx| #[trigger] self.backend.pool().contains_key(j) implies self.backend.price_valid(
                self.backend.pool()[j].data.price.0,
            ) by {
                assert(pool0.contains_key(j));
            }
        }
        let original_ltp = self.ltp;
        order.data.price = new_price;
        order.data.remaining_qty = new_qty;
        let ghost lv2 = self.backend.levels();
        proof {
            if xc {
                lemma_uncrossed_kept(lv2, lv0);
                assert(old_data.side == Side::buy || old_data.side == Side::sell);
                assert(level_side(lv0[old_level_idx]) == old_data.side);
                assert(lv0[old_level_idx].price == old(self).backend.level_price(old_data.price.0));
            }
        }
        if order.data.is_expired(ts) {
            return CommandOutcome::Rejected(CommandFailure::Expired);
        }
        let mut offset: usize = 0;
        let ghost before_match = *self;
        match self.match_order(&mut order.data, ts, seq, &mut offset) {
            Ok(()) => {},
            Err(fail) => {
                let ghost lv3 = self.backend.levels();
                let ghost pool3 = self.backend.pool();
                proof {
                    assert(self.backend == before_match.backend);
                    assert(refusal_of(self.backend, old_data) is None);
                }
                let back = self.add_resting_order(old_data);
                proof {
                    assert(back is Ok);
                    let (i, l) = choose|i: B::OrderIdx, l: B::LevelIdx|
                        self.backend.pool() == pool3.insert(i, RestingOrder { data: old_data, level_idx: l });
                    assert(self.backend.pool().contains_key(i) && self.backend.pool()[i].data == old_data);
                    if xc {
                        lemma_uncrossed_kept(lv3, lv0);
                        lemma_level_side_clear(lv0, lv3, old_level_idx);
                        lemma_uncrossed_join(lv3, self.backend.levels(), old_data.side);
                    }
                }
                return CommandOutcome::Rejected(fail);
            },
        }
        let ghost mid_levels = self.backend.levels();
        proof {
            if xc {
                lemma_uncrossed_kept(mid_levels, lv0);
                lemma_level_side_clear(lv0, mid_levels, old_level_idx);
            }
        }
        let ghost own_end = self.fills@.len() as int;
        let ghost mid_fills = self.fills@;
        let ghost mine = self.fills@.subrange(before_match.fills@.len() as int, own_end);
        let final_status = if order.data.is_fully_filled() {
            OrderStatus::Filled
        } else {
            let ghost before_pool = self.backend.pool();
            match self.add_resting_order(order.data) {
                Ok(()) => {
                    proof {
                        if xc {
                            lemma_uncrossed_join(mid_levels, self.backend.levels(), old_data.side);
                        }
                        let (i, l) = choose|i: B::OrderIdx, l: B::LevelIdx|
                            self.backend.pool() == before_pool.insert(i, RestingOrder { data: order.data, level_idx: l });
                        assert(self.backend.pool().contains_key(i) && self.backend.pool()[i].data == order.data);
                        assert(self.backend.ids().contains_key(order.data.order_id.0));
                    }
                },
                Err(fail) => {
                    let ghost lv4 = self.backend.levels();
                    let ghost bk4 = self.backend;
                    proof {
                        let anyl = vstd::pervasive::arbitrary::<B::LevelIdx>();
                        bk4.lemma_insert_failure_by_id(
                            RestingOrder { data: order.data, level_idx: anyl },
                            RestingOrder { data: old_data, level_idx: anyl },
                        );
                        assert(refusal_of(bk4, old_data) == Some(fail));
                    }
                    let back = self.add_resting_order(old_data);
                    proof {
                        assert(back == Err::<(), CommandFailure>(fail));
                        lemma_refuses(self.backend, old_data, fail);
                        if xc {
                            let fin = self.backend.levels();
                            assert forall|l: B::LevelIdx| #[trigger] fin.contains_key(l) implies (mid_levels.contains_key(l)
                                && fin[l].price == mid_levels[l].price && fin[l].is_bid == mid_levels[l].is_bid) || (fin[l].is_bid
                                == (old_data.side == Side::buy) && side_clear(mid_levels, old_data.side, fin[l].price)) by {
                                if lv4.contains_key(l) && fin[l].price == lv4[l].price && fin[l].is_bid == lv4[l].is_bid {
                                }
                            }
                            lemma_uncrossed_join(mid_levels, fin, old_data.side);
                        }
                    }
                    return CommandOutcome::Rejected(fail);
                },
            }
            if order.data.filled_qty.0 > 0 {
                OrderStatus::PartiallyFilled
            } else {
                OrderStatus::New
            }
        };
        if self.ltp.0 != original_ltp.0 {
            self.process_triggered_orders(ts, seq, &mut offset);
        }
        proof {
            assert(mine =~= self.fills@.subrange(before_match.fills@.len() as int, own_end)) by {
                let a = before_match.fills@.len() as int;
                assert forall|j: int| 0 <= j < own_end - a implies mine[j] == self.fills@[a + j] by {
                    assert(mid_fills[a + j] == self.fills@[a + j]);
                }
            }
            assert(old(self).executions() == before_match.fills@);
            let f = decoder.fields();
            let cur = old(self).amended(f)->Some_0;
            assert(current_order.data == cur);
            assert(old(self).executions().len() <= own_end <= self.executions().len());
            assert(best_first(self.executions().subrange(old(self).executions().len() as int, own_end), cur.side));
            assert(fills_of(self.executions().subrange(old(self).executions().len() as int, own_end), OrderData {
                price: Price(f.new_price),
                remaining_qty: Quantity(f.new_quantity),
                ..cur
            }));
            assert(final_status == amend_status(f.new_quantity, cur.filled_qty.0, fill_qty(
                self.executions().subrange(old(self).executions().len() as int, own_end),
            )));
            assert(order.data == after_fills(OrderData {
                price: Price(f.new_price),
                remaining_qty: Quantity(f.new_quantity),
                ..cur
            }, fill_qty(self.executions().subrange(old(self).executions().len() as int, own_end))));
        }
        CommandOutcome::Applied(
            CommandReport {
                order_id,
                status: final_status,
                timestamp: ts,
                payload: self.listener.get_payload(offset),
            },
        )
    }

    /// Activates the parked orders that the last trade price has reached:
    /// each is matched and what is left of it rests (an expired one is
    /// dropped). Activation repeats while it moves the last trade price, at
    /// most ten rounds; what a further round would trigger stays parked.
    fn process_triggered_orders(&mut self, ts: Timestamp, seq: SequenceNumber, offset: &mut usize)
        requires
            old(self).inv(),
            old(self).budget() <= u64::MAX,
            *old(offset) <= old(self).listener.payload_capacity(),
        ensures
            final(self).inv(),
            final(self).cond_manager.slots() == old(self).cond_manager.slots(),
            old(self).listener.counts_trades() ==> final(self).listener.counts_trades()
                && final(self).listener.told_trades() == old(self).listener.told_trades() + final(self).fills@.subrange(
                old(self).fills@.len() as int,
                final(self).fills@.len() as int,
            ),
            all_open(old(self).book().pool()) ==> all_open(final(self).book().pool()),
            final(self).budget() <= old(self).budget(),
            *final(offset) <= final(self).listener.payload_capacity(),
            final(self).last_sequence_number == old(self).last_sequence_number,
            final(self).last_timestamp == old(self).last_timestamp,
            final(self).last_order_id == old(self).last_order_id,
            final(self).halted == old(self).halted,
            final(self).listener.payload_capacity() == old(self).listener.payload_capacity(),
            final(self).trade_id_seq >= old(self).trade_id_seq,
            old(self).fills@.is_prefix_of(final(self).fills@),
            forall|p: u64| #[trigger] final(self).backend.price_valid(p) == old(self).backend.price_valid(p),
            old(self).cond_manager.store() == Map::<usize, OrderData>::empty() ==> final(self).backend
                == old(self).backend,
            final(self).cond_manager.store().submap_of(old(self).cond_manager.store()),
            takers_from(
                final(self).fills@.subrange(old(self).fills@.len() as int, final(self).fills@.len() as int),
                old(self).cond_manager.store(),
            ),
            final(self).fills@.len() == old(self).fills@.len() ==> final(self).ltp == old(self).ltp,
            final(self).fills@.len() > old(self).fills@.len() ==> final(self).ltp.0 == final(self).fills@.last().price,
            forall|k: int, p: u64|
                0 <= k < 4 && #[trigger] final(self).cond_manager.pool(k).contains_key(p) ==> old(
                    self,
                ).cond_manager.pool(k).contains_key(p) && final(self).cond_manager.pool(k)[p] == old(
                    self,
                ).cond_manager.pool(k)[p] && !condition::fires(k, p, old(self).ltp.0),
    {
        let ghost o = *old(self);
        let mut depth: u32 = 0;
        loop
            invariant
                o == *old(self),
                self.inv(),
                self.budget() <= o.budget(),
                o.budget() <= u64::MAX,
                *offset <= self.listener.payload_capacity(),
                self.last_sequence_number == o.last_sequence_number,
                self.last_timestamp == o.last_timestamp,
                self.last_order_id == o.last_order_id,
                self.halted == o.halted,
                self.listener.payload_capacity() == o.listener.payload_capacity(),
                self.trade_id_seq >= o.trade_id_seq,
                o.fills@.is_prefix_of(self.fills@),
                forall|p: u64| #[trigger] self.backend.price_valid(p) == o.backend.price_valid(p),
                o.cond_manager.store() == Map::<usize, OrderData>::empty() ==> self.backend == o.backend
                    && self.cond_manager.store() == o.cond_manager.store(),
                depth <= 10,
                self.cond_manager.slots() == o.cond_manager.slots(),
                depth == 0 ==> self.ltp == o.ltp,
                o.listener.counts_trades() ==> self.listener.counts_trades() && self.listener.told_trades()
                    == o.listener.told_trades() + self.fills@.subrange(o.fills@.len() as int, self.fills@.len() as int),
                all_open(o.backend.pool()) ==> all_open(self.backend.pool()),
                self.cond_manager.store().submap_of(o.cond_manager.store()),
                takers_from(self.fills@.subrange(o.fills@.len() as int, self.fills@.len() as int), o.cond_manager.store()),
                self.fills@.len() == o.fills@.len() ==> self.ltp == o.ltp,
                self.fills@.len() > o.fills@.len() ==> self.ltp.0 == self.fills@.last().price,
                forall|k: int, p: u64|
                    0 <= k < 4 && #[trigger] self.cond_manager.pool(k).contains_key(p) ==> o.cond_manager.pool(
                        k,
                    ).contains_key(p) && self.cond_manager.pool(k)[p] == o.cond_manager.pool(k)[p] && (depth > 0
                        ==> !condition::fires(k, p, o.ltp.0)),
            ensures
                depth > 0,
            decreases 10 - depth,
        {
            if depth >= 10 {
                break;
            }
            depth = depth + 1;
            let initial_ltp = self.ltp;
            let ghost before_collect = *self;
            self.cond_manager.collect_triggered_indices(self.ltp);
            proof {
                assert forall|s: usize| #[trigger] self.cond_manager.store().contains_key(s) implies incoming_ok(
                    self.cond_manager.store()[s],
                ) && self.backend.price_valid(self.cond_manager.store()[s].price.0) by {
                    assert(before_collect.cond_manager.store().contains_key(s));
                }
            }
            let n = self.cond_manager.triggered_len();
            if n == 0 {
                proof {
                    self.cond_manager.lemma_linked_when_worked_off();
                }
                break;
            }
            let mut i: usize = 0;
            while i < n
                invariant
                    o == *old(self),
                    self.core_inv(),
                    n == self.cond_manager.triggered().len(),
                    i <= n,
                    forall|j: int|
                        0 <= j < i ==> !self.cond_manager.store().contains_key(
                            #[trigger] self.cond_manager.triggered()[j],
                        ),
                    self.budget() <= o.budget(),
                    o.budget() <= u64::MAX,
                    *offset <= self.listener.payload_capacity(),
                    self.last_sequence_number == o.last_sequence_number,
                    self.last_timestamp == o.last_timestamp,
                    self.last_order_id == o.last_order_id,
                    self.halted == o.halted,
                    self.listener.payload_capacity() == o.listener.payload_capacity(),
                    self.trade_id_seq >= o.trade_id_seq,
                    o.fills@.is_prefix_of(self.fills@),
                    forall|p: u64| #[trigger] self.backend.price_valid(p) == o.backend.price_valid(p),
                    o.cond_manager.store() == Map::<usize, OrderData>::empty() ==> self.backend == o.backend
                        && self.cond_manager.store() == o.cond_manager.store(),
                    self.cond_manager.store().submap_of(o.cond_manager.store()),
                    self.cond_manager.slots() == o.cond_manager.slots(),
                    takers_from(self.fills@.subrange(o.fills@.len() as int, self.fills@.len() as int), o.cond_manager.store()),
                    all_open(o.backend.pool()) ==> all_open(self.backend.pool()),
                    o.listener.counts_trades() ==> self.listener.counts_trades() && self.listener.told_trades()
                        == o.listener.told_trades() + self.fills@.subrange(o.fills@.len() as int, self.fills@.len() as int),
                    self.fills@.len() == o.fills@.len() ==> self.ltp == o.ltp,
                    self.fills@.len() > o.fills@.len() ==> self.ltp.0 == self.fills@.last().price,
                    forall|k: int, p: u64|
                        0 <= k < 4 && #[trigger] self.cond_manager.pool(k).contains_key(p) ==> o.cond_manager.pool(
                            k,
                        ).contains_key(p) && self.cond_manager.pool(k)[p] == o.cond_manager.pool(k)[p]
                            && !condition::fires(k, p, o.ltp.0),
                decreases n - i,
            {
                let s_idx = self.cond_manager.triggered_at(i);
                let ghost before_take = *self;
                proof {
                    self.cond_manager.lemma_finite();
                }
                match self.cond_manager.take_triggered(s_idx) {
                    Some(triggered_order) => {
                        let mut triggered_order = triggered_order;
                        proof {
                            book_laws::lemma_parked_remove(before_take.cond_manager.store(), s_idx);
                            assert(incoming_ok(triggered_order));
                            assert forall|s: usize| #[trigger] self.cond_manager.store().contains_key(s) implies incoming_ok(
                                self.cond_manager.store()[s],
                            ) && self.backend.price_valid(self.cond_manager.store()[s].price.0) by {
                                assert(before_take.cond_manager.store().contains_key(s));
                            }
                            assert forall|j: int| 0 <= j < i + 1 implies !self.cond_manager.store().contains_key(
                                #[trigger] self.cond_manager.triggered()[j],
                            ) by {
                                if j < i {
                                    assert(!before_take.cond_manager.store().contains_key(before_take.cond_manager.triggered()[j]));
                                }
                            }
                        }
                        if triggered_order.is_expired(ts) {
                            i = i + 1;
                            continue;
                        }
                        proof {
                            assert(self.budget() == before_take.budget() - triggered_order.remaining_qty.0);
                        }
                        let ghost before_match = *self;
                        let ghost tor = triggered_order;
                        let _ = self.match_order(&mut triggered_order, ts, seq, offset);
                        proof {
                            lemma_prefix_trans(o.fills@, before_match.fills@, self.fills@);
                            let n0 = o.fills@.len() as int;
                            let n1 = before_match.fills@.len() as int;
                            let all = self.fills@.subrange(n0, self.fills@.len() as int);
                            let old_part = before_match.fills@.subrange(n0, n1);
                            let new_part = self.fills@.subrange(n1, self.fills@.len() as int);
                            assert(before_take.cond_manager.store().contains_key(s_idx));
                            assert(before_take.cond_manager.store().submap_of(o.cond_manager.store()));
                            assert(before_take.cond_manager.store()[s_idx] == tor);
                            assert(before_take.cond_manager.store().dom().contains(s_idx));
                            assert(o.cond_manager.store().dom().contains(s_idx));
                            assert(o.cond_manager.store()[s_idx] == before_take.cond_manager.store()[s_idx]);
                            assert(o.cond_manager.store().contains_key(s_idx) && o.cond_manager.store()[s_idx].order_id
                                == tor.order_id);
                            assert forall|j: int| 0 <= j < all.len() implies exists|s: usize|
                                o.cond_manager.store().contains_key(s) && o.cond_manager.store()[s].order_id.0
                                    == #[trigger] all[j].taker_order_id by {
                                if j < n1 - n0 {
                                    assert(all[j] == old_part[j]);
                                } else {
                                    assert(all[j] == new_part[j - (n1 - n0)]);
                                }
                            }
                            assert(self.budget() + triggered_order.remaining_qty.0 <= before_take.budget());
                            assert(before_take.budget() <= o.budget());
                        }
                        let ghost before_rest = *self;
                        if !triggered_order.is_fully_filled() {
                            match triggered_order.side {
                                // only buys and sells enter a trigger map
                                Side::buy | Side::sell => {
                                    let _ = self.add_resting_order(triggered_order);
                                },
                                _ => {},
                            }
                        }
                        proof {
                            assert(self.budget() <= before_rest.budget() + triggered_order.remaining_qty.0);
                        }
                    },
                    None => {
                        proof {
                            assert(self.cond_manager.store() =~= before_take.cond_manager.store());
                            assert forall|j: int| 0 <= j < i + 1 implies !self.cond_manager.store().contains_key(
                                #[trigger] self.cond_manager.triggered()[j],
                            ) by {
                            }
                        }
                    },
                }
                i = i + 1;
            }
            proof {
                self.cond_manager.lemma_linked_when_worked_off();
            }
            if self.ltp.0 == initial_ltp.0 {
                break;
            }
        }
    }

    /// Rests `order_data` at the back of the level for its price and side.
    fn add_resting_order(&mut self, order_data: OrderData) -> (r: Result<(), CommandFailure>)
        requires
            old(self).core_inv(),
            order_ok(order_data),
            old(self).book().price_valid(order_data.price.0),
            old(self).budget() + order_data.remaining_qty.0 <= u64::MAX,
        ensures
            final(self).core_inv(),
            final(self).same_state_but_book(old(self)),
            final(self).trade_id_seq == old(self).trade_id_seq,
            final(self).ltp == old(self).ltp,
            final(self).listener == old(self).listener,
            final(self).fills == old(self).fills,
            final(self).backend.ids().dom().subset_of(old(self).backend.ids().dom().insert(order_data.order_id.0)),
            forall|l: B::LevelIdx| #[trigger]
                final(self).backend.levels().contains_key(l) ==> (old(self).backend.levels().contains_key(l)
                    && final(self).backend.levels()[l].price == old(self).backend.levels()[l].price
                    && final(self).backend.levels()[l].is_bid == old(self).backend.levels()[l].is_bid)
                    || (final(self).backend.levels()[l].is_bid == (order_data.side == Side::buy)
                    && final(self).backend.levels()[l].price == old(self).backend.level_price(order_data.price.0)),
            r is Ok <==> refusal_of(old(self).backend, order_data) is None,
            forall|p: u64| #[trigger] final(self).backend.level_price(p) == old(self).backend.level_price(p),
            all_open(old(self).backend.pool()) && order_data.remaining_qty.0 > 0 ==> all_open(
                final(self).backend.pool(),
            ),
            match r {
                Ok(()) => {
                    &&& final(self).budget() == old(self).budget() + order_data.remaining_qty.0
                    &&& exists|i: B::OrderIdx, l: B::LevelIdx|
                        {
                            &&& !old(self).backend.pool().contains_key(i)
                            &&& final(self).backend.pool() == old(self).backend.pool().insert(
                                i,
                                RestingOrder { data: order_data, level_idx: l },
                            )
                            &&& final(self).backend.levels().contains_key(l)
                            &&& final(self).backend.levels()[l].price == old(self).backend.level_price(order_data.price.0)
                            &&& final(self).backend.levels()[l].queue.last() == i
                            &&& final(self).backend.ids() == old(self).backend.ids().insert(order_data.order_id.0, i)
                        }
                },
                Err(e) => {
                    &&& final(self).budget() == old(self).budget()
                    &&& final(self).backend.pool() == old(self).backend.pool()
                    &&& final(self).backend.ids() == old(self).backend.ids()
                    &&& book_refusal(e)
                    &&& refusal_of(old(self).backend, order_data) == Some(e)
                    &&& refusal_of(final(self).backend, order_data) == Some(e)
                    &&& refuses_id(final(self).backend, order_data.order_id.0, e)
                },
            },
    {
        proof {
            self.backend.lemma_wf();
        }
        let ghost b0 = self.backend;
        let level_idx = self.backend.get_or_create_level(order_data.side, order_data.price);
        proof {
            let anyl = vstd::pervasive::arbitrary::<B::LevelIdx>();
            let ro = RestingOrder { data: order_data, level_idx: anyl };
            assert(self.backend.insert_failure(ro) == b0.insert_failure(ro));
            self.backend.lemma_insert_failure_by_id(ro, RestingOrder { data: order_data, level_idx });
            assert(self.backend.insert_failure(RestingOrder { data: order_data, level_idx }) == refusal_of(b0, order_data));
            book_laws::lemma_resting_grow(
                old(self).backend.pool(),
                old(self).backend.levels(),
                self.backend.levels(),
                None,
            );
            self.backend.lemma_wf();
        }
        let ghost mid = self.backend.pool();
        proof {
            self.backend.lemma_insert_failure_kinds(RestingOrder { data: order_data, level_idx });
        }
        let order_idx = match self.backend.insert_order(RestingOrder::new(order_data, level_idx)) {
            Ok(i) => i,
            Err(e) => {
                proof {
                    assert(self.backend.insert_failure(RestingOrder { data: order_data, level_idx }) == Some(e));
                    self.backend.lemma_insert_failure_by_id(
                        RestingOrder { data: order_data, level_idx },
                        RestingOrder { data: order_data, level_idx: vstd::pervasive::arbitrary::<B::LevelIdx>() },
                    );
                    lemma_refuses(self.backend, order_data, e);
                }
                return Err(e);
            },
        };
        proof {
            crate::book::lemma_pool_qty_insert(mid, order_idx, RestingOrder { data: order_data, level_idx });
            let p1 = self.backend.pool();
            assert forall|i: B::OrderIdx| #[trigger] p1.contains_key(i) && Some(order_idx) != Some(i) implies order_ok(p1[i].data)
                && self.backend.levels().contains_key(p1[i].level_idx) && self.backend.levels()[p1[i].level_idx].queue.contains(i) by {
                assert(mid.contains_key(i));
            }
            self.backend.lemma_wf();
            crate::book::lemma_keys_qty_nonneg(mid, mid.dom());
            self.cond_manager.lemma_finite();
            book_laws::lemma_qty_nonneg(mid, self.cond_manager.store());
        }
        let ghost lv = self.backend.levels();
        self.backend.push_to_level_back(level_idx, order_idx);
        proof {
            book_laws::lemma_push_keeps(lv[level_idx].queue, order_idx);
            book_laws::lemma_after_push(
                self.backend.pool(),
                lv,
                self.backend.levels(),
                level_idx,
                order_idx,
                lv[level_idx].queue.push(order_idx),
            );
            assert(self.backend.levels()[level_idx].queue.last() == order_idx);
        }
        Ok(())
    }
}

/// Whether order data `d` is one of the orders of the levels `levels`.
pub open spec fn in_levels(levels: Seq<PriceLevelModel>, d: OrderData) -> bool {
    exists|j: int, k: int|
        0 <= j < levels.len() && 0 <= k < levels[j].orders@.len() && #[trigger] levels[j].orders@[k] == d
}

/// Sum of the open quantities of the orders in `s`.
pub open spec fn orders_qty(s: Seq<OrderData>) -> int
    decreases s.len(),
{
    if s.len() == 0 {
        0
    } else {
        orders_qty(s.drop_last()) + s.last().remaining_qty.0
    }
}

/// Sum of the open quantities of the orders of every level in `ls`.
pub open spec fn levels_qty(ls: Seq<PriceLevelModel>) -> int
    decreases ls.len(),
{
    if ls.len() == 0 {
        0
    } else {
        levels_qty(ls.drop_last()) + orders_qty(ls.last().orders@)
    }
}

/// Whether some stored order of `pool` carries the data `d`.
pub open spec fn holds_data<OI, LI>(pool: Map<OI, RestingOrder<LI>>, d: OrderData) -> bool {
    exists|i: OI| pool.contains_key(i) && pool[i].data == d
}

/// Whether order `k` of level `j` of `ls` is one the book restores: the
/// engine can hold it and the book takes its price.
pub open spec fn wanted<B: OrderBookBackend>(b: B, ls: Seq<PriceLevelModel>, j: int, k: int) -> bool {
    &&& 0 <= j < ls.len()
    &&& 0 <= k < ls[j].orders@.len()
    &&& order_ok(ls[j].orders@[k])
    &&& b.price_valid(ls[j].orders@[k].price.0)
}

proof fn lemma_orders_qty_nonneg(s: Seq<OrderData>)
    ensures
        orders_qty(s) >= 0,
    decreases s.len(),
{
    if s.len() > 0 {
        lemma_orders_qty_nonneg(s.drop_last());
    }
}

/// Taking one more order of `s` adds its open quantity.
proof fn lemma_orders_qty_step(s: Seq<OrderData>, k: int)
    requires
        0 <= k < s.len(),
    ensures
        orders_qty(s.take(k + 1)) == orders_qty(s.take(k)) + s[k].remaining_qty.0,
{
    assert(s.take(k + 1).drop_last() =~= s.take(k));
}

/// The orders taken from the front of `s` sum to no more than all of them.
proof fn lemma_orders_qty_prefix(s: Seq<OrderData>, k: int)
    requires
        0 <= k <= s.len(),
    ensures
        orders_qty(s.take(k)) <= orders_qty(s),
    decreases s.len() - k,
{
    if k == s.len() {
        assert(s.take(k) =~= s);
    } else {
        lemma_orders_qty_step(s, k);
        lemma_orders_qty_prefix(s, k + 1);
    }
}

proof fn lemma_levels_qty_nonneg(ls: Seq<PriceLevelModel>)
    ensures
        levels_qty(ls) >= 0,
    decreases ls.len(),
{
    if ls.len() > 0 {
        lemma_levels_qty_nonneg(ls.drop_last());
        lemma_orders_qty_nonneg(ls.last().orders@);
    }
}

/// Taking one more level of `ls` adds the open quantity of its orders.
proof fn lemma_levels_qty_step(ls: Seq<PriceLevelModel>, j: int)
    requires
        0 <= j < ls.len(),
    ensures
        levels_qty(ls.take(j + 1)) == levels_qty(ls.take(j)) + orders_qty(ls[j].orders@),
{
    assert(ls.take(j + 1).drop_last() =~= ls.take(j));
}

/// The levels taken from the front of `ls` hold no more than all of them.
proof fn lemma_levels_qty_prefix(ls: Seq<PriceLevelModel>, j: int)
    requires
        0 <= j <= ls.len(),
    ensures
        levels_qty(ls.take(j)) <= levels_qty(ls),
    decreases ls.len() - j,
{
    if j == ls.len() {
        assert(ls.take(j) =~= ls);
    } else {
        lemma_levels_qty_step(ls, j);
        lemma_orders_qty_nonneg(ls[j].orders@);
        lemma_levels_qty_prefix(ls, j + 1);
    }
}

/// Whether the book can hold `d`: the engine holds it, and its price is one
/// the book takes.
fn restorable<B: OrderBookBackend>(backend: &B, d: &OrderData) -> (r: bool)
    ensures
        r == (order_ok(*d) && backend.price_valid(d.price.0)),
{
    let side_ok = match d.side {
        Side::buy => true,
        Side::sell => true,
        Side::NullVal => false,
    };
    let fits = d.filled_qty.0.checked_add(d.remaining_qty.0).is_some();
    let shown_ok = !d.is_iceberg() || (d.remaining_qty.0 > 0 && d.visible_qty.0 > 0);
    side_ok && fits && shown_ok && backend.validate_price(d.price)
}

/// Whether the engine can park `d`: it is an acceptable incoming order
/// whose price the book takes.
fn parkable<B: OrderBookBackend>(backend: &B, d: &OrderData) -> (r: bool)
    ensures
        r == (incoming_ok(*d) && backend.price_valid(d.price.0)),
{
    let fits = d.filled_qty.0.checked_add(d.remaining_qty.0).is_some();
    let shown_ok = !d.is_iceberg() || d.visible_qty.0 > 0;
    fits && shown_ok && backend.validate_price(d.price)
}

impl<B: OrderBookBackend, L: OrderEventListener> Engine<B, L> {
    /// The state of the engine as plain values: its counters, the levels of
    /// its book, and its parked orders.
    pub fn to_snapshot(&self) -> (r: SnapshotModel)
        requires
            self.inv(),
        ensures
            r.last_sequence_number.0 == self.last_seq(),
            r.last_timestamp.0 == self.last_ts(),
            r.trade_id_seq == self.trade_count(),
            r.ltp.0 == self.last_price(),
            r.last_order_id.0 == self.last_id(),
            shows_book(r.levels@, self.book().pool(), self.book().levels()),
            lists_values(r.condition_orders@, self.parked()),
    {
        SnapshotModel {
            last_sequence_number: self.last_sequence_number,
            last_timestamp: self.last_timestamp,
            trade_id_seq: self.trade_id_seq,
            ltp: self.ltp,
            last_order_id: self.last_order_id,
            levels: self.backend.export_levels(),
            condition_orders: self.cond_manager.orders(),
        }
    }

    /// The state of the engine as plain values, for an rkyv archive.
    pub fn to_snapshot_rkyv(&self) -> (r: SnapshotModel)
        requires
            self.inv(),
        ensures
            r.last_sequence_number.0 == self.last_seq(),
            r.last_timestamp.0 == self.last_ts(),
            r.trade_id_seq == self.trade_count(),
            r.ltp.0 == self.last_price(),
            r.last_order_id.0 == self.last_id(),
            shows_book(r.levels@, self.book().pool(), self.book().levels()),
            lists_values(r.condition_orders@, self.parked()),
    {
        self.to_snapshot()
    }

    /// Takes over the state of `model`: its counters, the orders of its
    /// levels, each resting at the level of its own price and side, and its
    /// parked orders, parked again against its last trade price. What was
    /// in the engine before is dropped. An order of a level is left out when
    /// the engine cannot hold it (see [`order_ok`]), when the book does not
    /// take its price or refuses it, or when the open quantities would no
    /// longer add up within `u64`; a parked order is left out when it is not
    /// an acceptable incoming order at a price the book takes. A book that
    /// stores every order it is handed (the sparse book, see
    /// [`crate::book::sparse::lemma_takes_every_order`]) gets back every order
    /// of the levels that it can hold at a price it takes, as long as the
    /// open quantities of all the levels add up within `u64`.
    pub fn from_snapshot(&mut self, model: SnapshotModel)
        requires
            old(self).inv(),
            model.condition_orders@.len() + 1 < NULL_NODE,
        ensures
            final(self).inv(),
            final(self).last_seq() == model.last_sequence_number.0,
            final(self).last_ts() == model.last_timestamp.0,
            final(self).trade_count() == model.trade_id_seq,
            final(self).last_price() == model.ltp.0,
            final(self).last_id() == model.last_order_id.0,
            final(self).is_halted() == old(self).is_halted(),
            final(self).events() == old(self).events(),
            final(self).executions() == old(self).executions(),
            forall|p: u64| #[trigger] final(self).book().price_valid(p) == old(self).book().price_valid(p),
            forall|i: B::OrderIdx|
                #[trigger] final(self).book().pool().contains_key(i) ==> in_levels(
                    model.levels@,
                    final(self).book().pool()[i].data,
                ),
            forall|s: usize|
                #[trigger] final(self).parked().contains_key(s) ==> model.condition_orders@.contains(
                    final(self).parked()[s],
                ),
            forall|k: int|
                0 <= k < model.condition_orders@.len() && incoming_ok(#[trigger] model.condition_orders@[k])
                    && old(self).book().price_valid(model.condition_orders@[k].price.0) ==> exists|s: usize|
                    final(self).parked().contains_key(s) && final(self).parked()[s] == model.condition_orders@[k],
            takes_every_order::<B>() && levels_qty(model.levels@) <= u64::MAX ==> forall|j: int, k: int|
                #[trigger] wanted(old(self).book(), model.levels@, j, k) ==> holds_data(
                    final(self).book().pool(),
                    model.levels@[j].orders@[k],
                ),
    {
        let ghost o = *old(self);
        let ghost cond = takes_every_order::<B>() && levels_qty(model.levels@) <= u64::MAX;
        self.cond_manager.clear();
        self.backend.clear();
        self.trade_id_seq = 0;
        proof {
            self.backend.lemma_wf();
            assert(self.backend.pool() =~= Map::empty());
            assert(self.cond_manager.store() =~= Map::empty());
            crate::book::lemma_pool_qty_none(self.backend.pool());
            assert(book_laws::as_resting(self.cond_manager.store()).dom() =~= Set::empty());
            crate::book::lemma_pool_qty_none(book_laws::as_resting(self.cond_manager.store()));
        }
        let mut total: u64 = 0;
        let mut j: usize = 0;
        proof {
            assert(model.levels@.take(0) =~= Seq::<PriceLevelModel>::empty());
        }
        while j < model.levels.len()
            invariant
                cond == (takes_every_order::<B>() && levels_qty(model.levels@) <= u64::MAX),
                cond ==> total <= levels_qty(model.levels@.take(j as int)),
                cond ==> forall|j2: int, k2: int|
                    #[trigger] wanted(o.backend, model.levels@, j2, k2) && j2 < j ==> holds_data(
                        self.backend.pool(),
                        model.levels@[j2].orders@[k2],
                    ),
                self.core_inv(),
                self.cond_manager.pending_linked(),
                self.cond_manager.store().dom().is_empty(),
                self.cond_manager.slots() == 0,
                self.budget() == total,
                self.trade_id_seq == 0,
                self.halted == o.halted,
                self.listener == o.listener,
                self.fills == o.fills,
                forall|p: u64| #[trigger] self.backend.price_valid(p) == o.backend.price_valid(p),
                forall|i: B::OrderIdx|
                    #[trigger] self.backend.pool().contains_key(i) ==> in_levels(model.levels@, self.backend.pool()[i].data),
                j <= model.levels@.len(),
            decreases model.levels@.len() - j,
        {
            let level = &model.levels[j];
            let mut k: usize = 0;
            proof {
                assert(level.orders@.take(0) =~= Seq::<OrderData>::empty());
            }
            while k < level.orders.len()
                invariant
                    cond == (takes_every_order::<B>() && levels_qty(model.levels@) <= u64::MAX),
                    cond ==> total <= levels_qty(model.levels@.take(j as int)) + orders_qty(
                        level.orders@.take(k as int),
                    ),
                    cond ==> forall|j2: int, k2: int|
                        #[trigger] wanted(o.backend, model.levels@, j2, k2) && (j2 < j || (j2 == j && k2
                            < k)) ==> holds_data(self.backend.pool(), model.levels@[j2].orders@[k2]),
                    self.core_inv(),
                    self.cond_manager.pending_linked(),
                    self.cond_manager.store().dom().is_empty(),
                    self.cond_manager.slots() == 0,
                    self.budget() == total,
                    self.trade_id_seq == 0,
                    self.halted == o.halted,
                    self.listener == o.listener,
                    self.fills == o.fills,
                    forall|p: u64| #[trigger] self.backend.price_valid(p) == o.backend.price_valid(p),
                    forall|i: B::OrderIdx|
                        #[trigger] self.backend.pool().contains_key(i) ==> in_levels(model.levels@, self.backend.pool()[i].data),
                    j < model.levels@.len(),
                    *level == model.levels@[j as int],
                    k <= level.orders@.len(),
                decreases level.orders@.len() - k,
            {
                let d = level.orders[k];
                let ghost pool0 = self.backend.pool();
                proof {
                    if cond {
                        lemma_orders_qty_step(level.orders@, k as int);
                        lemma_orders_qty_prefix(level.orders@, k as int + 1);
                        lemma_levels_qty_step(model.levels@, j as int);
                        lemma_levels_qty_prefix(model.levels@, j as int + 1);
                        assert(total + d.remaining_qty.0 <= u64::MAX);
                    }
                }
                if restorable(&self.backend, &d) {
                    match total.checked_add(d.remaining_qty.0) {
                        Some(t) => {
                            let ghost before = *self;
                            match self.add_resting_order(d) {
                                Ok(()) => {
                                    total = t;
                                    proof {
                                        if cond {
                                            let (i0, l0) = choose|i0: B::OrderIdx, l0: B::LevelIdx|
                                                {
                                                    &&& !pool0.contains_key(i0)
                                                    &&& self.backend.pool() == pool0.insert(
                                                        i0,
                                                        RestingOrder { data: d, level_idx: l0 },
                                                    )
                                                    &&& self.backend.levels().contains_key(l0)
                                                    &&& self.backend.levels()[l0].price == before.backend.level_price(d.price.0)
                                                    &&& self.backend.levels()[l0].queue.last() == i0
                                                };
                                            assert forall|j2: int, k2: int|
                                                #[trigger] wanted(o.backend, model.levels@, j2, k2) && (j2 < j || (j2
                                                    == j && k2 < k + 1)) implies holds_data(
                                                self.backend.pool(),
                                                model.levels@[j2].orders@[k2],
                                            ) by {
                                                if j2 == j && k2 == k {
                                                    assert(self.backend.pool().contains_key(i0));
                                                    assert(self.backend.pool()[i0].data == model.levels@[j2].orders@[k2]);
                                                } else {
                                                    let i2 = choose|i2: B::OrderIdx|
                                                        pool0.contains_key(i2) && pool0[i2].data == model.levels@[j2].orders@[k2];
                                                    assert(self.backend.pool().contains_key(i2));
                                                    assert(self.backend.pool()[i2] == pool0[i2]);
                                                }
                                            }
                                        }
                                    }
                                },
                                Err(_) => {},
                            }
                            proof {
                                assert(in_levels(model.levels@, d)) by {
                                    assert(model.levels@[j as int].orders@[k as int] == d);
                                }
                                assert forall|i: B::OrderIdx| #[trigger] self.backend.pool().contains_key(i) implies in_levels(
                                    model.levels@,
                                    self.backend.pool()[i].data,
                                ) by {
                                    if before.backend.pool().contains_key(i) && self.backend.pool()[i] == before.backend.pool()[i] {
                                    }
                                }
                            }
                        },
                        None => {},
                    }
                }
                k = k + 1;
            }
            proof {
                assert(level.orders@.take(k as int) =~= level.orders@);
                lemma_levels_qty_step(model.levels@, j as int);
            }
            j = j + 1;
        }
        let ghost book_pool = self.backend.pool();
        self.ltp = model.ltp;
        let mut k: usize = 0;
        while k < model.condition_orders.len()
            invariant
                self.backend.pool() == book_pool,
                cond ==> forall|j2: int, k2: int|
                    #[trigger] wanted(o.backend, model.levels@, j2, k2) ==> holds_data(
                        book_pool,
                        model.levels@[j2].orders@[k2],
                    ),
                self.core_inv(),
                self.cond_manager.pending_linked(),
                self.cond_manager.slots() <= k,
                model.condition_orders@.len() + 1 < NULL_NODE,
                self.trade_id_seq == 0,
                self.ltp == model.ltp,
                self.halted == o.halted,
                self.listener == o.listener,
                self.fills == o.fills,
                forall|p: u64| #[trigger] self.backend.price_valid(p) == o.backend.price_valid(p),
                forall|i: B::OrderIdx|
                    #[trigger] self.backend.pool().contains_key(i) ==> in_levels(model.levels@, self.backend.pool()[i].data),
                forall|s: usize|
                    #[trigger] self.cond_manager.store().contains_key(s) ==> model.condition_orders@.contains(
                        self.cond_manager.store()[s],
                    ),
                forall|c: int|
                    0 <= c < k && incoming_ok(#[trigger] model.condition_orders@[c]) && o.backend.price_valid(
                        model.condition_orders@[c].price.0,
                    ) ==> exists|s: usize|
                        self.cond_manager.store().contains_key(s) && self.cond_manager.store()[s]
                            == model.condition_orders@[c],
                k <= model.condition_orders@.len(),
            decreases model.condition_orders@.len() - k,
        {
            let d = model.condition_orders[k];
            if parkable(&self.backend, &d) {
                let ghost before = self.cond_manager.store();
                self.cond_manager.register_condition_order(d, self.ltp);
                proof {
                    let st = self.cond_manager.store();
                    let s0 = choose|s0: usize| !before.contains_key(s0) && st == before.insert(s0, d);
                    assert(model.condition_orders@[k as int] == d);
                    assert forall|s: usize| #[trigger] st.contains_key(s) implies model.condition_orders@.contains(st[s]) by {
                        if s == s0 {
                            assert(model.condition_orders@[k as int] == st[s]);
                        }
                    }
                    assert forall|c: int|
                        0 <= c < k + 1 && incoming_ok(#[trigger] model.condition_orders@[c]) && o.backend.price_valid(
                            model.condition_orders@[c].price.0,
                        ) implies exists|s: usize| st.contains_key(s) && st[s] == model.condition_orders@[c] by {
                        if c == k {
                            assert(st.contains_key(s0) && st[s0] == model.condition_orders@[c]);
                        } else {
                            let s1 = choose|s1: usize| before.contains_key(s1) && before[s1] == model.condition_orders@[c];
                            assert(st.contains_key(s1) && st[s1] == model.condition_orders@[c]);
                        }
                    }
                }
            } else {
                proof {
                    assert forall|c: int|
                        0 <= c < k + 1 && incoming_ok(#[trigger] model.condition_orders@[c]) && o.backend.price_valid(
                            model.condition_orders@[c].price.0,
                        ) implies exists|s: usize|
                        self.cond_manager.store().contains_key(s) && self.cond_manager.store()[s]
                            == model.condition_orders@[c] by {
                        if c == k {
                            assert(model.condition_orders@[k as int] == d);
                        }
                    }
                }
            }
            k = k + 1;
        }
        self.last_sequence_number = model.last_sequence_number;
        self.last_timestamp = model.last_timestamp;
        self.trade_id_seq = model.trade_id_seq;
        self.last_order_id = model.last_order_id;
        proof {
            let st = self.cond_manager.store();
            assert forall|c: int|
                0 <= c < model.condition_orders@.len() && incoming_ok(#[trigger] model.condition_orders@[c])
                    && o.backend.price_valid(model.condition_orders@[c].price.0) implies exists|s: usize|
                    self.parked().contains_key(s) && self.parked()[s] == model.condition_orders@[c] by {
                let s1 = choose|s1: usize| st.contains_key(s1) && st[s1] == model.condition_orders@[c];
                assert(self.parked().contains_key(s1));
            }
        }
    }
}

/// Every order parked in an engine is parked again in an engine restored
/// from a snapshot of it ([`Engine::to_snapshot`], then
/// [`Engine::from_snapshot`]), when the restored book takes the same
/// prices: the hypotheses are what those two calls ensure.
pub proof fn lemma_snapshot_keeps_parked<B: OrderBookBackend, L: OrderEventListener, B2: OrderBookBackend, L2: OrderEventListener>(
    e: Engine<B, L>,
    snap: SnapshotModel,
    before: Engine<B2, L2>,
    after: Engine<B2, L2>,
)
    requires
        e.inv(),
        lists_values(snap.condition_orders@, e.parked()),
        forall|k: int|
            0 <= k < snap.condition_orders@.len() && incoming_ok(#[trigger] snap.condition_orders@[k])
                && before.book().price_valid(snap.condition_orders@[k].price.0) ==> exists|s: usize|
                after.parked().contains_key(s) && after.parked()[s] == snap.condition_orders@[k],
        forall|p: u64| #[trigger] before.book().price_valid(p) == e.book().price_valid(p),
    ensures
        forall|s: usize|
            #[trigger] e.parked().contains_key(s) ==> exists|s2: usize|
                after.parked().contains_key(s2) && after.parked()[s2] == e.parked()[s],
{
    let ks = choose|ks: Seq<usize>| condition::lists_with(snap.condition_orders@, e.parked(), ks);
    assert forall|s: usize| #[trigger] e.parked().contains_key(s) implies exists|s2: usize|
        after.parked().contains_key(s2) && after.parked()[s2] == e.parked()[s] by {
        assert(ks.contains(s));
        let a = ks.index_of(s);
        assert(ks[a] == s);
        assert(snap.condition_orders@[a] == e.parked()[s]);
        assert(incoming_ok(snap.condition_orders@[a]));
        assert(before.book().price_valid(snap.condition_orders@[a].price.0));
    }
}

/// Restoring a snapshot keeps the book: when the snapshot shows the book of
/// an engine and the restoring engine, whose book takes the same prices,
/// holds again each order of the snapshot's levels that it can hold and
/// whose price it takes (as [`Engine::from_snapshot`] promises of a book
/// that takes every order, for open quantities that fit in `u64`), every
/// order that rested in the first engine rests in the restored one.
pub proof fn lemma_snapshot_keeps_book<B: OrderBookBackend, L: OrderEventListener, B2: OrderBookBackend, L2: OrderEventListener>(
    e: Engine<B, L>,
    snap: SnapshotModel,
    before: Engine<B2, L2>,
    after: Engine<B2, L2>,
)
    requires
        e.inv(),
        shows_book(snap.levels@, e.book().pool(), e.book().levels()),
        forall|j: int, k: int|
            #[trigger] wanted(before.book(), snap.levels@, j, k) ==> holds_data(
                after.book().pool(),
                snap.levels@[j].orders@[k],
            ),
        forall|p: u64| #[trigger] before.book().price_valid(p) == e.book().price_valid(p),
    ensures
        forall|i: B::OrderIdx|
            #[trigger] e.book().pool().contains_key(i) ==> holds_data(after.book().pool(), e.book().pool()[i].data),
{
    let pool = e.book().pool();
    let levels = e.book().levels();
    assert forall|i: B::OrderIdx| #[trigger] pool.contains_key(i) implies holds_data(
        after.book().pool(),
        pool[i].data,
    ) by {
        let l = pool[i].level_idx;
        assert(levels.contains_key(l) && levels[l].queue.contains(i));
        assert(level_shown(snap.levels@, pool, levels[l]));
        let j = choose|j: int| 0 <= j < snap.levels@.len() && shows_level(#[trigger] snap.levels@[j], pool, levels[l]);
        let k = choose|k: int| 0 <= k < levels[l].queue.len() && levels[l].queue[k] == i;
        assert(snap.levels@[j].orders@[k] == pool[i].data);
        assert(before.book().price_valid(pool[i].data.price.0));
        assert(wanted(before.book(), snap.levels@, j, k));
    }
}

/// A backend an engine can start from: consistent, with every stored order
/// an acceptable one resting at its level at an accepted price, the level
/// priced as the book prices the order's price.
pub open spec fn backend_ready<B: OrderBookBackend>(b: &B) -> bool {
    &&& b.wf()
    &&& resting_ok(b.pool(), b.levels())
    &&& forall|i: B::OrderIdx| #[trigger] b.pool().contains_key(i) ==> b.price_valid(b.pool()[i].data.price.0)
    &&& priced_at_level(b.pool(), b.levels(), |p: u64| b.level_price(p))
}

/// The order that a submission carries.
pub open spec fn submitted_order(f: OrderSubmitFields) -> OrderData {
    OrderData {
        remaining_qty: Quantity(f.quantity),
        filled_qty: Quantity(0),
        price: Price(f.price),
        side: f.side,
        order_type: f.order_type,
        flags: f.flags,
        order_id: OrderId(f.order_id),
        user_id: crate::types::UserId(f.user_id),
        sequence_number: SequenceNumber(f.sequence_number),
        timestamp: Timestamp(f.timestamp),
        expiry: Timestamp(0),
        trigger_price: Price(f.price),
        visible_qty: Quantity(f.quantity),
        peak_size: Quantity(f.quantity),
    }
}

/// Order `d` after `filled` more of it has traded.
pub open spec fn after_fills(d: OrderData, filled: int) -> OrderData {
    OrderData {
        remaining_qty: Quantity((d.remaining_qty.0 - filled) as u64),
        filled_qty: Quantity((d.filled_qty.0 + filled) as u64),
        ..d
    }
}

/// The order that a submission with an expiry carries.
pub open spec fn submitted_gtd_order(f: OrderSubmitGtdFields) -> OrderData {
    OrderData {
        remaining_qty: Quantity(f.quantity),
        filled_qty: Quantity(0),
        price: Price(f.price),
        side: f.side,
        order_type: f.order_type,
        flags: f.flags,
        order_id: OrderId(f.order_id),
        user_id: crate::types::UserId(f.user_id),
        sequence_number: SequenceNumber(f.sequence_number),
        timestamp: Timestamp(f.timestamp),
        expiry: Timestamp(f.expiry_time),
        trigger_price: Price(0),
        visible_qty: Quantity(f.quantity),
        peak_size: Quantity(f.quantity),
    }
}

/// Status of an order of `quantity` with time in force `tif` that has
/// `filled` executed once matching is over.
pub open spec fn status_for(tif: TimeInForce, quantity: u64, filled: int) -> OrderStatus {
    if filled == quantity {
        OrderStatus::Filled
    } else if tif == TimeInForce::ioc {
        if filled > 0 {
            OrderStatus::PartiallyFilled
        } else {
            OrderStatus::Cancelled
        }
    } else if filled > 0 {
        OrderStatus::PartiallyFilled
    } else {
        OrderStatus::New
    }
}

/// Status of an order re-priced to `quantity`, with `filled_before` executed
/// earlier and `filled` now.
pub open spec fn amend_status(quantity: u64, filled_before: u64, filled: int) -> OrderStatus {
    if filled == quantity {
        OrderStatus::Filled
    } else if filled_before + filled > 0 {
        OrderStatus::PartiallyFilled
    } else {
        OrderStatus::New
    }
}

/// Whether the post-only flag of an order is set.
pub open spec fn is_post_only(d: OrderData) -> bool {
    crate::sbe::order_flags::flag_bit(d.flags.0, 0u16)
}

/// Whether the book `b` refuses, with `e`, to store an order that carries
/// the id `id`.
pub open spec fn refuses_id<B: OrderBookBackend>(b: B, id: u64, e: CommandFailure) -> bool {
    exists|o: RestingOrder<B::LevelIdx>| o.data.order_id.0 == id && #[trigger] b.insert_failure(o) == Some(e)
}

/// Why the book `b` would refuse to store an order with the data `d`, if it
/// would (the answer does not depend on the level the order is put at).
pub open spec fn refusal_of<B: OrderBookBackend>(b: B, d: OrderData) -> Option<CommandFailure> {
    b.insert_failure(RestingOrder { data: d, level_idx: vstd::pervasive::arbitrary::<B::LevelIdx>() })
}

/// A book that would refuse the data `d` refuses the id of `d`.
proof fn lemma_refuses<B: OrderBookBackend>(b: B, d: OrderData, e: CommandFailure)
    requires
        refusal_of(b, d) == Some(e),
    ensures
        refuses_id(b, d.order_id.0, e),
{
    let o = RestingOrder { data: d, level_idx: vstd::pervasive::arbitrary::<B::LevelIdx>() };
    assert(o.data.order_id.0 == d.order_id.0 && b.insert_failure(o) == Some(e));
}

/// A refusal that the book gives for an order it cannot store.
pub open spec fn book_refusal(e: CommandFailure) -> bool {
    e == CommandFailure::InvalidOrderId || e == CommandFailure::DuplicateOrderId || e
        == CommandFailure::CapacityExceeded
}

/// An order on its way in: its filled and open quantities add up within
/// `u64`, and an iceberg shows a positive quantity.
pub open spec fn incoming_ok(d: OrderData) -> bool {
    &&& d.filled_qty.0 + d.remaining_qty.0 <= u64::MAX
    &&& d.spec_is_iceberg() ==> d.visible_qty.0 > 0
}

} // verus!
