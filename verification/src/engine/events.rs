//! Notifications that the engine sends while it executes commands.
use vstd::prelude::*;
use crate::engine::Fill;
use crate::orders::OrderData;
use crate::sbe::side::Side;
use crate::types::{Price, Quantity, SequenceNumber, Timestamp};

verus! {

/// Receives the engine's events and collects what they produce into a
/// payload, which `offset` measures.
///
/// An implementation keeps `offset` within [`Self::payload_capacity`] and
/// hands back that many bytes from [`Self::get_payload`].
pub trait OrderEventListener {
    /// Largest payload the listener can hand back.
    spec fn payload_capacity(&self) -> nat;

    /// Whether the listener keeps count of the trades it is told of.
    spec fn counts_trades(&self) -> bool;

    /// The trades the listener has been told of, in order, where it keeps
    /// count of them.
    spec fn told_trades(&self) -> Seq<Fill>;

    /// An order was accepted.
    fn on_accepted(&mut self, order: &OrderData, ts: Timestamp, seq: SequenceNumber, offset: &mut usize)
        requires
            *old(offset) <= old(self).payload_capacity(),
        ensures
            *final(offset) <= final(self).payload_capacity(),
            final(self).payload_capacity() == old(self).payload_capacity(),
    ;

    /// An order was cancelled.
    fn on_cancelled(&mut self, order: &OrderData, ts: Timestamp, seq: SequenceNumber, offset: &mut usize)
        requires
            *old(offset) <= old(self).payload_capacity(),
        ensures
            *final(offset) <= final(self).payload_capacity(),
            final(self).payload_capacity() == old(self).payload_capacity(),
    ;

    /// An order was rejected.
    fn on_rejected(&mut self, order: &OrderData, ts: Timestamp, seq: SequenceNumber, offset: &mut usize)
        requires
            *old(offset) <= old(self).payload_capacity(),
        ensures
            *final(offset) <= final(self).payload_capacity(),
            final(self).payload_capacity() == old(self).payload_capacity(),
    ;

    /// An order was amended.
    fn on_amended(&mut self, order: &OrderData, ts: Timestamp, seq: SequenceNumber, offset: &mut usize)
        requires
            *old(offset) <= old(self).payload_capacity(),
        ensures
            *final(offset) <= final(self).payload_capacity(),
            final(self).payload_capacity() == old(self).payload_capacity(),
    ;

    /// An order expired.
    fn on_expired(&mut self, order: &OrderData, ts: Timestamp, seq: SequenceNumber, offset: &mut usize)
        requires
            *old(offset) <= old(self).payload_capacity(),
        ensures
            *final(offset) <= final(self).payload_capacity(),
            final(self).payload_capacity() == old(self).payload_capacity(),
    ;

    /// A resting order (`maker`) and an incoming one (`taker`) traded.
    fn on_trade(
        &mut self,
        maker: &OrderData,
        taker: &OrderData,
        trade_qty: Quantity,
        trade_price: Price,
        ts: Timestamp,
        seq: SequenceNumber,
        trade_id: u64,
        offset: &mut usize,
    )
        requires
            *old(offset) <= old(self).payload_capacity(),
        ensures
            *final(offset) <= final(self).payload_capacity(),
            final(self).payload_capacity() == old(self).payload_capacity(),
            final(self).counts_trades() == old(self).counts_trades(),
            old(self).counts_trades() ==> final(self).told_trades() == old(self).told_trades().push(
                Fill {
                    maker_order_id: maker.order_id.0,
                    taker_order_id: taker.order_id.0,
                    price: trade_price.0,
                    quantity: trade_qty.0,
                },
            ),
    ;

    /// The aggregate quantity at a price level changed.
    fn on_depth_update(
        &mut self,
        price: Price,
        qty: Quantity,
        side: Side,
        ts: Timestamp,
        seq: SequenceNumber,
        offset: &mut usize,
    )
        requires
            *old(offset) <= old(self).payload_capacity(),
        ensures
            *final(offset) <= final(self).payload_capacity(),
            final(self).payload_capacity() == old(self).payload_capacity(),
    ;

    /// The first `offset` bytes collected.
    fn get_payload(&self, offset: usize) -> (r: &[u8])
        requires
            offset <= self.payload_capacity(),
        ensures
            r@.len() == offset,
    ;
}

/// A listener that drops every event and collects nothing.
impl OrderEventListener for () {
    open spec fn payload_capacity(&self) -> nat {
        0
    }

    open spec fn counts_trades(&self) -> bool {
        false
    }

    open spec fn told_trades(&self) -> Seq<Fill> {
        Seq::empty()
    }

    fn on_accepted(&mut self, order: &OrderData, ts: Timestamp, seq: SequenceNumber, offset: &mut usize) {
    }

    fn on_cancelled(&mut self, order: &OrderData, ts: Timestamp, seq: SequenceNumber, offset: &mut usize) {
    }

    fn on_rejected(&mut self, order: &OrderData, ts: Timestamp, seq: SequenceNumber, offset: &mut usize) {
    }

    fn on_amended(&mut self, order: &OrderData, ts: Timestamp, seq: SequenceNumber, offset: &mut usize) {
    }

    fn on_expired(&mut self, order: &OrderData, ts: Timestamp, seq: SequenceNumber, offset: &mut usize) {
    }

    fn on_trade(
        &mut self,
        maker: &OrderData,
        taker: &OrderData,
        trade_qty: Quantity,
        trade_price: Price,
        ts: Timestamp,
        seq: SequenceNumber,
        trade_id: u64,
        offset: &mut usize,
    ) {
    }

    fn on_depth_update(
        &mut self,
        price: Price,
        qty: Quantity,
        side: Side,
        ts: Timestamp,
        seq: SequenceNumber,
        offset: &mut usize,
    ) {
    }

    fn get_payload(&self, offset: usize) -> (r: &[u8]) {
        &[]
    }
}

} // verus!
