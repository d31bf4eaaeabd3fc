//! Order records as the engine stores them.
use vstd::prelude::*;
use crate::sbe::order_flags::OrderFlags;
use crate::sbe::order_type::OrderType;
use crate::sbe::side::Side;
use crate::types::{OrderId, Price, Quantity, SequenceNumber, Timestamp, UserId};

verus! {

/// Data of one order.
///
/// The fields that matching reads on every step come first.
#[derive(Debug, Clone, Copy, PartialEq, Eq, Structural)]
pub struct OrderData {
    /// Quantity still open.
    pub remaining_qty: Quantity,
    /// Quantity executed so far.
    pub filled_qty: Quantity,
    /// Limit price.
    pub price: Price,
    /// Trigger price of a stop order.
    pub trigger_price: Price,
    /// Expiry time (GTD/GTH); zero means none.
    pub expiry: Timestamp,
    /// Iceberg quantity currently shown.
    pub visible_qty: Quantity,
    /// Iceberg peak size.
    pub peak_size: Quantity,
    /// Order type.
    pub order_type: OrderType,
    /// Buy or sell.
    pub side: Side,
    /// Option flags (post-only, iceberg, ...).
    pub flags: OrderFlags,
    /// Unique order identifier.
    pub order_id: OrderId,
    /// Owner of the order.
    pub user_id: UserId,
    /// Sequence number of the command that created the order.
    pub sequence_number: SequenceNumber,
    /// Time of submission.
    pub timestamp: Timestamp,
}

impl OrderData {
    /// Whether nothing remains open.
    pub open spec fn spec_is_fully_filled(&self) -> bool {
        self.remaining_qty.0 == 0
    }

    /// Whether the order is an iceberg: the flag is set and the peak is positive.
    pub open spec fn spec_is_iceberg(&self) -> bool {
        crate::sbe::order_flags::flag_bit(self.flags.0, 2u16) && self.peak_size.0 > 0
    }

    /// Whether the order waits for a trigger price (stop or stop-limit).
    pub open spec fn spec_is_stop(&self) -> bool {
        self.order_type == OrderType::stop || self.order_type == OrderType::stop_limit
    }

    /// Whether the order has an expiry time that `current_ts` has reached.
    pub open spec fn spec_is_expired(&self, current_ts: u64) -> bool {
        self.expiry.0 > 0 && current_ts >= self.expiry.0
    }

    /// Whether nothing remains open.
    pub fn is_fully_filled(&self) -> (r: bool)
        ensures
            r == self.spec_is_fully_filled(),
    {
        self.remaining_qty.0 == 0
    }

    /// Whether the order is an iceberg: the flag is set and the peak is positive.
    pub fn is_iceberg(&self) -> (r: bool)
        ensures
            r == self.spec_is_iceberg(),
    {
        self.flags.get_iceberg() && self.peak_size.0 > 0
    }

    /// Whether the order waits for a trigger price (stop or stop-limit).
    pub fn is_stop(&self) -> (r: bool)
        ensures
            r == self.spec_is_stop(),
    {
        match self.order_type {
            OrderType::stop | OrderType::stop_limit => true,
            _ => false,
        }
    }

    /// Whether the order has an expiry time that `current_ts` has reached.
    pub fn is_expired(&self, current_ts: Timestamp) -> (r: bool)
        ensures
            r == self.spec_is_expired(current_ts.0),
    {
        self.expiry.0 > 0 && current_ts.0 >= self.expiry.0
    }
}

impl Default for OrderData {
    fn default() -> (r: OrderData)
        ensures
            r.remaining_qty.0 == 0,
            r.filled_qty.0 == 0,
            r.price.0 == 0,
            r.trigger_price.0 == 0,
            r.expiry.0 == 0,
            r.visible_qty.0 == 0,
            r.peak_size.0 == 0,
            r.order_type == OrderType::NullVal,
            r.side == Side::NullVal,
            r.flags.0 == 0,
            r.order_id.0 == 0,
            r.user_id.0 == 0,
            r.sequence_number.0 == 0,
            r.timestamp.0 == 0,
    {
        OrderData {
            remaining_qty: Quantity(0),
            filled_qty: Quantity(0),
            price: Price(0),
            trigger_price: Price(0),
            expiry: Timestamp(0),
            visible_qty: Quantity(0),
            peak_size: Quantity(0),
            order_type: OrderType::NullVal,
            side: Side::NullVal,
            flags: OrderFlags(0),
            order_id: OrderId(0),
            user_id: UserId(0),
            sequence_number: SequenceNumber(0),
            timestamp: Timestamp(0),
        }
    }
}

/// An order resting in the book, with the price level it belongs to.
#[derive(Debug, Clone, Copy, PartialEq, Eq)]
pub struct RestingOrder<L> {
    pub data: OrderData,
    pub level_idx: L,
}

impl<L> RestingOrder<L> {
    /// Pairs order data with its level.
    pub fn new(data: OrderData, level_idx: L) -> (r: Self)
        ensures
            r.data == data,
            r.level_idx == level_idx,
    {
        Self { data, level_idx }
    }
}

} // verus!
