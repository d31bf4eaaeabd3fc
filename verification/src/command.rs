//! Engine commands as plain values, read from decoded messages.
use vstd::prelude::*;
use crate::sbe::order_amend_codec::OrderAmendDecoder;
use crate::sbe::order_cancel_codec::OrderCancelDecoder;
use crate::sbe::order_flags::OrderFlags;
use crate::sbe::order_submit_codec::OrderSubmitDecoder;
use crate::sbe::order_type::OrderType;
use crate::sbe::side::Side;
use crate::sbe::time_in_force::TimeInForce;
use crate::types::{OrderId, Price, Quantity, SequenceNumber, Timestamp, UserId};

verus! {

/// Sequence number and time of a command.
#[derive(Debug, Clone, Copy, PartialEq, Eq, Structural)]
pub struct CommandMeta {
    pub sequence_number: SequenceNumber,
    pub timestamp: Timestamp,
}

/// An order submission.
#[derive(Debug, Clone, PartialEq, Eq, Structural)]
pub struct SubmitCmd {
    pub order_id: OrderId,
    pub user_id: UserId,
    pub side: Side,
    pub order_type: OrderType,
    pub price: Price,
    pub quantity: Quantity,
    pub time_in_force: TimeInForce,
    pub flags: OrderFlags,
    pub expiry: Timestamp,
    pub trigger_price: Price,
    pub visible_qty: Quantity,
}

/// An order amendment.
#[derive(Debug, Clone, PartialEq, Eq, Structural)]
pub struct AmendCmd {
    pub order_id: OrderId,
    pub new_price: Price,
    pub new_quantity: Quantity,
}

/// An order cancellation.
#[derive(Debug, Clone, PartialEq, Eq, Structural)]
pub struct CancelCmd {
    pub order_id: OrderId,
}

/// What a command asks for.
#[derive(Debug, Clone, PartialEq, Eq, Structural)]
pub enum CommandKind {
    Submit(SubmitCmd),
    Amend(AmendCmd),
    Cancel(CancelCmd),
}

/// A command for the matching engine.
#[derive(Debug, Clone, PartialEq, Eq, Structural)]
pub struct Command {
    pub meta: CommandMeta,
    pub kind: CommandKind,
}

impl Command {
    /// The command that a submission message carries; it has no expiry
    /// and no trigger price, and shows its whole quantity.
    pub fn from_submit(decoder: &OrderSubmitDecoder) -> (r: Self)
        requires
            decoder.wf(),
        ensures
            r == (Command {
                meta: CommandMeta {
                    sequence_number: SequenceNumber(decoder.fields().sequence_number),
                    timestamp: Timestamp(decoder.fields().timestamp),
                },
                kind: CommandKind::Submit(
                    SubmitCmd {
                        order_id: OrderId(decoder.fields().order_id),
                        user_id: UserId(decoder.fields().user_id),
                        side: decoder.fields().side,
                        order_type: decoder.fields().order_type,
                        price: Price(decoder.fields().price),
                        quantity: Quantity(decoder.fields().quantity),
                        time_in_force: decoder.fields().time_in_force,
                        flags: decoder.fields().flags,
                        expiry: Timestamp(0),
                        trigger_price: Price(0),
                        visible_qty: Quantity(decoder.fields().quantity),
                    },
                ),
            }),
    {
        Command {
            meta: CommandMeta {
                sequence_number: SequenceNumber(decoder.sequence_number()),
                timestamp: Timestamp(decoder.timestamp()),
            },
            kind: CommandKind::Submit(
                SubmitCmd {
                    order_id: OrderId(decoder.order_id()),
                    user_id: UserId(decoder.user_id()),
                    side: decoder.side(),
                    order_type: decoder.order_type(),
                    price: Price(decoder.price()),
                    quantity: Quantity(decoder.quantity()),
                    time_in_force: decoder.time_in_force(),
                    flags: decoder.flags(),
                    expiry: Timestamp(0),
                    trigger_price: Price(0),
                    visible_qty: Quantity(decoder.quantity()),
                },
            ),
        }
    }

    /// The command that a cancellation message carries.
    pub fn from_cancel(decoder: &OrderCancelDecoder) -> (r: Self)
        requires
            decoder.wf(),
        ensures
            r == (Command {
                meta: CommandMeta {
                    sequence_number: SequenceNumber(decoder.fields().sequence_number),
                    timestamp: Timestamp(decoder.fields().timestamp),
                },
                kind: CommandKind::Cancel(CancelCmd { order_id: OrderId(decoder.fields().order_id) }),
            }),
    {
        Command {
            meta: CommandMeta {
                sequence_number: SequenceNumber(decoder.sequence_number()),
                timestamp: Timestamp(decoder.timestamp()),
            },
            kind: CommandKind::Cancel(CancelCmd { order_id: OrderId(decoder.order_id()) }),
        }
    }

    /// The command that an amendment message carries.
    pub fn from_amend(decoder: &OrderAmendDecoder) -> (r: Self)
        requires
            decoder.wf(),
        ensures
            r == (Command {
                meta: CommandMeta {
                    sequence_number: SequenceNumber(decoder.fields().sequence_number),
                    timestamp: Timestamp(decoder.fields().timestamp),
                },
                kind: CommandKind::Amend(
                    AmendCmd {
                        order_id: OrderId(decoder.fields().order_id),
                        new_price: Price(decoder.fields().new_price),
                        new_quantity: Quantity(decoder.fields().new_quantity),
                    },
                ),
            }),
    {
        Command {
            meta: CommandMeta {
                sequence_number: SequenceNumber(decoder.sequence_number()),
                timestamp: Timestamp(decoder.timestamp()),
            },
            kind: CommandKind::Amend(
                AmendCmd {
                    order_id: OrderId(decoder.order_id()),
                    new_price: Price(decoder.new_price()),
                    new_quantity: Quantity(decoder.new_quantity()),
                },
            ),
        }
    }
}

} // verus!
