//! Building command messages in a caller-owned buffer.
use vstd::prelude::*;
use crate::sbe::control_message_codec::{self, ControlMessageDecoder, ControlMessageFields};
use crate::sbe::control_op::ControlOp;
use crate::sbe::order_amend_codec::{self, OrderAmendDecoder, OrderAmendFields};
use crate::sbe::order_cancel_codec::{self, OrderCancelDecoder, OrderCancelFields};
use crate::sbe::order_flags::OrderFlags;
use crate::sbe::order_submit_codec::{self, OrderSubmitDecoder, OrderSubmitFields};
use crate::sbe::order_submit_gtd_codec::{self, OrderSubmitGtdDecoder, OrderSubmitGtdFields};
use crate::sbe::order_type::OrderType;
use crate::sbe::side::Side;
use crate::sbe::time_in_force::TimeInForce;
use crate::sbe::wire::SBE_SCHEMA_VERSION;
use crate::types::{OrderId, Price, Quantity, SequenceNumber, Timestamp, UserId};

verus! {

/// Writes command message bodies into a buffer and hands back a decoder
/// over what was written.
pub struct CommandCodec<'a> {
    buffer: &'a mut [u8],
}

impl<'a> CommandCodec<'a> {
    /// The bytes of the buffer.
    pub closed spec fn bytes(&self) -> Seq<u8> {
        self.buffer@
    }

    /// A codec writing into `buffer`.
    pub fn new(buffer: &'a mut [u8]) -> (r: Self)
        ensures
            r.bytes() == old(buffer)@,
    {
        CommandCodec { buffer }
    }

    /// The whole buffer.
    pub fn as_bytes(&self) -> (r: &[u8])
        ensures
            r@ == self.bytes(),
    {
        self.buffer
    }

    /// A limit order submission with no flags.
    pub fn encode_submit(
        &mut self,
        offset: usize,
        order_id: OrderId,
        user_id: UserId,
        side: Side,
        price: Price,
        quantity: Quantity,
        seq: SequenceNumber,
        ts: Timestamp,
        tif: TimeInForce,
    ) -> (r: OrderSubmitDecoder<'_>)
        requires
            offset + order_submit_codec::SBE_BLOCK_LENGTH <= old(self).bytes().len(),
        ensures
            final(self).bytes() == order_submit_codec::encode_spec(
                old(self).bytes(),
                offset as int,
                OrderSubmitFields {
                    order_id: order_id.0,
                    user_id: user_id.0,
                    side,
                    order_type: OrderType::limit,
                    price: price.0,
                    quantity: quantity.0,
                    time_in_force: tif,
                    flags: OrderFlags(0),
                    timestamp: ts.0,
                    sequence_number: seq.0,
                },
            ),
            r.wf(),
            r.offset == offset,
            r.fields() == (OrderSubmitFields {
                order_id: order_id.0,
                user_id: user_id.0,
                side,
                order_type: OrderType::limit,
                price: price.0,
                quantity: quantity.0,
                time_in_force: tif,
                flags: OrderFlags(0),
                timestamp: ts.0,
                sequence_number: seq.0,
            }),
    {
        self.encode_submit_ext(
            offset,
            order_id,
            user_id,
            side,
            OrderType::limit,
            price,
            quantity,
            seq,
            ts,
            tif,
            OrderFlags::new(0),
        )
    }

    /// An order submission with every field given.
    pub fn encode_submit_ext(
        &mut self,
        offset: usize,
        order_id: OrderId,
        user_id: UserId,
        side: Side,
        order_type: OrderType,
        price: Price,
        quantity: Quantity,
        seq: SequenceNumber,
        ts: Timestamp,
        tif: TimeInForce,
        flags: OrderFlags,
    ) -> (r: OrderSubmitDecoder<'_>)
        requires
            offset + order_submit_codec::SBE_BLOCK_LENGTH <= old(self).bytes().len(),
        ensures
            final(self).bytes() == order_submit_codec::encode_spec(
                old(self).bytes(),
                offset as int,
                OrderSubmitFields {
                    order_id: order_id.0,
                    user_id: user_id.0,
                    side,
                    order_type,
                    price: price.0,
                    quantity: quantity.0,
                    time_in_force: tif,
                    flags,
                    timestamp: ts.0,
                    sequence_number: seq.0,
                },
            ),
            r.wf(),
            r.offset == offset,
            r.fields() == (OrderSubmitFields {
                order_id: order_id.0,
                user_id: user_id.0,
                side,
                order_type,
                price: price.0,
                quantity: quantity.0,
                time_in_force: tif,
                flags,
                timestamp: ts.0,
                sequence_number: seq.0,
            }),
    {
        let f = OrderSubmitFields {
            order_id: order_id.0,
            user_id: user_id.0,
            side,
            order_type,
            price: price.0,
            quantity: quantity.0,
            time_in_force: tif,
            flags,
            timestamp: ts.0,
            sequence_number: seq.0,
        };
        order_submit_codec::encode(self.buffer, offset, &f);
        proof {
            order_submit_codec::lemma_roundtrip(old(self).bytes(), offset as int, f);
        }
        OrderSubmitDecoder::wrap(
            self.buffer,
            offset,
            order_submit_codec::SBE_BLOCK_LENGTH,
            SBE_SCHEMA_VERSION,
        )
    }

    /// A market order submission: no price, immediate-or-cancel, no flags.
    pub fn encode_market(
        &mut self,
        offset: usize,
        order_id: OrderId,
        user_id: UserId,
        side: Side,
        quantity: Quantity,
        seq: SequenceNumber,
        ts: Timestamp,
    ) -> (r: OrderSubmitDecoder<'_>)
        requires
            offset + order_submit_codec::SBE_BLOCK_LENGTH <= old(self).bytes().len(),
        ensures
            final(self).bytes() == order_submit_codec::encode_spec(
                old(self).bytes(),
                offset as int,
                OrderSubmitFields {
                    order_id: order_id.0,
                    user_id: user_id.0,
                    side: side,
                    order_type: OrderType::market,
                    price: 0,
                    quantity: quantity.0,
                    time_in_force: TimeInForce::ioc,
                    flags: OrderFlags(0),
                    timestamp: ts.0,
                    sequence_number: seq.0,
                },
            ),
            r.wf(),
            r.offset == offset,
            r.fields() == (OrderSubmitFields {
                order_id: order_id.0,
                user_id: user_id.0,
                side: side,
                order_type: OrderType::market,
                price: 0,
                quantity: quantity.0,
                time_in_force: TimeInForce::ioc,
                flags: OrderFlags(0),
                timestamp: ts.0,
                sequence_number: seq.0,
            }),
    {
        let f = OrderSubmitFields {
            order_id: order_id.0,
            user_id: user_id.0,
            side: side,
            order_type: OrderType::market,
            price: 0,
            quantity: quantity.0,
            time_in_force: TimeInForce::ioc,
            flags: OrderFlags(0),
            timestamp: ts.0,
            sequence_number: seq.0,
        };
        order_submit_codec::encode(self.buffer, offset, &f);
        proof {
            order_submit_codec::lemma_roundtrip(old(self).bytes(), offset as int, f);
        }
        OrderSubmitDecoder::wrap(self.buffer, offset, order_submit_codec::SBE_BLOCK_LENGTH, SBE_SCHEMA_VERSION)
    }

    /// A limit order submission that expires at `expiry`.
    pub fn encode_submit_gtd(
        &mut self,
        offset: usize,
        order_id: OrderId,
        user_id: UserId,
        side: Side,
        price: Price,
        quantity: Quantity,
        seq: SequenceNumber,
        ts: Timestamp,
        expiry: Timestamp,
    ) -> (r: OrderSubmitGtdDecoder<'_>)
        requires
            offset + order_submit_gtd_codec::SBE_BLOCK_LENGTH <= old(self).bytes().len(),
        ensures
            final(self).bytes() == order_submit_gtd_codec::encode_spec(
                old(self).bytes(),
                offset as int,
                OrderSubmitGtdFields {
                    order_id: order_id.0,
                    user_id: user_id.0,
                    side: side,
                    order_type: OrderType::limit,
                    price: price.0,
                    quantity: quantity.0,
                    time_in_force: TimeInForce::gtd,
                    flags: OrderFlags(0),
                    expiry_time: expiry.0,
                    timestamp: ts.0,
                    sequence_number: seq.0,
                },
            ),
            r.wf(),
            r.offset == offset,
            r.fields() == (OrderSubmitGtdFields {
                order_id: order_id.0,
                user_id: user_id.0,
                side: side,
                order_type: OrderType::limit,
                price: price.0,
                quantity: quantity.0,
                time_in_force: TimeInForce::gtd,
                flags: OrderFlags(0),
                expiry_time: expiry.0,
                timestamp: ts.0,
                sequence_number: seq.0,
            }),
    {
        let f = OrderSubmitGtdFields {
            order_id: order_id.0,
            user_id: user_id.0,
            side: side,
            order_type: OrderType::limit,
            price: price.0,
            quantity: quantity.0,
            time_in_force: TimeInForce::gtd,
            flags: OrderFlags(0),
            expiry_time: expiry.0,
            timestamp: ts.0,
            sequence_number: seq.0,
        };
        order_submit_gtd_codec::encode(self.buffer, offset, &f);
        proof {
            order_submit_gtd_codec::lemma_roundtrip(old(self).bytes(), offset as int, f);
        }
        OrderSubmitGtdDecoder::wrap(self.buffer, offset, order_submit_gtd_codec::SBE_BLOCK_LENGTH, SBE_SCHEMA_VERSION)
    }

    /// A cancellation of `order_id`.
    pub fn encode_cancel(
        &mut self,
        offset: usize,
        order_id: OrderId,
        seq: SequenceNumber,
        ts: Timestamp,
    ) -> (r: OrderCancelDecoder<'_>)
        requires
            offset + order_cancel_codec::SBE_BLOCK_LENGTH <= old(self).bytes().len(),
        ensures
            final(self).bytes() == order_cancel_codec::encode_spec(
                old(self).bytes(),
                offset as int,
                OrderCancelFields {
                    order_id: order_id.0,
                    sequence_number: seq.0,
                    timestamp: ts.0,
                },
            ),
            r.wf(),
            r.offset == offset,
            r.fields() == (OrderCancelFields {
                order_id: order_id.0,
                sequence_number: seq.0,
                timestamp: ts.0,
            }),
    {
        let f = OrderCancelFields {
            order_id: order_id.0,
            sequence_number: seq.0,
            timestamp: ts.0,
        };
        order_cancel_codec::encode(self.buffer, offset, &f);
        proof {
            order_cancel_codec::lemma_roundtrip(old(self).bytes(), offset as int, f);
        }
        OrderCancelDecoder::wrap(self.buffer, offset, order_cancel_codec::SBE_BLOCK_LENGTH, SBE_SCHEMA_VERSION)
    }

    /// An amendment of `order_id` to a new price and quantity.
    pub fn encode_amend(
        &mut self,
        offset: usize,
        order_id: OrderId,
        new_price: Price,
        new_qty: Quantity,
        seq: SequenceNumber,
        ts: Timestamp,
    ) -> (r: OrderAmendDecoder<'_>)
        requires
            offset + order_amend_codec::SBE_BLOCK_LENGTH <= old(self).bytes().len(),
        ensures
            final(self).bytes() == order_amend_codec::encode_spec(
                old(self).bytes(),
                offset as int,
                OrderAmendFields {
                    order_id: order_id.0,
                    new_price: new_price.0,
                    new_quantity: new_qty.0,
                    sequence_number: seq.0,
                    timestamp: ts.0,
                },
            ),
            r.wf(),
            r.offset == offset,
            r.fields() == (OrderAmendFields {
                order_id: order_id.0,
                new_price: new_price.0,
                new_quantity: new_qty.0,
                sequence_number: seq.0,
                timestamp: ts.0,
            }),
    {
        let f = OrderAmendFields {
            order_id: order_id.0,
            new_price: new_price.0,
            new_quantity: new_qty.0,
            sequence_number: seq.0,
            timestamp: ts.0,
        };
        order_amend_codec::encode(self.buffer, offset, &f);
        proof {
            order_amend_codec::lemma_roundtrip(old(self).bytes(), offset as int, f);
        }
        OrderAmendDecoder::wrap(self.buffer, offset, order_amend_codec::SBE_BLOCK_LENGTH, SBE_SCHEMA_VERSION)
    }

    /// A system control command.
    pub fn encode_control(
        &mut self,
        offset: usize,
        op: ControlOp,
        seq: SequenceNumber,
        ts: Timestamp,
    ) -> (r: ControlMessageDecoder<'_>)
        requires
            offset + control_message_codec::SBE_BLOCK_LENGTH <= old(self).bytes().len(),
        ensures
            final(self).bytes() == control_message_codec::encode_spec(
                old(self).bytes(),
                offset as int,
                ControlMessageFields {
                    control_op: op,
                    timestamp: ts.0,
                    sequence_number: seq.0,
                },
            ),
            r.wf(),
            r.offset == offset,
            r.fields() == (ControlMessageFields {
                control_op: op,
                timestamp: ts.0,
                sequence_number: seq.0,
            }),
    {
        let f = ControlMessageFields {
            control_op: op,
            timestamp: ts.0,
            sequence_number: seq.0,
        };
        control_message_codec::encode(self.buffer, offset, &f);
        proof {
            control_message_codec::lemma_roundtrip(old(self).bytes(), offset as int, f);
        }
        ControlMessageDecoder::wrap(self.buffer, offset, control_message_codec::SBE_BLOCK_LENGTH, SBE_SCHEMA_VERSION)
    }
}

} // verus!
