//! A listener that writes execution reports, public trades and depth
//! updates as SBE messages into a caller-owned buffer.
use vstd::prelude::*;
use super::events::OrderEventListener;
use super::Fill;
use crate::orders::OrderData;
use crate::sbe::depth_update_codec::{self, DepthUpdateFields};
use crate::sbe::execution_report_codec::{self, ExecutionReportFields};
use crate::sbe::message_header_codec::{self, MessageHeaderFields};
use crate::sbe::order_status::OrderStatus as SbeOrderStatus;
use crate::sbe::public_trade_codec::{self, PublicTradeFields};
use crate::sbe::side::Side;
use crate::sbe::wire::{self, HEADER_ENCODED_LENGTH, SBE_SCHEMA_ID, SBE_SCHEMA_VERSION};
use crate::outcome::{msg_fits, msg_next, trades_spec, Trade};
use crate::types::{Price, Quantity, SequenceNumber, Timestamp};

verus! {

/// Header that frames a message body of `block_length` bytes of `template_id`.
pub open spec fn header_for(block_length: u16, template_id: u16) -> MessageHeaderFields {
    MessageHeaderFields {
        block_length,
        template_id,
        schema_id: SBE_SCHEMA_ID,
        version: SBE_SCHEMA_VERSION,
    }
}

/// `a + b` modulo 2^64.
pub open spec fn wrapped_sum(a: u64, b: u64) -> u64 {
    if a + b <= u64::MAX {
        (a + b) as u64
    } else {
        (a + b - 0x1_0000_0000_0000_0000) as u64
    }
}

/// Execution report of `order` with `status`.
pub open spec fn report_fields(
    order: OrderData,
    status: SbeOrderStatus,
    ts: Timestamp,
    seq: SequenceNumber,
) -> ExecutionReportFields {
    ExecutionReportFields {
        order_id: order.order_id.0,
        user_id: order.user_id.0,
        status,
        side: order.side,
        price: order.price.0,
        quantity: wrapped_sum(order.remaining_qty.0, order.filled_qty.0),
        leaves_qty: order.remaining_qty.0,
        cum_qty: order.filled_qty.0,
        timestamp: ts.0,
        sequence_number: seq.0,
    }
}

/// Buffer and offset after an execution report is appended, when it fits;
/// unchanged when it does not.
pub open spec fn put_report(st: (Seq<u8>, int), f: ExecutionReportFields) -> (Seq<u8>, int) {
    let (s, off) = st;
    let n = HEADER_ENCODED_LENGTH + execution_report_codec::SBE_BLOCK_LENGTH;
    if off + n <= s.len() {
        (
            execution_report_codec::encode_spec(
                message_header_codec::encode_spec(
                    s,
                    off,
                    header_for(execution_report_codec::SBE_BLOCK_LENGTH, execution_report_codec::SBE_TEMPLATE_ID),
                ),
                off + HEADER_ENCODED_LENGTH,
                f,
            ),
            off + n,
        )
    } else {
        st
    }
}

/// Buffer and offset after a public trade is appended, when it fits.
pub open spec fn put_trade(st: (Seq<u8>, int), f: PublicTradeFields) -> (Seq<u8>, int) {
    let (s, off) = st;
    let n = HEADER_ENCODED_LENGTH + public_trade_codec::SBE_BLOCK_LENGTH;
    if off + n <= s.len() {
        (
            public_trade_codec::encode_spec(
                message_header_codec::encode_spec(
                    s,
                    off,
                    header_for(public_trade_codec::SBE_BLOCK_LENGTH, public_trade_codec::SBE_TEMPLATE_ID),
                ),
                off + HEADER_ENCODED_LENGTH,
                f,
            ),
            off + n,
        )
    } else {
        st
    }
}

/// Buffer and offset after a depth update is appended, when it fits.
pub open spec fn put_depth(st: (Seq<u8>, int), f: DepthUpdateFields) -> (Seq<u8>, int) {
    let (s, off) = st;
    let n = HEADER_ENCODED_LENGTH + depth_update_codec::SBE_BLOCK_LENGTH;
    if off + n <= s.len() {
        (
            depth_update_codec::encode_spec(
                message_header_codec::encode_spec(
                    s,
                    off,
                    header_for(depth_update_codec::SBE_BLOCK_LENGTH, depth_update_codec::SBE_TEMPLATE_ID),
                ),
                off + HEADER_ENCODED_LENGTH,
                f,
            ),
            off + n,
        )
    } else {
        st
    }
}

/// Appending an execution report keeps the buffer length and the offset within it.
pub proof fn lemma_put_report_len(st: (Seq<u8>, int), f: ExecutionReportFields)
    requires
        0 <= st.1 <= st.0.len(),
    ensures
        put_report(st, f).0.len() == st.0.len(),
        st.1 <= put_report(st, f).1 <= st.0.len(),
{
    let (s, off) = st;
    if off + 80 <= s.len() {
        let h = header_for(execution_report_codec::SBE_BLOCK_LENGTH, execution_report_codec::SBE_TEMPLATE_ID);
        message_header_codec::lemma_roundtrip(s, off, h);
        execution_report_codec::lemma_roundtrip(message_header_codec::encode_spec(s, off, h), off + 8, f);
    }
}

/// Appending a public trade keeps the buffer length and the offset within it.
pub proof fn lemma_put_trade_len(st: (Seq<u8>, int), f: PublicTradeFields)
    requires
        0 <= st.1 <= st.0.len(),
    ensures
        put_trade(st, f).0.len() == st.0.len(),
        st.1 <= put_trade(st, f).1 <= st.0.len(),
{
    let (s, off) = st;
    if off + 56 <= s.len() {
        let h = header_for(public_trade_codec::SBE_BLOCK_LENGTH, public_trade_codec::SBE_TEMPLATE_ID);
        message_header_codec::lemma_roundtrip(s, off, h);
        public_trade_codec::lemma_roundtrip(message_header_codec::encode_spec(s, off, h), off + 8, f);
    }
}

/// Appending a depth update keeps the buffer length and the offset within it.
pub proof fn lemma_put_depth_len(st: (Seq<u8>, int), f: DepthUpdateFields)
    requires
        0 <= st.1 <= st.0.len(),
    ensures
        put_depth(st, f).0.len() == st.0.len(),
        st.1 <= put_depth(st, f).1 <= st.0.len(),
{
    let (s, off) = st;
    if off + 48 <= s.len() {
        let h = header_for(depth_update_codec::SBE_BLOCK_LENGTH, depth_update_codec::SBE_TEMPLATE_ID);
        message_header_codec::lemma_roundtrip(s, off, h);
        depth_update_codec::lemma_roundtrip(message_header_codec::encode_spec(s, off, h), off + 8, f);
    }
}

/// An execution report appended at `st.1` frames a report body whose first
/// field is the order id, and changes no byte outside its message.
proof fn lemma_report_frame(st: (Seq<u8>, int), f: ExecutionReportFields)
    requires
        0 <= st.1,
        st.1 + 80 <= st.0.len(),
    ensures
        ({
            let (s, off) = st;
            let t = put_report(st, f).0;
            &&& t.len() == s.len()
            &&& put_report(st, f).1 == off + 80
            &&& wire::le_u16(t, off) == execution_report_codec::SBE_BLOCK_LENGTH
            &&& wire::le_u16(t, off + 2) == execution_report_codec::SBE_TEMPLATE_ID
            &&& wire::le_u64(t, off + 8) == f.order_id
            &&& forall|i: int| 0 <= i < s.len() && (i < off || off + 80 <= i) ==> #[trigger] t[i] == s[i]
        }),
{
    let (s, off) = st;
    let h = header_for(execution_report_codec::SBE_BLOCK_LENGTH, execution_report_codec::SBE_TEMPLATE_ID);
    let s1 = message_header_codec::encode_spec(s, off, h);
    message_header_codec::lemma_roundtrip(s, off, h);
    execution_report_codec::lemma_roundtrip(s1, off + 8, f);
    let t = execution_report_codec::encode_spec(s1, off + 8, f);
    wire::lemma_le_u16_same_bytes(t, s1, off);
    wire::lemma_le_u16_same_bytes(t, s1, off + 2);
}

/// A public trade appended at `st.1` frames a trade body with its id,
/// price and quantity first, and changes no byte outside its message.
proof fn lemma_trade_frame(st: (Seq<u8>, int), f: PublicTradeFields)
    requires
        0 <= st.1,
        st.1 + 56 <= st.0.len(),
    ensures
        ({
            let (s, off) = st;
            let t = put_trade(st, f).0;
            &&& t.len() == s.len()
            &&& put_trade(st, f).1 == off + 56
            &&& wire::le_u16(t, off) == public_trade_codec::SBE_BLOCK_LENGTH
            &&& wire::le_u16(t, off + 2) == public_trade_codec::SBE_TEMPLATE_ID
            &&& wire::le_u64(t, off + 8) == f.trade_id
            &&& wire::le_u64(t, off + 16) == f.price
            &&& wire::le_u64(t, off + 24) == f.quantity
            &&& forall|i: int| 0 <= i < s.len() && (i < off || off + 56 <= i) ==> #[trigger] t[i] == s[i]
        }),
{
    let (s, off) = st;
    let h = header_for(public_trade_codec::SBE_BLOCK_LENGTH, public_trade_codec::SBE_TEMPLATE_ID);
    let s1 = message_header_codec::encode_spec(s, off, h);
    message_header_codec::lemma_roundtrip(s, off, h);
    public_trade_codec::lemma_roundtrip(s1, off + 8, f);
    let t = public_trade_codec::encode_spec(s1, off + 8, f);
    wire::lemma_le_u16_same_bytes(t, s1, off);
    wire::lemma_le_u16_same_bytes(t, s1, off + 2);
}

/// What the listener writes for one trade reads back as that trade: two
/// execution reports followed by a public trade, appended at `st.1`, are
/// walked as one trade of the first reported order (the maker) with the
/// second (the taker), at the trade's price and quantity, and the walk
/// goes on after them with those two orders as the last ones reported.
pub proof fn lemma_trade_reads_back(
    st: (Seq<u8>, int),
    maker: ExecutionReportFields,
    taker: ExecutionReportFields,
    t: PublicTradeFields,
    p2: u64,
    p1: u64,
)
    requires
        0 <= st.1,
        st.1 + 216 <= st.0.len(),
    ensures
        ({
            let s = put_trade(put_report(put_report(st, maker), taker), t).0;
            trades_spec(s, st.1, p2, p1) == seq![
                Trade {
                    trade_id: t.trade_id,
                    maker_order_id: maker.order_id,
                    taker_order_id: taker.order_id,
                    price: t.price,
                    quantity: t.quantity,
                },
            ] + trades_spec(s, st.1 + 216, maker.order_id, taker.order_id)
        }),
{
    let off = st.1;
    let st1 = put_report(st, maker);
    lemma_report_frame(st, maker);
    let st2 = put_report(st1, taker);
    lemma_report_frame(st1, taker);
    let st3 = put_trade(st2, t);
    lemma_trade_frame(st2, t);
    let s1 = st1.0;
    let s2 = st2.0;
    let s = st3.0;
    // the first report survives the two later messages
    assert forall|i: int| off <= i < off + 80 implies s[i] == s1[i] by {
        assert(s[i] == s2[i]);
    }
    wire::lemma_le_u16_same_bytes(s, s1, off);
    wire::lemma_le_u16_same_bytes(s, s1, off + 2);
    wire::lemma_le_u64_same_bytes(s, s1, off + 8);
    // the second report survives the trade
    wire::lemma_le_u16_same_bytes(s, s2, off + 80);
    wire::lemma_le_u16_same_bytes(s, s2, off + 82);
    wire::lemma_le_u64_same_bytes(s, s2, off + 88);
    assert(msg_fits(s, off));
    assert(msg_next(s, off) == off + 80);
    assert(trades_spec(s, off, p2, p1) == trades_spec(s, off + 80, p1, maker.order_id));
    assert(msg_fits(s, off + 80));
    assert(msg_next(s, off + 80) == off + 160);
    assert(trades_spec(s, off + 80, p1, maker.order_id) == trades_spec(s, off + 160, maker.order_id, taker.order_id));
    assert(msg_fits(s, off + 160));
    assert(msg_next(s, off + 160) == off + 216);
}

/// Writes every event as SBE messages into `response_buffer`; a message
/// that does not fit in what is left of the buffer is left out.
pub struct SbeEncoderListener<'a> {
    pub response_buffer: &'a mut [u8],
    /// The trades the listener has been told of, in order.
    pub told: Ghost<Seq<Fill>>,
}

impl<'a> SbeEncoderListener<'a> {
    /// Contents of the buffer.
    pub open spec fn bytes(&self) -> Seq<u8> {
        self.response_buffer@
    }

    /// A listener writing into `buffer`.
    pub fn new(buffer: &'a mut [u8]) -> (r: Self)
        ensures
            r.response_buffer@ == old(buffer)@,
            r.told@ == Seq::<Fill>::empty(),
    {
        SbeEncoderListener { response_buffer: buffer, told: Ghost(Seq::empty()) }
    }

    fn encode_execution_report(
        &mut self,
        order: &OrderData,
        status: SbeOrderStatus,
        ts: Timestamp,
        seq: SequenceNumber,
        offset: &mut usize,
    )
        requires
            *old(offset) <= old(self).response_buffer@.len(),
        ensures
            final(self).told == old(self).told,
            (final(self).response_buffer@, *final(offset) as int) == put_report(
                (old(self).response_buffer@, *old(offset) as int),
                report_fields(*order, status, ts, seq),
            ),
    {
        let off = *offset;
        let n = HEADER_ENCODED_LENGTH + execution_report_codec::SBE_BLOCK_LENGTH as usize;
        if n > self.response_buffer.len() - off {
            return;
        }
        let h = MessageHeaderFields {
            block_length: execution_report_codec::SBE_BLOCK_LENGTH,
            template_id: execution_report_codec::SBE_TEMPLATE_ID,
            schema_id: SBE_SCHEMA_ID,
            version: SBE_SCHEMA_VERSION,
        };
        message_header_codec::encode(self.response_buffer, off, &h);
        let f = ExecutionReportFields {
            order_id: order.order_id.0,
            user_id: order.user_id.0,
            status,
            side: order.side,
            price: order.price.0,
            quantity: if order.remaining_qty.0 <= u64::MAX - order.filled_qty.0 {
                order.remaining_qty.0 + order.filled_qty.0
            } else {
                order.remaining_qty.0 - (u64::MAX - order.filled_qty.0) - 1
            },
            leaves_qty: order.remaining_qty.0,
            cum_qty: order.filled_qty.0,
            timestamp: ts.0,
            sequence_number: seq.0,
        };
        proof {
            message_header_codec::lemma_roundtrip(old(self).response_buffer@, off as int, h);
        }
        execution_report_codec::encode(self.response_buffer, off + HEADER_ENCODED_LENGTH, &f);
        *offset = off + n;
        proof {
            assert(f == report_fields(*order, status, ts, seq));
        }
    }

    fn encode_public_trade(
        &mut self,
        taker: &OrderData,
        trade_qty: Quantity,
        trade_price: Price,
        ts: Timestamp,
        seq: SequenceNumber,
        trade_id: u64,
        offset: &mut usize,
    )
        requires
            *old(offset) <= old(self).response_buffer@.len(),
        ensures
            final(self).told == old(self).told,
            (final(self).response_buffer@, *final(offset) as int) == put_trade(
                (old(self).response_buffer@, *old(offset) as int),
                PublicTradeFields {
                    trade_id,
                    price: trade_price.0,
                    quantity: trade_qty.0,
                    side: taker.side,
                    timestamp: ts.0,
                    sequence_number: seq.0,
                },
            ),
    {
        let off = *offset;
        let n = HEADER_ENCODED_LENGTH + public_trade_codec::SBE_BLOCK_LENGTH as usize;
        if n > self.response_buffer.len() - off {
            return;
        }
        let h = MessageHeaderFields {
            block_length: public_trade_codec::SBE_BLOCK_LENGTH,
            template_id: public_trade_codec::SBE_TEMPLATE_ID,
            schema_id: SBE_SCHEMA_ID,
            version: SBE_SCHEMA_VERSION,
        };
        message_header_codec::encode(self.response_buffer, off, &h);
        let f = PublicTradeFields {
            trade_id,
            price: trade_price.0,
            quantity: trade_qty.0,
            side: taker.side,
            timestamp: ts.0,
            sequence_number: seq.0,
        };
        proof {
            message_header_codec::lemma_roundtrip(old(self).response_buffer@, off as int, h);
        }
        public_trade_codec::encode(self.response_buffer, off + HEADER_ENCODED_LENGTH, &f);
        *offset = off + n;
    }
}

impl<'a> OrderEventListener for SbeEncoderListener<'a> {
    open spec fn payload_capacity(&self) -> nat {
        self.response_buffer@.len()
    }

    open spec fn counts_trades(&self) -> bool {
        true
    }

    open spec fn told_trades(&self) -> Seq<Fill> {
        self.told@
    }

    fn on_accepted(&mut self, order: &OrderData, ts: Timestamp, seq: SequenceNumber, offset: &mut usize)
        ensures
            (final(self).response_buffer@, *final(offset) as int) == put_report(
                (old(self).response_buffer@, *old(offset) as int),
                report_fields(*order, SbeOrderStatus::order_new, ts, seq),
            ),
    {
        proof {
            lemma_put_report_len(
                (old(self).response_buffer@, *old(offset) as int),
                report_fields(*order, SbeOrderStatus::order_new, ts, seq),
            );
        }
        self.encode_execution_report(order, SbeOrderStatus::order_new, ts, seq, offset);
    }

    fn on_cancelled(&mut self, order: &OrderData, ts: Timestamp, seq: SequenceNumber, offset: &mut usize)
        ensures
            (final(self).response_buffer@, *final(offset) as int) == put_report(
                (old(self).response_buffer@, *old(offset) as int),
                report_fields(*order, SbeOrderStatus::cancelled, ts, seq),
            ),
    {
        proof {
            lemma_put_report_len(
                (old(self).response_buffer@, *old(offset) as int),
                report_fields(*order, SbeOrderStatus::cancelled, ts, seq),
            );
        }
        self.encode_execution_report(order, SbeOrderStatus::cancelled, ts, seq, offset);
    }

    fn on_rejected(&mut self, order: &OrderData, ts: Timestamp, seq: SequenceNumber, offset: &mut usize)
        ensures
            (final(self).response_buffer@, *final(offset) as int) == put_report(
                (old(self).response_buffer@, *old(offset) as int),
                report_fields(*order, SbeOrderStatus::rejected, ts, seq),
            ),
    {
        proof {
            lemma_put_report_len(
                (old(self).response_buffer@, *old(offset) as int),
                report_fields(*order, SbeOrderStatus::rejected, ts, seq),
            );
        }
        self.encode_execution_report(order, SbeOrderStatus::rejected, ts, seq, offset);
    }

    fn on_amended(&mut self, order: &OrderData, ts: Timestamp, seq: SequenceNumber, offset: &mut usize)
        ensures
            (final(self).response_buffer@, *final(offset) as int) == put_report(
                (old(self).response_buffer@, *old(offset) as int),
                report_fields(*order, SbeOrderStatus::order_new, ts, seq),
            ),
    {
        proof {
            lemma_put_report_len(
                (old(self).response_buffer@, *old(offset) as int),
                report_fields(*order, SbeOrderStatus::order_new, ts, seq),
            );
        }
        self.encode_execution_report(order, SbeOrderStatus::order_new, ts, seq, offset);
    }

    fn on_expired(&mut self, order: &OrderData, ts: Timestamp, seq: SequenceNumber, offset: &mut usize)
        ensures
            (final(self).response_buffer@, *final(offset) as int) == put_report(
                (old(self).response_buffer@, *old(offset) as int),
                report_fields(*order, SbeOrderStatus::expired, ts, seq),
            ),
    {
        proof {
            lemma_put_report_len(
                (old(self).response_buffer@, *old(offset) as int),
                report_fields(*order, SbeOrderStatus::expired, ts, seq),
            );
        }
        self.encode_execution_report(order, SbeOrderStatus::expired, ts, seq, offset);
    }

    fn on_trade(
        &mut self,
        maker: &OrderData,
        taker: &OrderData,
        trade_qty: Quantity,
        trade_price: Price,
        ts: Timestamp,
        seq: SequenceNumber,
        trade_id: u64,
        offset: &mut usize,
    )
        ensures
            (final(self).response_buffer@, *final(offset) as int) == put_trade(
                put_report(
                    put_report(
                        (old(self).response_buffer@, *old(offset) as int),
                        report_fields(*maker, SbeOrderStatus::traded, ts, seq),
                    ),
                    report_fields(*taker, SbeOrderStatus::traded, ts, seq),
                ),
                PublicTradeFields {
                    trade_id,
                    price: trade_price.0,
                    quantity: trade_qty.0,
                    side: taker.side,
                    timestamp: ts.0,
                    sequence_number: seq.0,
                },
            ),
    {
        let ghost st0 = (old(self).response_buffer@, *old(offset) as int);
        let ghost st1 = put_report(st0, report_fields(*maker, SbeOrderStatus::traded, ts, seq));
        let ghost st2 = put_report(st1, report_fields(*taker, SbeOrderStatus::traded, ts, seq));
        proof {
            lemma_put_report_len(st0, report_fields(*maker, SbeOrderStatus::traded, ts, seq));
            lemma_put_report_len(st1, report_fields(*taker, SbeOrderStatus::traded, ts, seq));
            lemma_put_trade_len(
                st2,
                PublicTradeFields {
                    trade_id,
                    price: trade_price.0,
                    quantity: trade_qty.0,
                    side: taker.side,
                    timestamp: ts.0,
                    sequence_number: seq.0,
                },
            );
        }
        self.encode_execution_report(maker, SbeOrderStatus::traded, ts, seq, offset);
        self.encode_execution_report(taker, SbeOrderStatus::traded, ts, seq, offset);
        self.encode_public_trade(taker, trade_qty, trade_price, ts, seq, trade_id, offset);
        proof {
            self.told@ = self.told@.push(
                Fill {
                    maker_order_id: maker.order_id.0,
                    taker_order_id: taker.order_id.0,
                    price: trade_price.0,
                    quantity: trade_qty.0,
                },
            );
        }
    }

    fn on_depth_update(
        &mut self,
        price: Price,
        qty: Quantity,
        side: Side,
        ts: Timestamp,
        seq: SequenceNumber,
        offset: &mut usize,
    )
        ensures
            (final(self).response_buffer@, *final(offset) as int) == put_depth(
                (old(self).response_buffer@, *old(offset) as int),
                DepthUpdateFields {
                    price: price.0,
                    quantity: qty.0,
                    side,
                    timestamp: ts.0,
                    sequence_number: seq.0,
                },
            ),
    {
        proof {
            lemma_put_depth_len(
                (old(self).response_buffer@, *old(offset) as int),
                DepthUpdateFields {
                    price: price.0,
                    quantity: qty.0,
                    side,
                    timestamp: ts.0,
                    sequence_number: seq.0,
                },
            );
        }
        let off = *offset;
        let n = HEADER_ENCODED_LENGTH + depth_update_codec::SBE_BLOCK_LENGTH as usize;
        if n > self.response_buffer.len() - off {
            return;
        }
        let h = MessageHeaderFields {
            block_length: depth_update_codec::SBE_BLOCK_LENGTH,
            template_id: depth_update_codec::SBE_TEMPLATE_ID,
            schema_id: SBE_SCHEMA_ID,
            version: SBE_SCHEMA_VERSION,
        };
        message_header_codec::encode(self.response_buffer, off, &h);
        let f = DepthUpdateFields {
            price: price.0,
            quantity: qty.0,
            side,
            timestamp: ts.0,
            sequence_number: seq.0,
        };
        proof {
            message_header_codec::lemma_roundtrip(old(self).response_buffer@, off as int, h);
        }
        depth_update_codec::encode(self.response_buffer, off + HEADER_ENCODED_LENGTH, &f);
        *offset = off + n;
    }

    fn get_payload(&self, offset: usize) -> (r: &[u8])
        ensures
            r@ == self.bytes().subrange(0, offset as int),
    {
        &self.response_buffer[0..offset]
    }
}

} // verus!
