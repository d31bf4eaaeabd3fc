//! What a command produces: a report of the applied command, or the
//! reason it was refused, and typed reads of the messages it emitted.
use vstd::prelude::*;
use crate::sbe::execution_report_codec;
use crate::sbe::execution_report_codec::ExecutionReportDecoder;
use crate::sbe::public_trade_codec;
use crate::sbe::wire;
use crate::sbe::wire::HEADER_ENCODED_LENGTH;
use crate::types::{OrderId, Timestamp};

verus! {

/// Status of the order that a command acted on.
#[derive(Debug, Clone, Copy, PartialEq, Eq, Structural)]
pub enum OrderStatus {
    New,
    PartiallyFilled,
    Filled,
    Cancelled,
    Rejected,
}

/// Why a command was refused.
#[derive(Debug, Clone, Copy, PartialEq, Eq, Structural)]
pub enum CommandFailure {
    SequenceGap,
    OrderNotFound,
    InvalidOrder,
    LiquidityInsufficient,
    PostOnlyViolation,
    Expired,
    InvalidPrice,
    DuplicateOrderId,
    CapacityExceeded,
    InvalidOrderId,
    SystemHalted,
}

/// Report of an applied command, with the messages it emitted.
#[derive(Debug)]
pub struct CommandReport<'a> {
    pub order_id: OrderId,
    pub status: OrderStatus,
    pub timestamp: Timestamp,
    pub payload: &'a [u8],
}

/// Result of a command.
#[derive(Debug)]
pub enum CommandOutcome<'a> {
    Applied(CommandReport<'a>),
    Rejected(CommandFailure),
}

/// Body length that the message header at `off` declares.
pub open spec fn msg_block_len(s: Seq<u8>, off: int) -> int {
    wire::le_u16(s, off) as int
}

/// Template that the message header at `off` declares.
pub open spec fn msg_template(s: Seq<u8>, off: int) -> u16 {
    wire::le_u16(s, off + 2)
}

/// Whether a whole message (header and declared body) starts at `off`.
pub open spec fn msg_fits(s: Seq<u8>, off: int) -> bool {
    0 <= off && off + 8 <= s.len() && off + 8 + msg_block_len(s, off) <= s.len()
}

/// Offset of the message after the one at `off`.
pub open spec fn msg_next(s: Seq<u8>, off: int) -> int {
    off + 8 + msg_block_len(s, off)
}

/// Scanning messages from `off` on: the body offset of the first execution
/// report and the offset of the message after it. The scan stops at the
/// first message that does not fit, or at an execution report whose body
/// is shorter than the report layout.
pub open spec fn next_report_spec(s: Seq<u8>, off: int) -> Option<(int, int)>
    decreases s.len() - off,
{
    if !msg_fits(s, off) {
        None
    } else if msg_template(s, off) == execution_report_codec::SBE_TEMPLATE_ID {
        if execution_report_codec::SBE_BLOCK_LENGTH <= msg_block_len(s, off) {
            Some((off + 8, msg_next(s, off)))
        } else {
            None
        }
    } else {
        next_report_spec(s, msg_next(s, off))
    }
}

/// One trade: the public trade record with the execution reports of the
/// maker and of the taker that precede it.
#[derive(Debug, Clone, Copy, PartialEq, Eq, Structural)]
pub struct Trade {
    pub trade_id: u64,
    pub maker_order_id: u64,
    pub taker_order_id: u64,
    pub price: u64,
    pub quantity: u64,
}

impl Trade {
    /// Trade price.
    pub fn price(&self) -> (r: u64)
        ensures
            r == self.price,
    {
        self.price
    }

    /// Traded quantity.
    pub fn quantity(&self) -> (r: u64)
        ensures
            r == self.quantity,
    {
        self.quantity
    }

    /// Order id of the resting side.
    pub fn maker_order_id(&self) -> (r: u64)
        ensures
            r == self.maker_order_id,
    {
        self.maker_order_id
    }

    /// Order id of the incoming side.
    pub fn taker_order_id(&self) -> (r: u64)
        ensures
            r == self.taker_order_id,
    {
        self.taker_order_id
    }

    /// Trade identifier.
    pub fn trade_id(&self) -> (r: u64)
        ensures
            r == self.trade_id,
    {
        self.trade_id
    }
}

/// Trades recorded in the messages from `off` on, where `p2` and `p1` are
/// the order ids of the last two execution reports before `off`.
pub open spec fn trades_spec(s: Seq<u8>, off: int, p2: u64, p1: u64) -> Seq<Trade>
    decreases s.len() - off,
{
    if !msg_fits(s, off) {
        Seq::empty()
    } else {
        let b = off + 8;
        let bl = msg_block_len(s, off);
        let t = msg_template(s, off);
        if t == execution_report_codec::SBE_TEMPLATE_ID && 8 <= bl {
            trades_spec(s, msg_next(s, off), p1, wire::le_u64(s, b))
        } else if t == public_trade_codec::SBE_TEMPLATE_ID && 24 <= bl {
            seq![
                Trade {
                    trade_id: wire::le_u64(s, b),
                    maker_order_id: p2,
                    taker_order_id: p1,
                    price: wire::le_u64(s, b + 8),
                    quantity: wire::le_u64(s, b + 16),
                },
            ] + trades_spec(s, msg_next(s, off), p2, p1)
        } else {
            trades_spec(s, msg_next(s, off), p2, p1)
        }
    }
}

/// Walks the execution reports of a payload.
pub struct ExecutionReportIterator<'a> {
    payload: &'a [u8],
    offset: usize,
}

impl<'a> ExecutionReportIterator<'a> {
    /// The bytes walked.
    pub closed spec fn bytes(&self) -> Seq<u8> {
        self.payload@
    }

    /// Offset of the next message to look at.
    pub closed spec fn position(&self) -> int {
        self.offset as int
    }

    /// The next execution report, if any.
    pub fn next(&mut self) -> (r: Option<ExecutionReportDecoder<'a>>)
        ensures
            final(self).bytes() == old(self).bytes(),
            match next_report_spec(old(self).bytes(), old(self).position()) {
                Some((body, after)) => {
                    &&& r is Some
                    &&& r->Some_0.wf()
                    &&& r->Some_0.buf@ == old(self).bytes()
                    &&& r->Some_0.offset == body
                    &&& final(self).position() == after
                },
                None => r is None,
            },
    {
        let ghost s = self.payload@;
        let ghost start = self.offset as int;
        loop
            invariant
                s == old(self).bytes(),
                start == old(self).position(),
                self.payload@ == s,
                next_report_spec(s, self.offset as int) == next_report_spec(s, start),
            decreases s.len() - self.offset,
        {
            let off = self.offset;
            if self.payload.len() < 8 || off > self.payload.len() - 8 {
                return None;
            }
            let bl = wire::get_u16_at(self.payload, off) as usize;
            let template_id = wire::get_u16_at(self.payload, off + 2);
            if bl > self.payload.len() - 8 - off {
                return None;
            }
            let next = off + 8 + bl;
            if template_id == execution_report_codec::SBE_TEMPLATE_ID {
                if bl < execution_report_codec::SBE_BLOCK_LENGTH as usize {
                    return None;
                }
                let version = wire::get_u16_at(self.payload, off + 6);
                self.offset = next;
                return Some(
                    ExecutionReportDecoder::wrap(
                        self.payload,
                        off + HEADER_ENCODED_LENGTH,
                        bl as u16,
                        version,
                    ),
                );
            }
            self.offset = next;
        }
    }
}

impl<'a> CommandReport<'a> {
    /// The execution reports of the payload, from the start.
    pub fn execution_reports(&self) -> (r: ExecutionReportIterator<'a>)
        ensures
            r.bytes() == self.payload@,
            r.position() == 0,
    {
        ExecutionReportIterator { payload: self.payload, offset: 0 }
    }

    /// The trades recorded in the payload, in order.
    pub fn trades(&self) -> (r: Vec<Trade>)
        ensures
            r@ == trades_spec(self.payload@, 0, 0, 0),
    {
        let s = self.payload;
        let mut out: Vec<Trade> = Vec::new();
        let mut off: usize = 0;
        let mut p2: u64 = 0;
        let mut p1: u64 = 0;
        loop
            invariant
                s@ == self.payload@,
                off <= s@.len(),
                out@ + trades_spec(s@, off as int, p2, p1) == trades_spec(s@, 0, 0, 0),
            decreases s@.len() - off,
        {
            if s.len() < 8 || off > s.len() - 8 {
                assert(trades_spec(s@, off as int, p2, p1) =~= Seq::<Trade>::empty());
                assert(out@ + trades_spec(s@, off as int, p2, p1) =~= out@);
                return out;
            }
            let bl = wire::get_u16_at(s, off) as usize;
            let template_id = wire::get_u16_at(s, off + 2);
            if bl > s.len() - 8 - off {
                assert(trades_spec(s@, off as int, p2, p1) =~= Seq::<Trade>::empty());
                assert(out@ + trades_spec(s@, off as int, p2, p1) =~= out@);
                return out;
            }
            let body = off + 8;
            let next = body + bl;
            if template_id == execution_report_codec::SBE_TEMPLATE_ID && 8 <= bl {
                let id = wire::get_u64_at(s, body);
                p2 = p1;
                p1 = id;
            } else if template_id == public_trade_codec::SBE_TEMPLATE_ID && 24 <= bl {
                let t = Trade {
                    trade_id: wire::get_u64_at(s, body),
                    maker_order_id: p2,
                    taker_order_id: p1,
                    price: wire::get_u64_at(s, body + 8),
                    quantity: wire::get_u64_at(s, body + 16),
                };
                proof {
                    assert(out@.push(t) + trades_spec(s@, next as int, p2, p1) == out@ + trades_spec(
                        s@,
                        off as int,
                        p2,
                        p1,
                    ));
                }
                out.push(t);
            }
            off = next;
        }
    }
}

} // verus!
