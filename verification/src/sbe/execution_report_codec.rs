use vstd::prelude::*;
use super::wire;
use super::order_status;
use super::order_status::OrderStatus;
use super::side;
use super::side::Side;

verus! {

/// Length in bytes of the body of a `ExecutionReport` message.
pub const SBE_BLOCK_LENGTH: u16 = 72;

/// Template identifier of a `ExecutionReport` message in its header.
pub const SBE_TEMPLATE_ID: u16 = 5;

/// Field values of a `ExecutionReport` message: private execution report of one order.
#[derive(Clone, Copy, Debug, PartialEq, Eq)]
pub struct ExecutionReportFields {
    pub order_id: u64,
    pub user_id: u64,
    pub status: OrderStatus,
    pub side: Side,
    pub price: u64,
    pub quantity: u64,
    pub leaves_qty: u64,
    pub cum_qty: u64,
    pub timestamp: u64,
    pub sequence_number: u64,
}

/// The fields of the `ExecutionReport` body that starts at `off` in `s`.
pub open spec fn decode_spec(s: Seq<u8>, off: int) -> ExecutionReportFields {
    ExecutionReportFields {
        order_id: wire::le_u64(s, off + 0),
        user_id: wire::le_u64(s, off + 8),
        status: order_status::order_status_from_u8_spec(s[off + 16]),
        side: side::side_from_u8_spec(s[off + 17]),
        price: wire::le_u64(s, off + 18),
        quantity: wire::le_u64(s, off + 26),
        leaves_qty: wire::le_u64(s, off + 34),
        cum_qty: wire::le_u64(s, off + 42),
        timestamp: wire::le_u64(s, off + 50),
        sequence_number: wire::le_u64(s, off + 58),
    }
}

/// `s` after the fields of `f` are written into the `ExecutionReport` body at `off`.
pub open spec fn encode_spec(s: Seq<u8>, off: int, f: ExecutionReportFields) -> Seq<u8> {
    wire::write_bytes(wire::write_bytes(wire::write_bytes(wire::write_bytes(wire::write_bytes(wire::write_bytes(wire::write_bytes(wire::write_bytes(wire::write_bytes(wire::write_bytes(s, off + 0, wire::u64_le_bytes(f.order_id)), off + 8, wire::u64_le_bytes(f.user_id)), off + 16, seq![order_status::order_status_to_u8_spec(f.status)]), off + 17, seq![side::side_to_u8_spec(f.side)]), off + 18, wire::u64_le_bytes(f.price)), off + 26, wire::u64_le_bytes(f.quantity)), off + 34, wire::u64_le_bytes(f.leaves_qty)), off + 42, wire::u64_le_bytes(f.cum_qty)), off + 50, wire::u64_le_bytes(f.timestamp)), off + 58, wire::u64_le_bytes(f.sequence_number))
}

/// Writes the fields of `f` into the `ExecutionReport` body that starts at `offset`.
pub fn encode(buf: &mut [u8], offset: usize, f: &ExecutionReportFields)
    requires
        offset + SBE_BLOCK_LENGTH <= old(buf).len(),
    ensures
        final(buf)@ == encode_spec(old(buf)@, offset as int, *f),
{
    wire::put_u64_at(buf, offset + 0, f.order_id);
    wire::put_u64_at(buf, offset + 8, f.user_id);
    wire::put_u8_at(buf, offset + 16, f.status.to_u8());
    wire::put_u8_at(buf, offset + 17, f.side.to_u8());
    wire::put_u64_at(buf, offset + 18, f.price);
    wire::put_u64_at(buf, offset + 26, f.quantity);
    wire::put_u64_at(buf, offset + 34, f.leaves_qty);
    wire::put_u64_at(buf, offset + 42, f.cum_qty);
    wire::put_u64_at(buf, offset + 50, f.timestamp);
    wire::put_u64_at(buf, offset + 58, f.sequence_number);
}

/// Decoding a `ExecutionReport` body gives back the fields that were encoded into it,
/// and bytes outside the body are left unchanged.
pub proof fn lemma_roundtrip(s: Seq<u8>, off: int, f: ExecutionReportFields)
    requires
        0 <= off,
        off + SBE_BLOCK_LENGTH <= s.len(),
    ensures
        decode_spec(encode_spec(s, off, f), off) == f,
        encode_spec(s, off, f).len() == s.len(),
        forall|i: int| 0 <= i < s.len() && (i < off || off + SBE_BLOCK_LENGTH <= i) ==> #[trigger] encode_spec(s, off, f)[i] == s[i],
{
    let s0 = s;
    let s1 = wire::write_bytes(s0, off + 0, wire::u64_le_bytes(f.order_id));
    wire::lemma_write_frame(s0, off + 0, wire::u64_le_bytes(f.order_id));
    let s2 = wire::write_bytes(s1, off + 8, wire::u64_le_bytes(f.user_id));
    wire::lemma_write_frame(s1, off + 8, wire::u64_le_bytes(f.user_id));
    let s3 = wire::write_bytes(s2, off + 16, seq![order_status::order_status_to_u8_spec(f.status)]);
    wire::lemma_write_frame(s2, off + 16, seq![order_status::order_status_to_u8_spec(f.status)]);
    let s4 = wire::write_bytes(s3, off + 17, seq![side::side_to_u8_spec(f.side)]);
    wire::lemma_write_frame(s3, off + 17, seq![side::side_to_u8_spec(f.side)]);
    let s5 = wire::write_bytes(s4, off + 18, wire::u64_le_bytes(f.price));
    wire::lemma_write_frame(s4, off + 18, wire::u64_le_bytes(f.price));
    let s6 = wire::write_bytes(s5, off + 26, wire::u64_le_bytes(f.quantity));
    wire::lemma_write_frame(s5, off + 26, wire::u64_le_bytes(f.quantity));
    let s7 = wire::write_bytes(s6, off + 34, wire::u64_le_bytes(f.leaves_qty));
    wire::lemma_write_frame(s6, off + 34, wire::u64_le_bytes(f.leaves_qty));
    let s8 = wire::write_bytes(s7, off + 42, wire::u64_le_bytes(f.cum_qty));
    wire::lemma_write_frame(s7, off + 42, wire::u64_le_bytes(f.cum_qty));
    let s9 = wire::write_bytes(s8, off + 50, wire::u64_le_bytes(f.timestamp));
    wire::lemma_write_frame(s8, off + 50, wire::u64_le_bytes(f.timestamp));
    let s10 = wire::write_bytes(s9, off + 58, wire::u64_le_bytes(f.sequence_number));
    wire::lemma_write_frame(s9, off + 58, wire::u64_le_bytes(f.sequence_number));
    let t = s10;
    assert(t == encode_spec(s, off, f));
    assert forall|j: int| off + 0 <= j < off + 8 implies t[j] == s1[j] by {
    }
    wire::lemma_le_u64_same_bytes(t, s1, off + 0);
    wire::lemma_read_after_write_u64(s0, off + 0, f.order_id, off + 0);
    assert forall|j: int| off + 8 <= j < off + 16 implies t[j] == s2[j] by {
    }
    wire::lemma_le_u64_same_bytes(t, s2, off + 8);
    wire::lemma_read_after_write_u64(s1, off + 8, f.user_id, off + 8);
    assert forall|j: int| off + 16 <= j < off + 17 implies t[j] == s3[j] by {
    }
    order_status::lemma_order_status_roundtrip(f.status);
    assert forall|j: int| off + 17 <= j < off + 18 implies t[j] == s4[j] by {
    }
    side::lemma_side_roundtrip(f.side);
    assert forall|j: int| off + 18 <= j < off + 26 implies t[j] == s5[j] by {
    }
    wire::lemma_le_u64_same_bytes(t, s5, off + 18);
    wire::lemma_read_after_write_u64(s4, off + 18, f.price, off + 18);
    assert forall|j: int| off + 26 <= j < off + 34 implies t[j] == s6[j] by {
    }
    wire::lemma_le_u64_same_bytes(t, s6, off + 26);
    wire::lemma_read_after_write_u64(s5, off + 26, f.quantity, off + 26);
    assert forall|j: int| off + 34 <= j < off + 42 implies t[j] == s7[j] by {
    }
    wire::lemma_le_u64_same_bytes(t, s7, off + 34);
    wire::lemma_read_after_write_u64(s6, off + 34, f.leaves_qty, off + 34);
    assert forall|j: int| off + 42 <= j < off + 50 implies t[j] == s8[j] by {
    }
    wire::lemma_le_u64_same_bytes(t, s8, off + 42);
    wire::lemma_read_after_write_u64(s7, off + 42, f.cum_qty, off + 42);
    assert forall|j: int| off + 50 <= j < off + 58 implies t[j] == s9[j] by {
    }
    wire::lemma_le_u64_same_bytes(t, s9, off + 50);
    wire::lemma_read_after_write_u64(s8, off + 50, f.timestamp, off + 50);
    assert forall|j: int| off + 58 <= j < off + 66 implies t[j] == s10[j] by {
    }
    wire::lemma_le_u64_same_bytes(t, s10, off + 58);
    wire::lemma_read_after_write_u64(s9, off + 58, f.sequence_number, off + 58);
}

/// Read access to a `ExecutionReport` body inside a byte buffer.
pub struct ExecutionReportDecoder<'a> {
    pub buf: &'a [u8],
    pub offset: usize,
    pub acting_block_length: u16,
    pub acting_version: u16,
}

impl<'a> ExecutionReportDecoder<'a> {
    /// The whole body lies inside the buffer.
    pub open spec fn wf(&self) -> bool {
        self.offset + SBE_BLOCK_LENGTH <= self.buf.len()
    }

    /// The field values that this decoder reads.
    pub open spec fn fields(&self) -> ExecutionReportFields {
        decode_spec(self.buf@, self.offset as int)
    }

    /// A decoder for the body at `offset` of `buf`.
    pub fn wrap(buf: &'a [u8], offset: usize, acting_block_length: u16, acting_version: u16) -> (r: Self)
        ensures
            r.buf@ == buf@,
            r.offset == offset,
            r.acting_block_length == acting_block_length,
            r.acting_version == acting_version,
    {
        ExecutionReportDecoder { buf, offset, acting_block_length, acting_version }
    }

    /// Length in bytes of the body, as the sender declared it.
    pub fn encoded_length(&self) -> (r: usize)
        ensures
            r == self.acting_block_length,
    {
        self.acting_block_length as usize
    }

    /// Field `order_id`.
    pub fn order_id(&self) -> (r: u64)
        requires
            self.wf(),
        ensures
            r == self.fields().order_id,
    {
        wire::get_u64_at(self.buf, self.offset + 0)
    }

    /// Field `user_id`.
    pub fn user_id(&self) -> (r: u64)
        requires
            self.wf(),
        ensures
            r == self.fields().user_id,
    {
        wire::get_u64_at(self.buf, self.offset + 8)
    }

    /// Field `status`.
    pub fn status(&self) -> (r: OrderStatus)
        requires
            self.wf(),
        ensures
            r == self.fields().status,
    {
        OrderStatus::from_u8(wire::get_u8_at(self.buf, self.offset + 16))
    }

    /// Field `side`.
    pub fn side(&self) -> (r: Side)
        requires
            self.wf(),
        ensures
            r == self.fields().side,
    {
        Side::from_u8(wire::get_u8_at(self.buf, self.offset + 17))
    }

    /// Field `price`.
    pub fn price(&self) -> (r: u64)
        requires
            self.wf(),
        ensures
            r == self.fields().price,
    {
        wire::get_u64_at(self.buf, self.offset + 18)
    }

    /// Field `quantity`.
    pub fn quantity(&self) -> (r: u64)
        requires
            self.wf(),
        ensures
            r == self.fields().quantity,
    {
        wire::get_u64_at(self.buf, self.offset + 26)
    }

    /// Field `leaves_qty`.
    pub fn leaves_qty(&self) -> (r: u64)
        requires
            self.wf(),
        ensures
            r == self.fields().leaves_qty,
    {
        wire::get_u64_at(self.buf, self.offset + 34)
    }

    /// Field `cum_qty`.
    pub fn cum_qty(&self) -> (r: u64)
        requires
            self.wf(),
        ensures
            r == self.fields().cum_qty,
    {
        wire::get_u64_at(self.buf, self.offset + 42)
    }

    /// Field `timestamp`.
    pub fn timestamp(&self) -> (r: u64)
        requires
            self.wf(),
        ensures
            r == self.fields().timestamp,
    {
        wire::get_u64_at(self.buf, self.offset + 50)
    }

    /// Field `sequence_number`.
    pub fn sequence_number(&self) -> (r: u64)
        requires
            self.wf(),
        ensures
            r == self.fields().sequence_number,
    {
        wire::get_u64_at(self.buf, self.offset + 58)
    }

}

} // verus!
