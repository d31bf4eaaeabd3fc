use vstd::prelude::*;
use super::wire;
use super::order_flags::OrderFlags;
use super::order_type;
use super::order_type::OrderType;
use super::side;
use super::side::Side;
use super::time_in_force;
use super::time_in_force::TimeInForce;

verus! {

/// Length in bytes of the body of a `OrderSubmit` message.
pub const SBE_BLOCK_LENGTH: u16 = 64;

/// Template identifier of a `OrderSubmit` message in its header.
pub const SBE_TEMPLATE_ID: u16 = 1;

/// Field values of a `OrderSubmit` message: order submission (limit, market, stop).
#[derive(Clone, Copy, Debug, PartialEq, Eq)]
pub struct OrderSubmitFields {
    pub order_id: u64,
    pub user_id: u64,
    pub side: Side,
    pub order_type: OrderType,
    pub price: u64,
    pub quantity: u64,
    pub time_in_force: TimeInForce,
    pub flags: OrderFlags,
    pub timestamp: u64,
    pub sequence_number: u64,
}

/// The fields of the `OrderSubmit` body that starts at `off` in `s`.
pub open spec fn decode_spec(s: Seq<u8>, off: int) -> OrderSubmitFields {
    OrderSubmitFields {
        order_id: wire::le_u64(s, off + 0),
        user_id: wire::le_u64(s, off + 8),
        side: side::side_from_u8_spec(s[off + 16]),
        order_type: order_type::order_type_from_u8_spec(s[off + 17]),
        price: wire::le_u64(s, off + 18),
        quantity: wire::le_u64(s, off + 26),
        time_in_force: time_in_force::time_in_force_from_u8_spec(s[off + 34]),
        flags: OrderFlags(wire::le_u16(s, off + 35)),
        timestamp: wire::le_u64(s, off + 37),
        sequence_number: wire::le_u64(s, off + 45),
    }
}

/// `s` after the fields of `f` are written into the `OrderSubmit` body at `off`.
pub open spec fn encode_spec(s: Seq<u8>, off: int, f: OrderSubmitFields) -> Seq<u8> {
    wire::write_bytes(wire::write_bytes(wire::write_bytes(wire::write_bytes(wire::write_bytes(wire::write_bytes(wire::write_bytes(wire::write_bytes(wire::write_bytes(wire::write_bytes(s, off + 0, wire::u64_le_bytes(f.order_id)), off + 8, wire::u64_le_bytes(f.user_id)), off + 16, seq![side::side_to_u8_spec(f.side)]), off + 17, seq![order_type::order_type_to_u8_spec(f.order_type)]), off + 18, wire::u64_le_bytes(f.price)), off + 26, wire::u64_le_bytes(f.quantity)), off + 34, seq![time_in_force::time_in_force_to_u8_spec(f.time_in_force)]), off + 35, wire::u16_le_bytes(f.flags.0)), off + 37, wire::u64_le_bytes(f.timestamp)), off + 45, wire::u64_le_bytes(f.sequence_number))
}

/// Writes the fields of `f` into the `OrderSubmit` body that starts at `offset`.
pub fn encode(buf: &mut [u8], offset: usize, f: &OrderSubmitFields)
    requires
        offset + SBE_BLOCK_LENGTH <= old(buf).len(),
    ensures
        final(buf)@ == encode_spec(old(buf)@, offset as int, *f),
{
    wire::put_u64_at(buf, offset + 0, f.order_id);
    wire::put_u64_at(buf, offset + 8, f.user_id);
    wire::put_u8_at(buf, offset + 16, f.side.to_u8());
    wire::put_u8_at(buf, offset + 17, f.order_type.to_u8());
    wire::put_u64_at(buf, offset + 18, f.price);
    wire::put_u64_at(buf, offset + 26, f.quantity);
    wire::put_u8_at(buf, offset + 34, f.time_in_force.to_u8());
    wire::put_u16_at(buf, offset + 35, f.flags.0);
    wire::put_u64_at(buf, offset + 37, f.timestamp);
    wire::put_u64_at(buf, offset + 45, f.sequence_number);
}

/// Decoding a `OrderSubmit` body gives back the fields that were encoded into it,
/// and bytes outside the body are left unchanged.
pub proof fn lemma_roundtrip(s: Seq<u8>, off: int, f: OrderSubmitFields)
    requires
        0 <= off,
        off + SBE_BLOCK_LENGTH <= s.len(),
    ensures
        decode_spec(encode_spec(s, off, f), off) == f,
        encode_spec(s, off, f).len() == s.len(),
        forall|i: int| 0 <= i < s.len() && (i < off || off + SBE_BLOCK_LENGTH <= i) ==> #[trigger] encode_spec(s, off, f)[i] == s[i],
{
    let s0 = s;
    let s1 = wire::write_bytes(s0, off + 0, wire::u64_le_bytes(f.order_id));
    wire::lemma_write_frame(s0, off + 0, wire::u64_le_bytes(f.order_id));
    let s2 = wire::write_bytes(s1, off + 8, wire::u64_le_bytes(f.user_id));
    wire::lemma_write_frame(s1, off + 8, wire::u64_le_bytes(f.user_id));
    let s3 = wire::write_bytes(s2, off + 16, seq![side::side_to_u8_spec(f.side)]);
    wire::lemma_write_frame(s2, off + 16, seq![side::side_to_u8_spec(f.side)]);
    let s4 = wire::write_bytes(s3, off + 17, seq![order_type::order_type_to_u8_spec(f.order_type)]);
    wire::lemma_write_frame(s3, off + 17, seq![order_type::order_type_to_u8_spec(f.order_type)]);
    let s5 = wire::write_bytes(s4, off + 18, wire::u64_le_bytes(f.price));
    wire::lemma_write_frame(s4, off + 18, wire::u64_le_bytes(f.price));
    let s6 = wire::write_bytes(s5, off + 26, wire::u64_le_bytes(f.quantity));
    wire::lemma_write_frame(s5, off + 26, wire::u64_le_bytes(f.quantity));
    let s7 = wire::write_bytes(s6, off + 34, seq![time_in_force::time_in_force_to_u8_spec(f.time_in_force)]);
    wire::lemma_write_frame(s6, off + 34, seq![time_in_force::time_in_force_to_u8_spec(f.time_in_force)]);
    let s8 = wire::write_bytes(s7, off + 35, wire::u16_le_bytes(f.flags.0));
    wire::lemma_write_frame(s7, off + 35, wire::u16_le_bytes(f.flags.0));
    let s9 = wire::write_bytes(s8, off + 37, wire::u64_le_bytes(f.timestamp));
    wire::lemma_write_frame(s8, off + 37, wire::u64_le_bytes(f.timestamp));
    let s10 = wire::write_bytes(s9, off + 45, wire::u64_le_bytes(f.sequence_number));
    wire::lemma_write_frame(s9, off + 45, wire::u64_le_bytes(f.sequence_number));
    let t = s10;
    assert(t == encode_spec(s, off, f));
    assert forall|j: int| off + 0 <= j < off + 8 implies t[j] == s1[j] by {
    }
    wire::lemma_le_u64_same_bytes(t, s1, off + 0);
    wire::lemma_read_after_write_u64(s0, off + 0, f.order_id, off + 0);
    assert forall|j: int| off + 8 <= j < off + 16 implies t[j] == s2[j] by {
    }
    wire::lemma_le_u64_same_bytes(t, s2, off + 8);
    wire::lemma_read_after_write_u64(s1, off + 8, f.user_id, off + 8);
    assert forall|j: int| off + 16 <= j < off + 17 implies t[j] == s3[j] by {
    }
    side::lemma_side_roundtrip(f.side);
    assert forall|j: int| off + 17 <= j < off + 18 implies t[j] == s4[j] by {
    }
    order_type::lemma_order_type_roundtrip(f.order_type);
    assert forall|j: int| off + 18 <= j < off + 26 implies t[j] == s5[j] by {
    }
    wire::lemma_le_u64_same_bytes(t, s5, off + 18);
    wire::lemma_read_after_write_u64(s4, off + 18, f.price, off + 18);
    assert forall|j: int| off + 26 <= j < off + 34 implies t[j] == s6[j] by {
    }
    wire::lemma_le_u64_same_bytes(t, s6, off + 26);
    wire::lemma_read_after_write_u64(s5, off + 26, f.quantity, off + 26);
    assert forall|j: int| off + 34 <= j < off + 35 implies t[j] == s7[j] by {
    }
    time_in_force::lemma_time_in_force_roundtrip(f.time_in_force);
    assert forall|j: int| off + 35 <= j < off + 37 implies t[j] == s8[j] by {
    }
    wire::lemma_le_u16_same_bytes(t, s8, off + 35);
    wire::lemma_read_after_write_u16(s7, off + 35, f.flags.0, off + 35);
    assert forall|j: int| off + 37 <= j < off + 45 implies t[j] == s9[j] by {
    }
    wire::lemma_le_u64_same_bytes(t, s9, off + 37);
    wire::lemma_read_after_write_u64(s8, off + 37, f.timestamp, off + 37);
    assert forall|j: int| off + 45 <= j < off + 53 implies t[j] == s10[j] by {
    }
    wire::lemma_le_u64_same_bytes(t, s10, off + 45);
    wire::lemma_read_after_write_u64(s9, off + 45, f.sequence_number, off + 45);
}

/// Read access to a `OrderSubmit` body inside a byte buffer.
pub struct OrderSubmitDecoder<'a> {
    pub buf: &'a [u8],
    pub offset: usize,
    pub acting_block_length: u16,
    pub acting_version: u16,
}

impl<'a> OrderSubmitDecoder<'a> {
    /// The whole body lies inside the buffer.
    pub open spec fn wf(&self) -> bool {
        self.offset + SBE_BLOCK_LENGTH <= self.buf.len()
    }

    /// The field values that this decoder reads.
    pub open spec fn fields(&self) -> OrderSubmitFields {
        decode_spec(self.buf@, self.offset as int)
    }

    /// A decoder for the body at `offset` of `buf`.
    pub fn wrap(buf: &'a [u8], offset: usize, acting_block_length: u16, acting_version: u16) -> (r: Self)
        ensures
            r.buf@ == buf@,
            r.offset == offset,
            r.acting_block_length == acting_block_length,
            r.acting_version == acting_version,
    {
        OrderSubmitDecoder { buf, offset, acting_block_length, acting_version }
    }

    /// Length in bytes of the body, as the sender declared it.
    pub fn encoded_length(&self) -> (r: usize)
        ensures
            r == self.acting_block_length,
    {
        self.acting_block_length as usize
    }

    /// Field `order_id`.
    pub fn order_id(&self) -> (r: u64)
        requires
            self.wf(),
        ensures
            r == self.fields().order_id,
    {
        wire::get_u64_at(self.buf, self.offset + 0)
    }

    /// Field `user_id`.
    pub fn user_id(&self) -> (r: u64)
        requires
            self.wf(),
        ensures
            r == self.fields().user_id,
    {
        wire::get_u64_at(self.buf, self.offset + 8)
    }

    /// Field `side`.
    pub fn side(&self) -> (r: Side)
        requires
            self.wf(),
        ensures
            r == self.fields().side,
    {
        Side::from_u8(wire::get_u8_at(self.buf, self.offset + 16))
    }

    /// Field `order_type`.
    pub fn order_type(&self) -> (r: OrderType)
        requires
            self.wf(),
        ensures
            r == self.fields().order_type,
    {
        OrderType::from_u8(wire::get_u8_at(self.buf, self.offset + 17))
    }

    /// Field `price`.
    pub fn price(&self) -> (r: u64)
        requires
            self.wf(),
        ensures
            r == self.fields().price,
    {
        wire::get_u64_at(self.buf, self.offset + 18)
    }

    /// Field `quantity`.
    pub fn quantity(&self) -> (r: u64)
        requires
            self.wf(),
        ensures
            r == self.fields().quantity,
    {
        wire::get_u64_at(self.buf, self.offset + 26)
    }

    /// Field `time_in_force`.
    pub fn time_in_force(&self) -> (r: TimeInForce)
        requires
            self.wf(),
        ensures
            r == self.fields().time_in_force,
    {
        TimeInForce::from_u8(wire::get_u8_at(self.buf, self.offset + 34))
    }

    /// Field `flags`.
    pub fn flags(&self) -> (r: OrderFlags)
        requires
            self.wf(),
        ensures
            r == self.fields().flags,
    {
        OrderFlags::new(wire::get_u16_at(self.buf, self.offset + 35))
    }

    /// Field `timestamp`.
    pub fn timestamp(&self) -> (r: u64)
        requires
            self.wf(),
        ensures
            r == self.fields().timestamp,
    {
        wire::get_u64_at(self.buf, self.offset + 37)
    }

    /// Field `sequence_number`.
    pub fn sequence_number(&self) -> (r: u64)
        requires
            self.wf(),
        ensures
            r == self.fields().sequence_number,
    {
        wire::get_u64_at(self.buf, self.offset + 45)
    }

}

} // verus!
