use vstd::prelude::*;
use super::wire;

verus! {

/// Length in bytes of the body of a `OrderAmend` message.
pub const SBE_BLOCK_LENGTH: u16 = 40;

/// Template identifier of a `OrderAmend` message in its header.
pub const SBE_TEMPLATE_ID: u16 = 3;

/// Field values of a `OrderAmend` message: order amendment (new price and quantity).
#[derive(Clone, Copy, Debug, PartialEq, Eq)]
pub struct OrderAmendFields {
    pub order_id: u64,
    pub new_price: u64,
    pub new_quantity: u64,
    pub sequence_number: u64,
    pub timestamp: u64,
}

/// The fields of the `OrderAmend` body that starts at `off` in `s`.
pub open spec fn decode_spec(s: Seq<u8>, off: int) -> OrderAmendFields {
    OrderAmendFields {
        order_id: wire::le_u64(s, off + 0),
        new_price: wire::le_u64(s, off + 8),
        new_quantity: wire::le_u64(s, off + 16),
        sequence_number: wire::le_u64(s, off + 24),
        timestamp: wire::le_u64(s, off + 32),
    }
}

/// `s` after the fields of `f` are written into the `OrderAmend` body at `off`.
pub open spec fn encode_spec(s: Seq<u8>, off: int, f: OrderAmendFields) -> Seq<u8> {
    wire::write_bytes(wire::write_bytes(wire::write_bytes(wire::write_bytes(wire::write_bytes(s, off + 0, wire::u64_le_bytes(f.order_id)), off + 8, wire::u64_le_bytes(f.new_price)), off + 16, wire::u64_le_bytes(f.new_quantity)), off + 24, wire::u64_le_bytes(f.sequence_number)), off + 32, wire::u64_le_bytes(f.timestamp))
}

/// Writes the fields of `f` into the `OrderAmend` body that starts at `offset`.
pub fn encode(buf: &mut [u8], offset: usize, f: &OrderAmendFields)
    requires
        offset + SBE_BLOCK_LENGTH <= old(buf).len(),
    ensures
        final(buf)@ == encode_spec(old(buf)@, offset as int, *f),
{
    wire::put_u64_at(buf, offset + 0, f.order_id);
    wire::put_u64_at(buf, offset + 8, f.new_price);
    wire::put_u64_at(buf, offset + 16, f.new_quantity);
    wire::put_u64_at(buf, offset + 24, f.sequence_number);
    wire::put_u64_at(buf, offset + 32, f.timestamp);
}

/// Decoding a `OrderAmend` body gives back the fields that were encoded into it,
/// and bytes outside the body are left unchanged.
pub proof fn lemma_roundtrip(s: Seq<u8>, off: int, f: OrderAmendFields)
    requires
        0 <= off,
        off + SBE_BLOCK_LENGTH <= s.len(),
    ensures
        decode_spec(encode_spec(s, off, f), off) == f,
        encode_spec(s, off, f).len() == s.len(),
        forall|i: int| 0 <= i < s.len() && (i < off || off + SBE_BLOCK_LENGTH <= i) ==> #[trigger] encode_spec(s, off, f)[i] == s[i],
{
    let s0 = s;
    let s1 = wire::write_bytes(s0, off + 0, wire::u64_le_bytes(f.order_id));
    wire::lemma_write_frame(s0, off + 0, wire::u64_le_bytes(f.order_id));
    let s2 = wire::write_bytes(s1, off + 8, wire::u64_le_bytes(f.new_price));
    wire::lemma_write_frame(s1, off + 8, wire::u64_le_bytes(f.new_price));
    let s3 = wire::write_bytes(s2, off + 16, wire::u64_le_bytes(f.new_quantity));
    wire::lemma_write_frame(s2, off + 16, wire::u64_le_bytes(f.new_quantity));
    let s4 = wire::write_bytes(s3, off + 24, wire::u64_le_bytes(f.sequence_number));
    wire::lemma_write_frame(s3, off + 24, wire::u64_le_bytes(f.sequence_number));
    let s5 = wire::write_bytes(s4, off + 32, wire::u64_le_bytes(f.timestamp));
    wire::lemma_write_frame(s4, off + 32, wire::u64_le_bytes(f.timestamp));
    let t = s5;
    assert(t == encode_spec(s, off, f));
    assert forall|j: int| off + 0 <= j < off + 8 implies t[j] == s1[j] by {
    }
    wire::lemma_le_u64_same_bytes(t, s1, off + 0);
    wire::lemma_read_after_write_u64(s0, off + 0, f.order_id, off + 0);
    assert forall|j: int| off + 8 <= j < off + 16 implies t[j] == s2[j] by {
    }
    wire::lemma_le_u64_same_bytes(t, s2, off + 8);
    wire::lemma_read_after_write_u64(s1, off + 8, f.new_price, off + 8);
    assert forall|j: int| off + 16 <= j < off + 24 implies t[j] == s3[j] by {
    }
    wire::lemma_le_u64_same_bytes(t, s3, off + 16);
    wire::lemma_read_after_write_u64(s2, off + 16, f.new_quantity, off + 16);
    assert forall|j: int| off + 24 <= j < off + 32 implies t[j] == s4[j] by {
    }
    wire::lemma_le_u64_same_bytes(t, s4, off + 24);
    wire::lemma_read_after_write_u64(s3, off + 24, f.sequence_number, off + 24);
    assert forall|j: int| off + 32 <= j < off + 40 implies t[j] == s5[j] by {
    }
    wire::lemma_le_u64_same_bytes(t, s5, off + 32);
    wire::lemma_read_after_write_u64(s4, off + 32, f.timestamp, off + 32);
}

/// Read access to a `OrderAmend` body inside a byte buffer.
pub struct OrderAmendDecoder<'a> {
    pub buf: &'a [u8],
    pub offset: usize,
    pub acting_block_length: u16,
    pub acting_version: u16,
}

impl<'a> OrderAmendDecoder<'a> {
    /// The whole body lies inside the buffer.
    pub open spec fn wf(&self) -> bool {
        self.offset + SBE_BLOCK_LENGTH <= self.buf.len()
    }

    /// The field values that this decoder reads.
    pub open spec fn fields(&self) -> OrderAmendFields {
        decode_spec(self.buf@, self.offset as int)
    }

    /// A decoder for the body at `offset` of `buf`.
    pub fn wrap(buf: &'a [u8], offset: usize, acting_block_length: u16, acting_version: u16) -> (r: Self)
        ensures
            r.buf@ == buf@,
            r.offset == offset,
            r.acting_block_length == acting_block_length,
            r.acting_version == acting_version,
    {
        OrderAmendDecoder { buf, offset, acting_block_length, acting_version }
    }

    /// Length in bytes of the body, as the sender declared it.
    pub fn encoded_length(&self) -> (r: usize)
        ensures
            r == self.acting_block_length,
    {
        self.acting_block_length as usize
    }

    /// Field `order_id`.
    pub fn order_id(&self) -> (r: u64)
        requires
            self.wf(),
        ensures
            r == self.fields().order_id,
    {
        wire::get_u64_at(self.buf, self.offset + 0)
    }

    /// Field `new_price`.
    pub fn new_price(&self) -> (r: u64)
        requires
            self.wf(),
        ensures
            r == self.fields().new_price,
    {
        wire::get_u64_at(self.buf, self.offset + 8)
    }

    /// Field `new_quantity`.
    pub fn new_quantity(&self) -> (r: u64)
        requires
            self.wf(),
        ensures
            r == self.fields().new_quantity,
    {
        wire::get_u64_at(self.buf, self.offset + 16)
    }

    /// Field `sequence_number`.
    pub fn sequence_number(&self) -> (r: u64)
        requires
            self.wf(),
        ensures
            r == self.fields().sequence_number,
    {
        wire::get_u64_at(self.buf, self.offset + 24)
    }

    /// Field `timestamp`.
    pub fn timestamp(&self) -> (r: u64)
        requires
            self.wf(),
        ensures
            r == self.fields().timestamp,
    {
        wire::get_u64_at(self.buf, self.offset + 32)
    }

}

} // verus!
