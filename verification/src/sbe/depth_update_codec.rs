use vstd::prelude::*;
use super::wire;
use super::side;
use super::side::Side;

verus! {

/// Length in bytes of the body of a `DepthUpdate` message.
pub const SBE_BLOCK_LENGTH: u16 = 40;

/// Template identifier of a `DepthUpdate` message in its header.
pub const SBE_TEMPLATE_ID: u16 = 7;

/// Field values of a `DepthUpdate` message: aggregate quantity at one price level.
#[derive(Clone, Copy, Debug, PartialEq, Eq)]
pub struct DepthUpdateFields {
    pub price: u64,
    pub quantity: u64,
    pub side: Side,
    pub timestamp: u64,
    pub sequence_number: u64,
}

/// The fields of the `DepthUpdate` body that starts at `off` in `s`.
pub open spec fn decode_spec(s: Seq<u8>, off: int) -> DepthUpdateFields {
    DepthUpdateFields {
        price: wire::le_u64(s, off + 0),
        quantity: wire::le_u64(s, off + 8),
        side: side::side_from_u8_spec(s[off + 16]),
        timestamp: wire::le_u64(s, off + 17),
        sequence_number: wire::le_u64(s, off + 25),
    }
}

/// `s` after the fields of `f` are written into the `DepthUpdate` body at `off`.
pub open spec fn encode_spec(s: Seq<u8>, off: int, f: DepthUpdateFields) -> Seq<u8> {
    wire::write_bytes(wire::write_bytes(wire::write_bytes(wire::write_bytes(wire::write_bytes(s, off + 0, wire::u64_le_bytes(f.price)), off + 8, wire::u64_le_bytes(f.quantity)), off + 16, seq![side::side_to_u8_spec(f.side)]), off + 17, wire::u64_le_bytes(f.timestamp)), off + 25, wire::u64_le_bytes(f.sequence_number))
}

/// Writes the fields of `f` into the `DepthUpdate` body that starts at `offset`.
pub fn encode(buf: &mut [u8], offset: usize, f: &DepthUpdateFields)
    requires
        offset + SBE_BLOCK_LENGTH <= old(buf).len(),
    ensures
        final(buf)@ == encode_spec(old(buf)@, offset as int, *f),
{
    wire::put_u64_at(buf, offset + 0, f.price);
    wire::put_u64_at(buf, offset + 8, f.quantity);
    wire::put_u8_at(buf, offset + 16, f.side.to_u8());
    wire::put_u64_at(buf, offset + 17, f.timestamp);
    wire::put_u64_at(buf, offset + 25, f.sequence_number);
}

/// Decoding a `DepthUpdate` body gives back the fields that were encoded into it,
/// and bytes outside the body are left unchanged.
pub proof fn lemma_roundtrip(s: Seq<u8>, off: int, f: DepthUpdateFields)
    requires
        0 <= off,
        off + SBE_BLOCK_LENGTH <= s.len(),
    ensures
        decode_spec(encode_spec(s, off, f), off) == f,
        encode_spec(s, off, f).len() == s.len(),
        forall|i: int| 0 <= i < s.len() && (i < off || off + SBE_BLOCK_LENGTH <= i) ==> #[trigger] encode_spec(s, off, f)[i] == s[i],
{
    let s0 = s;
    let s1 = wire::write_bytes(s0, off + 0, wire::u64_le_bytes(f.price));
    wire::lemma_write_frame(s0, off + 0, wire::u64_le_bytes(f.price));
    let s2 = wire::write_bytes(s1, off + 8, wire::u64_le_bytes(f.quantity));
    wire::lemma_write_frame(s1, off + 8, wire::u64_le_bytes(f.quantity));
    let s3 = wire::write_bytes(s2, off + 16, seq![side::side_to_u8_spec(f.side)]);
    wire::lemma_write_frame(s2, off + 16, seq![side::side_to_u8_spec(f.side)]);
    let s4 = wire::write_bytes(s3, off + 17, wire::u64_le_bytes(f.timestamp));
    wire::lemma_write_frame(s3, off + 17, wire::u64_le_bytes(f.timestamp));
    let s5 = wire::write_bytes(s4, off + 25, wire::u64_le_bytes(f.sequence_number));
    wire::lemma_write_frame(s4, off + 25, wire::u64_le_bytes(f.sequence_number));
    let t = s5;
    assert(t == encode_spec(s, off, f));
    assert forall|j: int| off + 0 <= j < off + 8 implies t[j] == s1[j] by {
    }
    wire::lemma_le_u64_same_bytes(t, s1, off + 0);
    wire::lemma_read_after_write_u64(s0, off + 0, f.price, off + 0);
    assert forall|j: int| off + 8 <= j < off + 16 implies t[j] == s2[j] by {
    }
    wire::lemma_le_u64_same_bytes(t, s2, off + 8);
    wire::lemma_read_after_write_u64(s1, off + 8, f.quantity, off + 8);
    assert forall|j: int| off + 16 <= j < off + 17 implies t[j] == s3[j] by {
    }
    side::lemma_side_roundtrip(f.side);
    assert forall|j: int| off + 17 <= j < off + 25 implies t[j] == s4[j] by {
    }
    wire::lemma_le_u64_same_bytes(t, s4, off + 17);
    wire::lemma_read_after_write_u64(s3, off + 17, f.timestamp, off + 17);
    assert forall|j: int| off + 25 <= j < off + 33 implies t[j] == s5[j] by {
    }
    wire::lemma_le_u64_same_bytes(t, s5, off + 25);
    wire::lemma_read_after_write_u64(s4, off + 25, f.sequence_number, off + 25);
}

/// Read access to a `DepthUpdate` body inside a byte buffer.
pub struct DepthUpdateDecoder<'a> {
    pub buf: &'a [u8],
    pub offset: usize,
    pub acting_block_length: u16,
    pub acting_version: u16,
}

impl<'a> DepthUpdateDecoder<'a> {
    /// The whole body lies inside the buffer.
    pub open spec fn wf(&self) -> bool {
        self.offset + SBE_BLOCK_LENGTH <= self.buf.len()
    }

    /// The field values that this decoder reads.
    pub open spec fn fields(&self) -> DepthUpdateFields {
        decode_spec(self.buf@, self.offset as int)
    }

    /// A decoder for the body at `offset` of `buf`.
    pub fn wrap(buf: &'a [u8], offset: usize, acting_block_length: u16, acting_version: u16) -> (r: Self)
        ensures
            r.buf@ == buf@,
            r.offset == offset,
            r.acting_block_length == acting_block_length,
            r.acting_version == acting_version,
    {
        DepthUpdateDecoder { buf, offset, acting_block_length, acting_version }
    }

    /// Length in bytes of the body, as the sender declared it.
    pub fn encoded_length(&self) -> (r: usize)
        ensures
            r == self.acting_block_length,
    {
        self.acting_block_length as usize
    }

    /// Field `price`.
    pub fn price(&self) -> (r: u64)
        requires
            self.wf(),
        ensures
            r == self.fields().price,
    {
        wire::get_u64_at(self.buf, self.offset + 0)
    }

    /// Field `quantity`.
    pub fn quantity(&self) -> (r: u64)
        requires
            self.wf(),
        ensures
            r == self.fields().quantity,
    {
        wire::get_u64_at(self.buf, self.offset + 8)
    }

    /// Field `side`.
    pub fn side(&self) -> (r: Side)
        requires
            self.wf(),
        ensures
            r == self.fields().side,
    {
        Side::from_u8(wire::get_u8_at(self.buf, self.offset + 16))
    }

    /// Field `timestamp`.
    pub fn timestamp(&self) -> (r: u64)
        requires
            self.wf(),
        ensures
            r == self.fields().timestamp,
    {
        wire::get_u64_at(self.buf, self.offset + 17)
    }

    /// Field `sequence_number`.
    pub fn sequence_number(&self) -> (r: u64)
        requires
            self.wf(),
        ensures
            r == self.fields().sequence_number,
    {
        wire::get_u64_at(self.buf, self.offset + 25)
    }

}

} // verus!
