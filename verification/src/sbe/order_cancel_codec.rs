use vstd::prelude::*;
use super::wire;

verus! {

/// Length in bytes of the body of a `OrderCancel` message.
pub const SBE_BLOCK_LENGTH: u16 = 24;

/// Template identifier of a `OrderCancel` message in its header.
pub const SBE_TEMPLATE_ID: u16 = 2;

/// Field values of a `OrderCancel` message: order cancellation.
#[derive(Clone, Copy, Debug, PartialEq, Eq)]
pub struct OrderCancelFields {
    pub order_id: u64,
    pub sequence_number: u64,
    pub timestamp: u64,
}

/// The fields of the `OrderCancel` body that starts at `off` in `s`.
pub open spec fn decode_spec(s: Seq<u8>, off: int) -> OrderCancelFields {
    OrderCancelFields {
        order_id: wire::le_u64(s, off + 0),
        sequence_number: wire::le_u64(s, off + 8),
        timestamp: wire::le_u64(s, off + 16),
    }
}

/// `s` after the fields of `f` are written into the `OrderCancel` body at `off`.
pub open spec fn encode_spec(s: Seq<u8>, off: int, f: OrderCancelFields) -> Seq<u8> {
    wire::write_bytes(wire::write_bytes(wire::write_bytes(s, off + 0, wire::u64_le_bytes(f.order_id)), off + 8, wire::u64_le_bytes(f.sequence_number)), off + 16, wire::u64_le_bytes(f.timestamp))
}

/// Writes the fields of `f` into the `OrderCancel` body that starts at `offset`.
pub fn encode(buf: &mut [u8], offset: usize, f: &OrderCancelFields)
    requires
        offset + SBE_BLOCK_LENGTH <= old(buf).len(),
    ensures
        final(buf)@ == encode_spec(old(buf)@, offset as int, *f),
{
    wire::put_u64_at(buf, offset + 0, f.order_id);
    wire::put_u64_at(buf, offset + 8, f.sequence_number);
    wire::put_u64_at(buf, offset + 16, f.timestamp);
}

/// Decoding a `OrderCancel` body gives back the fields that were encoded into it,
/// and bytes outside the body are left unchanged.
pub proof fn lemma_roundtrip(s: Seq<u8>, off: int, f: OrderCancelFields)
    requires
        0 <= off,
        off + SBE_BLOCK_LENGTH <= s.len(),
    ensures
        decode_spec(encode_spec(s, off, f), off) == f,
        encode_spec(s, off, f).len() == s.len(),
        forall|i: int| 0 <= i < s.len() && (i < off || off + SBE_BLOCK_LENGTH <= i) ==> #[trigger] encode_spec(s, off, f)[i] == s[i],
{
    let s0 = s;
    let s1 = wire::write_bytes(s0, off + 0, wire::u64_le_bytes(f.order_id));
    wire::lemma_write_frame(s0, off + 0, wire::u64_le_bytes(f.order_id));
    let s2 = wire::write_bytes(s1, off + 8, wire::u64_le_bytes(f.sequence_number));
    wire::lemma_write_frame(s1, off + 8, wire::u64_le_bytes(f.sequence_number));
    let s3 = wire::write_bytes(s2, off + 16, wire::u64_le_bytes(f.timestamp));
    wire::lemma_write_frame(s2, off + 16, wire::u64_le_bytes(f.timestamp));
    let t = s3;
    assert(t == encode_spec(s, off, f));
    assert forall|j: int| off + 0 <= j < off + 8 implies t[j] == s1[j] by {
    }
    wire::lemma_le_u64_same_bytes(t, s1, off + 0);
    wire::lemma_read_after_write_u64(s0, off + 0, f.order_id, off + 0);
    assert forall|j: int| off + 8 <= j < off + 16 implies t[j] == s2[j] by {
    }
    wire::lemma_le_u64_same_bytes(t, s2, off + 8);
    wire::lemma_read_after_write_u64(s1, off + 8, f.sequence_number, off + 8);
    assert forall|j: int| off + 16 <= j < off + 24 implies t[j] == s3[j] by {
    }
    wire::lemma_le_u64_same_bytes(t, s3, off + 16);
    wire::lemma_read_after_write_u64(s2, off + 16, f.timestamp, off + 16);
}

/// Read access to a `OrderCancel` body inside a byte buffer.
pub struct OrderCancelDecoder<'a> {
    pub buf: &'a [u8],
    pub offset: usize,
    pub acting_block_length: u16,
    pub acting_version: u16,
}

impl<'a> OrderCancelDecoder<'a> {
    /// The whole body lies inside the buffer.
    pub open spec fn wf(&self) -> bool {
        self.offset + SBE_BLOCK_LENGTH <= self.buf.len()
    }

    /// The field values that this decoder reads.
    pub open spec fn fields(&self) -> OrderCancelFields {
        decode_spec(self.buf@, self.offset as int)
    }

    /// A decoder for the body at `offset` of `buf`.
    pub fn wrap(buf: &'a [u8], offset: usize, acting_block_length: u16, acting_version: u16) -> (r: Self)
        ensures
            r.buf@ == buf@,
            r.offset == offset,
            r.acting_block_length == acting_block_length,
            r.acting_version == acting_version,
    {
        OrderCancelDecoder { buf, offset, acting_block_length, acting_version }
    }

    /// Length in bytes of the body, as the sender declared it.
    pub fn encoded_length(&self) -> (r: usize)
        ensures
            r == self.acting_block_length,
    {
        self.acting_block_length as usize
    }

    /// Field `order_id`.
    pub fn order_id(&self) -> (r: u64)
        requires
            self.wf(),
        ensures
            r == self.fields().order_id,
    {
        wire::get_u64_at(self.buf, self.offset + 0)
    }

    /// Field `sequence_number`.
    pub fn sequence_number(&self) -> (r: u64)
        requires
            self.wf(),
        ensures
            r == self.fields().sequence_number,
    {
        wire::get_u64_at(self.buf, self.offset + 8)
    }

    /// Field `timestamp`.
    pub fn timestamp(&self) -> (r: u64)
        requires
            self.wf(),
        ensures
            r == self.fields().timestamp,
    {
        wire::get_u64_at(self.buf, self.offset + 16)
    }

}

} // verus!
