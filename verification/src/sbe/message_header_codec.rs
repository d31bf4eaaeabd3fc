use vstd::prelude::*;
use super::wire;

verus! {

/// Length in bytes of the body of a `MessageHeader` message.
pub const SBE_BLOCK_LENGTH: u16 = 8;

/// Field values of a `MessageHeader` message: header that frames every message.
#[derive(Clone, Copy, Debug, PartialEq, Eq)]
pub struct MessageHeaderFields {
    pub block_length: u16,
    pub template_id: u16,
    pub schema_id: u16,
    pub version: u16,
}

/// The fields of the `MessageHeader` body that starts at `off` in `s`.
pub open spec fn decode_spec(s: Seq<u8>, off: int) -> MessageHeaderFields {
    MessageHeaderFields {
        block_length: wire::le_u16(s, off + 0),
        template_id: wire::le_u16(s, off + 2),
        schema_id: wire::le_u16(s, off + 4),
        version: wire::le_u16(s, off + 6),
    }
}

/// `s` after the fields of `f` are written into the `MessageHeader` body at `off`.
pub open spec fn encode_spec(s: Seq<u8>, off: int, f: MessageHeaderFields) -> Seq<u8> {
    wire::write_bytes(wire::write_bytes(wire::write_bytes(wire::write_bytes(s, off + 0, wire::u16_le_bytes(f.block_length)), off + 2, wire::u16_le_bytes(f.template_id)), off + 4, wire::u16_le_bytes(f.schema_id)), off + 6, wire::u16_le_bytes(f.version))
}

/// Writes the fields of `f` into the `MessageHeader` body that starts at `offset`.
pub fn encode(buf: &mut [u8], offset: usize, f: &MessageHeaderFields)
    requires
        offset + SBE_BLOCK_LENGTH <= old(buf).len(),
    ensures
        final(buf)@ == encode_spec(old(buf)@, offset as int, *f),
{
    wire::put_u16_at(buf, offset + 0, f.block_length);
    wire::put_u16_at(buf, offset + 2, f.template_id);
    wire::put_u16_at(buf, offset + 4, f.schema_id);
    wire::put_u16_at(buf, offset + 6, f.version);
}

/// Decoding a `MessageHeader` body gives back the fields that were encoded into it,
/// and bytes outside the body are left unchanged.
pub proof fn lemma_roundtrip(s: Seq<u8>, off: int, f: MessageHeaderFields)
    requires
        0 <= off,
        off + SBE_BLOCK_LENGTH <= s.len(),
    ensures
        decode_spec(encode_spec(s, off, f), off) == f,
        encode_spec(s, off, f).len() == s.len(),
        forall|i: int| 0 <= i < s.len() && (i < off || off + SBE_BLOCK_LENGTH <= i) ==> #[trigger] encode_spec(s, off, f)[i] == s[i],
{
    let s0 = s;
    let s1 = wire::write_bytes(s0, off + 0, wire::u16_le_bytes(f.block_length));
    wire::lemma_write_frame(s0, off + 0, wire::u16_le_bytes(f.block_length));
    let s2 = wire::write_bytes(s1, off + 2, wire::u16_le_bytes(f.template_id));
    wire::lemma_write_frame(s1, off + 2, wire::u16_le_bytes(f.template_id));
    let s3 = wire::write_bytes(s2, off + 4, wire::u16_le_bytes(f.schema_id));
    wire::lemma_write_frame(s2, off + 4, wire::u16_le_bytes(f.schema_id));
    let s4 = wire::write_bytes(s3, off + 6, wire::u16_le_bytes(f.version));
    wire::lemma_write_frame(s3, off + 6, wire::u16_le_bytes(f.version));
    let t = s4;
    assert(t == encode_spec(s, off, f));
    assert forall|j: int| off + 0 <= j < off + 2 implies t[j] == s1[j] by {
    }
    wire::lemma_le_u16_same_bytes(t, s1, off + 0);
    wire::lemma_read_after_write_u16(s0, off + 0, f.block_length, off + 0);
    assert forall|j: int| off + 2 <= j < off + 4 implies t[j] == s2[j] by {
    }
    wire::lemma_le_u16_same_bytes(t, s2, off + 2);
    wire::lemma_read_after_write_u16(s1, off + 2, f.template_id, off + 2);
    assert forall|j: int| off + 4 <= j < off + 6 implies t[j] == s3[j] by {
    }
    wire::lemma_le_u16_same_bytes(t, s3, off + 4);
    wire::lemma_read_after_write_u16(s2, off + 4, f.schema_id, off + 4);
    assert forall|j: int| off + 6 <= j < off + 8 implies t[j] == s4[j] by {
    }
    wire::lemma_le_u16_same_bytes(t, s4, off + 6);
    wire::lemma_read_after_write_u16(s3, off + 6, f.version, off + 6);
}

/// Read access to a `MessageHeader` body inside a byte buffer.
pub struct MessageHeaderDecoder<'a> {
    pub buf: &'a [u8],
    pub offset: usize,
    pub acting_block_length: u16,
    pub acting_version: u16,
}

impl<'a> MessageHeaderDecoder<'a> {
    /// The whole body lies inside the buffer.
    pub open spec fn wf(&self) -> bool {
        self.offset + SBE_BLOCK_LENGTH <= self.buf.len()
    }

    /// The field values that this decoder reads.
    pub open spec fn fields(&self) -> MessageHeaderFields {
        decode_spec(self.buf@, self.offset as int)
    }

    /// A decoder for the body at `offset` of `buf`.
    pub fn wrap(buf: &'a [u8], offset: usize, acting_block_length: u16, acting_version: u16) -> (r: Self)
        ensures
            r.buf@ == buf@,
            r.offset == offset,
            r.acting_block_length == acting_block_length,
            r.acting_version == acting_version,
    {
        MessageHeaderDecoder { buf, offset, acting_block_length, acting_version }
    }

    /// Length in bytes of the body, as the sender declared it.
    pub fn encoded_length(&self) -> (r: usize)
        ensures
            r == self.acting_block_length,
    {
        self.acting_block_length as usize
    }

    /// Field `block_length`.
    pub fn block_length(&self) -> (r: u16)
        requires
            self.wf(),
        ensures
            r == self.fields().block_length,
    {
        wire::get_u16_at(self.buf, self.offset + 0)
    }

    /// Field `template_id`.
    pub fn template_id(&self) -> (r: u16)
        requires
            self.wf(),
        ensures
            r == self.fields().template_id,
    {
        wire::get_u16_at(self.buf, self.offset + 2)
    }

    /// Field `schema_id`.
    pub fn schema_id(&self) -> (r: u16)
        requires
            self.wf(),
        ensures
            r == self.fields().schema_id,
    {
        wire::get_u16_at(self.buf, self.offset + 4)
    }

    /// Field `version`.
    pub fn version(&self) -> (r: u16)
        requires
            self.wf(),
        ensures
            r == self.fields().version,
    {
        wire::get_u16_at(self.buf, self.offset + 6)
    }

}

} // verus!
