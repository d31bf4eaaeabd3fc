use vstd::prelude::*;
use super::wire;
use super::control_op;
use super::control_op::ControlOp;

verus! {

/// Length in bytes of the body of a `ControlMessage` message.
pub const SBE_BLOCK_LENGTH: u16 = 24;

/// Template identifier of a `ControlMessage` message in its header.
pub const SBE_TEMPLATE_ID: u16 = 8;

/// Field values of a `ControlMessage` message: system control command.
#[derive(Clone, Copy, Debug, PartialEq, Eq)]
pub struct ControlMessageFields {
    pub control_op: ControlOp,
    pub timestamp: u64,
    pub sequence_number: u64,
}

/// The fields of the `ControlMessage` body that starts at `off` in `s`.
pub open spec fn decode_spec(s: Seq<u8>, off: int) -> ControlMessageFields {
    ControlMessageFields {
        control_op: control_op::control_op_from_u8_spec(s[off + 0]),
        timestamp: wire::le_u64(s, off + 1),
        sequence_number: wire::le_u64(s, off + 9),
    }
}

/// `s` after the fields of `f` are written into the `ControlMessage` body at `off`.
pub open spec fn encode_spec(s: Seq<u8>, off: int, f: ControlMessageFields) -> Seq<u8> {
    wire::write_bytes(wire::write_bytes(wire::write_bytes(s, off + 0, seq![control_op::control_op_to_u8_spec(f.control_op)]), off + 1, wire::u64_le_bytes(f.timestamp)), off + 9, wire::u64_le_bytes(f.sequence_number))
}

/// Writes the fields of `f` into the `ControlMessage` body that starts at `offset`.
pub fn encode(buf: &mut [u8], offset: usize, f: &ControlMessageFields)
    requires
        offset + SBE_BLOCK_LENGTH <= old(buf).len(),
    ensures
        final(buf)@ == encode_spec(old(buf)@, offset as int, *f),
{
    wire::put_u8_at(buf, offset + 0, f.control_op.to_u8());
    wire::put_u64_at(buf, offset + 1, f.timestamp);
    wire::put_u64_at(buf, offset + 9, f.sequence_number);
}

/// Decoding a `ControlMessage` body gives back the fields that were encoded into it,
/// and bytes outside the body are left unchanged.
pub proof fn lemma_roundtrip(s: Seq<u8>, off: int, f: ControlMessageFields)
    requires
        0 <= off,
        off + SBE_BLOCK_LENGTH <= s.len(),
    ensures
        decode_spec(encode_spec(s, off, f), off) == f,
        encode_spec(s, off, f).len() == s.len(),
        forall|i: int| 0 <= i < s.len() && (i < off || off + SBE_BLOCK_LENGTH <= i) ==> #[trigger] encode_spec(s, off, f)[i] == s[i],
{
    let s0 = s;
    let s1 = wire::write_bytes(s0, off + 0, seq![control_op::control_op_to_u8_spec(f.control_op)]);
    wire::lemma_write_frame(s0, off + 0, seq![control_op::control_op_to_u8_spec(f.control_op)]);
    let s2 = wire::write_bytes(s1, off + 1, wire::u64_le_bytes(f.timestamp));
    wire::lemma_write_frame(s1, off + 1, wire::u64_le_bytes(f.timestamp));
    let s3 = wire::write_bytes(s2, off + 9, wire::u64_le_bytes(f.sequence_number));
    wire::lemma_write_frame(s2, off + 9, wire::u64_le_bytes(f.sequence_number));
    let t = s3;
    assert(t == encode_spec(s, off, f));
    assert forall|j: int| off + 0 <= j < off + 1 implies t[j] == s1[j] by {
    }
    control_op::lemma_control_op_roundtrip(f.control_op);
    assert forall|j: int| off + 1 <= j < off + 9 implies t[j] == s2[j] by {
    }
    wire::lemma_le_u64_same_bytes(t, s2, off + 1);
    wire::lemma_read_after_write_u64(s1, off + 1, f.timestamp, off + 1);
    assert forall|j: int| off + 9 <= j < off + 17 implies t[j] == s3[j] by {
    }
    wire::lemma_le_u64_same_bytes(t, s3, off + 9);
    wire::lemma_read_after_write_u64(s2, off + 9, f.sequence_number, off + 9);
}

/// Read access to a `ControlMessage` body inside a byte buffer.
pub struct ControlMessageDecoder<'a> {
    pub buf: &'a [u8],
    pub offset: usize,
    pub acting_block_length: u16,
    pub acting_version: u16,
}

impl<'a> ControlMessageDecoder<'a> {
    /// The whole body lies inside the buffer.
    pub open spec fn wf(&self) -> bool {
        self.offset + SBE_BLOCK_LENGTH <= self.buf.len()
    }

    /// The field values that this decoder reads.
    pub open spec fn fields(&self) -> ControlMessageFields {
        decode_spec(self.buf@, self.offset as int)
    }

    /// A decoder for the body at `offset` of `buf`.
    pub fn wrap(buf: &'a [u8], offset: usize, acting_block_length: u16, acting_version: u16) -> (r: Self)
        ensures
            r.buf@ == buf@,
            r.offset == offset,
            r.acting_block_length == acting_block_length,
            r.acting_version == acting_version,
    {
        ControlMessageDecoder { buf, offset, acting_block_length, acting_version }
    }

    /// Length in bytes of the body, as the sender declared it.
    pub fn encoded_length(&self) -> (r: usize)
        ensures
            r == self.acting_block_length,
    {
        self.acting_block_length as usize
    }

    /// Field `control_op`.
    pub fn control_op(&self) -> (r: ControlOp)
        requires
            self.wf(),
        ensures
            r == self.fields().control_op,
    {
        ControlOp::from_u8(wire::get_u8_at(self.buf, self.offset + 0))
    }

    /// Field `timestamp`.
    pub fn timestamp(&self) -> (r: u64)
        requires
            self.wf(),
        ensures
            r == self.fields().timestamp,
    {
        wire::get_u64_at(self.buf, self.offset + 1)
    }

    /// Field `sequence_number`.
    pub fn sequence_number(&self) -> (r: u64)
        requires
            self.wf(),
        ensures
            r == self.fields().sequence_number,
    {
        wire::get_u64_at(self.buf, self.offset + 9)
    }

}

} // verus!
