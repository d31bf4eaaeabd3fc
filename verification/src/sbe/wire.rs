//! Little-endian field access on byte buffers, and the message header
//! that frames every message.
use vstd::prelude::*;
use vstd::string::StringSliceAdditionalSpecFns;

verus! {

/// Identifier of the message schema, written into every header.
pub const SBE_SCHEMA_ID: u16 = 1;

/// Version of the message schema, written into every header.
pub const SBE_SCHEMA_VERSION: u16 = 0;

/// Length of the message header in bytes.
pub const HEADER_ENCODED_LENGTH: usize = 8;

/// The eight little-endian bytes of `v`.
pub open spec fn u64_le_bytes(v: u64) -> Seq<u8> {
    seq![
        (v & 0xff) as u8,
        ((v >> 8) & 0xff) as u8,
        ((v >> 16) & 0xff) as u8,
        ((v >> 24) & 0xff) as u8,
        ((v >> 32) & 0xff) as u8,
        ((v >> 40) & 0xff) as u8,
        ((v >> 48) & 0xff) as u8,
        ((v >> 56) & 0xff) as u8,
    ]
}

/// The two little-endian bytes of `v`.
pub open spec fn u16_le_bytes(v: u16) -> Seq<u8> {
    seq![(v & 0xff) as u8, ((v >> 8) & 0xff) as u8]
}

/// The `u64` stored little-endian at `off` in `s`.
pub open spec fn le_u64(s: Seq<u8>, off: int) -> u64 {
    (s[off] as u64) | ((s[off + 1] as u64) << 8) | ((s[off + 2] as u64) << 16) | ((s[off
        + 3] as u64) << 24) | ((s[off + 4] as u64) << 32) | ((s[off + 5] as u64) << 40) | ((s[off
        + 6] as u64) << 48) | ((s[off + 7] as u64) << 56)
}

/// The `u16` stored little-endian at `off` in `s`.
pub open spec fn le_u16(s: Seq<u8>, off: int) -> u16 {
    (s[off] as u16) | ((s[off + 1] as u16) << 8)
}

/// `s` with `b` written over it from `off` on.
#[verifier::opaque]
pub open spec fn write_bytes(s: Seq<u8>, off: int, b: Seq<u8>) -> Seq<u8> {
    s.subrange(0, off) + b + s.subrange(off + b.len(), s.len() as int)
}

/// Reading back the eight bytes of `v` gives `v`.
pub proof fn lemma_u64_bytes_roundtrip(v: u64)
    ensures
        le_u64(u64_le_bytes(v), 0) == v,
{
    let b0 = (v & 0xff) as u8;
    let b1 = ((v >> 8) & 0xff) as u8;
    let b2 = ((v >> 16) & 0xff) as u8;
    let b3 = ((v >> 24) & 0xff) as u8;
    let b4 = ((v >> 32) & 0xff) as u8;
    let b5 = ((v >> 40) & 0xff) as u8;
    let b6 = ((v >> 48) & 0xff) as u8;
    let b7 = ((v >> 56) & 0xff) as u8;
    assert((b0 as u64) | ((b1 as u64) << 8) | ((b2 as u64) << 16) | ((b3 as u64) << 24) | ((
    b4 as u64) << 32) | ((b5 as u64) << 40) | ((b6 as u64) << 48) | ((b7 as u64) << 56) == v)
        by (bit_vector)
        requires
            b0 == (v & 0xff) as u8,
            b1 == ((v >> 8) & 0xff) as u8,
            b2 == ((v >> 16) & 0xff) as u8,
            b3 == ((v >> 24) & 0xff) as u8,
            b4 == ((v >> 32) & 0xff) as u8,
            b5 == ((v >> 40) & 0xff) as u8,
            b6 == ((v >> 48) & 0xff) as u8,
            b7 == ((v >> 56) & 0xff) as u8,
    ;
}

/// Reading back the two bytes of `v` gives `v`.
pub proof fn lemma_u16_bytes_roundtrip(v: u16)
    ensures
        le_u16(u16_le_bytes(v), 0) == v,
{
    let b0 = (v & 0xff) as u8;
    let b1 = ((v >> 8) & 0xff) as u8;
    assert((b0 as u16) | ((b1 as u16) << 8) == v) by (bit_vector)
        requires
            b0 == (v & 0xff) as u8,
            b1 == ((v >> 8) & 0xff) as u8,
    ;
}

/// A value read at `off` after writing `v` there is `v`; reads elsewhere
/// that do not overlap the write are unchanged.
pub proof fn lemma_read_after_write_u64(s: Seq<u8>, off: int, v: u64, roff: int)
    requires
        0 <= off,
        off + 8 <= s.len(),
        0 <= roff,
        roff + 8 <= s.len(),
    ensures
        roff == off ==> le_u64(write_bytes(s, off, u64_le_bytes(v)), roff) == v,
        (roff + 8 <= off || off + 8 <= roff) ==> le_u64(write_bytes(s, off, u64_le_bytes(v)), roff)
            == le_u64(s, roff),
{
    reveal(write_bytes);
    let t = write_bytes(s, off, u64_le_bytes(v));
    let b = u64_le_bytes(v);
    assert(t.len() == s.len());
    assert forall|i: int| off <= i < off + 8 implies t[i] == b[i - off] by {}
    assert forall|i: int| 0 <= i < s.len() && (i < off || off + 8 <= i) implies t[i] == s[i] by {}
    if roff == off {
        lemma_u64_bytes_roundtrip(v);
        assert(le_u64(t, roff) == le_u64(b, 0));
    }
    if roff + 8 <= off || off + 8 <= roff {
        assert(le_u64(t, roff) == le_u64(s, roff));
    }
}

/// `u16` counterpart of [`lemma_read_after_write_u64`], also for reads of
/// `u64` and single bytes that do not overlap the write.
pub proof fn lemma_read_after_write_u16(s: Seq<u8>, off: int, v: u16, roff: int)
    requires
        0 <= off,
        off + 2 <= s.len(),
        0 <= roff,
        roff + 2 <= s.len(),
    ensures
        roff == off ==> le_u16(write_bytes(s, off, u16_le_bytes(v)), roff) == v,
        (roff + 2 <= off || off + 2 <= roff) ==> le_u16(write_bytes(s, off, u16_le_bytes(v)), roff)
            == le_u16(s, roff),
{
    reveal(write_bytes);
    let t = write_bytes(s, off, u16_le_bytes(v));
    let b = u16_le_bytes(v);
    assert(t.len() == s.len());
    assert forall|i: int| off <= i < off + 2 implies t[i] == b[i - off] by {}
    assert forall|i: int| 0 <= i < s.len() && (i < off || off + 2 <= i) implies t[i] == s[i] by {}
    if roff == off {
        lemma_u16_bytes_roundtrip(v);
        assert(le_u16(t, roff) == le_u16(b, 0));
    }
}

/// Writes `v` little-endian at `off`.
pub fn put_u64_at(buf: &mut [u8], off: usize, v: u64)
    requires
        off + 8 <= old(buf)@.len(),
    ensures
        final(buf)@ == write_bytes(old(buf)@, off as int, u64_le_bytes(v)),
        final(buf)@.len() == old(buf)@.len(),
{
    buf[off] = (v & 0xff) as u8;
    buf[off + 1] = ((v >> 8) & 0xff) as u8;
    buf[off + 2] = ((v >> 16) & 0xff) as u8;
    buf[off + 3] = ((v >> 24) & 0xff) as u8;
    buf[off + 4] = ((v >> 32) & 0xff) as u8;
    buf[off + 5] = ((v >> 40) & 0xff) as u8;
    buf[off + 6] = ((v >> 48) & 0xff) as u8;
    buf[off + 7] = ((v >> 56) & 0xff) as u8;
    reveal(write_bytes);
    assert(buf@ =~= write_bytes(old(buf)@, off as int, u64_le_bytes(v)));
}

/// Writes `v` little-endian at `off`.
pub fn put_u16_at(buf: &mut [u8], off: usize, v: u16)
    requires
        off + 2 <= old(buf)@.len(),
    ensures
        final(buf)@ == write_bytes(old(buf)@, off as int, u16_le_bytes(v)),
        final(buf)@.len() == old(buf)@.len(),
{
    buf[off] = (v & 0xff) as u8;
    buf[off + 1] = ((v >> 8) & 0xff) as u8;
    reveal(write_bytes);
    assert(buf@ =~= write_bytes(old(buf)@, off as int, u16_le_bytes(v)));
}

/// Writes the byte `v` at `off`.
pub fn put_u8_at(buf: &mut [u8], off: usize, v: u8)
    requires
        off < old(buf)@.len(),
    ensures
        final(buf)@ == write_bytes(old(buf)@, off as int, seq![v]),
        final(buf)@.len() == old(buf)@.len(),
{
    buf[off] = v;
    reveal(write_bytes);
    assert(buf@ =~= write_bytes(old(buf)@, off as int, seq![v]));
}

/// The `u64` stored little-endian at `off`.
pub fn get_u64_at(buf: &[u8], off: usize) -> (r: u64)
    requires
        off + 8 <= buf@.len(),
    ensures
        r == le_u64(buf@, off as int),
{
    (buf[off] as u64) | ((buf[off + 1] as u64) << 8) | ((buf[off + 2] as u64) << 16) | ((buf[off
        + 3] as u64) << 24) | ((buf[off + 4] as u64) << 32) | ((buf[off + 5] as u64) << 40) | ((
    buf[off + 6] as u64) << 48) | ((buf[off + 7] as u64) << 56)
}

/// The `u16` stored little-endian at `off`.
pub fn get_u16_at(buf: &[u8], off: usize) -> (r: u16)
    requires
        off + 2 <= buf@.len(),
    ensures
        r == le_u16(buf@, off as int),
{
    (buf[off] as u16) | ((buf[off + 1] as u16) << 8)
}

/// The byte at `off`.
pub fn get_u8_at(buf: &[u8], off: usize) -> (r: u8)
    requires
        off < buf@.len(),
    ensures
        r == buf@[off as int],
{
    buf[off]
}


/// What a write leaves in place: the bytes it covers hold `b`, every other
/// byte is unchanged, and the length is the same.
pub proof fn lemma_write_frame(s: Seq<u8>, off: int, b: Seq<u8>)
    requires
        0 <= off,
        off + b.len() <= s.len(),
    ensures
        write_bytes(s, off, b).len() == s.len(),
        forall|i: int|
            0 <= i < s.len() && (i < off || off + b.len() <= i) ==> #[trigger] write_bytes(
                s,
                off,
                b,
            )[i] == s[i],
        forall|i: int| off <= i < off + b.len() ==> #[trigger] write_bytes(s, off, b)[i] == b[i - off],
{
    reveal(write_bytes);
}

/// A `u64` read agrees on two buffers that agree on its eight bytes.
pub proof fn lemma_le_u64_same_bytes(s: Seq<u8>, t: Seq<u8>, off: int)
    requires
        0 <= off,
        off + 8 <= s.len(),
        off + 8 <= t.len(),
        forall|i: int| off <= i < off + 8 ==> s[i] == t[i],
    ensures
        le_u64(s, off) == le_u64(t, off),
{
    assert(s[off] == t[off]);
    assert(s[off + 1] == t[off + 1]);
    assert(s[off + 2] == t[off + 2]);
    assert(s[off + 3] == t[off + 3]);
    assert(s[off + 4] == t[off + 4]);
    assert(s[off + 5] == t[off + 5]);
    assert(s[off + 6] == t[off + 6]);
    assert(s[off + 7] == t[off + 7]);
}

/// A `u16` read agrees on two buffers that agree on its two bytes.
pub proof fn lemma_le_u16_same_bytes(s: Seq<u8>, t: Seq<u8>, off: int)
    requires
        0 <= off,
        off + 2 <= s.len(),
        off + 2 <= t.len(),
        forall|i: int| off <= i < off + 2 ==> s[i] == t[i],
    ensures
        le_u16(s, off) == le_u16(t, off),
{
    assert(s[off] == t[off]);
    assert(s[off + 1] == t[off + 1]);
}

/// Whether the text `v` is exactly `name`, byte for byte.
pub fn str_is(v: &str, name: &str) -> (r: bool)
    ensures
        r == (v.spec_bytes() == name.spec_bytes()),
{
    let a = v.as_bytes();
    let b = name.as_bytes();
    if a.len() != b.len() {
        return false;
    }
    let mut i: usize = 0;
    while i < a.len()
        invariant
            a@ == v.spec_bytes(),
            b@ == name.spec_bytes(),
            a@.len() == b@.len(),
            i <= a@.len(),
            forall|k: int| 0 <= k < i ==> a@[k] == b@[k],
        decreases a@.len() - i,
    {
        if a[i] != b[i] {
            return false;
        }
        i = i + 1;
    }
    assert(a@ =~= b@);
    true
}

} // verus!
