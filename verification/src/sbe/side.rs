use vstd::prelude::*;
use vstd::string::StringSliceAdditionalSpecFns;

verus! {

/// Side of an order on the wire (one byte).
#[allow(non_camel_case_types)]
#[derive(Clone, Copy, Debug, PartialEq, Eq, PartialOrd, Ord, Hash, Structural)]
pub enum Side {
    buy,
    sell,
    NullVal,
}

/// The byte that encodes a side.
pub open spec fn side_to_u8_spec(s: Side) -> u8 {
    match s {
        Side::buy => 0x0u8,
        Side::sell => 0x1u8,
        Side::NullVal => 0xffu8,
    }
}

/// The side that a byte decodes to: unknown bytes decode to `NullVal`.
pub open spec fn side_from_u8_spec(v: u8) -> Side {
    if v == 0x0u8 {
        Side::buy
    } else if v == 0x1u8 {
        Side::sell
    } else {
        Side::NullVal
    }
}

impl Side {
    /// The byte that encodes this side.
    pub fn to_u8(self) -> (r: u8)
        ensures
            r == side_to_u8_spec(self),
    {
        match self {
            Side::buy => 0x0u8,
            Side::sell => 0x1u8,
            Side::NullVal => 0xffu8,
        }
    }

    /// The side encoded by a byte.
    pub fn from_u8(v: u8) -> (r: Side)
        ensures
            r == side_from_u8_spec(v),
    {
        if v == 0x0u8 {
            Side::buy
        } else if v == 0x1u8 {
            Side::sell
        } else {
            Side::NullVal
        }
    }

    /// The schema name of this side.
    pub fn as_str(&self) -> (r: &'static str)
        ensures
            *self == Side::buy ==> r@ == "buy"@,
            *self == Side::sell ==> r@ == "sell"@,
            *self == Side::NullVal ==> r@ == "NullVal"@,
    {
        match self {
            Side::buy => "buy",
            Side::sell => "sell",
            Side::NullVal => "NullVal",
        }
    }
}

impl Side {
    /// The side whose schema name is `v`; any other text names no side.
    pub fn from_name(v: &str) -> (r: Side)
        ensures
            r == (if v.spec_bytes() == "buy".spec_bytes() {
                Side::buy
            } else if v.spec_bytes() == "sell".spec_bytes() {
                Side::sell
            } else {
                Side::NullVal
            }),
    {
        if super::wire::str_is(v, "buy") {
            Side::buy
        } else if super::wire::str_is(v, "sell") {
            Side::sell
        } else {
            Side::NullVal
        }
    }
}

impl core::str::FromStr for Side {
    type Err = ();

    fn from_str(v: &str) -> (r: Result<Side, ()>)
        ensures
            r == Ok::<Side, ()>(if v.spec_bytes() == "buy".spec_bytes() {
                Side::buy
            } else if v.spec_bytes() == "sell".spec_bytes() {
                Side::sell
            } else {
                Side::NullVal
            }),
    {
        Ok(Side::from_name(v))
    }
}

impl Default for Side {
    fn default() -> (r: Side)
        ensures
            r == Side::NullVal,
    {
        Side::NullVal
    }
}

/// Decoding the byte of a side gives the side back.
pub proof fn lemma_side_roundtrip(s: Side)
    ensures
        side_from_u8_spec(side_to_u8_spec(s)) == s,
{
}

} // verus!
