use vstd::prelude::*;
use vstd::string::StringSliceAdditionalSpecFns;

verus! {

/// Time-in-force policy of an order on the wire (one byte).
#[allow(non_camel_case_types)]
#[derive(Clone, Copy, Debug, PartialEq, Eq, PartialOrd, Ord, Hash, Structural)]
pub enum TimeInForce {
    ioc,
    fok,
    gtc,
    gtd,
    gth,
    NullVal,
}

/// The byte that encodes a value of this enum.
pub open spec fn time_in_force_to_u8_spec(v: TimeInForce) -> u8 {
    match v {
        TimeInForce::ioc => 0x0u8,
        TimeInForce::fok => 0x1u8,
        TimeInForce::gtc => 0x2u8,
        TimeInForce::gtd => 0x3u8,
        TimeInForce::gth => 0x4u8,
        TimeInForce::NullVal => 0xffu8,
    }
}

/// The value that a byte decodes to: unknown bytes decode to `NullVal`.
pub open spec fn time_in_force_from_u8_spec(b: u8) -> TimeInForce {
    if b == 0x0u8 {
        TimeInForce::ioc
    } else if b == 0x1u8 {
        TimeInForce::fok
    } else if b == 0x2u8 {
        TimeInForce::gtc
    } else if b == 0x3u8 {
        TimeInForce::gtd
    } else if b == 0x4u8 {
        TimeInForce::gth
    } else {
        TimeInForce::NullVal
    }
}

impl TimeInForce {
    /// The byte that encodes this value.
    pub fn to_u8(self) -> (r: u8)
        ensures
            r == time_in_force_to_u8_spec(self),
    {
        match self {
            TimeInForce::ioc => 0x0u8,
            TimeInForce::fok => 0x1u8,
            TimeInForce::gtc => 0x2u8,
            TimeInForce::gtd => 0x3u8,
            TimeInForce::gth => 0x4u8,
            TimeInForce::NullVal => 0xffu8,
        }
    }

    /// The value encoded by a byte.
    pub fn from_u8(b: u8) -> (r: TimeInForce)
        ensures
            r == time_in_force_from_u8_spec(b),
    {
        if b == 0x0u8 {
            TimeInForce::ioc
        } else if b == 0x1u8 {
            TimeInForce::fok
        } else if b == 0x2u8 {
            TimeInForce::gtc
        } else if b == 0x3u8 {
            TimeInForce::gtd
        } else if b == 0x4u8 {
            TimeInForce::gth
        } else {
            TimeInForce::NullVal
        }
    }

    /// The schema name of this value.
    pub fn as_str(&self) -> (r: &'static str)
        ensures
            *self == TimeInForce::ioc ==> r@ == "ioc"@,
            *self == TimeInForce::fok ==> r@ == "fok"@,
            *self == TimeInForce::gtc ==> r@ == "gtc"@,
            *self == TimeInForce::gtd ==> r@ == "gtd"@,
            *self == TimeInForce::gth ==> r@ == "gth"@,
            *self == TimeInForce::NullVal ==> r@ == "NullVal"@,
    {
        match self {
            TimeInForce::ioc => "ioc",
            TimeInForce::fok => "fok",
            TimeInForce::gtc => "gtc",
            TimeInForce::gtd => "gtd",
            TimeInForce::gth => "gth",
            TimeInForce::NullVal => "NullVal",
        }
    }
}

impl TimeInForce {
    /// The value whose schema name is `v`; any other text names none.
    pub fn from_name(v: &str) -> (r: TimeInForce)
        ensures
            r == (if v.spec_bytes() == "ioc".spec_bytes() {
                TimeInForce::ioc
            } else if v.spec_bytes() == "fok".spec_bytes() {
                TimeInForce::fok
            } else if v.spec_bytes() == "gtc".spec_bytes() {
                TimeInForce::gtc
            } else if v.spec_bytes() == "gtd".spec_bytes() {
                TimeInForce::gtd
            } else if v.spec_bytes() == "gth".spec_bytes() {
                TimeInForce::gth
            } else {
                TimeInForce::NullVal
            }),
    {
        if super::wire::str_is(v, "ioc") {
            TimeInForce::ioc
        } else if super::wire::str_is(v, "fok") {
            TimeInForce::fok
        } else if super::wire::str_is(v, "gtc") {
            TimeInForce::gtc
        } else if super::wire::str_is(v, "gtd") {
            TimeInForce::gtd
        } else if super::wire::str_is(v, "gth") {
            TimeInForce::gth
        } else {
            TimeInForce::NullVal
        }
    }
}

impl core::str::FromStr for TimeInForce {
    type Err = ();

    fn from_str(v: &str) -> (r: Result<TimeInForce, ()>)
        ensures
            r == Ok::<TimeInForce, ()>(if v.spec_bytes() == "ioc".spec_bytes() {
                TimeInForce::ioc
            } else if v.spec_bytes() == "fok".spec_bytes() {
                TimeInForce::fok
            } else if v.spec_bytes() == "gtc".spec_bytes() {
                TimeInForce::gtc
            } else if v.spec_bytes() == "gtd".spec_bytes() {
                TimeInForce::gtd
            } else if v.spec_bytes() == "gth".spec_bytes() {
                TimeInForce::gth
            } else {
                TimeInForce::NullVal
            }),
    {
        Ok(TimeInForce::from_name(v))
    }
}

impl Default for TimeInForce {
    fn default() -> (r: TimeInForce)
        ensures
            r == TimeInForce::NullVal,
    {
        TimeInForce::NullVal
    }
}

/// Decoding the byte of a value gives the value back.
pub proof fn lemma_time_in_force_roundtrip(v: TimeInForce)
    ensures
        time_in_force_from_u8_spec(time_in_force_to_u8_spec(v)) == v,
{
}

} // verus!
