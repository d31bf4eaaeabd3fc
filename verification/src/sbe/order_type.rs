use vstd::prelude::*;
use vstd::string::StringSliceAdditionalSpecFns;

verus! {

/// Type of an order on the wire (one byte).
#[allow(non_camel_case_types)]
#[derive(Clone, Copy, Debug, PartialEq, Eq, PartialOrd, Ord, Hash, Structural)]
pub enum OrderType {
    market,
    limit,
    stop,
    stop_limit,
    NullVal,
}

/// The byte that encodes a value of this enum.
pub open spec fn order_type_to_u8_spec(v: OrderType) -> u8 {
    match v {
        OrderType::market => 0x0u8,
        OrderType::limit => 0x1u8,
        OrderType::stop => 0x2u8,
        OrderType::stop_limit => 0x3u8,
        OrderType::NullVal => 0xffu8,
    }
}

/// The value that a byte decodes to: unknown bytes decode to `NullVal`.
pub open spec fn order_type_from_u8_spec(b: u8) -> OrderType {
    if b == 0x0u8 {
        OrderType::market
    } else if b == 0x1u8 {
        OrderType::limit
    } else if b == 0x2u8 {
        OrderType::stop
    } else if b == 0x3u8 {
        OrderType::stop_limit
    } else {
        OrderType::NullVal
    }
}

impl OrderType {
    /// The byte that encodes this value.
    pub fn to_u8(self) -> (r: u8)
        ensures
            r == order_type_to_u8_spec(self),
    {
        match self {
            OrderType::market => 0x0u8,
            OrderType::limit => 0x1u8,
            OrderType::stop => 0x2u8,
            OrderType::stop_limit => 0x3u8,
            OrderType::NullVal => 0xffu8,
        }
    }

    /// The value encoded by a byte.
    pub fn from_u8(b: u8) -> (r: OrderType)
        ensures
            r == order_type_from_u8_spec(b),
    {
        if b == 0x0u8 {
            OrderType::market
        } else if b == 0x1u8 {
            OrderType::limit
        } else if b == 0x2u8 {
            OrderType::stop
        } else if b == 0x3u8 {
            OrderType::stop_limit
        } else {
            OrderType::NullVal
        }
    }

    /// The schema name of this value.
    pub fn as_str(&self) -> (r: &'static str)
        ensures
            *self == OrderType::market ==> r@ == "market"@,
            *self == OrderType::limit ==> r@ == "limit"@,
            *self == OrderType::stop ==> r@ == "stop"@,
            *self == OrderType::stop_limit ==> r@ == "stop_limit"@,
            *self == OrderType::NullVal ==> r@ == "NullVal"@,
    {
        match self {
            OrderType::market => "market",
            OrderType::limit => "limit",
            OrderType::stop => "stop",
            OrderType::stop_limit => "stop_limit",
            OrderType::NullVal => "NullVal",
        }
    }
}

impl OrderType {
    /// The value whose schema name is `v`; any other text names none.
    pub fn from_name(v: &str) -> (r: OrderType)
        ensures
            r == (if v.spec_bytes() == "market".spec_bytes() {
                OrderType::market
            } else if v.spec_bytes() == "limit".spec_bytes() {
                OrderType::limit
            } else if v.spec_bytes() == "stop".spec_bytes() {
                OrderType::stop
            } else if v.spec_bytes() == "stop_limit".spec_bytes() {
                OrderType::stop_limit
            } else {
                OrderType::NullVal
            }),
    {
        if super::wire::str_is(v, "market") {
            OrderType::market
        } else if super::wire::str_is(v, "limit") {
            OrderType::limit
        } else if super::wire::str_is(v, "stop") {
            OrderType::stop
        } else if super::wire::str_is(v, "stop_limit") {
            OrderType::stop_limit
        } else {
            OrderType::NullVal
        }
    }
}

impl core::str::FromStr for OrderType {
    type Err = ();

    fn from_str(v: &str) -> (r: Result<OrderType, ()>)
        ensures
            r == Ok::<OrderType, ()>(if v.spec_bytes() == "market".spec_bytes() {
                OrderType::market
            } else if v.spec_bytes() == "limit".spec_bytes() {
                OrderType::limit
            } else if v.spec_bytes() == "stop".spec_bytes() {
                OrderType::stop
            } else if v.spec_bytes() == "stop_limit".spec_bytes() {
                OrderType::stop_limit
            } else {
                OrderType::NullVal
            }),
    {
        Ok(OrderType::from_name(v))
    }
}

impl Default for OrderType {
    fn default() -> (r: OrderType)
        ensures
            r == OrderType::NullVal,
    {
        OrderType::NullVal
    }
}

/// Decoding the byte of a value gives the value back.
pub proof fn lemma_order_type_roundtrip(v: OrderType)
    ensures
        order_type_from_u8_spec(order_type_to_u8_spec(v)) == v,
{
}

} // verus!
