use vstd::prelude::*;
use vstd::string::StringSliceAdditionalSpecFns;

verus! {

/// Order status carried by an execution report (one byte).
#[allow(non_camel_case_types)]
#[derive(Clone, Copy, Debug, PartialEq, Eq, PartialOrd, Ord, Hash, Structural)]
pub enum OrderStatus {
    pending,
    order_new,
    partially_filled,
    filled,
    cancelled,
    rejected,
    expired,
    traded,
    NullVal,
}

/// The byte that encodes a value of this enum.
pub open spec fn order_status_to_u8_spec(v: OrderStatus) -> u8 {
    match v {
        OrderStatus::pending => 0x0u8,
        OrderStatus::order_new => 0x1u8,
        OrderStatus::partially_filled => 0x2u8,
        OrderStatus::filled => 0x3u8,
        OrderStatus::cancelled => 0x4u8,
        OrderStatus::rejected => 0x5u8,
        OrderStatus::expired => 0x6u8,
        OrderStatus::traded => 0x7u8,
        OrderStatus::NullVal => 0xffu8,
    }
}

/// The value that a byte decodes to: unknown bytes decode to `NullVal`.
pub open spec fn order_status_from_u8_spec(b: u8) -> OrderStatus {
    if b == 0x0u8 {
        OrderStatus::pending
    } else if b == 0x1u8 {
        OrderStatus::order_new
    } else if b == 0x2u8 {
        OrderStatus::partially_filled
    } else if b == 0x3u8 {
        OrderStatus::filled
    } else if b == 0x4u8 {
        OrderStatus::cancelled
    } else if b == 0x5u8 {
        OrderStatus::rejected
    } else if b == 0x6u8 {
        OrderStatus::expired
    } else if b == 0x7u8 {
        OrderStatus::traded
    } else {
        OrderStatus::NullVal
    }
}

impl OrderStatus {
    /// The byte that encodes this value.
    pub fn to_u8(self) -> (r: u8)
        ensures
            r == order_status_to_u8_spec(self),
    {
        match self {
            OrderStatus::pending => 0x0u8,
            OrderStatus::order_new => 0x1u8,
            OrderStatus::partially_filled => 0x2u8,
            OrderStatus::filled => 0x3u8,
            OrderStatus::cancelled => 0x4u8,
            OrderStatus::rejected => 0x5u8,
            OrderStatus::expired => 0x6u8,
            OrderStatus::traded => 0x7u8,
            OrderStatus::NullVal => 0xffu8,
        }
    }

    /// The value encoded by a byte.
    pub fn from_u8(b: u8) -> (r: OrderStatus)
        ensures
            r == order_status_from_u8_spec(b),
    {
        if b == 0x0u8 {
            OrderStatus::pending
        } else if b == 0x1u8 {
            OrderStatus::order_new
        } else if b == 0x2u8 {
            OrderStatus::partially_filled
        } else if b == 0x3u8 {
            OrderStatus::filled
        } else if b == 0x4u8 {
            OrderStatus::cancelled
        } else if b == 0x5u8 {
            OrderStatus::rejected
        } else if b == 0x6u8 {
            OrderStatus::expired
        } else if b == 0x7u8 {
            OrderStatus::traded
        } else {
            OrderStatus::NullVal
        }
    }

    /// The schema name of this value.
    pub fn as_str(&self) -> (r: &'static str)
        ensures
            *self == OrderStatus::pending ==> r@ == "pending"@,
            *self == OrderStatus::order_new ==> r@ == "order_new"@,
            *self == OrderStatus::partially_filled ==> r@ == "partially_filled"@,
            *self == OrderStatus::filled ==> r@ == "filled"@,
            *self == OrderStatus::cancelled ==> r@ == "cancelled"@,
            *self == OrderStatus::rejected ==> r@ == "rejected"@,
            *self == OrderStatus::expired ==> r@ == "expired"@,
            *self == OrderStatus::traded ==> r@ == "traded"@,
            *self == OrderStatus::NullVal ==> r@ == "NullVal"@,
    {
        match self {
            OrderStatus::pending => "pending",
            OrderStatus::order_new => "order_new",
            OrderStatus::partially_filled => "partially_filled",
            OrderStatus::filled => "filled",
            OrderStatus::cancelled => "cancelled",
            OrderStatus::rejected => "rejected",
            OrderStatus::expired => "expired",
            OrderStatus::traded => "traded",
            OrderStatus::NullVal => "NullVal",
        }
    }
}

impl OrderStatus {
    /// The value whose schema name is `v`; any other text names none.
    pub fn from_name(v: &str) -> (r: OrderStatus)
        ensures
            r == (if v.spec_bytes() == "pending".spec_bytes() {
                OrderStatus::pending
            } else if v.spec_bytes() == "order_new".spec_bytes() {
                OrderStatus::order_new
            } else if v.spec_bytes() == "partially_filled".spec_bytes() {
                OrderStatus::partially_filled
            } else if v.spec_bytes() == "filled".spec_bytes() {
                OrderStatus::filled
            } else if v.spec_bytes() == "cancelled".spec_bytes() {
                OrderStatus::cancelled
            } else if v.spec_bytes() == "rejected".spec_bytes() {
                OrderStatus::rejected
            } else if v.spec_bytes() == "expired".spec_bytes() {
                OrderStatus::expired
            } else if v.spec_bytes() == "traded".spec_bytes() {
                OrderStatus::traded
            } else {
                OrderStatus::NullVal
            }),
    {
        if super::wire::str_is(v, "pending") {
            OrderStatus::pending
        } else if super::wire::str_is(v, "order_new") {
            OrderStatus::order_new
        } else if super::wire::str_is(v, "partially_filled") {
            OrderStatus::partially_filled
        } else if super::wire::str_is(v, "filled") {
            OrderStatus::filled
        } else if super::wire::str_is(v, "cancelled") {
            OrderStatus::cancelled
        } else if super::wire::str_is(v, "rejected") {
            OrderStatus::rejected
        } else if super::wire::str_is(v, "expired") {
            OrderStatus::expired
        } else if super::wire::str_is(v, "traded") {
            OrderStatus::traded
        } else {
            OrderStatus::NullVal
        }
    }
}

impl core::str::FromStr for OrderStatus {
    type Err = ();

    fn from_str(v: &str) -> (r: Result<OrderStatus, ()>)
        ensures
            r == Ok::<OrderStatus, ()>(if v.spec_bytes() == "pending".spec_bytes() {
                OrderStatus::pending
            } else if v.spec_bytes() == "order_new".spec_bytes() {
                OrderStatus::order_new
            } else if v.spec_bytes() == "partially_filled".spec_bytes() {
                OrderStatus::partially_filled
            } else if v.spec_bytes() == "filled".spec_bytes() {
                OrderStatus::filled
            } else if v.spec_bytes() == "cancelled".spec_bytes() {
                OrderStatus::cancelled
            } else if v.spec_bytes() == "rejected".spec_bytes() {
                OrderStatus::rejected
            } else if v.spec_bytes() == "expired".spec_bytes() {
                OrderStatus::expired
            } else if v.spec_bytes() == "traded".spec_bytes() {
                OrderStatus::traded
            } else {
                OrderStatus::NullVal
            }),
    {
        Ok(OrderStatus::from_name(v))
    }
}

impl Default for OrderStatus {
    fn default() -> (r: OrderStatus)
        ensures
            r == OrderStatus::NullVal,
    {
        OrderStatus::NullVal
    }
}

/// Decoding the byte of a value gives the value back.
pub proof fn lemma_order_status_roundtrip(v: OrderStatus)
    ensures
        order_status_from_u8_spec(order_status_to_u8_spec(v)) == v,
{
}

} // verus!
