use vstd::prelude::*;
use vstd::string::StringSliceAdditionalSpecFns;

verus! {

/// System control operation on the wire (one byte).
#[allow(non_camel_case_types)]
#[derive(Clone, Copy, Debug, PartialEq, Eq, PartialOrd, Ord, Hash, Structural)]
pub enum ControlOp {
    shutdown,
    NullVal,
}

/// The byte that encodes a value of this enum.
pub open spec fn control_op_to_u8_spec(v: ControlOp) -> u8 {
    match v {
        ControlOp::shutdown => 0x0u8,
        ControlOp::NullVal => 0xffu8,
    }
}

/// The value that a byte decodes to: unknown bytes decode to `NullVal`.
pub open spec fn control_op_from_u8_spec(b: u8) -> ControlOp {
    if b == 0x0u8 {
        ControlOp::shutdown
    } else {
        ControlOp::NullVal
    }
}

impl ControlOp {
    /// The byte that encodes this value.
    pub fn to_u8(self) -> (r: u8)
        ensures
            r == control_op_to_u8_spec(self),
    {
        match self {
            ControlOp::shutdown => 0x0u8,
            ControlOp::NullVal => 0xffu8,
        }
    }

    /// The value encoded by a byte.
    pub fn from_u8(b: u8) -> (r: ControlOp)
        ensures
            r == control_op_from_u8_spec(b),
    {
        if b == 0x0u8 {
            ControlOp::shutdown
        } else {
            ControlOp::NullVal
        }
    }

    /// The schema name of this value.
    pub fn as_str(&self) -> (r: &'static str)
        ensures
            *self == ControlOp::shutdown ==> r@ == "shutdown"@,
            *self == ControlOp::NullVal ==> r@ == "NullVal"@,
    {
        match self {
            ControlOp::shutdown => "shutdown",
            ControlOp::NullVal => "NullVal",
        }
    }
}

impl ControlOp {
    /// The value whose schema name is `v`; any other text names none.
    pub fn from_name(v: &str) -> (r: ControlOp)
        ensures
            r == (if v.spec_bytes() == "shutdown".spec_bytes() {
                ControlOp::shutdown
            } else {
                ControlOp::NullVal
            }),
    {
        if super::wire::str_is(v, "shutdown") {
            ControlOp::shutdown
        } else {
            ControlOp::NullVal
        }
    }
}

impl core::str::FromStr for ControlOp {
    type Err = ();

    fn from_str(v: &str) -> (r: Result<ControlOp, ()>)
        ensures
            r == Ok::<ControlOp, ()>(if v.spec_bytes() == "shutdown".spec_bytes() {
                ControlOp::shutdown
            } else {
                ControlOp::NullVal
            }),
    {
        Ok(ControlOp::from_name(v))
    }
}

impl Default for ControlOp {
    fn default() -> (r: ControlOp)
        ensures
            r == ControlOp::NullVal,
    {
        ControlOp::NullVal
    }
}

/// Decoding the byte of a value gives the value back.
pub proof fn lemma_control_op_roundtrip(v: ControlOp)
    ensures
        control_op_from_u8_spec(control_op_to_u8_spec(v)) == v,
{
}

} // verus!
