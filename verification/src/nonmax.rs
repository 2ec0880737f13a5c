//! Integers that are never their type's maximum, so that the maximum can
//! stand for "no value".
use vstd::prelude::*;

verus! {

use crate::node_index::NodeIndexNonMax;

/// A `u16` that is not `u16::MAX`.
#[derive(Debug, Clone, Copy, PartialEq, Eq, Structural)]
pub struct NonMaxU16(u16);

/// A `u32` that is not `u32::MAX`.
#[derive(Debug, Clone, Copy, PartialEq, Eq, Structural)]
pub struct NonMaxU32(u32);

impl View for NonMaxU16 {
    type V = u16;

    closed spec fn view(&self) -> u16 {
        self.0
    }
}

impl View for NonMaxU32 {
    type V = u32;

    closed spec fn view(&self) -> u32 {
        self.0
    }
}

impl NonMaxU16 {
    /// The value is never the maximum.
    pub closed spec fn wf(self) -> bool {
        self.0 != u16::MAX
    }
}

impl NonMaxU32 {
    /// The value is never the maximum.
    pub closed spec fn wf(self) -> bool {
        self.0 != u32::MAX
    }
}

impl Default for NonMaxU16 {
    /// Zero.
    fn default() -> (r: Self)
        ensures
            r@ == 0 && r.wf(),
    {
        NonMaxU16(0)
    }
}

impl Default for NonMaxU32 {
    /// Zero.
    fn default() -> (r: Self)
        ensures
            r@ == 0 && r.wf(),
    {
        NonMaxU32(0)
    }
}

impl TryFrom<u16> for NonMaxU16 {
    type Error = ();

    fn try_from(value: u16) -> (r: Result<Self, Self::Error>)
        ensures
            r is Ok <==> value != u16::MAX,
            r matches Ok(x) ==> x@ == value && x.wf(),
    {
        if value == u16::MAX {
            Err(())
        } else {
            Ok(NonMaxU16(value))
        }
    }
}

impl vstd::std_specs::convert::TryFromSpecImpl<u16> for NonMaxU16 {
    open spec fn obeys_try_from_spec() -> bool {
        true
    }

    closed spec fn try_from_spec(value: u16) -> Result<Self, ()> {
        if value == u16::MAX {
            Err(())
        } else {
            Ok(NonMaxU16(value))
        }
    }
}

impl From<NonMaxU16> for u16 {
    fn from(value: NonMaxU16) -> (r: u16)
        ensures
            r == value@,
    {
        value.0
    }
}

impl vstd::std_specs::convert::FromSpecImpl<NonMaxU16> for u16 {
    open spec fn obeys_from_spec() -> bool {
        true
    }

    closed spec fn from_spec(value: NonMaxU16) -> u16 {
        value.0
    }
}

impl TryFrom<u32> for NonMaxU32 {
    type Error = ();

    fn try_from(value: u32) -> (r: Result<Self, Self::Error>)
        ensures
            r is Ok <==> value != u32::MAX,
            r matches Ok(x) ==> x@ == value && x.wf(),
    {
        if value == u32::MAX {
            Err(())
        } else {
            Ok(NonMaxU32(value))
        }
    }
}

impl vstd::std_specs::convert::TryFromSpecImpl<u32> for NonMaxU32 {
    open spec fn obeys_try_from_spec() -> bool {
        true
    }

    closed spec fn try_from_spec(value: u32) -> Result<Self, ()> {
        if value == u32::MAX {
            Err(())
        } else {
            Ok(NonMaxU32(value))
        }
    }
}

impl From<NonMaxU32> for u32 {
    fn from(value: NonMaxU32) -> (r: u32)
        ensures
            r == value@,
    {
        value.0
    }
}

impl vstd::std_specs::convert::FromSpecImpl<NonMaxU32> for u32 {
    open spec fn obeys_from_spec() -> bool {
        true
    }

    closed spec fn from_spec(value: NonMaxU32) -> u32 {
        value.0
    }
}

impl NodeIndexNonMax for NonMaxU32 {
    open spec fn value(self) -> nat {
        self@ as nat
    }

    open spec fn limit() -> nat {
        u32::MAX as nat
    }

    fn from_u32(val: u32) -> (r: Self) {
        NonMaxU32(val)
    }

    fn to_usize(self) -> (r: usize) {
        self.0 as usize
    }
}

impl NodeIndexNonMax for NonMaxU16 {
    open spec fn value(self) -> nat {
        self@ as nat
    }

    open spec fn limit() -> nat {
        u16::MAX as nat
    }

    fn from_u32(val: u32) -> (r: Self) {
        NonMaxU16(val as u16)
    }

    fn to_usize(self) -> (r: usize) {
        self.0 as usize
    }
}

} // verus!
