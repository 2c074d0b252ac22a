//! Subtypes: the number from 0 to 4095 that refines a storage class.

use crate::error::OutOfRangeError;
use vstd::prelude::*;

verus! {

/// Largest subtype number.
pub const MAX_SUBTYPE: u16 = 4095;

/// A subtype number, always at most 4095.
///
/// User-defined values carry one: `Value::UserText(SubType::new_unchecked(7), "..")`.
#[derive(Clone, Copy, Debug, PartialEq, Eq)]
pub struct SubType(u16);

impl View for SubType {
    type V = u16;

    closed spec fn view(&self) -> u16 {
        self.0
    }
}

impl SubType {
    /// The subtype with the given number, for use in contracts.
    pub closed spec fn spec_new(value: u16) -> SubType {
        SubType(value)
    }

    /// `spec_new` is the subtype with that number, and there is no other.
    pub broadcast proof fn lemma_spec_new(value: u16)
        ensures
            (#[trigger] SubType::spec_new(value))@ == value,
            forall|s: SubType| s@ == value ==> s == SubType::spec_new(value),
    {
    }

    #[verifier::type_invariant]
    closed spec fn in_range(self) -> bool {
        self.0 <= MAX_SUBTYPE
    }

    /// Creates the subtype with the given number.
    ///
    /// The number must be at most 4095.
    pub fn new_unchecked(value: u16) -> (r: SubType)
        requires
            value <= MAX_SUBTYPE,
        ensures
            r@ == value,
    {
        SubType(value)
    }

    /// Creates the subtype with the given number, or returns `None` if the
    /// number is greater than 4095.
    pub fn new(value: u16) -> (r: Option<SubType>)
        ensures
            value <= MAX_SUBTYPE <==> r is Some,
            r matches Some(s) ==> s@ == value,
    {
        if value < 4096 {
            Some(SubType(value))
        } else {
            None
        }
    }

    /// Returns the number of this subtype.
    pub fn value(&self) -> (r: u16)
        ensures
            r == self@,
            r <= MAX_SUBTYPE,
    {
        proof {
            use_type_invariant(self);
        }
        self.0
    }
}

impl From<u8> for SubType {
    fn from(value: u8) -> (r: SubType) {
        SubType(value as u16)
    }
}

impl vstd::std_specs::convert::FromSpecImpl<u8> for SubType {
    open spec fn obeys_from_spec() -> bool {
        true
    }

    open spec fn from_spec(value: u8) -> SubType {
        SubType::spec_new(value as u16)
    }
}

impl TryFrom<u16> for SubType {
    type Error = OutOfRangeError<u16>;

    fn try_from(value: u16) -> (r: Result<SubType, OutOfRangeError<u16>>) {
        if value < 4096 {
            Ok(SubType(value))
        } else {
            Err(OutOfRangeError { min: Some(0), max: Some(4095), value })
        }
    }
}

impl vstd::std_specs::convert::TryFromSpecImpl<u16> for SubType {
    open spec fn obeys_try_from_spec() -> bool {
        true
    }

    open spec fn try_from_spec(value: u16) -> Result<SubType, OutOfRangeError<u16>> {
        if value < 4096 {
            Ok(SubType::spec_new(value))
        } else {
            Err(OutOfRangeError { min: Some(0u16), max: Some(4095u16), value })
        }
    }
}

impl TryFrom<i16> for SubType {
    type Error = OutOfRangeError<i16>;

    fn try_from(value: i16) -> (r: Result<SubType, OutOfRangeError<i16>>) {
        if 0 <= value && value < 4096 {
            Ok(SubType(value as u16))
        } else {
            Err(OutOfRangeError { min: Some(0), max: Some(4095), value })
        }
    }
}

impl vstd::std_specs::convert::TryFromSpecImpl<i16> for SubType {
    open spec fn obeys_try_from_spec() -> bool {
        true
    }

    open spec fn try_from_spec(value: i16) -> Result<SubType, OutOfRangeError<i16>> {
        if 0 <= value < 4096 {
            Ok(SubType::spec_new(value as u16))
        } else {
            Err(OutOfRangeError { min: Some(0i16), max: Some(4095i16), value })
        }
    }
}

impl TryFrom<u32> for SubType {
    type Error = OutOfRangeError<u32>;

    fn try_from(value: u32) -> (r: Result<SubType, OutOfRangeError<u32>>) {
        if 0 <= value && value < 4096 {
            Ok(SubType(value as u16))
        } else {
            Err(OutOfRangeError { min: Some(0), max: Some(4095), value })
        }
    }
}

impl vstd::std_specs::convert::TryFromSpecImpl<u32> for SubType {
    open spec fn obeys_try_from_spec() -> bool {
        true
    }

    open spec fn try_from_spec(value: u32) -> Result<SubType, OutOfRangeError<u32>> {
        if 0 <= value < 4096 {
            Ok(SubType::spec_new(value as u16))
        } else {
            Err(OutOfRangeError { min: Some(0u32), max: Some(4095u32), value })
        }
    }
}

impl TryFrom<i32> for SubType {
    type Error = OutOfRangeError<i32>;

    fn try_from(value: i32) -> (r: Result<SubType, OutOfRangeError<i32>>) {
        if 0 <= value && value < 4096 {
            Ok(SubType(value as u16))
        } else {
            Err(OutOfRangeError { min: Some(0), max: Some(4095), value })
        }
    }
}

impl vstd::std_specs::convert::TryFromSpecImpl<i32> for SubType {
    open spec fn obeys_try_from_spec() -> bool {
        true
    }

    open spec fn try_from_spec(value: i32) -> Result<SubType, OutOfRangeError<i32>> {
        if 0 <= value < 4096 {
            Ok(SubType::spec_new(value as u16))
        } else {
            Err(OutOfRangeError { min: Some(0i32), max: Some(4095i32), value })
        }
    }
}

impl TryFrom<u64> for SubType {
    type Error = OutOfRangeError<u64>;

    fn try_from(value: u64) -> (r: Result<SubType, OutOfRangeError<u64>>) {
        if 0 <= value && value < 4096 {
            Ok(SubType(value as u16))
        } else {
            Err(OutOfRangeError { min: Some(0), max: Some(4095), value })
        }
    }
}

impl vstd::std_specs::convert::TryFromSpecImpl<u64> for SubType {
    open spec fn obeys_try_from_spec() -> bool {
        true
    }

    open spec fn try_from_spec(value: u64) -> Result<SubType, OutOfRangeError<u64>> {
        if 0 <= value < 4096 {
            Ok(SubType::spec_new(value as u16))
        } else {
            Err(OutOfRangeError { min: Some(0u64), max: Some(4095u64), value })
        }
    }
}

impl TryFrom<i64> for SubType {
    type Error = OutOfRangeError<i64>;

    fn try_from(value: i64) -> (r: Result<SubType, OutOfRangeError<i64>>) {
        if 0 <= value && value < 4096 {
            Ok(SubType(value as u16))
        } else {
            Err(OutOfRangeError { min: Some(0), max: Some(4095), value })
        }
    }
}

impl vstd::std_specs::convert::TryFromSpecImpl<i64> for SubType {
    open spec fn obeys_try_from_spec() -> bool {
        true
    }

    open spec fn try_from_spec(value: i64) -> Result<SubType, OutOfRangeError<i64>> {
        if 0 <= value < 4096 {
            Ok(SubType::spec_new(value as u16))
        } else {
            Err(OutOfRangeError { min: Some(0i64), max: Some(4095i64), value })
        }
    }
}

} // verus!
