//! Error types returned by the codec.

use vstd::prelude::*;

verus! {

/// Says that a buffer is too small for the requested operation.
#[derive(Clone, Copy, Debug, PartialEq, Eq, Structural)]
pub struct SmallBufferError {
    /// How many bytes must be added to the buffer for the operation to succeed.
    pub required_extra: usize,
}

/// Why a value could not be appended to a container.
#[derive(Clone, Copy, Debug, PartialEq, Eq, Structural)]
pub enum AddValueError {
    /// The text key is longer than 255 bytes.
    LongKey,
    /// The container is a read-only view.
    ReadOnly,
    /// The buffer of the document cannot hold the new element.
    SmallBuffer(SmallBufferError),
}

/// Why a byte sequence could not be decoded.
#[derive(Clone, Copy, Debug, PartialEq, Eq, Structural)]
pub enum DeserializeError {
    /// The size field or the payload is missing, cut short or inconsistent.
    InvalidData,
    /// The type tag is missing, cut short or names no known type.
    InvalidType,
}

/// Says that a number lies outside the range a conversion accepts.
#[derive(Debug, PartialEq, Eq)]
pub struct OutOfRangeError<T> {
    /// Smallest accepted number, if there is one.
    pub min: Option<T>,
    /// Largest accepted number, if there is one.
    pub max: Option<T>,
    /// The number that was given.
    pub value: T,
}

impl From<SmallBufferError> for AddValueError {
    fn from(value: SmallBufferError) -> (r: AddValueError) {
        AddValueError::SmallBuffer(value)
    }
}

impl vstd::std_specs::convert::FromSpecImpl<SmallBufferError> for AddValueError {
    open spec fn obeys_from_spec() -> bool {
        true
    }

    open spec fn from_spec(value: SmallBufferError) -> AddValueError {
        AddValueError::SmallBuffer(value)
    }
}

} // verus!
