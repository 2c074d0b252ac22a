//! The memory that a document is written into.

use vstd::prelude::*;

verus! {

/// The memory that a document is written into.
#[non_exhaustive]
#[derive(Debug)]
pub enum Allocation<'a> {
    /// A buffer of the caller that keeps its size.
    Static(&'a mut [u8]),
}

impl<'a> View for Allocation<'a> {
    type V = Seq<u8>;

    open spec fn view(&self) -> Seq<u8> {
        match self {
            Allocation::Static(buf) => buf@,
        }
    }
}

impl<'a> From<&'a mut [u8]> for Allocation<'a> {
    fn from(value: &'a mut [u8]) -> (r: Allocation<'a>) {
        Allocation::Static(value)
    }
}

impl<'a> vstd::std_specs::convert::FromSpecImpl<&'a mut [u8]> for Allocation<'a> {
    open spec fn obeys_from_spec() -> bool {
        false
    }

    open spec fn from_spec(value: &'a mut [u8]) -> Allocation<'a> {
        Allocation::Static(value)
    }
}

} // verus!
