//! The size field: a non-negative number in one byte (0 to 127) or in four.

use crate::endian::{
    be32, be32_bytes, be_read_u32, be_write_u32, lemma_be32_prefix, lemma_be32_round_trip,
};
use crate::error::{DeserializeError, OutOfRangeError};
use vstd::prelude::*;

verus! {

/// Largest number that a size field can hold.
pub const MAX_SIZE: u32 = 0x7FFF_FFFF;

/// The bit that marks the four-byte form.
pub const MAX_SIZE_MASK: u32 = 0x8000_0000;

/// A size, together with the form in which it stands on the wire.
#[derive(Clone, Copy, Debug, PartialEq, Eq, Structural)]
pub enum Size {
    /// One byte, for 0 to 127.
    Compact(u8),
    /// Four bytes, the top bit set.
    Full(u32),
}

/// Whether a number fits the one-byte form.
pub open spec fn spec_is_compactable(value: int) -> bool {
    value <= 127
}

impl Size {
    /// A size is well formed if its number fits its form.
    pub open spec fn wf(self) -> bool {
        match self {
            Size::Compact(v) => v <= 127,
            Size::Full(v) => v <= MAX_SIZE,
        }
    }

    /// How many bytes the field takes.
    pub open spec fn spec_size(self) -> usize {
        match self {
            Size::Compact(_) => 1,
            Size::Full(_) => 4,
        }
    }

    /// The number the field holds.
    pub open spec fn spec_value(self) -> usize {
        match self {
            Size::Compact(v) => v as usize,
            Size::Full(v) => v as usize,
        }
    }

    /// Whether the field has the one-byte form.
    pub open spec fn spec_is_u8(self) -> bool {
        self is Compact
    }

    /// The form that `new` picks for a number: one byte whenever it fits.
    pub open spec fn spec_new(value: int) -> Size
        recommends
            0 <= value <= MAX_SIZE,
    {
        if value <= 127 {
            Size::Compact(value as u8)
        } else {
            Size::Full(value as u32)
        }
    }

    /// The bytes of the field: the number itself in the one-byte form, the
    /// number with the top bit set, big-endian, in the four-byte form.
    pub open spec fn spec_bytes(self) -> Seq<u8> {
        match self {
            Size::Compact(v) => seq![v],
            Size::Full(v) => be32_bytes(v | MAX_SIZE_MASK),
        }
    }

    /// What decoding a size field from the start of `bytes` gives.
    pub open spec fn spec_parse(bytes: Seq<u8>) -> Option<Size> {
        if bytes.len() == 0 {
            None
        } else if bytes[0] < 0x80 {
            Some(Size::Compact(bytes[0]))
        } else if bytes.len() < 4 {
            None
        } else {
            Some(Size::Full(be32(bytes) & MAX_SIZE))
        }
    }

    /// Whether a number fits the one-byte form.
    pub fn is_compactable(value: usize) -> (r: bool)
        ensures
            r == spec_is_compactable(value as int),
    {
        value <= 127
    }

    /// Whether the field has the one-byte form.
    pub fn is_u8(&self) -> (r: bool)
        ensures
            r == self.spec_is_u8(),
    {
        self.size() == 1
    }

    /// Makes the size field for a number, in the one-byte form whenever the
    /// number fits it. Numbers above `MAX_SIZE` are refused.
    pub fn new(value: usize) -> (r: Result<Size, OutOfRangeError<usize>>)
        ensures
            value <= MAX_SIZE ==> r == Ok::<Size, OutOfRangeError<usize>>(Size::spec_new(value as int)),
            value > MAX_SIZE ==> r == Err::<Size, OutOfRangeError<usize>>(
                OutOfRangeError { min: Some(0usize), max: Some(MAX_SIZE as usize), value },
            ),
    {
        if Size::is_compactable(value) {
            Ok(Size::Compact(value as u8))
        } else if value <= MAX_SIZE as usize {
            Ok(Size::Full(value as u32))
        } else {
            Err(OutOfRangeError { min: Some(0), max: Some(MAX_SIZE as usize), value })
        }
    }

    /// How many bytes the field takes.
    pub fn size(&self) -> (r: usize)
        ensures
            r == self.spec_size(),
    {
        match self {
            Size::Compact(_) => 1,
            Size::Full(_) => 4,
        }
    }

    /// The number the field holds.
    pub fn value(&self) -> (r: usize)
        ensures
            r == self.spec_value(),
    {
        match self {
            Size::Compact(v) => *v as usize,
            Size::Full(v) => *v as usize,
        }
    }

    /// Writes the field at the start of `buf` and returns the part of `buf`
    /// behind it.
    ///
    /// `buf` must hold at least `self.size()` bytes.
    pub fn write<'b>(&self, buf: &'b mut [u8]) -> (rest: &'b mut [u8])
        requires
            old(buf)@.len() >= self.spec_size(),
        ensures
            rest@ == old(buf)@.skip(self.spec_size() as int),
            final(buf)@ == self.spec_bytes() + final(rest)@,
    {
        let total_size = self.size();
        let (head, rest) = buf.split_at_mut(total_size);
        match self {
            Size::Compact(v) => {
                head[0] = *v;
                assert(head@ == self.spec_bytes());
            },
            Size::Full(v) => {
                be_write_u32(head, *v | MAX_SIZE_MASK);
                proof {
                    lemma_be32_round_trip(*v | MAX_SIZE_MASK);
                }
                assert(head@ == self.spec_bytes());
            },
        }
        rest
    }

    /// The bytes of a size field are as many as its form says.
    pub proof fn lemma_bytes_len(self)
        ensures
            self.spec_bytes().len() == self.spec_size(),
    {
        match self {
            Size::Compact(_) => {},
            Size::Full(v) => {
                lemma_be32_round_trip(v | MAX_SIZE_MASK);
            },
        }
    }

    /// A well-formed size is read back from its bytes, whatever follows.
    pub proof fn lemma_parse_bytes(self, tail: Seq<u8>)
        requires
            self.wf(),
        ensures
            self.spec_bytes().len() == self.spec_size(),
            Size::spec_parse(self.spec_bytes() + tail) == Some(self),
    {
        match self {
            Size::Compact(v) => {
                assert((self.spec_bytes() + tail)[0] == v);
            },
            Size::Full(v) => {
                let w = v | MAX_SIZE_MASK;
                lemma_be32_round_trip(w);
                let all = self.spec_bytes() + tail;
                assert(all.subrange(0, 4) =~= be32_bytes(w));
                assert(be32_bytes(w).subrange(0, 4) =~= be32_bytes(w));
                lemma_be32_prefix(all, be32_bytes(w));
                assert(w >= 0x8000_0000 && w & MAX_SIZE == v) by (bit_vector)
                    requires
                        w == v | MAX_SIZE_MASK,
                        v <= MAX_SIZE,
                ;
                assert(all[0] == be32_bytes(w)[0]);
                assert(be32_bytes(w)[0] == ((w / 0x1_0000) as u16 / 0x100) as u8);
                assert(all[0] >= 0x80);
            },
        }
    }

    /// A decoded size is well formed and lies within the bytes it was
    /// decoded from.
    pub proof fn lemma_parse_bounds(bytes: Seq<u8>)
        requires
            Size::spec_parse(bytes) is Some,
        ensures
            Size::spec_parse(bytes).unwrap().wf(),
            Size::spec_parse(bytes).unwrap().spec_size() <= bytes.len(),
    {
        if bytes[0] >= 0x80 {
            let x = be32(bytes);
            assert(x & MAX_SIZE <= MAX_SIZE) by (bit_vector);
        }
    }

    /// Decoding looks only at the bytes of the field.
    pub proof fn lemma_parse_prefix(bytes: Seq<u8>, other: Seq<u8>)
        requires
            Size::spec_parse(bytes) is Some,
            other.len() >= Size::spec_parse(bytes).unwrap().spec_size(),
            other.subrange(0, Size::spec_parse(bytes).unwrap().spec_size() as int)
                == bytes.subrange(0, Size::spec_parse(bytes).unwrap().spec_size() as int),
        ensures
            Size::spec_parse(other) == Size::spec_parse(bytes),
    {
        let s = Size::spec_parse(bytes).unwrap();
        let n = s.spec_size() as int;
        assert(bytes[0] == bytes.subrange(0, n)[0]);
        assert(other[0] == other.subrange(0, n)[0]);
        if bytes[0] >= 0x80 {
            lemma_be32_prefix(bytes, other);
        }
    }
}

impl<'a> TryFrom<&'a [u8]> for Size {
    type Error = DeserializeError;

    fn try_from(bytes: &'a [u8]) -> (r: Result<Size, DeserializeError>) {
        if bytes.len() == 0 {
            return Err(DeserializeError::InvalidData);
        }
        let first = bytes[0];
        assert(first & 0x80 == 0 <==> first < 0x80) by (bit_vector);
        if first & 0x80 == 0 {
            Ok(Size::Compact(first))
        } else if bytes.len() >= 4 {
            let v = be_read_u32(bytes);
            Ok(Size::Full(v & MAX_SIZE))
        } else {
            Err(DeserializeError::InvalidData)
        }
    }
}

impl<'a> vstd::std_specs::convert::TryFromSpecImpl<&'a [u8]> for Size {
    open spec fn obeys_try_from_spec() -> bool {
        true
    }

    open spec fn try_from_spec(bytes: &'a [u8]) -> Result<Size, DeserializeError> {
        match Size::spec_parse(bytes@) {
            Some(s) => Ok(s),
            None => Err(DeserializeError::InvalidData),
        }
    }
}

} // verus!
