//! The type tag: a storage class and a subtype packed into one or two bytes.

use crate::endian::{be16_bytes, be_write_u16, lemma_be16_round_trip};
use crate::error::DeserializeError;
use crate::storage::Storage;
use crate::subtype::{MAX_SUBTYPE, SubType};
use vstd::prelude::*;

verus! {

/// Subtype of `null` under `Storage::NoBytes`.
pub const SUB_NULL: u16 = 0;

/// Subtype of `true` under `Storage::NoBytes`.
pub const SUB_TRUE: u16 = 1;

/// Subtype of `false` under `Storage::NoBytes`.
pub const SUB_FALSE: u16 = 2;

/// Subtype of the unsigned integer under each fixed-width storage class.
pub const SUB_UNSIGNED: u16 = 0;

/// Subtype of the signed integer under each fixed-width storage class.
pub const SUB_SIGNED: u16 = 1;

/// Subtype of the floating-point number under `DWord` and `QWord`.
pub const SUB_FLOAT: u16 = 2;

/// Subtype of plain text under `Storage::String`.
pub const SUB_TEXT: u16 = 0;

/// Subtype of a date with time under `Storage::String`.
pub const SUB_DATE_TIME: u16 = 1;

/// Subtype of a date under `Storage::String`.
pub const SUB_DATE: u16 = 2;

/// Subtype of a time under `Storage::String`.
pub const SUB_TIME: u16 = 3;

/// Subtype of a decimal number written as text under `Storage::String`.
pub const SUB_DECIMAL_STR: u16 = 4;

/// Subtype of plain binary data under `Storage::Blob`.
pub const SUB_BLOB: u16 = 0;

/// Subtype of a list under `Storage::Container`.
pub const SUB_LIST: u16 = 0;

/// Subtype of a map under `Storage::Container`.
pub const SUB_MAP: u16 = 1;

/// Subtype of an object under `Storage::Container`.
pub const SUB_OBJECT: u16 = 2;

/// How many bytes the tag of a subtype takes: one below 16, else two.
pub open spec fn tag_size(subtype: u16) -> usize {
    if subtype < 16 {
        1
    } else {
        2
    }
}

/// The bytes of a tag. With a subtype below 16, one byte holds the class in
/// its three high bits and the subtype in its four low bits. Otherwise the
/// first byte holds the class, the extension bit `0x10` and the four high bits
/// of the subtype, and the second byte the eight low bits.
pub open spec fn tag_bytes(storage: Storage, subtype: u16) -> Seq<u8> {
    if subtype < 16 {
        seq![storage.spec_bits() | (subtype as u8)]
    } else {
        be16_bytes(((storage.spec_bits() as u16) << 8) | 0x1000 | subtype)
    }
}

/// What decoding a tag from the start of `bytes` gives: nothing from no
/// bytes, nor from a single byte that has the extension bit.
pub open spec fn decode_tag(bytes: Seq<u8>) -> Option<(Storage, u16)> {
    if bytes.len() == 0 {
        None
    } else {
        let first = bytes[0];
        match Storage::spec_from_bits(first & 0xE0) {
            None => None,
            Some(storage) => {
                if first & 0x10 == 0 {
                    Some((storage, (first & 0x0F) as u16))
                } else if bytes.len() == 1 {
                    None
                } else {
                    Some((storage, (((first & 0x0F) as u16) << 8) | (bytes[1] as u16)))
                }
            },
        }
    }
}

/// What decoding the tag of a value gives: the tag at the start of `bytes`
/// if it stands in the form in which tags are written, one byte for a
/// subtype below 16 and two bytes otherwise.
pub open spec fn parse_tag(bytes: Seq<u8>) -> Option<(Storage, u16)> {
    match decode_tag(bytes) {
        None => None,
        Some((storage, subtype)) => if bytes[0] & 0x10 != 0 && subtype < 16 {
            None
        } else {
            Some((storage, subtype))
        },
    }
}

/// A storage class and a subtype.
#[derive(Clone, Copy, Debug, PartialEq, Eq)]
pub struct Type {
    /// The storage class.
    pub storage: Storage,
    /// The subtype.
    pub subtype: SubType,
}

proof fn lemma_masked_storage(first: u8)
    ensures
        Storage::spec_from_bits(first & 0xE0) is Some,
        first & 0x0F < 16,
        (((first & 0x0F) as u16) << 8) <= 0x0F00,
{
    let m = first & 0xE0;
    assert(m == 0x00 || m == 0x20 || m == 0x40 || m == 0x60 || m == 0x80 || m == 0xA0 || m == 0xC0
        || m == 0xE0) by (bit_vector)
        requires
            m == first & 0xE0,
    ;
    assert(first & 0x0F < 16) by (bit_vector);
    assert((((first & 0x0F) as u16) << 8) <= 0x0F00) by (bit_vector);
}

proof fn lemma_wide_subtype(first: u8, second: u8)
    ensures
        ((((first & 0x0F) as u16) << 8) | (second as u16)) <= 4095,
{
    assert(((((first & 0x0F) as u16) << 8) | (second as u16)) <= 4095) by (bit_vector);
}

proof fn lemma_narrow_tag(bits: u8, subtype: u16)
    requires
        bits & 0x1F == 0,
        subtype < 16,
    ensures
        (bits | (subtype as u8)) & 0xE0 == bits,
        (bits | (subtype as u8)) & 0x10 == 0,
        ((bits | (subtype as u8)) & 0x0F) as u16 == subtype,
{
    assert((bits | (subtype as u8)) & 0xE0 == bits && (bits | (subtype as u8)) & 0x10 == 0 && ((bits
        | (subtype as u8)) & 0x0F) as u16 == subtype) by (bit_vector)
        requires
            bits & 0x1F == 0,
            subtype < 16,
    ;
}

proof fn lemma_wide_tag(bits: u8, subtype: u16)
    requires
        bits & 0x1F == 0,
        16 <= subtype <= 4095,
    ensures
        ({
            let w = ((bits as u16) << 8) | 0x1000 | subtype;
            let hi = (w / 0x100) as u8;
            let lo = (w % 0x100) as u8;
            &&& hi & 0xE0 == bits
            &&& hi & 0x10 != 0
            &&& (((hi & 0x0F) as u16) << 8) | (lo as u16) == subtype
        }),
{
    let w = ((bits as u16) << 8) | 0x1000 | subtype;
    let hi = (w / 0x100) as u8;
    let lo = (w % 0x100) as u8;
    assert(hi & 0xE0 == bits && hi & 0x10 != 0 && (((hi & 0x0F) as u16) << 8) | (lo as u16)
        == subtype) by (bit_vector)
        requires
            bits & 0x1F == 0,
            16 <= subtype <= 4095,
            w == ((bits as u16) << 8) | 0x1000 | subtype,
            hi == (w / 0x100) as u8,
            lo == (w % 0x100) as u8,
    ;
}

proof fn lemma_storage_bits_low_clear(storage: Storage)
    ensures
        storage.spec_bits() & 0x1F == 0,
{
    let b = storage.spec_bits();
    assert(b == 0x00 || b == 0x20 || b == 0x40 || b == 0x60 || b == 0x80 || b == 0xA0 || b == 0xC0
        || b == 0xE0);
    assert((b == 0x00 || b == 0x20 || b == 0x40 || b == 0x60 || b == 0x80 || b == 0xA0 || b == 0xC0
        || b == 0xE0) ==> b & 0x1F == 0) by (bit_vector);
}

/// A tag is read back from its bytes, whatever follows them.
pub proof fn lemma_parse_tag_bytes(storage: Storage, subtype: u16, tail: Seq<u8>)
    requires
        subtype <= MAX_SUBTYPE,
    ensures
        tag_bytes(storage, subtype).len() == tag_size(subtype),
        parse_tag(tag_bytes(storage, subtype) + tail) == Some((storage, subtype)),
{
    let bits = storage.spec_bits();
    lemma_storage_bits_low_clear(storage);
    storage.lemma_bits_round_trip();
    let all = tag_bytes(storage, subtype) + tail;
    if subtype < 16 {
        lemma_narrow_tag(bits, subtype);
        assert(all[0] == bits | (subtype as u8));
    } else {
        lemma_wide_tag(bits, subtype);
        let w = ((bits as u16) << 8) | 0x1000 | subtype;
        lemma_be16_round_trip(w);
        assert(all[0] == (w / 0x100) as u8);
        assert(all[1] == (w % 0x100) as u8);
    }
}

/// A decoded tag lies within the bytes it was decoded from and holds a
/// subtype of at most 4095.
pub proof fn lemma_parse_tag_bounds(bytes: Seq<u8>)
    requires
        parse_tag(bytes) is Some,
    ensures
        bytes.len() >= tag_size(parse_tag(bytes).unwrap().1),
        parse_tag(bytes).unwrap().1 <= MAX_SUBTYPE,
{
    let first = bytes[0];
    lemma_masked_storage(first);
    if first & 0x10 != 0 {
        lemma_wide_subtype(first, bytes[1]);
    }
}

/// Decoding a tag looks only at the bytes of the tag.
pub proof fn lemma_parse_tag_prefix(bytes: Seq<u8>, other: Seq<u8>)
    requires
        parse_tag(bytes) is Some,
        other.len() >= tag_size(parse_tag(bytes).unwrap().1),
        other.subrange(0, tag_size(parse_tag(bytes).unwrap().1) as int) == bytes.subrange(
            0,
            tag_size(parse_tag(bytes).unwrap().1) as int,
        ),
    ensures
        parse_tag(other) == parse_tag(bytes),
{
    lemma_parse_tag_bounds(bytes);
    let first = bytes[0];
    let n = tag_size(parse_tag(bytes).unwrap().1) as int;
    lemma_masked_storage(first);
    assert(bytes[0] == bytes.subrange(0, n)[0]);
    assert(other[0] == other.subrange(0, n)[0]);
    if first & 0x10 != 0 {
        assert(bytes[1] == bytes.subrange(0, n)[1]);
        assert(other[1] == other.subrange(0, n)[1]);
    }
}

impl Type {
    /// The bytes of this tag.
    pub open spec fn spec_bytes(self) -> Seq<u8> {
        tag_bytes(self.storage, self.subtype@)
    }

    /// How many bytes this tag takes.
    pub open spec fn spec_size(self) -> usize {
        tag_size(self.subtype@)
    }

    /// Returns whether this tag takes a single byte.
    pub fn is_u8(&self) -> (r: bool)
        ensures
            r == (self.subtype@ < 16),
    {
        self.subtype.value() < 16
    }

    /// Returns how many bytes this tag takes (1 or 2).
    pub fn size(&self) -> (r: usize)
        ensures
            r == self.spec_size(),
    {
        if self.is_u8() {
            1
        } else {
            2
        }
    }

    /// Writes this tag at the start of `buf` and returns the part of `buf`
    /// behind it.
    ///
    /// `buf` must hold at least `self.size()` bytes.
    pub fn write<'a>(&self, buf: &'a mut [u8]) -> (rest: &'a mut [u8])
        requires
            old(buf)@.len() >= self.spec_size(),
        ensures
            rest@ == old(buf)@.skip(self.spec_size() as int),
            final(buf)@ == self.spec_bytes() + final(rest)@,
    {
        let storage = self.storage.bits();
        let subtype = self.subtype.value();
        if self.is_u8() {
            let (head, rest) = buf.split_at_mut(1);
            head[0] = storage | (subtype as u8);
            assert(head@ == self.spec_bytes());
            rest
        } else {
            let (head, rest) = buf.split_at_mut(2);
            let wide: u16 = ((storage as u16) << 8) | 0x1000 | subtype;
            be_write_u16(head, wide);
            proof {
                lemma_be16_round_trip(wide);
            }
            assert(head@ == self.spec_bytes());
            rest
        }
    }
}

impl<'a> TryFrom<&'a [u8]> for Type {
    type Error = DeserializeError;

    fn try_from(value: &'a [u8]) -> (r: Result<Type, DeserializeError>) {
        if value.len() == 0 {
            return Err(DeserializeError::InvalidType);
        }
        let first = value[0];
        proof {
            lemma_masked_storage(first);
            SubType::lemma_spec_new(decode_tag(value@).unwrap().1);
        }
        let storage = match Storage::try_from(first & 0xE0) {
            Ok(s) => s,
            Err(_) => {
                return Err(DeserializeError::InvalidType);
            },
        };
        let subtype = if first & 0x10 == 0 {
            SubType::new_unchecked((first & 0x0F) as u16)
        } else {
            if value.len() == 1 {
                return Err(DeserializeError::InvalidType);
            }
            let second = value[1];
            proof {
                lemma_wide_subtype(first, second);
            }
            SubType::new_unchecked((((first & 0x0F) as u16) << 8) | (second as u16))
        };
        Ok(Type { storage, subtype })
    }
}

impl<'a> vstd::std_specs::convert::TryFromSpecImpl<&'a [u8]> for Type {
    open spec fn obeys_try_from_spec() -> bool {
        true
    }

    open spec fn try_from_spec(value: &'a [u8]) -> Result<Type, DeserializeError> {
        match decode_tag(value@) {
            Some((storage, subtype)) => Ok(Type { storage, subtype: SubType::spec_new(subtype) }),
            None => Err(DeserializeError::InvalidType),
        }
    }
}

} // verus!
