//! Storage classes: the coarse payload category held in the high bits of a
//! type tag.

use vstd::prelude::*;

verus! {

/// The eight storage classes of the format.
#[derive(Clone, Copy, Debug, PartialEq, Eq, Structural)]
pub enum Storage {
    /// No payload.
    NoBytes,
    /// One byte of payload.
    Byte,
    /// Two bytes of payload.
    Word,
    /// Four bytes of payload.
    DWord,
    /// Eight bytes of payload.
    QWord,
    /// Text: a size field, the UTF-8 bytes and a terminator.
    String,
    /// Binary data: a size field and the bytes.
    Blob,
    /// A list, a map or an object.
    Container,
}

impl Storage {
    /// The three high bits of a tag's first byte that stand for this class.
    pub open spec fn spec_bits(self) -> u8 {
        match self {
            Storage::NoBytes => 0x00,
            Storage::Byte => 0x20,
            Storage::Word => 0x40,
            Storage::DWord => 0x60,
            Storage::QWord => 0x80,
            Storage::String => 0xA0,
            Storage::Blob => 0xC0,
            Storage::Container => 0xE0,
        }
    }

    /// The class that a byte stands for, if it is one of the eight codes.
    pub open spec fn spec_from_bits(bits: u8) -> Option<Storage> {
        if bits == 0x00 {
            Some(Storage::NoBytes)
        } else if bits == 0x20 {
            Some(Storage::Byte)
        } else if bits == 0x40 {
            Some(Storage::Word)
        } else if bits == 0x60 {
            Some(Storage::DWord)
        } else if bits == 0x80 {
            Some(Storage::QWord)
        } else if bits == 0xA0 {
            Some(Storage::String)
        } else if bits == 0xC0 {
            Some(Storage::Blob)
        } else if bits == 0xE0 {
            Some(Storage::Container)
        } else {
            None
        }
    }

    /// Payload length in bytes of the classes whose payload has a fixed
    /// length; `None` for text, binary data and containers.
    pub open spec fn spec_fixed_size(self) -> Option<usize> {
        match self {
            Storage::NoBytes => Some(0),
            Storage::Byte => Some(1),
            Storage::Word => Some(2),
            Storage::DWord => Some(4),
            Storage::QWord => Some(8),
            Storage::String | Storage::Blob | Storage::Container => None,
        }
    }

    /// Returns how many bytes the payload of this class takes if that is
    /// fixed, otherwise `None`.
    pub fn fixed_size(&self) -> (r: Option<usize>)
        ensures
            r == self.spec_fixed_size(),
    {
        match self {
            Storage::NoBytes => Some(0),
            Storage::Byte => Some(1),
            Storage::Word => Some(2),
            Storage::DWord => Some(4),
            Storage::QWord => Some(8),
            Storage::String | Storage::Blob | Storage::Container => None,
        }
    }

    /// Returns the code of this class as it stands in a tag's first byte.
    pub fn bits(&self) -> (r: u8)
        ensures
            r == self.spec_bits(),
    {
        match self {
            Storage::NoBytes => 0x00,
            Storage::Byte => 0x20,
            Storage::Word => 0x40,
            Storage::DWord => 0x60,
            Storage::QWord => 0x80,
            Storage::String => 0xA0,
            Storage::Blob => 0xC0,
            Storage::Container => 0xE0,
        }
    }

    /// Every class is found again from its code.
    pub proof fn lemma_bits_round_trip(self)
        ensures
            Storage::spec_from_bits(self.spec_bits()) == Some(self),
    {
    }
}

impl TryFrom<u8> for Storage {
    type Error = ();

    fn try_from(value: u8) -> (r: Result<Storage, ()>) {
        if value == 0x00 {
            Ok(Storage::NoBytes)
        } else if value == 0x20 {
            Ok(Storage::Byte)
        } else if value == 0x40 {
            Ok(Storage::Word)
        } else if value == 0x60 {
            Ok(Storage::DWord)
        } else if value == 0x80 {
            Ok(Storage::QWord)
        } else if value == 0xA0 {
            Ok(Storage::String)
        } else if value == 0xC0 {
            Ok(Storage::Blob)
        } else if value == 0xE0 {
            Ok(Storage::Container)
        } else {
            Err(())
        }
    }
}

impl vstd::std_specs::convert::TryFromSpecImpl<u8> for Storage {
    open spec fn obeys_try_from_spec() -> bool {
        true
    }

    open spec fn try_from_spec(value: u8) -> Result<Storage, ()> {
        match Storage::spec_from_bits(value) {
            Some(s) => Ok(s),
            None => Err(()),
        }
    }
}

} // verus!
