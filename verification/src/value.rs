//! Values: the tagged union over everything the format can hold.

use crate::container::{IntMap, List, Object};
use crate::data_type::{decode_tag, Type};
use crate::error::{DeserializeError, SmallBufferError};
use crate::format::{
    container_kind, decode_scalar, decode_value, fixed_value, is_container, representable,
    value_bytes, value_payload, value_size, value_type, ValueModel,
};
use crate::endian::{
    be_write_i16, be_write_i32, be_write_i64, be_write_u16, be_write_u32, be_write_u64,
    lemma_be16_head, lemma_be16_round_trip, lemma_be32_head, lemma_be32_round_trip,
    lemma_be64_head, lemma_be64_round_trip,
};
use crate::lemmas::{lemma_decode_container_bounds, lemma_decode_scalar_bounds};
use crate::raw_container::{KeyType, RawContainer};
use crate::size::{MAX_SIZE, Size};
use crate::storage::Storage;
use crate::subtype::SubType;
use crate::utils::{
    copy_into, read_blob, read_i16, read_i32, read_i64, read_i8, read_text, read_u16, read_u32,
    read_u64, read_u8, sized_payload, str_from_utf8,
};
use vstd::prelude::*;
use vstd::slice::slice_subrange;
use vstd::utf8::{encode_utf8, encode_utf8_decode_utf8, encode_utf8_valid_utf8};

verus! {

/// Any value of the format.
///
/// Text and binary data borrow the bytes they were decoded from, and so do
/// containers. A floating-point number is held as the bits of its IEEE 754
/// form.
#[derive(Debug, PartialEq)]
pub enum Value<'a> {
    /// Null.
    Null,
    /// Boolean true.
    True,
    /// Boolean false.
    False,
    /// Unsigned 8-bit integer.
    UInt8(u8),
    /// Signed 8-bit integer.
    Int8(i8),
    /// Unsigned 16-bit integer.
    UInt16(u16),
    /// Signed 16-bit integer.
    Int16(i16),
    /// Unsigned 32-bit integer.
    UInt32(u32),
    /// Signed 32-bit integer.
    Int32(i32),
    /// Single-precision floating-point number, as its bits.
    Float(u32),
    /// Unsigned 64-bit integer.
    UInt64(u64),
    /// Signed 64-bit integer.
    Int64(i64),
    /// Double-precision floating-point number, as its bits.
    Double(u64),
    /// Text.
    Text(&'a str),
    /// Text that stands for a date with time.
    DateTime(&'a str),
    /// Text that stands for a date.
    Date(&'a str),
    /// Text that stands for a time.
    Time(&'a str),
    /// Text that stands for a decimal number.
    DecimalStr(&'a str),
    /// Binary data.
    Blob(&'a [u8]),
    /// A list.
    List(List<'a>),
    /// A map.
    IntMap(IntMap<'a>),
    /// An object.
    Object(Object<'a>),
    /// User-defined value without payload.
    Empty(SubType),
    /// User-defined value of one byte.
    Byte(SubType, u8),
    /// User-defined value of two bytes.
    Word(SubType, u16),
    /// User-defined value of four bytes.
    DWord(SubType, u32),
    /// User-defined value of eight bytes.
    QWord(SubType, u64),
    /// User-defined text.
    UserText(SubType, &'a str),
    /// User-defined binary data.
    UserBlob(SubType, &'a [u8]),
}

impl<'a> View for Value<'a> {
    type V = ValueModel;

    open spec fn view(&self) -> ValueModel {
        match self {
            Value::Null => ValueModel::Null,
            Value::True => ValueModel::True,
            Value::False => ValueModel::False,
            Value::UInt8(v) => ValueModel::UInt8(*v),
            Value::Int8(v) => ValueModel::Int8(*v),
            Value::UInt16(v) => ValueModel::UInt16(*v),
            Value::Int16(v) => ValueModel::Int16(*v),
            Value::UInt32(v) => ValueModel::UInt32(*v),
            Value::Int32(v) => ValueModel::Int32(*v),
            Value::Float(v) => ValueModel::Float(*v),
            Value::UInt64(v) => ValueModel::UInt64(*v),
            Value::Int64(v) => ValueModel::Int64(*v),
            Value::Double(v) => ValueModel::Double(*v),
            Value::Text(s) => ValueModel::Text(s@),
            Value::DateTime(s) => ValueModel::DateTime(s@),
            Value::Date(s) => ValueModel::Date(s@),
            Value::Time(s) => ValueModel::Time(s@),
            Value::DecimalStr(s) => ValueModel::DecimalStr(s@),
            Value::Blob(b) => ValueModel::Blob(b@),
            Value::List(l) => ValueModel::List(l.bytes()),
            Value::IntMap(m) => ValueModel::IntMap(m.bytes()),
            Value::Object(o) => ValueModel::Object(o.bytes()),
            Value::Empty(sub) => ValueModel::Empty(sub@),
            Value::Byte(sub, v) => ValueModel::Byte(sub@, *v),
            Value::Word(sub, v) => ValueModel::Word(sub@, *v),
            Value::DWord(sub, v) => ValueModel::DWord(sub@, *v),
            Value::QWord(sub, v) => ValueModel::QWord(sub@, *v),
            Value::UserText(sub, s) => ValueModel::UserText(sub@, s@),
            Value::UserBlob(sub, b) => ValueModel::UserBlob(sub@, b@),
        }
    }
}

impl<'a> Value<'a> {
    /// Whether the container that this value holds, if it holds one, is in a
    /// consistent state.
    pub open spec fn wf(&self) -> bool {
        match self {
            Value::List(l) => l.wf(),
            Value::IntMap(m) => m.wf(),
            Value::Object(o) => o.wf(),
            _ => true,
        }
    }

    /// The container that this value holds, if it holds one.
    pub open spec fn container(&self) -> Option<RawContainer<'a>> {
        match self {
            Value::List(l) => Some(l.raw()),
            Value::IntMap(m) => Some(m.raw()),
            Value::Object(o) => Some(o.raw()),
            _ => None,
        }
    }

    /// Whether the text or binary data that this value holds, if it holds
    /// any, is short enough for a size field: at most `MAX_SIZE` bytes.
    pub open spec fn encodable(&self) -> bool {
        let storage = value_type(self@).0;
        storage is String || storage is Blob ==> value_payload(self@).len() <= MAX_SIZE
    }

    /// Returns how many bytes the payload of text (with its terminator) or
    /// of binary data takes, and `None` for a value without a size field.
    ///
    /// The value must not be a container.
    pub fn data_size(&self) -> (r: Option<usize>)
        requires
            !(value_type(self@).0 is Container),
            self.encodable(),
        ensures
            value_type(self@).0 is String ==> r == Some((value_payload(self@).len() + 1) as usize),
            value_type(self@).0 is Blob ==> r == Some(value_payload(self@).len() as usize),
            value_type(self@).0.spec_fixed_size() is Some ==> r is None,
    {
        match self {
            Value::Text(t)
            | Value::DateTime(t)
            | Value::Date(t)
            | Value::Time(t)
            | Value::DecimalStr(t)
            | Value::UserText(_, t) => Some(t.len() + 1),
            Value::Blob(b) | Value::UserBlob(_, b) => Some(b.len()),
            _ => None,
        }
    }

    /// Returns the type of this value: its storage class and its subtype.
    pub fn get_type(&self) -> (r: Type)
        ensures
            (r.storage, r.subtype@) == value_type(self@),
    {
        match self {
            Value::Null => Type { storage: Storage::NoBytes, subtype: SubType::new_unchecked(0) },
            Value::True => Type { storage: Storage::NoBytes, subtype: SubType::new_unchecked(1) },
            Value::False => Type { storage: Storage::NoBytes, subtype: SubType::new_unchecked(2) },
            Value::UInt8(_) => Type { storage: Storage::Byte, subtype: SubType::new_unchecked(0) },
            Value::Int8(_) => Type { storage: Storage::Byte, subtype: SubType::new_unchecked(1) },
            Value::UInt16(_) => Type { storage: Storage::Word, subtype: SubType::new_unchecked(0) },
            Value::Int16(_) => Type { storage: Storage::Word, subtype: SubType::new_unchecked(1) },
            Value::UInt32(_) => Type {
                storage: Storage::DWord,
                subtype: SubType::new_unchecked(0),
            },
            Value::Int32(_) => Type { storage: Storage::DWord, subtype: SubType::new_unchecked(1) },
            Value::Float(_) => Type { storage: Storage::DWord, subtype: SubType::new_unchecked(2) },
            Value::UInt64(_) => Type {
                storage: Storage::QWord,
                subtype: SubType::new_unchecked(0),
            },
            Value::Int64(_) => Type { storage: Storage::QWord, subtype: SubType::new_unchecked(1) },
            Value::Double(_) => Type {
                storage: Storage::QWord,
                subtype: SubType::new_unchecked(2),
            },
            Value::Text(_) => Type { storage: Storage::String, subtype: SubType::new_unchecked(0) },
            Value::DateTime(_) => Type {
                storage: Storage::String,
                subtype: SubType::new_unchecked(1),
            },
            Value::Date(_) => Type { storage: Storage::String, subtype: SubType::new_unchecked(2) },
            Value::Time(_) => Type { storage: Storage::String, subtype: SubType::new_unchecked(3) },
            Value::DecimalStr(_) => Type {
                storage: Storage::String,
                subtype: SubType::new_unchecked(4),
            },
            Value::Blob(_) => Type { storage: Storage::Blob, subtype: SubType::new_unchecked(0) },
            Value::List(_) => Type {
                storage: Storage::Container,
                subtype: SubType::new_unchecked(0),
            },
            Value::IntMap(_) => Type {
                storage: Storage::Container,
                subtype: SubType::new_unchecked(1),
            },
            Value::Object(_) => Type {
                storage: Storage::Container,
                subtype: SubType::new_unchecked(2),
            },
            Value::Empty(sub) => Type { storage: Storage::NoBytes, subtype: *sub },
            Value::Byte(sub, _) => Type { storage: Storage::Byte, subtype: *sub },
            Value::Word(sub, _) => Type { storage: Storage::Word, subtype: *sub },
            Value::DWord(sub, _) => Type { storage: Storage::DWord, subtype: *sub },
            Value::QWord(sub, _) => Type { storage: Storage::QWord, subtype: *sub },
            Value::UserText(sub, _) => Type { storage: Storage::String, subtype: *sub },
            Value::UserBlob(sub, _) => Type { storage: Storage::Blob, subtype: *sub },
        }
    }

    /// Returns the bytes of the container that this value holds.
    fn container_bytes(&self) -> (r: &[u8])
        requires
            self.wf(),
            value_type(self@).0 is Container,
        ensures
            r@ == value_payload(self@),
            is_container(r@, container_kind(value_type(self@).1)),
            3 <= r@.len() <= MAX_SIZE,
    {
        match self {
            Value::List(list) => {
                proof {
                    list.lemma_inner();
                    list.inner.lemma_wf();
                    lemma_decode_container_bounds(list.inner.bytes(), KeyType::Empty);
                }
                list.inner.as_bytes()
            },
            Value::IntMap(map) => {
                proof {
                    map.lemma_inner();
                    map.inner.lemma_wf();
                    lemma_decode_container_bounds(map.inner.bytes(), KeyType::Num);
                }
                map.inner.as_bytes()
            },
            Value::Object(object) => {
                proof {
                    object.lemma_inner();
                    object.inner.lemma_wf();
                    lemma_decode_container_bounds(object.inner.bytes(), KeyType::Str);
                }
                object.inner.as_bytes()
            },
            _ => {
                let empty: &[u8] = &[];
                empty
            },
        }
    }

    /// Returns how many bytes this value takes on the wire.
    ///
    /// Text and binary data must have at most `MAX_SIZE` bytes.
    pub fn total_size(&self) -> (r: usize)
        requires
            self.wf(),
            self.encodable(),
        ensures
            r == value_size(self@),
            1 <= r <= MAX_SIZE + 7,
            representable(self@),
    {
        let value_type = self.get_type();
        let sub = value_type.subtype.value();
        if let Storage::Container = value_type.storage {
            return self.container_bytes().len();
        }
        let type_size = value_type.size();
        match value_type.storage.fixed_size() {
            Some(data_size) => type_size + data_size,
            None => {
                let payload = self.sized_payload_bytes().len();
                let terminator: usize = if let Storage::String = value_type.storage {
                    1
                } else {
                    0
                };
                type_size + size_field(payload).size() + payload + terminator
            },
        }
    }

    /// Returns how many bytes this value takes on the wire, whatever the
    /// length of its text or binary data, or `None` if the number does not
    /// fit `usize`.
    pub(crate) fn checked_size(&self) -> (r: Option<usize>)
        requires
            self.wf(),
        ensures
            value_size(self@) <= usize::MAX ==> r == Some(value_size(self@) as usize),
            value_size(self@) > usize::MAX ==> r is None,
            value_size(self@) <= MAX_SIZE ==> self.encodable() && representable(self@),
    {
        let storage = self.get_type().storage;
        let sized = match storage {
            Storage::String | Storage::Blob => true,
            _ => false,
        };
        if !sized {
            return Some(self.total_size());
        }
        let payload = self.sized_payload_bytes().len();
        if payload <= MAX_SIZE as usize {
            return Some(self.total_size());
        }
        let type_size = self.get_type().size();
        let terminator: usize = if let Storage::String = storage {
            1
        } else {
            0
        };
        match payload.checked_add(type_size + 4 + terminator) {
            Some(total) => Some(total),
            None => None,
        }
    }

    /// Returns a value equal to this one that borrows its text or binary
    /// data from `region`, which holds the bytes of this value.
    ///
    /// The value must not be a container.
    pub(crate) fn rebuild<'c>(&self, region: &'c [u8]) -> (r: Value<'c>)
        requires
            self.wf(),
            self.encodable(),
            !(value_type(self@).0 is Container),
            region@ == value_bytes(self@),
        ensures
            r@ == self@,
            r.wf(),
    {
        let value_type = self.get_type();
        let type_size = value_type.size();
        let sub = value_type.subtype.value();
        proof {
            lemma_payload_len(self@);
            crate::data_type::lemma_parse_tag_bytes(
                value_type.storage,
                sub,
                Seq::<u8>::empty(),
            );
            let payload = value_payload(self@);
            let w = Size::spec_new(payload.len() as int).spec_bytes().len() as int;
            if value_type.storage is String {
                assert(region@.subrange(type_size + w, region@.len() - 1) =~= payload);
            }
            if value_type.storage is Blob {
                assert(region@.subrange(type_size + w, type_size + w + payload.len()) =~= payload);
            }
        }
        match self {
            Value::Null => Value::Null,
            Value::True => Value::True,
            Value::False => Value::False,
            Value::UInt8(v) => Value::UInt8(*v),
            Value::Int8(v) => Value::Int8(*v),
            Value::UInt16(v) => Value::UInt16(*v),
            Value::Int16(v) => Value::Int16(*v),
            Value::UInt32(v) => Value::UInt32(*v),
            Value::Int32(v) => Value::Int32(*v),
            Value::Float(v) => Value::Float(*v),
            Value::UInt64(v) => Value::UInt64(*v),
            Value::Int64(v) => Value::Int64(*v),
            Value::Double(v) => Value::Double(*v),
            Value::Empty(sub) => Value::Empty(*sub),
            Value::Byte(sub, v) => Value::Byte(*sub, *v),
            Value::Word(sub, v) => Value::Word(*sub, *v),
            Value::DWord(sub, v) => Value::DWord(*sub, *v),
            Value::QWord(sub, v) => Value::QWord(*sub, *v),
            Value::Blob(bytes) => {
                let skip = type_size + size_field(bytes.len()).size();
                let data = slice_subrange(region, skip, skip + bytes.len());
                assert(data@ == bytes@);
                Value::Blob(data)
            },
            Value::UserBlob(sub, bytes) => {
                let skip = type_size + size_field(bytes.len()).size();
                let data = slice_subrange(region, skip, skip + bytes.len());
                assert(data@ == bytes@);
                Value::UserBlob(*sub, data)
            },
            Value::Text(text) => Value::Text(text_in(region, type_size, text)),
            Value::DateTime(text) => Value::DateTime(text_in(region, type_size, text)),
            Value::Date(text) => Value::Date(text_in(region, type_size, text)),
            Value::Time(text) => Value::Time(text_in(region, type_size, text)),
            Value::DecimalStr(text) => Value::DecimalStr(text_in(region, type_size, text)),
            Value::UserText(sub, text) => Value::UserText(*sub, text_in(region, type_size, text)),
            // Containers are left out by the precondition.
            _ => Value::Null,
        }
    }

    /// Writes the payload of a fixed-width value at the start of `buf` and
    /// returns the part of `buf` behind it.
    fn write_fixed<'b>(&self, buf: &'b mut [u8]) -> (rest: &'b mut [u8])
        requires
            value_type(self@).0.spec_fixed_size() is Some,
            old(buf)@.len() >= value_type(self@).0.spec_fixed_size().unwrap(),
        ensures
            rest@ == old(buf)@.skip(value_payload(self@).len() as int),
            final(buf)@ == value_payload(self@) + final(rest)@,
            value_payload(self@).len() == value_type(self@).0.spec_fixed_size().unwrap(),
    {
        proof {
            lemma_payload_len(self@);
        }
        match self {
            Value::UInt8(val) | Value::Byte(_, val) => {
                let (head, rest) = buf.split_at_mut(1);
                head[0] = *val;
                assert(head@ == value_payload(self@));
                rest
            },
            Value::Int8(val) => {
                let (head, rest) = buf.split_at_mut(1);
                head[0] = *val as u8;
                assert(head@ == value_payload(self@));
                rest
            },
            Value::UInt16(val) | Value::Word(_, val) => {
                let (head, rest) = buf.split_at_mut(2);
                be_write_u16(head, *val);
                assert(head@ == value_payload(self@));
                rest
            },
            Value::Int16(val) => {
                let (head, rest) = buf.split_at_mut(2);
                be_write_i16(head, *val);
                assert(head@ == value_payload(self@));
                rest
            },
            Value::UInt32(val) | Value::DWord(_, val) | Value::Float(val) => {
                let (head, rest) = buf.split_at_mut(4);
                be_write_u32(head, *val);
                assert(head@ == value_payload(self@));
                rest
            },
            Value::Int32(val) => {
                let (head, rest) = buf.split_at_mut(4);
                be_write_i32(head, *val);
                assert(head@ == value_payload(self@));
                rest
            },
            Value::UInt64(val) | Value::QWord(_, val) | Value::Double(val) => {
                let (head, rest) = buf.split_at_mut(8);
                be_write_u64(head, *val);
                assert(head@ == value_payload(self@));
                rest
            },
            Value::Int64(val) => {
                let (head, rest) = buf.split_at_mut(8);
                be_write_i64(head, *val);
                assert(head@ == value_payload(self@));
                rest
            },
            _ => {
                assert(value_payload(self@) + buf@ == buf@);
                buf
            },
        }
    }

    /// Returns the UTF-8 bytes of text or the bytes of binary data.
    fn sized_payload_bytes(&self) -> (r: &[u8])
        requires
            value_type(self@).0 is String || value_type(self@).0 is Blob,
        ensures
            r@ == value_payload(self@),
    {
        match self {
            Value::Text(val)
            | Value::DateTime(val)
            | Value::Date(val)
            | Value::Time(val)
            | Value::DecimalStr(val)
            | Value::UserText(_, val) => val.as_bytes(),
            Value::Blob(val) | Value::UserBlob(_, val) => val,
            _ => {
                let empty: &[u8] = &[];
                empty
            },
        }
    }

    /// Writes this value at the start of `buf`: the tag, the size field where
    /// the value has one, and the payload, numbers in big-endian order. A
    /// container is written by copying its bytes. Returns the part of `buf`
    /// behind the value and the number of bytes written.
    ///
    /// If `buf` is too short, nothing is written and the error says by how
    /// many bytes.
    pub fn write<'b>(&self, buf: &'b mut [u8]) -> (r: Result<
        (&'b mut [u8], usize),
        SmallBufferError,
    >)
        requires
            self.wf(),
            self.encodable(),
        ensures
            old(buf)@.len() >= value_size(self@) ==> (r matches Ok((rest, n)) && n == value_size(
                self@,
            ) && rest@ == old(buf)@.skip(n as int) && final(buf)@ == value_bytes(self@)
                + final(rest)@),
            old(buf)@.len() < value_size(self@) ==> (r matches Err(e) && e.required_extra
                == value_size(self@) - old(buf)@.len() && final(buf)@ == old(buf)@),
    {
        let total_size = self.total_size();
        if buf.len() < total_size {
            return Err(SmallBufferError { required_extra: total_size - buf.len() });
        }
        let value_type = self.get_type();
        proof {
            lemma_payload_len(self@);
        }
        match value_type.storage {
            Storage::Container => {
                let rest = copy_into(buf, self.container_bytes());
                Ok((rest, total_size))
            },
            Storage::String => {
                let payload = self.sized_payload_bytes();
                let rest = value_type.write(buf);
                let rest = size_field(payload.len()).write(rest);
                let rest = copy_into(rest, payload);
                let (end, rest) = rest.split_at_mut(1);
                end[0] = 0;
                assert(end@ == seq![0u8]);
                Ok((rest, total_size))
            },
            Storage::Blob => {
                let payload = self.sized_payload_bytes();
                let rest = value_type.write(buf);
                let rest = size_field(payload.len()).write(rest);
                let rest = copy_into(rest, payload);
                Ok((rest, total_size))
            },
            _ => {
                let rest = value_type.write(buf);
                let rest = self.write_fixed(rest);
                Ok((rest, total_size))
            },
        }
    }

    /// Decodes the value that stands at the start of `bytes` and returns it
    /// with the number of bytes it took.
    pub fn deserialize_prefix(bytes: &'a [u8]) -> (r: Result<(Value<'a>, usize), DeserializeError>)
        ensures
            match decode_value(bytes@) {
                Ok((model, n)) => r matches Ok((value, used)) && value@ == model && used == n
                    && value.wf(),
                Err(e) => r matches Err(err) && err == e,
            },
        decreases bytes@.len(), 1nat,
    {
        let data_type = match Type::try_from(bytes) {
            Ok(t) => t,
            Err(_) => {
                return Err(DeserializeError::InvalidType);
            },
        };
        proof {
            SubType::lemma_spec_new(decode_tag(bytes@).unwrap().1);
        }
        let sub = data_type.subtype.value();
        if bytes[0] & 0x10 != 0 && sub < 16 {
            return Err(DeserializeError::InvalidType);
        }
        proof {
            crate::data_type::lemma_parse_tag_bounds(bytes@);
        }
        let t = data_type.size();
        let value = slice_subrange(bytes, t, bytes.len());
        assert(value@ == bytes@.skip(t as int));
        proof {
            if !(data_type.storage is Container) && decode_scalar(
                data_type.storage,
                sub,
                value@,
            ) is Ok {
                lemma_decode_scalar_bounds(data_type.storage, sub, value@);
            }
        }
        match data_type.storage {
            Storage::Container => {
                if sub > 2 {
                    return Err(DeserializeError::InvalidType);
                }
                let key_type = if sub == 0 {
                    KeyType::Empty
                } else if sub == 1 {
                    KeyType::Num
                } else {
                    KeyType::Str
                };
                let inner = match RawContainer::from_bytes(bytes, key_type) {
                    Ok(inner) => inner,
                    Err(e) => {
                        return Err(e);
                    },
                };
                proof {
                    lemma_decode_container_bounds(bytes@, key_type);
                }
                let used = inner.as_bytes().len();
                if sub == 0 {
                    let list = List { inner };
                    proof {
                        list.lemma_inner();
                    }
                    Ok((Value::List(list), used))
                } else if sub == 1 {
                    let map = IntMap { inner };
                    proof {
                        map.lemma_inner();
                    }
                    Ok((Value::IntMap(map), used))
                } else {
                    let object = Object { inner };
                    proof {
                        object.lemma_inner();
                    }
                    Ok((Value::Object(object), used))
                }
            },
            Storage::String => match read_sized_text(data_type.subtype, value) {
                Ok((v, used)) => Ok((v, t + used)),
                Err(e) => Err(e),
            },
            Storage::Blob => match read_sized_blob(data_type.subtype, value) {
                Ok((v, used)) => Ok((v, t + used)),
                Err(e) => Err(e),
            },
            _ => match read_fixed(data_type, value) {
                Ok((v, used)) => Ok((v, t + used)),
                Err(e) => Err(e),
            },
        }
    }

    /// Decodes the value that stands at the start of `bytes`.
    ///
    /// Text, binary data and containers in the result borrow `bytes`.
    pub fn deserialize(bytes: &'a [u8]) -> (r: Result<Value<'a>, DeserializeError>)
        ensures
            match decode_value(bytes@) {
                Ok((model, n)) => r matches Ok(value) && value@ == model && value.wf(),
                Err(e) => r matches Err(err) && err == e,
            },
    {
        match Value::deserialize_prefix(bytes) {
            Ok((value, _)) => Ok(value),
            Err(e) => Err(e),
        }
    }
}

/// Returns the size field for a payload of `len` bytes.
fn size_field(len: usize) -> (r: Size)
    requires
        len <= MAX_SIZE,
    ensures
        r == Size::spec_new(len as int),
        r.spec_size() == r.spec_bytes().len(),
{
    proof {
        Size::spec_new(len as int).lemma_bytes_len();
    }
    if Size::is_compactable(len) {
        Size::Compact(len as u8)
    } else {
        Size::Full(len as u32)
    }
}

/// Returns the text that stands in `region` behind a tag of `type_size`
/// bytes and a size field, where `region` holds the bytes of a textual value
/// with the text `text`.
fn text_in<'c>(region: &'c [u8], type_size: usize, text: &str) -> (r: &'c str)
    requires
        1 <= type_size <= 2,
        encode_utf8(text@).len() <= MAX_SIZE,
        region@.len() == type_size + Size::spec_new(
            encode_utf8(text@).len() as int,
        ).spec_bytes().len() + encode_utf8(text@).len() + 1,
        region@.subrange(
            type_size + Size::spec_new(encode_utf8(text@).len() as int).spec_bytes().len(),
            region@.len() - 1,
        ) == encode_utf8(text@),
    ensures
        r@ == text@,
{
    let len = text.len();
    let skip = type_size + size_field(len).size();
    let bytes = slice_subrange(region, skip, skip + len);
    proof {
        encode_utf8_valid_utf8(text@);
        encode_utf8_decode_utf8(text@);
    }
    match str_from_utf8(bytes) {
        Ok(found) => {
            proof {
                encode_utf8_decode_utf8(found@);
            }
            found
        },
        // The bytes are those of `text`, so they are valid UTF-8.
        Err(_) => "",
    }
}

/// The payload of a fixed-width value has the length of its storage class.
proof fn lemma_payload_len(value: ValueModel)
    ensures
        value_type(value).0.spec_fixed_size() matches Some(n) ==> value_payload(value).len() == n,
        Size::spec_new(value_payload(value).len() as int).spec_bytes().len() == Size::spec_new(
            value_payload(value).len() as int,
        ).spec_size(),
{
    match value {
        ValueModel::UInt16(v) | ValueModel::Word(_, v) => {
            lemma_be16_round_trip(v);
        },
        ValueModel::Int16(v) => {
            lemma_be16_round_trip(v as u16);
        },
        ValueModel::UInt32(v) | ValueModel::DWord(_, v) | ValueModel::Float(v) => {
            lemma_be32_round_trip(v);
        },
        ValueModel::Int32(v) => {
            lemma_be32_round_trip(v as u32);
        },
        ValueModel::UInt64(v) | ValueModel::QWord(_, v) | ValueModel::Double(v) => {
            lemma_be64_round_trip(v);
        },
        ValueModel::Int64(v) => {
            lemma_be64_round_trip(v as u64);
        },
        _ => {},
    }
    let size = Size::spec_new(value_payload(value).len() as int);
    match size {
        Size::Compact(_) => {},
        Size::Full(v) => {
            lemma_be32_round_trip(v | crate::size::MAX_SIZE_MASK);
        },
    }
}

/// Decodes a value without payload.
fn read_no_bytes<'a>(subtype: SubType) -> (v: Value<'a>)
    ensures
        v@ == fixed_value(Storage::NoBytes, subtype@, Seq::<u8>::empty()),
        v.wf(),
{
    let sub = subtype.value();
    if sub == 0 {
        Value::Null
    } else if sub == 1 {
        Value::True
    } else if sub == 2 {
        Value::False
    } else {
        Value::Empty(subtype)
    }
}

/// Decodes a value of one byte from the bytes behind its tag.
fn read_byte<'a>(subtype: SubType, value: &'a [u8]) -> (r: Result<Value<'a>, DeserializeError>)
    ensures
        value@.len() >= 1 ==> (r matches Ok(v) && v.wf() && v@ == fixed_value(
            Storage::Byte,
            subtype@,
            value@.subrange(0, 1),
        )),
        value@.len() < 1 ==> (r matches Err(e) && e == DeserializeError::InvalidData),
{
    let sub = subtype.value();
    if sub == 0 {
        match read_u8(value) {
            Ok(v) => Ok(Value::UInt8(v)),
            Err(e) => Err(e),
        }
    } else if sub == 1 {
        match read_i8(value) {
            Ok(v) => Ok(Value::Int8(v)),
            Err(e) => Err(e),
        }
    } else {
        match read_u8(value) {
            Ok(v) => Ok(Value::Byte(subtype, v)),
            Err(e) => Err(e),
        }
    }
}

/// Decodes a value of two bytes from the bytes behind its tag.
fn read_word<'a>(subtype: SubType, value: &'a [u8]) -> (r: Result<Value<'a>, DeserializeError>)
    ensures
        value@.len() >= 2 ==> (r matches Ok(v) && v.wf() && v@ == fixed_value(
            Storage::Word,
            subtype@,
            value@.subrange(0, 2),
        )),
        value@.len() < 2 ==> (r matches Err(e) && e == DeserializeError::InvalidData),
{
    proof {
        if value@.len() >= 2 {
            lemma_be16_head(value@);
        }
    }
    let sub = subtype.value();
    if sub == 0 {
        match read_u16(value) {
            Ok(v) => Ok(Value::UInt16(v)),
            Err(e) => Err(e),
        }
    } else if sub == 1 {
        match read_i16(value) {
            Ok(v) => Ok(Value::Int16(v)),
            Err(e) => Err(e),
        }
    } else {
        match read_u16(value) {
            Ok(v) => Ok(Value::Word(subtype, v)),
            Err(e) => Err(e),
        }
    }
}

/// Decodes a value of four bytes from the bytes behind its tag.
fn read_dword<'a>(subtype: SubType, value: &'a [u8]) -> (r: Result<Value<'a>, DeserializeError>)
    ensures
        value@.len() >= 4 ==> (r matches Ok(v) && v.wf() && v@ == fixed_value(
            Storage::DWord,
            subtype@,
            value@.subrange(0, 4),
        )),
        value@.len() < 4 ==> (r matches Err(e) && e == DeserializeError::InvalidData),
{
    proof {
        if value@.len() >= 4 {
            lemma_be32_head(value@);
        }
    }
    let sub = subtype.value();
    if sub == 0 {
        match read_u32(value) {
            Ok(v) => Ok(Value::UInt32(v)),
            Err(e) => Err(e),
        }
    } else if sub == 1 {
        match read_i32(value) {
            Ok(v) => Ok(Value::Int32(v)),
            Err(e) => Err(e),
        }
    } else if sub == 2 {
        match read_u32(value) {
            Ok(v) => Ok(Value::Float(v)),
            Err(e) => Err(e),
        }
    } else {
        match read_u32(value) {
            Ok(v) => Ok(Value::DWord(subtype, v)),
            Err(e) => Err(e),
        }
    }
}

/// Decodes a value of eight bytes from the bytes behind its tag.
fn read_qword<'a>(subtype: SubType, value: &'a [u8]) -> (r: Result<Value<'a>, DeserializeError>)
    ensures
        value@.len() >= 8 ==> (r matches Ok(v) && v.wf() && v@ == fixed_value(
            Storage::QWord,
            subtype@,
            value@.subrange(0, 8),
        )),
        value@.len() < 8 ==> (r matches Err(e) && e == DeserializeError::InvalidData),
{
    proof {
        if value@.len() >= 8 {
            lemma_be64_head(value@);
        }
    }
    let sub = subtype.value();
    if sub == 0 {
        match read_u64(value) {
            Ok(v) => Ok(Value::UInt64(v)),
            Err(e) => Err(e),
        }
    } else if sub == 1 {
        match read_i64(value) {
            Ok(v) => Ok(Value::Int64(v)),
            Err(e) => Err(e),
        }
    } else if sub == 2 {
        match read_u64(value) {
            Ok(v) => Ok(Value::Double(v)),
            Err(e) => Err(e),
        }
    } else {
        match read_u64(value) {
            Ok(v) => Ok(Value::QWord(subtype, v)),
            Err(e) => Err(e),
        }
    }
}

/// Decodes a fixed-width value of the given type from the bytes behind its
/// tag, and returns it with the length of its payload.
fn read_fixed<'a>(data_type: Type, value: &'a [u8]) -> (r: Result<
    (Value<'a>, usize),
    DeserializeError,
>)
    requires
        data_type.storage.spec_fixed_size() is Some,
    ensures
        match decode_scalar(data_type.storage, data_type.subtype@, value@) {
            Ok((model, n)) => r matches Ok((v, used)) && v@ == model && used == n && v.wf(),
            Err(e) => r matches Err(err) && err == e,
        },
{
    reveal(decode_scalar);
    match data_type.storage {
        Storage::NoBytes => {
            assert(value@.subrange(0, 0) == Seq::<u8>::empty());
            Ok((read_no_bytes(data_type.subtype), 0))
        },
        Storage::Byte => match read_byte(data_type.subtype, value) {
            Ok(v) => Ok((v, 1)),
            Err(e) => Err(e),
        },
        Storage::Word => match read_word(data_type.subtype, value) {
            Ok(v) => Ok((v, 2)),
            Err(e) => Err(e),
        },
        Storage::DWord => match read_dword(data_type.subtype, value) {
            Ok(v) => Ok((v, 4)),
            Err(e) => Err(e),
        },
        _ => match read_qword(data_type.subtype, value) {
            Ok(v) => Ok((v, 8)),
            Err(e) => Err(e),
        },
    }
}

/// Decodes text of the given subtype from the bytes behind its tag, and
/// returns it with the number of bytes taken, terminator included.
fn read_sized_text<'a>(subtype: SubType, value: &'a [u8]) -> (r: Result<
    (Value<'a>, usize),
    DeserializeError,
>)
    ensures
        match decode_scalar(Storage::String, subtype@, value@) {
            Ok((model, n)) => r matches Ok((v, used)) && v@ == model && used == n && v.wf(),
            Err(e) => r matches Err(err) && err == e,
        },
{
    reveal(decode_scalar);
    let sub = subtype.value();
    let text = match read_text(value) {
        Ok(text) => text,
        Err(e) => {
            return Err(e);
        },
    };
    let used = sized_len(value);
    if value.len() - used < 1 {
        return Err(DeserializeError::InvalidData);
    }
    let v = if sub == 0 {
        Value::Text(text)
    } else if sub == 1 {
        Value::DateTime(text)
    } else if sub == 2 {
        Value::Date(text)
    } else if sub == 3 {
        Value::Time(text)
    } else if sub == 4 {
        Value::DecimalStr(text)
    } else {
        Value::UserText(subtype, text)
    };
    Ok((v, used + 1))
}

/// Decodes binary data of the given subtype from the bytes behind its tag,
/// and returns it with the number of bytes taken.
fn read_sized_blob<'a>(subtype: SubType, value: &'a [u8]) -> (r: Result<
    (Value<'a>, usize),
    DeserializeError,
>)
    ensures
        match decode_scalar(Storage::Blob, subtype@, value@) {
            Ok((model, n)) => r matches Ok((v, used)) && v@ == model && used == n && v.wf(),
            Err(e) => r matches Err(err) && err == e,
        },
{
    reveal(decode_scalar);
    let sub = subtype.value();
    let data = match read_blob(value) {
        Ok(data) => data,
        Err(e) => {
            return Err(e);
        },
    };
    let used = sized_len(value);
    if sub == 0 {
        Ok((Value::Blob(data), used))
    } else {
        Ok((Value::UserBlob(subtype, data), used))
    }
}

/// Returns how many bytes the size field at the start of `bytes` and the
/// payload that it announces take together.
fn sized_len(bytes: &[u8]) -> (r: usize)
    requires
        sized_payload(bytes@) is Some,
    ensures
        r == sized_payload(bytes@).unwrap().0.spec_size() + sized_payload(
            bytes@,
        ).unwrap().0.spec_value(),
        r <= bytes@.len(),
{
    proof {
        Size::lemma_parse_bounds(bytes@);
    }
    match Size::try_from(bytes) {
        Ok(size) => size.size() + size.value(),
        // A payload was announced, so the size field decodes.
        Err(_) => 0,
    }
}

impl<'a> From<bool> for Value<'a> {
    fn from(value: bool) -> (r: Value<'a>) {
        if value {
            Value::True
        } else {
            Value::False
        }
    }
}

impl<'a> vstd::std_specs::convert::FromSpecImpl<bool> for Value<'a> {
    open spec fn obeys_from_spec() -> bool {
        true
    }

    open spec fn from_spec(value: bool) -> Value<'a> {
        if value {
            Value::True
        } else {
            Value::False
        }
    }
}

impl<'a> From<u8> for Value<'a> {
    fn from(value: u8) -> (r: Value<'a>) {
        Value::UInt8(value)
    }
}

impl<'a> vstd::std_specs::convert::FromSpecImpl<u8> for Value<'a> {
    open spec fn obeys_from_spec() -> bool {
        true
    }

    open spec fn from_spec(value: u8) -> Value<'a> {
        Value::UInt8(value)
    }
}

impl<'a> From<i8> for Value<'a> {
    fn from(value: i8) -> (r: Value<'a>) {
        Value::Int8(value)
    }
}

impl<'a> vstd::std_specs::convert::FromSpecImpl<i8> for Value<'a> {
    open spec fn obeys_from_spec() -> bool {
        true
    }

    open spec fn from_spec(value: i8) -> Value<'a> {
        Value::Int8(value)
    }
}

impl<'a> From<u16> for Value<'a> {
    fn from(value: u16) -> (r: Value<'a>) {
        Value::UInt16(value)
    }
}

impl<'a> vstd::std_specs::convert::FromSpecImpl<u16> for Value<'a> {
    open spec fn obeys_from_spec() -> bool {
        true
    }

    open spec fn from_spec(value: u16) -> Value<'a> {
        Value::UInt16(value)
    }
}

impl<'a> From<i16> for Value<'a> {
    fn from(value: i16) -> (r: Value<'a>) {
        Value::Int16(value)
    }
}

impl<'a> vstd::std_specs::convert::FromSpecImpl<i16> for Value<'a> {
    open spec fn obeys_from_spec() -> bool {
        true
    }

    open spec fn from_spec(value: i16) -> Value<'a> {
        Value::Int16(value)
    }
}

impl<'a> From<u32> for Value<'a> {
    fn from(value: u32) -> (r: Value<'a>) {
        Value::UInt32(value)
    }
}

impl<'a> vstd::std_specs::convert::FromSpecImpl<u32> for Value<'a> {
    open spec fn obeys_from_spec() -> bool {
        true
    }

    open spec fn from_spec(value: u32) -> Value<'a> {
        Value::UInt32(value)
    }
}

impl<'a> From<i32> for Value<'a> {
    fn from(value: i32) -> (r: Value<'a>) {
        Value::Int32(value)
    }
}

impl<'a> vstd::std_specs::convert::FromSpecImpl<i32> for Value<'a> {
    open spec fn obeys_from_spec() -> bool {
        true
    }

    open spec fn from_spec(value: i32) -> Value<'a> {
        Value::Int32(value)
    }
}

impl<'a> From<u64> for Value<'a> {
    fn from(value: u64) -> (r: Value<'a>) {
        Value::UInt64(value)
    }
}

impl<'a> vstd::std_specs::convert::FromSpecImpl<u64> for Value<'a> {
    open spec fn obeys_from_spec() -> bool {
        true
    }

    open spec fn from_spec(value: u64) -> Value<'a> {
        Value::UInt64(value)
    }
}

impl<'a> From<i64> for Value<'a> {
    fn from(value: i64) -> (r: Value<'a>) {
        Value::Int64(value)
    }
}

impl<'a> vstd::std_specs::convert::FromSpecImpl<i64> for Value<'a> {
    open spec fn obeys_from_spec() -> bool {
        true
    }

    open spec fn from_spec(value: i64) -> Value<'a> {
        Value::Int64(value)
    }
}

impl<'a> From<&'a str> for Value<'a> {
    fn from(value: &'a str) -> (r: Value<'a>) {
        Value::Text(value)
    }
}

impl<'a> vstd::std_specs::convert::FromSpecImpl<&'a str> for Value<'a> {
    open spec fn obeys_from_spec() -> bool {
        true
    }

    open spec fn from_spec(value: &'a str) -> Value<'a> {
        Value::Text(value)
    }
}

impl<'a> From<&'a [u8]> for Value<'a> {
    fn from(value: &'a [u8]) -> (r: Value<'a>) {
        Value::Blob(value)
    }
}

impl<'a> vstd::std_specs::convert::FromSpecImpl<&'a [u8]> for Value<'a> {
    open spec fn obeys_from_spec() -> bool {
        true
    }

    open spec fn from_spec(value: &'a [u8]) -> Value<'a> {
        Value::Blob(value)
    }
}

impl<'a> From<List<'a>> for Value<'a> {
    fn from(value: List<'a>) -> (r: Value<'a>) {
        Value::List(value)
    }
}

impl<'a> vstd::std_specs::convert::FromSpecImpl<List<'a>> for Value<'a> {
    open spec fn obeys_from_spec() -> bool {
        true
    }

    open spec fn from_spec(value: List<'a>) -> Value<'a> {
        Value::List(value)
    }
}

impl<'a> From<IntMap<'a>> for Value<'a> {
    fn from(value: IntMap<'a>) -> (r: Value<'a>) {
        Value::IntMap(value)
    }
}

impl<'a> vstd::std_specs::convert::FromSpecImpl<IntMap<'a>> for Value<'a> {
    open spec fn obeys_from_spec() -> bool {
        true
    }

    open spec fn from_spec(value: IntMap<'a>) -> Value<'a> {
        Value::IntMap(value)
    }
}

impl<'a> From<Object<'a>> for Value<'a> {
    fn from(value: Object<'a>) -> (r: Value<'a>) {
        Value::Object(value)
    }
}

impl<'a> vstd::std_specs::convert::FromSpecImpl<Object<'a>> for Value<'a> {
    open spec fn obeys_from_spec() -> bool {
        true
    }

    open spec fn from_spec(value: Object<'a>) -> Value<'a> {
        Value::Object(value)
    }
}

impl<'a> TryFrom<Value<'a>> for List<'a> {
    type Error = Value<'a>;

    fn try_from(value: Value<'a>) -> (r: Result<List<'a>, Value<'a>>) {
        match value {
            Value::List(inner) => Ok(inner),
            other => Err(other),
        }
    }
}

impl<'a> vstd::std_specs::convert::TryFromSpecImpl<Value<'a>> for List<'a> {
    open spec fn obeys_try_from_spec() -> bool {
        true
    }

    open spec fn try_from_spec(value: Value<'a>) -> Result<List<'a>, Value<'a>> {
        match value {
            Value::List(inner) => Ok(inner),
            other => Err(other),
        }
    }
}

impl<'a> TryFrom<Value<'a>> for IntMap<'a> {
    type Error = Value<'a>;

    fn try_from(value: Value<'a>) -> (r: Result<IntMap<'a>, Value<'a>>) {
        match value {
            Value::IntMap(inner) => Ok(inner),
            other => Err(other),
        }
    }
}

impl<'a> vstd::std_specs::convert::TryFromSpecImpl<Value<'a>> for IntMap<'a> {
    open spec fn obeys_try_from_spec() -> bool {
        true
    }

    open spec fn try_from_spec(value: Value<'a>) -> Result<IntMap<'a>, Value<'a>> {
        match value {
            Value::IntMap(inner) => Ok(inner),
            other => Err(other),
        }
    }
}

impl<'a> TryFrom<Value<'a>> for Object<'a> {
    type Error = Value<'a>;

    fn try_from(value: Value<'a>) -> (r: Result<Object<'a>, Value<'a>>) {
        match value {
            Value::Object(inner) => Ok(inner),
            other => Err(other),
        }
    }
}

impl<'a> vstd::std_specs::convert::TryFromSpecImpl<Value<'a>> for Object<'a> {
    open spec fn obeys_try_from_spec() -> bool {
        true
    }

    open spec fn try_from_spec(value: Value<'a>) -> Result<Object<'a>, Value<'a>> {
        match value {
            Value::Object(inner) => Ok(inner),
            other => Err(other),
        }
    }
}

} // verus!
