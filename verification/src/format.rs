//! The wire format as mathematics: what the bytes of a key, a value and a
//! container are, and what decoding a byte sequence gives.
//!
//! A container is laid out as `[tag][length][count][elements]`, each element
//! as `[key][tag][size][payload]`, where the key is absent in a list and the
//! size is present for text and binary data only.

use crate::data_type::{
    parse_tag, tag_bytes, tag_size, SUB_BLOB, SUB_DATE, SUB_DATE_TIME, SUB_DECIMAL_STR, SUB_FALSE,
    SUB_FLOAT, SUB_LIST, SUB_MAP, SUB_NULL, SUB_OBJECT, SUB_SIGNED, SUB_TEXT, SUB_TIME, SUB_TRUE,
    SUB_UNSIGNED,
};
use crate::endian::{be16, be16_bytes, be32, be32_bytes, be64, be64_bytes};
use crate::error::DeserializeError;
use crate::raw_container::KeyType;
use crate::size::{MAX_SIZE, Size};
use crate::storage::Storage;
use crate::subtype::MAX_SUBTYPE;
use vstd::prelude::*;
use vstd::utf8::{decode_utf8, encode_utf8, valid_utf8};

verus! {

/// A key as a mathematical value.
pub enum KeyModel {
    /// The key of a list element: none.
    Empty,
    /// The key of a map element.
    Num(i32),
    /// The key of an object element.
    Str(Seq<char>),
}

/// A value as a mathematical value. Text is a sequence of characters, a
/// floating-point number the bits of its IEEE 754 form, a container the bytes
/// of its encoding, a subtype its number.
pub enum ValueModel {
    Null,
    True,
    False,
    UInt8(u8),
    Int8(i8),
    UInt16(u16),
    Int16(i16),
    UInt32(u32),
    Int32(i32),
    Float(u32),
    UInt64(u64),
    Int64(i64),
    Double(u64),
    Text(Seq<char>),
    DateTime(Seq<char>),
    Date(Seq<char>),
    Time(Seq<char>),
    DecimalStr(Seq<char>),
    Blob(Seq<u8>),
    List(Seq<u8>),
    IntMap(Seq<u8>),
    Object(Seq<u8>),
    Empty(u16),
    Byte(u16, u8),
    Word(u16, u16),
    DWord(u16, u32),
    QWord(u16, u64),
    UserText(u16, Seq<char>),
    UserBlob(u16, Seq<u8>),
}

/// What a valid container encoding decodes to.
pub struct ContainerModel {
    /// The declared length in bytes, header included.
    pub len: Size,
    /// The declared number of elements.
    pub count: Size,
    /// The elements in the order in which they stand.
    pub entries: Seq<(KeyModel, ValueModel)>,
}

/// The kind of key that a key is.
pub open spec fn key_kind(key: KeyModel) -> KeyType {
    match key {
        KeyModel::Empty => KeyType::Empty,
        KeyModel::Num(_) => KeyType::Num,
        KeyModel::Str(_) => KeyType::Str,
    }
}

/// The bytes of a key: none in a list, four big-endian bytes in a map, a
/// length byte and the UTF-8 bytes in an object.
pub open spec fn key_bytes(key: KeyModel) -> Seq<u8> {
    match key {
        KeyModel::Empty => Seq::<u8>::empty(),
        KeyModel::Num(n) => be32_bytes(n as u32),
        KeyModel::Str(s) => seq![encode_utf8(s).len() as u8] + encode_utf8(s),
    }
}

/// How many bytes a key takes.
pub open spec fn key_size(key: KeyModel) -> nat {
    match key {
        KeyModel::Empty => 0,
        KeyModel::Num(_) => 4,
        KeyModel::Str(s) => encode_utf8(s).len() + 1,
    }
}

/// A text key can be written if it has at most 255 bytes.
pub open spec fn key_writable(key: KeyModel) -> bool {
    key matches KeyModel::Str(s) ==> encode_utf8(s).len() <= 255
}

/// What decoding a key of the given kind from the start of `bytes` gives:
/// the key and the number of bytes it took.
pub open spec fn decode_key(bytes: Seq<u8>, key_type: KeyType) -> Option<(KeyModel, nat)> {
    match key_type {
        KeyType::Empty => Some((KeyModel::Empty, 0nat)),
        KeyType::Num => if bytes.len() < 4 {
            None
        } else {
            Some((KeyModel::Num(be32(bytes) as i32), 4nat))
        },
        KeyType::Str => if bytes.len() == 0 {
            None
        } else {
            let n = bytes[0] as int;
            if bytes.len() < 1 + n {
                None
            } else if !valid_utf8(bytes.subrange(1, 1 + n)) {
                None
            } else {
                Some((KeyModel::Str(decode_utf8(bytes.subrange(1, 1 + n))), (1 + n) as nat))
            }
        },
    }
}

/// The storage class and the subtype of a value.
pub open spec fn value_type(value: ValueModel) -> (Storage, u16) {
    match value {
        ValueModel::Null => (Storage::NoBytes, SUB_NULL),
        ValueModel::True => (Storage::NoBytes, SUB_TRUE),
        ValueModel::False => (Storage::NoBytes, SUB_FALSE),
        ValueModel::UInt8(_) => (Storage::Byte, SUB_UNSIGNED),
        ValueModel::Int8(_) => (Storage::Byte, SUB_SIGNED),
        ValueModel::UInt16(_) => (Storage::Word, SUB_UNSIGNED),
        ValueModel::Int16(_) => (Storage::Word, SUB_SIGNED),
        ValueModel::UInt32(_) => (Storage::DWord, SUB_UNSIGNED),
        ValueModel::Int32(_) => (Storage::DWord, SUB_SIGNED),
        ValueModel::Float(_) => (Storage::DWord, SUB_FLOAT),
        ValueModel::UInt64(_) => (Storage::QWord, SUB_UNSIGNED),
        ValueModel::Int64(_) => (Storage::QWord, SUB_SIGNED),
        ValueModel::Double(_) => (Storage::QWord, SUB_FLOAT),
        ValueModel::Text(_) => (Storage::String, SUB_TEXT),
        ValueModel::DateTime(_) => (Storage::String, SUB_DATE_TIME),
        ValueModel::Date(_) => (Storage::String, SUB_DATE),
        ValueModel::Time(_) => (Storage::String, SUB_TIME),
        ValueModel::DecimalStr(_) => (Storage::String, SUB_DECIMAL_STR),
        ValueModel::Blob(_) => (Storage::Blob, SUB_BLOB),
        ValueModel::List(_) => (Storage::Container, SUB_LIST),
        ValueModel::IntMap(_) => (Storage::Container, SUB_MAP),
        ValueModel::Object(_) => (Storage::Container, SUB_OBJECT),
        ValueModel::Empty(sub) => (Storage::NoBytes, sub),
        ValueModel::Byte(sub, _) => (Storage::Byte, sub),
        ValueModel::Word(sub, _) => (Storage::Word, sub),
        ValueModel::DWord(sub, _) => (Storage::DWord, sub),
        ValueModel::QWord(sub, _) => (Storage::QWord, sub),
        ValueModel::UserText(sub, _) => (Storage::String, sub),
        ValueModel::UserBlob(sub, _) => (Storage::Blob, sub),
    }
}

/// The payload of a value: the big-endian bytes of a number, the UTF-8 bytes
/// of text without the terminator, the bytes of binary data, the whole
/// encoding of a container.
pub open spec fn value_payload(value: ValueModel) -> Seq<u8> {
    match value {
        ValueModel::Null | ValueModel::True | ValueModel::False | ValueModel::Empty(_) => Seq::<
            u8,
        >::empty(),
        ValueModel::UInt8(v) | ValueModel::Byte(_, v) => seq![v],
        ValueModel::Int8(v) => seq![v as u8],
        ValueModel::UInt16(v) | ValueModel::Word(_, v) => be16_bytes(v),
        ValueModel::Int16(v) => be16_bytes(v as u16),
        ValueModel::UInt32(v) | ValueModel::DWord(_, v) | ValueModel::Float(v) => be32_bytes(v),
        ValueModel::Int32(v) => be32_bytes(v as u32),
        ValueModel::UInt64(v) | ValueModel::QWord(_, v) | ValueModel::Double(v) => be64_bytes(v),
        ValueModel::Int64(v) => be64_bytes(v as u64),
        ValueModel::Text(s)
        | ValueModel::DateTime(s)
        | ValueModel::Date(s)
        | ValueModel::Time(s)
        | ValueModel::DecimalStr(s)
        | ValueModel::UserText(_, s) => encode_utf8(s),
        ValueModel::Blob(b) | ValueModel::UserBlob(_, b) => b,
        ValueModel::List(b) | ValueModel::IntMap(b) | ValueModel::Object(b) => b,
    }
}

/// The bytes of a value: the tag, then for text and binary data the size
/// field, then the payload, then for text a zero terminator that the size
/// field does not count. A container's bytes are its encoding as it stands.
pub open spec fn value_bytes(value: ValueModel) -> Seq<u8> {
    let (storage, subtype) = value_type(value);
    let payload = value_payload(value);
    match storage {
        Storage::Container => payload,
        Storage::String => tag_bytes(storage, subtype) + Size::spec_new(
            payload.len() as int,
        ).spec_bytes() + payload + seq![0u8],
        Storage::Blob => tag_bytes(storage, subtype) + Size::spec_new(
            payload.len() as int,
        ).spec_bytes() + payload,
        _ => tag_bytes(storage, subtype) + payload,
    }
}

/// How many bytes a value takes.
pub open spec fn value_size(value: ValueModel) -> nat {
    let (storage, subtype) = value_type(value);
    let payload = value_payload(value);
    match storage {
        Storage::Container => payload.len(),
        Storage::String => tag_size(subtype) as nat + Size::spec_new(
            payload.len() as int,
        ).spec_size() as nat + payload.len() + 1,
        Storage::Blob => tag_size(subtype) as nat + Size::spec_new(
            payload.len() as int,
        ).spec_size() as nat + payload.len(),
        _ => tag_size(subtype) as nat + payload.len(),
    }
}

/// The value that a fixed-width payload stands for under a storage class and
/// a subtype: the well-known value where the pair names one, else the
/// user-defined value of that class with the subtype kept.
pub open spec fn fixed_value(storage: Storage, subtype: u16, payload: Seq<u8>) -> ValueModel {
    match storage {
        Storage::NoBytes => if subtype == SUB_NULL {
            ValueModel::Null
        } else if subtype == SUB_TRUE {
            ValueModel::True
        } else if subtype == SUB_FALSE {
            ValueModel::False
        } else {
            ValueModel::Empty(subtype)
        },
        Storage::Byte => if subtype == SUB_UNSIGNED {
            ValueModel::UInt8(payload[0])
        } else if subtype == SUB_SIGNED {
            ValueModel::Int8(payload[0] as i8)
        } else {
            ValueModel::Byte(subtype, payload[0])
        },
        Storage::Word => if subtype == SUB_UNSIGNED {
            ValueModel::UInt16(be16(payload))
        } else if subtype == SUB_SIGNED {
            ValueModel::Int16(be16(payload) as i16)
        } else {
            ValueModel::Word(subtype, be16(payload))
        },
        Storage::DWord => if subtype == SUB_UNSIGNED {
            ValueModel::UInt32(be32(payload))
        } else if subtype == SUB_SIGNED {
            ValueModel::Int32(be32(payload) as i32)
        } else if subtype == SUB_FLOAT {
            ValueModel::Float(be32(payload))
        } else {
            ValueModel::DWord(subtype, be32(payload))
        },
        _ => if subtype == SUB_UNSIGNED {
            ValueModel::UInt64(be64(payload))
        } else if subtype == SUB_SIGNED {
            ValueModel::Int64(be64(payload) as i64)
        } else if subtype == SUB_FLOAT {
            ValueModel::Double(be64(payload))
        } else {
            ValueModel::QWord(subtype, be64(payload))
        },
    }
}

/// The textual value that a subtype names.
pub open spec fn text_value(subtype: u16, text: Seq<char>) -> ValueModel {
    if subtype == SUB_TEXT {
        ValueModel::Text(text)
    } else if subtype == SUB_DATE_TIME {
        ValueModel::DateTime(text)
    } else if subtype == SUB_DATE {
        ValueModel::Date(text)
    } else if subtype == SUB_TIME {
        ValueModel::Time(text)
    } else if subtype == SUB_DECIMAL_STR {
        ValueModel::DecimalStr(text)
    } else {
        ValueModel::UserText(subtype, text)
    }
}

/// The binary value that a subtype names.
pub open spec fn blob_value(subtype: u16, data: Seq<u8>) -> ValueModel {
    if subtype == SUB_BLOB {
        ValueModel::Blob(data)
    } else {
        ValueModel::UserBlob(subtype, data)
    }
}

/// The container value of a kind.
pub open spec fn container_value(key_type: KeyType, bytes: Seq<u8>) -> ValueModel {
    match key_type {
        KeyType::Empty => ValueModel::List(bytes),
        KeyType::Num => ValueModel::IntMap(bytes),
        KeyType::Str => ValueModel::Object(bytes),
    }
}

/// The tag byte of a container of a kind.
pub open spec fn container_tag(key_type: KeyType) -> u8 {
    match key_type {
        KeyType::Empty => 0xE0,
        KeyType::Num => 0xE1,
        KeyType::Str => 0xE2,
    }
}

/// The bytes of a container's header.
pub open spec fn header_bytes(key_type: KeyType, len: Size, count: Size) -> Seq<u8> {
    seq![container_tag(key_type)] + len.spec_bytes() + count.spec_bytes()
}

/// How many bytes a container's header takes.
pub open spec fn header_size(len: Size, count: Size) -> nat {
    1 + len.spec_size() as nat + count.spec_size() as nat
}

/// What decoding a container's header from the start of `bytes` gives: the
/// declared length and count. The tag must be that of the kind, both size
/// fields must be there, and the declared length must cover the header and
/// must not reach past the end of `bytes`.
#[verifier::opaque]
pub open spec fn decode_header(bytes: Seq<u8>, key_type: KeyType) -> Result<
    (Size, Size),
    DeserializeError,
> {
    if bytes.len() == 0 || bytes[0] != container_tag(key_type) {
        Err(DeserializeError::InvalidType)
    } else {
        match Size::spec_parse(bytes.skip(1)) {
            None => Err(DeserializeError::InvalidData),
            Some(len) => match Size::spec_parse(bytes.skip(1 + len.spec_size())) {
                None => Err(DeserializeError::InvalidData),
                Some(count) => if header_size(len, count) <= len.spec_value() <= bytes.len() {
                    Ok((len, count))
                } else {
                    Err(DeserializeError::InvalidData)
                },
            },
        }
    }
}

/// What decoding text from the bytes behind a tag gives: the value and the
/// number of bytes taken, terminator included.
pub open spec fn decode_text(subtype: u16, rest: Seq<u8>) -> Result<
    (ValueModel, nat),
    DeserializeError,
> {
    match Size::spec_parse(rest) {
        None => Err(DeserializeError::InvalidData),
        Some(size) => {
            let w = size.spec_size() as int;
            let n = size.spec_value() as int;
            if rest.len() < w + n + 1 {
                Err(DeserializeError::InvalidData)
            } else if !valid_utf8(rest.subrange(w, w + n)) {
                Err(DeserializeError::InvalidData)
            } else {
                Ok((text_value(subtype, decode_utf8(rest.subrange(w, w + n))), (w + n + 1) as nat))
            }
        },
    }
}

/// What decoding binary data from the bytes behind a tag gives: the value and
/// the number of bytes taken.
pub open spec fn decode_blob(subtype: u16, rest: Seq<u8>) -> Result<
    (ValueModel, nat),
    DeserializeError,
> {
    match Size::spec_parse(rest) {
        None => Err(DeserializeError::InvalidData),
        Some(size) => {
            let w = size.spec_size() as int;
            let n = size.spec_value() as int;
            if rest.len() < w + n {
                Err(DeserializeError::InvalidData)
            } else {
                Ok((blob_value(subtype, rest.subrange(w, w + n)), (w + n) as nat))
            }
        },
    }
}

/// What decoding a fixed-width value from the bytes behind a tag gives.
pub open spec fn decode_fixed(storage: Storage, subtype: u16, rest: Seq<u8>) -> Result<
    (ValueModel, nat),
    DeserializeError,
> {
    let n = storage.spec_fixed_size().unwrap() as int;
    if rest.len() < n {
        Err(DeserializeError::InvalidData)
    } else {
        Ok((fixed_value(storage, subtype, rest.subrange(0, n)), n as nat))
    }
}

/// The kind of container that a subtype under `Storage::Container` names.
pub open spec fn container_kind(subtype: u16) -> KeyType {
    if subtype == SUB_LIST {
        KeyType::Empty
    } else if subtype == SUB_MAP {
        KeyType::Num
    } else {
        KeyType::Str
    }
}

/// What decoding a value that is no container from the bytes behind its tag
/// gives: the value and the number of bytes taken behind the tag.
#[verifier::opaque]
pub open spec fn decode_scalar(storage: Storage, subtype: u16, rest: Seq<u8>) -> Result<
    (ValueModel, nat),
    DeserializeError,
> {
    match storage {
        Storage::String => decode_text(subtype, rest),
        Storage::Blob => decode_blob(subtype, rest),
        _ => decode_fixed(storage, subtype, rest),
    }
}

/// What decoding one value from the start of `bytes` gives: the value and the
/// number of bytes it took, or the error. Under container storage only the
/// subtypes of list, map and object are known.
pub open spec fn decode_value(bytes: Seq<u8>) -> Result<(ValueModel, nat), DeserializeError>
    decreases bytes.len(), 1nat,
{
    match parse_tag(bytes) {
        None => Err(DeserializeError::InvalidType),
        Some((storage, subtype)) => {
            if storage is Container {
                if subtype > SUB_OBJECT {
                    Err(DeserializeError::InvalidType)
                } else {
                    match decode_container(bytes, container_kind(subtype)) {
                        Err(e) => Err(e),
                        Ok(c) => Ok(
                            (
                                container_value(
                                    container_kind(subtype),
                                    bytes.subrange(0, c.len.spec_value() as int),
                                ),
                                c.len.spec_value() as nat,
                            ),
                        ),
                    }
                }
            } else {
                match decode_scalar(storage, subtype, bytes.skip(tag_size(subtype) as int)) {
                    Err(e) => Err(e),
                    Ok((v, n)) => Ok((v, tag_size(subtype) as nat + n)),
                }
            }
        },
    }
}

/// What decoding a container of the given kind from the start of `bytes`
/// gives. The header must decode, and the bytes between the header and the
/// declared length must be exactly as many elements as the header declares.
pub open spec fn decode_container(bytes: Seq<u8>, key_type: KeyType) -> Result<
    ContainerModel,
    DeserializeError,
>
    decreases bytes.len(), 0nat,
{
    match decode_header(bytes, key_type) {
        Err(e) => Err(e),
        Ok((len, count)) => {
            let start = header_size(len, count) as int;
            let end = len.spec_value() as int;
            if start <= end <= bytes.len() {
                match decode_entries(bytes.subrange(start, end), key_type) {
                    None => Err(DeserializeError::InvalidData),
                    Some(entries) => if entries.len() == count.spec_value() {
                        Ok(ContainerModel { len, count, entries })
                    } else {
                        Err(DeserializeError::InvalidData)
                    },
                }
            } else {
                Err(DeserializeError::InvalidData)
            }
        },
    }
}

/// What decoding `bytes` as a run of elements gives: the elements, if the
/// bytes are elements from the first byte to the last.
pub open spec fn decode_entries(bytes: Seq<u8>, key_type: KeyType) -> Option<
    Seq<(KeyModel, ValueModel)>,
>
    decreases bytes.len(), 3nat,
{
    if bytes.len() == 0 {
        Some(Seq::<(KeyModel, ValueModel)>::empty())
    } else {
        match decode_entry(bytes, key_type) {
            None => None,
            Some((entry, n)) => if 0 < n <= bytes.len() {
                match decode_entries(bytes.skip(n as int), key_type) {
                    None => None,
                    Some(rest) => Some(seq![entry] + rest),
                }
            } else {
                None
            },
        }
    }
}

/// What decoding one element from the start of `bytes` gives: the key, the
/// value and the number of bytes that both took.
pub open spec fn decode_entry(bytes: Seq<u8>, key_type: KeyType) -> Option<
    ((KeyModel, ValueModel), nat),
>
    decreases bytes.len(), 2nat,
{
    match decode_key(bytes, key_type) {
        None => None,
        Some((key, kn)) => if kn > bytes.len() {
            None
        } else {
            match decode_value(bytes.skip(kn as int)) {
                Err(_) => None,
                Ok((value, vn)) => Some(((key, value), kn + vn)),
            }
        },
    }
}

/// Whether `bytes` are, from the first byte to the last, the encoding of a
/// container of the given kind.
pub open spec fn is_container(bytes: Seq<u8>, key_type: KeyType) -> bool {
    decode_container(bytes, key_type) matches Ok(c) && c.len.spec_value() == bytes.len()
}

/// The elements of a container encoding.
pub open spec fn container_entries(bytes: Seq<u8>, key_type: KeyType) -> Seq<
    (KeyModel, ValueModel),
> {
    decode_container(bytes, key_type).unwrap().entries
}

/// A value can be written if its subtype is at most 4095, its text or binary
/// data has at most `MAX_SIZE` bytes, and, for a container, its bytes are the
/// encoding of a container of its kind.
pub open spec fn representable(value: ValueModel) -> bool {
    let (storage, subtype) = value_type(value);
    &&& subtype <= MAX_SUBTYPE
    &&& match storage {
        Storage::String | Storage::Blob => value_payload(value).len() <= MAX_SIZE,
        Storage::Container => is_container(value_payload(value), container_kind(subtype)),
        _ => true,
    }
}

/// The value that the bytes of a value decode to: the value itself, but for a
/// user-defined value whose subtype is that of a well-known value of its
/// storage class, which decodes to that well-known value.
pub open spec fn canonical(value: ValueModel) -> ValueModel {
    match value {
        ValueModel::Empty(sub) => fixed_value(Storage::NoBytes, sub, Seq::<u8>::empty()),
        ValueModel::Byte(sub, v) => fixed_value(Storage::Byte, sub, seq![v]),
        ValueModel::Word(sub, v) => if sub == SUB_UNSIGNED {
            ValueModel::UInt16(v)
        } else if sub == SUB_SIGNED {
            ValueModel::Int16(v as i16)
        } else {
            value
        },
        ValueModel::DWord(sub, v) => if sub == SUB_UNSIGNED {
            ValueModel::UInt32(v)
        } else if sub == SUB_SIGNED {
            ValueModel::Int32(v as i32)
        } else if sub == SUB_FLOAT {
            ValueModel::Float(v)
        } else {
            value
        },
        ValueModel::QWord(sub, v) => if sub == SUB_UNSIGNED {
            ValueModel::UInt64(v)
        } else if sub == SUB_SIGNED {
            ValueModel::Int64(v as i64)
        } else if sub == SUB_FLOAT {
            ValueModel::Double(v)
        } else {
            value
        },
        ValueModel::UserText(sub, text) => text_value(sub, text),
        ValueModel::UserBlob(sub, data) => blob_value(sub, data),
        _ => value,
    }
}

/// A user-defined value is told apart from the well-known values of its
/// storage class by a subtype that none of them has. Every other value is
/// told apart as it is.
pub open spec fn distinguishable(value: ValueModel) -> bool {
    match value {
        ValueModel::Empty(sub) => sub > SUB_FALSE,
        ValueModel::Byte(sub, _) => sub > SUB_SIGNED,
        ValueModel::Word(sub, _) => sub > SUB_SIGNED,
        ValueModel::DWord(sub, _) => sub > SUB_FLOAT,
        ValueModel::QWord(sub, _) => sub > SUB_FLOAT,
        ValueModel::UserText(sub, _) => sub > SUB_DECIMAL_STR,
        ValueModel::UserBlob(sub, _) => sub > SUB_BLOB,
        _ => true,
    }
}

} // verus!
