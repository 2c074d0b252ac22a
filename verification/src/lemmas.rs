//! Facts about the wire format: decoding looks only at the bytes it takes,
//! runs of elements can be joined, and what is written decodes to itself.

use crate::data_type::{
    lemma_parse_tag_bounds, lemma_parse_tag_bytes, lemma_parse_tag_prefix, parse_tag, tag_bytes,
    tag_size,
};
use crate::endian::{
    be32, be32_bytes, lemma_be16_round_trip, lemma_be32_bytes_of_value, lemma_be32_prefix,
    lemma_be32_round_trip, lemma_be64_round_trip, lemma_i16_bits, lemma_i32_bits, lemma_i64_bits,
    lemma_i8_bits,
};
use crate::error::DeserializeError;
use crate::format::{
    canonical, container_kind, container_tag, container_value, decode_container, decode_entries,
    decode_entry, decode_header, decode_key, decode_scalar, decode_value, header_bytes,
    header_size, is_container, key_bytes, key_kind, key_size, key_writable, representable,
    value_bytes, value_payload, value_size, value_type, KeyModel, ValueModel,
};
use crate::raw_container::KeyType;
use crate::size::{MAX_SIZE, Size};
use crate::storage::Storage;
use vstd::prelude::*;
use vstd::utf8::{encode_utf8, encode_utf8_decode_utf8, encode_utf8_valid_utf8};

verus! {

/// A decoded key lies within the bytes it was decoded from.
pub proof fn lemma_decode_key_bounds(bytes: Seq<u8>, key_type: KeyType)
    requires
        decode_key(bytes, key_type) is Some,
    ensures
        decode_key(bytes, key_type).unwrap().1 <= bytes.len(),
        key_kind(decode_key(bytes, key_type).unwrap().0) == key_type,
{
}

/// Decoding a key looks at no byte behind it.
pub proof fn lemma_decode_key_window(bytes: Seq<u8>, other: Seq<u8>, key_type: KeyType)
    requires
        decode_key(bytes, key_type) is Some,
        other.len() >= decode_key(bytes, key_type).unwrap().1,
        other.subrange(0, decode_key(bytes, key_type).unwrap().1 as int) == bytes.subrange(
            0,
            decode_key(bytes, key_type).unwrap().1 as int,
        ),
    ensures
        decode_key(other, key_type) == decode_key(bytes, key_type),
{
    let n = decode_key(bytes, key_type).unwrap().1 as int;
    match key_type {
        KeyType::Empty => {},
        KeyType::Num => {
            lemma_be32_prefix(bytes, other);
        },
        KeyType::Str => {
            assert(bytes[0] == bytes.subrange(0, n)[0]);
            assert(other[0] == other.subrange(0, n)[0]);
            assert(other.subrange(1, n) =~= other.subrange(0, n).subrange(1, n));
            assert(bytes.subrange(1, n) =~= bytes.subrange(0, n).subrange(1, n));
        },
    }
}

/// A decoded header holds well-formed sizes, takes three to nine bytes and
/// declares a length that covers it and lies within the bytes.
pub proof fn lemma_decode_header_bounds(bytes: Seq<u8>, key_type: KeyType)
    requires
        decode_header(bytes, key_type) is Ok,
    ensures
        decode_header(bytes, key_type).unwrap().0.wf(),
        decode_header(bytes, key_type).unwrap().1.wf(),
        3 <= header_size(
            decode_header(bytes, key_type).unwrap().0,
            decode_header(bytes, key_type).unwrap().1,
        ) <= 9,
        header_size(
            decode_header(bytes, key_type).unwrap().0,
            decode_header(bytes, key_type).unwrap().1,
        ) <= decode_header(bytes, key_type).unwrap().0.spec_value() <= bytes.len(),
        bytes.subrange(
            0,
            header_size(
                decode_header(bytes, key_type).unwrap().0,
                decode_header(bytes, key_type).unwrap().1,
            ) as int,
        ) == header_bytes(
            key_type,
            decode_header(bytes, key_type).unwrap().0,
            decode_header(bytes, key_type).unwrap().1,
        ),
{
    reveal(decode_header);
    let (len, count) = decode_header(bytes, key_type).unwrap();
    let w = len.spec_size() as int;
    let h = header_size(len, count) as int;
    Size::lemma_parse_bounds(bytes.skip(1));
    Size::lemma_parse_bounds(bytes.skip(1 + w));
    lemma_size_bytes_of_parse(bytes.skip(1));
    lemma_size_bytes_of_parse(bytes.skip(1 + w));
    assert(bytes.subrange(0, h) =~= header_bytes(key_type, len, count));
}

/// The bytes that a size was decoded from are the bytes of that size.
pub proof fn lemma_size_bytes_of_parse(bytes: Seq<u8>)
    requires
        Size::spec_parse(bytes) is Some,
    ensures
        bytes.len() >= Size::spec_parse(bytes).unwrap().spec_size(),
        bytes.subrange(0, Size::spec_parse(bytes).unwrap().spec_size() as int) == Size::spec_parse(
            bytes,
        ).unwrap().spec_bytes(),
{
    let size = Size::spec_parse(bytes).unwrap();
    match size {
        Size::Compact(v) => {
            assert(bytes.subrange(0, 1) =~= seq![v]);
        },
        Size::Full(v) => {
            let x = be32(bytes);
            let head = bytes.subrange(0, 4);
            assert(head.subrange(0, 4) =~= head);
            lemma_be32_prefix(bytes, head);
            lemma_be32_bytes_of_value(head);
            assert(bytes[0] == head.subrange(0, 2)[0]);
            assert(x / 0x100_0000 == bytes[0]);
            assert(x >= 0x8000_0000u32);
            assert((x & 0x7FFF_FFFF) | 0x8000_0000 == x) by (bit_vector)
                requires
                    x >= 0x8000_0000u32,
            ;
        },
    }
}

/// Decoding a header looks at no byte behind it but for the length of the
/// input.
pub proof fn lemma_decode_header_window(bytes: Seq<u8>, other: Seq<u8>, key_type: KeyType)
    requires
        decode_header(bytes, key_type) is Ok,
        other.len() >= decode_header(bytes, key_type).unwrap().0.spec_value(),
        other.subrange(
            0,
            header_size(
                decode_header(bytes, key_type).unwrap().0,
                decode_header(bytes, key_type).unwrap().1,
            ) as int,
        ) == bytes.subrange(
            0,
            header_size(
                decode_header(bytes, key_type).unwrap().0,
                decode_header(bytes, key_type).unwrap().1,
            ) as int,
        ),
    ensures
        decode_header(other, key_type) == decode_header(bytes, key_type),
{
    reveal(decode_header);
    lemma_decode_header_bounds(bytes, key_type);
    let (len, count) = decode_header(bytes, key_type).unwrap();
    let h = header_size(len, count) as int;
    let w = len.spec_size() as int;
    assert(bytes[0] == bytes.subrange(0, h)[0]);
    assert(other[0] == other.subrange(0, h)[0]);
    assert(bytes.skip(1).subrange(0, w) =~= bytes.subrange(0, h).subrange(1, 1 + w));
    assert(other.skip(1).subrange(0, w) =~= other.subrange(0, h).subrange(1, 1 + w));
    Size::lemma_parse_prefix(bytes.skip(1), other.skip(1));
    let v = count.spec_size() as int;
    assert(bytes.skip(1 + w).subrange(0, v) =~= bytes.subrange(0, h).subrange(1 + w, h));
    assert(other.skip(1 + w).subrange(0, v) =~= other.subrange(0, h).subrange(1 + w, h));
    Size::lemma_parse_prefix(bytes.skip(1 + w), other.skip(1 + w));
}

/// A decoded container declares a length of at least three bytes that lies
/// within the bytes it was decoded from.
pub proof fn lemma_decode_container_bounds(bytes: Seq<u8>, key_type: KeyType)
    requires
        decode_container(bytes, key_type) is Ok,
    ensures
        decode_header(bytes, key_type) == Ok::<(Size, Size), DeserializeError>(
            (
                decode_container(bytes, key_type).unwrap().len,
                decode_container(bytes, key_type).unwrap().count,
            ),
        ),
        3 <= decode_container(bytes, key_type).unwrap().len.spec_value() <= bytes.len(),
        decode_container(bytes, key_type).unwrap().len.spec_value() <= MAX_SIZE,
        decode_container(bytes, key_type).unwrap().entries.len() == decode_container(
            bytes,
            key_type,
        ).unwrap().count.spec_value(),
{
    lemma_decode_header_bounds(bytes, key_type);
}

/// Decoding a container looks at no byte behind its declared length.
pub proof fn lemma_decode_container_window(bytes: Seq<u8>, other: Seq<u8>, key_type: KeyType)
    requires
        decode_container(bytes, key_type) is Ok,
        other.len() >= decode_container(bytes, key_type).unwrap().len.spec_value(),
        other.subrange(0, decode_container(bytes, key_type).unwrap().len.spec_value() as int)
            == bytes.subrange(
            0,
            decode_container(bytes, key_type).unwrap().len.spec_value() as int,
        ),
    ensures
        decode_container(other, key_type) == decode_container(bytes, key_type),
{
    lemma_decode_container_bounds(bytes, key_type);
    let (len, count) = decode_header(bytes, key_type).unwrap();
    let h = header_size(len, count) as int;
    let n = len.spec_value() as int;
    assert(other.subrange(0, h) =~= other.subrange(0, n).subrange(0, h));
    assert(bytes.subrange(0, h) =~= bytes.subrange(0, n).subrange(0, h));
    lemma_decode_header_window(bytes, other, key_type);
    assert(other.subrange(h, n) =~= other.subrange(0, n).subrange(h, n));
    assert(bytes.subrange(h, n) =~= bytes.subrange(0, n).subrange(h, n));
}

/// A decoded value that is no container lies within the bytes it was decoded
/// from.
pub proof fn lemma_decode_scalar_bounds(storage: Storage, subtype: u16, rest: Seq<u8>)
    requires
        !(storage is Container),
        decode_scalar(storage, subtype, rest) is Ok,
    ensures
        decode_scalar(storage, subtype, rest).unwrap().1 <= rest.len(),
{
    reveal(decode_scalar);
    if storage is String || storage is Blob {
        Size::lemma_parse_bounds(rest);
    }
}

/// Decoding a value that is no container looks at no byte behind it.
pub proof fn lemma_decode_scalar_window(
    storage: Storage,
    subtype: u16,
    rest: Seq<u8>,
    other: Seq<u8>,
)
    requires
        !(storage is Container),
        decode_scalar(storage, subtype, rest) is Ok,
        other.len() >= decode_scalar(storage, subtype, rest).unwrap().1,
        other.subrange(0, decode_scalar(storage, subtype, rest).unwrap().1 as int)
            == rest.subrange(0, decode_scalar(storage, subtype, rest).unwrap().1 as int),
    ensures
        decode_scalar(storage, subtype, other) == decode_scalar(storage, subtype, rest),
{
    reveal(decode_scalar);
    let m = decode_scalar(storage, subtype, rest).unwrap().1 as int;
    if storage is String || storage is Blob {
        Size::lemma_parse_bounds(rest);
        let size = Size::spec_parse(rest).unwrap();
        let w = size.spec_size() as int;
        let k = size.spec_value() as int;
        assert(rest.subrange(0, w) =~= rest.subrange(0, m).subrange(0, w));
        assert(other.subrange(0, w) =~= other.subrange(0, m).subrange(0, w));
        Size::lemma_parse_prefix(rest, other);
        assert(rest.subrange(w, w + k) =~= rest.subrange(0, m).subrange(w, w + k));
        assert(other.subrange(w, w + k) =~= other.subrange(0, m).subrange(w, w + k));
    } else {
        let k = storage.spec_fixed_size().unwrap() as int;
        assert(rest.subrange(0, k) =~= rest.subrange(0, m).subrange(0, k));
        assert(other.subrange(0, k) =~= other.subrange(0, m).subrange(0, k));
    }
}

/// A decoded value takes at least one byte and lies within the bytes it was
/// decoded from.
pub proof fn lemma_decode_value_bounds(bytes: Seq<u8>)
    requires
        decode_value(bytes) is Ok,
    ensures
        1 <= decode_value(bytes).unwrap().1 <= bytes.len(),
        parse_tag(bytes) is Some,
        tag_size(parse_tag(bytes).unwrap().1) <= decode_value(bytes).unwrap().1,
{
    let (storage, subtype) = parse_tag(bytes).unwrap();
    lemma_parse_tag_bounds(bytes);
    if storage is Container {
        lemma_decode_container_bounds(bytes, container_kind(subtype));
    } else {
        lemma_decode_scalar_bounds(storage, subtype, bytes.skip(tag_size(subtype) as int));
    }
}

/// Decoding a value looks at no byte behind it.
#[verifier::rlimit(20)]
pub proof fn lemma_decode_value_window(bytes: Seq<u8>, other: Seq<u8>)
    requires
        decode_value(bytes) is Ok,
        other.len() >= decode_value(bytes).unwrap().1,
        other.subrange(0, decode_value(bytes).unwrap().1 as int) == bytes.subrange(
            0,
            decode_value(bytes).unwrap().1 as int,
        ),
    ensures
        decode_value(other) == decode_value(bytes),
{
    lemma_decode_value_bounds(bytes);
    let n = decode_value(bytes).unwrap().1 as int;
    let (storage, subtype) = parse_tag(bytes).unwrap();
    let t = tag_size(subtype) as int;
    assert(other.subrange(0, t) =~= other.subrange(0, n).subrange(0, t));
    assert(bytes.subrange(0, t) =~= bytes.subrange(0, n).subrange(0, t));
    lemma_parse_tag_prefix(bytes, other);
    if storage is Container {
        lemma_decode_container_window(bytes, other, container_kind(subtype));
    } else {
        let rb = bytes.skip(t);
        let ro = other.skip(t);
        assert(rb.subrange(0, n - t) =~= bytes.subrange(0, n).subrange(t, n));
        assert(ro.subrange(0, n - t) =~= other.subrange(0, n).subrange(t, n));
        lemma_decode_scalar_window(storage, subtype, rb, ro);
    }
}

/// A decoded element takes at least one byte and lies within the bytes it
/// was decoded from.
pub proof fn lemma_decode_entry_bounds(bytes: Seq<u8>, key_type: KeyType)
    requires
        decode_entry(bytes, key_type) is Some,
    ensures
        1 <= decode_entry(bytes, key_type).unwrap().1 <= bytes.len(),
{
    let (key, kn) = decode_key(bytes, key_type).unwrap();
    lemma_decode_value_bounds(bytes.skip(kn as int));
}

/// Decoding an element looks at no byte behind it.
#[verifier::rlimit(20)]
pub proof fn lemma_decode_entry_window(bytes: Seq<u8>, other: Seq<u8>, key_type: KeyType)
    requires
        decode_entry(bytes, key_type) is Some,
        other.len() >= decode_entry(bytes, key_type).unwrap().1,
        other.subrange(0, decode_entry(bytes, key_type).unwrap().1 as int) == bytes.subrange(
            0,
            decode_entry(bytes, key_type).unwrap().1 as int,
        ),
    ensures
        decode_entry(other, key_type) == decode_entry(bytes, key_type),
{
    lemma_decode_entry_bounds(bytes, key_type);
    let n = decode_entry(bytes, key_type).unwrap().1 as int;
    let (key, kn) = decode_key(bytes, key_type).unwrap();
    let k = kn as int;
    lemma_decode_value_bounds(bytes.skip(k));
    assert(other.subrange(0, k) =~= other.subrange(0, n).subrange(0, k));
    assert(bytes.subrange(0, k) =~= bytes.subrange(0, n).subrange(0, k));
    lemma_decode_key_window(bytes, other, key_type);
    assert(other.skip(k).subrange(0, n - k) =~= other.subrange(0, n).subrange(k, n));
    assert(bytes.skip(k).subrange(0, n - k) =~= bytes.subrange(0, n).subrange(k, n));
    lemma_decode_value_window(bytes.skip(k), other.skip(k));
}

/// Two runs of elements, one behind the other, are the run of the elements
/// of both.
#[verifier::rlimit(20)]
pub proof fn lemma_decode_entries_concat(first: Seq<u8>, second: Seq<u8>, key_type: KeyType)
    requires
        decode_entries(first, key_type) is Some,
        decode_entries(second, key_type) is Some,
    ensures
        decode_entries(first + second, key_type) == Some(
            decode_entries(first, key_type).unwrap() + decode_entries(second, key_type).unwrap(),
        ),
    decreases first.len(),
{
    let e1 = decode_entries(first, key_type).unwrap();
    let e2 = decode_entries(second, key_type).unwrap();
    if first.len() == 0 {
        assert(first + second =~= second);
        assert(e1 + e2 =~= e2);
    } else {
        let (entry, n) = decode_entry(first, key_type).unwrap();
        let all = first + second;
        lemma_decode_entry_bounds(first, key_type);
        assert(all.subrange(0, n as int) =~= first.subrange(0, n as int));
        lemma_decode_entry_window(first, all, key_type);
        let rest = decode_entries(first.skip(n as int), key_type).unwrap();
        assert(all.skip(n as int) =~= first.skip(n as int) + second);
        lemma_decode_entries_concat(first.skip(n as int), second, key_type);
        assert(seq![entry] + (rest + e2) =~= e1 + e2);
    }
}

/// Bytes that are one element from the first byte to the last are a run of
/// that one element.
pub proof fn lemma_decode_entries_single(bytes: Seq<u8>, key_type: KeyType)
    requires
        decode_entry(bytes, key_type) is Some,
        decode_entry(bytes, key_type).unwrap().1 == bytes.len(),
    ensures
        decode_entries(bytes, key_type) == Some(seq![decode_entry(bytes, key_type).unwrap().0]),
{
    lemma_decode_entry_bounds(bytes, key_type);
    let (entry, n) = decode_entry(bytes, key_type).unwrap();
    assert(bytes.skip(n as int) =~= Seq::<u8>::empty());
    assert(decode_entries(bytes.skip(n as int), key_type) == Some(
        Seq::<(KeyModel, ValueModel)>::empty(),
    ));
    assert(seq![entry] + Seq::<(KeyModel, ValueModel)>::empty() =~= seq![entry]);
}

/// A run of elements has at most as many elements as bytes.
pub proof fn lemma_decode_entries_len(bytes: Seq<u8>, key_type: KeyType)
    requires
        decode_entries(bytes, key_type) is Some,
    ensures
        decode_entries(bytes, key_type).unwrap().len() <= bytes.len(),
    decreases bytes.len(),
{
    if bytes.len() > 0 {
        let (entry, n) = decode_entry(bytes, key_type).unwrap();
        lemma_decode_entries_len(bytes.skip(n as int), key_type);
    }
}

/// The bytes of a key decode to the key, whatever follows them.
pub proof fn lemma_key_round_trip(key: KeyModel, tail: Seq<u8>)
    requires
        key_writable(key),
    ensures
        key_bytes(key).len() == key_size(key),
        decode_key(key_bytes(key) + tail, key_kind(key)) == Some((key, key_size(key))),
{
    let all = key_bytes(key) + tail;
    match key {
        KeyModel::Empty => {},
        KeyModel::Num(n) => {
            lemma_be32_round_trip(n as u32);
            assert(all.subrange(0, 4) =~= be32_bytes(n as u32));
            assert(be32_bytes(n as u32).subrange(0, 4) =~= be32_bytes(n as u32));
            lemma_be32_prefix(all, be32_bytes(n as u32));
            lemma_i32_bits(n);
        },
        KeyModel::Str(s) => {
            let n = encode_utf8(s).len() as int;
            assert(all[0] == n as u8);
            assert(all.subrange(1, 1 + n) =~= encode_utf8(s));
            encode_utf8_valid_utf8(s);
            encode_utf8_decode_utf8(s);
        },
    }
}

proof fn lemma_fixed_round_trip(value: ValueModel, tail: Seq<u8>)
    requires
        value_type(value).0.spec_fixed_size() is Some,
    ensures
        value_payload(value).len() == value_type(value).0.spec_fixed_size().unwrap(),
        decode_scalar(value_type(value).0, value_type(value).1, value_payload(value) + tail)
            == Ok::<(ValueModel, nat), DeserializeError>(
            (canonical(value), value_payload(value).len()),
        ),
{
    reveal(decode_scalar);
    let (storage, subtype) = value_type(value);
    let payload = value_payload(value);
    let n = payload.len() as int;
    match value {
        ValueModel::Int8(v) => {
            lemma_i8_bits(v);
        },
        ValueModel::UInt16(v) | ValueModel::Word(_, v) => {
            lemma_be16_round_trip(v);
        },
        ValueModel::Int16(v) => {
            lemma_be16_round_trip(v as u16);
            lemma_i16_bits(v);
        },
        ValueModel::UInt32(v) | ValueModel::DWord(_, v) | ValueModel::Float(v) => {
            lemma_be32_round_trip(v);
        },
        ValueModel::Int32(v) => {
            lemma_be32_round_trip(v as u32);
            lemma_i32_bits(v);
        },
        ValueModel::UInt64(v) | ValueModel::QWord(_, v) | ValueModel::Double(v) => {
            lemma_be64_round_trip(v);
        },
        ValueModel::Int64(v) => {
            lemma_be64_round_trip(v as u64);
            lemma_i64_bits(v);
        },
        _ => {},
    }
    assert((payload + tail).subrange(0, n) =~= payload);
}

proof fn lemma_sized_round_trip(value: ValueModel, tail: Seq<u8>)
    requires
        value_type(value).0 is String || value_type(value).0 is Blob,
        value_payload(value).len() <= MAX_SIZE,
    ensures
        Size::spec_new(value_payload(value).len() as int).wf(),
        value_type(value).0 is String ==> decode_scalar(
            value_type(value).0,
            value_type(value).1,
            Size::spec_new(value_payload(value).len() as int).spec_bytes() + value_payload(value)
                + seq![0u8] + tail,
        ) == Ok::<(ValueModel, nat), DeserializeError>(
            (
                canonical(value),
                Size::spec_new(value_payload(value).len() as int).spec_size() as nat
                    + value_payload(value).len() + 1,
            ),
        ),
        value_type(value).0 is Blob ==> decode_scalar(
            value_type(value).0,
            value_type(value).1,
            Size::spec_new(value_payload(value).len() as int).spec_bytes() + value_payload(value)
                + tail,
        ) == Ok::<(ValueModel, nat), DeserializeError>(
            (
                canonical(value),
                Size::spec_new(value_payload(value).len() as int).spec_size() as nat
                    + value_payload(value).len(),
            ),
        ),
{
    reveal(decode_scalar);
    let (storage, subtype) = value_type(value);
    let payload = value_payload(value);
    let n = payload.len() as int;
    let size = Size::spec_new(n);
    let w = size.spec_size() as int;
    assert(size.spec_value() == n);
    if storage is String {
        let rest = size.spec_bytes() + payload + seq![0u8] + tail;
        size.lemma_parse_bytes(payload + seq![0u8] + tail);
        assert(rest =~= size.spec_bytes() + (payload + seq![0u8] + tail));
        assert(rest.subrange(w, w + n) =~= payload);
        let text = match value {
            ValueModel::Text(s)
            | ValueModel::DateTime(s)
            | ValueModel::Date(s)
            | ValueModel::Time(s)
            | ValueModel::DecimalStr(s)
            | ValueModel::UserText(_, s) => s,
            _ => Seq::<char>::empty(),
        };
        assert(payload == encode_utf8(text));
        encode_utf8_valid_utf8(text);
        encode_utf8_decode_utf8(text);
    } else {
        let rest = size.spec_bytes() + payload + tail;
        size.lemma_parse_bytes(payload + tail);
        assert(rest =~= size.spec_bytes() + (payload + tail));
        assert(rest.subrange(w, w + n) =~= payload);
    }
}

/// The tag byte of a container is the tag of container storage with the
/// subtype of its kind.
pub proof fn lemma_container_tag(key_type: KeyType)
    ensures
        tag_bytes(
            Storage::Container,
            match key_type {
                KeyType::Empty => 0u16,
                KeyType::Num => 1u16,
                KeyType::Str => 2u16,
            },
        ) == seq![container_tag(key_type)],
        parse_tag(seq![container_tag(key_type)]) == Some(
            (
                Storage::Container,
                match key_type {
                    KeyType::Empty => 0u16,
                    KeyType::Num => 1u16,
                    KeyType::Str => 2u16,
                },
            ),
        ),
{
    let sub = match key_type {
        KeyType::Empty => 0u16,
        KeyType::Num => 1u16,
        KeyType::Str => 2u16,
    };
    assert(0xE0u8 | 0u8 == 0xE0u8 && 0xE0u8 | 1u8 == 0xE1u8 && 0xE0u8 | 2u8 == 0xE2u8)
        by (bit_vector);
    assert(tag_bytes(Storage::Container, sub) =~= seq![container_tag(key_type)]);
    lemma_parse_tag_bytes(Storage::Container, sub, Seq::<u8>::empty());
    assert(tag_bytes(Storage::Container, sub) + Seq::<u8>::empty() =~= tag_bytes(
        Storage::Container,
        sub,
    ));
}

/// The encoding of a container decodes, as a value, to the container value
/// of its kind, whatever follows it.
pub proof fn lemma_container_value_round_trip(bytes: Seq<u8>, key_type: KeyType, tail: Seq<u8>)
    requires
        is_container(bytes, key_type),
    ensures
        decode_value(bytes + tail) == Ok::<(ValueModel, nat), DeserializeError>(
            (container_value(key_type, bytes), bytes.len()),
        ),
{
    let all = bytes + tail;
    lemma_decode_container_bounds(bytes, key_type);
    assert(all.subrange(0, bytes.len() as int) =~= bytes);
    assert(bytes.subrange(0, bytes.len() as int) =~= bytes);
    lemma_decode_container_window(bytes, all, key_type);
    lemma_container_tag(key_type);
    lemma_decode_header_bounds(bytes, key_type);
    let one = seq![container_tag(key_type)];
    let (len, count) = decode_header(bytes, key_type).unwrap();
    assert(bytes[0] == bytes.subrange(0, header_size(len, count) as int)[0]);
    assert(all.subrange(0, 1) =~= one);
    assert(one.subrange(0, 1) =~= one);
    lemma_parse_tag_prefix(one, all);
}

proof fn lemma_text_value_round_trip(value: ValueModel, tail: Seq<u8>)
    requires
        representable(value),
        value_type(value).0 is String,
    ensures
        value_bytes(value).len() == value_size(value),
        decode_value(value_bytes(value) + tail) == Ok::<(ValueModel, nat), DeserializeError>(
            (canonical(value), value_size(value)),
        ),
{
    let (storage, subtype) = value_type(value);
    let payload = value_payload(value);
    let tag = tag_bytes(storage, subtype);
    let t = tag_size(subtype) as int;
    let all = value_bytes(value) + tail;
    let size = Size::spec_new(payload.len() as int);
    let body = size.spec_bytes() + payload + seq![0u8] + tail;
    lemma_parse_tag_bytes(storage, subtype, body);
    assert(all =~= tag + body);
    assert(all.skip(t) =~= body);
    lemma_sized_round_trip(value, tail);
    size.lemma_parse_bytes(Seq::<u8>::empty());
}

proof fn lemma_blob_value_round_trip(value: ValueModel, tail: Seq<u8>)
    requires
        representable(value),
        value_type(value).0 is Blob,
    ensures
        value_bytes(value).len() == value_size(value),
        decode_value(value_bytes(value) + tail) == Ok::<(ValueModel, nat), DeserializeError>(
            (canonical(value), value_size(value)),
        ),
{
    let (storage, subtype) = value_type(value);
    let payload = value_payload(value);
    let tag = tag_bytes(storage, subtype);
    let t = tag_size(subtype) as int;
    let all = value_bytes(value) + tail;
    let size = Size::spec_new(payload.len() as int);
    let body = size.spec_bytes() + payload + tail;
    lemma_parse_tag_bytes(storage, subtype, body);
    assert(all =~= tag + body);
    assert(all.skip(t) =~= body);
    lemma_sized_round_trip(value, tail);
    size.lemma_parse_bytes(Seq::<u8>::empty());
}

proof fn lemma_fixed_value_round_trip(value: ValueModel, tail: Seq<u8>)
    requires
        representable(value),
        value_type(value).0.spec_fixed_size() is Some,
    ensures
        value_bytes(value).len() == value_size(value),
        decode_value(value_bytes(value) + tail) == Ok::<(ValueModel, nat), DeserializeError>(
            (canonical(value), value_size(value)),
        ),
{
    let (storage, subtype) = value_type(value);
    let payload = value_payload(value);
    let tag = tag_bytes(storage, subtype);
    let t = tag_size(subtype) as int;
    let all = value_bytes(value) + tail;
    let body = payload + tail;
    lemma_parse_tag_bytes(storage, subtype, body);
    assert(all =~= tag + body);
    assert(all.skip(t) =~= body);
    lemma_fixed_round_trip(value, tail);
}

/// The bytes of a value decode to the value, whatever follows them, and are
/// as many as `value_size` says. (A user-defined value with the subtype of a
/// well-known value decodes to that well-known value.)
pub proof fn lemma_value_round_trip(value: ValueModel, tail: Seq<u8>)
    requires
        representable(value),
    ensures
        value_bytes(value).len() == value_size(value),
        decode_value(value_bytes(value) + tail) == Ok::<(ValueModel, nat), DeserializeError>(
            (canonical(value), value_size(value)),
        ),
{
    let (storage, subtype) = value_type(value);
    if storage is Container {
        lemma_container_value_round_trip(value_payload(value), container_kind(subtype), tail);
    } else if storage is String {
        lemma_text_value_round_trip(value, tail);
    } else if storage is Blob {
        lemma_blob_value_round_trip(value, tail);
    } else {
        lemma_fixed_value_round_trip(value, tail);
    }
}

/// Joining three sequences does not depend on where the brackets stand, and
/// skipping the first leaves the other two.
pub proof fn lemma_concat3(a: Seq<u8>, b: Seq<u8>, c: Seq<u8>)
    ensures
        a + b + c == a + (b + c),
        (a + b + c).skip(a.len() as int) == b + c,
        (a + b + c).len() == a.len() + b.len() + c.len(),
{
    assert(a + b + c =~= a + (b + c));
    assert((a + b + c).skip(a.len() as int) =~= b + c);
}

/// The bytes of a key followed by the bytes of a value decode to the element
/// of both, whatever follows them.
pub proof fn lemma_entry_round_trip(key: KeyModel, value: ValueModel, tail: Seq<u8>)
    requires
        key_writable(key),
        representable(value),
    ensures
        key_bytes(key).len() == key_size(key),
        value_bytes(value).len() == value_size(value),
        decode_entry(key_bytes(key) + value_bytes(value) + tail, key_kind(key)) == Some(
            ((key, canonical(value)), key_size(key) + value_size(value)),
        ),
{
    let kb = key_bytes(key);
    let vb = value_bytes(value);
    lemma_key_round_trip(key, vb + tail);
    lemma_value_round_trip(value, tail);
    lemma_concat3(kb, vb, tail);
}

} // verus!
