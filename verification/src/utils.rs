//! Reading numbers, keys, text and binary data from the start of a byte
//! slice.

use crate::endian::{
    be16, be32, be64, be_read_i16, be_read_i32, be_read_i64, be_read_u16, be_read_u32, be_read_u64,
};
use crate::error::DeserializeError;
use crate::size::Size;
use vstd::prelude::*;
use vstd::slice::slice_subrange;
use vstd::utf8::{decode_utf8, encode_utf8, encode_utf8_decode_utf8, valid_utf8};

verus! {

/// The error of `core::str::from_utf8`.
#[verifier::external_type_specification]
#[verifier::external_body]
pub struct ExUtf8Error(core::str::Utf8Error);

/// `core::str::from_utf8`: the bytes as text if they are valid UTF-8, an
/// error if they are not. The text borrows the bytes, so its UTF-8 bytes are
/// the bytes given.
#[verifier::external_body]
pub(crate) fn str_from_utf8<'a>(bytes: &'a [u8]) -> (r: Result<&'a str, core::str::Utf8Error>)
    ensures
        r is Ok <==> valid_utf8(bytes@),
        r matches Ok(s) ==> encode_utf8(s@) == bytes@,
{
    core::str::from_utf8(bytes)
}

/// The payload that a size field at the start of `bytes` announces: the
/// field and the bytes behind it, as many as the field says.
pub open spec fn sized_payload(bytes: Seq<u8>) -> Option<(Size, Seq<u8>)> {
    match Size::spec_parse(bytes) {
        None => None,
        Some(size) => if bytes.len() - size.spec_size() < size.spec_value() {
            None
        } else {
            Some(
                (
                    size,
                    bytes.subrange(
                        size.spec_size() as int,
                        size.spec_size() + size.spec_value(),
                    ),
                ),
            )
        },
    }
}

/// The text key at the start of `bytes`: a length byte and that many bytes
/// of valid UTF-8.
pub open spec fn text_key(bytes: Seq<u8>) -> Option<Seq<char>> {
    if bytes.len() == 0 {
        None
    } else if bytes.len() - 1 < bytes[0] {
        None
    } else if !valid_utf8(bytes.subrange(1, 1 + bytes[0])) {
        None
    } else {
        Some(decode_utf8(bytes.subrange(1, 1 + bytes[0])))
    }
}

/// Reads the first byte.
pub fn read_u8(buf: &[u8]) -> (r: Result<u8, DeserializeError>)
    ensures
        buf@.len() >= 1 ==> r == Ok::<u8, DeserializeError>(buf@[0]),
        buf@.len() < 1 ==> r == Err::<u8, DeserializeError>(DeserializeError::InvalidData),
{
    if buf.len() == 0 {
        return Err(DeserializeError::InvalidData);
    }
    Ok(buf[0])
}

/// Reads the first byte as a signed number.
pub fn read_i8(buf: &[u8]) -> (r: Result<i8, DeserializeError>)
    ensures
        buf@.len() >= 1 ==> r == Ok::<i8, DeserializeError>(buf@[0] as i8),
        buf@.len() < 1 ==> r == Err::<i8, DeserializeError>(DeserializeError::InvalidData),
{
    if buf.len() == 0 {
        return Err(DeserializeError::InvalidData);
    }
    Ok(buf[0] as i8)
}

/// Reads the first two bytes as a big-endian number.
pub fn read_u16(buf: &[u8]) -> (r: Result<u16, DeserializeError>)
    ensures
        buf@.len() >= 2 ==> r == Ok::<u16, DeserializeError>(be16(buf@)),
        buf@.len() < 2 ==> r == Err::<u16, DeserializeError>(DeserializeError::InvalidData),
{
    if buf.len() < 2 {
        return Err(DeserializeError::InvalidData);
    }
    Ok(be_read_u16(buf))
}

/// Reads the first two bytes as a big-endian signed number.
pub fn read_i16(buf: &[u8]) -> (r: Result<i16, DeserializeError>)
    ensures
        buf@.len() >= 2 ==> r == Ok::<i16, DeserializeError>(be16(buf@) as i16),
        buf@.len() < 2 ==> r == Err::<i16, DeserializeError>(DeserializeError::InvalidData),
{
    if buf.len() < 2 {
        return Err(DeserializeError::InvalidData);
    }
    Ok(be_read_i16(buf))
}

/// Reads the first four bytes as a big-endian number.
pub fn read_u32(buf: &[u8]) -> (r: Result<u32, DeserializeError>)
    ensures
        buf@.len() >= 4 ==> r == Ok::<u32, DeserializeError>(be32(buf@)),
        buf@.len() < 4 ==> r == Err::<u32, DeserializeError>(DeserializeError::InvalidData),
{
    if buf.len() < 4 {
        return Err(DeserializeError::InvalidData);
    }
    Ok(be_read_u32(buf))
}

/// Reads the first four bytes as a big-endian signed number.
pub fn read_i32(buf: &[u8]) -> (r: Result<i32, DeserializeError>)
    ensures
        buf@.len() >= 4 ==> r == Ok::<i32, DeserializeError>(be32(buf@) as i32),
        buf@.len() < 4 ==> r == Err::<i32, DeserializeError>(DeserializeError::InvalidData),
{
    if buf.len() < 4 {
        return Err(DeserializeError::InvalidData);
    }
    Ok(be_read_i32(buf))
}

/// Reads the first eight bytes as a big-endian number.
pub fn read_u64(buf: &[u8]) -> (r: Result<u64, DeserializeError>)
    ensures
        buf@.len() >= 8 ==> r == Ok::<u64, DeserializeError>(be64(buf@)),
        buf@.len() < 8 ==> r == Err::<u64, DeserializeError>(DeserializeError::InvalidData),
{
    if buf.len() < 8 {
        return Err(DeserializeError::InvalidData);
    }
    Ok(be_read_u64(buf))
}

/// Reads the first eight bytes as a big-endian signed number.
pub fn read_i64(buf: &[u8]) -> (r: Result<i64, DeserializeError>)
    ensures
        buf@.len() >= 8 ==> r == Ok::<i64, DeserializeError>(be64(buf@) as i64),
        buf@.len() < 8 ==> r == Err::<i64, DeserializeError>(DeserializeError::InvalidData),
{
    if buf.len() < 8 {
        return Err(DeserializeError::InvalidData);
    }
    Ok(be_read_i64(buf))
}

/// Reads a text key: a length byte, then that many bytes of UTF-8.
pub fn read_key(buf: &[u8]) -> (r: Result<&str, DeserializeError>)
    ensures
        match text_key(buf@) {
            Some(s) => r matches Ok(key) && key@ == s && encode_utf8(key@) == buf@.subrange(
                1,
                1 + buf@[0],
            ),
            None => r == Err::<&str, DeserializeError>(DeserializeError::InvalidData),
        },
{
    if buf.len() == 0 {
        return Err(DeserializeError::InvalidData);
    }
    let len = buf[0] as usize;
    if buf.len() - 1 < len {
        return Err(DeserializeError::InvalidData);
    }
    match str_from_utf8(slice_subrange(buf, 1, 1 + len)) {
        Ok(key) => {
            proof {
                encode_utf8_decode_utf8(key@);
            }
            Ok(key)
        },
        Err(_) => Err(DeserializeError::InvalidData),
    }
}

/// Reads text: a size field, then that many bytes of UTF-8.
pub fn read_text(buf: &[u8]) -> (r: Result<&str, DeserializeError>)
    ensures
        match sized_payload(buf@) {
            Some((size, payload)) => if valid_utf8(payload) {
                r matches Ok(text) && text@ == decode_utf8(payload) && encode_utf8(text@) == payload
            } else {
                r == Err::<&str, DeserializeError>(DeserializeError::InvalidData)
            },
            None => r == Err::<&str, DeserializeError>(DeserializeError::InvalidData),
        },
{
    let size = match Size::try_from(buf) {
        Ok(size) => size,
        Err(_) => {
            return Err(DeserializeError::InvalidData);
        },
    };
    proof {
        Size::lemma_parse_bounds(buf@);
    }
    if buf.len() - size.size() < size.value() {
        return Err(DeserializeError::InvalidData);
    }
    match str_from_utf8(slice_subrange(buf, size.size(), size.size() + size.value())) {
        Ok(text) => {
            proof {
                encode_utf8_decode_utf8(text@);
            }
            Ok(text)
        },
        Err(_) => Err(DeserializeError::InvalidData),
    }
}

/// Reads binary data: a size field, then that many bytes.
pub fn read_blob(buf: &[u8]) -> (r: Result<&[u8], DeserializeError>)
    ensures
        match sized_payload(buf@) {
            Some((size, payload)) => r matches Ok(data) && data@ == payload,
            None => r == Err::<&[u8], DeserializeError>(DeserializeError::InvalidData),
        },
{
    let size = match Size::try_from(buf) {
        Ok(size) => size,
        Err(_) => {
            return Err(DeserializeError::InvalidData);
        },
    };
    proof {
        Size::lemma_parse_bounds(buf@);
    }
    if buf.len() - size.size() < size.value() {
        return Err(DeserializeError::InvalidData);
    }
    Ok(slice_subrange(buf, size.size(), size.size() + size.value()))
}

} // verus!

verus! {

/// Copies `src` to the start of `dst` and returns the part of `dst` behind
/// the copy.
///
/// `dst` must hold at least as many bytes as `src`.
pub fn copy_into<'b>(dst: &'b mut [u8], src: &[u8]) -> (rest: &'b mut [u8])
    requires
        old(dst)@.len() >= src@.len(),
    ensures
        rest@ == old(dst)@.skip(src@.len() as int),
        final(dst)@ == src@ + final(rest)@,
{
    let n = src.len();
    let ghost whole = final(dst)@;
    let (head, rest) = dst.split_at_mut(n);
    let mut i: usize = 0;
    while i < n
        invariant
            i <= n,
            n == src@.len(),
            head@.len() == n,
            forall|j: int| 0 <= j < i ==> head@[j] == src@[j],
            whole == final(head)@ + final(rest)@,
        decreases n - i,
    {
        head[i] = src[i];
        i = i + 1;
    }
    assert(head@ == src@);
    rest
}

} // verus!
