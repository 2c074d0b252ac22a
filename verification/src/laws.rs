//! What holds of the codec as a whole: values and containers survive the way
//! through their bytes, appending lays the bytes out as the format asks,
//! every container above the one appended to grows with it, and an append
//! that does not fit changes nothing.

use crate::document::{
    doc_wf, frame_bytes, growth, header_shift, lemma_doc_prefix, lemma_growth_bounds, promoted,
    size_shift, Frame,
};
use crate::error::{AddValueError, DeserializeError};
use crate::format::{
    canonical, container_entries, container_value, decode_container, decode_value, distinguishable,
    header_bytes, header_size, is_container, key_bytes, key_size, key_writable, representable,
    value_bytes, value_size, KeyModel, ValueModel,
};
use crate::lemmas::{
    lemma_container_value_round_trip, lemma_decode_container_bounds, lemma_value_round_trip,
};
use crate::append::{extended, level, planned};
use crate::raw_container::KeyType;
use crate::size::{MAX_SIZE, Size};
use vstd::prelude::*;

verus! {

/// Round trip of values. The bytes of a value decode to that value and to
/// nothing else, whatever follows them, and decoding takes exactly the bytes
/// of the value.
///
/// This holds of every value that can be written and that is told apart from
/// the well-known values: a user-defined value with the subtype of a
/// well-known value of its storage class has the bytes of that value.
pub proof fn law_value_round_trip(value: ValueModel, tail: Seq<u8>)
    requires
        representable(value),
        distinguishable(value),
    ensures
        value_bytes(value).len() == value_size(value),
        decode_value(value_bytes(value) + tail) == Ok::<(ValueModel, nat), DeserializeError>(
            (value, value_size(value)),
        ),
{
    lemma_value_round_trip(value, tail);
    assert(canonical(value) == value);
}

/// Round trip of containers. The encoding of a container decodes, as a
/// value, to a container of the same kind with the same bytes, and so with
/// the same number of elements, the same keys and the same values in the
/// same order.
pub proof fn law_container_round_trip(bytes: Seq<u8>, key_type: KeyType, tail: Seq<u8>)
    requires
        is_container(bytes, key_type),
    ensures
        decode_value(bytes + tail) == Ok::<(ValueModel, nat), DeserializeError>(
            (container_value(key_type, bytes), bytes.len()),
        ),
        decode_container(bytes + tail, key_type) == decode_container(bytes, key_type),
        container_entries(bytes + tail, key_type) == container_entries(bytes, key_type),
        container_entries(bytes, key_type).len() == decode_container(
            bytes,
            key_type,
        ).unwrap().count.spec_value(),
{
    lemma_container_value_round_trip(bytes, key_type, tail);
    lemma_decode_container_bounds(bytes, key_type);
    let all = bytes + tail;
    assert(all.subrange(0, bytes.len() as int) =~= bytes.subrange(0, bytes.len() as int));
    crate::lemmas::lemma_decode_container_window(bytes, all, key_type);
}

/// Parsing keeps the bytes. A view over bytes that are the encoding of a
/// container holds exactly those bytes: the declared length is the number of
/// bytes.
pub proof fn law_parse_keeps_bytes(bytes: Seq<u8>, key_type: KeyType)
    requires
        is_container(bytes, key_type),
    ensures
        bytes.subrange(0, decode_container(bytes, key_type).unwrap().len.spec_value() as int)
            == bytes,
{
    assert(bytes.subrange(0, bytes.len() as int) =~= bytes);
}

/// Header promotion. A size field that leaves its one-byte form takes three
/// bytes more: the header of a container that grows takes three bytes more
/// if its length comes to exceed 127, three more if its count does, six if
/// both do, and none otherwise. A field in the four-byte form stays in it.
pub proof fn law_header_promotion(len: Size, count: Size, grow: int, inc: int)
    requires
        len.wf(),
        count.wf(),
        0 <= grow,
        0 <= inc,
        len.spec_value() + grow + 6 <= MAX_SIZE,
        count.spec_value() + inc <= MAX_SIZE,
    ensures
        ({
            let shift = header_shift(len, count, grow, inc);
            let new_len = promoted(len, len.spec_value() + grow + shift);
            let new_count = promoted(count, count.spec_value() + inc);
            let count_leaves = count is Compact && new_count is Full;
            let len_leaves = len is Compact && new_len is Full;
            &&& new_len.wf() && new_len.spec_value() == len.spec_value() + grow + shift
            &&& new_count.wf() && new_count.spec_value() == count.spec_value() + inc
            &&& count_leaves <==> count is Compact && count.spec_value() + inc > 127
            &&& len_leaves <==> len is Compact && len.spec_value() + grow + (if count_leaves {
                3int
            } else {
                0int
            }) > 127
            &&& shift == (if count_leaves {
                3int
            } else {
                0int
            }) + (if len_leaves {
                3int
            } else {
                0int
            })
            &&& header_size(new_len, new_count) == header_size(len, count) + shift
            &&& len is Full ==> new_len is Full
            &&& count is Full ==> new_count is Full
        }),
{
}

/// The two size fields never leave the one-byte form in the same append. A
/// container with 127 elements has more than 127 bytes, since every element
/// takes at least one: by the time the count leaves the one-byte form the
/// length has left it.
pub proof fn law_fields_leave_one_at_a_time(bytes: Seq<u8>, key_type: KeyType, grow: int)
    requires
        is_container(bytes, key_type),
        0 <= grow,
    ensures
        ({
            let c = decode_container(bytes, key_type).unwrap();
            &&& c.count.spec_value() >= 125 ==> c.len is Full
            &&& header_shift(c.len, c.count, grow, 1) <= 3
        }),
{
    let c = decode_container(bytes, key_type).unwrap();
    lemma_decode_container_bounds(bytes, key_type);
    crate::lemmas::lemma_decode_header_bounds(bytes, key_type);
    let start = header_size(c.len, c.count) as int;
    let end = c.len.spec_value() as int;
    crate::lemmas::lemma_decode_entries_len(bytes.subrange(start, end), key_type);
}

/// Promotion shifts the elements. After an append the header of the
/// container appended to takes three bytes more for each of its two size
/// fields that has left the one-byte form, and every byte of the elements
/// that the container had stands that many bytes further from the start of
/// the container; behind them stand the key and the value.
pub proof fn law_promotion_shifts_elements(
    before: Seq<u8>,
    path: Seq<Frame>,
    after: Seq<u8>,
    new_path: Seq<Frame>,
    key: KeyModel,
    value: ValueModel,
)
    requires
        doc_wf(before, path),
        extended(before, path, after, new_path, key, value),
    ensures
        ({
            let last = path.len() - 1;
            let old_bytes = frame_bytes(before, path, last);
            let new_bytes = frame_bytes(after, new_path, last);
            let old_model = level(before, path, last);
            let new_model = level(after, new_path, last);
            let old_header = header_size(old_model.len, old_model.count) as int;
            let shift = header_size(new_model.len, new_model.count) - old_header;
            &&& shift == (if old_model.len is Compact && new_model.len is Full {
                3int
            } else {
                0int
            }) + (if old_model.count is Compact && new_model.count is Full {
                3int
            } else {
                0int
            })
            &&& new_bytes.len() == old_bytes.len() + shift + (key_bytes(key) + value_bytes(
                value,
            )).len()
            &&& forall|p: int|
                old_header <= p < old_bytes.len() ==> new_bytes[p + shift] == old_bytes[p]
            &&& new_bytes.skip(old_bytes.len() + shift) == key_bytes(key) + value_bytes(value)
        }),
{
    reveal(extended);
    let last = path.len() - 1;
    let old_bytes = frame_bytes(before, path, last);
    let new_bytes = frame_bytes(after, new_path, last);
    let old_model = level(before, path, last);
    let new_model = level(after, new_path, last);
    let old_header = header_size(old_model.len, old_model.count) as int;
    lemma_doc_prefix(before, path, last);
    lemma_decode_container_bounds(old_bytes, path[last].key_type);
    crate::lemmas::lemma_decode_header_bounds(old_bytes, path[last].key_type);
    let header = header_bytes(path[last].key_type, new_model.len, new_model.count);
    new_model.len.lemma_bytes_len();
    new_model.count.lemma_bytes_len();
    lemma_layout(header, old_bytes, old_header, key_bytes(key) + value_bytes(value), new_bytes);
    assert(level(after, new_path, last).len.spec_value() == old_model.len.spec_value() + growth(
        path,
        last,
        (key_size(key) + value_size(value)) as int,
    ));
}

/// Bytes that are a header, the bytes behind an older header and an element
/// hold each byte behind the older header moved by the difference of the
/// headers, and the element last.
proof fn lemma_layout(
    header: Seq<u8>,
    old_bytes: Seq<u8>,
    old_header: int,
    element: Seq<u8>,
    new_bytes: Seq<u8>,
)
    requires
        0 <= old_header <= old_bytes.len(),
        new_bytes == header + old_bytes.skip(old_header) + element,
    ensures
        new_bytes.len() == old_bytes.len() + (header.len() - old_header) + element.len(),
        forall|p: int|
            old_header <= p < old_bytes.len() ==> new_bytes[p + (header.len() - old_header)]
                == old_bytes[p],
        new_bytes.skip(old_bytes.len() + (header.len() - old_header)) == element,
{
    let body = old_bytes.skip(old_header);
    assert forall|p: int| old_header <= p < old_bytes.len() implies new_bytes[p + (header.len()
        - old_header)] == old_bytes[p] by {
        assert(body[p - old_header] == old_bytes[p]);
    }
    assert(new_bytes.skip(old_bytes.len() + (header.len() - old_header)) =~= element);
}

/// Ancestor propagation. After an append every container of the path, from
/// the outermost to the one appended to, declares a length that is longer
/// by the bytes of the element and by at most six bytes for itself and for
/// every container below it on the path; only the container appended to
/// declares one element more.
pub proof fn law_ancestors_grow(
    before: Seq<u8>,
    path: Seq<Frame>,
    after: Seq<u8>,
    new_path: Seq<Frame>,
    key: KeyModel,
    value: ValueModel,
    i: int,
)
    requires
        doc_wf(before, path),
        extended(before, path, after, new_path, key, value),
        0 <= i < path.len(),
    ensures
        ({
            let added = (key_size(key) + value_size(value)) as int;
            let old_model = level(before, path, i);
            let new_model = level(after, new_path, i);
            &&& new_model.len.spec_value() == old_model.len.spec_value() + growth(path, i, added)
            &&& added <= growth(path, i, added) <= added + 6 * (path.len() - i)
            &&& new_model.count.spec_value() == old_model.count.spec_value() + (if i == path.len()
                - 1 {
                1int
            } else {
                0int
            })
        }),
{
    reveal(extended);
    let added = (key_size(key) + value_size(value)) as int;
    lemma_growth_bounds(path, i, added);
    assert(level(after, new_path, i).len.spec_value() == level(before, path, i).len.spec_value()
        + growth(path, i, added));
}

/// Without promotion every container grows by exactly the bytes of the
/// element: where no size field on the path from `level` down leaves its
/// one-byte form, the growth is the number of bytes appended.
pub proof fn law_growth_without_promotion(path: Seq<Frame>, level: int, added: int)
    requires
        0 <= level <= path.len(),
        forall|j: int|
            level <= j < path.len() ==> size_shift((#[trigger] path[j]).len, added) == 0
                && size_shift(
                path[j].count,
                if j == path.len() - 1 {
                    1
                } else {
                    0
                },
            ) == 0,
    ensures
        growth(path, level, added) == added,
    decreases path.len() - level,
{
    if level < path.len() {
        law_growth_without_promotion(path, level + 1, added);
    }
}

/// Capacity rejection. With `free` bytes behind the document and an element
/// that makes the document grow by more, the append fails with the number of
/// bytes that are missing; with at least as many bytes free it does not fail
/// for want of room.
pub proof fn law_capacity_rejection(
    path: Seq<Frame>,
    free: int,
    key: KeyModel,
    value: ValueModel,
    failure: Option<AddValueError>,
)
    requires
        planned(path, free, key, value, failure),
        0 <= free,
    ensures
        ({
            let needed = growth(path, 0, (key_size(key) + value_size(value)) as int);
            &&& needed > free <==> (failure matches Some(AddValueError::SmallBuffer(_)))
            &&& (failure matches Some(AddValueError::SmallBuffer(e)) ==> needed <= usize::MAX
                ==> e.required_extra == needed - free)
            &&& (failure matches Some(AddValueError::LongKey)) <==> needed <= free
                && !key_writable(key)
            &&& failure is None <==> needed <= free && key_writable(key)
        }),
{
}

} // verus!
