//! Appending an element to a document: the checks that stand before it,
//! writing the key and the value behind the last byte in use, and what the
//! document is afterwards.

use crate::document::{
    doc_end, doc_wf, frame_bytes, frame_entries, grow_path, growing, growth, header_shift, kinds,
    lemma_doc_kept, lemma_doc_prefix, lemma_doc_push, lemma_growth_bounds, plan_growth, promoted,
    slot_ok, Frame,
};
use crate::endian::be_write_i32;
use crate::error::{AddValueError, SmallBufferError};
use crate::format::{
    canonical, container_value, decode_container, decode_entry, header_bytes, header_size,
    is_container, key_bytes, key_kind, key_size, key_writable, representable, value_bytes,
    value_size, value_type, ContainerModel, KeyModel, ValueModel,
};
use crate::lemmas::{
    lemma_decode_container_bounds, lemma_entry_round_trip, lemma_key_round_trip,
    lemma_value_round_trip,
};
use crate::raw_container::{Key, KeyType, RawContainer};
use crate::size::MAX_SIZE;
use crate::utils::copy_into;
use crate::value::Value;
use vstd::prelude::*;
use vstd::slice::slice_subrange;
use vstd::utf8::encode_utf8;

verus! {

/// The error of a result, if it is one.
pub open spec fn failure<T>(r: Result<T, AddValueError>) -> Option<AddValueError> {
    match r {
        Ok(_) => None,
        Err(e) => Some(e),
    }
}

/// The outcome of the checks that stand before an append to a container to
/// which elements can be appended: no failure exactly if the buffer has room
/// for the element and for the headers that grow, and the key can be written.
/// The buffer is looked at first, the key after it. The error for a buffer
/// that is too small says how many bytes are missing.
pub open spec fn planned(
    path: Seq<Frame>,
    free: int,
    key: KeyModel,
    value: ValueModel,
    failure: Option<AddValueError>,
) -> bool {
    let needed = growth(path, 0, (key_size(key) + value_size(value)) as int);
    match failure {
        None => needed <= free && key_writable(key),
        Some(AddValueError::SmallBuffer(e)) => needed > free && e.required_extra == (if needed
            <= usize::MAX {
            needed
        } else {
            usize::MAX as int
        }) - free,
        Some(AddValueError::LongKey) => needed <= free && !key_writable(key),
        Some(AddValueError::ReadOnly) => false,
    }
}

/// What the bytes of the container at level `i` of a path decode to: its
/// declared length, its declared count and its elements.
pub open spec fn level(buf: Seq<u8>, path: Seq<Frame>, i: int) -> ContainerModel {
    decode_container(frame_bytes(buf, path, i), path[i].key_type).unwrap()
}

/// What a successful append does to a document with the buffer `before` and
/// the path `path`, whose last container is the one appended to.
///
/// Every container of the path is as long as before and its growth: the
/// bytes of the element and three bytes for every size field, its own or on
/// the path below it, that has left the one-byte form. Only the container
/// appended to has one element more. Its bytes are the header with the new
/// length and count, the elements it had, byte for byte, and the key and the
/// value; where its header has grown, the elements stand that many bytes
/// further up. A size field that was in the four-byte form stays in it.
#[verifier::opaque]
pub open spec fn extended(
    before: Seq<u8>,
    path: Seq<Frame>,
    after: Seq<u8>,
    new_path: Seq<Frame>,
    key: KeyModel,
    value: ValueModel,
) -> bool {
    let last = path.len() - 1;
    let added = (key_size(key) + value_size(value)) as int;
    let old_last = level(before, path, last);
    let new_last = level(after, new_path, last);
    let shift = header_shift(old_last.len, old_last.count, added, 1);
    &&& new_path.len() == path.len()
    &&& after.len() == before.len()
    &&& doc_wf(after, new_path)
    &&& doc_end(new_path) == doc_end(path) + growth(path, 0, added)
    &&& forall|i: int|
        #![trigger level(after, new_path, i)]
        0 <= i <= last ==> {
            &&& new_path[i].key_type == path[i].key_type
            &&& is_container(frame_bytes(after, new_path, i), path[i].key_type)
            &&& level(after, new_path, i).len.spec_value() == level(
                before,
                path,
                i,
            ).len.spec_value() + growth(path, i, added)
            &&& level(after, new_path, i).count.spec_value() == level(
                before,
                path,
                i,
            ).count.spec_value() + (if i == last {
                1int
            } else {
                0int
            })
        }
    &&& new_last.len == promoted(old_last.len, old_last.len.spec_value() + added + shift)
    &&& new_last.count == promoted(old_last.count, old_last.count.spec_value() + 1)
    &&& header_size(new_last.len, new_last.count) == header_size(old_last.len, old_last.count)
        + shift
    &&& new_last.entries == old_last.entries.push((key, canonical(value)))
    &&& frame_bytes(after, new_path, last) == header_bytes(
        path[last].key_type,
        new_last.len,
        new_last.count,
    ) + frame_bytes(before, path, last).skip(header_size(old_last.len, old_last.count) as int)
        + (key_bytes(key) + value_bytes(value))
}

/// What a successful append does to a document: the new element stands
/// behind the elements that the innermost container of the path had, every
/// container of the path has grown by its growth, only the innermost has one
/// element more, and the elements of the innermost are those of before and
/// the new one.
pub open spec fn appended(
    before: Seq<u8>,
    path: Seq<Frame>,
    after: Seq<u8>,
    new_path: Seq<Frame>,
    key: KeyModel,
    value: ValueModel,
) -> bool {
    let added = (key_size(key) + value_size(value)) as int;
    &&& after.len() == before.len()
    &&& doc_wf(after, new_path)
    &&& growing(
        after,
        new_path,
        path,
        0,
        added,
        doc_end(new_path),
        before.subrange(path[path.len() - 1].body_start(), doc_end(path)),
        key_bytes(key) + value_bytes(value),
        frame_entries(before, path, path.len() - 1, doc_end(path)).push((key, canonical(value))),
    )
}

/// The frame of a container that has just been appended as the last element
/// of the innermost container of the path.
pub open spec fn child_frame(
    grown: Seq<Frame>,
    key: KeyModel,
    key_type: KeyType,
    bytes: Seq<u8>,
) -> Frame {
    Frame {
        start: (doc_end(grown) - bytes.len()) as usize,
        key_start: (doc_end(grown) - bytes.len() - key_size(key)) as usize,
        len: decode_container(bytes, key_type).unwrap().len,
        count: decode_container(bytes, key_type).unwrap().count,
        key_type,
    }
}

/// What is appended as the value of an element: a value, or a container
/// whose bytes are copied.
enum Item<'v, 'c> {
    Plain(&'v Value<'c>),
    Raw(&'v RawContainer<'c>),
}

impl<'v, 'c> View for Item<'v, 'c> {
    type V = ValueModel;

    closed spec fn view(&self) -> ValueModel {
        match self {
            Item::Plain(value) => value@,
            Item::Raw(container) => container_value(container.key_type(), container.bytes()),
        }
    }
}

impl<'v, 'c> Item<'v, 'c> {
    closed spec fn wf(&self) -> bool {
        match self {
            Item::Plain(value) => value.wf(),
            Item::Raw(container) => container.wf(),
        }
    }

    closed spec fn encodable(&self) -> bool {
        match self {
            Item::Plain(value) => value.encodable(),
            Item::Raw(container) => true,
        }
    }

    /// Returns how many bytes the item takes, or `None` if the number does
    /// not fit `usize`.
    fn checked_size(&self) -> (r: Option<usize>)
        requires
            self.wf(),
        ensures
            value_size(self@) <= usize::MAX ==> r == Some(value_size(self@) as usize),
            value_size(self@) > usize::MAX ==> r is None,
            value_size(self@) <= MAX_SIZE ==> self.encodable() && representable(self@),
    {
        match self {
            Item::Plain(value) => value.checked_size(),
            Item::Raw(container) => {
                proof {
                    container.lemma_wf();
                }
                Some(container.as_bytes().len())
            },
        }
    }

    /// Writes the item at the start of `buf` and returns the part of `buf`
    /// behind it.
    fn write<'b>(&self, buf: &'b mut [u8]) -> (rest: &'b mut [u8])
        requires
            self.wf(),
            self.encodable(),
            old(buf)@.len() >= value_size(self@),
        ensures
            rest@ == old(buf)@.skip(value_size(self@) as int),
            final(buf)@ == value_bytes(self@) + final(rest)@,
    {
        match self {
            Item::Plain(value) => {
                match value.write(buf) {
                    Ok((rest, _)) => rest,
                    // The buffer is long enough, so the write succeeds.
                    Err(_) => {
                        let empty: &mut [u8] = &mut [];
                        empty
                    },
                }
            },
            Item::Raw(container) => copy_into(buf, container.as_bytes()),
        }
    }
}

/// Writes a key at the start of `buf` and returns the part of `buf` behind
/// it: nothing for a list, four big-endian bytes for a map, a length byte
/// and the UTF-8 bytes for an object.
fn write_key<'b>(buf: &'b mut [u8], key: &Key<'_>) -> (rest: &'b mut [u8])
    requires
        key_writable(key@),
        old(buf)@.len() >= key_size(key@),
    ensures
        rest@ == old(buf)@.skip(key_size(key@) as int),
        final(buf)@ == key_bytes(key@) + final(rest)@,
{
    match key {
        Key::Empty => {
            assert(key_bytes(key@) + buf@ == buf@);
            buf
        },
        Key::Num(num) => {
            let (head, rest) = buf.split_at_mut(4);
            be_write_i32(head, *num);
            assert(head@ == key_bytes(key@));
            rest
        },
        Key::Str(text) => {
            let bytes = text.as_bytes();
            let (head, rest) = buf.split_at_mut(1);
            head[0] = bytes.len() as u8;
            assert(head@ == seq![encode_utf8(text@).len() as u8]);
            let rest = copy_into(rest, bytes);
            rest
        },
    }
}

/// Writes an element at `end`: the key, and behind it the value.
fn write_element(buf: &mut [u8], end: usize, key: &Key<'_>, value: &Item<'_, '_>)
    requires
        key_writable(key@),
        value.wf(),
        value.encodable(),
        representable(value@),
        end + key_size(key@) + value_size(value@) <= old(buf)@.len(),
    ensures
        final(buf)@.len() == old(buf)@.len(),
        forall|p: int| 0 <= p < end ==> final(buf)@[p] == old(buf)@[p],
        final(buf)@.subrange(end as int, end + key_size(key@) + value_size(value@)) == key_bytes(
            key@,
        ) + value_bytes(value@),
{
    let ghost whole = final(buf)@;
    let ghost before = buf@;
    proof {
        lemma_key_round_trip(key@, Seq::<u8>::empty());
        lemma_value_round_trip(value@, Seq::<u8>::empty());
    }
    let (head, tail) = buf.split_at_mut(end);
    let rest = write_key(tail, key);
    let rest = value.write(rest);
    proof {
        let kb = key_bytes(key@);
        let vb = value_bytes(value@);
        let after = head@ + (kb + (vb + rest@));
        assert(whole =~= after);
        assert(after.subrange(end as int, end + kb.len() + vb.len()) =~= kb + vb);
        assert forall|p: int| 0 <= p < end implies after[p] == before[p] by {
            assert(head@[p] == before[p]);
        }
    }
}

/// Checks whether an element fits into `free` bytes behind the document,
/// headers that grow included, and whether its key can be written.
fn check_available_size(frames: &Vec<Frame>, free: usize, key: &Key<'_>, value: &Item<'_, '_>) -> (r: Result<
    usize,
    AddValueError,
>)
    requires
        frames@.len() >= 1,
        forall|j: int|
            0 <= j < frames@.len() ==> (#[trigger] frames@[j]).len.wf() && frames@[j].count.wf(),
        value.wf(),
        free <= MAX_SIZE,
    ensures
        planned(frames@, free as int, key@, value@, failure(r)),
        r matches Ok(added) ==> added == key_size(key@) + value_size(value@) && value.encodable()
            && representable(value@),
{
    let key_len: Option<usize> = match key {
        Key::Empty => Some(0),
        Key::Num(_) => Some(4),
        Key::Str(text) => text.as_bytes().len().checked_add(1),
    };
    let value_len = value.checked_size();
    let added: Option<usize> = match (key_len, value_len) {
        (Some(k), Some(v)) => k.checked_add(v),
        _ => None,
    };
    let ghost total = (key_size(key@) + value_size(value@)) as int;
    proof {
        lemma_growth_bounds(frames@, 0, total);
    }
    let needed = match added {
        Some(added) => plan_growth(frames, added),
        None => usize::MAX,
    };
    if needed > free {
        return Err(
            AddValueError::SmallBuffer(SmallBufferError { required_extra: needed - free }),
        );
    }
    let added = match added {
        Some(added) => added,
        None => {
            return Err(AddValueError::LongKey);
        },
    };
    if let Key::Str(text) = key {
        if text.as_bytes().len() > 255 {
            return Err(AddValueError::LongKey);
        }
    }
    Ok(added)
}

/// An element written behind the document leaves the document as it was and
/// decodes to its key and its value.
proof fn lemma_element_written(
    before: Seq<u8>,
    after: Seq<u8>,
    path: Seq<Frame>,
    key: KeyModel,
    value: ValueModel,
)
    requires
        doc_wf(before, path),
        after.len() == before.len(),
        key_writable(key),
        representable(value),
        doc_end(path) + key_size(key) + value_size(value) <= before.len(),
        forall|p: int| 0 <= p < doc_end(path) ==> after[p] == before[p],
        after.subrange(doc_end(path), doc_end(path) + key_size(key) + value_size(value))
            == key_bytes(key) + value_bytes(value),
    ensures
        doc_wf(after, path),
        decode_entry(
            after.subrange(doc_end(path), doc_end(path) + key_size(key) + value_size(value)),
            key_kind(key),
        ) == Some(((key, canonical(value)), key_size(key) + value_size(value))),
        frame_entries(after, path, path.len() - 1, doc_end(path)) == frame_entries(
            before,
            path,
            path.len() - 1,
            doc_end(path),
        ),
        after.subrange(path[path.len() - 1].body_start(), doc_end(path)) == before.subrange(
            path[path.len() - 1].body_start(),
            doc_end(path),
        ),
{
    let end = doc_end(path);
    lemma_entry_round_trip(key, value, Seq::<u8>::empty());
    assert(key_bytes(key) + value_bytes(value) + Seq::<u8>::empty() =~= key_bytes(key)
        + value_bytes(value));
    lemma_doc_kept(before, after, path);
    assert(slot_ok(before, path, path.len() - 1, 0, end, end));
    assert(after.subrange(path[path.len() - 1].body_start(), end) =~= before.subrange(
        path[path.len() - 1].body_start(),
        end,
    ));
}

/// After an append the key and the value stand at the end of the document.
proof fn lemma_appended_element(
    before: Seq<u8>,
    path: Seq<Frame>,
    now: Seq<u8>,
    grown: Seq<Frame>,
    key: KeyModel,
    value: ValueModel,
)
    requires
        key_writable(key),
        representable(value),
        appended(before, path, now, grown, key, value),
    ensures
        key_bytes(key).len() == key_size(key),
        value_bytes(value).len() == value_size(value),
        key_size(key) + value_size(value) <= doc_end(grown) <= now.len(),
        now.subrange(doc_end(grown) - value_size(value), doc_end(grown)) == value_bytes(value),
        now.subrange(
            doc_end(grown) - value_size(value) - key_size(key),
            doc_end(grown) - value_size(value),
        ) == key_bytes(key),
{
    let end = doc_end(grown);
    assert(slot_ok(now, grown, 0, 0, end, end));
    lemma_key_round_trip(key, Seq::<u8>::empty());
    lemma_value_round_trip(value, Seq::<u8>::empty());
    let kb = key_bytes(key);
    let vb = value_bytes(value);
    let element = now.subrange(end - kb.len() - vb.len(), end);
    assert(element == kb + vb);
    assert(now.subrange(end - vb.len(), end) =~= element.subrange(
        kb.len() as int,
        element.len() as int,
    ));
    assert(element.subrange(kb.len() as int, element.len() as int) =~= vb);
    assert(now.subrange(end - vb.len() - kb.len(), end - vb.len()) =~= element.subrange(
        0,
        kb.len() as int,
    ));
    assert(element.subrange(0, kb.len() as int) =~= kb);
}

/// After an append the container appended to has the elements it had and,
/// behind them, the new one.
pub proof fn lemma_appended_entries(
    before: Seq<u8>,
    path: Seq<Frame>,
    after: Seq<u8>,
    new_path: Seq<Frame>,
    key: KeyModel,
    value: ValueModel,
)
    requires
        doc_wf(before, path),
        appended(before, path, after, new_path, key, value),
    ensures
        new_path.len() == path.len(),
        new_path[path.len() - 1].key_type == path[path.len() - 1].key_type,
        decode_container(
            frame_bytes(after, new_path, path.len() - 1),
            path[path.len() - 1].key_type,
        ).unwrap().entries == decode_container(
            frame_bytes(before, path, path.len() - 1),
            path[path.len() - 1].key_type,
        ).unwrap().entries.push((key, canonical(value))),
{
    let last = path.len() - 1;
    lemma_doc_prefix(before, path, last);
    lemma_doc_prefix(after, new_path, last);
    assert(path.take(last + 1) =~= path);
    assert(new_path.take(last + 1) =~= new_path);
}

/// The bytes of the container appended to are its new header, the elements
/// it had and the new element.
proof fn lemma_appended_layout(
    before: Seq<u8>,
    path: Seq<Frame>,
    after: Seq<u8>,
    new_path: Seq<Frame>,
    key: KeyModel,
    value: ValueModel,
)
    requires
        doc_wf(before, path),
        appended(before, path, after, new_path, key, value),
    ensures
        new_path.len() == path.len(),
        ({
            let last = path.len() - 1;
            let f = path[last];
            let g = new_path[last];
            let added = key_size(key) + value_size(value);
            let shift = header_shift(f.len, f.count, added as int, 1);
            &&& g.key_type == f.key_type
            &&& g.len == promoted(f.len, f.len.spec_value() + added + shift)
            &&& g.count == promoted(f.count, f.count.spec_value() + 1)
            &&& header_size(g.len, g.count) == header_size(f.len, f.count) + shift
            &&& frame_bytes(after, new_path, last) == header_bytes(f.key_type, g.len, g.count)
                + frame_bytes(before, path, last).skip(header_size(f.len, f.count) as int)
                + (key_bytes(key) + value_bytes(value))
        }),
{
    let last = path.len() - 1;
    let f = path[last];
    let g = new_path[last];
    let added = (key_size(key) + value_size(value)) as int;
    let end = doc_end(path);
    let new_end = doc_end(new_path);
    assert(slot_ok(before, path, last, 0, end, end));
    assert(slot_ok(after, new_path, last, 0, new_end, new_end));
    assert(slot_ok(after, new_path, 0, 0, new_end, new_end));
    let body = before.subrange(f.body_start(), end);
    assert(frame_bytes(before, path, last).skip(header_size(f.len, f.count) as int) =~= body);
    let header = after.subrange(g.start as int, g.body_start());
    let moved = after.subrange(g.body_start(), new_end - added);
    let element = after.subrange(new_end - added, new_end);
    assert(frame_bytes(after, new_path, last) =~= header + moved + element);
}

/// What the bytes of a container on the path declare after an append.
proof fn lemma_appended_level(
    before: Seq<u8>,
    path: Seq<Frame>,
    after: Seq<u8>,
    new_path: Seq<Frame>,
    key: KeyModel,
    value: ValueModel,
    i: int,
)
    requires
        doc_wf(before, path),
        appended(before, path, after, new_path, key, value),
        0 <= i < path.len(),
    ensures
        new_path[i].key_type == path[i].key_type,
        is_container(frame_bytes(after, new_path, i), path[i].key_type),
        level(before, path, i).len == path[i].len,
        level(before, path, i).count == path[i].count,
        level(after, new_path, i).len == new_path[i].len,
        level(after, new_path, i).count == new_path[i].count,
        level(after, new_path, i).len.spec_value() == level(before, path, i).len.spec_value()
            + growth(path, i, (key_size(key) + value_size(value)) as int),
        level(after, new_path, i).count.spec_value() == level(
            before,
            path,
            i,
        ).count.spec_value() + (if i == path.len() - 1 {
            1int
        } else {
            0int
        }),
{
    lemma_doc_prefix(before, path, i);
    lemma_doc_prefix(after, new_path, i);
    assert(new_path[i].key_type == path[i].key_type);
}

/// An append leaves every container of the path of its kind.
pub proof fn lemma_extended_kinds(
    before: Seq<u8>,
    path: Seq<Frame>,
    after: Seq<u8>,
    new_path: Seq<Frame>,
    key: KeyModel,
    value: ValueModel,
)
    requires
        extended(before, path, after, new_path, key, value),
    ensures
        kinds(new_path) == kinds(path),
{
    reveal(extended);
    assert forall|i: int| 0 <= i < path.len() implies new_path[i].key_type == path[i].key_type by {
        let l = level(after, new_path, i);
    }
    assert(kinds(new_path) =~= kinds(path));
}

/// A successful append extends the document.
pub proof fn lemma_extended(
    before: Seq<u8>,
    path: Seq<Frame>,
    after: Seq<u8>,
    new_path: Seq<Frame>,
    key: KeyModel,
    value: ValueModel,
)
    requires
        doc_wf(before, path),
        appended(before, path, after, new_path, key, value),
    ensures
        extended(before, path, after, new_path, key, value),
{
    reveal(extended);
    let last = path.len() - 1;
    lemma_appended_layout(before, path, after, new_path, key, value);
    lemma_appended_entries(before, path, after, new_path, key, value);
    lemma_appended_level(before, path, after, new_path, key, value, last);
    assert forall|i: int| #![trigger level(after, new_path, i)] 0 <= i <= last implies {
        &&& new_path[i].key_type == path[i].key_type
        &&& is_container(frame_bytes(after, new_path, i), path[i].key_type)
        &&& level(after, new_path, i).len.spec_value() == level(before, path, i).len.spec_value()
            + growth(path, i, (key_size(key) + value_size(value)) as int)
        &&& level(after, new_path, i).count.spec_value() == level(
            before,
            path,
            i,
        ).count.spec_value() + (if i == last {
            1int
        } else {
            0int
        })
    } by {
        lemma_appended_level(before, path, after, new_path, key, value, i);
    }
}

/// A container that has just been appended can be opened: the path with its
/// frame describes the document, and the bytes of the frame are those of the
/// container.
#[verifier::rlimit(20)]
proof fn lemma_child_frame(
    before: Seq<u8>,
    path: Seq<Frame>,
    now: Seq<u8>,
    grown: Seq<Frame>,
    key: KeyModel,
    key_type: KeyType,
    bytes: Seq<u8>,
)
    requires
        doc_wf(before, path),
        key_writable(key),
        key_kind(key) == path[path.len() - 1].key_type,
        is_container(bytes, key_type),
        appended(before, path, now, grown, key, container_value(key_type, bytes)),
    ensures
        key_size(key) + bytes.len() <= doc_end(grown) <= now.len(),
        value_size(container_value(key_type, bytes)) == bytes.len(),
        doc_wf(now, grown.push(child_frame(grown, key, key_type, bytes))),
        grown.push(child_frame(grown, key, key_type, bytes)).take(grown.len() as int) == grown,
        frame_bytes(
            now,
            grown.push(child_frame(grown, key, key_type, bytes)),
            grown.len() as int,
        ) == bytes,
{
    let n = grown.len() as int;
    let end = doc_end(grown);
    let child = child_frame(grown, key, key_type, bytes);
    let value = container_value(key_type, bytes);
    lemma_decode_container_bounds(bytes, key_type);
    assert(representable(value));
    lemma_appended_element(before, path, now, grown, key, value);
    lemma_key_round_trip(key, Seq::<u8>::empty());
    assert(key_bytes(key) + Seq::<u8>::empty() =~= key_bytes(key));
    assert(slot_ok(now, grown, n - 1, 0, end, end));
    assert(slot_ok(before, path, path.len() - 1, 0, doc_end(path), doc_end(path)));
    lemma_doc_push(now, grown, child);
    assert(grown.push(child).take(n) =~= grown);
}

/// Appends an element to the container at `depth` on the path and grows
/// every container above it. Containers that were open below `depth` are
/// closed first.
#[verifier::rlimit(30)]
fn append_element(
    buf: &mut [u8],
    frames: &mut Vec<Frame>,
    depth: usize,
    key: &Key<'_>,
    value: &Item<'_, '_>,
) -> (r: Result<usize, AddValueError>)
    requires
        doc_wf(old(buf)@, old(frames)@),
        depth < old(frames)@.len(),
        key_kind(key@) == old(frames)@[depth as int].key_type,
        value.wf(),
    ensures
        final(buf)@.len() == old(buf)@.len(),
        final(frames)@.len() == depth + 1,
        planned(
            old(frames)@.take(depth + 1),
            old(buf)@.len() - doc_end(old(frames)@),
            key@,
            value@,
            failure(r),
        ),
        r matches Ok(added) ==> added == key_size(key@) + value_size(value@),
        r is Ok ==> representable(value@) && appended(
            old(buf)@,
            old(frames)@.take(depth + 1),
            final(buf)@,
            final(frames)@,
            key@,
            value@,
        ),
        r is Err ==> final(buf)@ == old(buf)@ && final(frames)@ == old(frames)@.take(depth + 1),
{
    let ghost before = buf@;
    let ghost long_path = frames@;
    proof {
        lemma_doc_prefix(before, long_path, depth as int);
    }
    if frames.len() - 1 > depth {
        frames.truncate(depth + 1);
    }
    let ghost path = frames@;
    assert(path == long_path.take(depth + 1));
    proof {
        assert(slot_ok(before, path, 0, 0, doc_end(path), doc_end(path)));
        assert forall|j: int| 0 <= j < path.len() implies (#[trigger] path[j]).len.wf()
            && path[j].count.wf() by {
            assert(slot_ok(before, path, j, 0, doc_end(path), doc_end(path)));
        }
    }
    let end = frames[0].len.value();
    let free = buf.len() - end;
    let added = match check_available_size(frames, free, key, value) {
        Ok(added) => added,
        Err(e) => {
            return Err(e);
        },
    };
    proof {
        lemma_growth_bounds(path, 0, added as int);
    }
    write_element(buf, end, key, value);
    proof {
        lemma_element_written(before, buf@, path, key@, value@);
    }
    grow_path(buf, frames, added);
    Ok(added)
}

/// Appends a value that is no container as a new element of the container
/// at `depth`. Returns the bytes of the value as they stand in the buffer.
#[verifier::rlimit(30)]
pub(crate) fn append_plain<'b>(
    buf: &'b mut [u8],
    frames: &mut Vec<Frame>,
    depth: usize,
    key: &Key<'_>,
    value: &Value<'_>,
) -> (r: Result<&'b [u8], AddValueError>)
    requires
        doc_wf(old(buf)@, old(frames)@),
        depth < old(frames)@.len(),
        key_kind(key@) == old(frames)@[depth as int].key_type,
        !(value_type(value@).0 is Container),
    ensures
        final(buf)@.len() == old(buf)@.len(),
        final(frames)@.len() == depth + 1,
        doc_wf(final(buf)@, final(frames)@),
        final(frames)@[depth as int].key_type == old(frames)@[depth as int].key_type,
        planned(
            old(frames)@.take(depth + 1),
            old(buf)@.len() - doc_end(old(frames)@),
            key@,
            value@,
            failure(r),
        ),
        r is Err ==> final(buf)@ == old(buf)@ && final(frames)@ == old(frames)@.take(depth + 1),
        r matches Ok(region) ==> {
            &&& value.encodable()
            &&& region@ == value_bytes(value@)
            &&& extended(
                old(buf)@,
                old(frames)@.take(depth + 1),
                final(buf)@,
                final(frames)@,
                key@,
                value@,
            )
            &&& level(final(buf)@, final(frames)@, depth as int).entries == level(
                old(buf)@,
                old(frames)@.take(depth + 1),
                depth as int,
            ).entries.push((key@, canonical(value@)))
            &&& kinds(final(frames)@) == kinds(old(frames)@.take(depth + 1))
        },
{
    let ghost before = buf@;
    proof {
        lemma_doc_prefix(before, frames@, depth as int);
    }
    let item = Item::Plain(value);
    let added = match append_element(buf, frames, depth, key, &item) {
        Ok(added) => added,
        Err(e) => {
            return Err(e);
        },
    };
    proof {
        lemma_appended_element(
            before,
            old(frames)@.take(depth + 1),
            buf@,
            frames@,
            key@,
            value@,
        );
        lemma_extended(before, old(frames)@.take(depth + 1), buf@, frames@, key@, value@);
        lemma_extended_kinds(before, old(frames)@.take(depth + 1), buf@, frames@, key@, value@);
        lemma_appended_entries(
            before,
            old(frames)@.take(depth + 1),
            buf@,
            frames@,
            key@,
            value@,
        );
    }
    let end = frames[0].len.value();
    let value_len = value.total_size();
    let region = slice_subrange(buf, end - value_len, end);
    Ok(region)
}

/// Appends a container as a new element of the container at `depth` and
/// opens it: its frame becomes the last of the path.
#[verifier::rlimit(30)]
pub(crate) fn append_container(
    buf: &mut [u8],
    frames: &mut Vec<Frame>,
    depth: usize,
    key: &Key<'_>,
    container: &RawContainer<'_>,
) -> (r: Result<usize, AddValueError>)
    requires
        doc_wf(old(buf)@, old(frames)@),
        depth < old(frames)@.len(),
        key_kind(key@) == old(frames)@[depth as int].key_type,
        container.wf(),
    ensures
        final(buf)@.len() == old(buf)@.len(),
        planned(
            old(frames)@.take(depth + 1),
            old(buf)@.len() - doc_end(old(frames)@),
            key@,
            container_value(container.key_type(), container.bytes()),
            failure(r),
        ),
        r matches Ok(added) ==> added == key_size(key@) + container.bytes().len(),
        r is Err ==> final(buf)@ == old(buf)@ && final(frames)@ == old(frames)@.take(depth + 1)
            && doc_wf(final(buf)@, final(frames)@),
        r is Ok ==> {
            &&& doc_wf(final(buf)@, final(frames)@)
            &&& final(frames)@.len() == depth + 2
            &&& final(frames)@[depth + 1].key_type == container.key_type()
            &&& frame_bytes(final(buf)@, final(frames)@, depth + 1) == container.bytes()
            &&& kinds(final(frames)@) == kinds(old(frames)@.take(depth + 1)).push(
                container.key_type(),
            )
            &&& extended(
                old(buf)@,
                old(frames)@.take(depth + 1),
                final(buf)@,
                final(frames)@.take(depth + 1),
                key@,
                container_value(container.key_type(), container.bytes()),
            )
        },
{
    let ghost before = buf@;
    let ghost path = frames@.take(depth + 1);
    proof {
        lemma_doc_prefix(before, frames@, depth as int);
        container.lemma_wf();
    }
    let item = Item::Raw(container);
    let added = match append_element(buf, frames, depth, key, &item) {
        Ok(added) => added,
        Err(e) => {
            return Err(e);
        },
    };
    let (bytes, len, count) = container.parts();
    proof {
        lemma_child_frame(
            before,
            path,
            buf@,
            frames@,
            key@,
            container.key_type(),
            container.bytes(),
        );
        lemma_extended(
            before,
            path,
            buf@,
            frames@,
            key@,
            container_value(container.key_type(), container.bytes()),
        );
        lemma_extended_kinds(
            before,
            path,
            buf@,
            frames@,
            key@,
            container_value(container.key_type(), container.bytes()),
        );
        let child = child_frame(frames@, key@, container.key_type(), container.bytes());
        assert(kinds(frames@.push(child)) =~= kinds(path).push(container.key_type()));
    }
    let end = frames[0].len.value();
    let child = Frame {
        start: end - bytes.len(),
        key_start: end - added,
        len,
        count,
        key_type: container.kind(),
    };
    frames.push(child);
    Ok(added)
}

} // verus!
