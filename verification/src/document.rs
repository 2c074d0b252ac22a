//! A document under construction: one buffer and the path of containers that
//! are open in it, each the last element of the one before.
//!
//! Appending writes the new element behind the last byte in use, then grows
//! every container on the path from the innermost to the outermost. A header
//! whose size field outgrows its one-byte form takes three bytes more, and
//! the bytes behind that header move up by three.

use crate::error::DeserializeError;
use crate::format::{
    container_tag, container_value, decode_container, decode_entries, decode_entry, decode_header,
    decode_key, header_bytes, header_size, is_container, ContainerModel, KeyModel, ValueModel,
};
use crate::lemmas::{
    lemma_container_value_round_trip, lemma_decode_container_bounds, lemma_decode_entries_concat,
    lemma_decode_entries_len, lemma_decode_entries_single, lemma_decode_header_bounds,
    lemma_decode_key_window,
};
use crate::raw_container::KeyType;
use crate::size::{MAX_SIZE, Size};
use vstd::prelude::*;

verus! {

/// One open container: where its encoding starts in the buffer, where the
/// key in front of it starts, and its header.
#[derive(Clone, Copy, Debug, PartialEq, Eq)]
pub struct Frame {
    /// Where the tag of the container stands in the buffer.
    pub start: usize,
    /// Where the key in front of the container stands; `start` for the
    /// outermost container and in a list.
    pub key_start: usize,
    /// The declared length of the container, header included.
    pub len: Size,
    /// The declared number of elements.
    pub count: Size,
    /// The kind of key that the elements have.
    pub key_type: KeyType,
}

impl Frame {
    /// Where the elements of this container start.
    pub open spec fn body_start(self) -> int {
        self.start + header_size(self.len, self.count)
    }

    /// This frame, moved up by `by` bytes.
    pub open spec fn moved(self, by: int) -> Frame {
        Frame {
            start: (self.start + by) as usize,
            key_start: (self.key_start + by) as usize,
            len: self.len,
            count: self.count,
            key_type: self.key_type,
        }
    }
}

/// Whether a frame describes the container that stands at its place in
/// `buf` and ends at `end`. The header in `buf` is the frame's. If another
/// container is open in this one, the bytes between the header and that
/// container's key are all elements but the last, and the key is the last
/// element's. Otherwise the bytes between the header and `end` are all the
/// elements.
pub open spec fn frame_ok(buf: Seq<u8>, f: Frame, next: Option<Frame>, end: int) -> bool {
    &&& f.len.wf()
    &&& f.count.wf()
    &&& f.key_start <= f.start
    &&& f.start + f.len.spec_value() == end
    &&& header_size(f.len, f.count) <= f.len.spec_value()
    &&& end <= buf.len()
    &&& buf.subrange(f.start as int, f.body_start()) == header_bytes(f.key_type, f.len, f.count)
    &&& match next {
        Some(g) => {
            &&& f.body_start() <= g.key_start <= g.start < end
            &&& decode_entries(buf.subrange(f.body_start(), g.key_start as int), f.key_type)
                matches Some(es) && es.len() + 1 == f.count.spec_value()
            &&& decode_key(buf.subrange(g.key_start as int, g.start as int), f.key_type)
                matches Some((k, n)) && n == g.start - g.key_start
        },
        None => {
            decode_entries(buf.subrange(f.body_start(), end), f.key_type) matches Some(es)
                && es.len() == f.count.spec_value()
        },
    }
}

/// The frame behind frame `i` on the path, if there is one.
pub open spec fn next_frame(frames: Seq<Frame>, i: int) -> Option<Frame> {
    if i + 1 < frames.len() {
        Some(frames[i + 1])
    } else {
        None
    }
}

/// Whether frame `j` describes its container, which ends at `low` if `j` is
/// below `k` and at `high` otherwise.
pub open spec fn slot_ok(buf: Seq<u8>, frames: Seq<Frame>, j: int, k: int, low: int, high: int) -> bool {
    frame_ok(
        buf,
        frames[j],
        next_frame(frames, j),
        if j < k {
            low
        } else {
            high
        },
    )
}

/// Whether the frames below `k` describe containers that end at `low` and the
/// frames from `k` on containers that end at `high`.
pub open spec fn chain_ok(buf: Seq<u8>, frames: Seq<Frame>, k: int, low: int, high: int) -> bool {
    &&& frames.len() >= 1
    &&& frames[0].start == 0
    &&& frames[0].key_start == 0
    &&& buf.len() <= MAX_SIZE
    &&& forall|j: int| 0 <= j < frames.len() ==> #[trigger] slot_ok(buf, frames, j, k, low, high)
}

/// Whether the frames describe the document in `buf`: the first frame is the
/// outermost container at the start of the buffer, every other frame the
/// last element of the frame before it, and all end where the document ends.
pub open spec fn doc_wf(buf: Seq<u8>, frames: Seq<Frame>) -> bool {
    frames.len() >= 1 && chain_ok(
        buf,
        frames,
        0,
        frames[0].len.spec_value() as int,
        frames[0].len.spec_value() as int,
    )
}

/// The kinds of the containers of a path, from the outermost on.
pub open spec fn kinds(path: Seq<Frame>) -> Seq<KeyType> {
    Seq::new(path.len(), |i: int| path[i].key_type)
}

/// Where the document in `buf` ends.
pub open spec fn doc_end(frames: Seq<Frame>) -> int {
    frames[0].len.spec_value() as int
}

/// The bytes of the container of frame `i`.
pub open spec fn frame_bytes(buf: Seq<u8>, frames: Seq<Frame>, i: int) -> Seq<u8> {
    buf.subrange(frames[i].start as int, doc_end(frames))
}

/// The header bytes of a container stand at the start of its encoding
/// exactly if its header decodes to them.
pub proof fn lemma_header_of_bytes(bytes: Seq<u8>, key_type: KeyType, len: Size, count: Size)
    requires
        len.wf(),
        count.wf(),
        header_size(len, count) <= len.spec_value() <= bytes.len(),
        bytes.subrange(0, header_size(len, count) as int) == header_bytes(key_type, len, count),
    ensures
        decode_header(bytes, key_type) == Ok::<(Size, Size), DeserializeError>((len, count)),
{
    reveal(decode_header);
    let h = header_size(len, count) as int;
    let w = len.spec_size() as int;
    let hb = header_bytes(key_type, len, count);
    len.lemma_parse_bytes(count.spec_bytes());
    count.lemma_parse_bytes(Seq::<u8>::empty());
    assert(bytes[0] == bytes.subrange(0, h)[0]);
    assert(hb[0] == container_tag(key_type));
    let a = len.spec_bytes() + count.spec_bytes();
    assert(hb.skip(1) =~= a);
    assert(bytes.skip(1).subrange(0, w) =~= bytes.subrange(0, h).subrange(1, 1 + w));
    assert(a.subrange(0, w) =~= len.spec_bytes());
    assert(hb.subrange(1, 1 + w) =~= len.spec_bytes());
    Size::lemma_parse_prefix(a, bytes.skip(1));
    let c = count.spec_bytes() + Seq::<u8>::empty();
    assert(c =~= count.spec_bytes());
    let v = count.spec_size() as int;
    assert(bytes.skip(1 + w).subrange(0, v) =~= bytes.subrange(0, h).subrange(1 + w, h));
    assert(hb.subrange(1 + w, h) =~= count.spec_bytes());
    assert(c.subrange(0, v) =~= count.spec_bytes());
    Size::lemma_parse_prefix(c, bytes.skip(1 + w));
}

/// The elements of the container of a frame: those in front of the container
/// that is open in it, and that container as the last.
pub open spec fn entries_of(buf: Seq<u8>, f: Frame, next: Option<Frame>, end: int) -> Seq<
    (KeyModel, ValueModel),
> {
    match next {
        None => decode_entries(buf.subrange(f.body_start(), end), f.key_type).unwrap(),
        Some(g) => decode_entries(
            buf.subrange(f.body_start(), g.key_start as int),
            f.key_type,
        ).unwrap().push(
            (
                decode_key(buf.subrange(g.key_start as int, g.start as int), f.key_type).unwrap().0,
                container_value(g.key_type, buf.subrange(g.start as int, end)),
            ),
        ),
    }
}

/// The elements of the container of frame `i`.
pub open spec fn frame_entries(buf: Seq<u8>, frames: Seq<Frame>, i: int, end: int) -> Seq<
    (KeyModel, ValueModel),
> {
    entries_of(buf, frames[i], next_frame(frames, i), end)
}

/// A key and the encoding of a container behind it are one element.
proof fn lemma_entry_of_container(
    key_bytes: Seq<u8>,
    child: Seq<u8>,
    key_type: KeyType,
    child_type: KeyType,
)
    requires
        decode_key(key_bytes, key_type) is Some,
        decode_key(key_bytes, key_type).unwrap().1 == key_bytes.len(),
        is_container(child, child_type),
    ensures
        decode_entries(key_bytes + child, key_type) == Some(
            seq![
                (
                    decode_key(key_bytes, key_type).unwrap().0,
                    container_value(child_type, child),
                ),
            ],
        ),
{
    let el = key_bytes + child;
    let n = key_bytes.len() as int;
    assert(el.subrange(0, n) =~= key_bytes);
    assert(key_bytes.subrange(0, n) =~= key_bytes);
    lemma_decode_key_window(key_bytes, el, key_type);
    assert(el.skip(n) =~= child);
    lemma_container_value_round_trip(child, child_type, Seq::<u8>::empty());
    assert(child + Seq::<u8>::empty() =~= child);
    lemma_decode_entries_single(el, key_type);
}

/// The bytes of a container decode to its header and its elements.
proof fn lemma_container_of_parts(
    bytes: Seq<u8>,
    key_type: KeyType,
    len: Size,
    count: Size,
    entries: Seq<(KeyModel, ValueModel)>,
)
    requires
        len.wf(),
        count.wf(),
        header_size(len, count) <= len.spec_value() == bytes.len(),
        bytes.subrange(0, header_size(len, count) as int) == header_bytes(key_type, len, count),
        decode_entries(bytes.subrange(header_size(len, count) as int, bytes.len() as int), key_type)
            == Some(entries),
        entries.len() == count.spec_value(),
    ensures
        decode_container(bytes, key_type) == Ok::<ContainerModel, DeserializeError>(
            ContainerModel { len, count, entries },
        ),
        is_container(bytes, key_type),
{
    lemma_header_of_bytes(bytes, key_type, len, count);
}

/// A frame without an open container describes a container whose bytes
/// decode to the frame's header and to its elements.
proof fn lemma_frame_step_last(buf: Seq<u8>, f: Frame, end: int)
    requires
        frame_ok(buf, f, None, end),
    ensures
        decode_container(buf.subrange(f.start as int, end), f.key_type) == Ok::<
            ContainerModel,
            DeserializeError,
        >(ContainerModel { len: f.len, count: f.count, entries: entries_of(buf, f, None, end) }),
        is_container(buf.subrange(f.start as int, end), f.key_type),
{
    let bytes = buf.subrange(f.start as int, end);
    let h = header_size(f.len, f.count) as int;
    assert(bytes.subrange(0, h) =~= buf.subrange(f.start as int, f.body_start()));
    let body = bytes.subrange(h, bytes.len() as int);
    assert(body =~= buf.subrange(f.body_start(), end));
    lemma_container_of_parts(bytes, f.key_type, f.len, f.count, entries_of(buf, f, None, end));
}

/// A frame whose open container is valid describes a container whose bytes
/// decode to the frame's header and to the elements that the path shows.
#[verifier::rlimit(20)]
proof fn lemma_frame_step_open(buf: Seq<u8>, f: Frame, g: Frame, end: int)
    requires
        frame_ok(buf, f, Some(g), end),
        is_container(buf.subrange(g.start as int, end), g.key_type),
    ensures
        decode_container(buf.subrange(f.start as int, end), f.key_type) == Ok::<
            ContainerModel,
            DeserializeError,
        >(ContainerModel { len: f.len, count: f.count, entries: entries_of(buf, f, Some(g), end) }),
        is_container(buf.subrange(f.start as int, end), f.key_type),
{
    let bytes = buf.subrange(f.start as int, end);
    let h = header_size(f.len, f.count) as int;
    assert(bytes.subrange(0, h) =~= buf.subrange(f.start as int, f.body_start()));
    let body = bytes.subrange(h, bytes.len() as int);
    assert(body =~= buf.subrange(f.body_start(), end));
    let pre = buf.subrange(f.body_start(), g.key_start as int);
    let kb = buf.subrange(g.key_start as int, g.start as int);
    let child = buf.subrange(g.start as int, end);
    lemma_entry_of_container(kb, child, f.key_type, g.key_type);
    lemma_decode_entries_concat(pre, kb + child, f.key_type);
    assert(body =~= pre + (kb + child));
    let es = decode_entries(pre, f.key_type).unwrap();
    let e = (decode_key(kb, f.key_type).unwrap().0, container_value(g.key_type, child));
    assert(es + seq![e] =~= es.push(e));
    lemma_container_of_parts(bytes, f.key_type, f.len, f.count, es.push(e));
}

/// A frame whose open container is valid describes a container whose bytes
/// decode to the frame's header and to the elements that the path shows.
proof fn lemma_frame_step(buf: Seq<u8>, f: Frame, next: Option<Frame>, end: int)
    requires
        frame_ok(buf, f, next, end),
        next matches Some(g) ==> is_container(buf.subrange(g.start as int, end), g.key_type),
    ensures
        decode_container(buf.subrange(f.start as int, end), f.key_type) == Ok::<
            ContainerModel,
            DeserializeError,
        >(ContainerModel { len: f.len, count: f.count, entries: entries_of(buf, f, next, end) }),
        is_container(buf.subrange(f.start as int, end), f.key_type),
{
    match next {
        None => {
            lemma_frame_step_last(buf, f, end);
        },
        Some(g) => {
            lemma_frame_step_open(buf, f, g, end);
        },
    }
}

/// Every frame from `i` on describes a container whose bytes decode to the
/// frame's header and to the elements that the path shows.
pub proof fn lemma_frame_container(buf: Seq<u8>, frames: Seq<Frame>, i: int, end: int)
    requires
        0 <= i < frames.len(),
        forall|j: int|
            i <= j < frames.len() ==> frame_ok(buf, #[trigger] frames[j], next_frame(frames, j), end),
    ensures
        decode_container(buf.subrange(frames[i].start as int, end), frames[i].key_type) == Ok::<
            ContainerModel,
            DeserializeError,
        >(
            ContainerModel {
                len: frames[i].len,
                count: frames[i].count,
                entries: frame_entries(buf, frames, i, end),
            },
        ),
        is_container(buf.subrange(frames[i].start as int, end), frames[i].key_type),
    decreases frames.len() - i,
{
    assert(frame_ok(buf, frames[i], next_frame(frames, i), end));
    if i + 1 < frames.len() {
        lemma_frame_container(buf, frames, i + 1, end);
    }
    lemma_frame_step(buf, frames[i], next_frame(frames, i), end);
}

/// The form of a size field after its number has grown: the one-byte form
/// stays as long as the number fits it; the four-byte form is never left.
pub open spec fn promoted(size: Size, value: int) -> Size {
    if size is Compact && value <= 127 {
        Size::Compact(value as u8)
    } else {
        Size::Full(value as u32)
    }
}

/// By how many bytes a size field grows when its number grows by `inc`:
/// three if it leaves the one-byte form, else none.
pub open spec fn size_shift(size: Size, inc: int) -> int {
    if size is Compact && size.spec_value() + inc > 127 {
        3
    } else {
        0
    }
}

/// By how many bytes the header of a container grows when the container
/// grows by `grow` bytes and `inc` elements. The count field is looked at
/// first; the bytes it takes more count for the length field.
pub open spec fn header_shift(len: Size, count: Size, grow: int, inc: int) -> int {
    size_shift(count, inc) + size_shift(len, grow + size_shift(count, inc))
}

/// Moves the bytes from `from` up to `to` forward by `by` bytes.
pub(crate) fn shift_right(buf: &mut [u8], from: usize, to: usize, by: usize)
    requires
        from <= to,
        to + by <= old(buf)@.len(),
    ensures
        final(buf)@.len() == old(buf)@.len(),
        forall|p: int| from <= p < to ==> final(buf)@[p + by] == old(buf)@[p],
        forall|p: int|
            0 <= p < old(buf)@.len() && (p < from + by || p >= to + by) ==> final(buf)@[p] == old(
                buf,
            )@[p],
{
    let mut i = to;
    while i > from
        invariant
            from <= i <= to,
            to + by <= buf@.len(),
            buf@.len() == old(buf)@.len(),
            forall|p: int| i <= p < to ==> buf@[p + by] == old(buf)@[p],
            forall|p: int|
                0 <= p < buf@.len() && (p < i + by || p >= to + by) ==> buf@[p] == old(buf)@[p],
        decreases i - from,
    {
        i = i - 1;
        let b = buf[i];
        buf[i + by] = b;
    }
}

/// Writes the two size fields of a header behind the tag byte at `start`.
pub(crate) fn write_sizes(buf: &mut [u8], start: usize, len: Size, count: Size)
    requires
        start + header_size(len, count) <= old(buf)@.len(),
    ensures
        final(buf)@.len() == old(buf)@.len(),
        final(buf)@.subrange(start + 1, start + header_size(len, count)) == len.spec_bytes()
            + count.spec_bytes(),
        forall|p: int|
            0 <= p < old(buf)@.len() && (p <= start || p >= start + header_size(len, count))
                ==> final(buf)@[p] == old(buf)@[p],
{
    let ghost before = buf@;
    let ghost whole = final(buf)@;
    let total = buf.len();
    let (head, tail) = buf.split_at_mut(start + 1);
    let rest = len.write(tail);
    let rest = count.write(rest);
    proof {
        let w = len.spec_size() as int;
        let v = count.spec_size() as int;
        len.lemma_bytes_len();
        count.lemma_bytes_len();
        let after = head@ + (len.spec_bytes() + (count.spec_bytes() + rest@));
        assert(whole =~= after);
        assert(after.subrange(start + 1, start + 1 + w + v) =~= len.spec_bytes()
            + count.spec_bytes());
        assert forall|p: int|
            0 <= p < before.len() && (p <= start || p >= start + 1 + w + v) implies after[p]
            == before[p] by {
            if p > start {
                assert(rest@[p - (start + 1 + w + v)] == before[p]);
            }
        }
    }
}

/// Returns the size field for a number that has grown, in the form that
/// `promoted` says.
pub(crate) fn promote(size: Size, value: usize) -> (r: Size)
    requires
        value <= MAX_SIZE,
    ensures
        r == promoted(size, value as int),
        r.wf(),
        r.spec_value() == value,
{
    if size.is_u8() && value <= 127 {
        Size::Compact(value as u8)
    } else {
        Size::Full(value as u32)
    }
}

/// The frame of a container after it has grown by `grow` bytes and `inc`
/// elements, the bytes that its header came to take more included.
pub open spec fn grown_frame(f: Frame, grow: int, inc: int) -> Frame {
    Frame {
        start: f.start,
        key_start: f.key_start,
        len: promoted(
            f.len,
            f.len.spec_value() + grow + header_shift(f.len, f.count, grow, inc),
        ),
        count: promoted(f.count, f.count.spec_value() + inc),
        key_type: f.key_type,
    }
}

/// What growing the container of frame `i` does to the buffer and to the
/// frames: the bytes up to the tag of the container stay, the size fields
/// behind the tag are those of the grown frame, the bytes behind the old
/// header stand `shift` bytes further up, the frames before `i` stay, frame
/// `i` is the grown frame, and the frames behind it have moved up by `shift`.
pub open spec fn grow_effect(
    before: Seq<u8>,
    after: Seq<u8>,
    old_frames: Seq<Frame>,
    new_frames: Seq<Frame>,
    i: int,
    cur_end: int,
    grow: int,
    inc: int,
    shift: int,
) -> bool {
    let f = old_frames[i];
    let g = new_frames[i];
    &&& after.len() == before.len()
    &&& new_frames.len() == old_frames.len()
    &&& shift == header_shift(f.len, f.count, grow, inc)
    &&& g == grown_frame(f, grow, inc)
    &&& g.len.wf()
    &&& g.count.wf()
    &&& g.len.spec_value() == f.len.spec_value() + grow + shift
    &&& g.count.spec_value() == f.count.spec_value() + inc
    &&& g.body_start() == f.body_start() + shift
    &&& forall|p: int| 0 <= p <= f.start ==> after[p] == before[p]
    &&& after.subrange(f.start + 1, g.body_start()) == g.len.spec_bytes() + g.count.spec_bytes()
    &&& forall|p: int| f.body_start() <= p < cur_end ==> after[p + shift] == before[p]
    &&& forall|j: int| 0 <= j < i ==> new_frames[j] == old_frames[j]
    &&& forall|j: int|
        #![trigger old_frames[j]]
        i < j < old_frames.len() ==> new_frames[j] == old_frames[j].moved(shift)
}

/// Grows the container of frame `i`, behind which `grow` more bytes are in
/// use up to `cur_end`, by those bytes and by `inc` elements: where the
/// header takes more bytes than before, the bytes behind it move up; the
/// size fields are written anew; the frames of the containers inside move
/// with their bytes. Returns the number of bytes that the header took more.
pub(crate) fn increment_size_and_count(
    buf: &mut [u8],
    frames: &mut Vec<Frame>,
    i: usize,
    cur_end: usize,
    grow: usize,
    inc: usize,
) -> (shift: usize)
    requires
        i < old(frames)@.len(),
        ({
            let f = old(frames)@[i as int];
            &&& f.len.wf()
            &&& f.count.wf()
            &&& f.body_start() <= cur_end
            &&& f.start + f.len.spec_value() + grow == cur_end
            &&& f.count.spec_value() + inc <= MAX_SIZE
            &&& cur_end + header_shift(f.len, f.count, grow as int, inc as int) <= old(buf)@.len()
            &&& old(buf)@.len() <= MAX_SIZE
        }),
        forall|j: int|
            #![trigger old(frames)@[j]]
            i < j < old(frames)@.len() ==> old(frames)@[j].key_start <= old(frames)@[j].start
                <= cur_end,
    ensures
        grow_effect(
            old(buf)@,
            final(buf)@,
            old(frames)@,
            final(frames)@,
            i as int,
            cur_end as int,
            grow as int,
            inc as int,
            shift as int,
        ),
{
    let f = frames[i];
    let new_count_value = f.count.value() + inc;
    let count_shift: usize = if f.count.is_u8() && new_count_value > 127 {
        3
    } else {
        0
    };
    let grown = f.len.value() + grow + count_shift;
    let len_shift: usize = if f.len.is_u8() && grown > 127 {
        3
    } else {
        0
    };
    let shift = count_shift + len_shift;
    let new_len = promote(f.len, grown + len_shift);
    let new_count = promote(f.count, new_count_value);
    let body_start = f.start + 1 + f.len.size() + f.count.size();
    if shift > 0 {
        shift_right(buf, body_start, cur_end, shift);
    }
    write_sizes(buf, f.start, new_len, new_count);
    frames[i] = Frame {
        start: f.start,
        key_start: f.key_start,
        len: new_len,
        count: new_count,
        key_type: f.key_type,
    };
    let n = frames.len();
    let mut j = i + 1;
    while j < n
        invariant
            i < j <= n,
            n == frames@.len(),
            n == old(frames)@.len(),
            cur_end + shift <= usize::MAX,
            frames@[i as int] == grown_frame(old(frames)@[i as int], grow as int, inc as int),
            forall|k: int| 0 <= k < i ==> frames@[k] == old(frames)@[k],
            forall|k: int|
                #![trigger old(frames)@[k]]
                i < k < j ==> frames@[k] == old(frames)@[k].moved(shift as int),
            forall|k: int| j <= k < n ==> frames@[k] == old(frames)@[k],
            forall|k: int|
                #![trigger old(frames)@[k]]
                i < k < n ==> old(frames)@[k].key_start <= old(frames)@[k].start <= cur_end,
        decreases n - j,
    {
        let g = frames[j];
        frames[j] = Frame {
            start: g.start + shift,
            key_start: g.key_start + shift,
            len: g.len,
            count: g.count,
            key_type: g.key_type,
        };
        j = j + 1;
    }
    shift
}

/// A frame whose bytes have moved up describes, moved up as well, the same
/// container at its new place.
proof fn lemma_frame_moved(
    before: Seq<u8>,
    after: Seq<u8>,
    f: Frame,
    next: Option<Frame>,
    end: int,
    by: int,
)
    requires
        frame_ok(before, f, next, end),
        0 <= by,
        end + by <= after.len() <= usize::MAX,
        forall|p: int| f.start <= p < end ==> after[p + by] == before[p],
    ensures
        frame_ok(
            after,
            f.moved(by),
            match next {
                Some(g) => Some(g.moved(by)),
                None => None,
            },
            end + by,
        ),
        entries_of(
            after,
            f.moved(by),
            match next {
                Some(g) => Some(g.moved(by)),
                None => None,
            },
            end + by,
        ) == entries_of(before, f, next, end),
{
    let m = f.moved(by);
    assert(after.subrange(m.start as int, m.body_start()) =~= before.subrange(
        f.start as int,
        f.body_start(),
    ));
    match next {
        Some(g) => {
            let h = g.moved(by);
            assert(after.subrange(m.body_start(), h.key_start as int) =~= before.subrange(
                f.body_start(),
                g.key_start as int,
            ));
            assert(after.subrange(h.key_start as int, h.start as int) =~= before.subrange(
                g.key_start as int,
                g.start as int,
            ));
            assert(after.subrange(h.start as int, end + by) =~= before.subrange(
                g.start as int,
                end,
            ));
        },
        None => {
            assert(after.subrange(m.body_start(), end + by) =~= before.subrange(
                f.body_start(),
                end,
            ));
        },
    }
}

/// A frame in front of the bytes that changed describes the same container
/// as before.
proof fn lemma_frame_kept(
    before: Seq<u8>,
    after: Seq<u8>,
    f: Frame,
    g: Frame,
    h: Frame,
    end: int,
)
    requires
        frame_ok(before, f, Some(g), end),
        h.start == g.start,
        h.key_start == g.key_start,
        after.len() == before.len(),
        forall|p: int| 0 <= p < g.start ==> after[p] == before[p],
    ensures
        frame_ok(after, f, Some(h), end),
{
    assert(after.subrange(f.start as int, f.body_start()) =~= before.subrange(
        f.start as int,
        f.body_start(),
    ));
    assert(after.subrange(f.body_start(), h.key_start as int) =~= before.subrange(
        f.body_start(),
        g.key_start as int,
    ));
    assert(after.subrange(h.key_start as int, h.start as int) =~= before.subrange(
        g.key_start as int,
        g.start as int,
    ));
}

/// The header of a grown frame stands in the buffer after the step.
proof fn lemma_grown_header(
    before: Seq<u8>,
    after: Seq<u8>,
    f: Frame,
    g: Frame,
)
    requires
        f.start + header_size(f.len, f.count) <= before.len(),
        before.subrange(f.start as int, f.body_start()) == header_bytes(f.key_type, f.len, f.count),
        after.len() == before.len(),
        g.start == f.start,
        g.key_type == f.key_type,
        g.body_start() <= after.len(),
        after[f.start as int] == before[f.start as int],
        after.subrange(f.start + 1, g.body_start()) == g.len.spec_bytes() + g.count.spec_bytes(),
    ensures
        after.subrange(g.start as int, g.body_start()) == header_bytes(g.key_type, g.len, g.count),
{
    assert(before[f.start as int] == before.subrange(f.start as int, f.body_start())[0]);
    assert(after.subrange(g.start as int, g.body_start()) =~= seq![after[f.start as int]]
        + after.subrange(f.start + 1, g.body_start()));
    assert(header_bytes(g.key_type, g.len, g.count) =~= seq![container_tag(g.key_type)] + (
    g.len.spec_bytes() + g.count.spec_bytes()));
}

/// A container on the path, grown by the bytes by which the container that
/// is open in it has grown, is described by its grown frame.
proof fn lemma_outer_frame_grown(
    before: Seq<u8>,
    after: Seq<u8>,
    f: Frame,
    next: Frame,
    low: int,
    grow: int,
    shift: int,
)
    requires
        frame_ok(before, f, Some(next), low),
        0 <= grow,
        shift == header_shift(f.len, f.count, grow, 0),
        low + grow + shift <= after.len() == before.len(),
        after.len() <= MAX_SIZE,
        next.start <= low + grow,
        ({
            let g = grown_frame(f, grow, 0);
            &&& g.len.wf()
            &&& g.count.wf()
            &&& g.len.spec_value() == f.len.spec_value() + grow + shift
            &&& g.count.spec_value() == f.count.spec_value()
            &&& g.body_start() == f.body_start() + shift
            &&& after[f.start as int] == before[f.start as int]
            &&& after.subrange(f.start + 1, g.body_start()) == g.len.spec_bytes()
                + g.count.spec_bytes()
            &&& forall|p: int| f.body_start() <= p < low + grow ==> after[p + shift] == before[p]
        }),
    ensures
        frame_ok(after, grown_frame(f, grow, 0), Some(next.moved(shift)), low + grow + shift),
{
    let g = grown_frame(f, grow, 0);
    let h = next.moved(shift);
    lemma_grown_header(before, after, f, g);
    assert(after.subrange(g.body_start(), h.key_start as int) =~= before.subrange(
        f.body_start(),
        next.key_start as int,
    ));
    assert(after.subrange(h.key_start as int, h.start as int) =~= before.subrange(
        next.key_start as int,
        next.start as int,
    ));
}

/// The innermost container on the path, grown by one element that stands
/// behind its last byte, is described by its grown frame, and its elements
/// are those of before and the new one.
#[verifier::rlimit(20)]
proof fn lemma_last_frame_grown(
    before: Seq<u8>,
    after: Seq<u8>,
    f: Frame,
    low: int,
    grow: int,
    shift: int,
)
    requires
        frame_ok(before, f, None, low),
        0 < grow,
        low + grow <= before.len(),
        decode_entry(before.subrange(low, low + grow), f.key_type) is Some,
        decode_entry(before.subrange(low, low + grow), f.key_type).unwrap().1 == grow,
        shift == header_shift(f.len, f.count, grow, 1),
        low + grow + shift <= after.len() == before.len(),
        after.len() <= MAX_SIZE,
        ({
            let g = grown_frame(f, grow, 1);
            &&& g.len.wf()
            &&& g.count.wf()
            &&& g.len.spec_value() == f.len.spec_value() + grow + shift
            &&& g.count.spec_value() == f.count.spec_value() + 1
            &&& g.body_start() == f.body_start() + shift
            &&& after[f.start as int] == before[f.start as int]
            &&& after.subrange(f.start + 1, g.body_start()) == g.len.spec_bytes()
                + g.count.spec_bytes()
            &&& forall|p: int| f.body_start() <= p < low + grow ==> after[p + shift] == before[p]
        }),
    ensures
        frame_ok(after, grown_frame(f, grow, 1), None, low + grow + shift),
        entries_of(after, grown_frame(f, grow, 1), None, low + grow + shift) == entries_of(
            before,
            f,
            None,
            low,
        ).push(decode_entry(before.subrange(low, low + grow), f.key_type).unwrap().0),
        after.subrange(grown_frame(f, grow, 1).body_start(), low + shift) == before.subrange(
            f.body_start(),
            low,
        ),
{
    let g = grown_frame(f, grow, 1);
    assert(after.subrange(g.body_start(), low + shift) =~= before.subrange(f.body_start(), low));
    lemma_grown_header(before, after, f, g);
    let body = before.subrange(f.body_start(), low);
    let element = before.subrange(low, low + grow);
    let new_body = after.subrange(g.body_start(), low + grow + shift);
    assert(new_body =~= body + element);
    lemma_decode_entries_single(element, f.key_type);
    lemma_decode_entries_concat(body, element, f.key_type);
    let es = decode_entries(body, f.key_type).unwrap();
    let e = decode_entry(element, f.key_type).unwrap().0;
    assert(es + seq![e] =~= es.push(e));
}

/// On a path, every container starts behind the header of each container
/// before it.
proof fn lemma_starts_ordered(
    buf: Seq<u8>,
    frames: Seq<Frame>,
    k: int,
    low: int,
    high: int,
    a: int,
    b: int,
)
    requires
        chain_ok(buf, frames, k, low, high),
        0 <= a < b < frames.len(),
    ensures
        frames[a].body_start() <= frames[b].key_start <= frames[b].start,
        frames[a].start < frames[b].start,
    decreases b - a,
{
    assert(slot_ok(buf, frames, b - 1, k, low, high));
    if a < b - 1 {
        lemma_starts_ordered(buf, frames, k, low, high, a, b - 1);
    }
}

/// Growing the innermost container of the path by the element that stands
/// behind the document leaves a path whose innermost container ends behind
/// that element, and whose other containers are as before.
proof fn lemma_chain_first(
    before: Seq<u8>,
    after: Seq<u8>,
    old_frames: Seq<Frame>,
    new_frames: Seq<Frame>,
    low: int,
    grow: int,
    shift: int,
)
    requires
        chain_ok(before, old_frames, 0, low, low),
        0 < grow,
        low + grow <= before.len(),
        decode_entry(
            before.subrange(low, low + grow),
            old_frames[old_frames.len() - 1].key_type,
        ) is Some,
        decode_entry(
            before.subrange(low, low + grow),
            old_frames[old_frames.len() - 1].key_type,
        ).unwrap().1 == grow,
        grow_effect(
            before,
            after,
            old_frames,
            new_frames,
            old_frames.len() - 1,
            low + grow,
            grow,
            1,
            shift,
        ),
        low + grow + shift <= after.len(),
    ensures
        chain_ok(after, new_frames, old_frames.len() - 1, low, low + grow + shift),
        frame_entries(after, new_frames, old_frames.len() - 1, low + grow + shift)
            == frame_entries(before, old_frames, old_frames.len() - 1, low).push(
            decode_entry(
                before.subrange(low, low + grow),
                old_frames[old_frames.len() - 1].key_type,
            ).unwrap().0,
        ),
        after.subrange(new_frames[old_frames.len() - 1].body_start(), low + shift)
            == before.subrange(old_frames[old_frames.len() - 1].body_start(), low),
{
    let n = old_frames.len() as int;
    let i = n - 1;
    let high = low + grow + shift;
    assert(slot_ok(before, old_frames, i, 0, low, low));
    lemma_last_frame_grown(before, after, old_frames[i], low, grow, shift);
    assert forall|j: int| 0 <= j < n implies #[trigger] slot_ok(
        after,
        new_frames,
        j,
        i,
        low,
        high,
    ) by {
        assert(slot_ok(before, old_frames, j, 0, low, low));
        if j < i {
            if j + 1 < i {
                lemma_starts_ordered(before, old_frames, 0, low, low, j + 1, i);
            }
            lemma_frame_kept(
                before,
                after,
                old_frames[j],
                old_frames[j + 1],
                new_frames[j + 1],
                low,
            );
        }
    }
}

/// Growing a container of the path by the bytes by which the container that
/// is open in it has grown leaves a path on which this container, too, ends
/// where the document now ends.
proof fn lemma_chain_next(
    before: Seq<u8>,
    after: Seq<u8>,
    old_frames: Seq<Frame>,
    new_frames: Seq<Frame>,
    i: int,
    low: int,
    grow: int,
    shift: int,
)
    requires
        0 <= i < old_frames.len() - 1,
        0 <= grow,
        chain_ok(before, old_frames, i + 1, low, low + grow),
        grow_effect(before, after, old_frames, new_frames, i, low + grow, grow, 0, shift),
        low + grow + shift <= after.len(),
    ensures
        chain_ok(after, new_frames, i, low, low + grow + shift),
        frame_entries(after, new_frames, old_frames.len() - 1, low + grow + shift)
            == frame_entries(before, old_frames, old_frames.len() - 1, low + grow),
{
    let n = old_frames.len() as int;
    let high = low + grow;
    assert(slot_ok(before, old_frames, i, i + 1, low, high));
    assert(slot_ok(before, old_frames, i + 1, i + 1, low, high));
    lemma_outer_frame_grown(before, after, old_frames[i], old_frames[i + 1], low, grow, shift);
    assert forall|j: int| 0 <= j < n implies #[trigger] slot_ok(
        after,
        new_frames,
        j,
        i,
        low,
        high + shift,
    ) by {
        assert(slot_ok(before, old_frames, j, i + 1, low, high));
        if j < i {
            if j + 1 < i {
                lemma_starts_ordered(before, old_frames, i + 1, low, high, j + 1, i);
            }
            lemma_frame_kept(
                before,
                after,
                old_frames[j],
                old_frames[j + 1],
                new_frames[j + 1],
                low,
            );
        } else if j > i {
            lemma_starts_ordered(before, old_frames, i + 1, low, high, i, j);
            lemma_frame_moved(
                before,
                after,
                old_frames[j],
                next_frame(old_frames, j),
                high,
                shift,
            );
        }
    }
    assert(slot_ok(before, old_frames, n - 1, i + 1, low, high));
    lemma_starts_ordered(before, old_frames, i + 1, low, high, i, n - 1);
    lemma_frame_moved(before, after, old_frames[n - 1], None, high, shift);
}

/// By how many bytes the container of frame `i` grows when an element of
/// `added` bytes is appended to the innermost container of the path: by the
/// bytes by which the container that is open in it grows, or by the element
/// if it is the innermost, and by the bytes that its own header takes more.
pub open spec fn growth(frames: Seq<Frame>, i: int, added: int) -> int
    decreases frames.len() - i,
{
    if i >= frames.len() {
        added
    } else {
        let inner = growth(frames, i + 1, added);
        inner + header_shift(
            frames[i].len,
            frames[i].count,
            inner,
            if i == frames.len() - 1 {
                1
            } else {
                0
            },
        )
    }
}

/// Each container on the path grows by at least the element and by at most
/// six bytes more for itself and for every container inside it.
pub proof fn lemma_growth_bounds(frames: Seq<Frame>, i: int, added: int)
    requires
        0 <= i <= frames.len(),
    ensures
        added <= growth(frames, i, added) <= added + 6 * (frames.len() - i),
        i < frames.len() ==> growth(frames, i + 1, added) <= growth(frames, i, added),
    decreases frames.len() - i,
{
    if i < frames.len() {
        lemma_growth_bounds(frames, i + 1, added);
    }
}

/// The container of frame `j` grows by no more than the one of frame `i`
/// that holds it.
pub proof fn lemma_growth_ordered(frames: Seq<Frame>, i: int, j: int, added: int)
    requires
        0 <= i <= j <= frames.len(),
    ensures
        growth(frames, j, added) <= growth(frames, i, added),
    decreases j - i,
{
    if i < j {
        lemma_growth_bounds(frames, i, added);
        lemma_growth_ordered(frames, i + 1, j, added);
    }
}

/// Returns by how many bytes the document grows when an element of `added`
/// bytes is appended to the innermost container of the path, or `usize::MAX`
/// if that is more.
pub(crate) fn plan_growth(frames: &Vec<Frame>, added: usize) -> (r: usize)
    requires
        frames@.len() >= 1,
        forall|j: int|
            0 <= j < frames@.len() ==> (#[trigger] frames@[j]).len.wf() && frames@[j].count.wf(),
    ensures
        growth(frames@, 0, added as int) <= usize::MAX ==> r == growth(frames@, 0, added as int),
        growth(frames@, 0, added as int) > usize::MAX ==> r == usize::MAX,
{
    let n = frames.len();
    let mut grow = added;
    let mut i = n;
    while i > 0
        invariant
            0 <= i <= n,
            n == frames@.len(),
            grow == growth(frames@, i as int, added as int),
            forall|j: int|
                0 <= j < frames@.len() ==> (#[trigger] frames@[j]).len.wf() && frames@[j].count.wf(),
        decreases i,
    {
        i = i - 1;
        let f = frames[i];
        let inc: usize = if i == n - 1 {
            1
        } else {
            0
        };
        let count_shift: usize = if f.count.is_u8() && f.count.value() >= 127 && inc == 1 {
            3
        } else {
            0
        };
        let len_shift: usize = if f.len.is_u8() && (grow > 127 || f.len.value() + grow
            + count_shift > 127) {
            3
        } else {
            0
        };
        assert(count_shift == size_shift(f.count, inc as int));
        assert(len_shift == size_shift(f.len, grow + count_shift));
        assert(growth(frames@, i as int, added as int) == grow + header_shift(
            f.len,
            f.count,
            grow as int,
            inc as int,
        ));
        grow =
        match grow.checked_add(count_shift + len_shift) {
            Some(sum) => sum,
            None => {
                proof {
                    lemma_growth_ordered(frames@, 0, i as int, added as int);
                }
                return usize::MAX;
            },
        };
    }
    grow
}

/// Whether a frame is frame `j` of the path after an element of `added` bytes
/// has been appended: the container is of the same kind, longer by its
/// growth, and has one element more if it is the innermost. A size field
/// keeps the one-byte form as long as its number fits it.
pub open spec fn grown_header(old_frames: Seq<Frame>, g: Frame, j: int, added: int) -> bool {
    let f = old_frames[j];
    let inc = if j == old_frames.len() - 1 {
        1int
    } else {
        0int
    };
    &&& g.key_type == f.key_type
    &&& g.len == promoted(f.len, f.len.spec_value() + growth(old_frames, j, added))
    &&& g.count == promoted(f.count, f.count.spec_value() + inc)
    &&& g.len.spec_value() == f.len.spec_value() + growth(old_frames, j, added)
    &&& g.count.spec_value() == f.count.spec_value() + inc
}

/// Whether the frames from `i` on have grown by an element of `added` bytes
/// and the frames before `i` are as they were.
pub open spec fn partly_grown(
    old_frames: Seq<Frame>,
    new_frames: Seq<Frame>,
    i: int,
    added: int,
) -> bool {
    &&& new_frames.len() == old_frames.len()
    &&& forall|j: int| 0 <= j < i ==> new_frames[j] == old_frames[j]
    &&& forall|j: int|
        #![trigger new_frames[j]]
        i <= j < old_frames.len() ==> grown_header(old_frames, new_frames[j], j, added)
}

/// The state between two steps of growing a path: the containers from `i`
/// on have grown and end at `cur_end`, the others end where the document
/// ended before, and the new element stands last, behind the elements that
/// the innermost container had.
pub open spec fn growing(
    buf: Seq<u8>,
    frames: Seq<Frame>,
    old_frames: Seq<Frame>,
    i: int,
    added: int,
    cur_end: int,
    body: Seq<u8>,
    element: Seq<u8>,
    entries: Seq<(KeyModel, ValueModel)>,
) -> bool {
    let low = doc_end(old_frames);
    let n = old_frames.len();
    &&& 0 <= i < n
    &&& 0 < added
    &&& low + growth(old_frames, 0, added) <= buf.len()
    &&& chain_ok(buf, frames, i, low, cur_end)
    &&& cur_end == low + growth(old_frames, i, added)
    &&& partly_grown(old_frames, frames, i, added)
    &&& frames[n - 1].body_start() <= cur_end - added
    &&& buf.subrange(frames[n - 1].body_start(), cur_end - added) == body
    &&& buf.subrange(cur_end - added, cur_end) == element
    &&& frame_entries(buf, frames, n - 1, cur_end) == entries
}

/// One step of growing a path leads from one state between steps to the
/// next.
proof fn lemma_growing_step(
    before: Seq<u8>,
    after: Seq<u8>,
    mid_frames: Seq<Frame>,
    new_frames: Seq<Frame>,
    old_frames: Seq<Frame>,
    i: int,
    added: int,
    cur_end: int,
    shift: int,
    body: Seq<u8>,
    element: Seq<u8>,
    entries: Seq<(KeyModel, ValueModel)>,
)
    requires
        0 <= i < old_frames.len() - 1,
        growing(before, mid_frames, old_frames, i + 1, added, cur_end, body, element, entries),
        grow_effect(
            before,
            after,
            mid_frames,
            new_frames,
            i,
            cur_end,
            growth(old_frames, i + 1, added),
            0,
            shift,
        ),
    ensures
        growing(after, new_frames, old_frames, i, added, cur_end + shift, body, element, entries),
{
    let low = doc_end(old_frames);
    let n = old_frames.len() as int;
    let grow = growth(old_frames, i + 1, added);
    lemma_growth_ordered(old_frames, 0, i, added);
    lemma_growth_bounds(old_frames, i, added);
    assert(slot_ok(before, mid_frames, i, i + 1, low, cur_end));
    assert(slot_ok(before, mid_frames, n - 1, i + 1, low, cur_end));
    lemma_starts_ordered(before, mid_frames, i + 1, low, cur_end, i, n - 1);
    lemma_chain_next(before, after, mid_frames, new_frames, i, low, grow, shift);
    assert(after.subrange(cur_end + shift - added, cur_end + shift) =~= before.subrange(
        cur_end - added,
        cur_end,
    ));
    assert(new_frames[n - 1] == mid_frames[n - 1].moved(shift));
    assert(after.subrange(new_frames[n - 1].body_start(), cur_end + shift - added)
        =~= before.subrange(mid_frames[n - 1].body_start(), cur_end - added));
    assert forall|j: int| #![trigger new_frames[j]] i <= j < n implies grown_header(
        old_frames,
        new_frames[j],
        j,
        added,
    ) by {
        if j > i {
            assert(new_frames[j] == mid_frames[j].moved(shift));
            assert(grown_header(old_frames, mid_frames[j], j, added));
        }
    }
}

/// The first step of growing a path leads from the document with the new
/// element behind it to the first state between steps.
proof fn lemma_growing_first(
    before: Seq<u8>,
    after: Seq<u8>,
    old_frames: Seq<Frame>,
    new_frames: Seq<Frame>,
    added: int,
    shift: int,
)
    requires
        doc_wf(before, old_frames),
        0 < added,
        doc_end(old_frames) + growth(old_frames, 0, added) <= before.len(),
        decode_entry(
            before.subrange(doc_end(old_frames), doc_end(old_frames) + added),
            old_frames[old_frames.len() - 1].key_type,
        ) is Some,
        decode_entry(
            before.subrange(doc_end(old_frames), doc_end(old_frames) + added),
            old_frames[old_frames.len() - 1].key_type,
        ).unwrap().1 == added,
        grow_effect(
            before,
            after,
            old_frames,
            new_frames,
            old_frames.len() - 1,
            doc_end(old_frames) + added,
            added,
            1,
            shift,
        ),
    ensures
        growing(
            after,
            new_frames,
            old_frames,
            old_frames.len() - 1,
            added,
            doc_end(old_frames) + added + shift,
            before.subrange(old_frames[old_frames.len() - 1].body_start(), doc_end(old_frames)),
            before.subrange(doc_end(old_frames), doc_end(old_frames) + added),
            frame_entries(before, old_frames, old_frames.len() - 1, doc_end(old_frames)).push(
                decode_entry(
                    before.subrange(doc_end(old_frames), doc_end(old_frames) + added),
                    old_frames[old_frames.len() - 1].key_type,
                ).unwrap().0,
            ),
        ),
{
    let low = doc_end(old_frames);
    let n = old_frames.len() as int;
    lemma_growth_ordered(old_frames, 0, n - 1, added);
    lemma_growth_bounds(old_frames, n - 1, added);
    assert(slot_ok(before, old_frames, n - 1, 0, low, low));
    lemma_chain_first(before, after, old_frames, new_frames, low, added, shift);
    assert(after.subrange(low + shift, low + added + shift) =~= before.subrange(low, low + added));
}

/// Grows every container of the path, from the innermost to the outermost,
/// by the element of `added` bytes that stands behind the document.
///
/// The buffer must have room for the bytes that the headers come to take
/// more.
pub(crate) fn grow_path(buf: &mut [u8], frames: &mut Vec<Frame>, added: usize)
    requires
        doc_wf(old(buf)@, old(frames)@),
        added > 0,
        doc_end(old(frames)@) + growth(old(frames)@, 0, added as int) <= old(buf)@.len(),
        decode_entry(
            old(buf)@.subrange(doc_end(old(frames)@), doc_end(old(frames)@) + added),
            old(frames)@[old(frames)@.len() - 1].key_type,
        ) is Some,
        decode_entry(
            old(buf)@.subrange(doc_end(old(frames)@), doc_end(old(frames)@) + added),
            old(frames)@[old(frames)@.len() - 1].key_type,
        ).unwrap().1 == added,
    ensures
        doc_wf(final(buf)@, final(frames)@),
        final(buf)@.len() == old(buf)@.len(),
        growing(
            final(buf)@,
            final(frames)@,
            old(frames)@,
            0,
            added as int,
            doc_end(final(frames)@),
            old(buf)@.subrange(
                old(frames)@[old(frames)@.len() - 1].body_start(),
                doc_end(old(frames)@),
            ),
            old(buf)@.subrange(doc_end(old(frames)@), doc_end(old(frames)@) + added),
            frame_entries(
                old(buf)@,
                old(frames)@,
                old(frames)@.len() - 1,
                doc_end(old(frames)@),
            ).push(
                decode_entry(
                    old(buf)@.subrange(doc_end(old(frames)@), doc_end(old(frames)@) + added),
                    old(frames)@[old(frames)@.len() - 1].key_type,
                ).unwrap().0,
            ),
        ),
{
    let ghost before = buf@;
    let ghost old_frames = frames@;
    let ghost low = doc_end(frames@);
    let ghost element = buf@.subrange(low, low + added);
    let ghost body = buf@.subrange(frames@[frames@.len() - 1].body_start(), low);
    let ghost entries = frame_entries(buf@, frames@, frames@.len() - 1, low).push(
        decode_entry(element, frames@[frames@.len() - 1].key_type).unwrap().0,
    );
    let n = frames.len();
    let end = frames[0].len.value();
    proof {
        assert(slot_ok(before, old_frames, n - 1, 0, low, low));
        assert(slot_ok(before, old_frames, 0, 0, low, low));
        lemma_decode_entries_len(
            before.subrange(old_frames[n - 1].body_start(), low),
            old_frames[n - 1].key_type,
        );
        lemma_growth_ordered(old_frames, 0, n as int - 1, added as int);
        lemma_growth_bounds(old_frames, n as int - 1, added as int);
    }
    let mut cur_end = end + added;
    let mut grow = added;
    let mut i = n - 1;
    let shift = increment_size_and_count(buf, frames, i, cur_end, grow, 1);
    proof {
        lemma_growing_first(before, buf@, old_frames, frames@, added as int, shift as int);
    }
    cur_end = cur_end + shift;
    grow = grow + shift;
    while i > 0
        invariant
            0 <= i < n,
            n == old_frames.len(),
            n == frames@.len(),
            buf@.len() == before.len(),
            buf@.len() <= MAX_SIZE,
            low == doc_end(old_frames),
            grow == growth(old_frames, i as int, added as int),
            growing(
                buf@,
                frames@,
                old_frames,
                i as int,
                added as int,
                cur_end as int,
                body,
                element,
                entries,
            ),
        decreases i,
    {
        i = i - 1;
        let ghost mid = buf@;
        let ghost mid_frames = frames@;
        proof {
            assert(slot_ok(mid, mid_frames, i as int, i + 1, low, cur_end as int));
            lemma_growth_ordered(old_frames, 0, i as int, added as int);
            assert forall|j: int|
                #![trigger mid_frames[j]]
                i < j < n implies mid_frames[j].key_start <= mid_frames[j].start <= cur_end by {
                assert(slot_ok(mid, mid_frames, j, i + 1, low, cur_end as int));
            }
        }
        let shift = increment_size_and_count(buf, frames, i, cur_end, grow, 0);
        proof {
            lemma_growing_step(
                mid,
                buf@,
                mid_frames,
                frames@,
                old_frames,
                i as int,
                added as int,
                cur_end as int,
                shift as int,
                body,
                element,
                entries,
            );
        }
        cur_end = cur_end + shift;
        grow = grow + shift;
    }
    proof {
        assert(slot_ok(buf@, frames@, 0, 0, low, cur_end as int));
        assert forall|j: int| 0 <= j < frames@.len() implies #[trigger] slot_ok(
            buf@,
            frames@,
            j,
            0,
            cur_end as int,
            cur_end as int,
        ) by {
            assert(slot_ok(buf@, frames@, j, 0, low, cur_end as int));
        }
    }
}

/// The last frame of a shortened path describes its container with all its
/// elements, the one that was open in it included.
proof fn lemma_frame_closed(buf: Seq<u8>, f: Frame, next: Option<Frame>, end: int)
    requires
        frame_ok(buf, f, next, end),
        decode_container(buf.subrange(f.start as int, end), f.key_type) matches Ok(c) && c.len
            == f.len && c.count == f.count,
    ensures
        frame_ok(buf, f, None, end),
        entries_of(buf, f, None, end) == decode_container(
            buf.subrange(f.start as int, end),
            f.key_type,
        ).unwrap().entries,
{
    let bytes = buf.subrange(f.start as int, end);
    let h = header_size(f.len, f.count) as int;
    assert(bytes.subrange(h, f.len.spec_value() as int) =~= buf.subrange(f.body_start(), end));
}

/// The path up to a container that is open on it describes the document as
/// well: what is open further in is then an element like any other.
pub proof fn lemma_doc_prefix(buf: Seq<u8>, frames: Seq<Frame>, d: int)
    requires
        doc_wf(buf, frames),
        0 <= d < frames.len(),
    ensures
        doc_wf(buf, frames.take(d + 1)),
        doc_end(frames.take(d + 1)) == doc_end(frames),
        decode_container(frame_bytes(buf, frames, d), frames[d].key_type) == Ok::<
            ContainerModel,
            DeserializeError,
        >(
            ContainerModel {
                len: frames[d].len,
                count: frames[d].count,
                entries: frame_entries(buf, frames.take(d + 1), d, doc_end(frames)),
            },
        ),
        is_container(frame_bytes(buf, frames, d), frames[d].key_type),
{
    let end = doc_end(frames);
    let short = frames.take(d + 1);
    assert forall|j: int| d <= j < frames.len() implies frame_ok(
        buf,
        #[trigger] frames[j],
        next_frame(frames, j),
        end,
    ) by {
        assert(slot_ok(buf, frames, j, 0, end, end));
    }
    lemma_frame_container(buf, frames, d, end);
    assert(slot_ok(buf, frames, d, 0, end, end));
    lemma_frame_closed(buf, frames[d], next_frame(frames, d), end);
    assert(next_frame(short, d) == None::<Frame>);
    assert(short[d] == frames[d]);
    assert forall|j: int| 0 <= j < short.len() implies #[trigger] slot_ok(
        buf,
        short,
        j,
        0,
        end,
        end,
    ) by {
        assert(slot_ok(buf, frames, j, 0, end, end));
        if j < d {
            assert(short[j] == frames[j]);
            assert(next_frame(short, j) == next_frame(frames, j));
        }
    }
}

/// The frames describe the document as before when no byte of the document
/// has changed.
pub proof fn lemma_doc_kept(before: Seq<u8>, after: Seq<u8>, frames: Seq<Frame>)
    requires
        doc_wf(before, frames),
        after.len() == before.len(),
        forall|p: int| 0 <= p < doc_end(frames) ==> after[p] == before[p],
    ensures
        doc_wf(after, frames),
        frame_entries(after, frames, frames.len() - 1, doc_end(frames)) == frame_entries(
            before,
            frames,
            frames.len() - 1,
            doc_end(frames),
        ),
{
    let end = doc_end(frames);
    assert forall|j: int| 0 <= j < frames.len() implies #[trigger] slot_ok(
        after,
        frames,
        j,
        0,
        end,
        end,
    ) by {
        assert(slot_ok(before, frames, j, 0, end, end));
        lemma_frame_moved(before, after, frames[j], next_frame(frames, j), end, 0);
        assert(frames[j].moved(0) == frames[j]);
        if j + 1 < frames.len() {
            assert(frames[j + 1].moved(0) == frames[j + 1]);
        }
    }
    let last = frames.len() - 1;
    assert(slot_ok(before, frames, last, 0, end, end));
    lemma_frame_moved(before, after, frames[last], None, end, 0);
    assert(frames[last].moved(0) == frames[last]);
}

/// A container that is the last element of the innermost container of the
/// path can be opened: the path with its frame describes the document.
#[verifier::rlimit(20)]
pub proof fn lemma_doc_push(buf: Seq<u8>, frames: Seq<Frame>, child: Frame)
    requires
        doc_wf(buf, frames),
        ({
            let f = frames[frames.len() - 1];
            let end = doc_end(frames);
            &&& f.body_start() <= child.key_start <= child.start < end
            &&& decode_entries(buf.subrange(f.body_start(), child.key_start as int), f.key_type)
                matches Some(es) && es.len() + 1 == f.count.spec_value()
            &&& decode_key(buf.subrange(child.key_start as int, child.start as int), f.key_type)
                matches Some((k, n)) && n == child.start - child.key_start
            &&& decode_container(buf.subrange(child.start as int, end), child.key_type) matches Ok(
                c,
            ) && c.len == child.len && c.count == child.count && child.len.spec_value() == end
                - child.start
        }),
    ensures
        doc_wf(buf, frames.push(child)),
        doc_end(frames.push(child)) == doc_end(frames),
{
    let end = doc_end(frames);
    let longer = frames.push(child);
    let n = frames.len() as int;
    let cb = buf.subrange(child.start as int, end);
    assert(slot_ok(buf, frames, 0, 0, end, end));
    assert(slot_ok(buf, frames, n - 1, 0, end, end));
    lemma_decode_container_bounds(cb, child.key_type);
    lemma_decode_header_bounds(cb, child.key_type);
    let h = header_size(child.len, child.count) as int;
    assert(cb.subrange(0, h) =~= buf.subrange(child.start as int, child.body_start()));
    assert(cb.subrange(h, child.len.spec_value() as int) =~= buf.subrange(
        child.body_start(),
        end,
    ));
    assert(slot_ok(buf, frames, 0, 0, end, end));
    assert forall|j: int| 0 <= j < longer.len() implies #[trigger] slot_ok(
        buf,
        longer,
        j,
        0,
        end,
        end,
    ) by {
        if j < n {
            assert(slot_ok(buf, frames, j, 0, end, end));
        }
    }
}

/// The frame of a container that stands alone at the start of a buffer.
pub open spec fn root_frame(key_type: KeyType, len: Size, count: Size) -> Frame {
    Frame { start: 0, key_start: 0, len, count, key_type }
}

/// The encoding of a container is a document with that container as its
/// path.
pub proof fn lemma_doc_of_container(bytes: Seq<u8>, key_type: KeyType)
    requires
        decode_container(bytes, key_type) is Ok,
        bytes.len() <= MAX_SIZE,
    ensures
        doc_wf(
            bytes,
            seq![
                root_frame(
                    key_type,
                    decode_container(bytes, key_type).unwrap().len,
                    decode_container(bytes, key_type).unwrap().count,
                ),
            ],
        ),
{
    let c = decode_container(bytes, key_type).unwrap();
    let f = root_frame(key_type, c.len, c.count);
    let frames = seq![f];
    let end = c.len.spec_value() as int;
    lemma_decode_container_bounds(bytes, key_type);
    lemma_decode_header_bounds(bytes, key_type);
    assert(frame_ok(bytes, f, None, end));
    assert forall|j: int| 0 <= j < frames.len() implies #[trigger] slot_ok(
        bytes,
        frames,
        j,
        0,
        end,
        end,
    ) by {
        assert(frames[j] == f);
    }
}

/// The elements of a run stand one behind the other: the first is decoded
/// from the start, the others are the run behind it.
pub proof fn lemma_entries_step(bytes: Seq<u8>, key_type: KeyType)
    requires
        decode_entries(bytes, key_type) is Some,
        bytes.len() > 0,
    ensures
        decode_entry(bytes, key_type) is Some,
        decode_entries(bytes, key_type).unwrap().len() >= 1,
        decode_entry(bytes, key_type).unwrap().0 == decode_entries(bytes, key_type).unwrap()[0],
        1 <= decode_entry(bytes, key_type).unwrap().1 <= bytes.len(),
        decode_entries(bytes.skip(decode_entry(bytes, key_type).unwrap().1 as int), key_type)
            == Some(decode_entries(bytes, key_type).unwrap().skip(1)),
{
    let (entry, n) = decode_entry(bytes, key_type).unwrap();
    let rest = decode_entries(bytes.skip(n as int), key_type).unwrap();
    assert((seq![entry] + rest).skip(1) =~= rest);
}

} // verus!
