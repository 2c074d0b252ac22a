//! Containers: keys, the view over an encoded container, and the container
//! of a document that is being written.

use crate::allocation::Allocation;
use crate::append::{append_container, append_plain, extended, failure, planned};
use crate::container::{IntMap, List, Object};
use crate::document::{
    doc_end, doc_wf, frame_bytes, frame_entries, growth, kinds, lemma_doc_of_container,
    lemma_doc_prefix, lemma_entries_step, root_frame, slot_ok, Frame,
};
use crate::error::{AddValueError, DeserializeError};
use crate::format::{
    canonical, container_tag, container_value, decode_container, decode_entries, decode_entry,
    decode_header, decode_key, header_size, is_container, key_kind, key_size, value_payload,
    value_size, value_type, ContainerModel, KeyModel, ValueModel,
};
use crate::lemmas::{
    lemma_decode_container_bounds, lemma_decode_container_window, lemma_decode_entry_bounds,
    lemma_decode_header_bounds,
};
use crate::size::{MAX_SIZE, Size};
use crate::utils::{read_i32, read_key};
use crate::value::Value;
use vstd::prelude::*;
use vstd::slice::slice_subrange;
use vstd::utf8::encode_utf8_decode_utf8;

verus! {

/// The kind of key that the elements of a container have.
#[derive(Clone, Copy, Debug, PartialEq, Eq, Structural)]
pub enum KeyType {
    /// No key: a list.
    Empty,
    /// A 32-bit signed number: a map.
    Num,
    /// Text of at most 255 bytes: an object.
    Str,
}

/// The key of an element.
#[derive(Clone, Copy, Debug, PartialEq, Eq)]
pub enum Key<'a> {
    /// The key of a list element: none.
    Empty,
    /// The key of a map element.
    Num(i32),
    /// The key of an object element.
    Str(&'a str),
}

impl<'a> View for Key<'a> {
    type V = KeyModel;

    open spec fn view(&self) -> KeyModel {
        match self {
            Key::Empty => KeyModel::Empty,
            Key::Num(n) => KeyModel::Num(*n),
            Key::Str(s) => KeyModel::Str(s@),
        }
    }
}

impl<'a> Key<'a> {
    /// Returns how many bytes this key takes on the wire.
    ///
    /// The number must fit `usize`.
    pub fn size(&self) -> (r: usize)
        requires
            key_size(self@) <= usize::MAX,
        ensures
            r == key_size(self@),
    {
        match self {
            Key::Empty => 0,
            Key::Num(_) => 4,
            Key::Str(val) => val.len() + 1,
        }
    }

    /// Returns the number of a map key, `None` for another key.
    pub fn to_num(self) -> (r: Option<i32>)
        ensures
            r == (match self {
                Key::Num(n) => Some(n),
                _ => None,
            }),
    {
        match self {
            Key::Num(num) => Some(num),
            _ => None,
        }
    }

    /// Returns the text of an object key, `None` for another key.
    pub fn to_str(self) -> (r: Option<&'a str>)
        ensures
            r == (match self {
                Key::Str(s) => Some(s),
                _ => None,
            }),
    {
        match self {
            Key::Str(text) => Some(text),
            _ => None,
        }
    }
}

/// Where the bytes of a container are.
#[derive(Debug)]
enum Repr<'a> {
    /// A read-only view: exactly the bytes of the container.
    View { bytes: &'a [u8], len: Size, count: Size },
    /// The outermost container of a document under construction, with the
    /// buffer and the path of open containers.
    Root { buf: &'a mut [u8], path: Vec<Frame> },
    /// A container nested in a document under construction, `depth` steps
    /// below the outermost.
    Nested { buf: &'a mut [u8], frames: &'a mut Vec<Frame>, depth: usize },
}

/// A container of any kind: a read-only view over encoded bytes, or a
/// container of a document that is being written into a buffer.
///
/// A document under construction is one buffer and a path of open
/// containers: the outermost container, and below it containers that were
/// appended as values and are being filled. Each is the last element of the
/// one above it, so all end where the document ends, and an element appended
/// to any of them is written behind the last byte in use.
#[derive(Debug)]
pub struct RawContainer<'a> {
    repr: Repr<'a>,
    key_type: KeyType,
}

/// Reads one element from the start of `bytes`: its key, its value and the
/// number of bytes both took. Returns `None` if there is no element to read.
pub fn read_entry<'a>(bytes: &'a [u8], key_type: KeyType) -> (r: Option<
    (Key<'a>, Value<'a>, usize),
>)
    ensures
        match decode_entry(bytes@, key_type) {
            Some((entry, n)) => r matches Some((key, value, used)) && key@ == entry.0 && value@
                == entry.1 && used == n && value.wf(),
            None => r is None,
        },
    decreases bytes@.len(), 2nat,
{
    let key = match key_type {
        KeyType::Empty => Key::Empty,
        KeyType::Num => match read_i32(bytes) {
            Ok(num) => Key::Num(num),
            Err(_) => {
                return None;
            },
        },
        KeyType::Str => match read_key(bytes) {
            Ok(key) => Key::Str(key),
            Err(_) => {
                return None;
            },
        },
    };
    let key_len: usize = match key {
        Key::Empty => 0,
        Key::Num(_) => 4,
        Key::Str(_) => bytes[0] as usize + 1,
    };
    assert(decode_key(bytes@, key_type) == Some((key@, key_len as nat)));
    let rest = slice_subrange(bytes, key_len, bytes.len());
    assert(rest@ == bytes@.skip(key_len as int));
    match Value::deserialize_prefix(rest) {
        Ok((value, used)) => {
            proof {
                lemma_decode_entry_bounds(bytes@, key_type);
            }
            Some((key, value, key_len + used))
        },
        Err(_) => None,
    }
}

/// Returns whether two byte slices hold the same bytes.
fn bytes_equal(a: &[u8], b: &[u8]) -> (r: bool)
    ensures
        r == (a@ == b@),
{
    if a.len() != b.len() {
        return false;
    }
    let n = a.len();
    let mut i: usize = 0;
    while i < n
        invariant
            i <= n,
            n == a@.len(),
            n == b@.len(),
            forall|j: int| 0 <= j < i ==> a@[j] == b@[j],
        decreases n - i,
    {
        if a[i] != b[i] {
            return false;
        }
        i = i + 1;
    }
    assert(a@ =~= b@);
    true
}

/// Returns whether two keys are the same key.
fn keys_equal(a: &Key<'_>, b: &Key<'_>) -> (r: bool)
    ensures
        r == (a@ == b@),
{
    match (a, b) {
        (Key::Empty, Key::Empty) => true,
        (Key::Num(x), Key::Num(y)) => *x == *y,
        (Key::Str(x), Key::Str(y)) => {
            proof {
                encode_utf8_decode_utf8(x@);
                encode_utf8_decode_utf8(y@);
            }
            bytes_equal(x.as_bytes(), y.as_bytes())
        },
        _ => false,
    }
}

/// The encoding of the empty list.
pub const EMPTY_LIST: [u8; 3] = [0xE0, 0x03, 0x00];

/// The encoding of the empty map.
pub const EMPTY_MAP: [u8; 3] = [0xE1, 0x03, 0x00];

/// The encoding of the empty object.
pub const EMPTY_OBJ: [u8; 3] = [0xE2, 0x03, 0x00];

/// The encoding of the empty container of a kind.
pub open spec fn empty_bytes(key_type: KeyType) -> Seq<u8> {
    seq![container_tag(key_type), 3u8, 0u8]
}

/// The three bytes of an empty container decode to a container of three
/// bytes without elements.
pub proof fn lemma_empty_container(key_type: KeyType)
    ensures
        decode_container(empty_bytes(key_type), key_type) == Ok::<
            ContainerModel,
            DeserializeError,
        >(
            ContainerModel {
                len: Size::Compact(3),
                count: Size::Compact(0),
                entries: Seq::<(KeyModel, ValueModel)>::empty(),
            },
        ),
        is_container(empty_bytes(key_type), key_type),
{
    reveal(decode_header);
    let bytes = empty_bytes(key_type);
    assert(bytes.skip(1)[0] == 3u8);
    assert(bytes.skip(2)[0] == 0u8);
    assert(Size::spec_parse(bytes.skip(1)) == Some(Size::Compact(3)));
    assert(Size::spec_parse(bytes.skip(2)) == Some(Size::Compact(0)));
    assert(bytes.subrange(3, 3).len() == 0);
}

/// The outcome of decoding a container does not depend on bytes behind the
/// first `MAX_SIZE`.
proof fn lemma_clipped_decode(all: Seq<u8>, clipped: Seq<u8>, key_type: KeyType)
    requires
        clipped == all.take(clipped.len() as int),
        clipped.len() <= all.len(),
        clipped.len() == all.len() || clipped.len() == MAX_SIZE,
    ensures
        match decode_container(all, key_type) {
            Ok(c) => decode_container(clipped, key_type) == Ok::<ContainerModel, DeserializeError>(
                c,
            ),
            Err(e) => decode_container(clipped, key_type) == Err::<
                ContainerModel,
                DeserializeError,
            >(e),
        },
{
    reveal(decode_header);
    if clipped.len() == all.len() {
        assert(clipped =~= all);
    } else {
        match decode_container(all, key_type) {
            Ok(c) => {
                lemma_decode_container_bounds(all, key_type);
                let n = c.len.spec_value() as int;
                assert(clipped.subrange(0, n) =~= all.subrange(0, n));
                lemma_decode_container_window(all, clipped, key_type);
            },
            Err(e) => {
                if decode_container(clipped, key_type) is Ok {
                    lemma_decode_container_bounds(clipped, key_type);
                    let n = decode_container(clipped, key_type).unwrap().len.spec_value() as int;
                    assert(clipped.subrange(0, n) =~= all.subrange(0, n));
                    lemma_decode_container_window(clipped, all, key_type);
                } else {
                    assert(clipped[0] == all[0]);
                }
            },
        }
    }
}

/// Returns the value that holds a container: a list, a map or an object as
/// its keys say.
fn wrap<'c>(inner: RawContainer<'c>) -> (v: Value<'c>)
    requires
        inner.wf(),
    ensures
        v.wf(),
        v.container() == Some(inner),
        v@ == container_value(inner.key_type(), inner.bytes()),
{
    match inner.key_type {
        KeyType::Empty => {
            let child = List { inner };
            proof {
                child.lemma_inner();
            }
            Value::List(child)
        },
        KeyType::Num => {
            let child = IntMap { inner };
            proof {
                child.lemma_inner();
            }
            Value::IntMap(child)
        },
        KeyType::Str => {
            let child = Object { inner };
            proof {
                child.lemma_inner();
            }
            Value::Object(child)
        },
    }
}

/// What holds of the container that was appended as a value to `parent` and
/// is returned open: elements can be appended to it, it is the last on the
/// path, one step below `parent`, and the document is the one that the
/// append has left.
pub open spec fn opened(
    parent: &RawContainer<'_>,
    child: Option<RawContainer<'_>>,
    key: KeyModel,
    value: ValueModel,
) -> bool {
    &&& child matches Some(c)
    &&& c.wf()
    &&& c.is_mutable()
    &&& c.bytes() == value_payload(value)
    &&& c.path().len() == parent.path().len() + 1
    &&& kinds(c.path()) == kinds(parent.path()).push(c.key_type())
    &&& extended(
        parent.buffer(),
        parent.path(),
        c.buffer(),
        c.path().take(parent.path().len() as int),
        key,
        value,
    )
}

/// An element stands first in a run of elements where its key stands for the
/// first time.
pub open spec fn first_match(
    entries: Seq<(KeyModel, ValueModel)>,
    key: KeyModel,
    i: int,
) -> bool {
    &&& 0 <= i < entries.len()
    &&& entries[i].0 == key
    &&& forall|j: int| 0 <= j < i ==> entries[j].0 != key
}

impl<'a> RawContainer<'a> {
    /// The buffer that holds this container: all bytes of the buffer of a
    /// document under construction, the bytes of the container for a
    /// read-only view.
    pub closed spec fn buffer(&self) -> Seq<u8> {
        match self.repr {
            Repr::View { bytes, len, count } => bytes@,
            Repr::Root { buf, path } => buf@,
            Repr::Nested { buf, frames, depth } => buf@,
        }
    }

    /// The frames of all containers that are open in the document: those of
    /// the path, and those of containers that were opened below this one and
    /// are closed when this one is appended to.
    pub closed spec fn open_frames(&self) -> Seq<Frame> {
        match self.repr {
            Repr::View { bytes, len, count } => seq![root_frame(self.key_type, len, count)],
            Repr::Root { buf, path } => path@,
            Repr::Nested { buf, frames, depth } => frames@,
        }
    }

    /// The buffer that a container to which elements can be appended shares
    /// with the containers above and below it.
    pub closed spec fn shared_buffer(self) -> &'a mut [u8] {
        match self.repr {
            Repr::Root { buf, path } => buf,
            Repr::Nested { buf, frames, depth } => buf,
            Repr::View { bytes, len, count } => arbitrary(),
        }
    }

    /// The frames that a nested container shares with the containers above
    /// and below it.
    pub closed spec fn shared_frames(self) -> &'a mut Vec<Frame> {
        match self.repr {
            Repr::Nested { buf, frames, depth } => frames,
            _ => arbitrary(),
        }
    }

    /// Whether this container stands at the same place of its document as
    /// the other: as deep, of the same kind, and open for appending or not as
    /// the other.
    pub closed spec fn same_place(&self, other: &RawContainer<'_>) -> bool {
        &&& self.own_depth() == other.own_depth()
        &&& self.key_type == other.key_type
        &&& self.is_mutable() == other.is_mutable()
        &&& self.repr is Nested == other.repr is Nested
    }

    /// Whether this container was opened in the other: it stands one step
    /// below it, and elements can be appended to both.
    pub closed spec fn below(&self, parent: &RawContainer<'_>) -> bool {
        &&& self.repr is Nested
        &&& parent.is_mutable()
        &&& self.own_depth() == parent.own_depth() + 1
    }

    /// A container that is no longer used holds the buffer and the frames as
    /// they stay.
    pub proof fn lemma_done(self)
        requires
            self.is_mutable(),
            has_resolved(self),
        ensures
            self.buffer() == final(self.shared_buffer())@,
            self.depth() > 0 && self.wf() ==> self.open_frames() == final(self.shared_frames())@,
    {
    }

    /// A container stands where it stands, and standing at the same place
    /// carries over from state to state.
    pub proof fn lemma_same_place(&self, middle: &RawContainer<'_>, first: &RawContainer<'_>)
        requires
            self.same_place(middle),
            middle.same_place(first),
        ensures
            self.same_place(first),
            self.same_place(self),
    {
    }

    /// A container that stands where a container below `parent` stood is
    /// below `parent` as well.
    pub proof fn lemma_below(&self, first: &RawContainer<'_>, parent: &RawContainer<'_>)
        requires
            self.same_place(first),
            first.below(parent),
        ensures
            self.below(parent),
            self.is_mutable(),
    {
    }

    /// A container in which another was opened is consistent again when the
    /// other is no longer used: it holds the document as the other has left
    /// it. Here `origin` is this container before the other was opened, and
    /// `child` the other as it was last.
    pub proof fn lemma_resume(&self, origin: &RawContainer<'_>, child: &RawContainer<'_>)
        requires
            origin.wf(),
            self.same_place(origin),
            child.wf(),
            child.below(origin),
            self.buffer() == child.buffer(),
            self.open_frames() == child.open_frames(),
            kinds(child.path()).take(origin.path().len() as int) == kinds(origin.path()),
        ensures
            self.wf(),
            self.is_mutable(),
            self.key_type() == origin.key_type(),
            self.path() == child.path().take(origin.path().len() as int),
            kinds(self.path()) == kinds(origin.path()),
            self.free() == child.free(),
            self.bytes() == frame_bytes(child.buffer(), child.path(), origin.depth()),
    {
        origin.lemma_wf();
        child.lemma_wf();
        let n = origin.path().len() as int;
        assert(self.path() =~= child.path().take(n));
        assert(kinds(child.path()).take(n)[n - 1] == kinds(origin.path())[n - 1]);
        assert(kinds(self.path()) =~= kinds(origin.path())) by {
            assert forall|i: int| 0 <= i < n implies self.path()[i].key_type
                == origin.path()[i].key_type by {
                assert(kinds(child.path()).take(n)[i] == kinds(origin.path())[i]);
            }
        }
    }

    /// How many containers of the document hold this one.
    closed spec fn own_depth(&self) -> int {
        match self.repr {
            Repr::View { bytes, len, count } => 0,
            Repr::Root { buf, path } => 0,
            Repr::Nested { buf, frames, depth } => depth as int,
        }
    }

    /// The path from the outermost container of the document to this one:
    /// for each, where it starts in the buffer and its header.
    pub closed spec fn path(&self) -> Seq<Frame> {
        self.open_frames().take(self.own_depth() + 1)
    }

    /// Whether this container is in a consistent state: the path describes
    /// the document in the buffer, and this container is the last on it.
    pub closed spec fn wf(&self) -> bool {
        &&& doc_wf(self.buffer(), self.open_frames())
        &&& 0 <= self.own_depth() < self.open_frames().len()
        &&& self.open_frames()[self.own_depth()].key_type == self.key_type
        &&& match self.repr {
            Repr::View { bytes, len, count } => len.spec_value() == bytes@.len(),
            Repr::Root { buf, path } => true,
            Repr::Nested { buf, frames, depth } => depth >= 1,
        }
    }

    /// The kind of key that the elements of this container have.
    pub closed spec fn key_type(&self) -> KeyType {
        self.key_type
    }

    /// Whether elements can be appended to this container.
    pub closed spec fn is_mutable(&self) -> bool {
        !(self.repr is View)
    }

    /// Whether this container and the other are the same container of the
    /// same document in the same state.
    pub open spec fn same_document(&self, other: &RawContainer<'_>) -> bool {
        &&& self.buffer() == other.buffer()
        &&& self.path() == other.path()
        &&& self.key_type() == other.key_type()
        &&& self.is_mutable() == other.is_mutable()
    }

    /// How many containers of the document hold this one.
    pub open spec fn depth(&self) -> int {
        self.path().len() - 1
    }

    /// The bytes of this container: its encoding from the tag to the last
    /// element.
    pub open spec fn bytes(&self) -> Seq<u8> {
        frame_bytes(self.buffer(), self.path(), self.depth())
    }

    /// How many bytes of the buffer are free behind the document.
    pub open spec fn free(&self) -> int {
        self.buffer().len() - doc_end(self.path())
    }

    /// By how many bytes the document grows when an element with this key
    /// and this value is appended to this container: by the bytes of the
    /// element, and by three bytes for every size field on the path that
    /// leaves its one-byte form.
    pub open spec fn needed(&self, key: KeyModel, value: ValueModel) -> int {
        growth(self.path(), 0, (key_size(key) + value_size(value)) as int)
    }

    /// What the bytes of this container decode to.
    pub open spec fn model(&self) -> ContainerModel {
        decode_container(self.bytes(), self.key_type()).unwrap()
    }

    /// The elements of this container in the order in which they stand.
    pub open spec fn entries(&self) -> Seq<(KeyModel, ValueModel)> {
        self.model().entries
    }

    /// In a consistent container the path describes the document, the bytes
    /// of the container are the encoding of a container of its kind, and the
    /// header on the path is the header in the bytes. A read-only view is
    /// alone in its buffer and fills it.
    pub proof fn lemma_wf(&self)
        requires
            self.wf(),
        ensures
            self.path().len() >= 1,
            doc_wf(self.buffer(), self.path()),
            self.path()[self.depth()].key_type == self.key_type(),
            is_container(self.bytes(), self.key_type()),
            3 <= self.bytes().len() <= MAX_SIZE,
            self.model().len == self.path()[self.depth()].len,
            self.model().count == self.path()[self.depth()].count,
            self.entries() == frame_entries(
                self.buffer(),
                self.path(),
                self.depth(),
                doc_end(self.path()),
            ),
            self.entries().len() == self.model().count.spec_value(),
            0 <= self.free(),
            !self.is_mutable() ==> self.depth() == 0 && self.free() == 0 && self.bytes()
                == self.buffer(),
    {
        lemma_doc_prefix(self.buffer(), self.open_frames(), self.own_depth());
        let path = self.path();
        let end = doc_end(path);
        assert(slot_ok(self.buffer(), path, 0, 0, end, end));
        assert(frame_bytes(self.buffer(), self.open_frames(), self.own_depth()) == self.bytes());
        lemma_decode_container_bounds(self.bytes(), self.key_type());
        if !self.is_mutable() {
            assert(self.bytes() =~= self.buffer());
        }
    }

    /// Creates a read-only view over the container of the given kind that
    /// stands at the start of `bytes`.
    ///
    /// The whole container is decoded once, nested containers included; the
    /// view borrows `bytes` and copies nothing.
    pub fn from_bytes(bytes: &'a [u8], key_type: KeyType) -> (r: Result<
        RawContainer<'a>,
        DeserializeError,
    >)
        ensures
            match decode_container(bytes@, key_type) {
                Ok(c) => r matches Ok(container) && container.wf() && !container.is_mutable()
                    && container.key_type() == key_type && container.bytes() == bytes@.subrange(
                    0,
                    c.len.spec_value() as int,
                ),
                Err(e) => r matches Err(err) && err == e,
            },
            is_container(bytes@, key_type) ==> (r matches Ok(container) && container.bytes()
                == bytes@),
        decreases bytes@.len(), 0nat,
    {
        proof {
            reveal(decode_header);
        }
        let tag: u8 = match key_type {
            KeyType::Empty => 0xE0,
            KeyType::Num => 0xE1,
            KeyType::Str => 0xE2,
        };
        if bytes.len() == 0 || bytes[0] != tag {
            return Err(DeserializeError::InvalidType);
        }
        let len = match Size::try_from(slice_subrange(bytes, 1, bytes.len())) {
            Ok(len) => len,
            Err(_) => {
                return Err(DeserializeError::InvalidData);
            },
        };
        proof {
            Size::lemma_parse_bounds(bytes@.skip(1));
        }
        let count = match Size::try_from(slice_subrange(bytes, 1 + len.size(), bytes.len())) {
            Ok(count) => count,
            Err(_) => {
                return Err(DeserializeError::InvalidData);
            },
        };
        let start = 1 + len.size() + count.size();
        let end = len.value();
        if start > end || end > bytes.len() {
            return Err(DeserializeError::InvalidData);
        }
        assert(decode_header(bytes@, key_type) == Ok::<(Size, Size), DeserializeError>(
            (len, count),
        )) by {
            reveal(decode_header);
        }
        let view = slice_subrange(bytes, 0, end);
        let ghost body = bytes@.subrange(start as int, end as int);
        let mut cursor = start;
        let mut seen: usize = 0;
        assert(body.skip(0) == body);
        while cursor < end
            invariant
                3 <= start <= cursor <= end <= bytes@.len(),
                decode_header(bytes@, key_type) == Ok::<(Size, Size), DeserializeError>(
                    (len, count),
                ),
                start == header_size(len, count),
                end == len.spec_value(),
                view@ == bytes@.subrange(0, end as int),
                body == bytes@.subrange(start as int, end as int),
                seen <= cursor - start,
                decode_entries(body, key_type) is Some <==> decode_entries(
                    body.skip(cursor - start),
                    key_type,
                ) is Some,
                decode_entries(body, key_type) is Some ==> decode_entries(
                    body,
                    key_type,
                ).unwrap().len() == seen + decode_entries(
                    body.skip(cursor - start),
                    key_type,
                ).unwrap().len(),
            decreases end - cursor,
        {
            let window = slice_subrange(bytes, cursor, end);
            assert(window@ == body.skip(cursor - start));
            match read_entry(window, key_type) {
                Some((_, _, used)) => {
                    proof {
                        lemma_decode_entry_bounds(window@, key_type);
                        assert(window@.skip(used as int) == body.skip(cursor + used - start));
                    }
                    cursor = cursor + used;
                    seen = seen + 1;
                },
                None => {
                    assert(decode_entries(window@, key_type) is None);
                    assert(decode_entries(body, key_type) is None);
                    return Err(DeserializeError::InvalidData);
                },
            }
        }
        assert(body.skip(cursor - start).len() == 0);
        if seen != count.value() {
            return Err(DeserializeError::InvalidData);
        }
        let container = RawContainer { repr: Repr::View { bytes: view, len, count }, key_type };
        proof {
            if is_container(bytes@, key_type) {
                assert(bytes@.subrange(0, end as int) =~= bytes@);
            }
            assert(view@.subrange(0, end as int) == view@);
            lemma_decode_container_window(bytes@, view@, key_type);
            lemma_decode_container_bounds(bytes@, key_type);
            lemma_doc_of_container(view@, key_type);
            assert(container.open_frames().take(1) =~= container.open_frames());
            assert(container.bytes() =~= view@);
        }
        Ok(container)
    }

    /// Creates a read-only view over the encoding of the empty container of
    /// the given kind: the tag, the length 3 and the count 0.
    pub fn empty(key_type: KeyType) -> (r: RawContainer<'static>)
        ensures
            r.wf(),
            !r.is_mutable(),
            r.key_type() == key_type,
            r.bytes() == empty_bytes(key_type),
            r.entries().len() == 0,
    {
        let bytes: &'static [u8] = match key_type {
            KeyType::Empty => &EMPTY_LIST,
            KeyType::Num => &EMPTY_MAP,
            KeyType::Str => &EMPTY_OBJ,
        };
        let container = RawContainer {
            repr: Repr::View { bytes, len: Size::Compact(3), count: Size::Compact(0) },
            key_type,
        };
        proof {
            lemma_empty_container(key_type);
            lemma_doc_of_container(bytes@, key_type);
            assert(container.open_frames().take(1) =~= container.open_frames());
            assert(container.bytes() =~= bytes@);
        }
        container
    }

    /// Returns the bytes of this container and the number of its elements.
    pub(crate) fn parts(&self) -> (r: (&[u8], Size, Size))
        requires
            self.wf(),
        ensures
            r.0@ == self.bytes(),
            r.1 == self.model().len,
            r.2 == self.model().count,
    {
        proof {
            self.lemma_wf();
            let end = doc_end(self.path());
            assert(slot_ok(self.buffer(), self.path(), 0, 0, end, end));
            assert(slot_ok(self.buffer(), self.path(), self.depth(), 0, end, end));
        }
        match &self.repr {
            Repr::View { bytes, len, count } => {
                assert(bytes@.subrange(0, bytes@.len() as int) == bytes@);
                (bytes, *len, *count)
            },
            Repr::Root { buf, path } => {
                let f = path[0];
                (slice_subrange(buf, 0, f.len.value()), f.len, f.count)
            },
            Repr::Nested { buf, frames, depth } => {
                let f = frames[*depth];
                let end = frames[0].len.value();
                (slice_subrange(buf, f.start, end), f.len, f.count)
            },
        }
    }

    /// Returns the bytes of this container: its encoding from the tag to the
    /// last element, and nothing of the buffer behind it.
    pub fn as_bytes(&self) -> (r: &[u8])
        requires
            self.wf(),
        ensures
            r@ == self.bytes(),
    {
        self.parts().0
    }

    /// Returns the number of elements in this container.
    pub fn count(&self) -> (r: usize)
        requires
            self.wf(),
        ensures
            r == self.entries().len(),
    {
        proof {
            self.lemma_wf();
        }
        self.parts().2.value()
    }

    /// Returns the kind of key that the elements of this container have.
    pub(crate) fn kind(&self) -> (r: KeyType)
        ensures
            r == self.key_type(),
    {
        self.key_type
    }

    /// Creates a container to which elements can be appended, over memory
    /// that holds the encoding of a container of the given kind at its
    /// start. The container is decoded once, as `from_bytes` does; the
    /// memory behind it is free for new elements.
    ///
    /// Of memory longer than `MAX_SIZE` bytes only that many are used.
    pub fn new_mut(allocation: Allocation<'a>, key_type: KeyType) -> (r: Result<
        RawContainer<'a>,
        DeserializeError,
    >)
        ensures
            match decode_container(allocation@, key_type) {
                Ok(c) => r matches Ok(container) && container.wf() && container.is_mutable()
                    && container.key_type() == key_type && container.depth() == 0
                    && container.bytes() == allocation@.subrange(0, c.len.spec_value() as int)
                    && container.buffer() == allocation@.take(
                    if allocation@.len() <= MAX_SIZE {
                        allocation@.len() as int
                    } else {
                        MAX_SIZE as int
                    },
                ),
                Err(e) => r matches Err(err) && err == e,
            },
    {
        match allocation {
            Allocation::Static(memory) => {
                let ghost all = memory@;
                let buf = if memory.len() > MAX_SIZE as usize {
                    let (head, _) = memory.split_at_mut(MAX_SIZE as usize);
                    head
                } else {
                    memory
                };
                proof {
                    assert(buf@ =~= all.take(buf@.len() as int));
                    lemma_clipped_decode(all, buf@, key_type);
                }
                let shared: &[u8] = buf;
                let (len, count) = match RawContainer::from_bytes(shared, key_type) {
                    Ok(view) => {
                        let (_, len, count) = view.parts();
                        proof {
                            lemma_decode_container_bounds(buf@, key_type);
                            assert(view.bytes().subrange(0, view.bytes().len() as int)
                                =~= view.bytes());
                            lemma_decode_container_window(buf@, view.bytes(), key_type);
                        }
                        (len, count)
                    },
                    Err(e) => {
                        return Err(e);
                    },
                };
                let mut path: Vec<Frame> = Vec::new();
                path.push(Frame { start: 0, key_start: 0, len, count, key_type });
                proof {
                    lemma_doc_of_container(buf@, key_type);
                    assert(path@ =~= seq![root_frame(key_type, len, count)]);
                    lemma_decode_container_bounds(all, key_type);
                    lemma_decode_container_bounds(buf@, key_type);
                }
                let container = RawContainer { repr: Repr::Root { buf, path }, key_type };
                proof {
                    assert(container.path() =~= container.open_frames());
                    assert(container.bytes() =~= all.subrange(0, len.spec_value() as int));
                }
                Ok(container)
            },
        }
    }

    /// Returns the value of the first element that has the given key, and
    /// `None` if no element has it.
    pub fn get(&self, key: Key<'_>) -> (r: Option<Value<'_>>)
        requires
            self.wf(),
        ensures
            match r {
                Some(v) => v.wf() && exists|i: int|
                    first_match(self.entries(), key@, i) && self.entries()[i].1 == v@,
                None => forall|i: int|
                    0 <= i < self.entries().len() ==> self.entries()[i].0 != key@,
            },
    {
        let mut iter = self.iter();
        let ghost entries = self.entries();
        let ghost mut seen: int = 0;
        proof {
            assert(entries.skip(0) =~= entries);
        }
        loop
            invariant
                iter.wf(),
                iter.key_type() == self.key_type(),
                entries == self.entries(),
                0 <= seen <= entries.len(),
                decode_entries(iter.remaining(), iter.key_type()) == Some(entries.skip(seen)),
                forall|j: int| 0 <= j < seen ==> entries[j].0 != key@,
            decreases iter.remaining().len(),
        {
            proof {
                if iter.remaining().len() > 0 {
                    lemma_entries_step(iter.remaining(), iter.key_type());
                    assert(entries.skip(seen).skip(1) =~= entries.skip(seen + 1));
                }
            }
            match iter.next() {
                Some((found, value)) => {
                    if keys_equal(&found, &key) {
                        assert(first_match(entries, key@, seen));
                        return Some(value);
                    }
                    proof {
                        seen = seen + 1;
                    }
                },
                None => {
                    assert(entries.skip(seen).len() == 0);
                    return None;
                },
            }
        }
    }

    /// Returns the value of the element at the given position, counted from
    /// zero, and `None` if the container has no more elements than that.
    pub fn get_at(&self, pos: usize) -> (r: Option<Value<'_>>)
        requires
            self.wf(),
        ensures
            match r {
                Some(v) => v.wf() && pos < self.entries().len() && self.entries()[pos as int].1
                    == v@,
                None => pos >= self.entries().len(),
            },
    {
        let mut iter = self.iter();
        let ghost entries = self.entries();
        let mut seen: usize = 0;
        proof {
            assert(entries.skip(0) =~= entries);
        }
        loop
            invariant
                iter.wf(),
                iter.key_type() == self.key_type(),
                entries == self.entries(),
                0 <= seen <= entries.len(),
                seen <= pos,
                decode_entries(iter.remaining(), iter.key_type()) == Some(
                    entries.skip(seen as int),
                ),
            decreases iter.remaining().len(),
        {
            proof {
                if iter.remaining().len() > 0 {
                    lemma_entries_step(iter.remaining(), iter.key_type());
                    assert(entries.skip(seen as int).skip(1) =~= entries.skip(seen + 1));
                }
            }
            match iter.next() {
                Some((_, value)) => {
                    if seen == pos {
                        return Some(value);
                    }
                    seen = seen + 1;
                },
                None => {
                    assert(entries.skip(seen as int).len() == 0);
                    return None;
                },
            }
        }
    }

    /// Returns an iterator over the elements of this container, from the
    /// first on.
    pub fn iter(&self) -> (r: RawIterator<'_>)
        requires
            self.wf(),
        ensures
            r.wf(),
            r.key_type() == self.key_type(),
            decode_entries(r.remaining(), self.key_type()) == Some(self.entries()),
    {
        let (bytes, len, count) = self.parts();
        proof {
            self.lemma_wf();
            lemma_decode_container_bounds(self.bytes(), self.key_type());
            lemma_decode_header_bounds(self.bytes(), self.key_type());
            assert(self.bytes().skip(header_size(len, count) as int) =~= self.bytes().subrange(
                header_size(len, count) as int,
                len.spec_value() as int,
            ));
        }
        RawIterator { bytes, cursor: 1 + len.size() + count.size(), key_type: self.key_type }
    }

    /// Appends a container as a new element: its bytes are copied behind the
    /// key. Returns the copy as a container of the document, to which
    /// elements can be appended in turn.
    ///
    /// Fails with `ReadOnly` on a read-only view, else with `SmallBuffer` if
    /// the buffer has not `needed` bytes free, else with `LongKey` if the
    /// key is a text of more than 255 bytes. Nothing is written then.
    ///
    /// The container returned shares the buffer with this one. As long as it
    /// is in use this one cannot be used; afterwards this one holds the
    /// document as the other has left it, see `lemma_resume`.
    #[verifier::rlimit(30)]
    pub fn add_container(&mut self, key: Key<'_>, container: &RawContainer<'_>) -> (r: Result<
        RawContainer<'_>,
        AddValueError,
    >)
        requires
            old(self).wf(),
            container.wf(),
            key_kind(key@) == old(self).key_type(),
        ensures
            !old(self).is_mutable() ==> r matches Err(AddValueError::ReadOnly),
            old(self).is_mutable() ==> planned(
                old(self).path(),
                old(self).free(),
                key@,
                container_value(container.key_type(), container.bytes()),
                failure(r),
            ),
            r is Err ==> final(self).wf() && final(self).same_document(old(self)),
            final(self).same_place(old(self)),
            final(final(self).shared_buffer())@ == final(old(self).shared_buffer())@,
            final(final(self).shared_frames())@ == final(old(self).shared_frames())@,
            r matches Ok(child) ==> {
                &&& child.below(old(self))
                &&& final(self).buffer() == final(child.shared_buffer())@
                &&& final(self).open_frames() == final(child.shared_frames())@
            },
            r matches Ok(child) ==> {
                &&& child.wf()
                &&& child.is_mutable()
                &&& child.key_type() == container.key_type()
                &&& child.bytes() == container.bytes()
                &&& child.path().len() == old(self).path().len() + 1
                &&& kinds(child.path()) == kinds(old(self).path()).push(child.key_type())
                &&& extended(
                    old(self).buffer(),
                    old(self).path(),
                    child.buffer(),
                    child.path().take(old(self).path().len() as int),
                    key@,
                    container_value(container.key_type(), container.bytes()),
                )
            },
    {
        let child_key_type = container.key_type;
        match &mut self.repr {
            Repr::View { bytes, len, count } => Err(AddValueError::ReadOnly),
            Repr::Root { buf, path } => {
                match append_container(buf, path, 0, &key, container) {
                    Ok(_) => {
                        let child = RawContainer {
                            repr: Repr::Nested { buf: &mut **buf, frames: path, depth: 1 },
                            key_type: child_key_type,
                        };
                        proof {
                            assert(child.path() =~= child.open_frames());
                        }
                        Ok(child)
                    },
                    Err(e) => {
                        proof {
                            assert(path@.take(1) =~= path@);
                        }
                        Err(e)
                    },
                }
            },
            Repr::Nested { buf, frames, depth } => {
                let depth = *depth;
                match append_container(buf, frames, depth, &key, container) {
                    Ok(_) => {
                        let child_depth = frames.len() - 1;
                        let child = RawContainer {
                            repr: Repr::Nested {
                                buf: &mut **buf,
                                frames: &mut **frames,
                                depth: child_depth,
                            },
                            key_type: child_key_type,
                        };
                        proof {
                            assert(child.path() =~= child.open_frames());
                        }
                        Ok(child)
                    },
                    Err(e) => {
                        proof {
                            assert(frames@.take(depth + 1) =~= frames@);
                        }
                        Err(e)
                    },
                }
            },
        }
    }

    /// Appends a value as a new element and returns the value as it stands
    /// in the buffer. A container is appended by copying its bytes, and the
    /// value returned then holds the copy, to which elements can be appended
    /// in turn.
    ///
    /// Fails with `ReadOnly` on a read-only view, else with `SmallBuffer` if
    /// the buffer has not `needed` bytes free, else with `LongKey` if the
    /// key is a text of more than 255 bytes. Nothing is written then.
    ///
    /// A container that is returned shares the buffer with this one. As long
    /// as it is in use this one cannot be used; afterwards this one holds the
    /// document as the other has left it, see `lemma_resume`.
    #[verifier::rlimit(30)]
    pub fn add_value(&mut self, key: Key<'_>, value: Value<'_>) -> (r: Result<
        Value<'_>,
        AddValueError,
    >)
        requires
            old(self).wf(),
            value.wf(),
            key_kind(key@) == old(self).key_type(),
        ensures
            !old(self).is_mutable() ==> r matches Err(AddValueError::ReadOnly),
            old(self).is_mutable() ==> planned(
                old(self).path(),
                old(self).free(),
                key@,
                value@,
                failure(r),
            ),
            r is Err ==> final(self).wf() && final(self).same_document(old(self)),
            final(self).same_place(old(self)),
            final(final(self).shared_buffer())@ == final(old(self).shared_buffer())@,
            final(final(self).shared_frames())@ == final(old(self).shared_frames())@,
            r matches Ok(v) ==> v.wf() && v@ == value@,
            r is Ok && !(value_type(value@).0 is Container) ==> {
                &&& final(self).wf()
                &&& final(self).is_mutable()
                &&& final(self).key_type() == old(self).key_type()
                &&& final(self).entries() == old(self).entries().push((key@, canonical(value@)))
                &&& kinds(final(self).path()) == kinds(old(self).path())
                &&& extended(
                    old(self).buffer(),
                    old(self).path(),
                    final(self).buffer(),
                    final(self).path(),
                    key@,
                    value@,
                )
            },
            r matches Ok(v) ==> value_type(value@).0 is Container ==> opened(
                old(self),
                v.container(),
                key@,
                value@,
            ),
            r matches Ok(v) ==> value_type(value@).0 is Container ==> {
                &&& v.container().unwrap().below(old(self))
                &&& final(self).buffer() == final(v.container().unwrap().shared_buffer())@
                &&& final(self).open_frames() == final(v.container().unwrap().shared_frames())@
            },
    {
        match &value {
            Value::List(list) => {
                proof {
                    list.lemma_inner();
                }
                match self.add_container(key, &list.inner) {
                    Ok(inner) => Ok(wrap(inner)),
                    Err(e) => Err(e),
                }
            },
            Value::IntMap(map) => {
                proof {
                    map.lemma_inner();
                }
                match self.add_container(key, &map.inner) {
                    Ok(inner) => Ok(wrap(inner)),
                    Err(e) => Err(e),
                }
            },
            Value::Object(object) => {
                proof {
                    object.lemma_inner();
                }
                match self.add_container(key, &object.inner) {
                    Ok(inner) => Ok(wrap(inner)),
                    Err(e) => Err(e),
                }
            },
            _ => self.add_plain(key, &value),
        }
    }

    /// Appends a value that is no container as a new element and returns the
    /// value as it stands in the buffer.
    #[verifier::rlimit(30)]
    fn add_plain(&mut self, key: Key<'_>, value: &Value<'_>) -> (r: Result<
        Value<'_>,
        AddValueError,
    >)
        requires
            old(self).wf(),
            !(value_type(value@).0 is Container),
            key_kind(key@) == old(self).key_type(),
        ensures
            !old(self).is_mutable() ==> r matches Err(AddValueError::ReadOnly),
            old(self).is_mutable() ==> planned(
                old(self).path(),
                old(self).free(),
                key@,
                value@,
                failure(r),
            ),
            r is Err ==> final(self).wf() && final(self).same_document(old(self)),
            final(self).same_place(old(self)),
            final(final(self).shared_buffer())@ == final(old(self).shared_buffer())@,
            final(final(self).shared_frames())@ == final(old(self).shared_frames())@,
            r matches Ok(v) ==> {
                &&& v.wf()
                &&& v@ == value@
                &&& final(self).wf()
                &&& final(self).is_mutable()
                &&& final(self).key_type() == old(self).key_type()
                &&& final(self).entries() == old(self).entries().push((key@, canonical(value@)))
                &&& kinds(final(self).path()) == kinds(old(self).path())
                &&& extended(
                    old(self).buffer(),
                    old(self).path(),
                    final(self).buffer(),
                    final(self).path(),
                    key@,
                    value@,
                )
            },
    {
        let ghost before = self.buffer();
        proof {
            self.lemma_wf();
        }
        match &mut self.repr {
            Repr::View { bytes, len, count } => Err(AddValueError::ReadOnly),
            Repr::Root { buf, path } => {
                match append_plain(buf, path, 0, &key, value) {
                    Ok(region) => {
                        proof {
                            assert(path@.take(1) =~= path@);
                        }
                        Ok(value.rebuild(region))
                    },
                    Err(e) => {
                        proof {
                            assert(path@.take(1) =~= path@);
                        }
                        Err(e)
                    },
                }
            },
            Repr::Nested { buf, frames, depth } => {
                let depth = *depth;
                match append_plain(buf, frames, depth, &key, value) {
                    Ok(region) => {
                        proof {
                            assert(frames@.take(depth + 1) =~= frames@);
                        }
                        Ok(value.rebuild(region))
                    },
                    Err(e) => {
                        proof {
                            assert(frames@.take(depth + 1) =~= frames@);
                        }
                        Err(e)
                    },
                }
            },
        }
    }

    /// The bytes that this container holds according to its path, if the
    /// path lies within the buffer. For a consistent container these are its
    /// bytes.
    pub closed spec fn content(&self) -> Option<Seq<u8>> {
        let frames = self.open_frames();
        let d = self.own_depth();
        if d < frames.len() && frames[d].start <= frames[0].len.spec_value()
            <= self.buffer().len() {
            Some(self.buffer().subrange(frames[d].start as int, frames[0].len.spec_value() as int))
        } else {
            None
        }
    }

    /// The content of a consistent container is its bytes.
    pub proof fn lemma_content(&self)
        requires
            self.wf(),
        ensures
            self.content() == Some(self.bytes()),
    {
        self.lemma_wf();
        let end = doc_end(self.open_frames());
        assert(slot_ok(self.buffer(), self.open_frames(), 0, 0, end, end));
        assert(slot_ok(self.buffer(), self.open_frames(), self.own_depth(), 0, end, end));
    }

    /// Returns the content of this container.
    fn checked_bytes(&self) -> (r: Option<&[u8]>)
        ensures
            match self.content() {
                Some(bytes) => r matches Some(b) && b@ == bytes,
                None => r is None,
            },
    {
        match &self.repr {
            Repr::View { bytes, len, count } => {
                if len.value() <= bytes.len() {
                    Some(slice_subrange(bytes, 0, len.value()))
                } else {
                    None
                }
            },
            Repr::Root { buf, path } => {
                if path.len() == 0 {
                    return None;
                }
                let end = path[0].len.value();
                let start = path[0].start;
                if start <= end && end <= buf.len() {
                    Some(slice_subrange(buf, start, end))
                } else {
                    None
                }
            },
            Repr::Nested { buf, frames, depth } => {
                if *depth >= frames.len() {
                    return None;
                }
                let end = frames[0].len.value();
                let start = frames[*depth].start;
                if start <= end && end <= buf.len() {
                    Some(slice_subrange(buf, start, end))
                } else {
                    None
                }
            },
        }
    }
}

/// An iterator over the elements of a container.
#[derive(Debug)]
pub struct RawIterator<'a> {
    bytes: &'a [u8],
    cursor: usize,
    key_type: KeyType,
}

impl<'a> RawIterator<'a> {
    /// Whether the iterator stands within its container.
    pub closed spec fn wf(&self) -> bool {
        self.cursor <= self.bytes@.len()
    }

    /// The bytes that the iterator has not yet read.
    pub closed spec fn remaining(&self) -> Seq<u8> {
        self.bytes@.skip(self.cursor as int)
    }

    /// The kind of key that the elements have.
    pub closed spec fn key_type(&self) -> KeyType {
        self.key_type
    }

    /// Reads the next element. Returns `None` at the end of the container,
    /// and also where the bytes ahead are no element; the iterator then
    /// stays where it is.
    pub fn next(&mut self) -> (r: Option<(Key<'a>, Value<'a>)>)
        requires
            old(self).wf(),
        ensures
            final(self).wf(),
            final(self).key_type() == old(self).key_type(),
            match (if old(self).remaining().len() == 0 {
                None
            } else {
                decode_entry(old(self).remaining(), old(self).key_type())
            }) {
                Some((entry, n)) => r matches Some((key, value)) && key@ == entry.0 && value@
                    == entry.1 && value.wf() && final(self).remaining() == old(
                    self,
                ).remaining().skip(n as int),
                None => r is None && final(self).remaining() == old(self).remaining(),
            },
    {
        if self.cursor >= self.bytes.len() {
            return None;
        }
        let window = slice_subrange(self.bytes, self.cursor, self.bytes.len());
        match read_entry(window, self.key_type) {
            Some((key, value, used)) => {
                proof {
                    lemma_decode_entry_bounds(window@, self.key_type);
                    assert(self.bytes@.skip(self.cursor as int).skip(used as int)
                        =~= self.bytes@.skip(self.cursor + used));
                }
                self.cursor = self.cursor + used;
                Some((key, value))
            },
            None => None,
        }
    }
}

impl<'a> PartialEq for RawContainer<'a> {
    /// Two containers are equal if their bytes are.
    fn eq(&self, other: &Self) -> (r: bool) {
        match (self.checked_bytes(), other.checked_bytes()) {
            (Some(a), Some(b)) => bytes_equal(a, b),
            (None, None) => true,
            _ => false,
        }
    }
}

impl<'a> vstd::std_specs::cmp::PartialEqSpecImpl for RawContainer<'a> {
    open spec fn obeys_eq_spec() -> bool {
        true
    }

    open spec fn eq_spec(&self, other: &Self) -> bool {
        self.content() == other.content()
    }
}

} // verus!
