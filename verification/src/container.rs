//! The three kinds of container: lists, maps and objects.

use crate::allocation::Allocation;
use crate::error::{AddValueError, SmallBufferError};
use crate::format::{canonical, decode_entries, value_type, KeyModel, ValueModel};
use crate::lemmas::lemma_decode_key_bounds;
use crate::document::{kinds, lemma_entries_step};
use crate::append::{extended, failure, planned};
use crate::raw_container::{
    empty_bytes, first_match, lemma_empty_container, opened, Key, KeyType, RawContainer,
};
use crate::size::MAX_SIZE;
use crate::value::Value;
use vstd::prelude::*;

verus! {

/// A container whose elements stand one behind the other and are found by
/// position.
#[derive(Debug, PartialEq)]
pub struct List<'a> {
    pub(crate) inner: RawContainer<'a>,
}

/// A container whose elements have a 32-bit signed number as their key.
#[derive(Debug, PartialEq)]
pub struct IntMap<'a> {
    pub(crate) inner: RawContainer<'a>,
}

/// A container whose elements have a text of at most 255 bytes as their key.
#[derive(Debug, PartialEq)]
pub struct Object<'a> {
    pub(crate) inner: RawContainer<'a>,
}

/// Creates a container of the given kind to which elements can be appended,
/// over the given memory: writes the encoding of the empty container at its
/// start and leaves the rest free for elements.
///
/// Fails if the memory has fewer than three bytes.
pub fn empty_mut<'a>(allocation: Allocation<'a>, key_type: KeyType) -> (r: Result<
    RawContainer<'a>,
    SmallBufferError,
>)
    ensures
        allocation@.len() < 3 ==> (r matches Err(e) && e.required_extra == 3 - allocation@.len()),
        allocation@.len() >= 3 ==> (r matches Ok(container) && container.wf()
            && container.is_mutable() && container.key_type() == key_type && container.depth()
            == 0 && container.bytes() == empty_bytes(key_type) && container.entries().len() == 0
            && container.free() == (if allocation@.len() <= MAX_SIZE {
            allocation@.len() as int
        } else {
            MAX_SIZE as int
        }) - 3 && container.buffer().skip(3) == allocation@.subrange(
            3,
            if allocation@.len() <= MAX_SIZE {
                allocation@.len() as int
            } else {
                MAX_SIZE as int
            },
        )),
{
    match allocation {
        Allocation::Static(buf) => {
            let len = buf.len();
            if len < 3 {
                return Err(SmallBufferError { required_extra: 3 - len });
            }
            buf[0] =
            match key_type {
                KeyType::Empty => 0xE0,
                KeyType::Num => 0xE1,
                KeyType::Str => 0xE2,
            };
            buf[1] = 0x03;
            buf[2] = 0x00;
            proof {
                lemma_empty_container(key_type);
                assert(buf@.subrange(0, 3) =~= empty_bytes(key_type));
                assert(empty_bytes(key_type).subrange(0, 3) =~= empty_bytes(key_type));
                crate::lemmas::lemma_decode_container_window(
                    empty_bytes(key_type),
                    buf@,
                    key_type,
                );
            }
            let ghost written = buf@;
            match RawContainer::new_mut(Allocation::Static(buf), key_type) {
                Ok(container) => {
                    proof {
                        container.lemma_wf();
                        let cap = container.buffer().len() as int;
                        assert(container.buffer().skip(3) =~= written.subrange(3, cap));
                        assert(written.subrange(3, cap) =~= allocation@.subrange(3, cap));
                    }
                    Ok(container)
                },
                // The three bytes just written decode, so this does not happen.
                Err(_) => Err(SmallBufferError { required_extra: 0 }),
            }
        },
    }
}

impl<'a> List<'a> {
    /// The container inside this list.
    pub closed spec fn raw(&self) -> RawContainer<'a> {
        self.inner
    }

    /// Whether this list is in a consistent state.
    pub open spec fn wf(&self) -> bool {
        self.raw().wf() && self.raw().key_type() == KeyType::Empty
    }

    /// The bytes of this list: its encoding from the tag to the last element.
    pub open spec fn bytes(&self) -> Seq<u8> {
        self.raw().bytes()
    }

    /// The elements of this list in the order in which they stand.
    pub open spec fn entries(&self) -> Seq<(KeyModel, ValueModel)> {
        self.raw().entries()
    }

    /// The container inside this list is the one that `raw` gives.
    pub(crate) proof fn lemma_inner(&self)
        ensures
            self.raw() == self.inner,
    {
    }

    /// A list that is no longer used holds a container that is no longer
    /// used.
    pub proof fn lemma_done(self)
        requires
            has_resolved(self),
        ensures
            has_resolved(self.raw()),
    {
    }

    /// Appends a value and returns it as it stands in the buffer.
    ///
    /// See `RawContainer::add_value`.
    pub fn add_value(&mut self, value: Value<'_>) -> (r: Result<Value<'_>, AddValueError>)
        requires
            old(self).wf(),
            value.wf(),
        ensures
            !old(self).raw().is_mutable() ==> r matches Err(AddValueError::ReadOnly),
            old(self).raw().is_mutable() ==> planned(
                old(self).raw().path(),
                old(self).raw().free(),
                KeyModel::Empty,
                value@,
                failure(r),
            ),
            r is Err ==> final(self).wf() && final(self).raw().same_document(&old(self).raw()),
            final(self).raw().same_place(&old(self).raw()),
            final(final(self).raw().shared_buffer())@ == final(old(self).raw().shared_buffer())@,
            final(final(self).raw().shared_frames())@ == final(old(self).raw().shared_frames())@,
            r matches Ok(v) ==> v.wf() && v@ == value@,
            r is Ok && !(value_type(value@).0 is Container) ==> {
                &&& final(self).wf()
                &&& final(self).raw().is_mutable()
                &&& final(self).entries() == old(self).entries().push((KeyModel::Empty, canonical(value@)))
                &&& kinds(final(self).raw().path()) == kinds(old(self).raw().path())
                &&& extended(
                    old(self).raw().buffer(),
                    old(self).raw().path(),
                    final(self).raw().buffer(),
                    final(self).raw().path(),
                    KeyModel::Empty,
                    value@,
                )
            },
            r matches Ok(v) ==> value_type(value@).0 is Container ==> opened(
                &old(self).raw(),
                v.container(),
                KeyModel::Empty,
                value@,
            ),
            r matches Ok(v) ==> value_type(value@).0 is Container ==> ({
                let child = v.container().unwrap();
                &&& child.below(&old(self).raw())
                &&& final(self).raw().buffer() == final(child.shared_buffer())@
                &&& final(self).raw().open_frames() == final(child.shared_frames())@
            }),
    {
        self.inner.add_value(Key::Empty, value)
    }

    /// Returns the bytes of this list, and nothing of the buffer behind
    /// them.
    pub fn as_bytes(&self) -> (r: &[u8])
        requires
            self.wf(),
        ensures
            r@ == self.bytes(),
    {
        self.inner.as_bytes()
    }

    /// Returns the number of elements in this list.
    pub fn count(&self) -> (r: usize)
        requires
            self.wf(),
        ensures
            r == self.entries().len(),
    {
        self.inner.count()
    }

    /// Returns the empty list, read-only.
    pub fn empty() -> (r: List<'static>)
        ensures
            r.wf(),
            !r.raw().is_mutable(),
            r.bytes() == empty_bytes(KeyType::Empty),
            r.entries().len() == 0,
    {
        List { inner: RawContainer::empty(KeyType::Empty) }
    }

    /// Creates an empty list to which values can be appended, over the given
    /// memory.
    ///
    /// Fails if the memory has fewer than three bytes.
    pub fn empty_mut(allocation: Allocation<'a>) -> (r: Result<List<'a>, SmallBufferError>)
        ensures
            allocation@.len() < 3 ==> (r matches Err(e) && e.required_extra == 3
                - allocation@.len()),
            allocation@.len() >= 3 ==> (r matches Ok(list) && list.wf() && list.raw().is_mutable()
                && list.bytes() == empty_bytes(KeyType::Empty) && list.entries().len() == 0
                && list.raw().depth() == 0 && list.raw().free() == (if allocation@.len()
                <= MAX_SIZE {
                allocation@.len() as int
            } else {
                MAX_SIZE as int
            }) - 3 && list.raw().buffer().skip(3) == allocation@.subrange(
                3,
                if allocation@.len() <= MAX_SIZE {
                    allocation@.len() as int
                } else {
                    MAX_SIZE as int
                },
            )),
    {
        match empty_mut(allocation, KeyType::Empty) {
            Ok(inner) => Ok(List { inner }),
            Err(e) => Err(e),
        }
    }

    /// Returns the value at the given position, counted from zero.
    pub fn get(&self, pos: usize) -> (r: Option<Value<'_>>)
        requires
            self.wf(),
        ensures
            match r {
                Some(v) => v.wf() && pos < self.entries().len() && self.entries()[pos as int].1
                    == v@,
                None => pos >= self.entries().len(),
            },
    {
        self.inner.get_at(pos)
    }

    /// Returns the values of this list in the order in which they stand.
    pub fn iter(&self) -> (r: Vec<Value<'_>>)
        requires
            self.wf(),
        ensures
            r@.len() == self.entries().len(),
            forall|i: int| 0 <= i < r@.len() ==> (#[trigger] r@[i])@ == self.entries()[i].1,
            forall|i: int| 0 <= i < r@.len() ==> (#[trigger] r@[i]).wf(),
    {
        let mut iter = self.inner.iter();
        let ghost entries = self.entries();
        let mut out: Vec<Value<'_>> = Vec::new();
        proof {
            assert(entries.skip(0) =~= entries);
        }
        loop
            invariant
                iter.wf(),
                iter.key_type() == KeyType::Empty,
                out@.len() <= entries.len(),
                decode_entries(iter.remaining(), KeyType::Empty) == Some(
                    entries.skip(out@.len() as int),
                ),
                forall|i: int| 0 <= i < out@.len() ==> (#[trigger] out@[i])@ == entries[i].1,
                forall|i: int| 0 <= i < out@.len() ==> (#[trigger] out@[i]).wf(),
            ensures
                out@.len() == entries.len(),
                forall|i: int| 0 <= i < out@.len() ==> (#[trigger] out@[i])@ == entries[i].1,
                forall|i: int| 0 <= i < out@.len() ==> (#[trigger] out@[i]).wf(),
            decreases iter.remaining().len(),
        {
            proof {
                if iter.remaining().len() > 0 {
                    lemma_entries_step(iter.remaining(), KeyType::Empty);
                    assert(entries.skip(out@.len() as int).skip(1) =~= entries.skip(
                        out@.len() + 1int,
                    ));
                }
            }
            match iter.next() {
                Some((_, value)) => {
                    out.push(value);
                },
                None => {
                    assert(entries.skip(out@.len() as int).len() == 0);
                    break ;
                },
            }
        }
        out
    }
}

impl<'a> IntMap<'a> {
    /// The container inside this map.
    pub closed spec fn raw(&self) -> RawContainer<'a> {
        self.inner
    }

    /// Whether this map is in a consistent state.
    pub open spec fn wf(&self) -> bool {
        self.raw().wf() && self.raw().key_type() == KeyType::Num
    }

    /// The bytes of this map: its encoding from the tag to the last element.
    pub open spec fn bytes(&self) -> Seq<u8> {
        self.raw().bytes()
    }

    /// The elements of this map in the order in which they stand.
    pub open spec fn entries(&self) -> Seq<(KeyModel, ValueModel)> {
        self.raw().entries()
    }

    /// The container inside this map is the one that `raw` gives.
    pub(crate) proof fn lemma_inner(&self)
        ensures
            self.raw() == self.inner,
    {
    }

    /// A map that is no longer used holds a container that is no longer
    /// used.
    pub proof fn lemma_done(self)
        requires
            has_resolved(self),
        ensures
            has_resolved(self.raw()),
    {
    }

    /// Appends a value under the given key and returns it as it stands in
    /// the buffer.
    ///
    /// See `RawContainer::add_value`.
    pub fn add_value(&mut self, key: i32, value: Value<'_>) -> (r: Result<
        Value<'_>,
        AddValueError,
    >)
        requires
            old(self).wf(),
            value.wf(),
        ensures
            !old(self).raw().is_mutable() ==> r matches Err(AddValueError::ReadOnly),
            old(self).raw().is_mutable() ==> planned(
                old(self).raw().path(),
                old(self).raw().free(),
                KeyModel::Num(key),
                value@,
                failure(r),
            ),
            r is Err ==> final(self).wf() && final(self).raw().same_document(&old(self).raw()),
            final(self).raw().same_place(&old(self).raw()),
            final(final(self).raw().shared_buffer())@ == final(old(self).raw().shared_buffer())@,
            final(final(self).raw().shared_frames())@ == final(old(self).raw().shared_frames())@,
            r matches Ok(v) ==> v.wf() && v@ == value@,
            r is Ok && !(value_type(value@).0 is Container) ==> {
                &&& final(self).wf()
                &&& final(self).raw().is_mutable()
                &&& final(self).entries() == old(self).entries().push((KeyModel::Num(key), canonical(value@)))
                &&& kinds(final(self).raw().path()) == kinds(old(self).raw().path())
                &&& extended(
                    old(self).raw().buffer(),
                    old(self).raw().path(),
                    final(self).raw().buffer(),
                    final(self).raw().path(),
                    KeyModel::Num(key),
                    value@,
                )
            },
            r matches Ok(v) ==> value_type(value@).0 is Container ==> opened(
                &old(self).raw(),
                v.container(),
                KeyModel::Num(key),
                value@,
            ),
            r matches Ok(v) ==> value_type(value@).0 is Container ==> ({
                let child = v.container().unwrap();
                &&& child.below(&old(self).raw())
                &&& final(self).raw().buffer() == final(child.shared_buffer())@
                &&& final(self).raw().open_frames() == final(child.shared_frames())@
            }),
    {
        self.inner.add_value(Key::Num(key), value)
    }

    /// Returns the bytes of this map, and nothing of the buffer behind
    /// them.
    pub fn as_bytes(&self) -> (r: &[u8])
        requires
            self.wf(),
        ensures
            r@ == self.bytes(),
    {
        self.inner.as_bytes()
    }

    /// Returns the number of elements in this map.
    pub fn count(&self) -> (r: usize)
        requires
            self.wf(),
        ensures
            r == self.entries().len(),
    {
        self.inner.count()
    }

    /// Returns the empty map, read-only.
    pub fn empty() -> (r: IntMap<'static>)
        ensures
            r.wf(),
            !r.raw().is_mutable(),
            r.bytes() == empty_bytes(KeyType::Num),
            r.entries().len() == 0,
    {
        IntMap { inner: RawContainer::empty(KeyType::Num) }
    }

    /// Creates an empty map to which values can be appended, over the given
    /// memory.
    ///
    /// Fails if the memory has fewer than three bytes.
    pub fn empty_mut(allocation: Allocation<'a>) -> (r: Result<IntMap<'a>, SmallBufferError>)
        ensures
            allocation@.len() < 3 ==> (r matches Err(e) && e.required_extra == 3
                - allocation@.len()),
            allocation@.len() >= 3 ==> (r matches Ok(list) && list.wf() && list.raw().is_mutable()
                && list.bytes() == empty_bytes(KeyType::Num) && list.entries().len() == 0
                && list.raw().depth() == 0 && list.raw().free() == (if allocation@.len()
                <= MAX_SIZE {
                allocation@.len() as int
            } else {
                MAX_SIZE as int
            }) - 3 && list.raw().buffer().skip(3) == allocation@.subrange(
                3,
                if allocation@.len() <= MAX_SIZE {
                    allocation@.len() as int
                } else {
                    MAX_SIZE as int
                },
            )),
    {
        match empty_mut(allocation, KeyType::Num) {
            Ok(inner) => Ok(IntMap { inner }),
            Err(e) => Err(e),
        }
    }

    /// Returns the value of the first element that has the given key, and
    /// `None` if no element has it.
    pub fn get(&self, key: i32) -> (r: Option<Value<'_>>)
        requires
            self.wf(),
        ensures
            match r {
                Some(v) => v.wf() && exists|i: int|
                    first_match(self.entries(), KeyModel::Num(key), i) && self.entries()[i].1 == v@,
                None => forall|i: int|
                    0 <= i < self.entries().len() ==> self.entries()[i].0 != KeyModel::Num(key),
            },
    {
        self.inner.get(Key::Num(key))
    }

    /// Returns the keys and the values of this map in the order in which
    /// they stand.
    pub fn iter(&self) -> (r: Vec<(i32, Value<'_>)>)
        requires
            self.wf(),
        ensures
            r@.len() == self.entries().len(),
            forall|i: int|
                0 <= i < r@.len() ==> KeyModel::Num(r@[i].0) == self.entries()[i].0 && (#[trigger] r@[i]).1@
                    == self.entries()[i].1,
            forall|i: int| 0 <= i < r@.len() ==> (#[trigger] r@[i]).1.wf(),
    {
        let mut iter = self.inner.iter();
        let ghost entries = self.entries();
        let mut out: Vec<(i32, Value<'_>)> = Vec::new();
        proof {
            assert(entries.skip(0) =~= entries);
        }
        loop
            invariant
                iter.wf(),
                iter.key_type() == KeyType::Num,
                out@.len() <= entries.len(),
                decode_entries(iter.remaining(), KeyType::Num) == Some(
                    entries.skip(out@.len() as int),
                ),
                forall|i: int|
                    0 <= i < out@.len() ==> KeyModel::Num(out@[i].0) == entries[i].0 && (#[trigger] out@[i]).1@
                        == entries[i].1,
                forall|i: int| 0 <= i < out@.len() ==> (#[trigger] out@[i]).1.wf(),
            ensures
                out@.len() == entries.len(),
                forall|i: int|
                    0 <= i < out@.len() ==> KeyModel::Num(out@[i].0) == entries[i].0 && (#[trigger] out@[i]).1@
                        == entries[i].1,
                forall|i: int| 0 <= i < out@.len() ==> (#[trigger] out@[i]).1.wf(),
            decreases iter.remaining().len(),
        {
            proof {
                if iter.remaining().len() > 0 {
                    lemma_entries_step(iter.remaining(), KeyType::Num);
                    assert(entries.skip(out@.len() as int).skip(1) =~= entries.skip(
                        out@.len() + 1int,
                    ));
                }
            }
            match iter.next() {
                Some((Key::Num(key), value)) => {
                    out.push((key, value));
                },
                // Every key of this container is of its kind.
                Some(_) => {
                    proof {
                        lemma_decode_key_bounds(iter.remaining(), KeyType::Num);
                    }
                    assert(entries.skip(out@.len() as int).len() == 0);
                    break ;
                },
                None => {
                    assert(entries.skip(out@.len() as int).len() == 0);
                    break ;
                },
            }
        }
        out
    }
}

impl<'a> Object<'a> {
    /// The container inside this object.
    pub closed spec fn raw(&self) -> RawContainer<'a> {
        self.inner
    }

    /// Whether this object is in a consistent state.
    pub open spec fn wf(&self) -> bool {
        self.raw().wf() && self.raw().key_type() == KeyType::Str
    }

    /// The bytes of this object: its encoding from the tag to the last element.
    pub open spec fn bytes(&self) -> Seq<u8> {
        self.raw().bytes()
    }

    /// The elements of this object in the order in which they stand.
    pub open spec fn entries(&self) -> Seq<(KeyModel, ValueModel)> {
        self.raw().entries()
    }

    /// The container inside this object is the one that `raw` gives.
    pub(crate) proof fn lemma_inner(&self)
        ensures
            self.raw() == self.inner,
    {
    }

    /// A object that is no longer used holds a container that is no longer
    /// used.
    pub proof fn lemma_done(self)
        requires
            has_resolved(self),
        ensures
            has_resolved(self.raw()),
    {
    }

    /// Appends a value under the given key and returns it as it stands in
    /// the buffer.
    ///
    /// See `RawContainer::add_value`.
    pub fn add_value(&mut self, key: &str, value: Value<'_>) -> (r: Result<
        Value<'_>,
        AddValueError,
    >)
        requires
            old(self).wf(),
            value.wf(),
        ensures
            !old(self).raw().is_mutable() ==> r matches Err(AddValueError::ReadOnly),
            old(self).raw().is_mutable() ==> planned(
                old(self).raw().path(),
                old(self).raw().free(),
                KeyModel::Str(key@),
                value@,
                failure(r),
            ),
            r is Err ==> final(self).wf() && final(self).raw().same_document(&old(self).raw()),
            final(self).raw().same_place(&old(self).raw()),
            final(final(self).raw().shared_buffer())@ == final(old(self).raw().shared_buffer())@,
            final(final(self).raw().shared_frames())@ == final(old(self).raw().shared_frames())@,
            r matches Ok(v) ==> v.wf() && v@ == value@,
            r is Ok && !(value_type(value@).0 is Container) ==> {
                &&& final(self).wf()
                &&& final(self).raw().is_mutable()
                &&& final(self).entries() == old(self).entries().push((KeyModel::Str(key@), canonical(value@)))
                &&& kinds(final(self).raw().path()) == kinds(old(self).raw().path())
                &&& extended(
                    old(self).raw().buffer(),
                    old(self).raw().path(),
                    final(self).raw().buffer(),
                    final(self).raw().path(),
                    KeyModel::Str(key@),
                    value@,
                )
            },
            r matches Ok(v) ==> value_type(value@).0 is Container ==> opened(
                &old(self).raw(),
                v.container(),
                KeyModel::Str(key@),
                value@,
            ),
            r matches Ok(v) ==> value_type(value@).0 is Container ==> ({
                let child = v.container().unwrap();
                &&& child.below(&old(self).raw())
                &&& final(self).raw().buffer() == final(child.shared_buffer())@
                &&& final(self).raw().open_frames() == final(child.shared_frames())@
            }),
    {
        self.inner.add_value(Key::Str(key), value)
    }

    /// Returns the bytes of this object, and nothing of the buffer behind
    /// them.
    pub fn as_bytes(&self) -> (r: &[u8])
        requires
            self.wf(),
        ensures
            r@ == self.bytes(),
    {
        self.inner.as_bytes()
    }

    /// Returns the number of elements in this object.
    pub fn count(&self) -> (r: usize)
        requires
            self.wf(),
        ensures
            r == self.entries().len(),
    {
        self.inner.count()
    }

    /// Returns the empty object, read-only.
    pub fn empty() -> (r: Object<'static>)
        ensures
            r.wf(),
            !r.raw().is_mutable(),
            r.bytes() == empty_bytes(KeyType::Str),
            r.entries().len() == 0,
    {
        Object { inner: RawContainer::empty(KeyType::Str) }
    }

    /// Creates an empty object to which values can be appended, over the given
    /// memory.
    ///
    /// Fails if the memory has fewer than three bytes.
    pub fn empty_mut(allocation: Allocation<'a>) -> (r: Result<Object<'a>, SmallBufferError>)
        ensures
            allocation@.len() < 3 ==> (r matches Err(e) && e.required_extra == 3
                - allocation@.len()),
            allocation@.len() >= 3 ==> (r matches Ok(list) && list.wf() && list.raw().is_mutable()
                && list.bytes() == empty_bytes(KeyType::Str) && list.entries().len() == 0
                && list.raw().depth() == 0 && list.raw().free() == (if allocation@.len()
                <= MAX_SIZE {
                allocation@.len() as int
            } else {
                MAX_SIZE as int
            }) - 3 && list.raw().buffer().skip(3) == allocation@.subrange(
                3,
                if allocation@.len() <= MAX_SIZE {
                    allocation@.len() as int
                } else {
                    MAX_SIZE as int
                },
            )),
    {
        match empty_mut(allocation, KeyType::Str) {
            Ok(inner) => Ok(Object { inner }),
            Err(e) => Err(e),
        }
    }

    /// Returns the value of the first element that has the given key, and
    /// `None` if no element has it.
    pub fn get(&self, key: &str) -> (r: Option<Value<'_>>)
        requires
            self.wf(),
        ensures
            match r {
                Some(v) => v.wf() && exists|i: int|
                    first_match(self.entries(), KeyModel::Str(key@), i) && self.entries()[i].1 == v@,
                None => forall|i: int|
                    0 <= i < self.entries().len() ==> self.entries()[i].0 != KeyModel::Str(key@),
            },
    {
        self.inner.get(Key::Str(key))
    }

    /// Returns the keys and the values of this object in the order in which
    /// they stand.
    pub fn iter(&self) -> (r: Vec<(&str, Value<'_>)>)
        requires
            self.wf(),
        ensures
            r@.len() == self.entries().len(),
            forall|i: int|
                0 <= i < r@.len() ==> KeyModel::Str(r@[i].0@) == self.entries()[i].0 && (#[trigger] r@[i]).1@
                    == self.entries()[i].1,
            forall|i: int| 0 <= i < r@.len() ==> (#[trigger] r@[i]).1.wf(),
    {
        let mut iter = self.inner.iter();
        let ghost entries = self.entries();
        let mut out: Vec<(&str, Value<'_>)> = Vec::new();
        proof {
            assert(entries.skip(0) =~= entries);
        }
        loop
            invariant
                iter.wf(),
                iter.key_type() == KeyType::Str,
                out@.len() <= entries.len(),
                decode_entries(iter.remaining(), KeyType::Str) == Some(
                    entries.skip(out@.len() as int),
                ),
                forall|i: int|
                    0 <= i < out@.len() ==> KeyModel::Str(out@[i].0@) == entries[i].0 && (#[trigger] out@[i]).1@
                        == entries[i].1,
                forall|i: int| 0 <= i < out@.len() ==> (#[trigger] out@[i]).1.wf(),
            ensures
                out@.len() == entries.len(),
                forall|i: int|
                    0 <= i < out@.len() ==> KeyModel::Str(out@[i].0@) == entries[i].0 && (#[trigger] out@[i]).1@
                        == entries[i].1,
                forall|i: int| 0 <= i < out@.len() ==> (#[trigger] out@[i]).1.wf(),
            decreases iter.remaining().len(),
        {
            proof {
                if iter.remaining().len() > 0 {
                    lemma_entries_step(iter.remaining(), KeyType::Str);
                    assert(entries.skip(out@.len() as int).skip(1) =~= entries.skip(
                        out@.len() + 1int,
                    ));
                }
            }
            match iter.next() {
                Some((Key::Str(key), value)) => {
                    out.push((key, value));
                },
                // Every key of this container is of its kind.
                Some(_) => {
                    proof {
                        lemma_decode_key_bounds(iter.remaining(), KeyType::Str);
                    }
                    assert(entries.skip(out@.len() as int).len() == 0);
                    break ;
                },
                None => {
                    assert(entries.skip(out@.len() as int).len() == 0);
                    break ;
                },
            }
        }
        out
    }
}

} // verus!
