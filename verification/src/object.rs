//! The object model: identifiers, the closed union of object values,
//! dictionaries, streams and the errors of this library.
use vstd::prelude::*;
use crate::bytes::bytes_eq;
use vstd::slice::slice_to_vec;

verus! {

/// Object number and generation of an indirect object.
pub type ObjectId = (u32, u16);

/// Whether `a` comes before `b`: by object number, then by generation.
pub open spec fn id_lt(a: ObjectId, b: ObjectId) -> bool {
    a.0 < b.0 || (a.0 == b.0 && a.1 < b.1)
}

pub fn id_less(a: ObjectId, b: ObjectId) -> (r: bool)
    ensures
        r == id_lt(a, b),
{
    a.0 < b.0 || (a.0 == b.0 && a.1 < b.1)
}

pub fn id_equal(a: ObjectId, b: ObjectId) -> (r: bool)
    ensures
        r == (a == b),
{
    a.0 == b.0 && a.1 == b.1
}

/// A real number as a decimal fraction: `units` divided by ten to the power
/// `scale`. It is written with exactly `scale` digits after the point.
#[derive(Clone, Copy, Debug, PartialEq, Eq, Structural)]
pub struct Real {
    pub units: i64,
    pub scale: u8,
}

/// What can go wrong in this library.
#[derive(Debug, PartialEq, Eq)]
pub enum Error {
    /// A dictionary lacks a required entry.
    MissingKey,
    /// A value is not of the variant that was asked for.
    WrongType,
    /// An integer does not fit the platform's offset width.
    NumericCast,
    /// An offset lies beyond the content it refers to.
    InvalidOffset(usize),
    /// The index block of a container is not valid text.
    InvalidContainer,
    /// A stream was offered to a container.
    DisallowedContent,
    /// The container already holds as many objects as it may.
    CapacityExceeded(usize),
    /// The document has no object with this identifier.
    NotFound(ObjectId),
    /// An object has no serialized form.
    Unserializable,
    /// The stream names a filter that this library does not decode.
    UnsupportedFilter,
    /// The compressor or decompressor reported a failure.
    Compression,
}

/// A value of the document's object model.
#[derive(Debug, PartialEq)]
pub enum Object {
    Null,
    Boolean(bool),
    Integer(i64),
    Real(Real),
    String(Vec<u8>),
    Name(Vec<u8>),
    Array(Vec<Object>),
    Dictionary(Dictionary),
    Stream(Stream),
    Reference(ObjectId),
}

/// An ordered mapping from name keys to objects. No key occurs twice.
#[derive(Debug, PartialEq)]
pub struct Dictionary {
    entries: Vec<(Vec<u8>, Object)>,
}

/// A dictionary bound to a byte payload.
#[derive(Debug, PartialEq)]
pub struct Stream {
    pub dict: Dictionary,
    pub content: Vec<u8>,
}

/// The entries of a dictionary as mathematical values, in order.
pub type Entries = Seq<(Seq<u8>, ObjectView)>;

/// The mathematical value of an [`Object`].
pub enum ObjectView {
    Null,
    Boolean(bool),
    Integer(i64),
    Real(Real),
    String(Seq<u8>),
    Name(Seq<u8>),
    Array(Seq<ObjectView>),
    Dictionary(Entries),
    Stream(Entries, Seq<u8>),
    Reference(ObjectId),
}

pub open spec fn object_view(o: Object) -> ObjectView
    decreases o,
{
    match o {
        Object::Null => ObjectView::Null,
        Object::Boolean(b) => ObjectView::Boolean(b),
        Object::Integer(v) => ObjectView::Integer(v),
        Object::Real(r) => ObjectView::Real(r),
        Object::String(s) => ObjectView::String(s@),
        Object::Name(n) => ObjectView::Name(n@),
        Object::Array(items) => ObjectView::Array(
            Seq::new(
                items@.len(),
                |i: int|
                    if 0 <= i < items@.len() {
                        object_view(items@[i])
                    } else {
                        ObjectView::Null
                    },
            ),
        ),
        Object::Dictionary(d) => ObjectView::Dictionary(dictionary_view(d)),
        Object::Stream(s) => ObjectView::Stream(dictionary_view(s.dict), s.content@),
        Object::Reference(id) => ObjectView::Reference(id),
    }
}

pub closed spec fn dictionary_view(d: Dictionary) -> Entries
    decreases d,
{
    Seq::new(
        d.entries@.len(),
        |i: int|
            if 0 <= i < d.entries@.len() {
                (d.entries@[i].0@, object_view(d.entries@[i].1))
            } else {
                (Seq::empty(), ObjectView::Null)
            },
    )
}

impl View for Object {
    type V = ObjectView;

    open spec fn view(&self) -> ObjectView {
        object_view(*self)
    }
}

impl View for Dictionary {
    type V = Entries;

    open spec fn view(&self) -> Entries {
        dictionary_view(*self)
    }
}

/// The mathematical value of a [`Stream`].
pub struct StreamView {
    pub dict: Entries,
    pub content: Seq<u8>,
}

impl View for Stream {
    type V = StreamView;

    open spec fn view(&self) -> StreamView {
        StreamView { dict: self.dict@, content: self.content@ }
    }
}

/// The first position at or after `from` whose key is `key`, or the length
/// of `entries` if there is none.
pub open spec fn find_key(entries: Entries, key: Seq<u8>, from: int) -> int
    decreases entries.len() - from,
{
    if from < 0 || from >= entries.len() {
        entries.len() as int
    } else if entries[from].0 == key {
        from
    } else {
        find_key(entries, key, from + 1)
    }
}

/// The value stored under `key`, if any.
pub open spec fn lookup(entries: Entries, key: Seq<u8>) -> Option<ObjectView> {
    let i = find_key(entries, key, 0);
    if i < entries.len() {
        Some(entries[i].1)
    } else {
        None
    }
}

/// `entries` with `value` stored under `key`: in place where the key is
/// present, at the end where it is not.
pub open spec fn put(entries: Entries, key: Seq<u8>, value: ObjectView) -> Entries {
    let i = find_key(entries, key, 0);
    if i < entries.len() {
        entries.update(i, (key, value))
    } else {
        entries.push((key, value))
    }
}

/// `entries` without the entry stored under `key`.
pub open spec fn without(entries: Entries, key: Seq<u8>) -> Entries {
    let i = find_key(entries, key, 0);
    if i < entries.len() {
        entries.remove(i)
    } else {
        entries
    }
}

/// No key occurs twice.
pub open spec fn unique_keys(entries: Entries) -> bool {
    forall|i: int, j: int|
        0 <= i < j < entries.len() ==> (#[trigger] entries[i]).0 != (#[trigger] entries[j]).0
}

/// An object is well formed where no dictionary in it, nor the dictionary
/// of a stream in it, holds a key twice. Every object that this library
/// hands out is well formed.
pub open spec fn well_formed(v: ObjectView) -> bool
    decreases v,
{
    match v {
        ObjectView::Array(items) => forall|i: int|
            0 <= i < items.len() ==> well_formed(#[trigger] items[i]),
        ObjectView::Dictionary(entries) => unique_keys(entries) && forall|i: int|
            0 <= i < entries.len() ==> well_formed((#[trigger] entries[i]).1),
        ObjectView::Stream(entries, _) => unique_keys(entries) && forall|i: int|
            0 <= i < entries.len() ==> well_formed((#[trigger] entries[i]).1),
        ObjectView::Null
        | ObjectView::Boolean(_)
        | ObjectView::Integer(_)
        | ObjectView::Real(_)
        | ObjectView::String(_)
        | ObjectView::Name(_)
        | ObjectView::Reference(_) => true,
    }
}

pub proof fn lemma_find_key_bounds(entries: Entries, key: Seq<u8>, from: int)
    requires
        0 <= from,
    ensures
        from <= find_key(entries, key, from) || find_key(entries, key, from) == entries.len(),
        find_key(entries, key, from) <= entries.len(),
        find_key(entries, key, from) < entries.len() ==> entries[find_key(entries, key, from)].0
            == key,
        forall|j: int| from <= j < find_key(entries, key, from) ==> (#[trigger] entries[j]).0 != key,
    decreases entries.len() - from,
{
    if from < entries.len() && entries[from].0 != key {
        lemma_find_key_bounds(entries, key, from + 1);
    }
}

pub proof fn lemma_put_keeps_unique(entries: Entries, key: Seq<u8>, value: ObjectView)
    requires
        unique_keys(entries),
    ensures
        unique_keys(put(entries, key, value)),
{
    lemma_find_key_bounds(entries, key, 0);
    let i = find_key(entries, key, 0);
    let after = put(entries, key, value);
    assert forall|a: int, b: int| 0 <= a < b < after.len() implies (#[trigger] after[a]).0 != (
    #[trigger] after[b]).0 by {
        if i < entries.len() {
            assert(entries[a].0 != entries[b].0);
        } else {
            if b < entries.len() {
                assert(entries[a].0 != entries[b].0);
            } else {
                assert(entries[a].0 != key);
            }
        }
    }
}

pub proof fn lemma_without_keeps_unique(entries: Entries, key: Seq<u8>)
    requires
        unique_keys(entries),
    ensures
        unique_keys(without(entries, key)),
{
    lemma_find_key_bounds(entries, key, 0);
    let i = find_key(entries, key, 0);
    let after = without(entries, key);
    assert forall|a: int, b: int| 0 <= a < b < after.len() implies (#[trigger] after[a]).0 != (
    #[trigger] after[b]).0 by {
        if i < entries.len() {
            let a0 = if a < i { a } else { a + 1 };
            let b0 = if b < i { b } else { b + 1 };
            assert(entries[a0].0 != entries[b0].0);
        }
    }
}

impl Dictionary {
    /// The dictionary without entries.
    pub fn new() -> (d: Dictionary)
        ensures
            d@ == Seq::<(Seq<u8>, ObjectView)>::empty(),
    {
        let d = Dictionary { entries: Vec::new() };
        assert(d@ =~= Seq::<(Seq<u8>, ObjectView)>::empty());
        d
    }

    /// The number of entries.
    pub fn len(&self) -> (n: usize)
        ensures
            n == self@.len(),
    {
        self.entries.len()
    }

    pub fn is_empty(&self) -> (b: bool)
        ensures
            b == (self@.len() == 0),
    {
        self.entries.len() == 0
    }

    /// The key of the entry at position `i`.
    pub fn key_at(&self, i: usize) -> (k: &Vec<u8>)
        requires
            i < self@.len(),
        ensures
            k@ == self@[i as int].0,
    {
        &self.entries[i].0
    }

    /// The value of the entry at position `i`.
    pub fn value_at(&self, i: usize) -> (v: &Object)
        requires
            i < self@.len(),
        ensures
            v@ == self@[i as int].1,
    {
        &self.entries[i].1
    }

    /// The position of `key`, or the number of entries if it is absent.
    pub fn position(&self, key: &[u8]) -> (i: usize)
        ensures
            i == find_key(self@, key@, 0),
    {
        let mut i: usize = 0;
        while i < self.entries.len()
            invariant
                i <= self.entries.len(),
                self.entries.len() == self@.len(),
                find_key(self@, key@, 0) == find_key(self@, key@, i as int),
            decreases self.entries.len() - i,
        {
            if bytes_eq(self.entries[i].0.as_slice(), key) {
                return i;
            }
            i = i + 1;
        }
        i
    }

    /// Whether an entry is stored under `key`.
    pub fn has(&self, key: &[u8]) -> (b: bool)
        ensures
            b == lookup(self@, key@).is_some(),
    {
        self.position(key) < self.entries.len()
    }

    /// The value stored under `key`.
    pub fn get(&self, key: &[u8]) -> (r: Result<&Object, Error>)
        ensures
            match lookup(self@, key@) {
                Some(v) => r matches Ok(o) && o@ == v,
                None => r == Err::<&Object, Error>(Error::MissingKey),
            },
    {
        let i = self.position(key);
        if i < self.entries.len() {
            Ok(&self.entries[i].1)
        } else {
            Err(Error::MissingKey)
        }
    }

    /// Stores `value` under `key`, replacing the value of an entry with that
    /// key or adding an entry at the end.
    pub fn set(&mut self, key: Vec<u8>, value: Object)
        ensures
            final(self)@ == put(old(self)@, key@, value@),
            unique_keys(old(self)@) ==> unique_keys(final(self)@),
    {
        let i = self.position(key.as_slice());
        proof {
            if unique_keys(self@) {
                lemma_put_keeps_unique(self@, key@, value@);
            }
        }
        if i < self.entries.len() {
            self.entries.set(i, (key, value));
        } else {
            self.entries.push((key, value));
        }
        assert(self@ =~= put(old(self)@, key@, value@));
    }

    /// Removes the entry stored under `key`, if there is one.
    pub fn remove(&mut self, key: &[u8])
        ensures
            final(self)@ == without(old(self)@, key@),
            unique_keys(old(self)@) ==> unique_keys(final(self)@),
    {
        let i = self.position(key);
        proof {
            if unique_keys(self@) {
                lemma_without_keeps_unique(self@, key@);
            }
        }
        if i < self.entries.len() {
            let _ = self.entries.remove(i);
        }
        assert(self@ =~= without(old(self)@, key@));
    }
}

impl Stream {
    /// A stream of `dict` bound to `content`.
    pub fn new(dict: Dictionary, content: Vec<u8>) -> (s: Stream)
        ensures
            s@ == (StreamView { dict: dict@, content: content@ }),
    {
        Stream { dict, content }
    }

    /// Replaces the payload.
    pub fn set_content(&mut self, content: Vec<u8>)
        ensures
            final(self)@ == (StreamView { dict: old(self)@.dict, content: content@ }),
    {
        self.content = content;
    }
}

impl Object {
    /// The integer that this object holds.
    pub fn as_i64(&self) -> (r: Result<i64, Error>)
        ensures
            match self@ {
                ObjectView::Integer(v) => r == Ok::<i64, Error>(v),
                _ => r == Err::<i64, Error>(Error::WrongType),
            },
    {
        match self {
            Object::Integer(v) => Ok(*v),
            _ => Err(Error::WrongType),
        }
    }

    /// The bytes of the name that this object holds.
    pub fn as_name(&self) -> (r: Result<&Vec<u8>, Error>)
        ensures
            match self@ {
                ObjectView::Name(n) => r matches Ok(b) && b@ == n,
                _ => r == Err::<&Vec<u8>, Error>(Error::WrongType),
            },
    {
        match self {
            Object::Name(n) => Ok(n),
            _ => Err(Error::WrongType),
        }
    }

    /// Whether this object is a stream.
    pub fn is_stream(&self) -> (b: bool)
        ensures
            b == (self@ is Stream),
    {
        match self {
            Object::Stream(_) => true,
            _ => false,
        }
    }
}

/// A copy of `o` with the same value.
pub fn clone_object(o: &Object) -> (r: Object)
    ensures
        r@ == o@,
    decreases o@, 1nat,
{
    match o {
        Object::Null => Object::Null,
        Object::Boolean(b) => Object::Boolean(*b),
        Object::Integer(v) => Object::Integer(*v),
        Object::Real(x) => Object::Real(*x),
        Object::String(s) => Object::String(slice_to_vec(s.as_slice())),
        Object::Name(n) => Object::Name(slice_to_vec(n.as_slice())),
        Object::Array(items) => {
            let mut copy: Vec<Object> = Vec::new();
            let mut i: usize = 0;
            while i < items.len()
                invariant
                    i <= items.len(),
                    copy.len() == i,
                    o@ is Array,
                    o@->Array_0.len() == items.len(),
                    forall|j: int| 0 <= j < items.len() ==> o@->Array_0[j] == (#[trigger] items[j])@,
                    forall|j: int| 0 <= j < i ==> (#[trigger] copy[j])@ == items[j]@,
                decreases items.len() - i,
            {
                let c = clone_object(&items[i]);
                copy.push(c);
                i = i + 1;
            }
            let r = Object::Array(copy);
            assert(r@->Array_0 =~= o@->Array_0);
            r
        },
        Object::Dictionary(d) => Object::Dictionary(clone_entries(d, Ghost(o@))),
        Object::Stream(s) => Object::Stream(
            Stream { dict: clone_entries(&s.dict, Ghost(o@)), content: slice_to_vec(s.content.as_slice()) },
        ),
        Object::Reference(id) => Object::Reference(*id),
    }
}

/// A copy of `d`, which is the dictionary of the object whose value is `outer`.
fn clone_entries(d: &Dictionary, Ghost(outer): Ghost<ObjectView>) -> (r: Dictionary)
    requires
        (outer is Dictionary && outer->Dictionary_0 == d@) || (outer is Stream && outer->Stream_0
            == d@),
    ensures
        r@ == d@,
    decreases outer, 0nat,
{
    let mut copy: Vec<(Vec<u8>, Object)> = Vec::new();
    let mut i: usize = 0;
    while i < d.entries.len()
        invariant
            i <= d.entries.len(),
            copy.len() == i,
            d.entries.len() == d@.len(),
            (outer is Dictionary && outer->Dictionary_0 == d@) || (outer is Stream
                && outer->Stream_0 == d@),
            forall|j: int|
                0 <= j < i ==> (#[trigger] copy[j]).0@ == d@[j].0 && copy[j].1@ == d@[j].1,
        decreases d.entries.len() - i,
    {
        proof {
            assert(d.entries[i as int].1@ == d@[i as int].1);
            if outer is Dictionary {
                assert(decreases_to!(outer => outer->Dictionary_0));
            } else {
                assert(decreases_to!(outer => outer->Stream_0));
            }
        }
        let k = slice_to_vec(d.entries[i].0.as_slice());
        let v = clone_object(&d.entries[i].1);
        copy.push((k, v));
        i = i + 1;
    }
    let r = Dictionary { entries: copy };
    assert(r@ =~= d@);
    r
}

impl Clone for Object {
    fn clone(&self) -> (r: Self)
        ensures
            r@ == self@,
    {
        clone_object(self)
    }
}

impl Clone for Dictionary {
    fn clone(&self) -> (r: Self)
        ensures
            r@ == self@,
    {
        clone_entries(self, Ghost(ObjectView::Dictionary(self@)))
    }
}

impl Clone for Stream {
    fn clone(&self) -> (r: Self)
        ensures
            r@ == self@,
    {
        Stream {
            dict: clone_entries(&self.dict, Ghost(ObjectView::Dictionary(self.dict@))),
            content: slice_to_vec(self.content.as_slice()),
        }
    }
}

/// The views of the elements of an array, in order.
pub proof fn lemma_array_view(items: Vec<Object>)
    ensures
        (Object::Array(items))@ is Array,
        (Object::Array(items))@->Array_0.len() == items@.len(),
        forall|i: int|
            0 <= i < items@.len() ==> (Object::Array(items))@->Array_0[i] == (#[trigger] items@[i])@,
{
}

} // verus!
