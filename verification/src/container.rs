//! The container: a bounded collection of objects, its byte layout, and the
//! reading of such a layout.
use vstd::prelude::*;
use vstd::slice::slice_subrange;
use crate::bytes::{
    bytes_filter, bytes_first, bytes_flate, bytes_n, bytes_objstm, bytes_type, key_filter,
    key_first, key_n, key_type, name_flate, name_objstm,
};
use crate::decimal::{decimal, lemma_decimal, push_decimal};
use crate::container_laws::{holds, law_round_trip, read_back, reads_back};
use crate::flate::{decompressed, effort_for, effort_of, zlib_compress, zlib_deflated};
use crate::index::{index_numbers, is_text, read_index, valid_text};
use crate::object::{
    lemma_find_key_bounds, lookup, well_formed, Dictionary, Entries, Error, Object, ObjectId,
    ObjectView, Stream, StreamView,
};
use crate::parser::{parse_direct_object, parse_object};
use crate::table::{lemma_rows_count, rows_map, ObjectMap, Rows};
use crate::writer::{serialized, writable, write_object};

verus! {

/// The capacity of a container unless another is asked for.
pub const DEFAULT_MAX_OBJECTS: usize = 100;

/// The compression intensity of a container unless another is asked for.
pub const DEFAULT_COMPRESSION_LEVEL: u32 = 6;

/// A collection of objects under a capacity and a compression intensity.
#[derive(Debug)]
pub struct ObjectStream {
    /// The objects by identifier.
    pub objects: ObjectMap,
    /// The most objects that `add_object` lets the container hold.
    pub max_objects: usize,
    /// The compression intensity: 0 for none, 1 to 9 for more effort.
    pub compression_level: u32,
}

/// The settings from which a container is built.
#[derive(Debug, Clone, Copy)]
pub struct ObjectStreamBuilder {
    max_objects: usize,
    compression_level: u32,
}

/// The settings of containers for a whole document.
#[derive(Debug, Clone, Copy)]
pub struct ObjectStreamConfig {
    pub max_objects_per_stream: usize,
    pub compression_level: u32,
}

impl Default for ObjectStreamConfig {
    fn default() -> (c: Self)
        ensures
            c.max_objects_per_stream == DEFAULT_MAX_OBJECTS,
            c.compression_level == DEFAULT_COMPRESSION_LEVEL,
    {
        ObjectStreamConfig {
            max_objects_per_stream: DEFAULT_MAX_OBJECTS,
            compression_level: DEFAULT_COMPRESSION_LEVEL,
        }
    }
}

/// What adding `obj` under `id` gives for a container that holds `objects`
/// and accepts `capacity` of them: a stream is refused as disallowed
/// content; any other object is refused once the container holds as many
/// as it accepts; else the object is stored under the identifier.
pub open spec fn add_outcome(
    objects: Map<ObjectId, ObjectView>,
    capacity: usize,
    id: ObjectId,
    obj: ObjectView,
) -> Result<Map<ObjectId, ObjectView>, Error> {
    if obj is Stream {
        Err(Error::DisallowedContent)
    } else if objects.dom().len() >= capacity {
        Err(Error::CapacityExceeded(capacity))
    } else {
        Ok(objects.insert(id, obj))
    }
}

/// Every object of `rows` has a serialized form.
pub open spec fn all_writable(rows: Rows) -> bool {
    forall|i: int| 0 <= i < rows.len() ==> writable((#[trigger] rows[i]).1)
}

/// The body block: the text of each object in order, each followed by one
/// space.
pub open spec fn body_block(rows: Rows) -> Seq<u8>
    decreases rows.len(),
{
    if rows.len() == 0 {
        Seq::empty()
    } else {
        body_block(rows.drop_last()) + serialized(rows.last().1) + seq![32u8]
    }
}

/// The offset of the object at position `i`: the length of the body block
/// of the objects before it.
pub open spec fn offset_of(rows: Rows, i: int) -> nat {
    body_block(rows.take(i)).len()
}

/// One pair of the index block: object number, space, offset, space.
pub open spec fn index_pair(number: u32, offset: nat) -> Seq<u8> {
    decimal(number as nat) + seq![32u8] + decimal(offset) + seq![32u8]
}

/// The index block: for each object in order its number and its offset.
pub open spec fn index_block(rows: Rows) -> Seq<u8>
    decreases rows.len(),
{
    if rows.len() == 0 {
        Seq::empty()
    } else {
        index_block(rows.drop_last()) + index_pair(
            rows.last().0.0,
            body_block(rows.drop_last()).len(),
        )
    }
}

/// The raw content of a container: index block, then body block.
pub open spec fn container_text(rows: Rows) -> Seq<u8> {
    index_block(rows) + body_block(rows)
}

/// The dictionary of a finalized container with `n` objects whose data
/// begins at `first`.
pub open spec fn container_dict(n: i64, first: i64, filtered: bool) -> Entries {
    let plain = seq![
        (key_type(), ObjectView::Name(name_objstm())),
        (key_n(), ObjectView::Integer(n)),
        (key_first(), ObjectView::Integer(first)),
    ];
    if filtered {
        plain.push((key_filter(), ObjectView::Name(name_flate())))
    } else {
        plain
    }
}

/// Whether finalizing compresses: the intensity is above 0 and there is
/// an object. An empty container keeps its empty content.
pub open spec fn compresses(rows: Rows, level: u32) -> bool {
    level > 0 && rows.len() > 0
}

/// What the compressor gives for the raw content of `rows` at the
/// intensity `level`, where it succeeds.
pub open spec fn compressed_text(rows: Rows, level: u32) -> Option<Seq<u8>> {
    zlib_deflated(effort_of(level).level(), container_text(rows))
}

/// Whether finalizing succeeds: every object has a serialized form, the
/// length of the index block is a 64-bit signed number, and the
/// compressor, where it is asked, succeeds.
pub open spec fn finalizes(rows: Rows, level: u32) -> bool {
    &&& all_writable(rows)
    &&& index_block(rows).len() <= i64::MAX
    &&& compresses(rows, level) ==> compressed_text(rows, level) is Some
}

/// The finalized stream of a container that holds `rows` and has the
/// compression intensity `level`.
pub open spec fn finalized(rows: Rows, level: u32) -> StreamView {
    StreamView {
        dict: container_dict(
            rows.len() as i64,
            index_block(rows).len() as i64,
            compresses(rows, level),
        ),
        content: if compresses(rows, level) {
            compressed_text(rows, level).unwrap()
        } else {
            container_text(rows)
        },
    }
}

/// What one pair of the index gives: the object at `first` plus the
/// relative offset, under the pair's number and generation 0. Nothing
/// where a token is no number, the offset lies at or beyond the end of the
/// content, or no object can be read there.
pub open spec fn pair_entry(
    content: Seq<u8>,
    first: int,
    number: Option<u32>,
    offset: Option<u32>,
) -> Option<(ObjectId, ObjectView)> {
    if number is Some && offset is Some && first + offset.unwrap() < content.len() {
        match parse_object(content, first + offset.unwrap()) {
            Some((v, _)) => Some(((number.unwrap(), 0u16), v)),
            None => None,
        }
    } else {
        None
    }
}

/// Whether a pair of numbers points at or beyond the end of the content.
pub open spec fn pair_out_of_bounds(
    content: Seq<u8>,
    first: int,
    number: Option<u32>,
    offset: Option<u32>,
) -> bool {
    number is Some && offset is Some && first + offset.unwrap() >= content.len()
}

/// The mapping that the first `pairs` pairs of `numbers` give; a later pair
/// replaces an earlier one with the same number.
pub open spec fn decoded(content: Seq<u8>, first: int, numbers: Seq<Option<u32>>, pairs: nat) -> Map<
    ObjectId,
    ObjectView,
>
    decreases pairs,
{
    if pairs == 0 {
        Map::empty()
    } else {
        let before = decoded(content, first, numbers, (pairs - 1) as nat);
        match pair_entry(content, first, numbers[2 * (pairs - 1)], numbers[2 * (pairs - 1) + 1]) {
            Some((id, v)) => before.insert(id, v),
            None => before,
        }
    }
}

/// How many of the first `pairs` pairs point at or beyond the end.
pub open spec fn out_of_bounds(
    content: Seq<u8>,
    first: int,
    numbers: Seq<Option<u32>>,
    pairs: nat,
) -> nat
    decreases pairs,
{
    if pairs == 0 {
        0
    } else {
        out_of_bounds(content, first, numbers, (pairs - 1) as nat) + (if pair_out_of_bounds(
            content,
            first,
            numbers[2 * (pairs - 1)],
            numbers[2 * (pairs - 1) + 1],
        ) {
            1nat
        } else {
            0nat
        })
    }
}

/// What reading a container gave, with what it passed over.
pub struct Decoded {
    pub objects: Map<ObjectId, ObjectView>,
    pub count_mismatch: bool,
    pub out_of_bounds: nat,
}

/// What was passed over while a container was read without failure.
#[derive(Clone, Copy, Debug, PartialEq, Eq, Structural)]
pub struct DecodeReport {
    /// The dictionary's `N` is not the number of pairs in the index.
    pub count_mismatch: bool,
    /// The number of pairs whose offset lies at or beyond the end.
    pub out_of_bounds: usize,
}

/// The integer stored under `key`: `MissingKey` where there is no entry,
/// `WrongType` where the entry is no integer.
pub open spec fn integer_entry(dict: Entries, key: Seq<u8>) -> Result<i64, Error> {
    match lookup(dict, key) {
        None => Err(Error::MissingKey),
        Some(ObjectView::Integer(v)) => Ok(v),
        Some(_) => Err(Error::WrongType),
    }
}

/// The structure of a container: where the object data begins, what the
/// tokens of the index denote, and whether the declared number of objects
/// is not the number of pairs.
pub struct Layout {
    pub first: usize,
    pub numbers: Vec<Option<u32>>,
    pub count_mismatch: bool,
}

/// The mathematical value of a [`Layout`].
pub struct LayoutView {
    pub first: int,
    pub numbers: Seq<Option<u32>>,
    pub count_mismatch: bool,
}

impl View for Layout {
    type V = LayoutView;

    open spec fn view(&self) -> LayoutView {
        LayoutView {
            first: self.first as int,
            numbers: self.numbers@,
            count_mismatch: self.count_mismatch,
        }
    }
}

/// The structure of the container in `stream`, whose payload is already
/// decompressed.
///
/// An empty payload has no pairs. Otherwise `First` must be there
/// (`MissingKey`) as an integer (`WrongType`) that fits the platform's
/// offset width (`NumericCast`) and does not exceed the length of the
/// payload (`InvalidOffset`), and the index block before it must be valid
/// text (`InvalidContainer`). Nothing else fails: where `N` is absent, no
/// integer, or not the number of pairs, the count is a mismatch.
pub open spec fn layout_of(stream: StreamView) -> Result<LayoutView, Error> {
    let content = stream.content;
    if content.len() == 0 {
        Ok(LayoutView { first: 0, numbers: Seq::empty(), count_mismatch: false })
    } else {
        match integer_entry(stream.dict, key_first()) {
            Err(e) => Err(e),
            Ok(first) => if first < 0 || first > usize::MAX {
                Err(Error::NumericCast)
            } else if first > content.len() {
                Err(Error::InvalidOffset(first as usize))
            } else if !is_text(content.subrange(0, first as int)) {
                Err(Error::InvalidContainer)
            } else {
                let numbers = index_numbers(content.subrange(0, first as int), 0);
                Ok(
                    LayoutView {
                        first: first as int,
                        numbers,
                        count_mismatch: match integer_entry(stream.dict, key_n()) {
                            Ok(n) => n != numbers.len() / 2,
                            Err(_) => true,
                        },
                    },
                )
            },
        }
    }
}

/// The outcome of reading the container in `stream`, whose payload is
/// already decompressed: a failure of the structure, or what the pairs
/// of the index give. An unpaired last token counts for nothing.
pub open spec fn decode_outcome(stream: StreamView) -> Result<Decoded, Error> {
    match layout_of(stream) {
        Err(e) => Err(e),
        Ok(layout) => {
            let pairs = (layout.numbers.len() / 2) as nat;
            Ok(
                Decoded {
                    objects: decoded(stream.content, layout.first, layout.numbers, pairs),
                    count_mismatch: layout.count_mismatch,
                    out_of_bounds: out_of_bounds(
                        stream.content,
                        layout.first,
                        layout.numbers,
                        pairs,
                    ),
                },
            )
        },
    }
}

fn integer_of(dict: &Dictionary, key: &[u8]) -> (r: Result<i64, Error>)
    ensures
        r == integer_entry(dict@, key@),
{
    match dict.get(key) {
        Ok(o) => o.as_i64(),
        Err(e) => Err(e),
    }
}

pub proof fn lemma_body_step(rows: Rows, i: int)
    requires
        0 <= i < rows.len(),
    ensures
        body_block(rows.take(i + 1)) == body_block(rows.take(i)) + serialized(rows[i].1) + seq![
            32u8,
        ],
        index_block(rows.take(i + 1)) == index_block(rows.take(i)) + index_pair(
            rows[i].0.0,
            offset_of(rows, i),
        ),
{
    assert(rows.take(i + 1).drop_last() =~= rows.take(i));
    assert(rows.take(i + 1).last() == rows[i]);
}

/// The index block holds at least four bytes for each object.
pub proof fn lemma_index_len(rows: Rows)
    ensures
        index_block(rows).len() >= 4 * rows.len(),
    decreases rows.len(),
{
    if rows.len() > 0 {
        lemma_index_len(rows.drop_last());
        lemma_decimal(rows.last().0.0 as nat);
        lemma_decimal(body_block(rows.drop_last()).len());
    }
}

impl View for ObjectStream {
    type V = Map<ObjectId, ObjectView>;

    /// The mapping from identifiers to objects.
    open spec fn view(&self) -> Map<ObjectId, ObjectView> {
        rows_map(self.rows())
    }
}

impl ObjectStream {
    /// The most objects that this container accepts.
    pub open spec fn capacity(&self) -> usize {
        self.max_objects
    }

    /// The compression intensity, 0 for none.
    pub open spec fn level(&self) -> u32 {
        self.compression_level
    }

    /// The entries in ascending order of their identifiers.
    pub open spec fn rows(&self) -> Rows {
        self.objects.rows()
    }

    /// The table of objects is well formed: its identifiers ascend. Every
    /// container that this library hands out is well formed.
    pub open spec fn wf(&self) -> bool {
        self.objects.wf()
    }

    /// The number of entries.
    pub open spec fn count(&self) -> nat {
        self.rows().len()
    }

    /// The settings of a container, at their defaults.
    pub fn builder() -> (b: ObjectStreamBuilder)
        ensures
            b.spec_max_objects() == DEFAULT_MAX_OBJECTS,
            b.spec_compression_level() == DEFAULT_COMPRESSION_LEVEL,
    {
        ObjectStreamBuilder {
            max_objects: DEFAULT_MAX_OBJECTS,
            compression_level: DEFAULT_COMPRESSION_LEVEL,
        }
    }

    /// The most objects that this container accepts.
    pub fn max_objects(&self) -> (n: usize)
        ensures
            n == self.capacity(),
    {
        self.max_objects
    }

    /// The compression intensity, 0 for none.
    pub fn compression_level(&self) -> (n: u32)
        ensures
            n == self.level(),
    {
        self.compression_level
    }

    /// A well-formed container has as many entries as its mapping has keys.
    pub proof fn lemma_count(&self)
        requires
            self.wf(),
        ensures
            self@.dom().finite(),
            self.count() == self@.dom().len(),
    {
        lemma_rows_count(self.rows());
    }

    /// Adds `obj` under `id`, or puts it in the place of the object stored
    /// there. A stream is refused, and so is any object once the container
    /// holds as many as it may; the container is then left as it was.
    pub fn add_object(&mut self, id: ObjectId, obj: Object) -> (r: Result<(), Error>)
        requires
            old(self).wf(),
        ensures
            final(self).wf(),
            final(self).capacity() == old(self).capacity(),
            final(self).level() == old(self).level(),
            match add_outcome(old(self)@, old(self).capacity(), id, obj@) {
                Ok(objects) => r is Ok && final(self)@ == objects,
                Err(e) => r matches Err(x) && x == e && *final(self) == *old(self),
            },
            final(self).count() == old(self).count() + (if r is Ok && !old(self)@.contains_key(id) {
                1int
            } else {
                0int
            }),
    {
        proof {
            self.lemma_count();
        }
        if obj.is_stream() {
            return Err(Error::DisallowedContent);
        }
        if self.objects.len() >= self.max_objects {
            return Err(Error::CapacityExceeded(self.max_objects));
        }
        let _ = self.objects.insert(id, obj);
        Ok(())
    }

    /// The number of objects in the container.
    pub fn object_count(&self) -> (n: usize)
        ensures
            n == self.count(),
            self.wf() ==> n == self@.dom().len(),
    {
        proof {
            if self.wf() {
                self.lemma_count();
            }
        }
        self.objects.len()
    }

    /// The index block and the body block.
    fn build_blocks(&self) -> (r: Result<(Vec<u8>, Vec<u8>), Error>)
        requires
            self.wf(),
        ensures
            match r {
                Ok((index, body)) => all_writable(self.rows()) && index@ == index_block(self.rows())
                    && body@ == body_block(self.rows()),
                Err(e) => e == Error::Unserializable && !all_writable(self.rows()),
            },
    {
        let ghost rows = self.rows();
        let mut index: Vec<u8> = Vec::new();
        let mut body: Vec<u8> = Vec::new();
        let mut i: usize = 0;
        while i < self.objects.len()
            invariant
                self.wf(),
                self.objects.wf(),
                rows == self.rows(),
                i <= rows.len(),
                forall|j: int| 0 <= j < i ==> writable((#[trigger] rows[j]).1),
                index@ == index_block(rows.take(i as int)),
                body@ == body_block(rows.take(i as int)),
            decreases rows.len() - i,
        {
            let id = self.objects.id_at(i);
            proof {
                lemma_body_step(rows, i as int);
            }
            push_decimal(&mut index, id.0 as u64);
            index.push(32u8);
            push_decimal(&mut index, body.len() as u64);
            index.push(32u8);
            match write_object(&mut body, self.objects.object_at(i)) {
                Ok(_) => {},
                Err(e) => {
                    assert(!writable(rows[i as int].1));
                    return Err(e);
                },
            }
            body.push(32u8);
            proof {
                assert(index@ =~= index_block(rows.take(i + 1)));
                assert(body@ =~= body_block(rows.take(i + 1)));
            }
            i = i + 1;
        }
        proof {
            assert(rows.take(i as int) =~= rows);
        }
        Ok((index, body))
    }

    /// The raw content of the container: the index block, then the body
    /// block. Fails exactly where an object has no serialized form.
    pub fn build_stream_content(&self) -> (r: Result<Vec<u8>, Error>)
        requires
            self.wf(),
        ensures
            match r {
                Ok(content) => all_writable(self.rows()) && content@ == container_text(self.rows()),
                Err(e) => e == Error::Unserializable && !all_writable(self.rows()),
            },
    {
        match self.build_blocks() {
            Ok((index, body)) => {
                let mut content = index;
                let mut body = body;
                content.append(&mut body);
                Ok(content)
            },
            Err(e) => Err(e),
        }
    }

    /// The stream of a container from its parts and from what the
    /// compressor gave, if it was asked: `count` objects, an index block of
    /// `first` bytes, the raw content `raw`.
    pub fn package(
        count: i64,
        first: i64,
        raw: Vec<u8>,
        compressed: Option<Result<Vec<u8>, std::io::Error>>,
    ) -> (r: Result<Stream, Error>)
        ensures
            match compressed {
                None => r matches Ok(s) && s@ == (StreamView {
                    dict: container_dict(count, first, false),
                    content: raw@,
                }),
                Some(Ok(bytes)) => r matches Ok(s) && s@ == (StreamView {
                    dict: container_dict(count, first, true),
                    content: bytes@,
                }),
                Some(Err(_)) => r matches Err(e) && e == Error::Compression,
            },
    {
        let mut dict = Dictionary::new();
        proof {
            lemma_find_key_bounds(dict@, key_type(), 0);
        }
        dict.set(bytes_type(), Object::Name(bytes_objstm()));
        proof {
            lemma_find_key_bounds(dict@, key_n(), 0);
        }
        dict.set(bytes_n(), Object::Integer(count));
        proof {
            lemma_find_key_bounds(dict@, key_first(), 0);
        }
        dict.set(bytes_first(), Object::Integer(first));
        assert(dict@ =~= container_dict(count, first, false));
        match compressed {
            None => Ok(Stream::new(dict, raw)),
            Some(Ok(bytes)) => {
                proof {
                    lemma_find_key_bounds(dict@, key_filter(), 0);
                }
                dict.set(bytes_filter(), Object::Name(bytes_flate()));
                assert(dict@ =~= container_dict(count, first, true));
                Ok(Stream::new(dict, bytes))
            },
            Some(Err(_)) => Err(Error::Compression),
        }
    }

    /// The finalized stream: the dictionary with the type marker, the
    /// number of objects and the length of the index block, bound to the
    /// content, which is compressed where the intensity is above 0 and the
    /// container is not empty. An empty container finalizes to empty
    /// content at every intensity.
    ///
    /// Fails where an object has no serialized form (`Unserializable`),
    /// where the length of the index block is no 64-bit signed number
    /// (`NumericCast`), or where the compressor fails (`Compression`), and
    /// nowhere else.
    ///
    /// Reading the stream gives the objects back under generation 0, where
    /// they are well formed, their object numbers differ and every offset
    /// is a 32-bit number.
    pub fn to_stream_object(&self) -> (r: Result<Stream, Error>)
        requires
            self.wf(),
        ensures
            r is Ok <==> finalizes(self.rows(), self.level()),
            match r {
                Ok(s) => s@ == finalized(self.rows(), self.level()) && holds(s@, self.rows()),
                Err(e) => if !all_writable(self.rows()) {
                    e == Error::Unserializable
                } else if index_block(self.rows()).len() > i64::MAX {
                    e == Error::NumericCast
                } else {
                    e == Error::Compression
                },
            },
            self.count() == 0 ==> (r matches Ok(s) && s@.content.len() == 0),
            r matches Ok(s) ==> (reads_back(self.rows()) ==> decode_outcome(decompressed(s@)) == Ok::<
                Decoded,
                Error,
            >(read_back(self.rows()))),
    {
        let (index, body) = match self.build_blocks() {
            Ok(blocks) => blocks,
            Err(e) => {
                return Err(e);
            },
        };
        proof {
            lemma_index_len(self.rows());
        }
        if index.len() as u64 > 0x7fff_ffff_ffff_ffffu64 {
            return Err(Error::NumericCast);
        }
        let first: i64 = index.len() as i64;
        let count: usize = self.objects.len();
        let mut raw = index;
        let mut body = body;
        raw.append(&mut body);
        let size: usize = raw.len();
        assert(container_text(self.rows()).len() == size);
        let r = if self.compression_level > 0 && count > 0 {
            let compressed = zlib_compress(raw.as_slice(), effort_for(self.compression_level));
            Self::package(count as i64, first, raw, Some(compressed))
        } else {
            Self::package(count as i64, first, raw, None)
        };
        proof {
            if r is Ok && reads_back(self.rows()) {
                law_round_trip(self.rows(), r->Ok_0@);
            }
        }
        r
    }

    /// The structure of the container in `stream`, whose payload is
    /// already decompressed.
    pub fn read_layout(stream: &Stream) -> (r: Result<Layout, Error>)
        ensures
            match layout_of(stream@) {
                Ok(layout) => r matches Ok(l) && l@ == layout && l.first <= stream@.content.len(),
                Err(e) => r matches Err(x) && x == e,
            },
    {
        let content = stream.content.as_slice();
        if content.len() == 0 {
            return Ok(Layout { first: 0, numbers: Vec::new(), count_mismatch: false });
        }
        let first_value = match integer_of(&stream.dict, bytes_first().as_slice()) {
            Ok(v) => v,
            Err(e) => {
                return Err(e);
            },
        };
        if first_value < 0 || first_value as u64 > usize::MAX as u64 {
            return Err(Error::NumericCast);
        }
        let first: usize = first_value as usize;
        if first > content.len() {
            return Err(Error::InvalidOffset(first));
        }
        let block = slice_subrange(content, 0, first);
        if !valid_text(block) {
            return Err(Error::InvalidContainer);
        }
        let numbers = read_index(block);
        let pairs: usize = numbers.len() / 2;
        let count_mismatch = match integer_of(&stream.dict, bytes_n().as_slice()) {
            Ok(n) => n < 0 || n as u64 != pairs as u64,
            Err(_) => true,
        };
        Ok(Layout { first, numbers, count_mismatch })
    }

    /// Whether a pair of the index points at or beyond the end of the
    /// content.
    pub fn pair_beyond(
        content: &[u8],
        first: usize,
        number: Option<u32>,
        offset: Option<u32>,
    ) -> (r: bool)
        requires
            first <= content@.len(),
        ensures
            r == pair_out_of_bounds(content@, first as int, number, offset),
    {
        match (number, offset) {
            (Some(_), Some(relative)) => relative as usize >= content.len() - first,
            _ => false,
        }
    }

    /// What one pair of the index gives: the object that is read at
    /// `first` plus the offset, under the number and generation 0.
    pub fn read_pair(
        content: &[u8],
        first: usize,
        number: Option<u32>,
        offset: Option<u32>,
    ) -> (r: Option<(ObjectId, Object)>)
        requires
            first <= content@.len(),
        ensures
            match pair_entry(content@, first as int, number, offset) {
                Some((id, v)) => r matches Some((i, o)) && i == id && o@ == v && well_formed(v),
                None => r is None,
            },
    {
        match (number, offset) {
            (Some(n), Some(relative)) => {
                if relative as usize >= content.len() - first {
                    None
                } else {
                    match parse_direct_object(content, first + relative as usize) {
                        Some(o) => Some(((n, 0), o)),
                        None => None,
                    }
                }
            },
            _ => None,
        }
    }

    /// Reads the container in `stream`, after decompressing its payload
    /// where it names the zlib filter, and reports what was passed over.
    ///
    /// An empty payload is an empty container. Otherwise the dictionary's
    /// `First` splits the payload into index block and object data, and
    /// each pair of numbers in the index gives one object. A pair that
    /// gives none is passed over.
    pub fn decode(stream: &mut Stream) -> (r: Result<(ObjectStream, DecodeReport), Error>)
        ensures
            final(stream)@ == decompressed(old(stream)@),
            match decode_outcome(final(stream)@) {
                Ok(d) => r matches Ok((s, report)) && s.wf() && s@ == d.objects
                    && s.capacity() == DEFAULT_MAX_OBJECTS && s.level() == DEFAULT_COMPRESSION_LEVEL && report.count_mismatch
                    == d.count_mismatch && report.out_of_bounds == d.out_of_bounds,
                Err(e) => r matches Err(x) && x == e,
            },
            r matches Ok((s, _)) ==> forall|id: ObjectId|
                s@.contains_key(id) ==> well_formed(#[trigger] s@[id]),
    {
        let _ = stream.decompress();
        let layout = match Self::read_layout(stream) {
            Ok(l) => l,
            Err(e) => {
                return Err(e);
            },
        };
        let content = stream.content.as_slice();
        let first = layout.first;
        let pairs: usize = layout.numbers.len() / 2;
        let mut objects = ObjectMap::new();
        let mut skipped: usize = 0;
        let mut j: usize = 0;
        while j < pairs
            invariant
                j <= pairs,
                pairs == layout.numbers@.len() / 2,
                2 * pairs <= layout.numbers@.len() <= usize::MAX,
                first <= content@.len(),
                objects.wf(),
                objects@ == decoded(content@, first as int, layout.numbers@, j as nat),
                forall|id: ObjectId|
                    objects@.contains_key(id) ==> well_formed(#[trigger] objects@[id]),
                skipped == out_of_bounds(content@, first as int, layout.numbers@, j as nat),
                skipped <= j,
            decreases pairs - j,
        {
            assert(2 * j + 1 < layout.numbers@.len());
            let number = layout.numbers[2 * j];
            let offset = layout.numbers[2 * j + 1];
            if Self::pair_beyond(content, first, number, offset) {
                skipped = skipped + 1;
            }
            match Self::read_pair(content, first, number, offset) {
                Some((id, o)) => {
                    let _ = objects.insert(id, o);
                },
                None => {},
            }
            j = j + 1;
        }
        Ok(
            (
                ObjectStream {
                    objects,
                    max_objects: DEFAULT_MAX_OBJECTS,
                    compression_level: DEFAULT_COMPRESSION_LEVEL,
                },
                DecodeReport { count_mismatch: layout.count_mismatch, out_of_bounds: skipped },
            ),
        )
    }

    /// Reads the container in `stream`; see [`ObjectStream::decode`].
    pub fn new(stream: &mut Stream) -> (r: Result<ObjectStream, Error>)
        ensures
            final(stream)@ == decompressed(old(stream)@),
            match decode_outcome(final(stream)@) {
                Ok(d) => r matches Ok(s) && s.wf() && s@ == d.objects
                    && s.capacity() == DEFAULT_MAX_OBJECTS && s.level() == DEFAULT_COMPRESSION_LEVEL,
                Err(e) => r matches Err(x) && x == e,
            },
            r matches Ok(s) ==> forall|id: ObjectId|
                s@.contains_key(id) ==> well_formed(#[trigger] s@[id]),
    {
        match Self::decode(stream) {
            Ok((s, _)) => Ok(s),
            Err(e) => Err(e),
        }
    }
}

impl ObjectStreamBuilder {
    pub closed spec fn spec_max_objects(&self) -> usize {
        self.max_objects
    }

    pub closed spec fn spec_compression_level(&self) -> u32 {
        self.compression_level
    }

    /// Sets the most objects that the container accepts.
    pub fn max_objects(self, max: usize) -> (b: Self)
        ensures
            b.spec_max_objects() == max,
            b.spec_compression_level() == self.spec_compression_level(),
    {
        ObjectStreamBuilder { max_objects: max, compression_level: self.compression_level }
    }

    /// Sets the compression intensity: 0 for none, 1 to 9 for more effort.
    pub fn compression_level(self, level: u32) -> (b: Self)
        ensures
            b.spec_max_objects() == self.spec_max_objects(),
            b.spec_compression_level() == level,
    {
        ObjectStreamBuilder { max_objects: self.max_objects, compression_level: level }
    }

    /// The empty container with these settings.
    pub fn build(self) -> (s: ObjectStream)
        ensures
            s.wf(),
            s.count() == 0,
            s@ == Map::<ObjectId, ObjectView>::empty(),
            s.capacity() == self.spec_max_objects(),
            s.level() == self.spec_compression_level(),
    {
        ObjectStream {
            objects: ObjectMap::new(),
            max_objects: self.max_objects,
            compression_level: self.compression_level,
        }
    }

    #[verifier::when_used_as_spec(spec_max_objects)]
    pub fn get_max_objects(&self) -> (n: usize)
        ensures
            n == self.spec_max_objects(),
    {
        self.max_objects
    }

    #[verifier::when_used_as_spec(spec_compression_level)]
    pub fn get_compression_level(&self) -> (n: u32)
        ensures
            n == self.spec_compression_level(),
    {
        self.compression_level
    }
}

} // verus!
