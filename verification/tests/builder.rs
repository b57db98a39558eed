use objstm::{Dictionary, Error, Object, ObjectStream, ObjectStreamConfig, Real, Stream};

fn name(s: &str) -> Object {
    Object::Name(s.as_bytes().to_vec())
}

fn plain(max: usize, level: u32) -> ObjectStream {
    ObjectStream::builder().max_objects(max).compression_level(level).build()
}

#[test]
fn builder_defaults() {
    let b = ObjectStream::builder();
    assert_eq!(b.get_max_objects(), 100);
    assert_eq!(b.get_compression_level(), 6);
    let c = ObjectStreamConfig::default();
    assert_eq!(c.max_objects_per_stream, 100);
    assert_eq!(c.compression_level, 6);
}

#[test]
fn builder_settings_carry_over() {
    let b = ObjectStream::builder().max_objects(7).compression_level(2);
    assert_eq!(b.get_max_objects(), 7);
    assert_eq!(b.get_compression_level(), 2);
    let s = b.build();
    assert_eq!(s.max_objects(), 7);
    assert_eq!(s.compression_level(), 2);
    assert_eq!(s.object_count(), 0);
}

#[test]
fn capacity_accepts_exactly_k() {
    let mut s = plain(3, 0);
    assert_eq!(s.add_object((1, 0), Object::Integer(1)), Ok(()));
    assert_eq!(s.add_object((2, 0), Object::Integer(2)), Ok(()));
    assert_eq!(s.add_object((3, 0), Object::Integer(3)), Ok(()));
    assert_eq!(s.object_count(), 3);
    assert_eq!(s.add_object((4, 0), Object::Integer(4)), Err(Error::CapacityExceeded(3)));
    assert_eq!(s.object_count(), 3);
    assert!(s.objects.get((4, 0)).is_none());
}

#[test]
fn capacity_zero_rejects_first() {
    let mut s = plain(0, 0);
    assert_eq!(s.add_object((1, 0), Object::Null), Err(Error::CapacityExceeded(0)));
    assert_eq!(s.object_count(), 0);
}

#[test]
fn full_container_rejects_overwrite_too() {
    let mut s = plain(1, 0);
    assert_eq!(s.add_object((1, 0), Object::Integer(1)), Ok(()));
    assert_eq!(s.add_object((1, 0), Object::Integer(2)), Err(Error::CapacityExceeded(1)));
    assert_eq!(s.objects.get((1, 0)), Some(&Object::Integer(1)));
}

#[test]
fn overwrite_keeps_count() {
    let mut s = plain(5, 0);
    assert_eq!(s.add_object((1, 0), Object::Integer(1)), Ok(()));
    assert_eq!(s.add_object((1, 0), Object::Integer(2)), Ok(()));
    assert_eq!(s.object_count(), 1);
    assert_eq!(s.objects.get((1, 0)), Some(&Object::Integer(2)));
}

#[test]
fn stream_is_rejected() {
    let mut s = plain(5, 0);
    assert_eq!(s.add_object((1, 0), Object::Integer(1)), Ok(()));
    let stream = Object::Stream(Stream::new(Dictionary::new(), vec![1, 2, 3]));
    assert_eq!(s.add_object((2, 0), stream), Err(Error::DisallowedContent));
    assert_eq!(s.object_count(), 1);
    assert!(s.objects.get((2, 0)).is_none());
}

#[test]
fn stream_is_rejected_before_capacity() {
    let mut s = plain(0, 0);
    let stream = Object::Stream(Stream::new(Dictionary::new(), Vec::new()));
    assert_eq!(s.add_object((2, 0), stream), Err(Error::DisallowedContent));
}

#[test]
fn content_layout_is_exact() {
    let mut s = plain(10, 0);
    s.add_object((2, 0), name("A")).unwrap();
    s.add_object((1, 0), Object::Integer(42)).unwrap();
    let content = s.build_stream_content().unwrap();
    assert_eq!(content, b"1 0 2 3 42 /A ".to_vec());
}

#[test]
fn offsets_advance_by_length_plus_one() {
    let mut s = plain(10, 0);
    s.add_object((10, 0), Object::Boolean(false)).unwrap();
    s.add_object((11, 0), Object::Null).unwrap();
    s.add_object((12, 0), Object::Reference((3, 1))).unwrap();
    s.add_object((13, 0), Object::Integer(-7)).unwrap();
    let content = s.build_stream_content().unwrap();
    assert_eq!(content, b"10 0 11 6 12 11 13 17 false null 3 1 R -7 ".to_vec());
}

#[test]
fn entries_are_sorted_by_number_then_generation() {
    let mut s = plain(10, 0);
    s.add_object((2, 0), Object::Integer(3)).unwrap();
    s.add_object((1, 5), Object::Integer(2)).unwrap();
    s.add_object((1, 0), Object::Integer(1)).unwrap();
    let content = s.build_stream_content().unwrap();
    assert_eq!(content, b"1 0 1 2 2 4 1 2 3 ".to_vec());
}

#[test]
fn empty_container_has_empty_content() {
    let s = plain(10, 0);
    assert_eq!(s.build_stream_content().unwrap(), Vec::<u8>::new());
    let stream = s.to_stream_object().unwrap();
    assert_eq!(stream.content.len(), 0);
    assert_eq!(stream.dict.get(b"N"), Ok(&Object::Integer(0)));
    assert_eq!(stream.dict.get(b"First"), Ok(&Object::Integer(0)));
    assert_eq!(stream.dict.get(b"Type"), Ok(&name("ObjStm")));
    assert!(!stream.dict.has(b"Filter"));
}

#[test]
fn finalized_dictionary_without_compression() {
    let mut s = plain(10, 0);
    s.add_object((1, 0), Object::Integer(42)).unwrap();
    s.add_object((2, 0), name("A")).unwrap();
    let stream = s.to_stream_object().unwrap();
    assert_eq!(stream.dict.len(), 3);
    assert_eq!(stream.dict.get(b"Type"), Ok(&name("ObjStm")));
    assert_eq!(stream.dict.get(b"N"), Ok(&Object::Integer(2)));
    assert_eq!(stream.dict.get(b"First"), Ok(&Object::Integer(8)));
    assert_eq!(stream.content, b"1 0 2 3 42 /A ".to_vec());
}

#[test]
fn finalized_dictionary_with_compression() {
    let mut s = plain(10, 6);
    s.add_object((1, 0), Object::Integer(42)).unwrap();
    s.add_object((2, 0), name("A")).unwrap();
    let mut stream = s.to_stream_object().unwrap();
    assert_eq!(stream.dict.len(), 4);
    assert_eq!(stream.dict.get(b"Filter"), Ok(&name("FlateDecode")));
    assert_eq!(stream.dict.get(b"N"), Ok(&Object::Integer(2)));
    assert_eq!(stream.dict.get(b"First"), Ok(&Object::Integer(8)));
    assert_ne!(stream.content, b"1 0 2 3 42 /A ".to_vec());
    assert_eq!(stream.content[0], 0x78);
    assert_eq!(stream.decompress(), Ok(()));
    assert_eq!(stream.content, b"1 0 2 3 42 /A ".to_vec());
    assert!(!stream.dict.has(b"Filter"));
}

#[test]
fn compression_shrinks_repetitive_content() {
    let mut s = plain(100, 9);
    for i in 0..50u32 {
        s.add_object((i + 1, 0), Object::String(vec![b'a'; 40])).unwrap();
    }
    let raw = s.build_stream_content().unwrap();
    let stream = s.to_stream_object().unwrap();
    assert!(stream.content.len() < raw.len() / 4);
}

#[test]
fn nested_stream_cannot_be_written() {
    let mut s = plain(10, 0);
    let inner = Object::Stream(Stream::new(Dictionary::new(), Vec::new()));
    s.add_object((1, 0), Object::Array(vec![Object::Integer(1), inner])).unwrap();
    assert_eq!(s.build_stream_content(), Err(Error::Unserializable));
    assert_eq!(s.to_stream_object().err(), Some(Error::Unserializable));
    assert_eq!(s.object_count(), 1);
}

#[test]
fn package_maps_compressor_outcomes() {
    let ok = ObjectStream::package(1, 4, b"1 0 5 ".to_vec(), None).unwrap();
    assert_eq!(ok.content, b"1 0 5 ".to_vec());
    assert!(!ok.dict.has(b"Filter"));
    let packed = ObjectStream::package(1, 4, b"1 0 5 ".to_vec(), Some(Ok(vec![9, 9]))).unwrap();
    assert_eq!(packed.content, vec![9, 9]);
    assert_eq!(packed.dict.get(b"Filter"), Ok(&name("FlateDecode")));
    let failed = std::io::Error::new(std::io::ErrorKind::Other, "no");
    let r = ObjectStream::package(1, 4, b"1 0 5 ".to_vec(), Some(Err(failed)));
    assert_eq!(r.err(), Some(Error::Compression));
}

#[test]
fn real_numbers_are_written_with_their_scale() {
    let mut s = plain(10, 0);
    s.add_object((1, 0), Object::Real(Real { units: -5, scale: 1 })).unwrap();
    s.add_object((2, 0), Object::Real(Real { units: 1234, scale: 2 })).unwrap();
    s.add_object((3, 0), Object::Real(Real { units: 5, scale: 3 })).unwrap();
    s.add_object((4, 0), Object::Real(Real { units: 7, scale: 0 })).unwrap();
    let content = s.build_stream_content().unwrap();
    assert_eq!(content, b"1 0 2 5 3 11 4 17 -0.5 12.34 0.005 7. ".to_vec());
}

#[test]
fn composite_objects_are_written_canonically() {
    let mut d = Dictionary::new();
    d.set(b"Type".to_vec(), name("Font"));
    d.set(b"K".to_vec(), Object::Array(vec![Object::Integer(1), Object::Reference((2, 0))]));
    let mut s = plain(10, 0);
    s.add_object((1, 0), Object::Dictionary(d)).unwrap();
    s.add_object((2, 0), Object::String(vec![0x48, 0x69, 0xff])).unwrap();
    s.add_object((3, 0), Object::Name(b"A B#".to_vec())).unwrap();
    s.add_object((4, 0), Object::Array(Vec::new())).unwrap();
    let content = s.build_stream_content().unwrap();
    let body = b"<</Type /Font /K [1 2 0 R ] >> <4869FF> /A#20B#23 [] ";
    let index = b"1 0 2 31 3 40 4 50 ";
    let mut expected = index.to_vec();
    expected.extend_from_slice(body);
    assert_eq!(content, expected);
}

#[test]
fn empty_container_is_never_compressed() {
    for level in [6u32, 1, 9, 100] {
        let s = ObjectStream::builder().compression_level(level).build();
        let stream = s.to_stream_object().unwrap();
        assert_eq!(stream.content.len(), 0);
        assert_eq!(stream.dict.len(), 3);
        assert_eq!(stream.dict.get(b"N"), Ok(&Object::Integer(0)));
        assert_eq!(stream.dict.get(b"First"), Ok(&Object::Integer(0)));
        assert!(!stream.dict.has(b"Filter"));
    }
    let stream = ObjectStream::builder().build().to_stream_object().unwrap();
    assert_eq!(stream.content, Vec::<u8>::new());
}

#[test]
fn one_object_is_compressed_at_the_default_intensity() {
    let mut s = ObjectStream::builder().build();
    s.add_object((1, 0), Object::Null).unwrap();
    let stream = s.to_stream_object().unwrap();
    assert_eq!(stream.dict.get(b"Filter"), Ok(&name("FlateDecode")));
    assert_ne!(stream.content, b"1 0 null ".to_vec());
}

#[test]
fn settings_are_fields() {
    let mut s = ObjectStream::builder().max_objects(2).compression_level(0).build();
    assert_eq!(s.max_objects, 2);
    assert_eq!(s.compression_level, 0);
    s.max_objects = 1;
    assert_eq!(s.add_object((1, 0), Object::Null), Ok(()));
    assert_eq!(s.add_object((2, 0), Object::Null), Err(Error::CapacityExceeded(1)));
}
