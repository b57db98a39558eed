use objstm::{Dictionary, Error, Object, ObjectStream, Real, Stream};

fn name(s: &str) -> Object {
    Object::Name(s.as_bytes().to_vec())
}

fn raw_stream(first: i64, n: i64, content: &[u8]) -> Stream {
    let mut d = Dictionary::new();
    d.set(b"Type".to_vec(), name("ObjStm"));
    d.set(b"N".to_vec(), Object::Integer(n));
    d.set(b"First".to_vec(), Object::Integer(first));
    Stream::new(d, content.to_vec())
}

fn sample_objects() -> Vec<((u32, u16), Object)> {
    let mut inner = Dictionary::new();
    inner.set(b"Kids".to_vec(), Object::Array(vec![Object::Reference((7, 0)), Object::Null]));
    inner.set(b"Count".to_vec(), Object::Integer(-12));
    let mut d = Dictionary::new();
    d.set(b"Type".to_vec(), name("Font"));
    d.set(b"Sub Type".to_vec(), Object::Dictionary(inner));
    vec![
        ((1, 0), Object::Null),
        ((2, 0), Object::Boolean(true)),
        ((3, 0), Object::Boolean(false)),
        ((4, 0), Object::Integer(0)),
        ((5, 0), Object::Integer(i64::MIN)),
        ((6, 0), Object::Integer(i64::MAX)),
        ((7, 0), Object::Real(Real { units: -314159, scale: 5 })),
        ((8, 0), Object::Real(Real { units: 0, scale: 0 })),
        ((9, 0), Object::String(b"hello \x00 world".to_vec())),
        ((10, 0), Object::String(Vec::new())),
        ((11, 0), Object::Name(b"Name/With#Odd Bytes\xff".to_vec())),
        ((12, 0), name("")),
        ((13, 0), Object::Array(vec![Object::Integer(5), Object::Integer(0), name("R")])),
        ((14, 0), Object::Integer(5)),
        ((15, 0), Object::Integer(0)),
        ((16, 0), Object::Reference((4_000_000_000, 65535))),
        ((17, 0), Object::Dictionary(d)),
        ((18, 0), Object::Array(vec![Object::Array(Vec::new()), Object::Dictionary(Dictionary::new())])),
        ((19, 0), Object::Real(Real { units: i64::MIN, scale: 255 })),
    ]
}

fn round_trip_at(level: u32) {
    let mut s = ObjectStream::builder().compression_level(level).build();
    for (id, o) in sample_objects() {
        s.add_object(id, o).unwrap();
    }
    let mut stream = s.to_stream_object().unwrap();
    let back = ObjectStream::new(&mut stream).unwrap();
    assert_eq!(back.object_count(), sample_objects().len());
    for (id, o) in sample_objects() {
        assert_eq!(back.objects.get(id), Some(&o));
    }
    assert_eq!(back.objects, s.objects);
}

#[test]
fn round_trip_uncompressed() {
    round_trip_at(0);
}

#[test]
fn round_trip_fast() {
    round_trip_at(1);
}

#[test]
fn round_trip_default() {
    round_trip_at(6);
}

#[test]
fn round_trip_best() {
    round_trip_at(9);
}

#[test]
fn round_trip_above_nine() {
    round_trip_at(40);
}

#[test]
fn round_trip_normalizes_generation() {
    let mut s = ObjectStream::builder().compression_level(3).build();
    s.add_object((4, 2), Object::Integer(44)).unwrap();
    s.add_object((9, 1), name("Nine")).unwrap();
    let mut stream = s.to_stream_object().unwrap();
    let back = ObjectStream::new(&mut stream).unwrap();
    assert_eq!(back.object_count(), 2);
    assert_eq!(back.objects.get((4, 0)), Some(&Object::Integer(44)));
    assert_eq!(back.objects.get((9, 0)), Some(&name("Nine")));
    assert!(back.objects.get((4, 2)).is_none());
}

#[test]
fn same_number_in_two_generations_collides() {
    let mut s = ObjectStream::builder().compression_level(0).build();
    s.add_object((5, 0), Object::Integer(1)).unwrap();
    s.add_object((5, 1), Object::Integer(2)).unwrap();
    let mut stream = s.to_stream_object().unwrap();
    let back = ObjectStream::new(&mut stream).unwrap();
    assert_eq!(back.object_count(), 1);
    assert_eq!(back.objects.get((5, 0)), Some(&Object::Integer(2)));
}

#[test]
fn empty_container_round_trip() {
    for level in [0u32, 6u32] {
        let s = ObjectStream::builder().compression_level(level).build();
        let mut stream = s.to_stream_object().unwrap();
        let back = ObjectStream::new(&mut stream).unwrap();
        assert_eq!(back.object_count(), 0);
        assert!(back.objects.is_empty());
    }
}

#[test]
fn empty_content_is_an_empty_container() {
    let mut stream = Stream::new(Dictionary::new(), Vec::new());
    let (back, report) = ObjectStream::decode(&mut stream).unwrap();
    assert_eq!(back.object_count(), 0);
    assert_eq!(back.max_objects(), 100);
    assert_eq!(back.compression_level(), 6);
    assert!(!report.count_mismatch);
    assert_eq!(report.out_of_bounds, 0);
}

#[test]
fn index_pairs_are_number_and_offset() {
    let mut stream = raw_stream(9, 2, b"5 0 6 12 [1 2 3 4 5] true ");
    let (back, report) = ObjectStream::decode(&mut stream).unwrap();
    assert_eq!(back.object_count(), 2);
    let five = Object::Array((1..=5).map(Object::Integer).collect());
    assert_eq!(back.objects.get((5, 0)), Some(&five));
    assert_eq!(back.objects.get((6, 0)), Some(&Object::Boolean(true)));
    assert!(!report.count_mismatch);
    assert_eq!(report.out_of_bounds, 0);
}

#[test]
fn missing_first_fails() {
    let mut d = Dictionary::new();
    d.set(b"N".to_vec(), Object::Integer(0));
    let mut stream = Stream::new(d, b"1 0 5 ".to_vec());
    assert_eq!(ObjectStream::new(&mut stream).err(), Some(Error::MissingKey));
}

#[test]
fn first_of_wrong_type_fails() {
    let mut d = Dictionary::new();
    d.set(b"N".to_vec(), Object::Integer(1));
    d.set(b"First".to_vec(), name("four"));
    let mut stream = Stream::new(d, b"1 0 5 ".to_vec());
    assert_eq!(ObjectStream::new(&mut stream).err(), Some(Error::WrongType));
}

#[test]
fn negative_first_fails() {
    let mut stream = raw_stream(-1, 1, b"1 0 5 ");
    assert_eq!(ObjectStream::new(&mut stream).err(), Some(Error::NumericCast));
}

#[test]
fn first_beyond_content_fails() {
    let mut stream = raw_stream(7, 1, b"1 0 5 ");
    assert_eq!(ObjectStream::new(&mut stream).err(), Some(Error::InvalidOffset(7)));
}

#[test]
fn first_at_end_of_content_decodes_nothing() {
    let mut stream = raw_stream(6, 1, b"1 0 5 ");
    let (back, report) = ObjectStream::decode(&mut stream).unwrap();
    assert_eq!(back.object_count(), 0);
    assert!(!report.count_mismatch);
    assert_eq!(report.out_of_bounds, 1);
}

#[test]
fn index_that_is_no_text_fails() {
    let mut stream = raw_stream(4, 1, b"1 \xff 5 ");
    assert_eq!(ObjectStream::new(&mut stream).err(), Some(Error::InvalidContainer));
    let mut overlong = raw_stream(4, 1, b"1\xc0\x80 5 ");
    assert_eq!(ObjectStream::new(&mut overlong).err(), Some(Error::InvalidContainer));
    let mut cut = raw_stream(3, 1, b"1 \xe2\x80\x80 5 ");
    assert_eq!(ObjectStream::new(&mut cut).err(), Some(Error::InvalidContainer));
}

#[test]
fn missing_n_is_a_count_mismatch() {
    let mut d = Dictionary::new();
    d.set(b"First".to_vec(), Object::Integer(4));
    let mut stream = Stream::new(d, b"1 0 5 ".to_vec());
    let (back, report) = ObjectStream::decode(&mut stream).unwrap();
    assert_eq!(back.object_count(), 1);
    assert_eq!(back.objects.get((1, 0)), Some(&Object::Integer(5)));
    assert!(report.count_mismatch);
    assert_eq!(report.out_of_bounds, 0);
    let mut d = Dictionary::new();
    d.set(b"First".to_vec(), Object::Integer(4));
    let mut stream = Stream::new(d, b"1 0 5 ".to_vec());
    let back = ObjectStream::new(&mut stream).unwrap();
    assert_eq!(back.objects.get((1, 0)), Some(&Object::Integer(5)));
}

#[test]
fn n_of_another_type_is_a_count_mismatch() {
    for n in [Object::Null, name("one"), Object::Integer(-1), Object::Integer(i64::MAX)] {
        let mut d = Dictionary::new();
        d.set(b"First".to_vec(), Object::Integer(4));
        d.set(b"N".to_vec(), n);
        let mut stream = Stream::new(d, b"1 0 5 ".to_vec());
        let (back, report) = ObjectStream::decode(&mut stream).unwrap();
        assert_eq!(back.objects.get((1, 0)), Some(&Object::Integer(5)));
        assert!(report.count_mismatch);
    }
}

#[test]
fn only_the_structure_fails_a_decode() {
    let mut no_pairs = raw_stream(0, 0, b"42 ");
    let (back, report) = ObjectStream::decode(&mut no_pairs).unwrap();
    assert_eq!(back.object_count(), 0);
    assert!(!report.count_mismatch);
    let mut all_bad = raw_stream(8, 7, b"x y 1 9 ?? ");
    let (back, report) = ObjectStream::decode(&mut all_bad).unwrap();
    assert_eq!(back.object_count(), 0);
    assert!(report.count_mismatch);
    assert_eq!(report.out_of_bounds, 1);
}

#[test]
fn wrong_count_is_reported_not_fatal() {
    let mut stream = raw_stream(8, 5, b"1 0 2 3 42 /A ");
    let (back, report) = ObjectStream::decode(&mut stream).unwrap();
    assert_eq!(back.object_count(), 2);
    assert!(report.count_mismatch);
    let mut right = raw_stream(8, 2, b"1 0 2 3 42 /A ");
    let (_, report) = ObjectStream::decode(&mut right).unwrap();
    assert!(!report.count_mismatch);
}

#[test]
fn unpaired_token_is_dropped() {
    let mut stream = raw_stream(10, 2, b"1 0 2 3 9 42 /A ");
    let (back, report) = ObjectStream::decode(&mut stream).unwrap();
    assert_eq!(back.object_count(), 2);
    assert_eq!(back.objects.get((1, 0)), Some(&Object::Integer(42)));
    assert_eq!(back.objects.get((2, 0)), Some(&name("A")));
    assert!(!report.count_mismatch);
}

#[test]
fn token_that_is_no_number_loses_its_pair() {
    let mut stream = raw_stream(12, 3, b"1 0 x 3 3 6 42 /A /B ");
    let (back, _) = ObjectStream::decode(&mut stream).unwrap();
    assert_eq!(back.object_count(), 2);
    assert_eq!(back.objects.get((1, 0)), Some(&Object::Integer(42)));
    assert_eq!(back.objects.get((3, 0)), Some(&name("B")));
    let mut minus = raw_stream(9, 2, b"1 -0 2 3 42 /A ");
    let (back, _) = ObjectStream::decode(&mut minus).unwrap();
    assert_eq!(back.object_count(), 1);
    assert_eq!(back.objects.get((2, 0)), Some(&name("A")));
    let mut big = raw_stream(17, 2, b"4294967296 0 2 3 42 /A ");
    let (back, _) = ObjectStream::decode(&mut big).unwrap();
    assert_eq!(back.object_count(), 1);
    assert!(back.objects.get((0, 0)).is_none());
}

#[test]
fn plus_sign_and_leading_zeros_are_numbers() {
    let mut stream = raw_stream(20, 2, b"+1 000 4294967295 3 42 /A ");
    let back = ObjectStream::new(&mut stream).unwrap();
    assert_eq!(back.objects.get((1, 0)), Some(&Object::Integer(42)));
    assert_eq!(back.objects.get((4294967295, 0)), Some(&name("A")));
}

#[test]
fn unicode_white_space_separates_tokens() {
    let mut content = Vec::new();
    content.extend_from_slice("1\u{00a0}0\u{2003}2\t3\u{3000}\n".as_bytes());
    let first = content.len() as i64;
    content.extend_from_slice(b"42 /A ");
    let mut stream = raw_stream(first, 2, &content);
    let back = ObjectStream::new(&mut stream).unwrap();
    assert_eq!(back.object_count(), 2);
    assert_eq!(back.objects.get((1, 0)), Some(&Object::Integer(42)));
    assert_eq!(back.objects.get((2, 0)), Some(&name("A")));
}

#[test]
fn offset_beyond_content_is_counted() {
    let mut stream = raw_stream(12, 3, b"1 0 2 6 3 7 42 /A ");
    let (back, report) = ObjectStream::decode(&mut stream).unwrap();
    assert_eq!(back.object_count(), 1);
    assert_eq!(back.objects.get((1, 0)), Some(&Object::Integer(42)));
    assert_eq!(report.out_of_bounds, 2);
    assert!(!report.count_mismatch);
}

#[test]
fn unreadable_object_is_dropped() {
    let mut stream = raw_stream(8, 2, b"1 0 2 3 ?? /A ");
    let (back, report) = ObjectStream::decode(&mut stream).unwrap();
    assert_eq!(back.object_count(), 1);
    assert_eq!(back.objects.get((2, 0)), Some(&name("A")));
    assert_eq!(report.out_of_bounds, 0);
}

#[test]
fn later_pair_replaces_earlier() {
    let mut stream = raw_stream(8, 2, b"1 0 1 3 42 /A ");
    let back = ObjectStream::new(&mut stream).unwrap();
    assert_eq!(back.object_count(), 1);
    assert_eq!(back.objects.get((1, 0)), Some(&name("A")));
}

#[test]
fn decoder_reads_loose_spelling() {
    let text = b"1 0 2 20 [ 1\n2\t/N<</A 1/B[true false]>> ] <48 69> ";
    let mut stream = raw_stream(9, 2, text);
    let back = ObjectStream::new(&mut stream).unwrap();
    let mut d = Dictionary::new();
    d.set(b"A".to_vec(), Object::Integer(1));
    d.set(b"B".to_vec(), Object::Array(vec![Object::Boolean(true), Object::Boolean(false)]));
    let expected = Object::Array(vec![Object::Integer(1), Object::Integer(2), name("N"), Object::Dictionary(d)]);
    assert_eq!(back.objects.get((1, 0)), Some(&expected));
    assert!(back.objects.get((2, 0)).is_none());
}

#[test]
fn decompress_reports_each_failure() {
    let mut none = Stream::new(Dictionary::new(), vec![1, 2, 3]);
    assert_eq!(none.decompress(), Err(Error::MissingKey));
    assert_eq!(none.content, vec![1, 2, 3]);
    let mut d = Dictionary::new();
    d.set(b"Filter".to_vec(), name("LZWDecode"));
    let mut other = Stream::new(d, vec![1, 2, 3]);
    assert_eq!(other.decompress(), Err(Error::UnsupportedFilter));
    assert!(other.dict.has(b"Filter"));
    let mut d = Dictionary::new();
    d.set(b"Filter".to_vec(), name("FlateDecode"));
    let mut broken = Stream::new(d, vec![1, 2, 3]);
    assert_eq!(broken.decompress(), Err(Error::Compression));
    assert_eq!(broken.content, vec![1, 2, 3]);
    assert!(broken.dict.has(b"Filter"));
}

#[test]
fn undecodable_payload_is_read_as_it_is() {
    let mut d = Dictionary::new();
    d.set(b"Filter".to_vec(), name("FlateDecode"));
    d.set(b"N".to_vec(), Object::Integer(1));
    d.set(b"First".to_vec(), Object::Integer(4));
    let mut stream = Stream::new(d, b"1 0 5 ".to_vec());
    let back = ObjectStream::new(&mut stream).unwrap();
    assert_eq!(back.objects.get((1, 0)), Some(&Object::Integer(5)));
}
