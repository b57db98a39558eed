use objstm::container::Layout;
use objstm::flate::{effort_for, Effort};
use objstm::parser::{parse_direct_object, read_object};
use objstm::writer::write_object;
use objstm::{Dictionary, Error, Object, ObjectStream, Real, Stream};

fn name(s: &str) -> Object {
    Object::Name(s.as_bytes().to_vec())
}

fn parse(text: &[u8]) -> Option<Object> {
    parse_direct_object(text, 0)
}

fn written(o: &Object) -> Vec<u8> {
    let mut out = Vec::new();
    write_object(&mut out, o).unwrap();
    out
}

#[test]
fn keywords_are_read() {
    assert_eq!(parse(b"null"), Some(Object::Null));
    assert_eq!(parse(b"true "), Some(Object::Boolean(true)));
    assert_eq!(parse(b"false]"), Some(Object::Boolean(false)));
    assert_eq!(parse(b"nul"), None);
    assert_eq!(parse(b"tru"), None);
    assert_eq!(parse(b"fals"), None);
    assert_eq!(parse(b""), None);
    assert_eq!(parse(b" null"), None);
}

#[test]
fn integers_are_read() {
    assert_eq!(parse(b"0"), Some(Object::Integer(0)));
    assert_eq!(parse(b"+17"), Some(Object::Integer(17)));
    assert_eq!(parse(b"-17 "), Some(Object::Integer(-17)));
    assert_eq!(parse(b"007"), Some(Object::Integer(7)));
    assert_eq!(parse(b"9223372036854775807"), Some(Object::Integer(i64::MAX)));
    assert_eq!(parse(b"-9223372036854775808"), Some(Object::Integer(i64::MIN)));
    assert_eq!(parse(b"9223372036854775808"), None);
    assert_eq!(parse(b"-9223372036854775809"), None);
    assert_eq!(parse(b"99999999999999999999999999"), None);
    assert_eq!(parse(b"-"), None);
    assert_eq!(parse(b"+"), None);
}

#[test]
fn reals_are_read() {
    assert_eq!(parse(b"1.5"), Some(Object::Real(Real { units: 15, scale: 1 })));
    assert_eq!(parse(b"-0.25 "), Some(Object::Real(Real { units: -25, scale: 2 })));
    assert_eq!(parse(b".5"), Some(Object::Real(Real { units: 5, scale: 1 })));
    assert_eq!(parse(b"-.5"), Some(Object::Real(Real { units: -5, scale: 1 })));
    assert_eq!(parse(b"4."), Some(Object::Real(Real { units: 4, scale: 0 })));
    assert_eq!(parse(b"+3.140"), Some(Object::Real(Real { units: 3140, scale: 3 })));
    assert_eq!(parse(b"."), None);
    assert_eq!(parse(b"-."), None);
    assert_eq!(parse(b"92233720368547758.08"), None);
    assert_eq!(parse(b"-92233720368547758.08"), Some(Object::Real(Real { units: i64::MIN, scale: 2 })));
}

#[test]
fn references_are_read() {
    assert_eq!(parse(b"5 0 R"), Some(Object::Reference((5, 0))));
    assert_eq!(parse(b"5  \n 12\tR"), Some(Object::Reference((5, 12))));
    assert_eq!(parse(b"4294967295 65535 R"), Some(Object::Reference((4294967295, 65535))));
    assert_eq!(parse(b"4294967296 0 R"), Some(Object::Integer(4294967296)));
    assert_eq!(parse(b"5 65536 R"), Some(Object::Integer(5)));
    assert_eq!(parse(b"5 0 obj"), Some(Object::Integer(5)));
    assert_eq!(parse(b"5 0R"), Some(Object::Integer(5)));
    assert_eq!(parse(b"+5 0 R"), Some(Object::Integer(5)));
    assert_eq!(parse(b"-5 0 R"), Some(Object::Integer(-5)));
    assert_eq!(parse(b"5 0"), Some(Object::Integer(5)));
}

#[test]
fn names_are_read() {
    assert_eq!(parse(b"/Type"), Some(name("Type")));
    assert_eq!(parse(b"/A#20B "), Some(name("A B")));
    assert_eq!(parse(b"/A#2"), Some(name("A#2")));
    assert_eq!(parse(b"/A#zz"), Some(name("A#zz")));
    assert_eq!(parse(b"/"), Some(name("")));
    assert_eq!(parse(b"/A/B"), Some(name("A")));
    assert_eq!(parse(b"/a#ff"), Some(Object::Name(vec![b'a', 0xff])));
    assert_eq!(parse(b"/a#FF"), Some(Object::Name(vec![b'a', 0xff])));
}

#[test]
fn hexadecimal_strings_are_read() {
    assert_eq!(parse(b"<48656c6C6f>"), Some(Object::String(b"Hello".to_vec())));
    assert_eq!(parse(b"<>"), Some(Object::String(Vec::new())));
    assert_eq!(parse(b"<4"), None);
    assert_eq!(parse(b"<48"), None);
    assert_eq!(parse(b"<4g>"), None);
    assert_eq!(parse(b"<"), None);
}

#[test]
fn literal_strings_are_read() {
    assert_eq!(parse(b"(Hello)"), Some(Object::String(b"Hello".to_vec())));
    assert_eq!(parse(b"()"), Some(Object::String(Vec::new())));
    assert_eq!(parse(b"(a (b (c)) d) "), Some(Object::String(b"a (b (c)) d".to_vec())));
    assert_eq!(parse(b"(a\\)b\\(c\\\\)"), Some(Object::String(b"a)b(c\\".to_vec())));
    assert_eq!(parse(b"(\\n\\r\\t\\b\\f\\x)"), Some(Object::String(vec![10, 13, 9, 8, 12, b'x'])));
    assert_eq!(parse(b"(\\101\\7\\0053\\400)"), Some(Object::String(vec![b'A', 7, 5, b'3', 0])));
    assert_eq!(parse(b"(a\\\nb\\\r\nc\\\rd)"), Some(Object::String(b"abcd".to_vec())));
    assert_eq!(parse(b"(open"), None);
    assert_eq!(parse(b"(a (b)"), None);
    assert_eq!(parse(b"(a\\"), None);
}

#[test]
fn arrays_and_dictionaries_are_read() {
    assert_eq!(parse(b"[]"), Some(Object::Array(Vec::new())));
    assert_eq!(parse(b"[ ]"), Some(Object::Array(Vec::new())));
    let items = Object::Array(vec![Object::Integer(1), name("A"), Object::Reference((2, 0)), Object::Null]);
    assert_eq!(parse(b"[1/A 2 0 R null]"), Some(items));
    assert_eq!(parse(b"[1 2"), None);
    assert_eq!(parse(b"[1 ?]"), None);
    let mut d = Dictionary::new();
    d.set(b"A".to_vec(), Object::Integer(1));
    d.set(b"B".to_vec(), Object::String(b"x".to_vec()));
    assert_eq!(parse(b"<< /A 1 /B (x) >>"), Some(Object::Dictionary(d)));
    assert_eq!(parse(b"<<>>"), Some(Object::Dictionary(Dictionary::new())));
    assert_eq!(parse(b"<</A 1>"), None);
    assert_eq!(parse(b"<</A>>"), None);
    assert_eq!(parse(b"<<1 2>>"), None);
}

#[test]
fn repeated_key_keeps_its_first_place_and_last_value() {
    let parsed = parse(b"<</A 1 /B 2 /A 3>>").unwrap();
    let mut d = Dictionary::new();
    d.set(b"A".to_vec(), Object::Integer(3));
    d.set(b"B".to_vec(), Object::Integer(2));
    assert_eq!(parsed, Object::Dictionary(d));
}

#[test]
fn parser_gives_the_end_of_the_text() {
    assert_eq!(read_object(b"xx[1 2] 3", 2), Some((Object::Array(vec![Object::Integer(1), Object::Integer(2)]), 7)));
    assert_eq!(read_object(b"5 0 R /A", 0), Some((Object::Reference((5, 0)), 5)));
    assert_eq!(read_object(b"12", 5), None);
}

#[test]
fn writer_gives_canonical_text() {
    assert_eq!(written(&Object::Null), b"null".to_vec());
    assert_eq!(written(&Object::Boolean(true)), b"true".to_vec());
    assert_eq!(written(&Object::Integer(i64::MIN)), b"-9223372036854775808".to_vec());
    assert_eq!(written(&Object::Real(Real { units: -1, scale: 3 })), b"-0.001".to_vec());
    assert_eq!(written(&Object::Real(Real { units: 120, scale: 1 })), b"12.0".to_vec());
    assert_eq!(written(&Object::String(vec![0, 0xab])), b"<00AB>".to_vec());
    assert_eq!(written(&Object::Name(b"a(b)%\x7f".to_vec())), b"/a#28b#29#25#7F".to_vec());
    assert_eq!(written(&Object::Reference((12, 3))), b"12 3 R".to_vec());
}

#[test]
fn writer_appends() {
    let mut out = b"x".to_vec();
    assert_eq!(write_object(&mut out, &Object::Integer(5)), Ok(()));
    assert_eq!(out, b"x5".to_vec());
}

#[test]
fn writer_refuses_streams() {
    let mut out = Vec::new();
    let s = Object::Stream(Stream::new(Dictionary::new(), Vec::new()));
    assert_eq!(write_object(&mut out, &s), Err(Error::Unserializable));
    let mut d = Dictionary::new();
    d.set(b"S".to_vec(), Object::Stream(Stream::new(Dictionary::new(), Vec::new())));
    assert_eq!(write_object(&mut out, &Object::Dictionary(d)), Err(Error::Unserializable));
}

#[test]
fn effort_follows_intensity() {
    assert_eq!(effort_for(0), Effort::Store);
    for level in 1..=3 {
        assert_eq!(effort_for(level), Effort::Fast);
    }
    for level in 4..=6 {
        assert_eq!(effort_for(level), Effort::Normal);
    }
    for level in [7u32, 8, 9, 10, u32::MAX] {
        assert_eq!(effort_for(level), Effort::Best);
    }
}

#[test]
fn effort_changes_the_output() {
    let mut fast = ObjectStream::builder().compression_level(1).build();
    let mut best = ObjectStream::builder().compression_level(9).build();
    for i in 0..60u32 {
        let text: Vec<u8> = (0..200u32).map(|k| b'a' + ((k * (i + 7)) % 26) as u8).collect();
        fast.add_object((i + 1, 0), Object::String(text.clone())).unwrap();
        best.add_object((i + 1, 0), Object::String(text)).unwrap();
    }
    let a = fast.to_stream_object().unwrap();
    let b = best.to_stream_object().unwrap();
    assert!(b.content.len() <= a.content.len());
    assert_ne!(a.content, b.content);
}

#[test]
fn layout_of_a_container() {
    let mut d = Dictionary::new();
    d.set(b"N".to_vec(), Object::Integer(2));
    d.set(b"First".to_vec(), Object::Integer(10));
    let stream = Stream::new(d, b"1 0 2 3 9 42 /A ".to_vec());
    let Layout { first, numbers, count_mismatch } = ObjectStream::read_layout(&stream).unwrap();
    assert_eq!(first, 10);
    assert_eq!(numbers, vec![Some(1), Some(0), Some(2), Some(3), Some(9)]);
    assert!(!count_mismatch);
    let mut no_n = Dictionary::new();
    no_n.set(b"First".to_vec(), Object::Integer(4));
    let layout = ObjectStream::read_layout(&Stream::new(no_n, b"1 0 5 ".to_vec())).unwrap();
    assert_eq!(layout.first, 4);
    assert_eq!(layout.numbers, vec![Some(1), Some(0)]);
    assert!(layout.count_mismatch);
    let empty = ObjectStream::read_layout(&Stream::new(Dictionary::new(), Vec::new())).unwrap();
    assert_eq!(empty.first, 0);
    assert!(empty.numbers.is_empty());
    assert!(!empty.count_mismatch);
}

#[test]
fn pairs_are_read_one_by_one() {
    let content = b"1 0 2 3 42 /A ";
    assert_eq!(ObjectStream::read_pair(content, 8, Some(1), Some(0)), Some(((1, 0), Object::Integer(42))));
    assert_eq!(ObjectStream::read_pair(content, 8, Some(2), Some(3)), Some(((2, 0), name("A"))));
    assert_eq!(ObjectStream::read_pair(content, 8, None, Some(3)), None);
    assert_eq!(ObjectStream::read_pair(content, 8, Some(2), None), None);
    assert_eq!(ObjectStream::read_pair(content, 8, Some(2), Some(6)), None);
    assert_eq!(ObjectStream::read_pair(content, 8, Some(2), Some(u32::MAX)), None);
    assert_eq!(ObjectStream::read_pair(content, 8, Some(2), Some(2)), None);
    assert!(ObjectStream::pair_beyond(content, 8, Some(2), Some(6)));
    assert!(!ObjectStream::pair_beyond(content, 8, Some(2), Some(5)));
    assert!(!ObjectStream::pair_beyond(content, 8, None, Some(6)));
    assert!(!ObjectStream::pair_beyond(content, 8, Some(2), None));
}

#[test]
fn clone_is_deep() {
    let mut d = Dictionary::new();
    d.set(b"K".to_vec(), Object::Array(vec![Object::Reference((1, 0)), Object::String(b"s".to_vec())]));
    let s = Object::Stream(Stream::new(d.clone(), vec![1, 2, 3]));
    assert_eq!(s.clone(), s);
    assert_eq!(d.clone(), d);
    let mut changed = d.clone();
    changed.set(b"K".to_vec(), Object::Null);
    assert_ne!(changed, d);
}

#[test]
fn dictionary_operations() {
    let mut d = Dictionary::new();
    assert!(d.is_empty());
    d.set(b"A".to_vec(), Object::Integer(1));
    d.set(b"B".to_vec(), Object::Integer(2));
    d.set(b"A".to_vec(), Object::Integer(3));
    assert_eq!(d.len(), 2);
    assert_eq!(d.key_at(0), &b"A".to_vec());
    assert_eq!(d.value_at(0), &Object::Integer(3));
    assert_eq!(d.position(b"B"), 1);
    assert_eq!(d.position(b"C"), 2);
    assert_eq!(d.get(b"C"), Err(Error::MissingKey));
    d.remove(b"A");
    assert_eq!(d.len(), 1);
    assert!(!d.has(b"A"));
    d.remove(b"A");
    assert_eq!(d.len(), 1);
    assert_eq!(Object::Integer(4).as_i64(), Ok(4));
    assert_eq!(Object::Null.as_i64(), Err(Error::WrongType));
    assert_eq!(name("x").as_name(), Ok(&b"x".to_vec()));
    assert_eq!(Object::Null.as_name(), Err(Error::WrongType));
    let mut s = Stream::new(Dictionary::new(), vec![1]);
    s.set_content(vec![2, 3]);
    assert_eq!(s.content, vec![2, 3]);
}
