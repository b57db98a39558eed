use objstm::{Dictionary, Document, Error, Object, ObjectStream, Stream};

fn name(s: &str) -> Object {
    Object::Name(s.as_bytes().to_vec())
}

fn typed(kind: &str, key: &str, target: (u32, u16)) -> Object {
    let mut d = Dictionary::new();
    d.set(b"Type".to_vec(), name(kind));
    d.set(key.as_bytes().to_vec(), Object::Reference(target));
    Object::Dictionary(d)
}

fn link(target: (u32, u16)) -> Object {
    let mut d = Dictionary::new();
    d.set(b"Next".to_vec(), Object::Reference(target));
    Object::Dictionary(d)
}

#[test]
fn catalog_chain_is_not_compressible() {
    let mut doc = Document::new();
    doc.objects.insert((1, 0), typed("Catalog", "Pages", (2, 0)));
    doc.objects.insert((2, 0), link((3, 0)));
    doc.objects.insert((3, 0), Object::Integer(7));
    doc.objects.insert((4, 0), Object::Integer(8));
    let ids = ObjectStream::find_all_non_compressible_objects(&doc);
    assert_eq!(ids, vec![(1, 0), (2, 0), (3, 0)]);
    let three = Object::Integer(7);
    assert!(!ObjectStream::can_be_compressed((3, 0), &three, &doc));
    assert!(!ObjectStream::can_be_compressed((1, 0), &three, &doc));
    assert!(!ObjectStream::can_be_compressed((2, 0), &three, &doc));
    assert!(ObjectStream::can_be_compressed((4, 0), &three, &doc));
}

#[test]
fn query_is_repeatable() {
    let mut doc = Document::new();
    doc.objects.insert((1, 0), typed("Catalog", "Pages", (2, 0)));
    doc.objects.insert((2, 0), Object::Null);
    doc.objects.insert((3, 0), Object::Null);
    for id in [(1u32, 0u16), (2, 0), (3, 0), (9, 0)] {
        let a = ObjectStream::can_be_compressed(id, &Object::Null, &doc);
        let b = ObjectStream::can_be_compressed(id, &Object::Null, &doc);
        assert_eq!(a, b);
    }
}

#[test]
fn cycle_terminates() {
    let mut doc = Document::new();
    doc.objects.insert((1, 0), typed("Page", "Next", (2, 0)));
    doc.objects.insert((2, 0), link((3, 0)));
    doc.objects.insert((3, 0), link((1, 0)));
    doc.objects.insert((4, 0), link((5, 0)));
    doc.objects.insert((5, 0), link((4, 0)));
    let ids = ObjectStream::find_all_non_compressible_objects(&doc);
    assert_eq!(ids, vec![(1, 0), (2, 0), (3, 0)]);
    assert!(ObjectStream::can_be_compressed((4, 0), &Object::Null, &doc));
    assert!(ObjectStream::can_be_compressed((5, 0), &Object::Null, &doc));
}

#[test]
fn self_reference_terminates() {
    let mut doc = Document::new();
    doc.objects.insert((1, 0), typed("Pages", "Parent", (1, 0)));
    assert_eq!(ObjectStream::find_all_non_compressible_objects(&doc), vec![(1, 0)]);
}

#[test]
fn dangling_reference_is_skipped() {
    let mut doc = Document::new();
    doc.objects.insert((1, 0), typed("XRef", "Prev", (99, 0)));
    doc.objects.insert((2, 0), Object::Null);
    let ids = ObjectStream::find_all_non_compressible_objects(&doc);
    assert_eq!(ids, vec![(1, 0)]);
    assert!(ObjectStream::can_be_compressed((99, 0), &Object::Null, &doc));
}

#[test]
fn every_structural_type_is_a_seed() {
    for kind in ["Page", "Pages", "Catalog", "XRef", "ObjStm"] {
        let mut d = Dictionary::new();
        d.set(b"Type".to_vec(), name(kind));
        let mut doc = Document::new();
        doc.objects.insert((1, 0), Object::Dictionary(d));
        assert!(!ObjectStream::can_be_compressed((1, 0), &Object::Null, &doc));
    }
    for kind in ["Font", "page", "Pag", "Pagess", ""] {
        let mut d = Dictionary::new();
        d.set(b"Type".to_vec(), name(kind));
        let mut doc = Document::new();
        doc.objects.insert((1, 0), Object::Dictionary(d));
        assert!(ObjectStream::can_be_compressed((1, 0), &Object::Null, &doc));
    }
}

#[test]
fn type_that_is_no_name_is_no_seed() {
    let mut d = Dictionary::new();
    d.set(b"Type".to_vec(), Object::String(b"Catalog".to_vec()));
    let mut doc = Document::new();
    doc.objects.insert((1, 0), Object::Dictionary(d));
    assert!(ObjectStream::can_be_compressed((1, 0), &Object::Null, &doc));
}

#[test]
fn stream_is_a_seed_and_its_dictionary_propagates() {
    let mut d = Dictionary::new();
    d.set(b"Resources".to_vec(), Object::Array(vec![Object::Reference((2, 0))]));
    let mut doc = Document::new();
    doc.objects.insert((1, 0), Object::Stream(Stream::new(d, b"3 0 R".to_vec())));
    doc.objects.insert((2, 0), Object::Null);
    doc.objects.insert((3, 0), Object::Null);
    let ids = ObjectStream::find_all_non_compressible_objects(&doc);
    assert_eq!(ids, vec![(1, 0), (2, 0)]);
}

#[test]
fn trailer_reference_is_a_seed() {
    let mut doc = Document::new();
    doc.objects.insert((1, 0), link((2, 0)));
    doc.objects.insert((2, 0), Object::Null);
    doc.objects.insert((3, 0), Object::Null);
    doc.objects.insert((4, 0), Object::Null);
    doc.trailer.set(b"Root".to_vec(), Object::Reference((1, 0)));
    doc.trailer.set(b"ID".to_vec(), Object::Array(vec![Object::Reference((3, 0))]));
    doc.trailer.set(b"Info".to_vec(), Object::Reference((8, 0)));
    let ids = ObjectStream::find_all_non_compressible_objects(&doc);
    assert_eq!(ids, vec![(1, 0), (2, 0)]);
    assert!(ObjectStream::can_be_compressed((3, 0), &Object::Null, &doc));
    assert!(ObjectStream::can_be_compressed((8, 0), &Object::Null, &doc));
}

#[test]
fn empty_document_has_nothing_to_keep() {
    let doc = Document::new();
    assert!(ObjectStream::find_all_non_compressible_objects(&doc).is_empty());
    assert!(ObjectStream::can_be_compressed((1, 0), &Object::Null, &doc));
}

#[test]
fn references_are_collected_through_nesting() {
    let mut inner = Dictionary::new();
    inner.set(b"A".to_vec(), Object::Reference((3, 0)));
    let mut d = Dictionary::new();
    d.set(b"K".to_vec(), Object::Array(vec![Object::Reference((1, 0)), Object::Dictionary(inner)]));
    d.set(b"L".to_vec(), Object::Reference((2, 5)));
    d.set(b"M".to_vec(), Object::Integer(4));
    let mut refs = ObjectStream::collect_all_references(&Object::Dictionary(d));
    refs.sort();
    refs.dedup();
    assert_eq!(refs, vec![(1, 0), (2, 5), (3, 0)]);
    assert!(ObjectStream::collect_all_references(&Object::Integer(1)).is_empty());
    assert_eq!(ObjectStream::collect_all_references(&Object::Reference((6, 1))), vec![(6, 1)]);
}

#[test]
fn stream_payload_is_not_searched() {
    let mut d = Dictionary::new();
    d.set(b"Length".to_vec(), Object::Reference((4, 0)));
    let s = Object::Stream(Stream::new(d, b"9 0 R".to_vec()));
    assert_eq!(ObjectStream::collect_all_references(&s), vec![(4, 0)]);
}

#[test]
fn collector_adds_to_what_is_there() {
    let mut refs = vec![(9u32, 9u16)];
    ObjectStream::collect_references_recursive(&Object::Reference((1, 0)), &mut refs);
    assert_eq!(refs, vec![(9, 9), (1, 0)]);
}

#[test]
fn document_lookup() {
    let mut doc = Document::new();
    doc.objects.insert((2, 0), Object::Integer(5));
    assert_eq!(doc.get_object((2, 0)), Ok(&Object::Integer(5)));
    assert_eq!(doc.get_object((3, 0)), Err(Error::NotFound((3, 0))));
}

#[test]
fn repeated_reference_is_collected_once() {
    let mut d = Dictionary::new();
    d.set(b"A".to_vec(), Object::Reference((3, 0)));
    d.set(b"B".to_vec(), Object::Array(vec![Object::Reference((1, 0)), Object::Reference((3, 0))]));
    d.set(b"C".to_vec(), Object::Reference((1, 0)));
    d.set(b"D".to_vec(), Object::Reference((3, 1)));
    let refs = ObjectStream::collect_all_references(&Object::Dictionary(d));
    assert_eq!(refs, vec![(3, 0), (1, 0), (3, 1)]);
}

#[test]
fn collector_skips_what_is_there() {
    let mut refs = vec![(9u32, 9u16), (1, 0)];
    let both = Object::Array(vec![Object::Reference((1, 0)), Object::Reference((2, 0))]);
    ObjectStream::collect_references_recursive(&both, &mut refs);
    assert_eq!(refs, vec![(9, 9), (1, 0), (2, 0)]);
}
