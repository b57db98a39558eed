//! Byte classes of the document syntax and comparison of byte strings.
use vstd::prelude::*;

verus! {

/// White space of the document syntax: NUL, TAB, LF, FF, CR and SPACE.
pub open spec fn is_space(b: u8) -> bool {
    b == 0 || b == 9 || b == 10 || b == 12 || b == 13 || b == 32
}

/// The ten delimiter characters `( ) < > [ ] { } / %`.
pub open spec fn is_delimiter(b: u8) -> bool {
    b == 40 || b == 41 || b == 60 || b == 62 || b == 91 || b == 93 || b == 123 || b == 125 || b
        == 47 || b == 37
}

/// A regular character is neither white space nor a delimiter.
pub open spec fn is_regular(b: u8) -> bool {
    !is_space(b) && !is_delimiter(b)
}

/// A decimal digit `0`..`9`.
pub open spec fn is_digit(b: u8) -> bool {
    48 <= b <= 57
}

/// A hexadecimal digit in either case.
pub open spec fn is_hex_digit(b: u8) -> bool {
    is_digit(b) || (65 <= b <= 70) || (97 <= b <= 102)
}

/// The value of a hexadecimal digit.
pub open spec fn hex_value(b: u8) -> int {
    if is_digit(b) {
        b - 48
    } else if 65 <= b <= 70 {
        b - 55
    } else {
        b - 87
    }
}

/// The upper-case hexadecimal digit for a value below sixteen.
pub open spec fn hex_digit(v: int) -> u8 {
    if v < 10 {
        (48 + v) as u8
    } else {
        (55 + v) as u8
    }
}

pub fn space(b: u8) -> (r: bool)
    ensures
        r == is_space(b),
{
    b == 0 || b == 9 || b == 10 || b == 12 || b == 13 || b == 32
}

pub fn delimiter(b: u8) -> (r: bool)
    ensures
        r == is_delimiter(b),
{
    b == 40 || b == 41 || b == 60 || b == 62 || b == 91 || b == 93 || b == 123 || b == 125 || b
        == 47 || b == 37
}

pub fn regular(b: u8) -> (r: bool)
    ensures
        r == is_regular(b),
{
    !space(b) && !delimiter(b)
}

pub fn digit(b: u8) -> (r: bool)
    ensures
        r == is_digit(b),
{
    48 <= b && b <= 57
}

pub fn hex_digit_value(b: u8) -> (r: Option<u8>)
    ensures
        r is Some <==> is_hex_digit(b),
        r matches Some(v) ==> v == hex_value(b) && v < 16,
{
    if 48 <= b && b <= 57 {
        Some(b - 48)
    } else if 65 <= b && b <= 70 {
        Some(b - 55)
    } else if 97 <= b && b <= 102 {
        Some(b - 87)
    } else {
        None
    }
}

pub fn to_hex_digit(v: u8) -> (r: u8)
    requires
        v < 16,
    ensures
        r == hex_digit(v as int),
        is_hex_digit(r),
        hex_value(r) == v,
{
    if v < 10 {
        48 + v
    } else {
        55 + v
    }
}

/// Whether two byte strings hold the same bytes.
pub fn bytes_eq(a: &[u8], b: &[u8]) -> (r: bool)
    ensures
        r == (a@ == b@),
{
    if a.len() != b.len() {
        return false;
    }
    let mut i: usize = 0;
    while i < a.len()
        invariant
            i <= a.len(),
            a.len() == b.len(),
            forall|j: int| 0 <= j < i ==> a@[j] == b@[j],
        decreases a.len() - i,
    {
        if a[i] != b[i] {
            return false;
        }
        i = i + 1;
    }
    assert(a@ =~= b@);
    true
}

/// Whether `bytes` holds `word` at position `at`.
pub open spec fn has_at(bytes: Seq<u8>, at: int, word: Seq<u8>) -> bool {
    0 <= at && at + word.len() <= bytes.len() && bytes.subrange(at, at + word.len()) == word
}

pub fn starts_with_at(bytes: &[u8], at: usize, word: &[u8]) -> (r: bool)
    ensures
        r == has_at(bytes@, at as int, word@),
{
    if at > bytes.len() || word.len() > bytes.len() - at {
        return false;
    }
    let mut i: usize = 0;
    while i < word.len()
        invariant
            i <= word.len(),
            at + word.len() <= bytes.len(),
            forall|j: int| 0 <= j < i ==> bytes@[at + j] == word@[j],
        decreases word.len() - i,
    {
        if bytes[at + i] != word[i] {
            assert(bytes@.subrange(at as int, at + word.len())[i as int] == bytes@[at + i]);
            return false;
        }
        i = i + 1;
    }
    assert(bytes@.subrange(at as int, at + word.len()) =~= word@);
    true
}

/// `null`
pub open spec fn word_null() -> Seq<u8> {
    seq![110u8, 117u8, 108u8, 108u8]
}

/// `true`
pub open spec fn word_true() -> Seq<u8> {
    seq![116u8, 114u8, 117u8, 101u8]
}

/// `false`
pub open spec fn word_false() -> Seq<u8> {
    seq![102u8, 97u8, 108u8, 115u8, 101u8]
}

/// `Type`
pub open spec fn key_type() -> Seq<u8> {
    seq![84u8, 121u8, 112u8, 101u8]
}

/// `N`
pub open spec fn key_n() -> Seq<u8> {
    seq![78u8]
}

/// `First`
pub open spec fn key_first() -> Seq<u8> {
    seq![70u8, 105u8, 114u8, 115u8, 116u8]
}

/// `Filter`
pub open spec fn key_filter() -> Seq<u8> {
    seq![70u8, 105u8, 108u8, 116u8, 101u8, 114u8]
}

/// `ObjStm`
pub open spec fn name_objstm() -> Seq<u8> {
    seq![79u8, 98u8, 106u8, 83u8, 116u8, 109u8]
}

/// `FlateDecode`
pub open spec fn name_flate() -> Seq<u8> {
    seq![70u8, 108u8, 97u8, 116u8, 101u8, 68u8, 101u8, 99u8, 111u8, 100u8, 101u8]
}

/// `Page`
pub open spec fn name_page() -> Seq<u8> {
    seq![80u8, 97u8, 103u8, 101u8]
}

/// `Pages`
pub open spec fn name_pages() -> Seq<u8> {
    seq![80u8, 97u8, 103u8, 101u8, 115u8]
}

/// `Catalog`
pub open spec fn name_catalog() -> Seq<u8> {
    seq![67u8, 97u8, 116u8, 97u8, 108u8, 111u8, 103u8]
}

/// `XRef`
pub open spec fn name_xref() -> Seq<u8> {
    seq![88u8, 82u8, 101u8, 102u8]
}

pub fn bytes_null() -> (r: Vec<u8>)
    ensures
        r@ == word_null(),
{
    vec![110u8, 117u8, 108u8, 108u8]
}

pub fn bytes_true() -> (r: Vec<u8>)
    ensures
        r@ == word_true(),
{
    vec![116u8, 114u8, 117u8, 101u8]
}

pub fn bytes_false() -> (r: Vec<u8>)
    ensures
        r@ == word_false(),
{
    vec![102u8, 97u8, 108u8, 115u8, 101u8]
}

pub fn bytes_type() -> (r: Vec<u8>)
    ensures
        r@ == key_type(),
{
    vec![84u8, 121u8, 112u8, 101u8]
}

pub fn bytes_n() -> (r: Vec<u8>)
    ensures
        r@ == key_n(),
{
    vec![78u8]
}

pub fn bytes_first() -> (r: Vec<u8>)
    ensures
        r@ == key_first(),
{
    vec![70u8, 105u8, 114u8, 115u8, 116u8]
}

pub fn bytes_filter() -> (r: Vec<u8>)
    ensures
        r@ == key_filter(),
{
    vec![70u8, 105u8, 108u8, 116u8, 101u8, 114u8]
}

pub fn bytes_objstm() -> (r: Vec<u8>)
    ensures
        r@ == name_objstm(),
{
    vec![79u8, 98u8, 106u8, 83u8, 116u8, 109u8]
}

pub fn bytes_flate() -> (r: Vec<u8>)
    ensures
        r@ == name_flate(),
{
    vec![70u8, 108u8, 97u8, 116u8, 101u8, 68u8, 101u8, 99u8, 111u8, 100u8, 101u8]
}

pub fn bytes_page() -> (r: Vec<u8>)
    ensures
        r@ == name_page(),
{
    vec![80u8, 97u8, 103u8, 101u8]
}

pub fn bytes_pages() -> (r: Vec<u8>)
    ensures
        r@ == name_pages(),
{
    vec![80u8, 97u8, 103u8, 101u8, 115u8]
}

pub fn bytes_catalog() -> (r: Vec<u8>)
    ensures
        r@ == name_catalog(),
{
    vec![67u8, 97u8, 116u8, 97u8, 108u8, 111u8, 103u8]
}

pub fn bytes_xref() -> (r: Vec<u8>)
    ensures
        r@ == name_xref(),
{
    vec![88u8, 82u8, 101u8, 102u8]
}

} // verus!
