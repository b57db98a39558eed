//! The index block of a container: a text of numbers separated by white
//! space.
use vstd::prelude::*;
use vstd::slice::slice_subrange;
use vstd::utf8::{
    codepoint_width_2, codepoint_width_3, codepoint_width_4, length_of_first_scalar,
    pop_first_scalar, valid_first_scalar, valid_utf8,
};
use crate::decimal::{
    accumulate_digits, all_digits, digits_value, lemma_digits_end, lemma_digits_end_of_run,
    scan_digits,
};

verus! {

/// A continuation byte of UTF-8.
pub open spec fn is_continuation(s: Seq<u8>, i: int) -> bool {
    0 <= i < s.len() && 0x80 <= s[i] <= 0xBF
}

/// The length of the well-formed UTF-8 sequence that starts at `i`, or zero
/// where none starts there. Overlong forms, surrogates and code points
/// above U+10FFFF are not well formed.
pub open spec fn utf8_width(s: Seq<u8>, i: int) -> int {
    if i < 0 || i >= s.len() {
        0
    } else if s[i] <= 0x7F {
        1
    } else if 0xC2 <= s[i] <= 0xDF {
        if is_continuation(s, i + 1) {
            2
        } else {
            0
        }
    } else if 0xE0 <= s[i] <= 0xEF {
        if is_continuation(s, i + 1) && is_continuation(s, i + 2) && (s[i] == 0xE0 ==> s[i + 1]
            >= 0xA0) && (s[i] == 0xED ==> s[i + 1] <= 0x9F) {
            3
        } else {
            0
        }
    } else if 0xF0 <= s[i] <= 0xF4 {
        if is_continuation(s, i + 1) && is_continuation(s, i + 2) && is_continuation(s, i + 3) && (
        s[i] == 0xF0 ==> s[i + 1] >= 0x90) && (s[i] == 0xF4 ==> s[i + 1] <= 0x8F) {
            4
        } else {
            0
        }
    } else {
        0
    }
}

/// From `i` on, `s` is a run of well-formed UTF-8 sequences.
pub open spec fn is_text_from(s: Seq<u8>, i: int) -> bool
    decreases s.len() - i,
{
    if i < 0 || i >= s.len() {
        true
    } else {
        utf8_width(s, i) > 0 && is_text_from(s, i + utf8_width(s, i))
    }
}

/// `s` is valid UTF-8: a run of well-formed sequences.
pub open spec fn is_text(s: Seq<u8>) -> bool {
    is_text_from(s, 0)
}

/// The length of the white-space character whose UTF-8 form starts at `i`,
/// or zero where none starts there. White space is U+0009 to U+000D,
/// U+0020, U+0085, U+00A0, U+1680, U+2000 to U+200A, U+2028, U+2029,
/// U+202F, U+205F and U+3000.
pub open spec fn separator_width(s: Seq<u8>, i: int) -> int {
    if i < 0 || i >= s.len() {
        0
    } else if (9 <= s[i] <= 13) || s[i] == 32 {
        1
    } else if s[i] == 0xC2 {
        if i + 1 < s.len() && (s[i + 1] == 0x85 || s[i + 1] == 0xA0) {
            2
        } else {
            0
        }
    } else if s[i] == 0xE1 {
        if i + 2 < s.len() && s[i + 1] == 0x9A && s[i + 2] == 0x80 {
            3
        } else {
            0
        }
    } else if s[i] == 0xE2 {
        if i + 2 < s.len() && ((s[i + 1] == 0x80 && ((0x80 <= s[i + 2] <= 0x8A) || s[i + 2] == 0xA8
            || s[i + 2] == 0xA9 || s[i + 2] == 0xAF)) || (s[i + 1] == 0x81 && s[i + 2] == 0x9F)) {
            3
        } else {
            0
        }
    } else if s[i] == 0xE3 {
        if i + 2 < s.len() && s[i + 1] == 0x80 && s[i + 2] == 0x80 {
            3
        } else {
            0
        }
    } else {
        0
    }
}

/// The first position at or after `i` where white space starts, or the
/// length of `s`.
pub open spec fn token_end(s: Seq<u8>, i: int) -> int
    decreases s.len() - i,
{
    if 0 <= i < s.len() && separator_width(s, i) == 0 {
        token_end(s, i + 1)
    } else {
        i
    }
}

/// The number that a token denotes: an optional `+` and at least one
/// digit, with a value of at most 32 bits. Any other token denotes none.
pub open spec fn token_number(t: Seq<u8>) -> Option<u32> {
    let d = if t.len() > 0 && t[0] == 43 {
        t.skip(1)
    } else {
        t
    };
    if d.len() > 0 && all_digits(d) && digits_value(d) <= u32::MAX {
        Some(digits_value(d) as u32)
    } else {
        None
    }
}

/// What the tokens of `s` from `i` on denote, in order. A token is a
/// maximal run of bytes that holds no white space.
pub open spec fn index_numbers(s: Seq<u8>, i: int) -> Seq<Option<u32>>
    decreases s.len() - i,
{
    if i < 0 || i >= s.len() {
        Seq::empty()
    } else if separator_width(s, i) > 0 {
        index_numbers(s, i + separator_width(s, i))
    } else if token_end(s, i) <= i || token_end(s, i) > s.len() {
        Seq::empty()
    } else {
        seq![token_number(s.subrange(i, token_end(s, i)))] + index_numbers(s, token_end(s, i))
    }
}

proof fn lemma_two_bytes(a: u8, b: u8)
    requires
        0xC0 <= a <= 0xDF,
        0x80 <= b <= 0xBF,
    ensures
        codepoint_width_2(a, b) >= 0x80 <==> a >= 0xC2,
        codepoint_width_2(a, b) < 0x800,
{
    assert(((((a & 0x1F) as u32) << 6) | ((b & 0x3F) as u32)) >= 0x80 <==> a >= 0xC2) by (bit_vector)
        requires
            0xC0 <= a && a <= 0xDF && 0x80 <= b && b <= 0xBF,
    ;
    assert(((((a & 0x1F) as u32) << 6) | ((b & 0x3F) as u32)) < 0x800) by (bit_vector)
        requires
            0xC0 <= a && a <= 0xDF && 0x80 <= b && b <= 0xBF,
    ;
}

proof fn lemma_three_bytes(a: u8, b: u8, c: u8)
    requires
        0xE0 <= a <= 0xEF,
        0x80 <= b <= 0xBF,
        0x80 <= c <= 0xBF,
    ensures
        codepoint_width_3(a, b, c) >= 0x800 <==> !(a == 0xE0 && b < 0xA0),
        (0xD800 <= codepoint_width_3(a, b, c) <= 0xDFFF) <==> (a == 0xED && b >= 0xA0),
{
    assert(((((a & 0x0F) as u32) << 12) | (((b & 0x3F) as u32) << 6) | ((c & 0x3F) as u32))
        >= 0x800 <==> !(a == 0xE0 && b < 0xA0)) by (bit_vector)
        requires
            0xE0 <= a && a <= 0xEF && 0x80 <= b && b <= 0xBF && 0x80 <= c && c <= 0xBF,
    ;
    assert((0xD800 <= ((((a & 0x0F) as u32) << 12) | (((b & 0x3F) as u32) << 6) | ((c & 0x3F) as u32))
        && ((((a & 0x0F) as u32) << 12) | (((b & 0x3F) as u32) << 6) | ((c & 0x3F) as u32))
        <= 0xDFFF) <==> (a == 0xED && b >= 0xA0)) by (bit_vector)
        requires
            0xE0 <= a && a <= 0xEF && 0x80 <= b && b <= 0xBF && 0x80 <= c && c <= 0xBF,
    ;
}

proof fn lemma_four_bytes(a: u8, b: u8, c: u8, d: u8)
    requires
        0xF0 <= a <= 0xF7,
        0x80 <= b <= 0xBF,
        0x80 <= c <= 0xBF,
        0x80 <= d <= 0xBF,
    ensures
        (0x10000 <= codepoint_width_4(a, b, c, d) <= 0x10FFFF) <==> (a <= 0xF4 && (a == 0xF0 ==> b
            >= 0x90) && (a == 0xF4 ==> b <= 0x8F)),
        codepoint_width_4(a, b, c, d) >= 0x10000 ==> !(0xD800 <= codepoint_width_4(a, b, c, d)
            <= 0xDFFF),
{
    assert((0x10000 <= ((((a & 0x07) as u32) << 18) | (((b & 0x3F) as u32) << 12) | (((c
        & 0x3F) as u32) << 6) | ((d & 0x3F) as u32)) && ((((a & 0x07) as u32) << 18) | (((b
        & 0x3F) as u32) << 12) | (((c & 0x3F) as u32) << 6) | ((d & 0x3F) as u32)) <= 0x10FFFF)
        <==> (a <= 0xF4 && (a == 0xF0 ==> b >= 0x90) && (a == 0xF4 ==> b <= 0x8F))) by (bit_vector)
        requires
            0xF0 <= a && a <= 0xF7 && 0x80 <= b && b <= 0xBF && 0x80 <= c && c <= 0xBF && 0x80 <= d
                && d <= 0xBF,
    ;
}

/// A well-formed sequence at the start of `s` is what `vstd` calls a valid
/// first scalar, of the same length.
proof fn lemma_width_is_scalar(s: Seq<u8>)
    requires
        s.len() > 0,
    ensures
        valid_first_scalar(s) <==> utf8_width(s, 0) > 0,
        valid_first_scalar(s) ==> length_of_first_scalar(s) == utf8_width(s, 0),
{
    let a = s[0];
    if a <= 0x7F {
    } else if 0xC0 <= a <= 0xDF {
        if s.len() >= 2 && 0x80 <= s[1] <= 0xBF {
            lemma_two_bytes(a, s[1]);
        }
    } else if 0xE0 <= a <= 0xEF {
        if s.len() >= 3 && 0x80 <= s[1] <= 0xBF && 0x80 <= s[2] <= 0xBF {
            lemma_three_bytes(a, s[1], s[2]);
        }
    } else if 0xF0 <= a <= 0xF7 {
        if s.len() >= 4 && 0x80 <= s[1] <= 0xBF && 0x80 <= s[2] <= 0xBF && 0x80 <= s[3] <= 0xBF {
            lemma_four_bytes(a, s[1], s[2], s[3]);
        }
    }
}

/// From `i` on, `s` is valid text exactly where its rest from `i` on is
/// valid UTF-8.
proof fn lemma_text_from_is_utf8(s: Seq<u8>, i: int)
    requires
        0 <= i <= s.len(),
    ensures
        is_text_from(s, i) == valid_utf8(s.skip(i)),
    decreases s.len() - i,
{
    let rest = s.skip(i);
    if i < s.len() {
        lemma_width_is_scalar(rest);
        assert(utf8_width(rest, 0) == utf8_width(s, i)) by {
            assert(rest[0] == s[i]);
            if rest.len() > 1 {
                assert(rest[1] == s[i + 1]);
            }
            if rest.len() > 2 {
                assert(rest[2] == s[i + 2]);
            }
            if rest.len() > 3 {
                assert(rest[3] == s[i + 3]);
            }
        }
        let w = utf8_width(s, i);
        if w > 0 {
            lemma_text_from_is_utf8(s, i + w);
            assert(pop_first_scalar(rest) =~= s.skip(i + w));
        }
    }
}

/// Valid text is valid UTF-8.
pub proof fn lemma_text_is_utf8(s: Seq<u8>)
    ensures
        is_text(s) == valid_utf8(s),
{
    lemma_text_from_is_utf8(s, 0);
    assert(s.skip(0) =~= s);
}

fn continuation(bytes: &[u8], i: usize) -> (r: bool)
    ensures
        r == is_continuation(bytes@, i as int),
{
    i < bytes.len() && 0x80 <= bytes[i] && bytes[i] <= 0xBF
}

/// The length of the well-formed UTF-8 sequence at `i`, or zero.
fn width_at(bytes: &[u8], i: usize) -> (w: usize)
    requires
        i < bytes.len(),
    ensures
        w == utf8_width(bytes@, i as int),
        i + w <= bytes.len(),
{
    let b = bytes[i];
    let room: usize = bytes.len() - i;
    if b <= 0x7F {
        1
    } else if 0xC2 <= b && b <= 0xDF {
        if room > 1 && continuation(bytes, i + 1) {
            2
        } else {
            0
        }
    } else if 0xE0 <= b && b <= 0xEF {
        if room > 2 && continuation(bytes, i + 1) && continuation(bytes, i + 2) && (b != 0xE0
            || bytes[i + 1] >= 0xA0) && (b != 0xED || bytes[i + 1] <= 0x9F) {
            3
        } else {
            0
        }
    } else if 0xF0 <= b && b <= 0xF4 {
        if room > 3 && continuation(bytes, i + 1) && continuation(bytes, i + 2) && continuation(
            bytes,
            i + 3,
        ) && (b != 0xF0 || bytes[i + 1] >= 0x90) && (b != 0xF4 || bytes[i + 1] <= 0x8F) {
            4
        } else {
            0
        }
    } else {
        0
    }
}

/// Whether `bytes` is valid UTF-8.
pub fn valid_text(bytes: &[u8]) -> (r: bool)
    ensures
        r == is_text(bytes@),
        r == valid_utf8(bytes@),
{
    proof {
        lemma_text_is_utf8(bytes@);
    }
    let mut i: usize = 0;
    while i < bytes.len()
        invariant
            i <= bytes.len(),
            is_text(bytes@) == valid_utf8(bytes@),
            is_text(bytes@) == is_text_from(bytes@, i as int),
        decreases bytes.len() - i,
    {
        let w = width_at(bytes, i);
        if w == 0 {
            return false;
        }
        i = i + w;
    }
    true
}

/// The length of the white-space character at `i`, or zero.
fn separator_at(bytes: &[u8], i: usize) -> (w: usize)
    requires
        i < bytes.len(),
    ensures
        w == separator_width(bytes@, i as int),
        i + w <= bytes.len(),
{
    let b = bytes[i];
    let room: usize = bytes.len() - i;
    if (9 <= b && b <= 13) || b == 32 {
        1
    } else if b == 0xC2 {
        if room > 1 && (bytes[i + 1] == 0x85 || bytes[i + 1] == 0xA0) {
            2
        } else {
            0
        }
    } else if b == 0xE1 {
        if room > 2 && bytes[i + 1] == 0x9A && bytes[i + 2] == 0x80 {
            3
        } else {
            0
        }
    } else if b == 0xE2 {
        if room > 2 && ((bytes[i + 1] == 0x80 && ((0x80 <= bytes[i + 2] && bytes[i + 2] <= 0x8A)
            || bytes[i + 2] == 0xA8 || bytes[i + 2] == 0xA9 || bytes[i + 2] == 0xAF)) || (bytes[i
            + 1] == 0x81 && bytes[i + 2] == 0x9F)) {
            3
        } else {
            0
        }
    } else if b == 0xE3 {
        if room > 2 && bytes[i + 1] == 0x80 && bytes[i + 2] == 0x80 {
            3
        } else {
            0
        }
    } else {
        0
    }
}

/// The number that the token `token` denotes.
pub fn read_token(token: &[u8]) -> (r: Option<u32>)
    ensures
        r == token_number(token@),
{
    let start: usize = if token.len() > 0 && token[0] == 43 {
        1
    } else {
        0
    };
    let ghost d = token@.skip(start as int);
    if start == token.len() {
        return None;
    }
    let end = scan_digits(token, start);
    proof {
        lemma_digits_end(token@, start as int);
        assert(token@.skip(0) =~= token@);
        assert(token@.subrange(start as int, token@.len() as int) =~= d);
        if all_digits(d) {
            lemma_digits_end_of_run(token@, start as int, token@.len() as int);
        }
        if end == token.len() {
            assert(token@.subrange(start as int, end as int) =~= d);
        }
    }
    if end != token.len() {
        return None;
    }
    match accumulate_digits(0, token, start, end) {
        Some(v) => if v <= 0xffff_ffff {
            Some(v as u32)
        } else {
            None
        },
        None => None,
    }
}

/// What the tokens of `block` denote, in order.
pub fn read_index(block: &[u8]) -> (r: Vec<Option<u32>>)
    ensures
        r@ == index_numbers(block@, 0),
{
    let mut numbers: Vec<Option<u32>> = Vec::new();
    let mut i: usize = 0;
    while i < block.len()
        invariant
            i <= block.len(),
            index_numbers(block@, 0) == numbers@ + index_numbers(block@, i as int),
        decreases block.len() - i,
    {
        let w = separator_at(block, i);
        if w > 0 {
            i = i + w;
        } else {
            let mut e: usize = i + 1;
            while e < block.len() && separator_at(block, e) == 0
                invariant
                    i < e <= block.len(),
                    token_end(block@, i as int) == token_end(block@, e as int),
                decreases block.len() - e,
            {
                e = e + 1;
            }
            let n = read_token(slice_subrange(block, i, e));
            proof {
                let rest = index_numbers(block@, e as int);
                assert(numbers@.push(n) + rest =~= numbers@ + (seq![n] + rest));
            }
            numbers.push(n);
            i = e;
        }
    }
    proof {
        assert(numbers@ + Seq::<Option<u32>>::empty() =~= numbers@);
    }
    numbers
}

} // verus!
