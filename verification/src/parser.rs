//! Reading one object from bytes: the grammar as a specification, and the
//! parser that follows it.
use vstd::prelude::*;
use crate::bytes::{
    bytes_false, bytes_null, bytes_true, has_at, hex_digit_value, hex_value, is_hex_digit,
    is_regular, is_space, regular, space, starts_with_at, word_false, word_null, word_true,
};
use crate::decimal::{
    accumulate_digits, digits_end, digits_value, lemma_digits_end, lemma_value_concat,
    lemma_value_prefix, scan_digits,
};
use crate::object::{
    lemma_array_view, put, well_formed, Dictionary, Entries, Object, ObjectView, Real,
};
use crate::object_laws::lemma_parsed_well_formed;

verus! {

/// The first position at or after `from` that holds no white space.
pub open spec fn skip_spaces(s: Seq<u8>, from: int) -> int
    decreases s.len() - from,
{
    if 0 <= from < s.len() && is_space(s[from]) {
        skip_spaces(s, from + 1)
    } else {
        from
    }
}

/// The byte that `#` and the two hexadecimal digits `hi`, `lo` stand for.
pub open spec fn hex_pair(hi: u8, lo: u8) -> u8 {
    (hex_value(hi) * 16 + hex_value(lo)) as u8
}

/// The bytes of the name whose text starts at `from`, and where that text
/// ends: at the first byte that is not regular. `#` with two hexadecimal
/// digits stands for one byte.
pub open spec fn parse_name(s: Seq<u8>, from: int) -> (Seq<u8>, int)
    decreases s.len() - from,
{
    if 0 <= from < s.len() && is_regular(s[from]) {
        if s[from] == 35 && from + 2 < s.len() && is_hex_digit(s[from + 1]) && is_hex_digit(
            s[from + 2],
        ) {
            let rest = parse_name(s, from + 3);
            (seq![hex_pair(s[from + 1], s[from + 2])] + rest.0, rest.1)
        } else {
            let rest = parse_name(s, from + 1);
            (seq![s[from]] + rest.0, rest.1)
        }
    } else {
        (Seq::empty(), from)
    }
}

/// The bytes of the hexadecimal string whose digits start at `from`, and the
/// position after its closing `>`.
pub open spec fn parse_hex(s: Seq<u8>, from: int) -> Option<(Seq<u8>, int)>
    decreases s.len() - from,
{
    if from < 0 || from >= s.len() {
        None
    } else if s[from] == 62 {
        Some((Seq::empty(), from + 1))
    } else if from + 1 < s.len() && is_hex_digit(s[from]) && is_hex_digit(s[from + 1]) {
        match parse_hex(s, from + 2) {
            Some((rest, end)) => Some((seq![hex_pair(s[from], s[from + 1])] + rest, end)),
            None => None,
        }
    } else {
        None
    }
}

/// An octal digit `0`..`7`.
pub open spec fn is_octal(b: u8) -> bool {
    48 <= b <= 55
}

/// The byte that stands behind a backslash for itself or, where it is one
/// of the letters `n`, `r`, `t`, `b`, `f`, for a control character.
pub open spec fn unescaped(c: u8) -> u8 {
    if c == 110 {
        10
    } else if c == 114 {
        13
    } else if c == 116 {
        9
    } else if c == 98 {
        8
    } else if c == 102 {
        12
    } else {
        c
    }
}

/// How many octal digits an escape at `from` has: up to three.
pub open spec fn octal_len(s: Seq<u8>, from: int) -> int {
    if from + 1 < s.len() && is_octal(s[from + 1]) {
        if from + 2 < s.len() && is_octal(s[from + 2]) {
            3
        } else {
            2
        }
    } else {
        1
    }
}

/// The byte of the octal escape whose digits start at `from`; a value
/// above 255 loses its high part.
pub open spec fn octal_byte(s: Seq<u8>, from: int) -> u8 {
    let n = octal_len(s, from);
    let v = if n == 1 {
        s[from] - 48
    } else if n == 2 {
        (s[from] - 48) * 8 + (s[from + 1] - 48)
    } else {
        (s[from] - 48) * 64 + (s[from + 1] - 48) * 8 + (s[from + 2] - 48)
    };
    (v % 256) as u8
}

/// `byte` in front of what was read behind it.
pub open spec fn with_first(byte: u8, rest: Option<(Seq<u8>, int)>) -> Option<(Seq<u8>, int)> {
    match rest {
        Some((bytes, end)) => Some((seq![byte] + bytes, end)),
        None => None,
    }
}

/// The bytes of the literal string whose text goes on at `from`, with
/// `depth` parentheses open inside it, and the position after its closing
/// parenthesis.
///
/// Parentheses that balance belong to the string. A backslash stands with
/// `n`, `r`, `t`, `b`, `f` for a control character, with up to three
/// octal digits for the byte of that value, with an end of line for
/// nothing, and with any other byte for that byte.
pub open spec fn parse_literal(s: Seq<u8>, from: int, depth: nat) -> Option<(Seq<u8>, int)>
    decreases s.len() - from,
{
    if from < 0 || from >= s.len() {
        None
    } else if s[from] == 41 {
        if depth == 0 {
            Some((Seq::empty(), from + 1))
        } else {
            with_first(41, parse_literal(s, from + 1, (depth - 1) as nat))
        }
    } else if s[from] == 40 {
        with_first(40, parse_literal(s, from + 1, depth + 1))
    } else if s[from] == 92 {
        if from + 1 >= s.len() {
            None
        } else if is_octal(s[from + 1]) {
            with_first(
                octal_byte(s, from + 1),
                parse_literal(s, from + 1 + octal_len(s, from + 1), depth),
            )
        } else if s[from + 1] == 10 {
            parse_literal(s, from + 2, depth)
        } else if s[from + 1] == 13 {
            if from + 2 < s.len() && s[from + 2] == 10 {
                parse_literal(s, from + 3, depth)
            } else {
                parse_literal(s, from + 2, depth)
            }
        } else {
            with_first(unescaped(s[from + 1]), parse_literal(s, from + 2, depth))
        }
    } else {
        with_first(s[from], parse_literal(s, from + 1, depth))
    }
}

/// Whether a magnitude with this sign is a 64-bit signed number.
pub open spec fn fits_signed(negative: bool, mag: nat) -> bool {
    if negative {
        mag <= 0x8000_0000_0000_0000
    } else {
        mag <= 0x7fff_ffff_ffff_ffff
    }
}

/// The signed number of a magnitude that fits.
pub open spec fn signed_value(negative: bool, mag: nat) -> i64 {
    if negative {
        (-(mag as int)) as i64
    } else {
        mag as i64
    }
}

/// After an object number that ends at `from`: white space, a generation,
/// white space and the letter `R`. Gives the generation and the position
/// after the letter.
pub open spec fn reference_tail(s: Seq<u8>, from: int) -> Option<(u16, int)> {
    let q1 = skip_spaces(s, from);
    let q2 = digits_end(s, q1);
    let q3 = skip_spaces(s, q2);
    if from < q1 && q1 < q2 && q2 < q3 && q3 < s.len() && s[q3] == 82 && digits_value(
        s.subrange(q1, q2),
    ) <= u16::MAX {
        Some((digits_value(s.subrange(q1, q2)) as u16, q3 + 1))
    } else {
        None
    }
}

/// A number or a reference at `from`: an optional sign, digits, and either a
/// point with further digits (a real), or the tail of a reference, or
/// nothing more (an integer).
pub open spec fn parse_number(s: Seq<u8>, from: int) -> Option<(ObjectView, int)> {
    let negative = 0 <= from < s.len() && s[from] == 45;
    let signed = 0 <= from < s.len() && (s[from] == 45 || s[from] == 43);
    let run = if signed {
        from + 1
    } else {
        from
    };
    let e1 = digits_end(s, run);
    let whole = s.subrange(run, e1);
    if from < 0 || from >= s.len() {
        None
    } else if e1 < s.len() && s[e1] == 46 {
        let e2 = digits_end(s, e1 + 1);
        let fraction = s.subrange(e1 + 1, e2);
        let mag = digits_value(whole + fraction);
        if whole.len() + fraction.len() == 0 || fraction.len() > 255 || !fits_signed(negative, mag) {
            None
        } else {
            Some(
                (
                    ObjectView::Real(
                        Real { units: signed_value(negative, mag), scale: fraction.len() as u8 },
                    ),
                    e2,
                ),
            )
        }
    } else if whole.len() == 0 {
        None
    } else {
        let v = digits_value(whole);
        let tail = reference_tail(s, e1);
        if !signed && v <= u32::MAX && tail.is_some() {
            Some((ObjectView::Reference((v as u32, tail.unwrap().0)), tail.unwrap().1))
        } else if fits_signed(negative, v) {
            Some((ObjectView::Integer(signed_value(negative, v)), e1))
        } else {
            None
        }
    }
}

/// The entries of a dictionary that was read as the list `parsed`: a key
/// that occurs again replaces the value of its first occurrence.
pub open spec fn collect_entries(parsed: Entries) -> Entries
    decreases parsed.len(),
{
    if parsed.len() == 0 {
        Seq::empty()
    } else {
        put(collect_entries(parsed.drop_last()), parsed.last().0, parsed.last().1)
    }
}

/// The object whose text starts at `p`, and the position after that text.
///
/// `null`, `true`, `false`; a name after `/`; a hexadecimal string between
/// `<` and `>`; a literal string between `(` and `)`; an array between `[`
/// and `]`; a dictionary between `<<` and `>>`; a number or a reference.
/// Inside arrays and dictionaries white space separates. No text denotes
/// a stream.
pub open spec fn parse_object(s: Seq<u8>, p: int) -> Option<(ObjectView, int)>
    decreases s.len() - p, 0nat,
{
    if p < 0 || p >= s.len() {
        None
    } else if s[p] == 110 {
        if has_at(s, p, word_null()) {
            Some((ObjectView::Null, p + 4))
        } else {
            None
        }
    } else if s[p] == 116 {
        if has_at(s, p, word_true()) {
            Some((ObjectView::Boolean(true), p + 4))
        } else {
            None
        }
    } else if s[p] == 102 {
        if has_at(s, p, word_false()) {
            Some((ObjectView::Boolean(false), p + 5))
        } else {
            None
        }
    } else if s[p] == 47 {
        Some((ObjectView::Name(parse_name(s, p + 1).0), parse_name(s, p + 1).1))
    } else if s[p] == 60 {
        if p + 1 < s.len() && s[p + 1] == 60 {
            match parse_entries(s, p + 2) {
                Some((parsed, end)) => Some((ObjectView::Dictionary(collect_entries(parsed)), end)),
                None => None,
            }
        } else {
            match parse_hex(s, p + 1) {
                Some((bytes, end)) => Some((ObjectView::String(bytes), end)),
                None => None,
            }
        }
    } else if s[p] == 40 {
        match parse_literal(s, p + 1, 0) {
            Some((bytes, end)) => Some((ObjectView::String(bytes), end)),
            None => None,
        }
    } else if s[p] == 91 {
        match parse_items(s, p + 1) {
            Some((items, end)) => Some((ObjectView::Array(items), end)),
            None => None,
        }
    } else {
        parse_number(s, p)
    }
}

/// The elements of an array from `p` up to its closing `]`, and the
/// position after it.
pub open spec fn parse_items(s: Seq<u8>, p: int) -> Option<(Seq<ObjectView>, int)>
    decreases s.len() - p, 1nat,
{
    let q = skip_spaces(s, p);
    if q < p || q >= s.len() {
        None
    } else if s[q] == 93 {
        Some((Seq::empty(), q + 1))
    } else {
        match parse_object(s, q) {
            None => None,
            Some((v, e)) => if e <= q || e > s.len() {
                None
            } else {
                match parse_items(s, e) {
                    None => None,
                    Some((rest, end)) => Some((seq![v] + rest, end)),
                }
            },
        }
    }
}

/// The entries of a dictionary from `p` up to its closing `>>`, in the
/// order of the text, and the position after the `>>`.
pub open spec fn parse_entries(s: Seq<u8>, p: int) -> Option<(Entries, int)>
    decreases s.len() - p, 1nat,
{
    let q = skip_spaces(s, p);
    if q < p || q >= s.len() {
        None
    } else if s[q] == 62 {
        if q + 1 < s.len() && s[q + 1] == 62 {
            Some((Seq::empty(), q + 2))
        } else {
            None
        }
    } else if s[q] == 47 {
        let key = parse_name(s, q + 1).0;
        let q2 = skip_spaces(s, parse_name(s, q + 1).1);
        if q2 <= q || q2 > s.len() {
            None
        } else {
            match parse_object(s, q2) {
                None => None,
                Some((v, e)) => if e <= q2 || e > s.len() {
                    None
                } else {
                    match parse_entries(s, e) {
                        None => None,
                        Some((rest, end)) => Some((seq![(key, v)] + rest, end)),
                    }
                },
            }
        }
    } else {
        None
    }
}

/// The first position at or after `from` that holds no white space.
pub fn skip_spaces_at(bytes: &[u8], from: usize) -> (end: usize)
    requires
        from <= bytes.len(),
    ensures
        end == skip_spaces(bytes@, from as int),
        from <= end <= bytes.len(),
{
    let mut i: usize = from;
    while i < bytes.len() && space(bytes[i])
        invariant
            from <= i <= bytes.len(),
            skip_spaces(bytes@, from as int) == skip_spaces(bytes@, i as int),
        decreases bytes.len() - i,
    {
        i = i + 1;
    }
    i
}

/// The signed number of a magnitude, where it fits.
pub fn to_signed(negative: bool, mag: u64) -> (r: Option<i64>)
    ensures
        r == (if fits_signed(negative, mag as nat) {
            Some(signed_value(negative, mag as nat))
        } else {
            None
        }),
{
    if negative {
        if mag == 0x8000_0000_0000_0000u64 {
            Some(i64::MIN)
        } else if mag < 0x8000_0000_0000_0000u64 {
            Some(-(mag as i64))
        } else {
            None
        }
    } else {
        if mag <= 0x7fff_ffff_ffff_ffffu64 {
            Some(mag as i64)
        } else {
            None
        }
    }
}

/// Reads the name whose text starts at `from`.
pub fn read_name(bytes: &[u8], from: usize) -> (r: (Vec<u8>, usize))
    requires
        from <= bytes.len(),
    ensures
        r.0@ == parse_name(bytes@, from as int).0,
        r.1 == parse_name(bytes@, from as int).1,
        from <= r.1 <= bytes.len(),
{
    let mut name: Vec<u8> = Vec::new();
    let mut i: usize = from;
    while i < bytes.len() && regular(bytes[i])
        invariant
            from <= i <= bytes.len(),
            parse_name(bytes@, from as int).0 == name@ + parse_name(bytes@, i as int).0,
            parse_name(bytes@, from as int).1 == parse_name(bytes@, i as int).1,
        decreases bytes.len() - i,
    {
        let ghost before = name@;
        let mut escaped: bool = false;
        if bytes[i] == 35 && bytes.len() - i > 2 {
            match hex_digit_value(bytes[i + 1]) {
                Some(hi) => match hex_digit_value(bytes[i + 2]) {
                    Some(lo) => {
                        name.push(hi * 16 + lo);
                        escaped = true;
                    },
                    None => {},
                },
                None => {},
            }
        }
        if escaped {
            proof {
                let rest = parse_name(bytes@, i + 3);
                assert(name@ + rest.0 =~= before + (seq![hex_pair(bytes@[i + 1], bytes@[i + 2])]
                    + rest.0));
            }
            i = i + 3;
        } else {
            name.push(bytes[i]);
            proof {
                let rest = parse_name(bytes@, i + 1);
                assert(name@ + rest.0 =~= before + (seq![bytes@[i as int]] + rest.0));
            }
            i = i + 1;
        }
    }
    proof {
        assert(name@ + Seq::<u8>::empty() =~= name@);
    }
    (name, i)
}

/// Reads the hexadecimal string whose digits start at `from`.
pub fn read_hex(bytes: &[u8], from: usize) -> (r: Option<(Vec<u8>, usize)>)
    requires
        from <= bytes.len(),
    ensures
        match parse_hex(bytes@, from as int) {
            Some((v, e)) => r matches Some((b, end)) && b@ == v && end == e && from < end
                <= bytes.len(),
            None => r is None,
        },
{
    let mut out: Vec<u8> = Vec::new();
    let mut i: usize = from;
    loop
        invariant
            from <= i <= bytes.len(),
            parse_hex(bytes@, from as int) == (match parse_hex(bytes@, i as int) {
                Some((rest, e)) => Some((out@ + rest, e)),
                None => None,
            }),
        decreases bytes.len() - i,
    {
        if i >= bytes.len() {
            return None;
        }
        if bytes[i] == 62 {
            proof {
                assert(out@ + Seq::<u8>::empty() =~= out@);
            }
            return Some((out, i + 1));
        }
        if bytes.len() - i < 2 {
            return None;
        }
        let ghost before = out@;
        match hex_digit_value(bytes[i]) {
            None => {
                return None;
            },
            Some(hi) => match hex_digit_value(bytes[i + 1]) {
                None => {
                    return None;
                },
                Some(lo) => {
                    out.push(hi * 16 + lo);
                },
            },
        }
        proof {
            match parse_hex(bytes@, i + 2) {
                Some((rest, e)) => {
                    assert(out@ + rest =~= before + (seq![hex_pair(bytes@[i as int], bytes@[i + 1])]
                        + rest));
                },
                None => {},
            }
        }
        i = i + 2;
    }
}

fn octal(b: u8) -> (r: bool)
    ensures
        r == is_octal(b),
{
    48 <= b && b <= 55
}

fn unescape(c: u8) -> (r: u8)
    ensures
        r == unescaped(c),
{
    if c == 110 {
        10
    } else if c == 114 {
        13
    } else if c == 116 {
        9
    } else if c == 98 {
        8
    } else if c == 102 {
        12
    } else {
        c
    }
}

/// Reads the octal escape whose digits start at `from`.
fn read_octal(bytes: &[u8], from: usize) -> (r: (u8, usize))
    requires
        from < bytes.len(),
        is_octal(bytes@[from as int]),
    ensures
        r.0 == octal_byte(bytes@, from as int),
        r.1 == octal_len(bytes@, from as int),
        1 <= r.1 <= 3,
        from + r.1 <= bytes.len(),
{
    let room: usize = bytes.len() - from;
    let a: u16 = (bytes[from] - 48) as u16;
    if room > 1 && octal(bytes[from + 1]) {
        let b: u16 = (bytes[from + 1] - 48) as u16;
        if room > 2 && octal(bytes[from + 2]) {
            let c: u16 = (bytes[from + 2] - 48) as u16;
            (((a * 64 + b * 8 + c) % 256) as u8, 3)
        } else {
            (((a * 8 + b) % 256) as u8, 2)
        }
    } else {
        ((a % 256) as u8, 1)
    }
}

/// Reads the literal string whose text starts at `from`, behind its
/// opening parenthesis.
pub fn read_literal(bytes: &[u8], from: usize) -> (r: Option<(Vec<u8>, usize)>)
    requires
        from <= bytes.len(),
    ensures
        match parse_literal(bytes@, from as int, 0) {
            Some((v, e)) => r matches Some((b, end)) && b@ == v && end == e && from < end
                <= bytes.len(),
            None => r is None,
        },
{
    let mut out: Vec<u8> = Vec::new();
    let mut i: usize = from;
    let mut depth: usize = 0;
    loop
        invariant
            from <= i <= bytes.len(),
            depth <= i - from,
            parse_literal(bytes@, from as int, 0) == (match parse_literal(
                bytes@,
                i as int,
                depth as nat,
            ) {
                Some((rest, e)) => Some((out@ + rest, e)),
                None => None,
            }),
        decreases bytes.len() - i,
    {
        if i >= bytes.len() {
            return None;
        }
        let b = bytes[i];
        let ghost before = out@;
        let mut pushed: Option<u8> = None;
        if b == 41 {
            if depth == 0 {
                proof {
                    assert(out@ + Seq::<u8>::empty() =~= out@);
                }
                return Some((out, i + 1));
            }
            depth = depth - 1;
            pushed = Some(41);
            i = i + 1;
        } else if b == 40 {
            depth = depth + 1;
            pushed = Some(40);
            i = i + 1;
        } else if b == 92 {
            if bytes.len() - i < 2 {
                return None;
            }
            let c = bytes[i + 1];
            if octal(c) {
                let (value, n) = read_octal(bytes, i + 1);
                pushed = Some(value);
                i = i + 1 + n;
            } else if c == 10 {
                i = i + 2;
            } else if c == 13 {
                if bytes.len() - i > 2 && bytes[i + 2] == 10 {
                    i = i + 3;
                } else {
                    i = i + 2;
                }
            } else {
                pushed = Some(unescape(c));
                i = i + 2;
            }
        } else {
            pushed = Some(b);
            i = i + 1;
        }
        match pushed {
            Some(byte) => {
                out.push(byte);
                proof {
                    match parse_literal(bytes@, i as int, depth as nat) {
                        Some((rest, e)) => {
                            assert(out@ + rest =~= before + (seq![byte] + rest));
                        },
                        None => {},
                    }
                }
            },
            None => {},
        }
    }
}

/// Reads the tail of a reference after an object number that ends at `from`.
fn read_reference_tail(bytes: &[u8], from: usize) -> (r: Option<(u16, usize)>)
    requires
        from <= bytes.len(),
    ensures
        match reference_tail(bytes@, from as int) {
            Some((g, e)) => r == Some((g, e as usize)) && from < e <= bytes.len(),
            None => r is None,
        },
{
    let q1 = skip_spaces_at(bytes, from);
    let q2 = scan_digits(bytes, q1);
    let q3 = skip_spaces_at(bytes, q2);
    if from < q1 && q1 < q2 && q2 < q3 && q3 < bytes.len() && bytes[q3] == 82 {
        proof {
            lemma_digits_end(bytes@, q1 as int);
        }
        match accumulate_digits(0, bytes, q1, q2) {
            Some(g) => if g <= 0xffff {
                Some((g as u16, q3 + 1))
            } else {
                None
            },
            None => None,
        }
    } else {
        None
    }
}

/// Reads a number or a reference at `from`.
fn read_number(bytes: &[u8], from: usize) -> (r: Option<(Object, usize)>)
    requires
        from < bytes.len(),
    ensures
        match parse_number(bytes@, from as int) {
            Some((v, e)) => r matches Some((o, end)) && o@ == v && end == e && from < end
                <= bytes.len(),
            None => r is None,
        },
{
    let negative = bytes[from] == 45;
    let signed = bytes[from] == 45 || bytes[from] == 43;
    let run: usize = if signed {
        from + 1
    } else {
        from
    };
    let e1 = scan_digits(bytes, run);
    let ghost whole = bytes@.subrange(run as int, e1 as int);
    proof {
        lemma_digits_end(bytes@, run as int);
    }
    if e1 < bytes.len() && bytes[e1] == 46 {
        let e2 = scan_digits(bytes, e1 + 1);
        let ghost fraction = bytes@.subrange(e1 + 1, e2 as int);
        proof {
            lemma_digits_end(bytes@, e1 + 1);
            lemma_value_concat(0, whole, fraction);
            lemma_value_prefix(digits_value(whole), fraction, 0);
            assert(fraction.take(0) =~= Seq::<u8>::empty());
        }
        if (e1 - run) + (e2 - (e1 + 1)) == 0 || e2 - (e1 + 1) > 255 {
            return None;
        }
        let first = match accumulate_digits(0, bytes, run, e1) {
            Some(v) => v,
            None => {
                return None;
            },
        };
        let mag = match accumulate_digits(first, bytes, e1 + 1, e2) {
            Some(v) => v,
            None => {
                return None;
            },
        };
        match to_signed(negative, mag) {
            Some(units) => Some((Object::Real(Real { units, scale: (e2 - (e1 + 1)) as u8 }), e2)),
            None => None,
        }
    } else if e1 == run {
        None
    } else {
        let value = accumulate_digits(0, bytes, run, e1);
        if !signed {
            match value {
                Some(v) => if v <= 0xffff_ffff {
                    match read_reference_tail(bytes, e1) {
                        Some((generation, end)) => {
                            return Some((Object::Reference((v as u32, generation)), end));
                        },
                        None => {},
                    }
                },
                None => {},
            }
        }
        match value {
            Some(v) => match to_signed(negative, v) {
                Some(i) => Some((Object::Integer(i), e1)),
                None => None,
            },
            None => None,
        }
    }
}

/// Reads the object whose text starts at `at`, and gives it with the
/// position after that text.
pub fn read_object(bytes: &[u8], at: usize) -> (r: Option<(Object, usize)>)
    ensures
        match parse_object(bytes@, at as int) {
            Some((v, e)) => r matches Some((o, end)) && o@ == v && end == e && at < end
                <= bytes.len(),
            None => r is None,
        },
    decreases bytes.len() - at, 0nat,
{
    if at >= bytes.len() {
        return None;
    }
    let b = bytes[at];
    if b == 110 {
        if starts_with_at(bytes, at, bytes_null().as_slice()) {
            Some((Object::Null, at + 4))
        } else {
            None
        }
    } else if b == 116 {
        if starts_with_at(bytes, at, bytes_true().as_slice()) {
            Some((Object::Boolean(true), at + 4))
        } else {
            None
        }
    } else if b == 102 {
        if starts_with_at(bytes, at, bytes_false().as_slice()) {
            Some((Object::Boolean(false), at + 5))
        } else {
            None
        }
    } else if b == 47 {
        let (name, end) = read_name(bytes, at + 1);
        Some((Object::Name(name), end))
    } else if b == 60 {
        if bytes.len() - at > 1 && bytes[at + 1] == 60 {
            match read_entries(bytes, at + 2) {
                Some((d, end)) => Some((Object::Dictionary(d), end)),
                None => None,
            }
        } else {
            match read_hex(bytes, at + 1) {
                Some((s, end)) => Some((Object::String(s), end)),
                None => None,
            }
        }
    } else if b == 40 {
        match read_literal(bytes, at + 1) {
            Some((s, end)) => Some((Object::String(s), end)),
            None => None,
        }
    } else if b == 91 {
        match read_items(bytes, at + 1) {
            Some((items, end)) => {
                proof {
                    lemma_array_view(items);
                    assert((Object::Array(items))@->Array_0 =~= parse_items(
                        bytes@,
                        at + 1,
                    ).unwrap().0);
                }
                Some((Object::Array(items), end))
            },
            None => None,
        }
    } else {
        read_number(bytes, at)
    }
}

/// Reads the elements of an array from `at` up to its closing `]`.
fn read_items(bytes: &[u8], at: usize) -> (r: Option<(Vec<Object>, usize)>)
    requires
        at <= bytes.len(),
    ensures
        match parse_items(bytes@, at as int) {
            Some((vs, e)) => r matches Some((items, end)) && end == e && at < end <= bytes.len()
                && items@.len() == vs.len() && forall|j: int|
                0 <= j < vs.len() ==> (#[trigger] items@[j])@ == vs[j],
            None => r is None,
        },
    decreases bytes.len() - at, 1nat,
{
    let mut items: Vec<Object> = Vec::new();
    let mut cur: usize = at;
    let ghost mut done: Seq<ObjectView> = Seq::empty();
    loop
        invariant
            at <= cur <= bytes.len(),
            items@.len() == done.len(),
            forall|j: int| 0 <= j < done.len() ==> (#[trigger] items@[j])@ == done[j],
            parse_items(bytes@, at as int) == (match parse_items(bytes@, cur as int) {
                Some((rest, e)) => Some((done + rest, e)),
                None => None,
            }),
        decreases bytes.len() - cur,
    {
        let q = skip_spaces_at(bytes, cur);
        if q >= bytes.len() {
            return None;
        }
        if bytes[q] == 93 {
            proof {
                assert(done + Seq::<ObjectView>::empty() =~= done);
            }
            return Some((items, q + 1));
        }
        match read_object(bytes, q) {
            None => {
                return None;
            },
            Some((o, e)) => {
                proof {
                    match parse_items(bytes@, e as int) {
                        Some((rest, end)) => {
                            assert(done.push(o@) + rest =~= done + (seq![o@] + rest));
                        },
                        None => {},
                    }
                    done = done.push(o@);
                }
                items.push(o);
                cur = e;
            },
        }
    }
}

/// Reads the entries of a dictionary from `at` up to its closing `>>`.
fn read_entries(bytes: &[u8], at: usize) -> (r: Option<(Dictionary, usize)>)
    requires
        at <= bytes.len(),
    ensures
        match parse_entries(bytes@, at as int) {
            Some((parsed, e)) => r matches Some((d, end)) && end == e && at < end <= bytes.len()
                && d@ == collect_entries(parsed),
            None => r is None,
        },
    decreases bytes.len() - at, 1nat,
{
    let mut dict = Dictionary::new();
    let mut cur: usize = at;
    let ghost mut done: Entries = Seq::empty();
    loop
        invariant
            at <= cur <= bytes.len(),
            dict@ == collect_entries(done),
            parse_entries(bytes@, at as int) == (match parse_entries(bytes@, cur as int) {
                Some((rest, e)) => Some((done + rest, e)),
                None => None,
            }),
        decreases bytes.len() - cur,
    {
        let q = skip_spaces_at(bytes, cur);
        if q >= bytes.len() {
            return None;
        }
        if bytes[q] == 62 {
            if bytes.len() - q > 1 && bytes[q + 1] == 62 {
                proof {
                    assert(done + Seq::<(Seq<u8>, ObjectView)>::empty() =~= done);
                }
                return Some((dict, q + 2));
            } else {
                return None;
            }
        }
        if bytes[q] != 47 {
            return None;
        }
        let (key, after_key) = read_name(bytes, q + 1);
        let q2 = skip_spaces_at(bytes, after_key);
        match read_object(bytes, q2) {
            None => {
                return None;
            },
            Some((o, e)) => {
                proof {
                    match parse_entries(bytes@, e as int) {
                        Some((rest, end)) => {
                            assert(done.push((key@, o@)) + rest =~= done + (seq![(key@, o@)] + rest));
                        },
                        None => {},
                    }
                    assert(done.push((key@, o@)).drop_last() =~= done);
                    done = done.push((key@, o@));
                }
                dict.set(key, o);
                cur = e;
            },
        }
    }
}

/// Reads the object whose text starts at `at`. What it reads is well
/// formed.
pub fn parse_direct_object(bytes: &[u8], at: usize) -> (r: Option<Object>)
    ensures
        match parse_object(bytes@, at as int) {
            Some((v, _)) => r matches Some(o) && o@ == v && well_formed(v),
            None => r is None,
        },
{
    proof {
        lemma_parsed_well_formed(bytes@, at as int);
    }
    match read_object(bytes, at) {
        Some((o, _)) => Some(o),
        None => None,
    }
}

} // verus!
