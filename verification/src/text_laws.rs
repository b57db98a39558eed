//! What the parser reads from the text that the writer gives: names,
//! hexadecimal strings, numbers and references.
use vstd::prelude::*;
use crate::bytes::{has_at, hex_digit, hex_value, is_digit, is_hex_digit, is_regular, is_space};
use crate::decimal::{
    all_digits, decimal, digits_end, digits_value, lemma_decimal, lemma_digits_end_of_run,
    lemma_value_concat, value_from,
};
use crate::object::{ObjectId, ObjectView, Real};
use crate::parser::{hex_pair, parse_hex, parse_name, parse_number, reference_tail, skip_spaces};
use crate::writer::{
    hex_text, integer_text, magnitude, name_byte_text, name_text, padded, plain_name_byte,
    real_text, reference_text, zeros,
};

verus! {

/// A word that stands at `p` gives the bytes there.
pub proof fn lemma_has_at_byte(s: Seq<u8>, p: int, w: Seq<u8>, i: int)
    requires
        has_at(s, p, w),
        0 <= i < w.len(),
    ensures
        s[p + i] == w[i],
{
    assert(s.subrange(p, p + w.len())[i] == s[p + i]);
}

/// Where two words stand one behind the other, each stands in its place.
pub proof fn lemma_has_at_parts(s: Seq<u8>, p: int, a: Seq<u8>, b: Seq<u8>)
    requires
        has_at(s, p, a + b),
    ensures
        has_at(s, p, a),
        has_at(s, p + a.len(), b),
{
    let whole = s.subrange(p, p + (a + b).len());
    assert(s.subrange(p, p + a.len()) =~= whole.subrange(0, a.len() as int));
    assert(whole.subrange(0, a.len() as int) =~= a);
    assert(s.subrange(p + a.len(), p + a.len() + b.len()) =~= whole.subrange(
        a.len() as int,
        (a + b).len() as int,
    ));
    assert(whole.subrange(a.len() as int, (a + b).len() as int) =~= b);
}

pub proof fn lemma_hex_digit(v: int)
    requires
        0 <= v < 16,
    ensures
        is_hex_digit(hex_digit(v)),
        hex_value(hex_digit(v)) == v,
        is_regular(hex_digit(v)),
        hex_digit(v) != 62,
{
}

/// White space ends at a byte that is none.
pub proof fn lemma_skip_one_space(s: Seq<u8>, e: int)
    requires
        0 <= e < s.len(),
        is_space(s[e]),
        e + 1 >= s.len() || !is_space(s[e + 1]),
    ensures
        skip_spaces(s, e) == e + 1,
{
    assert(skip_spaces(s, e + 1) == e + 1);
}

pub proof fn lemma_skip_no_space(s: Seq<u8>, e: int)
    requires
        e >= s.len() || e < 0 || !is_space(s[e]),
    ensures
        skip_spaces(s, e) == e,
{
}

/// The text of a name, from its first byte on.
pub proof fn lemma_name_text_front(n: Seq<u8>)
    requires
        n.len() > 0,
    ensures
        name_text(n) == name_byte_text(n[0]) + name_text(n.skip(1)),
    decreases n.len(),
{
    if n.len() == 1 {
        assert(n.drop_last() =~= Seq::<u8>::empty());
        assert(n.skip(1) =~= Seq::<u8>::empty());
        assert(name_text(n) =~= name_byte_text(n[0]) + name_text(n.skip(1)));
    } else {
        lemma_name_text_front(n.drop_last());
        assert(n.drop_last().skip(1) =~= n.skip(1).drop_last());
        assert(n.skip(1).last() == n.last());
        assert(name_text(n.skip(1)) == name_text(n.skip(1).drop_last()) + name_byte_text(n.last()));
        assert(name_text(n) =~= name_byte_text(n[0]) + name_text(n.skip(1)));
    }
}

/// The parser reads a name back from its text, where a byte that is not
/// regular, or the end, comes behind it.
pub proof fn lemma_parse_name_text(s: Seq<u8>, p: int, n: Seq<u8>)
    requires
        has_at(s, p, name_text(n)),
        p + name_text(n).len() == s.len() || !is_regular(s[p + name_text(n).len()]),
    ensures
        parse_name(s, p) == (n, p + name_text(n).len()),
    decreases n.len(),
{
    if n.len() == 0 {
        assert(parse_name(s, p).0 =~= n);
    } else {
        lemma_name_text_front(n);
        let t = name_byte_text(n[0]);
        let rest = name_text(n.skip(1));
        lemma_has_at_parts(s, p, t, rest);
        lemma_parse_name_text(s, p + t.len(), n.skip(1));
        let b = n[0];
        if plain_name_byte(b) {
            lemma_has_at_byte(s, p, t, 0);
            assert(parse_name(s, p).0 =~= n);
        } else {
            lemma_has_at_byte(s, p, t, 0);
            lemma_has_at_byte(s, p, t, 1);
            lemma_has_at_byte(s, p, t, 2);
            lemma_hex_digit(b as int / 16);
            lemma_hex_digit(b as int % 16);
            assert(hex_pair(s[p + 1], s[p + 2]) == b);
            assert(parse_name(s, p).0 =~= n);
        }
    }
}

/// The text of a hexadecimal string, from its first byte on.
pub proof fn lemma_hex_text_front(b: Seq<u8>)
    requires
        b.len() > 0,
    ensures
        hex_text(b) == seq![hex_digit(b[0] as int / 16), hex_digit(b[0] as int % 16)] + hex_text(
            b.skip(1),
        ),
    decreases b.len(),
{
    if b.len() == 1 {
        assert(b.drop_last() =~= Seq::<u8>::empty());
        assert(b.skip(1) =~= Seq::<u8>::empty());
        assert(hex_text(b) =~= seq![hex_digit(b[0] as int / 16), hex_digit(b[0] as int % 16)]
            + hex_text(b.skip(1)));
    } else {
        lemma_hex_text_front(b.drop_last());
        assert(b.drop_last().skip(1) =~= b.skip(1).drop_last());
        assert(b.skip(1).last() == b.last());
        assert(hex_text(b.skip(1)) == hex_text(b.skip(1).drop_last()) + seq![
            hex_digit(b.last() as int / 16),
            hex_digit(b.last() as int % 16),
        ]);
        assert(hex_text(b) =~= seq![hex_digit(b[0] as int / 16), hex_digit(b[0] as int % 16)]
            + hex_text(b.skip(1)));
    }
}

/// The parser reads a hexadecimal string back from its digits and the
/// closing `>`.
pub proof fn lemma_parse_hex_text(s: Seq<u8>, p: int, b: Seq<u8>)
    requires
        has_at(s, p, hex_text(b) + seq![62u8]),
    ensures
        parse_hex(s, p) == Some((b, p + hex_text(b).len() + 1)),
    decreases b.len(),
{
    lemma_has_at_parts(s, p, hex_text(b), seq![62u8]);
    if b.len() == 0 {
        lemma_has_at_byte(s, p, seq![62u8], 0);
        assert(parse_hex(s, p).unwrap().0 =~= b);
    } else {
        lemma_hex_text_front(b);
        let t = seq![hex_digit(b[0] as int / 16), hex_digit(b[0] as int % 16)];
        let rest = hex_text(b.skip(1));
        lemma_has_at_parts(s, p, t, rest);
        assert(has_at(s, p + 2, rest + seq![62u8])) by {
            assert(hex_text(b) + seq![62u8] =~= t + (rest + seq![62u8]));
            lemma_has_at_parts(s, p, t, rest + seq![62u8]);
        }
        lemma_parse_hex_text(s, p + 2, b.skip(1));
        lemma_has_at_byte(s, p, t, 0);
        lemma_has_at_byte(s, p, t, 1);
        lemma_hex_digit(b[0] as int / 16);
        lemma_hex_digit(b[0] as int % 16);
        assert(hex_pair(s[p], s[p + 1]) == b[0]);
        assert(parse_hex(s, p).unwrap().0 =~= b);
    }
}

/// A run of digits that stands at `p` and is followed by no digit is the
/// run that the parser finds there.
pub proof fn lemma_digits_run(s: Seq<u8>, p: int, d: Seq<u8>)
    requires
        has_at(s, p, d),
        all_digits(d),
        p + d.len() == s.len() || !is_digit(s[p + d.len()]),
    ensures
        digits_end(s, p) == p + d.len(),
        s.subrange(p, p + d.len()) == d,
{
    lemma_digits_end_of_run(s, p, p + d.len());
}

/// The parser reads an integer back from its text, where neither a
/// regular byte nor the tail of a reference comes behind it.
pub proof fn lemma_parse_integer_text(s: Seq<u8>, p: int, v: i64)
    requires
        has_at(s, p, integer_text(v)),
        p + integer_text(v).len() == s.len() || !is_regular(s[p + integer_text(v).len()]),
        reference_tail(s, p + integer_text(v).len()) is None,
    ensures
        parse_number(s, p) == Some((ObjectView::Integer(v), p + integer_text(v).len())),
        s[p] == 45 || is_digit(s[p]),
{
    let mag = magnitude(v);
    let d = decimal(mag);
    lemma_decimal(mag);
    if v < 0 {
        lemma_has_at_parts(s, p, seq![45u8], d);
        lemma_has_at_byte(s, p, seq![45u8], 0);
        lemma_digits_run(s, p + 1, d);
    } else {
        lemma_has_at_byte(s, p, d, 0);
        lemma_digits_run(s, p, d);
    }
}

pub proof fn lemma_zeros_value(n: nat)
    ensures
        value_from(0, zeros(n)) == 0,
        all_digits(zeros(n)),
    decreases n,
{
    if n > 0 {
        lemma_zeros_value((n - 1) as nat);
        assert(zeros(n).drop_last() =~= zeros((n - 1) as nat));
    }
}

/// The padded numeral consists of digits, more than `scale` of them, and
/// denotes the magnitude.
pub proof fn lemma_padded(mag: nat, scale: nat)
    ensures
        padded(mag, scale).len() > scale,
        all_digits(padded(mag, scale)),
        digits_value(padded(mag, scale)) == mag,
{
    lemma_decimal(mag);
    let d = decimal(mag);
    if d.len() <= scale {
        let z = zeros((scale + 1 - d.len()) as nat);
        lemma_zeros_value((scale + 1 - d.len()) as nat);
        lemma_value_concat(0, z, d);
    }
}

/// The parser reads a real number back from its text, where no regular
/// byte comes behind it.
pub proof fn lemma_parse_real_text(s: Seq<u8>, p: int, r: Real)
    requires
        has_at(s, p, real_text(r)),
        p + real_text(r).len() == s.len() || !is_regular(s[p + real_text(r).len()]),
    ensures
        parse_number(s, p) == Some((ObjectView::Real(r), p + real_text(r).len())),
        s[p] == 45 || is_digit(s[p]),
{
    let mag = magnitude(r.units);
    let pd = padded(mag, r.scale as nat);
    lemma_padded(mag, r.scale as nat);
    let k = pd.len() - r.scale;
    let whole = pd.take(k);
    let fraction = pd.skip(k);
    assert(whole + fraction =~= pd);
    let body = whole + seq![46u8] + fraction;
    let start = if r.units < 0 {
        lemma_has_at_parts(s, p, seq![45u8], body);
        lemma_has_at_byte(s, p, seq![45u8], 0);
        p + 1
    } else {
        p
    };
    assert(has_at(s, start, body));
    lemma_has_at_parts(s, start, whole + seq![46u8], fraction);
    lemma_has_at_parts(s, start, whole, seq![46u8]);
    lemma_has_at_byte(s, start + k, seq![46u8], 0);
    lemma_has_at_byte(s, start, whole, 0);
    assert(is_digit(whole[0])) by {
        assert(whole[0] == pd[0]);
    }
    assert(all_digits(whole)) by {
        assert forall|i: int| 0 <= i < whole.len() implies is_digit(#[trigger] whole[i]) by {
            assert(whole[i] == pd[i]);
        }
    }
    assert(all_digits(fraction)) by {
        assert forall|i: int| 0 <= i < fraction.len() implies is_digit(#[trigger] fraction[i]) by {
            assert(fraction[i] == pd[k + i]);
        }
    }
    lemma_digits_run(s, start, whole);
    lemma_digits_run(s, start + k + 1, fraction);
}

/// The parser reads a reference back from its text.
pub proof fn lemma_parse_reference_text(s: Seq<u8>, p: int, id: ObjectId)
    requires
        has_at(s, p, reference_text(id)),
    ensures
        parse_number(s, p) == Some((ObjectView::Reference(id), p + reference_text(id).len())),
        is_digit(s[p]),
{
    let a = decimal(id.0 as nat);
    let b = decimal(id.1 as nat);
    lemma_decimal(id.0 as nat);
    lemma_decimal(id.1 as nat);
    lemma_has_at_parts(s, p, a + seq![32u8] + b, seq![32u8, 82u8]);
    lemma_has_at_parts(s, p, a + seq![32u8], b);
    lemma_has_at_parts(s, p, a, seq![32u8]);
    let e1 = p + a.len();
    let q1 = e1 + 1;
    let q2 = q1 + b.len();
    lemma_has_at_byte(s, p, a, 0);
    lemma_has_at_byte(s, e1, seq![32u8], 0);
    lemma_has_at_byte(s, q1, b, 0);
    lemma_has_at_byte(s, q2, seq![32u8, 82u8], 0);
    lemma_has_at_byte(s, q2, seq![32u8, 82u8], 1);
    lemma_digits_run(s, p, a);
    lemma_digits_run(s, q1, b);
    lemma_skip_one_space(s, e1);
    lemma_skip_one_space(s, q2);
    assert(reference_tail(s, e1) == Some((id.1, q2 + 2)));
}

} // verus!
