//! The canonical text of an object, and the function that writes it.
use vstd::prelude::*;
use crate::bytes::{delimiter, hex_digit, is_delimiter, to_hex_digit, word_false, word_null, word_true};
use crate::decimal::{decimal, push_decimal};
use crate::object::{Entries, Error, Object, ObjectId, ObjectView, Real};

verus! {

/// An object can be written unless a stream occurs in it.
pub open spec fn writable(v: ObjectView) -> bool
    decreases v,
{
    match v {
        ObjectView::Stream(_, _) => false,
        ObjectView::Array(items) => forall|i: int|
            0 <= i < items.len() ==> writable(#[trigger] items[i]),
        ObjectView::Dictionary(entries) => forall|i: int|
            0 <= i < entries.len() ==> writable((#[trigger] entries[i]).1),
        ObjectView::Null
        | ObjectView::Boolean(_)
        | ObjectView::Integer(_)
        | ObjectView::Real(_)
        | ObjectView::String(_)
        | ObjectView::Name(_)
        | ObjectView::Reference(_) => true,
    }
}

/// The magnitude of a signed number.
pub open spec fn magnitude(v: i64) -> nat {
    if v < 0 {
        (-v) as nat
    } else {
        v as nat
    }
}

/// The text of an integer: a minus sign where it is negative, then the
/// numeral of its magnitude.
pub open spec fn integer_text(v: i64) -> Seq<u8> {
    if v < 0 {
        seq![45u8] + decimal(magnitude(v))
    } else {
        decimal(magnitude(v))
    }
}

/// `n` zero digits.
pub open spec fn zeros(n: nat) -> Seq<u8> {
    Seq::new(n, |i: int| 48u8)
}

/// The numeral of `mag`, lengthened by leading zeros to more than `scale` digits.
pub open spec fn padded(mag: nat, scale: nat) -> Seq<u8> {
    let d = decimal(mag);
    if d.len() > scale {
        d
    } else {
        zeros((scale + 1 - d.len()) as nat) + d
    }
}

/// The text of a real number: sign, integer digits, a point, and exactly
/// `scale` fraction digits.
pub open spec fn real_text(r: Real) -> Seq<u8> {
    let p = padded(magnitude(r.units), r.scale as nat);
    let k = p.len() - r.scale;
    let body = p.take(k) + seq![46u8] + p.skip(k);
    if r.units < 0 {
        seq![45u8] + body
    } else {
        body
    }
}

/// A byte that stands for itself in a name.
pub open spec fn plain_name_byte(b: u8) -> bool {
    33 <= b <= 126 && !is_delimiter(b) && b != 35
}

/// The text of one byte of a name: itself, or `#` and two hexadecimal digits.
pub open spec fn name_byte_text(b: u8) -> Seq<u8> {
    if plain_name_byte(b) {
        seq![b]
    } else {
        seq![35u8, hex_digit(b as int / 16), hex_digit(b as int % 16)]
    }
}

/// The text of a name's bytes, without the leading solidus.
pub open spec fn name_text(n: Seq<u8>) -> Seq<u8>
    decreases n.len(),
{
    if n.len() == 0 {
        Seq::empty()
    } else {
        name_text(n.drop_last()) + name_byte_text(n.last())
    }
}

/// Two hexadecimal digits for each byte.
pub open spec fn hex_text(s: Seq<u8>) -> Seq<u8>
    decreases s.len(),
{
    if s.len() == 0 {
        Seq::empty()
    } else {
        hex_text(s.drop_last()) + seq![hex_digit(s.last() as int / 16), hex_digit(s.last() as int % 16)]
    }
}

/// The text of a reference: object number, generation and the letter `R`.
pub open spec fn reference_text(id: ObjectId) -> Seq<u8> {
    decimal(id.0 as nat) + seq![32u8] + decimal(id.1 as nat) + seq![32u8, 82u8]
}

/// The canonical text of an object. A stream has none; see [`writable`].
pub open spec fn serialized(v: ObjectView) -> Seq<u8>
    decreases v, 1nat,
{
    match v {
        ObjectView::Null => word_null(),
        ObjectView::Boolean(b) => if b {
            word_true()
        } else {
            word_false()
        },
        ObjectView::Integer(i) => integer_text(i),
        ObjectView::Real(r) => real_text(r),
        ObjectView::String(s) => seq![60u8] + hex_text(s) + seq![62u8],
        ObjectView::Name(n) => seq![47u8] + name_text(n),
        ObjectView::Array(items) => seq![91u8] + items_text(items) + seq![93u8],
        ObjectView::Dictionary(entries) => seq![60u8, 60u8] + entries_text(entries) + seq![
            62u8,
            62u8,
        ],
        ObjectView::Stream(_, _) => Seq::empty(),
        ObjectView::Reference(id) => reference_text(id),
    }
}

/// The texts of `items` in order, each followed by one space.
pub open spec fn items_text(items: Seq<ObjectView>) -> Seq<u8>
    decreases items, 0nat,
{
    if items.len() == 0 {
        Seq::empty()
    } else {
        items_text(items.drop_last()) + serialized(items.last()) + seq![32u8]
    }
}

/// The text of one dictionary entry: the key as a name, a space, the value
/// and a space.
pub open spec fn entry_text(key: Seq<u8>, value: ObjectView) -> Seq<u8>
    decreases value, 2nat,
{
    seq![47u8] + name_text(key) + seq![32u8] + serialized(value) + seq![32u8]
}

/// The texts of `entries` in order.
pub open spec fn entries_text(entries: Entries) -> Seq<u8>
    decreases entries, 0nat,
{
    if entries.len() == 0 {
        Seq::empty()
    } else {
        entries_text(entries.drop_last()) + entry_text(entries.last().0, entries.last().1)
    }
}

/// The magnitude of `v` as an unsigned number.
pub fn magnitude_of(v: i64) -> (m: u64)
    ensures
        m == magnitude(v),
{
    if v >= 0 {
        v as u64
    } else if v == i64::MIN {
        0x8000_0000_0000_0000u64
    } else {
        (-v) as u64
    }
}

/// Appends the bytes at `from..to`.
fn push_range(out: &mut Vec<u8>, bytes: &[u8], from: usize, to: usize)
    requires
        from <= to <= bytes.len(),
    ensures
        final(out)@ == old(out)@ + bytes@.subrange(from as int, to as int),
{
    let mut i: usize = from;
    while i < to
        invariant
            from <= i <= to <= bytes.len(),
            out@ == old(out)@ + bytes@.subrange(from as int, i as int),
        decreases to - i,
    {
        out.push(bytes[i]);
        assert(bytes@.subrange(from as int, i + 1) =~= bytes@.subrange(from as int, i as int).push(
            bytes@[i as int],
        ));
        i = i + 1;
    }
}

/// Appends the text of an integer.
pub fn push_integer(out: &mut Vec<u8>, v: i64)
    ensures
        final(out)@ == old(out)@ + integer_text(v),
{
    if v < 0 {
        out.push(45u8);
    }
    push_decimal(out, magnitude_of(v));
    assert(out@ =~= old(out)@ + integer_text(v));
}

/// Appends the text of a real number.
pub fn push_real(out: &mut Vec<u8>, r: Real)
    ensures
        final(out)@ == old(out)@ + real_text(r),
{
    let mag = magnitude_of(r.units);
    let scale: usize = r.scale as usize;
    let mut numeral: Vec<u8> = Vec::new();
    push_decimal(&mut numeral, mag);
    assert(numeral@ =~= decimal(mag as nat));
    let mut text: Vec<u8> = Vec::new();
    if numeral.len() <= scale {
        let fill: usize = scale + 1 - numeral.len();
        let mut i: usize = 0;
        while i < fill
            invariant
                i <= fill,
                text@ == zeros(i as nat),
            decreases fill - i,
        {
            text.push(48u8);
            assert(text@ =~= zeros((i + 1) as nat));
            i = i + 1;
        }
    } else {
        assert(text@ =~= zeros(0));
    }
    push_range(&mut text, numeral.as_slice(), 0, numeral.len());
    proof {
        assert(numeral@.subrange(0, numeral@.len() as int) =~= numeral@);
        assert(text@ =~= padded(mag as nat, scale as nat));
    }
    let k: usize = text.len() - scale;
    if r.units < 0 {
        out.push(45u8);
    }
    push_range(out, text.as_slice(), 0, k);
    out.push(46u8);
    push_range(out, text.as_slice(), k, text.len());
    proof {
        assert(text@.subrange(0, k as int) =~= text@.take(k as int));
        assert(text@.subrange(k as int, text@.len() as int) =~= text@.skip(k as int));
        assert(out@ =~= old(out)@ + real_text(r));
    }
}

/// Appends the text of a name's bytes, without the leading solidus.
pub fn push_name(out: &mut Vec<u8>, name: &[u8])
    ensures
        final(out)@ == old(out)@ + name_text(name@),
{
    let mut i: usize = 0;
    while i < name.len()
        invariant
            i <= name.len(),
            out@ == old(out)@ + name_text(name@.take(i as int)),
        decreases name.len() - i,
    {
        let b = name[i];
        let ghost before = out@;
        if 33 <= b && b <= 126 && !delimiter(b) && b != 35 {
            out.push(b);
        } else {
            out.push(35u8);
            out.push(to_hex_digit(b / 16));
            out.push(to_hex_digit(b % 16));
        }
        proof {
            assert(name@.take(i + 1).drop_last() =~= name@.take(i as int));
            assert(name@.take(i + 1).last() == b);
            assert(out@ =~= before + name_byte_text(b));
            assert(out@ =~= old(out)@ + name_text(name@.take(i + 1)));
        }
        i = i + 1;
    }
    assert(name@.take(i as int) =~= name@);
}

/// Appends two hexadecimal digits for each byte.
pub fn push_hex(out: &mut Vec<u8>, bytes: &[u8])
    ensures
        final(out)@ == old(out)@ + hex_text(bytes@),
{
    let mut i: usize = 0;
    while i < bytes.len()
        invariant
            i <= bytes.len(),
            out@ == old(out)@ + hex_text(bytes@.take(i as int)),
        decreases bytes.len() - i,
    {
        let b = bytes[i];
        let ghost before = out@;
        out.push(to_hex_digit(b / 16));
        out.push(to_hex_digit(b % 16));
        proof {
            assert(bytes@.take(i + 1).drop_last() =~= bytes@.take(i as int));
            assert(bytes@.take(i + 1).last() == b);
            assert(out@ =~= before + seq![hex_digit(b as int / 16), hex_digit(b as int % 16)]);
            assert(out@ =~= old(out)@ + hex_text(bytes@.take(i + 1)));
        }
        i = i + 1;
    }
    assert(bytes@.take(i as int) =~= bytes@);
}

/// Appends the canonical text of `object` to `out`. Fails, with `out` in an
/// unspecified state, exactly where a stream occurs in `object`.
pub fn write_object(out: &mut Vec<u8>, object: &Object) -> (r: Result<(), Error>)
    ensures
        match r {
            Ok(_) => writable(object@) && final(out)@ == old(out)@ + serialized(object@),
            Err(e) => e == Error::Unserializable && !writable(object@),
        },
    decreases object@,
{
    match object {
        Object::Null => {
            out.push(110u8);
            out.push(117u8);
            out.push(108u8);
            out.push(108u8);
            assert(out@ =~= old(out)@ + word_null());
            Ok(())
        },
        Object::Boolean(b) => {
            if *b {
                out.push(116u8);
                out.push(114u8);
                out.push(117u8);
                out.push(101u8);
                assert(out@ =~= old(out)@ + word_true());
            } else {
                out.push(102u8);
                out.push(97u8);
                out.push(108u8);
                out.push(115u8);
                out.push(101u8);
                assert(out@ =~= old(out)@ + word_false());
            }
            Ok(())
        },
        Object::Integer(v) => {
            push_integer(out, *v);
            Ok(())
        },
        Object::Real(x) => {
            push_real(out, *x);
            Ok(())
        },
        Object::String(s) => {
            out.push(60u8);
            push_hex(out, s.as_slice());
            out.push(62u8);
            assert(out@ =~= old(out)@ + serialized(object@));
            Ok(())
        },
        Object::Name(n) => {
            out.push(47u8);
            push_name(out, n.as_slice());
            assert(out@ =~= old(out)@ + serialized(object@));
            Ok(())
        },
        Object::Array(items) => {
            let ghost views = object@->Array_0;
            out.push(91u8);
            let mut i: usize = 0;
            while i < items.len()
                invariant
                    i <= items.len(),
                    object@ is Array,
                    views == object@->Array_0,
                    views.len() == items.len(),
                    forall|j: int| 0 <= j < items.len() ==> views[j] == (#[trigger] items[j])@,
                    forall|j: int| 0 <= j < i ==> writable(#[trigger] views[j]),
                    out@ == old(out)@ + seq![91u8] + items_text(views.take(i as int)),
                decreases items.len() - i,
            {
                match write_object(out, &items[i]) {
                    Ok(_) => {},
                    Err(e) => {
                        assert(!writable(views[i as int]));
                        return Err(e);
                    },
                }
                out.push(32u8);
                proof {
                    assert(views.take(i + 1).drop_last() =~= views.take(i as int));
                    assert(views.take(i + 1).last() == views[i as int]);
                    assert(out@ =~= old(out)@ + seq![91u8] + items_text(views.take(i + 1)));
                }
                i = i + 1;
            }
            out.push(93u8);
            proof {
                assert(views.take(i as int) =~= views);
                assert(out@ =~= old(out)@ + serialized(object@));
            }
            Ok(())
        },
        Object::Dictionary(d) => {
            let ghost entries = d@;
            out.push(60u8);
            out.push(60u8);
            let mut i: usize = 0;
            while i < d.len()
                invariant
                    i <= d@.len(),
                    object@ is Dictionary,
                    entries == object@->Dictionary_0,
                    entries == d@,
                    forall|j: int| 0 <= j < i ==> writable((#[trigger] entries[j]).1),
                    out@ == old(out)@ + seq![60u8, 60u8] + entries_text(entries.take(i as int)),
                decreases d@.len() - i,
            {
                let ghost before = out@;
                out.push(47u8);
                push_name(out, d.key_at(i).as_slice());
                out.push(32u8);
                proof {
                    assert(decreases_to!(object@ => object@->Dictionary_0));
                }
                match write_object(out, d.value_at(i)) {
                    Ok(_) => {},
                    Err(e) => {
                        assert(!writable(entries[i as int].1));
                        return Err(e);
                    },
                }
                out.push(32u8);
                proof {
                    assert(entries.take(i + 1).drop_last() =~= entries.take(i as int));
                    assert(entries.take(i + 1).last() == entries[i as int]);
                    assert(out@ =~= before + entry_text(entries[i as int].0, entries[i as int].1));
                    assert(out@ =~= old(out)@ + seq![60u8, 60u8] + entries_text(
                        entries.take(i + 1),
                    ));
                }
                i = i + 1;
            }
            out.push(62u8);
            out.push(62u8);
            proof {
                assert(entries.take(i as int) =~= entries);
                assert(out@ =~= old(out)@ + serialized(object@));
            }
            Ok(())
        },
        Object::Stream(_) => Err(Error::Unserializable),
        Object::Reference(id) => {
            push_decimal(out, id.0 as u64);
            out.push(32u8);
            push_decimal(out, id.1 as u64);
            out.push(32u8);
            out.push(82u8);
            assert(out@ =~= old(out)@ + reference_text(*id));
            Ok(())
        },
    }
}

} // verus!
