//! What the parser reads from the text that the writer gives: whole
//! objects, arrays and dictionaries included.
use vstd::prelude::*;
use crate::bytes::{has_at, is_digit, is_regular, is_space};
use crate::decimal::{decimal, lemma_decimal};
use crate::object::{
    find_key, lemma_find_key_bounds, lemma_put_keeps_unique, put, unique_keys, well_formed, Entries,
    ObjectView,
};
use crate::parser::{
    collect_entries, parse_entries, parse_items, parse_object, reference_tail, skip_spaces,
};
use crate::text_laws::{
    lemma_digits_run, lemma_has_at_byte, lemma_has_at_parts, lemma_hex_digit, lemma_padded,
    lemma_parse_hex_text, lemma_parse_integer_text, lemma_parse_name_text,
    lemma_parse_real_text, lemma_parse_reference_text, lemma_skip_no_space,
    lemma_skip_one_space,
};
use crate::writer::{
    entries_text, entry_text, hex_text, items_text, magnitude, name_text, padded, serialized,
    writable,
};

verus! {

/// A byte with which the text of an object begins.
pub open spec fn opening(b: u8) -> bool {
    b == 110 || b == 116 || b == 102 || b == 45 || is_digit(b) || b == 47 || b == 60 || b == 91
}

/// The text of an object is not empty and begins with an opening byte;
/// with a digit only where the object is a number or a reference.
pub proof fn lemma_first_byte(v: ObjectView)
    requires
        writable(v),
    ensures
        serialized(v).len() > 0,
        opening(serialized(v)[0]),
        is_digit(serialized(v)[0]) ==> (v matches ObjectView::Integer(i) && i >= 0) || (
        v matches ObjectView::Real(r) && r.units >= 0) || v is Reference,
{
    match v {
        ObjectView::Integer(i) => {
            lemma_decimal(magnitude(i));
        },
        ObjectView::Real(r) => {
            lemma_padded(magnitude(r.units), r.scale as nat);
            let pd = padded(magnitude(r.units), r.scale as nat);
            let k = pd.len() - r.scale;
            assert(pd.take(k)[0] == pd[0]);
        },
        ObjectView::Reference(id) => {
            lemma_decimal(id.0 as nat);
        },
        _ => {},
    }
}

/// At `r` the text ends, or goes on with a byte that is neither white
/// space nor the letter `R`.
pub open spec fn starts_clean(s: Seq<u8>, r: int) -> bool {
    r >= s.len() || (s[r] != 82 && !is_space(s[r]))
}

/// At `q` the text ends, or goes on with a byte that is neither a digit
/// nor white space, or with the text of an object, a space, and then
/// cleanly.
pub open spec fn follows(s: Seq<u8>, q: int) -> bool {
    q >= s.len() || (!is_digit(s[q]) && !is_space(s[q])) || exists|w: ObjectView|
        #[trigger] has_at(s, q, serialized(w)) && writable(w) && q + serialized(w).len() < s.len()
            && s[q + serialized(w).len()] == 32 && starts_clean(s, q + serialized(w).len() + 1)
}

/// Behind the object that ends at `e` comes neither a regular byte nor the
/// tail of a reference.
pub open spec fn ends_object(s: Seq<u8>, e: int) -> bool {
    (e >= s.len() || !is_regular(s[e])) && reference_tail(s, e) is None
}

/// A space behind which the text follows on as above begins no tail of a
/// reference.
pub proof fn lemma_no_reference(s: Seq<u8>, e: int)
    requires
        0 <= e < s.len(),
        s[e] == 32,
        follows(s, e + 1),
    ensures
        ends_object(s, e),
{
    let q = e + 1;
    if q >= s.len() {
        lemma_skip_one_space(s, e);
    } else if !is_digit(s[q]) && !is_space(s[q]) {
        lemma_skip_one_space(s, e);
    } else {
        let w = choose|w: ObjectView|
            #[trigger] has_at(s, q, serialized(w)) && writable(w) && q + serialized(w).len()
                < s.len() && s[q + serialized(w).len()] == 32 && starts_clean(
                s,
                q + serialized(w).len() + 1,
            );
        lemma_first_byte(w);
        lemma_has_at_byte(s, q, serialized(w), 0);
        lemma_skip_one_space(s, e);
        let end = q + serialized(w).len();
        if is_digit(s[q]) {
            match w {
                ObjectView::Integer(i) => {
                    let d = decimal(magnitude(i));
                    lemma_decimal(magnitude(i));
                    lemma_digits_run(s, q, d);
                    lemma_skip_one_space(s, end);
                },
                ObjectView::Real(r) => {
                    let pd = padded(magnitude(r.units), r.scale as nat);
                    lemma_padded(magnitude(r.units), r.scale as nat);
                    let k = pd.len() - r.scale;
                    let whole = pd.take(k);
                    let fraction = pd.skip(k);
                    lemma_has_at_parts(s, q, whole + seq![46u8], fraction);
                    lemma_has_at_parts(s, q, whole, seq![46u8]);
                    lemma_has_at_byte(s, q + k, seq![46u8], 0);
                    assert forall|i: int| 0 <= i < whole.len() implies is_digit(
                        #[trigger] whole[i],
                    ) by {
                        assert(whole[i] == pd[i]);
                    }
                    lemma_digits_run(s, q, whole);
                    lemma_skip_no_space(s, q + k);
                },
                ObjectView::Reference(id) => {
                    let a = decimal(id.0 as nat);
                    let b = decimal(id.1 as nat);
                    lemma_decimal(id.0 as nat);
                    lemma_decimal(id.1 as nat);
                    lemma_has_at_parts(s, q, a + seq![32u8] + b, seq![32u8, 82u8]);
                    lemma_has_at_parts(s, q, a + seq![32u8], b);
                    lemma_has_at_parts(s, q, a, seq![32u8]);
                    lemma_has_at_byte(s, q + a.len(), seq![32u8], 0);
                    lemma_has_at_byte(s, q + a.len() + 1, b, 0);
                    lemma_digits_run(s, q, a);
                    lemma_skip_one_space(s, q + a.len());
                },
                _ => {},
            }
        }
    }
}

/// The texts of items, from the first item on.
pub proof fn lemma_items_text_front(items: Seq<ObjectView>)
    requires
        items.len() > 0,
    ensures
        items_text(items) == serialized(items[0]) + seq![32u8] + items_text(items.skip(1)),
    decreases items.len(),
{
    if items.len() == 1 {
        assert(items.drop_last() =~= Seq::<ObjectView>::empty());
        assert(items.skip(1) =~= Seq::<ObjectView>::empty());
        assert(items_text(items) =~= serialized(items[0]) + seq![32u8] + items_text(items.skip(1)));
    } else {
        lemma_items_text_front(items.drop_last());
        assert(items.drop_last().skip(1) =~= items.skip(1).drop_last());
        assert(items.skip(1).last() == items.last());
        assert(items_text(items.skip(1)) == items_text(items.skip(1).drop_last()) + serialized(
            items.last(),
        ) + seq![32u8]);
        assert(items_text(items) =~= serialized(items[0]) + seq![32u8] + items_text(items.skip(1)));
    }
}

/// The texts of entries, from the first entry on.
pub proof fn lemma_entries_text_front(entries: Entries)
    requires
        entries.len() > 0,
    ensures
        entries_text(entries) == entry_text(entries[0].0, entries[0].1) + entries_text(
            entries.skip(1),
        ),
    decreases entries.len(),
{
    if entries.len() == 1 {
        assert(entries.drop_last() =~= Seq::<(Seq<u8>, ObjectView)>::empty());
        assert(entries.skip(1) =~= Seq::<(Seq<u8>, ObjectView)>::empty());
        assert(entries_text(entries) =~= entry_text(entries[0].0, entries[0].1) + entries_text(
            entries.skip(1),
        ));
    } else {
        lemma_entries_text_front(entries.drop_last());
        assert(entries.drop_last().skip(1) =~= entries.skip(1).drop_last());
        assert(entries.skip(1).last() == entries.last());
        assert(entries_text(entries.skip(1)) == entries_text(entries.skip(1).drop_last())
            + entry_text(entries.last().0, entries.last().1));
        assert(entries_text(entries) =~= entry_text(entries[0].0, entries[0].1) + entries_text(
            entries.skip(1),
        ));
    }
}

/// Entries whose keys differ are what the parser keeps of them.
pub proof fn lemma_collect_unique(entries: Entries)
    requires
        unique_keys(entries),
    ensures
        collect_entries(entries) == entries,
    decreases entries.len(),
{
    if entries.len() > 0 {
        let prefix = entries.drop_last();
        let last = entries.last();
        assert forall|i: int, j: int| 0 <= i < j < prefix.len() implies (#[trigger] prefix[i]).0 != (
        #[trigger] prefix[j]).0 by {
            assert(entries[i].0 != entries[j].0);
        }
        lemma_collect_unique(prefix);
        lemma_find_key_bounds(prefix, last.0, 0);
        let f = find_key(prefix, last.0, 0);
        if f < prefix.len() {
            assert(entries[f].0 != entries[entries.len() - 1].0);
        }
        assert(put(prefix, last.0, last.1) =~= entries);
    }
}

/// The values of `entries` are well formed.
pub open spec fn sound_values(entries: Entries) -> bool {
    forall|i: int| 0 <= i < entries.len() ==> well_formed((#[trigger] entries[i]).1)
}

/// What the parser keeps of the entries that it read holds no key twice,
/// and its values are well formed where those that were read are.
pub proof fn lemma_collect_sound(parsed: Entries)
    requires
        sound_values(parsed),
    ensures
        unique_keys(collect_entries(parsed)),
        sound_values(collect_entries(parsed)),
    decreases parsed.len(),
{
    if parsed.len() > 0 {
        let prefix = parsed.drop_last();
        let last = parsed.last();
        assert forall|i: int| 0 <= i < prefix.len() implies well_formed((#[trigger] prefix[i]).1) by {
            assert(prefix[i] == parsed[i]);
        }
        lemma_collect_sound(prefix);
        let kept = collect_entries(prefix);
        lemma_put_keeps_unique(kept, last.0, last.1);
        lemma_find_key_bounds(kept, last.0, 0);
        let after = put(kept, last.0, last.1);
        assert forall|i: int| 0 <= i < after.len() implies well_formed((#[trigger] after[i]).1) by {
            if i < kept.len() && i != find_key(kept, last.0, 0) {
                assert(after[i] == kept[i]);
            }
        }
    }
}

/// Whatever the parser reads is well formed.
pub proof fn lemma_parsed_well_formed(s: Seq<u8>, p: int)
    ensures
        parse_object(s, p) matches Some((v, _)) ==> well_formed(v),
    decreases s.len() - p, 0nat,
{
    if 0 <= p < s.len() {
        if s[p] == 60 && p + 1 < s.len() && s[p + 1] == 60 {
            lemma_entries_well_formed(s, p + 2);
            match parse_entries(s, p + 2) {
                Some((parsed, _)) => {
                    lemma_collect_sound(parsed);
                },
                None => {},
            }
        } else if s[p] == 91 {
            lemma_items_well_formed(s, p + 1);
        }
    }
}

proof fn lemma_items_well_formed(s: Seq<u8>, p: int)
    ensures
        parse_items(s, p) matches Some((items, _)) ==> forall|i: int|
            0 <= i < items.len() ==> well_formed(#[trigger] items[i]),
    decreases s.len() - p, 1nat,
{
    let q = skip_spaces(s, p);
    if p <= q < s.len() && s[q] != 93 {
        lemma_parsed_well_formed(s, q);
        match parse_object(s, q) {
            Some((v, e)) => {
                if q < e <= s.len() {
                    lemma_items_well_formed(s, e);
                    match parse_items(s, e) {
                        Some((rest, _)) => {
                            let items = seq![v] + rest;
                            assert forall|i: int| 0 <= i < items.len() implies well_formed(
                                #[trigger] items[i],
                            ) by {
                                if i > 0 {
                                    assert(items[i] == rest[i - 1]);
                                }
                            }
                        },
                        None => {},
                    }
                }
            },
            None => {},
        }
    }
}

proof fn lemma_entries_well_formed(s: Seq<u8>, p: int)
    ensures
        parse_entries(s, p) matches Some((entries, _)) ==> sound_values(entries),
    decreases s.len() - p, 1nat,
{
    let q = skip_spaces(s, p);
    if p <= q < s.len() && s[q] == 47 {
        let key = crate::parser::parse_name(s, q + 1).0;
        let q2 = skip_spaces(s, crate::parser::parse_name(s, q + 1).1);
        if q < q2 <= s.len() {
            lemma_parsed_well_formed(s, q2);
            match parse_object(s, q2) {
                Some((v, e)) => {
                    if q2 < e <= s.len() {
                        lemma_entries_well_formed(s, e);
                        match parse_entries(s, e) {
                            Some((rest, _)) => {
                                let entries = seq![(key, v)] + rest;
                                assert forall|i: int| 0 <= i < entries.len() implies well_formed(
                                    (#[trigger] entries[i]).1,
                                ) by {
                                    if i > 0 {
                                        assert(entries[i] == rest[i - 1]);
                                    }
                                }
                            },
                            None => {},
                        }
                    }
                },
                None => {},
            }
        }
    }
}

/// All of `items` are well formed and can be written.
pub open spec fn all_sound(items: Seq<ObjectView>) -> bool {
    forall|i: int| 0 <= i < items.len() ==> well_formed(#[trigger] items[i]) && writable(items[i])
}

/// The bytes that may stand behind a run of items: nothing, where the text
/// ends there, or a closing bracket.
pub open spec fn closes(s: Seq<u8>, p: int, closer: Seq<u8>) -> bool {
    (closer.len() == 0 && p == s.len()) || closer == seq![93u8]
}

/// Behind the space after an item the text follows on: with the next item
/// or with what closes the run.
proof fn lemma_follows_items(s: Seq<u8>, q: int, items: Seq<ObjectView>, k: int, closer: Seq<u8>)
    requires
        0 <= q,
        0 <= k <= items.len(),
        all_sound(items),
        has_at(s, q, items_text(items.skip(k)) + closer),
        closes(s, q + items_text(items.skip(k)).len(), closer),
    ensures
        follows(s, q),
        starts_clean(s, q),
{
    let rest = items.skip(k);
    if k == items.len() {
        assert(rest =~= Seq::<ObjectView>::empty());
        if closer.len() > 0 {
            lemma_has_at_byte(s, q, items_text(rest) + closer, 0);
        }
    } else {
        lemma_items_text_front(rest);
        let w = items[k];
        assert(rest[0] == w);
        let after = rest.skip(1);
        assert(after =~= items.skip(k + 1));
        lemma_first_byte(w);
        assert(items_text(rest) + closer =~= serialized(w) + (seq![32u8] + (items_text(after)
            + closer)));
        lemma_has_at_parts(s, q, serialized(w), seq![32u8] + (items_text(after) + closer));
        let end = q + serialized(w).len();
        lemma_has_at_parts(s, end, seq![32u8], items_text(after) + closer);
        lemma_has_at_byte(s, end, seq![32u8], 0);
        lemma_has_at_byte(s, q, serialized(w), 0);
        if k + 1 == items.len() {
            assert(after =~= Seq::<ObjectView>::empty());
            if closer.len() > 0 {
                lemma_has_at_byte(s, end + 1, items_text(after) + closer, 0);
            }
        } else {
            lemma_items_text_front(after);
            lemma_first_byte(after[0]);
            lemma_has_at_byte(s, end + 1, items_text(after) + closer, 0);
        }
        assert(starts_clean(s, end + 1));
        assert(has_at(s, q, serialized(w)) && writable(w) && q + serialized(w).len() < s.len()
            && s[q + serialized(w).len()] == 32 && starts_clean(s, q + serialized(w).len() + 1));
    }
}

/// The parser reads an object back from its text, where neither a regular
/// byte nor the tail of a reference comes behind it.
pub proof fn lemma_parse_serialized(s: Seq<u8>, p: int, v: ObjectView)
    requires
        0 <= p,
        well_formed(v),
        writable(v),
        has_at(s, p, serialized(v)),
        ends_object(s, p + serialized(v).len()),
    ensures
        parse_object(s, p) == Some((v, p + serialized(v).len())),
    decreases v, 1nat, 0nat,
{
    lemma_first_byte(v);
    lemma_has_at_byte(s, p, serialized(v), 0);
    match v {
        ObjectView::Null => {},
        ObjectView::Boolean(b) => {},
        ObjectView::Integer(i) => {
            lemma_parse_integer_text(s, p, i);
        },
        ObjectView::Real(r) => {
            lemma_parse_real_text(s, p, r);
        },
        ObjectView::Reference(id) => {
            lemma_parse_reference_text(s, p, id);
        },
        ObjectView::String(b) => {
            assert(serialized(v) =~= seq![60u8] + (hex_text(b) + seq![62u8]));
            lemma_has_at_parts(s, p, seq![60u8], hex_text(b) + seq![62u8]);
            lemma_parse_hex_text(s, p + 1, b);
            lemma_has_at_byte(s, p + 1, hex_text(b) + seq![62u8], 0);
            if b.len() > 0 {
                crate::text_laws::lemma_hex_text_front(b);
                lemma_hex_digit(b[0] as int / 16);
            }
            assert(s[p + 1] != 60);
        },
        ObjectView::Name(n) => {
            lemma_has_at_parts(s, p, seq![47u8], name_text(n));
            lemma_parse_name_text(s, p + 1, n);
        },
        ObjectView::Array(items) => {
            assert(serialized(v) =~= seq![91u8] + (items_text(items) + seq![93u8]));
            lemma_has_at_parts(s, p, seq![91u8], items_text(items) + seq![93u8]);
            assert(items.skip(0) =~= items);
            lemma_parse_items_text(s, p + 1, v, 0);
        },
        ObjectView::Dictionary(entries) => {
            assert(serialized(v) =~= seq![60u8, 60u8] + (entries_text(entries) + seq![62u8, 62u8]));
            lemma_has_at_parts(s, p, seq![60u8, 60u8], entries_text(entries) + seq![62u8, 62u8]);
            lemma_has_at_byte(s, p, seq![60u8, 60u8], 1);
            assert(entries.skip(0) =~= entries);
            lemma_parse_entries_text(s, p + 2, v, 0);
            lemma_collect_unique(entries);
        },
        ObjectView::Stream(_, _) => {},
    }
}

/// The parser reads the item at position `k` of a run of items back from
/// the text of the run, and finds the rest of the run behind the space
/// after it.
pub proof fn lemma_parse_item(s: Seq<u8>, p: int, items: Seq<ObjectView>, k: int, closer: Seq<u8>)
    requires
        0 <= p,
        0 <= k < items.len(),
        all_sound(items),
        has_at(s, p, items_text(items.skip(k)) + closer),
        closes(s, p + items_text(items.skip(k)).len(), closer),
    ensures
        parse_object(s, p) == Some((items[k], p + serialized(items[k]).len())),
        !is_space(s[p]),
        s[p] != 93,
        serialized(items[k]).len() > 0,
        p + serialized(items[k]).len() < s.len(),
        s[p + serialized(items[k]).len()] == 32,
        skip_spaces(s, p + serialized(items[k]).len()) == p + serialized(items[k]).len() + 1,
        has_at(s, p + serialized(items[k]).len() + 1, items_text(items.skip(k + 1)) + closer),
        items_text(items.skip(k)).len() == serialized(items[k]).len() + 1 + items_text(
            items.skip(k + 1),
        ).len(),
    decreases ObjectView::Array(items), 0nat, 0nat,
{
    let rest = items.skip(k);
    let w = items[k];
    assert(rest[0] == w);
    let after = rest.skip(1);
    assert(after =~= items.skip(k + 1));
    lemma_items_text_front(rest);
    lemma_first_byte(w);
    assert(items_text(rest) + closer =~= serialized(w) + (seq![32u8] + (items_text(after)
        + closer)));
    lemma_has_at_parts(s, p, serialized(w), seq![32u8] + (items_text(after) + closer));
    let end = p + serialized(w).len();
    lemma_has_at_parts(s, end, seq![32u8], items_text(after) + closer);
    lemma_has_at_byte(s, end, seq![32u8], 0);
    lemma_has_at_byte(s, p, serialized(w), 0);
    lemma_follows_items(s, end + 1, items, k + 1, closer);
    lemma_no_reference(s, end);
    lemma_skip_one_space(s, end);
    assert(decreases_to!(ObjectView::Array(items) => ObjectView::Array(items)->Array_0));
    lemma_parse_serialized(s, p, w);
}

/// The parser reads the items of an array from position `k` on back from
/// their text and the closing bracket.
proof fn lemma_parse_items_text(s: Seq<u8>, p: int, v: ObjectView, k: int)
    requires
        0 <= p,
        v is Array,
        well_formed(v),
        writable(v),
        0 <= k <= v->Array_0.len(),
        has_at(s, p, items_text(v->Array_0.skip(k)) + seq![93u8]),
    ensures
        parse_items(s, p) == Some(
            (v->Array_0.skip(k), p + items_text(v->Array_0.skip(k)).len() + 1),
        ),
    decreases v, 0nat, v->Array_0.len() - k,
{
    let items = v->Array_0;
    let rest = items.skip(k);
    let closer = seq![93u8];
    if k == items.len() {
        assert(rest =~= Seq::<ObjectView>::empty());
        lemma_has_at_byte(s, p, items_text(rest) + closer, 0);
        lemma_skip_no_space(s, p);
        assert(parse_items(s, p).unwrap().0 =~= rest);
    } else {
        assert(v == ObjectView::Array(items));
        lemma_parse_item(s, p, items, k, closer);
        let w = items[k];
        let end = p + serialized(w).len();
        lemma_skip_no_space(s, p);
        lemma_parse_items_text(s, end + 1, v, k + 1);
        lemma_has_at_byte(s, end + 1, items_text(items.skip(k + 1)) + closer, 0);
        if k + 1 < items.len() {
            lemma_items_text_front(items.skip(k + 1));
            lemma_first_byte(items.skip(k + 1)[0]);
        } else {
            assert(items.skip(k + 1) =~= Seq::<ObjectView>::empty());
        }
        lemma_skip_no_space(s, end + 1);
        assert(parse_items(s, end) == parse_items(s, end + 1));
        assert(seq![w] + items.skip(k + 1) =~= rest);
    }
}

/// The parser reads the entries of a dictionary from position `k` on back
/// from their text and the closing `>>`.
proof fn lemma_parse_entries_text(s: Seq<u8>, p: int, v: ObjectView, k: int)
    requires
        0 <= p,
        v is Dictionary,
        well_formed(v),
        writable(v),
        0 <= k <= v->Dictionary_0.len(),
        has_at(s, p, entries_text(v->Dictionary_0.skip(k)) + seq![62u8, 62u8]),
    ensures
        parse_entries(s, p) == Some(
            (v->Dictionary_0.skip(k), p + entries_text(v->Dictionary_0.skip(k)).len() + 2),
        ),
    decreases v, 0nat, v->Dictionary_0.len() - k,
{
    let entries = v->Dictionary_0;
    let rest = entries.skip(k);
    let closer = seq![62u8, 62u8];
    if k == entries.len() {
        assert(rest =~= Seq::<(Seq<u8>, ObjectView)>::empty());
        lemma_has_at_byte(s, p, entries_text(rest) + closer, 0);
        lemma_has_at_byte(s, p, entries_text(rest) + closer, 1);
        lemma_skip_no_space(s, p);
        assert(parse_entries(s, p).unwrap().0 =~= rest);
    } else {
        let key = entries[k].0;
        let w = entries[k].1;
        assert(rest[0] == entries[k]);
        let after = rest.skip(1);
        assert(after =~= entries.skip(k + 1));
        lemma_entries_text_front(rest);
        lemma_first_byte(w);
        let tail = entries_text(after) + closer;
        assert(entries_text(rest) + closer =~= seq![47u8] + (name_text(key) + (seq![32u8] + (
        serialized(w) + (seq![32u8] + tail)))));
        lemma_has_at_parts(
            s,
            p,
            seq![47u8],
            name_text(key) + (seq![32u8] + (serialized(w) + (seq![32u8] + tail))),
        );
        lemma_has_at_byte(s, p, seq![47u8], 0);
        let n0 = p + 1;
        lemma_has_at_parts(s, n0, name_text(key), seq![32u8] + (serialized(w) + (seq![32u8] + tail)));
        let n1 = n0 + name_text(key).len();
        lemma_has_at_parts(s, n1, seq![32u8], serialized(w) + (seq![32u8] + tail));
        lemma_has_at_byte(s, n1, seq![32u8], 0);
        let q2 = n1 + 1;
        lemma_has_at_parts(s, q2, serialized(w), seq![32u8] + tail);
        lemma_has_at_byte(s, q2, serialized(w), 0);
        let end = q2 + serialized(w).len();
        lemma_has_at_parts(s, end, seq![32u8], tail);
        lemma_has_at_byte(s, end, seq![32u8], 0);
        lemma_has_at_byte(s, end + 1, tail, 0);
        if k + 1 < entries.len() {
            lemma_entries_text_front(after);
        } else {
            assert(after =~= Seq::<(Seq<u8>, ObjectView)>::empty());
        }
        assert(s[end + 1] == 47 || s[end + 1] == 62);
        lemma_skip_no_space(s, p);
        lemma_parse_name_text(s, n0, key);
        lemma_skip_one_space(s, n1);
        lemma_no_reference(s, end);
        lemma_skip_one_space(s, end);
        assert(decreases_to!(v => v->Dictionary_0));
        lemma_parse_serialized(s, q2, w);
        lemma_parse_entries_text(s, end + 1, v, k + 1);
        lemma_skip_no_space(s, end + 1);
        assert(parse_entries(s, end) == parse_entries(s, end + 1));
        assert(seq![(key, w)] + entries.skip(k + 1) =~= rest);
    }
}

} // verus!
