//! What reading a container gives for the layout that finalizing one
//! produces.
use vstd::prelude::*;
use crate::bytes::{has_at, is_digit, key_filter, key_first, key_n, key_type};
use crate::container::{
    body_block, container_dict, container_text, decode_outcome, decoded, index_block, index_pair,
    integer_entry, offset_of, out_of_bounds, pair_entry, pair_out_of_bounds, Decoded,
};
use crate::decimal::{all_digits, decimal, lemma_decimal};
use crate::flate::{decompressed, names_flate, zlib_inflated};
use crate::index::{
    index_numbers, is_text_from, separator_width, token_end, token_number, utf8_width,
};
use crate::object::{find_key, lookup, well_formed, without, ObjectId, ObjectView, StreamView};
use crate::object_laws::{all_sound, lemma_parse_item};
use crate::parser::parse_object;
use crate::table::Rows;
use crate::text_laws::{lemma_has_at_byte, lemma_has_at_parts};
use crate::writer::{items_text, writable};

verus! {

/// The objects of `rows`, in order.
pub open spec fn objects_of(rows: Rows) -> Seq<ObjectView> {
    Seq::new(rows.len(), |i: int| rows[i].1)
}

/// The pairs that the index block records: for each row its object number
/// and its offset.
pub open spec fn pairs_of(rows: Rows) -> Seq<(u32, nat)> {
    Seq::new(rows.len(), |i: int| (rows[i].0.0, offset_of(rows, i)))
}

/// The text of pairs, in order.
pub open spec fn pairs_text(pairs: Seq<(u32, nat)>) -> Seq<u8>
    decreases pairs.len(),
{
    if pairs.len() == 0 {
        Seq::empty()
    } else {
        pairs_text(pairs.drop_last()) + index_pair(pairs.last().0, pairs.last().1)
    }
}

/// The numbers that the tokens of the text of `pairs` denote.
pub open spec fn numbers_of(pairs: Seq<(u32, nat)>) -> Seq<Option<u32>> {
    Seq::new(
        2 * pairs.len(),
        |j: int|
            if j % 2 == 0 {
                Some(pairs[j / 2].0)
            } else {
                Some(pairs[j / 2].1 as u32)
            },
    )
}

/// The body block is the text of the objects as a run of items.
pub proof fn lemma_body_is_items(rows: Rows)
    ensures
        body_block(rows) == items_text(objects_of(rows)),
    decreases rows.len(),
{
    if rows.len() > 0 {
        lemma_body_is_items(rows.drop_last());
        assert(objects_of(rows).drop_last() =~= objects_of(rows.drop_last()));
    } else {
        assert(objects_of(rows) =~= Seq::<ObjectView>::empty());
    }
}

/// The index block is the text of the pairs of the rows.
pub proof fn lemma_index_is_pairs(rows: Rows)
    ensures
        index_block(rows) == pairs_text(pairs_of(rows)),
    decreases rows.len(),
{
    if rows.len() > 0 {
        let prefix = rows.drop_last();
        lemma_index_is_pairs(prefix);
        assert(rows.take(rows.len() - 1) =~= prefix);
        assert(pairs_of(rows).drop_last() =~= pairs_of(prefix)) by {
            assert forall|i: int| 0 <= i < prefix.len() implies pairs_of(rows)[i] == pairs_of(
                prefix,
            )[i] by {
                assert(rows.take(i) =~= prefix.take(i));
            }
        }
    } else {
        assert(pairs_of(rows) =~= Seq::<(u32, nat)>::empty());
    }
}

/// The text of pairs, from the first pair on.
pub proof fn lemma_pairs_text_front(pairs: Seq<(u32, nat)>)
    requires
        pairs.len() > 0,
    ensures
        pairs_text(pairs) == index_pair(pairs[0].0, pairs[0].1) + pairs_text(pairs.skip(1)),
    decreases pairs.len(),
{
    if pairs.len() == 1 {
        assert(pairs.drop_last() =~= Seq::<(u32, nat)>::empty());
        assert(pairs.skip(1) =~= Seq::<(u32, nat)>::empty());
        assert(pairs_text(pairs) =~= index_pair(pairs[0].0, pairs[0].1) + pairs_text(pairs.skip(1)));
    } else {
        lemma_pairs_text_front(pairs.drop_last());
        assert(pairs.drop_last().skip(1) =~= pairs.skip(1).drop_last());
        assert(pairs.skip(1).last() == pairs.last());
        assert(pairs_text(pairs.skip(1)) == pairs_text(pairs.skip(1).drop_last()) + index_pair(
            pairs.last().0,
            pairs.last().1,
        ));
        assert(pairs_text(pairs) =~= index_pair(pairs[0].0, pairs[0].1) + pairs_text(pairs.skip(1)));
    }
}

/// Every byte of the text of pairs is a digit or a space.
pub proof fn lemma_pairs_text_plain(pairs: Seq<(u32, nat)>)
    ensures
        forall|i: int|
            0 <= i < pairs_text(pairs).len() ==> is_digit(#[trigger] pairs_text(pairs)[i])
                || pairs_text(pairs)[i] == 32,
    decreases pairs.len(),
{
    if pairs.len() > 0 {
        lemma_pairs_text_plain(pairs.drop_last());
        let a = decimal(pairs.last().0 as nat);
        let b = decimal(pairs.last().1);
        lemma_decimal(pairs.last().0 as nat);
        lemma_decimal(pairs.last().1);
        let before = pairs_text(pairs.drop_last());
        let pair = index_pair(pairs.last().0, pairs.last().1);
        assert forall|i: int| 0 <= i < pair.len() implies is_digit(#[trigger] pair[i]) || pair[i]
            == 32 by {
            if i < a.len() {
                assert(pair[i] == a[i]);
            } else if i == a.len() {
            } else if i < a.len() + 1 + b.len() {
                assert(pair[i] == b[i - a.len() - 1]);
            }
        }
        assert forall|i: int| 0 <= i < pairs_text(pairs).len() implies is_digit(
            #[trigger] pairs_text(pairs)[i],
        ) || pairs_text(pairs)[i] == 32 by {
            if i < before.len() {
                assert(pairs_text(pairs)[i] == before[i]);
            } else {
                assert(pairs_text(pairs)[i] == pair[i - before.len()]);
            }
        }
    }
}

/// Bytes below 128 are valid text.
pub proof fn lemma_plain_is_text(s: Seq<u8>, i: int)
    requires
        0 <= i,
        forall|j: int| 0 <= j < s.len() ==> #[trigger] s[j] <= 0x7F,
    ensures
        is_text_from(s, i),
    decreases s.len() - i,
{
    if i < s.len() {
        assert(utf8_width(s, i) == 1);
        lemma_plain_is_text(s, i + 1);
    }
}

proof fn lemma_token_end_run(s: Seq<u8>, p: int, e: int)
    requires
        0 <= p <= e < s.len(),
        forall|j: int| p <= j < e ==> is_digit(#[trigger] s[j]),
        s[e] == 32,
    ensures
        token_end(s, p) == e,
    decreases e - p,
{
    if p < e {
        assert(is_digit(s[p]));
        lemma_token_end_run(s, p + 1, e);
    }
}

/// A numeral and the space behind it are one token, and the tokens go on
/// behind the space.
proof fn lemma_token(s: Seq<u8>, p: int, d: Seq<u8>)
    requires
        0 <= p,
        d.len() > 0,
        all_digits(d),
        has_at(s, p, d + seq![32u8]),
    ensures
        index_numbers(s, p) == seq![token_number(d)] + index_numbers(s, p + d.len() + 1),
{
    lemma_has_at_parts(s, p, d, seq![32u8]);
    let e = p + d.len();
    lemma_has_at_byte(s, e, seq![32u8], 0);
    assert forall|j: int| p <= j < e implies is_digit(#[trigger] s[j]) by {
        lemma_has_at_byte(s, p, d, j - p);
    }
    lemma_token_end_run(s, p, e);
    assert(is_digit(s[p]));
    assert(separator_width(s, p) == 0);
    assert(separator_width(s, e) == 1);
    assert(index_numbers(s, e) == index_numbers(s, e + 1));
}

/// The tokens of the text of pairs denote the numbers of the pairs.
pub proof fn lemma_index_numbers(s: Seq<u8>, p: int, pairs: Seq<(u32, nat)>, k: int)
    requires
        0 <= p,
        0 <= k <= pairs.len(),
        has_at(s, p, pairs_text(pairs.skip(k))),
        p + pairs_text(pairs.skip(k)).len() == s.len(),
        forall|i: int| 0 <= i < pairs.len() ==> (#[trigger] pairs[i]).1 <= u32::MAX,
    ensures
        index_numbers(s, p) == numbers_of(pairs.skip(k)),
    decreases pairs.len() - k,
{
    let rest = pairs.skip(k);
    if k == pairs.len() {
        assert(rest =~= Seq::<(u32, nat)>::empty());
        assert(index_numbers(s, p) =~= numbers_of(rest));
    } else {
        lemma_pairs_text_front(rest);
        let a = decimal(rest[0].0 as nat);
        let b = decimal(rest[0].1);
        lemma_decimal(rest[0].0 as nat);
        lemma_decimal(rest[0].1);
        assert(rest[0] == pairs[k]);
        let after = rest.skip(1);
        assert(after =~= pairs.skip(k + 1));
        let tail = pairs_text(after);
        assert(pairs_text(rest) =~= (a + seq![32u8]) + ((b + seq![32u8]) + tail));
        lemma_has_at_parts(s, p, a + seq![32u8], (b + seq![32u8]) + tail);
        let second = p + a.len() + 1;
        lemma_has_at_parts(s, second, b + seq![32u8], tail);
        let next = second + b.len() + 1;
        lemma_token(s, p, a);
        lemma_token(s, second, b);
        lemma_index_numbers(s, next, pairs, k + 1);
        assert(token_number(a) == Some(rest[0].0));
        assert(token_number(b) == Some(rest[0].1 as u32));
        let got = seq![Some(rest[0].0)] + (seq![Some(rest[0].1 as u32)] + numbers_of(after));
        assert(index_numbers(s, p) == got);
        assert(got =~= numbers_of(rest)) by {
            assert(got.len() == numbers_of(rest).len());
            assert forall|j: int| 0 <= j < got.len() implies got[j] == numbers_of(rest)[j] by {
                if j >= 2 {
                    assert(got[j] == numbers_of(after)[j - 2]);
                    assert((j - 2) / 2 + 1 == j / 2);
                    assert((j - 2) % 2 == j % 2);
                    assert(after[(j - 2) / 2] == rest[j / 2]);
                }
            }
        }
    }
}

/// The parser reads the object of row `k` at the place that the index
/// records for it.
pub open spec fn reads_row(content: Seq<u8>, first: int, rows: Rows, k: int) -> bool {
    &&& first + offset_of(rows, k) < content.len()
    &&& parse_object(content, first + offset_of(rows, k)) matches Some((v, _))
    &&& v == rows[k].1
}

/// The offsets of the rows are the places of their objects in the run of
/// items.
proof fn lemma_offsets_are_places(rows: Rows, k: int)
    requires
        0 <= k <= rows.len(),
    ensures
        offset_of(rows, k) + items_text(objects_of(rows).skip(k)).len() == body_block(rows).len(),
    decreases rows.len() - k,
{
    let objects = objects_of(rows);
    if k == rows.len() {
        assert(rows.take(k) =~= rows);
        assert(objects.skip(k) =~= Seq::<ObjectView>::empty());
    } else {
        lemma_offsets_are_places(rows, k + 1);
        assert(rows.take(k + 1).drop_last() =~= rows.take(k));
        assert(rows.take(k + 1).last() == rows[k]);
        crate::object_laws::lemma_items_text_front(objects.skip(k));
        assert(objects.skip(k).skip(1) =~= objects.skip(k + 1));
        assert(objects.skip(k)[0] == rows[k].1);
    }
}

/// In a content that ends with the body block of `rows`, which begins at
/// `first`, the parser reads each row's object at its offset.
pub proof fn lemma_reads_rows(content: Seq<u8>, first: int, rows: Rows, k: int)
    requires
        0 <= first,
        0 <= k < rows.len(),
        all_sound(objects_of(rows)),
        has_at(content, first, body_block(rows)),
        first + body_block(rows).len() == content.len(),
    ensures
        reads_row(content, first, rows, k),
{
    let objects = objects_of(rows);
    let body = body_block(rows);
    lemma_body_is_items(rows);
    lemma_offsets_are_places(rows, k);
    let p = first + offset_of(rows, k);
    let here = items_text(objects.skip(k));
    assert(has_at(content, p, here + Seq::<u8>::empty())) by {
        let whole = content.subrange(first, first + body.len());
        assert(content.subrange(p, p + here.len()) =~= whole.subrange(
            offset_of(rows, k) as int,
            body.len() as int,
        ));
        lemma_items_suffix(objects, k);
        assert(here + Seq::<u8>::empty() =~= here);
    }
    assert(here + Seq::<u8>::empty() =~= here);
    lemma_parse_item(content, p, objects, k, Seq::<u8>::empty());
}

/// The text of the items from position `k` on is the end of the text of
/// all items.
proof fn lemma_items_suffix(items: Seq<ObjectView>, k: int)
    requires
        0 <= k <= items.len(),
    ensures
        items_text(items.skip(k)).len() <= items_text(items).len(),
        items_text(items).subrange(
            items_text(items).len() - items_text(items.skip(k)).len(),
            items_text(items).len() as int,
        ) == items_text(items.skip(k)),
    decreases k,
{
    if k == 0 {
        assert(items.skip(0) =~= items);
        assert(items_text(items).subrange(0, items_text(items).len() as int) =~= items_text(items));
    } else {
        lemma_items_suffix(items, k - 1);
        crate::object_laws::lemma_items_text_front(items.skip(k - 1));
        assert(items.skip(k - 1).skip(1) =~= items.skip(k));
        let all = items_text(items);
        let longer = items_text(items.skip(k - 1));
        let shorter = items_text(items.skip(k));
        assert(all.subrange(all.len() - shorter.len(), all.len() as int) =~= all.subrange(
            all.len() - longer.len(),
            all.len() as int,
        ).subrange(longer.len() - shorter.len(), longer.len() as int));
        assert(longer.subrange(longer.len() - shorter.len(), longer.len() as int) =~= shorter);
    }
}

/// What the pair at position `k` of the index gives: the tokens at `2k`
/// and `2k + 1` are its object number and its relative offset.
pub open spec fn pair_at(
    content: Seq<u8>,
    first: int,
    numbers: Seq<Option<u32>>,
    k: int,
) -> Option<(ObjectId, ObjectView)> {
    pair_entry(content, first, numbers[2 * k], numbers[2 * k + 1])
}

/// The pair at position `k` gives an object under the identifier `id`.
pub open spec fn gives(
    content: Seq<u8>,
    first: int,
    numbers: Seq<Option<u32>>,
    k: int,
    id: ObjectId,
) -> bool {
    pair_at(content, first, numbers, k) matches Some((i, _)) && i == id
}

/// No pair after position `k` and before `pairs` gives an object under
/// the identifier `id`.
pub open spec fn last_under(
    content: Seq<u8>,
    first: int,
    numbers: Seq<Option<u32>>,
    pairs: nat,
    k: int,
    id: ObjectId,
) -> bool {
    forall|j: int| k < j < pairs ==> !#[trigger] gives(content, first, numbers, j, id)
}

/// Pairing of the index: the tokens pair up in order as object number and
/// relative offset. What is read holds an identifier exactly where some
/// pair gives an object under it, and under the identifier of a pair it
/// holds that pair's object unless a later pair gives one under the same
/// identifier.
pub proof fn law_pairing(content: Seq<u8>, first: int, numbers: Seq<Option<u32>>, pairs: nat)
    ensures
        forall|id: ObjectId|
            #[trigger] decoded(content, first, numbers, pairs).contains_key(id) <==> exists|k: int|
                0 <= k < pairs && gives(content, first, numbers, k, id),
        forall|k: int, id: ObjectId|
            0 <= k < pairs && #[trigger] gives(content, first, numbers, k, id) && last_under(
                content,
                first,
                numbers,
                pairs,
                k,
                id,
            ) ==> decoded(content, first, numbers, pairs).contains_key(id) && decoded(
                content,
                first,
                numbers,
                pairs,
            )[id] == pair_at(content, first, numbers, k).unwrap().1,
    decreases pairs,
{
    if pairs > 0 {
        let before = (pairs - 1) as nat;
        law_pairing(content, first, numbers, before);
        let earlier = decoded(content, first, numbers, before);
        let now = decoded(content, first, numbers, pairs);
        let last = pair_at(content, first, numbers, pairs - 1);
        assert forall|id: ObjectId| #[trigger] now.contains_key(id) <==> exists|k: int|
            0 <= k < pairs && gives(content, first, numbers, k, id) by {
            if earlier.contains_key(id) {
                let k = choose|k: int| 0 <= k < before && gives(content, first, numbers, k, id);
                assert(0 <= k < pairs && gives(content, first, numbers, k, id));
            }
            if gives(content, first, numbers, pairs - 1, id) {
                assert(0 <= pairs - 1 < pairs && gives(content, first, numbers, pairs - 1, id));
            }
            if exists|k: int| 0 <= k < pairs && gives(content, first, numbers, k, id) {
                let k = choose|k: int| 0 <= k < pairs && gives(content, first, numbers, k, id);
                if k < before {
                    assert(0 <= k < before && gives(content, first, numbers, k, id));
                }
            }
        }
        assert forall|k: int, id: ObjectId|
            0 <= k < pairs && #[trigger] gives(content, first, numbers, k, id) && last_under(
                content,
                first,
                numbers,
                pairs,
                k,
                id,
            ) implies now.contains_key(id) && now[id] == pair_at(
            content,
            first,
            numbers,
            k,
        ).unwrap().1 by {
            if k < before {
                assert(!gives(content, first, numbers, pairs - 1, id));
                assert(last_under(content, first, numbers, before, k, id)) by {
                    assert forall|j: int| k < j < before implies !#[trigger] gives(
                        content,
                        first,
                        numbers,
                        j,
                        id,
                    ) by {
                        assert(k < j < pairs);
                    }
                }
            }
        }
    }
}

/// The object numbers of `rows` differ from each other.
pub open spec fn distinct_numbers(rows: Rows) -> bool {
    forall|i: int, j: int|
        0 <= i < j < rows.len() ==> (#[trigger] rows[i]).0.0 != (#[trigger] rows[j]).0.0
}

/// The objects of `rows` under their object numbers and generation 0.
pub open spec fn normalized(rows: Rows) -> Map<ObjectId, ObjectView> {
    Map::new(
        |id: ObjectId| id.1 == 0 && exists|i: int| 0 <= i < rows.len() && (#[trigger] rows[i]).0.0 == id.0,
        |id: ObjectId| rows[choose|i: int| 0 <= i < rows.len() && (#[trigger] rows[i]).0.0 == id.0].1,
    )
}

/// The first `j` pairs of the index give the first `j` rows, and none of
/// them points beyond the content.
proof fn lemma_decoded(content: Seq<u8>, first: int, rows: Rows, j: int)
    requires
        0 <= j <= rows.len(),
        distinct_numbers(rows),
        forall|k: int| 0 <= k < rows.len() ==> #[trigger] reads_row(content, first, rows, k),
        forall|k: int| 0 <= k < rows.len() ==> offset_of(rows, k) <= u32::MAX,
    ensures
        decoded(content, first, numbers_of(pairs_of(rows)), j as nat) == normalized(rows.take(j)),
        out_of_bounds(content, first, numbers_of(pairs_of(rows)), j as nat) == 0,
    decreases j,
{
    let numbers = numbers_of(pairs_of(rows));
    if j == 0 {
        assert(rows.take(0) =~= Seq::<(ObjectId, ObjectView)>::empty());
        assert(normalized(rows.take(0)) =~= Map::<ObjectId, ObjectView>::empty());
    } else {
        lemma_decoded(content, first, rows, j - 1);
        let k = j - 1;
        assert(numbers[2 * k] == Some(rows[k].0.0));
        assert(numbers[2 * k + 1] == Some(offset_of(rows, k) as u32));
        assert(reads_row(content, first, rows, k));
        let id: ObjectId = (rows[k].0.0, 0u16);
        assert(pair_entry(content, first, numbers[2 * k], numbers[2 * k + 1]) == Some(
            (id, rows[k].1),
        ));
        assert(!pair_out_of_bounds(content, first, numbers[2 * k], numbers[2 * k + 1]));
        let before = normalized(rows.take(k));
        let now = normalized(rows.take(j));
        assert(now =~= before.insert(id, rows[k].1)) by {
            assert forall|x: ObjectId| now.contains_key(x) <==> before.insert(
                id,
                rows[k].1,
            ).contains_key(x) by {
                if before.contains_key(x) {
                    let i = choose|i: int|
                        0 <= i < rows.take(k).len() && (#[trigger] rows.take(k)[i]).0.0 == x.0;
                    assert(rows.take(j)[i].0.0 == x.0);
                }
                if x == id {
                    assert(rows.take(j)[k].0.0 == x.0);
                }
                if now.contains_key(x) {
                    let i = choose|i: int|
                        0 <= i < rows.take(j).len() && (#[trigger] rows.take(j)[i]).0.0 == x.0;
                    if i < k {
                        assert(rows.take(k)[i].0.0 == x.0);
                    }
                }
            }
            assert forall|x: ObjectId| now.contains_key(x) implies now[x] == before.insert(
                id,
                rows[k].1,
            )[x] by {
                let i = choose|i: int|
                    0 <= i < rows.take(j).len() && (#[trigger] rows.take(j)[i]).0.0 == x.0;
                if x == id {
                    if i < k {
                        assert(rows[i].0.0 != rows[k].0.0);
                    }
                } else {
                    assert(rows.take(k)[i].0.0 == x.0);
                    let i2 = choose|i2: int|
                        0 <= i2 < rows.take(k).len() && (#[trigger] rows.take(k)[i2]).0.0 == x.0;
                    if i2 < i {
                        assert(rows[i2].0.0 != rows[i].0.0);
                    }
                    if i < i2 {
                        assert(rows[i].0.0 != rows[i2].0.0);
                    }
                }
            }
        }
    }
}

/// What the dictionary of a finalized container holds under each key.
pub proof fn lemma_container_dict(n: i64, first: i64)
    ensures
        integer_entry(container_dict(n, first, false), key_first()) == Ok::<i64, crate::object::Error>(
            first,
        ),
        integer_entry(container_dict(n, first, false), key_n()) == Ok::<i64, crate::object::Error>(n),
        lookup(container_dict(n, first, false), key_filter()) is None,
        names_flate(container_dict(n, first, true)),
        without(container_dict(n, first, true), key_filter()) == container_dict(n, first, false),
{
    reveal_with_fuel(find_key, 6);
    let plain = container_dict(n, first, false);
    let filtered = container_dict(n, first, true);
    assert(key_type().len() == 4 && key_n().len() == 1 && key_first().len() == 5
        && key_filter().len() == 6);
    assert(find_key(plain, key_first(), 0) == 2);
    assert(find_key(plain, key_n(), 0) == 1);
    assert(find_key(plain, key_filter(), 0) == 3);
    assert(find_key(filtered, key_filter(), 0) == 3);
    assert(filtered.remove(3) =~= plain);
}

/// The rows for which reading gives back what was finalized: the objects
/// are well formed, their object numbers differ, and the offset of every
/// object is a 32-bit number.
pub open spec fn reads_back(rows: Rows) -> bool {
    &&& forall|i: int| 0 <= i < rows.len() ==> well_formed((#[trigger] rows[i]).1)
    &&& distinct_numbers(rows)
    &&& forall|i: int| 0 <= i < rows.len() ==> offset_of(rows, i) <= u32::MAX
}

/// The stream holds the content of `rows` as a finalized container does:
/// raw under the plain dictionary, or under the dictionary with the filter
/// in a form from which the decompressor gives the raw content.
pub open spec fn holds(stream: StreamView, rows: Rows) -> bool {
    let n = rows.len() as i64;
    let first = index_block(rows).len() as i64;
    (stream.dict == container_dict(n, first, false) && stream.content == container_text(rows)) || (
    stream.dict == container_dict(n, first, true) && zlib_inflated(stream.content) == Some(
        container_text(rows),
    ))
}

/// What reading the finalized container of `rows` gives.
pub open spec fn read_back(rows: Rows) -> Decoded {
    Decoded { objects: normalized(rows), count_mismatch: false, out_of_bounds: 0 }
}

/// Reading the raw content of `rows` under the plain dictionary gives the
/// objects of `rows` under generation 0, with nothing passed over.
pub proof fn lemma_round_trip_raw(rows: Rows)
    requires
        reads_back(rows),
        forall|i: int| 0 <= i < rows.len() ==> writable((#[trigger] rows[i]).1),
        index_block(rows).len() <= i64::MAX,
        container_text(rows).len() <= usize::MAX,
    ensures
        decode_outcome(
            StreamView {
                dict: container_dict(rows.len() as i64, index_block(rows).len() as i64, false),
                content: container_text(rows),
            },
        ) == Ok::<Decoded, crate::object::Error>(read_back(rows)),
{
    let index = index_block(rows);
    let body = body_block(rows);
    let content = container_text(rows);
    let first = index.len() as int;
    let n = rows.len() as int;
    crate::container::lemma_index_len(rows);
    lemma_container_dict(n as i64, first as i64);
    if content.len() == 0 {
        assert(rows.len() == 0);
        assert(normalized(rows) =~= Map::<ObjectId, ObjectView>::empty());
    } else {
        assert(content.subrange(0, first) =~= index);
        lemma_index_is_pairs(rows);
        let pairs = pairs_of(rows);
        lemma_pairs_text_plain(pairs);
        lemma_plain_is_text(index, 0);
        assert(pairs.skip(0) =~= pairs);
        assert(index.subrange(0, index.len() as int) =~= index);
        assert forall|i: int| 0 <= i < pairs.len() implies (#[trigger] pairs[i]).1 <= u32::MAX by {
            assert(pairs[i].1 == offset_of(rows, i));
        }
        lemma_index_numbers(index, 0, pairs, 0);
        let numbers = numbers_of(pairs);
        assert(numbers.len() / 2 == n);
        assert(content.subrange(first, first + body.len()) =~= body);
        assert(all_sound(objects_of(rows)));
        assert forall|k: int| 0 <= k < rows.len() implies #[trigger] reads_row(
            content,
            first,
            rows,
            k,
        ) by {
            lemma_reads_rows(content, first, rows, k);
        }
        lemma_decoded(content, first, rows, n);
        assert(rows.take(n) =~= rows);
    }
}

/// Round trip: reading the stream that holds the finalized container of
/// `rows`, after decompressing it where it names the filter, gives the
/// objects of `rows` under their object numbers and generation 0, with
/// nothing passed over.
pub proof fn law_round_trip(rows: Rows, stream: StreamView)
    requires
        reads_back(rows),
        forall|i: int| 0 <= i < rows.len() ==> writable((#[trigger] rows[i]).1),
        index_block(rows).len() <= i64::MAX,
        container_text(rows).len() <= usize::MAX,
        holds(stream, rows),
    ensures
        decode_outcome(decompressed(stream)) == Ok::<Decoded, crate::object::Error>(read_back(rows)),
{
    let n = rows.len() as i64;
    let first = index_block(rows).len() as i64;
    lemma_container_dict(n, first);
    lemma_round_trip_raw(rows);
    let raw = StreamView { dict: container_dict(n, first, false), content: container_text(rows) };
    if stream.dict == container_dict(n, first, false) && stream.content == container_text(rows) {
        assert(decompressed(stream) == stream);
        assert(stream == raw);
    } else {
        assert(decompressed(stream) == raw);
    }
}

/// In what reading gives back, each object stands under its object number
/// and generation 0, and nothing else is there.
pub proof fn law_read_back_objects(rows: Rows)
    requires
        distinct_numbers(rows),
    ensures
        forall|i: int|
            0 <= i < rows.len() ==> normalized(rows).contains_key(((#[trigger] rows[i]).0.0, 0u16))
                && normalized(rows)[(rows[i].0.0, 0u16)] == rows[i].1,
        forall|id: ObjectId|
            #[trigger] normalized(rows).contains_key(id) ==> id.1 == 0 && exists|i: int|
                0 <= i < rows.len() && (#[trigger] rows[i]).0.0 == id.0,
{
    assert forall|i: int| 0 <= i < rows.len() implies normalized(rows).contains_key(
        ((#[trigger] rows[i]).0.0, 0u16),
    ) && normalized(rows)[(rows[i].0.0, 0u16)] == rows[i].1 by {
        let id: ObjectId = (rows[i].0.0, 0u16);
        let c = choose|c: int| 0 <= c < rows.len() && (#[trigger] rows[c]).0.0 == id.0;
        if c < i {
            assert(rows[c].0.0 != rows[i].0.0);
        }
        if i < c {
            assert(rows[i].0.0 != rows[c].0.0);
        }
    }
}

} // verus!
