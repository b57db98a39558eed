//! Decimal numerals: their text, their value, and the executable functions
//! that write and read them.
use vstd::prelude::*;
use crate::bytes::{digit, is_digit};

verus! {

/// The character of a digit value below ten.
pub open spec fn digit_of(d: int) -> u8 {
    (48 + d) as u8
}

/// The decimal numeral of `n`, without leading zeros.
pub open spec fn decimal(n: nat) -> Seq<u8>
    decreases n,
{
    if n < 10 {
        seq![digit_of(n as int)]
    } else {
        decimal(n / 10).push(digit_of((n % 10) as int))
    }
}

/// Every byte of `s` is a decimal digit.
pub open spec fn all_digits(s: Seq<u8>) -> bool {
    forall|i: int| 0 <= i < s.len() ==> is_digit(#[trigger] s[i])
}

/// The number that results from appending the digits `s` to the numeral
/// of `start`.
pub open spec fn value_from(start: nat, s: Seq<u8>) -> nat
    decreases s.len(),
{
    if s.len() == 0 {
        start
    } else {
        value_from(start, s.drop_last()) * 10 + (s.last() - 48) as nat
    }
}

/// The number that the digits `s` denote; leading zeros count for nothing.
pub open spec fn digits_value(s: Seq<u8>) -> nat {
    value_from(0, s)
}

/// The first position at or after `from` that holds no digit.
pub open spec fn digits_end(s: Seq<u8>, from: int) -> int
    decreases s.len() - from,
{
    if 0 <= from < s.len() && is_digit(s[from]) {
        digits_end(s, from + 1)
    } else {
        from
    }
}

pub proof fn lemma_digits_end(s: Seq<u8>, from: int)
    requires
        0 <= from <= s.len(),
    ensures
        from <= digits_end(s, from) <= s.len(),
        all_digits(s.subrange(from, digits_end(s, from))),
        digits_end(s, from) < s.len() ==> !is_digit(s[digits_end(s, from)]),
    decreases s.len() - from,
{
    if from < s.len() && is_digit(s[from]) {
        lemma_digits_end(s, from + 1);
        let e = digits_end(s, from);
        assert forall|i: int| 0 <= i < e - from implies is_digit(
            #[trigger] s.subrange(from, e)[i],
        ) by {
            if i > 0 {
                assert(s.subrange(from, e)[i] == s.subrange(from + 1, e)[i - 1]);
            }
        }
    }
}

/// A run of digits that is followed by no digit ends where the run ends.
pub proof fn lemma_digits_end_of_run(s: Seq<u8>, from: int, to: int)
    requires
        0 <= from <= to <= s.len(),
        all_digits(s.subrange(from, to)),
        to < s.len() ==> !is_digit(s[to]),
    ensures
        digits_end(s, from) == to,
    decreases to - from,
{
    if from < to {
        assert(s.subrange(from, to)[0] == s[from]);
        assert forall|i: int| 0 <= i < to - (from + 1) implies is_digit(
            #[trigger] s.subrange(from + 1, to)[i],
        ) by {
            assert(s.subrange(from + 1, to)[i] == s.subrange(from, to)[i + 1]);
        }
        lemma_digits_end_of_run(s, from + 1, to);
    }
}

pub proof fn lemma_value_prefix(start: nat, s: Seq<u8>, k: int)
    requires
        0 <= k <= s.len(),
    ensures
        value_from(start, s.take(k)) <= value_from(start, s),
    decreases s.len() - k,
{
    if k < s.len() {
        assert(s.take(k + 1).drop_last() =~= s.take(k));
        lemma_value_prefix(start, s, k + 1);
    } else {
        assert(s.take(k) =~= s);
    }
}

/// Appending digits to a numeral continues its value.
pub proof fn lemma_value_concat(start: nat, a: Seq<u8>, b: Seq<u8>)
    ensures
        value_from(start, a + b) == value_from(value_from(start, a), b),
    decreases b.len(),
{
    if b.len() == 0 {
        assert(a + b =~= a);
    } else {
        assert((a + b).drop_last() =~= a + b.drop_last());
        lemma_value_concat(start, a, b.drop_last());
    }
}

/// The numeral of `n` consists of digits, at least one, and denotes `n`.
pub proof fn lemma_decimal(n: nat)
    ensures
        decimal(n).len() >= 1,
        all_digits(decimal(n)),
        digits_value(decimal(n)) == n,
    decreases n,
{
    if n < 10 {
        assert(decimal(n).drop_last() =~= Seq::<u8>::empty());
        assert(decimal(n).last() == digit_of(n as int));
        assert(value_from(0, decimal(n).drop_last()) == 0);
    } else {
        lemma_decimal(n / 10);
        assert(decimal(n).drop_last() =~= decimal(n / 10));
        assert(decimal(n).last() == digit_of((n % 10) as int));
        assert((decimal(n).last() - 48) as nat == n % 10);
        assert(value_from(0, decimal(n).drop_last()) == n / 10);
        assert(n == (n / 10) * 10 + n % 10);
    }
}

/// Appends the decimal numeral of `n` to `out`.
pub fn push_decimal(out: &mut Vec<u8>, n: u64)
    ensures
        final(out)@ == old(out)@ + decimal(n as nat),
    decreases n,
{
    if n >= 10 {
        push_decimal(out, n / 10);
    }
    let d: u8 = (n % 10) as u8;
    out.push(48 + d);
    assert(out@ =~= old(out)@ + decimal(n as nat));
}

/// The end of the run of digits that starts at `from`.
pub fn scan_digits(bytes: &[u8], from: usize) -> (end: usize)
    requires
        from <= bytes.len(),
    ensures
        end == digits_end(bytes@, from as int),
        from <= end <= bytes.len(),
{
    let mut i: usize = from;
    while i < bytes.len() && digit(bytes[i])
        invariant
            from <= i <= bytes.len(),
            digits_end(bytes@, from as int) == digits_end(bytes@, i as int),
        decreases bytes.len() - i,
    {
        i = i + 1;
    }
    i
}

/// Continues the number `start` with the digits at `from..to`; `None` where
/// the result does not fit 64 bits.
pub fn accumulate_digits(start: u64, bytes: &[u8], from: usize, to: usize) -> (r: Option<u64>)
    requires
        from <= to <= bytes.len(),
        all_digits(bytes@.subrange(from as int, to as int)),
    ensures
        r == (if value_from(start as nat, bytes@.subrange(from as int, to as int)) <= u64::MAX {
            Some(value_from(start as nat, bytes@.subrange(from as int, to as int)) as u64)
        } else {
            None
        }),
{
    let ghost run = bytes@.subrange(from as int, to as int);
    let mut acc: u64 = start;
    let mut i: usize = from;
    while i < to
        invariant
            from <= i <= to <= bytes.len(),
            run == bytes@.subrange(from as int, to as int),
            all_digits(run),
            acc == value_from(start as nat, run.take(i - from)),
        decreases to - i,
    {
        proof {
            assert(run.take(i - from + 1).drop_last() =~= run.take(i - from));
            assert(run.take(i - from + 1).last() == bytes@[i as int]);
            assert(is_digit(run[i - from]));
            lemma_value_prefix(start as nat, run, i - from + 1);
        }
        let d: u64 = (bytes[i] - 48) as u64;
        match acc.checked_mul(10) {
            None => {
                return None;
            },
            Some(m) => match m.checked_add(d) {
                None => {
                    return None;
                },
                Some(next) => {
                    acc = next;
                },
            },
        }
        i = i + 1;
    }
    assert(run.take(to - from) =~= run);
    Some(acc)
}

} // verus!
