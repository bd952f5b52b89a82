use vstd::prelude::*;
use vstd::slice::slice_subrange;
use crate::digits::{all_digits, decimal_bounded, decimal_value, is_digit, DIGIT_0, DIGIT_9};

verus! {

/// ASCII `.`.
pub const DOT: u8 = 46;

/// The end of the longest run of ASCII digits that starts at `at`: `at`
/// itself where no digit stands there.
pub open spec fn digits_end(s: Seq<u8>, at: int) -> int
    decreases s.len() - at,
{
    if 0 <= at < s.len() && is_digit(s[at]) {
        digits_end(s, at + 1)
    } else {
        at
    }
}

/// Whether the bytes of `lit` stand in `s` from `at` on.
pub open spec fn has_literal(s: Seq<u8>, at: int, lit: Seq<u8>) -> bool {
    0 <= at && at + lit.len() <= s.len() && s.subrange(at, at + lit.len()) == lit
}

/// One number and what closes it: a non-empty run of digits from `at` on,
/// followed by `sep`. Gives the number written and the position behind `sep`.
#[verifier::opaque]
pub open spec fn field(s: Seq<u8>, at: int, sep: Seq<u8>) -> Option<(nat, int)> {
    let end = digits_end(s, at);
    if at < end && has_literal(s, end, sep) {
        Some((decimal_value(s.subrange(at, end)), end + sep.len()))
    } else {
        None
    }
}

/// Three fields in a row, closed by `sep1`, `sep2` and `sep3`. Gives the three
/// numbers and the position behind `sep3`.
#[verifier::opaque]
pub open spec fn triple(s: Seq<u8>, at: int, sep1: Seq<u8>, sep2: Seq<u8>, sep3: Seq<u8>) -> Option<
    (nat, nat, nat, int),
> {
    match field(s, at, sep1) {
        Some((a, i)) => match field(s, i, sep2) {
            Some((b, j)) => match field(s, j, sep3) {
                Some((c, k)) => Some((a, b, c, k)),
                None => None,
            },
            None => None,
        },
        None => None,
    }
}

/// The end of a decimal number that starts at `at`: a non-empty run of digits,
/// followed, where a dot and at least one more digit come next, by that dot
/// and the digits behind it.
pub open spec fn decimal_end(s: Seq<u8>, at: int) -> Option<int> {
    let whole = digits_end(s, at);
    if whole <= at {
        None
    } else if whole < s.len() && s[whole] == DOT && digits_end(s, whole + 1) > whole + 1 {
        Some(digits_end(s, whole + 1))
    } else {
        Some(whole)
    }
}

/// The end of a fraction below one that starts at `at`: the digit `0`, a dot,
/// and a non-empty run of digits.
pub open spec fn fraction_end(s: Seq<u8>, at: int) -> Option<int> {
    if 0 <= at && at + 2 < s.len() && s[at] == DIGIT_0 && s[at + 1] == DOT && is_digit(s[at + 2]) {
        Some(digits_end(s, at + 2))
    } else {
        None
    }
}

/// Whether the whole of `text` is a decimal number: digits, with or without
/// a dot and more digits behind it.
pub open spec fn is_decimal(text: Seq<u8>) -> bool {
    decimal_end(text, 0) == Some(text.len() as int)
}

/// Whether the whole of `text` is a fraction below one: the digit `0`, a
/// dot, and at least one digit.
pub open spec fn is_fraction(text: Seq<u8>) -> bool {
    fraction_end(text, 0) == Some(text.len() as int)
}

/// Whether a text can close a decimal number: it is not empty and starts
/// with neither a digit nor a dot.
pub open spec fn closes_decimal(close: Seq<u8>) -> bool {
    close.len() > 0 && !is_digit(close[0]) && close[0] != DOT
}

/// The run of digits from `at` ends within `s`, at or behind `at`, and holds
/// digits only.
pub proof fn lemma_digits_end(s: Seq<u8>, at: int)
    requires
        0 <= at <= s.len(),
    ensures
        at <= digits_end(s, at) <= s.len(),
        all_digits(s.subrange(at, digits_end(s, at))),
        digits_end(s, at) < s.len() ==> !is_digit(s[digits_end(s, at)]),
    decreases s.len() - at,
{
    if at < s.len() && is_digit(s[at]) {
        lemma_digits_end(s, at + 1);
        let end = digits_end(s, at);
        assert forall|i: int| 0 <= i < end - at implies is_digit(
            #[trigger] s.subrange(at, end)[i],
        ) by {
            if i > 0 {
                assert(s.subrange(at, end)[i] == s.subrange(at + 1, end)[i - 1]);
            }
        }
    }
}

/// A run of digits that is followed by no further digit ends where it is
/// seen to end.
pub proof fn lemma_digits_end_of_run(s: Seq<u8>, at: int, end: int)
    requires
        0 <= at <= end <= s.len(),
        all_digits(s.subrange(at, end)),
        end < s.len() ==> !is_digit(s[end]),
    ensures
        digits_end(s, at) == end,
    decreases end - at,
{
    if at < end {
        assert(s.subrange(at, end)[0] == s[at]);
        assert forall|i: int| 0 <= i < end - (at + 1) implies is_digit(
            #[trigger] s.subrange(at + 1, end)[i],
        ) by {
            assert(s.subrange(at + 1, end)[i] == s.subrange(at, end)[i + 1]);
        }
        lemma_digits_end_of_run(s, at + 1, end);
    }
}

/// Within a part of a text, a run of digits ends where it ends in the whole
/// text, or where the part ends, whichever comes first.
pub proof fn lemma_digits_end_in_part(s: Seq<u8>, lo: int, hi: int, at: int)
    requires
        0 <= lo <= at <= hi <= s.len(),
    ensures
        digits_end(s.subrange(lo, hi), at - lo) == (if digits_end(s, at) <= hi {
            digits_end(s, at)
        } else {
            hi
        }) - lo,
    decreases hi - at,
{
    lemma_digits_end(s, at);
    if at < hi {
        assert(s.subrange(lo, hi)[at - lo] == s[at]);
        if is_digit(s[at]) {
            lemma_digits_end_in_part(s, lo, hi, at + 1);
            lemma_digits_end(s, at + 1);
        }
    }
}

/// A run of digits within a part of a text, when it ends before the part
/// does or the part is followed by no digit, ends at the same place in the
/// whole text.
pub proof fn lemma_digits_end_from_part(s: Seq<u8>, lo: int, hi: int, at: int)
    requires
        0 <= lo <= at <= hi <= s.len(),
        hi < s.len() ==> !is_digit(s[hi]),
    ensures
        digits_end(s, at) == lo + digits_end(s.subrange(lo, hi), at - lo),
{
    lemma_digits_end_in_part(s, lo, hi, at);
    lemma_digits_end(s, at);
    let end = digits_end(s, at);
    if end > hi {
        assert(s.subrange(at, end)[hi - at] == s[hi]);
    }
}

/// Where a non-empty run of digits stands at `at`, followed by a separator
/// that starts with no digit, the field there is that run's number, and it
/// ends behind the separator.
pub proof fn lemma_field_matches(s: Seq<u8>, at: int, digits: Seq<u8>, sep: Seq<u8>)
    requires
        digits.len() > 0,
        all_digits(digits),
        sep.len() > 0,
        !is_digit(sep[0]),
        has_literal(s, at, digits + sep),
    ensures
        field(s, at, sep) == Some((decimal_value(digits), at + digits.len() + sep.len())),
{
    reveal(field);
    let end = at + digits.len();
    let whole = s.subrange(at, at + (digits + sep).len());
    assert(whole == digits + sep);
    assert(s.subrange(at, end) =~= whole.subrange(0, digits.len() as int));
    assert(whole.subrange(0, digits.len() as int) =~= digits);
    assert(s[end] == whole[digits.len() as int]);
    assert(s.subrange(end, end + sep.len()) =~= whole.subrange(
        digits.len() as int,
        whole.len() as int,
    ));
    assert(whole.subrange(digits.len() as int, whole.len() as int) =~= sep);
    lemma_digits_end_of_run(s, at, end);
}

/// Where a field stands at `at`, the text there is a non-empty run of digits
/// followed by the separator, and the field's number is the one the run
/// writes.
pub proof fn lemma_field_shape(s: Seq<u8>, at: int, sep: Seq<u8>)
    requires
        0 <= at <= s.len(),
        field(s, at, sep) is Some,
    ensures
        ({
            let digits = s.subrange(at, digits_end(s, at));
            &&& digits.len() > 0
            &&& all_digits(digits)
            &&& has_literal(s, at, digits + sep)
            &&& field(s, at, sep) == Some(
                (decimal_value(digits), at + digits.len() + sep.len()),
            )
        }),
{
    reveal(field);
    lemma_digits_end(s, at);
    let end = digits_end(s, at);
    let digits = s.subrange(at, end);
    assert(s.subrange(at, at + (digits + sep).len()) =~= digits + s.subrange(
        end,
        end + sep.len(),
    ));
}

/// Three fields that start within a text end within it.
pub proof fn lemma_triple_end(s: Seq<u8>, at: int, sep1: Seq<u8>, sep2: Seq<u8>, sep3: Seq<u8>)
    requires
        0 <= at <= s.len(),
        triple(s, at, sep1, sep2, sep3) is Some,
    ensures
        at <= triple(s, at, sep1, sep2, sep3).unwrap().3 <= s.len(),
{
    reveal(triple);
    reveal(field);
    lemma_digits_end(s, at);
    let at2 = field(s, at, sep1).unwrap().1;
    lemma_digits_end(s, at2);
    let at3 = field(s, at2, sep2).unwrap().1;
    lemma_digits_end(s, at3);
}

/// The bytes of a decimal number found in a text are, on their own, a
/// decimal number.
pub proof fn lemma_decimal_token(s: Seq<u8>, at: int)
    requires
        0 <= at <= s.len(),
        decimal_end(s, at) is Some,
    ensures
        at < decimal_end(s, at).unwrap() <= s.len(),
        is_decimal(s.subrange(at, decimal_end(s, at).unwrap())),
{
    let whole = digits_end(s, at);
    let end = decimal_end(s, at).unwrap();
    lemma_digits_end(s, at);
    if end != whole {
        lemma_digits_end(s, whole + 1);
        lemma_digits_end_in_part(s, at, end, whole + 1);
        assert(s.subrange(at, end)[whole - at] == s[whole]);
    }
    lemma_digits_end_in_part(s, at, end, at);
}

/// The bytes of a fraction below one found in a text are, on their own, a
/// fraction below one, and so a decimal number.
pub proof fn lemma_fraction_token(s: Seq<u8>, at: int)
    requires
        0 <= at <= s.len(),
        fraction_end(s, at) is Some,
    ensures
        at < fraction_end(s, at).unwrap() <= s.len(),
        is_decimal(s.subrange(at, fraction_end(s, at).unwrap())),
        is_fraction(s.subrange(at, fraction_end(s, at).unwrap())),
{
    let end = fraction_end(s, at).unwrap();
    let token = s.subrange(at, end);
    lemma_digits_end(s, at + 2);
    lemma_digits_end_in_part(s, at, end, at + 2);
    lemma_digits_end_in_part(s, at, end, at + 1);
    lemma_digits_end_in_part(s, at, end, at);
    assert(token[0] == s[at]);
    assert(token[1] == s[at + 1]);
    assert(digits_end(s, at + 1) == at + 1);
    assert(digits_end(s, at) == at + 1);
}

/// A decimal number that stands at `at`, followed by a text that can close
/// it, is found there whole.
pub proof fn lemma_decimal_stands(s: Seq<u8>, at: int, token: Seq<u8>, close: Seq<u8>)
    requires
        is_decimal(token),
        closes_decimal(close),
        has_literal(s, at, token + close),
    ensures
        decimal_end(s, at) == Some(at + token.len()),
{
    let hi = at + token.len();
    assert(s.subrange(at, at + (token + close).len()) == token + close);
    assert(s.subrange(at, hi) =~= (token + close).subrange(0, token.len() as int));
    assert((token + close).subrange(0, token.len() as int) =~= token);
    assert(s[hi] == (token + close)[token.len() as int]);
    let whole = digits_end(token, 0);
    lemma_digits_end(token, 0);
    lemma_digits_end_from_part(s, at, hi, at);
    if whole < token.len() {
        assert(s[at + whole] == token[whole]);
        lemma_digits_end_from_part(s, at, hi, at + whole + 1);
    }
}

/// A fraction below one that stands at `at`, followed by a text that can
/// close it, is found there whole.
pub proof fn lemma_fraction_stands(s: Seq<u8>, at: int, token: Seq<u8>, close: Seq<u8>)
    requires
        is_fraction(token),
        closes_decimal(close),
        has_literal(s, at, token + close),
    ensures
        fraction_end(s, at) == Some(at + token.len()),
{
    let hi = at + token.len();
    assert(s.subrange(at, at + (token + close).len()) == token + close);
    assert(s.subrange(at, hi) =~= (token + close).subrange(0, token.len() as int));
    assert((token + close).subrange(0, token.len() as int) =~= token);
    assert(s[hi] == (token + close)[token.len() as int]);
    lemma_digits_end(token, 2);
    assert(s[at] == token[0]);
    assert(s[at + 1] == token[1]);
    assert(s[at + 2] == token[2]);
    lemma_digits_end_from_part(s, at, hi, at + 2);
}

/// Finds the end of the run of digits that starts at `at`.
pub fn scan_digits(s: &[u8], at: usize) -> (end: usize)
    ensures
        end == digits_end(s@, at as int),
        at <= s@.len() ==> at <= end <= s@.len() && all_digits(s@.subrange(at as int, end as int)),
        end < s@.len() ==> !is_digit(s@[end as int]),
{
    if at > s.len() {
        return at;
    }
    let mut i: usize = at;
    while i < s.len() && DIGIT_0 <= s[i] && s[i] <= DIGIT_9
        invariant
            at <= i <= s@.len(),
            digits_end(s@, at as int) == digits_end(s@, i as int),
        decreases s@.len() - i,
    {
        i = i + 1;
    }
    proof {
        lemma_digits_end(s@, at as int);
    }
    i
}

/// Tells whether `lit` stands in `s` from `at` on.
pub fn at_literal(s: &[u8], at: usize, lit: &[u8]) -> (r: bool)
    ensures
        r == has_literal(s@, at as int, lit@),
{
    if at > s.len() || lit.len() > s.len() - at {
        return false;
    }
    let mut k: usize = 0;
    while k < lit.len()
        invariant
            at + lit@.len() <= s@.len() <= usize::MAX,
            k <= lit@.len(),
            forall|j: int| 0 <= j < k ==> s@[at + j] == #[trigger] lit@[j],
        decreases lit@.len() - k,
    {
        if s[at + k] != lit[k] {
            proof {
                assert(s@.subrange(at as int, at + lit@.len())[k as int] == s@[at + k]);
            }
            return false;
        }
        k = k + 1;
    }
    proof {
        assert(s@.subrange(at as int, at + lit@.len()) =~= lit@);
    }
    true
}

/// Reads one field at `at`: its number, where that is at most `max`, and the
/// position behind `sep`. `None` where no field stands there or its number
/// is above `max`.
pub fn read_field(s: &[u8], at: usize, sep: &[u8], max: u32) -> (r: Option<(u32, usize)>)
    ensures
        r == match field(s@, at as int, sep@) {
            Some((v, next)) => if v <= max {
                Some((v as u32, next as usize))
            } else {
                None
            },
            None => None,
        },
        r.is_some() ==> r.unwrap().1 <= s@.len() && r.unwrap().1 == field(
            s@,
            at as int,
            sep@,
        ).unwrap().1,
{
    proof {
        reveal(field);
    }
    let limit = s.len();
    let end = scan_digits(s, at);
    if end == at || !at_literal(s, end, sep) {
        return None;
    }
    assert(end + sep@.len() <= limit);
    match decimal_bounded(slice_subrange(s, at, end), max) {
        Some(v) => Some((v, end + sep.len())),
        None => None,
    }
}

/// Reads three fields in a row from `at` on: their numbers, where each is at
/// most `max`, and the position behind the third separator.
pub fn read_triple(s: &[u8], at: usize, sep1: &[u8], sep2: &[u8], sep3: &[u8], max: u32) -> (r:
    Option<(u32, u32, u32, usize)>)
    ensures
        r == match triple(s@, at as int, sep1@, sep2@, sep3@) {
            Some((a, b, c, next)) => if a <= max && b <= max && c <= max {
                Some((a as u32, b as u32, c as u32, next as usize))
            } else {
                None
            },
            None => None,
        },
        r.is_some() ==> r.unwrap().3 <= s@.len() && r.unwrap().3 == triple(
            s@,
            at as int,
            sep1@,
            sep2@,
            sep3@,
        ).unwrap().3,
{
    proof {
        reveal(triple);
        reveal(field);
    }
    let limit = s.len();
    let end1 = scan_digits(s, at);
    if end1 == at || !at_literal(s, end1, sep1) {
        return None;
    }
    assert(end1 + sep1@.len() <= limit);
    let at2 = end1 + sep1.len();
    let end2 = scan_digits(s, at2);
    if end2 == at2 || !at_literal(s, end2, sep2) {
        return None;
    }
    assert(end2 + sep2@.len() <= limit);
    let at3 = end2 + sep2.len();
    let end3 = scan_digits(s, at3);
    if end3 == at3 || !at_literal(s, end3, sep3) {
        return None;
    }
    assert(end3 + sep3@.len() <= limit);
    let a = decimal_bounded(slice_subrange(s, at, end1), max);
    let b = decimal_bounded(slice_subrange(s, at2, end2), max);
    let c = decimal_bounded(slice_subrange(s, at3, end3), max);
    match (a, b, c) {
        (Some(a), Some(b), Some(c)) => Some((a, b, c, end3 + sep3.len())),
        _ => None,
    }
}

/// Finds the end of the decimal number that starts at `at`, if one does.
pub fn scan_decimal(s: &[u8], at: usize) -> (r: Option<usize>)
    ensures
        decimal_end(s@, at as int) == match r {
            Some(end) => Some(end as int),
            None => None,
        },
        r.is_some() ==> at < r.unwrap() <= s@.len(),
{
    let whole = scan_digits(s, at);
    if whole == at {
        return None;
    }
    if whole < s.len() && s[whole] == DOT {
        let end = scan_digits(s, whole + 1);
        if end > whole + 1 {
            return Some(end);
        }
    }
    Some(whole)
}

/// Finds the end of the fraction below one that starts at `at`, if one does.
pub fn scan_fraction(s: &[u8], at: usize) -> (r: Option<usize>)
    ensures
        fraction_end(s@, at as int) == match r {
            Some(end) => Some(end as int),
            None => None,
        },
        r.is_some() ==> at < r.unwrap() <= s@.len(),
{
    if at > s.len() || s.len() - at < 3 {
        return None;
    }
    if s[at] != DIGIT_0 || s[at + 1] != DOT {
        return None;
    }
    let end = scan_digits(s, at + 2);
    if end == at + 2 {
        return None;
    }
    Some(end)
}

} // verus!
