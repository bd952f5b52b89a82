use vstd::prelude::*;

verus! {

/// ASCII `0`.
pub const DIGIT_0: u8 = 48;

/// ASCII `9`.
pub const DIGIT_9: u8 = 57;

/// ASCII `A`.
pub const UPPER_A: u8 = 65;

/// ASCII `F`.
pub const UPPER_F: u8 = 70;

/// ASCII `a`.
pub const LOWER_A: u8 = 97;

/// ASCII `f`.
pub const LOWER_F: u8 = 102;

/// Whether `b` is one of the ASCII digits `0` to `9`.
pub open spec fn is_digit(b: u8) -> bool {
    DIGIT_0 <= b <= DIGIT_9
}

/// Whether every byte of `s` is an ASCII digit.
pub open spec fn all_digits(s: Seq<u8>) -> bool {
    forall|i: int| 0 <= i < s.len() ==> is_digit(#[trigger] s[i])
}

/// The number that a sequence of ASCII digits writes in base ten, most
/// significant digit first. The empty sequence writes zero.
pub open spec fn decimal_value(s: Seq<u8>) -> nat
    decreases s.len(),
{
    if s.len() == 0 {
        0
    } else {
        decimal_value(s.drop_last()) * 10 + (s.last() - DIGIT_0) as nat
    }
}

/// The value of one hexadecimal digit, in either case; `None` for any other
/// byte.
pub open spec fn hex_value(b: u8) -> Option<u8> {
    if DIGIT_0 <= b <= DIGIT_9 {
        Some((b - DIGIT_0) as u8)
    } else if LOWER_A <= b <= LOWER_F {
        Some((b - LOWER_A + 10) as u8)
    } else if UPPER_A <= b <= UPPER_F {
        Some((b - UPPER_A + 10) as u8)
    } else {
        None
    }
}

/// The byte that a hexadecimal token writes. The token is doubled first, so
/// that a single digit `f` stands for `ff`; the first two bytes of the doubled
/// token are then read as one hexadecimal pair.
pub open spec fn hex_token_value(token: Seq<u8>) -> Option<u8> {
    let doubled = token + token;
    if doubled.len() >= 2 {
        match (hex_value(doubled[0]), hex_value(doubled[1])) {
            (Some(hi), Some(lo)) => Some((hi * 16 + lo) as u8),
            _ => None,
        }
    } else {
        None
    }
}

/// The byte that a decimal token writes: the token is a non-empty run of
/// digits whose value is at most 255. Leading zeros are allowed.
pub open spec fn decimal_token_value(token: Seq<u8>) -> Option<u8> {
    if token.len() > 0 && all_digits(token) && decimal_value(token) <= 255 {
        Some(decimal_value(token) as u8)
    } else {
        None
    }
}

/// A prefix of a run of digits never writes a larger number than the run.
pub proof fn lemma_decimal_value_prefix(s: Seq<u8>, k: int)
    requires
        all_digits(s),
        0 <= k <= s.len(),
    ensures
        decimal_value(s.take(k)) <= decimal_value(s),
    decreases s.len() - k,
{
    if k < s.len() {
        lemma_decimal_value_prefix(s, k + 1);
        assert(s.take(k + 1).drop_last() =~= s.take(k));
    } else {
        assert(s.take(k) =~= s);
    }
}

/// Decodes one hexadecimal digit.
pub fn hex_digit(b: u8) -> (r: Option<u8>)
    ensures
        r == hex_value(b),
{
    if DIGIT_0 <= b && b <= DIGIT_9 {
        Some(b - DIGIT_0)
    } else if LOWER_A <= b && b <= LOWER_F {
        Some(b - LOWER_A + 10)
    } else if UPPER_A <= b && b <= UPPER_F {
        Some(b - UPPER_A + 10)
    } else {
        None
    }
}

/// Reads a run of digits as a number in base ten. Returns the number where
/// every byte is a digit and the number is at most `max`; `None` where a byte
/// is no digit or the number is larger. The empty run writes zero.
pub fn decimal_bounded(digits: &[u8], max: u32) -> (r: Option<u32>)
    ensures
        r == if all_digits(digits@) && decimal_value(digits@) <= max {
            Some(decimal_value(digits@) as u32)
        } else {
            None
        },
{
    let mut i: usize = 0;
    while i < digits.len()
        invariant
            i <= digits@.len(),
            forall|j: int| 0 <= j < i ==> is_digit(#[trigger] digits@[j]),
        decreases digits@.len() - i,
    {
        if !(DIGIT_0 <= digits[i] && digits[i] <= DIGIT_9) {
            return None;
        }
        i = i + 1;
    }
    let mut acc: u64 = 0;
    let mut k: usize = 0;
    proof {
        assert(digits@.take(0) =~= Seq::<u8>::empty());
    }
    while k < digits.len()
        invariant
            k <= digits@.len(),
            all_digits(digits@),
            acc == decimal_value(digits@.take(k as int)),
            acc <= max,
        decreases digits@.len() - k,
    {
        let b = digits[k];
        proof {
            assert(is_digit(digits@[k as int]));
            assert(digits@.take(k + 1).drop_last() =~= digits@.take(k as int));
            assert(digits@.take(k + 1).last() == b);
        }
        let next: u64 = acc * 10 + (b - DIGIT_0) as u64;
        if next > max as u64 {
            proof {
                lemma_decimal_value_prefix(digits@, k + 1);
            }
            return None;
        }
        acc = next;
        k = k + 1;
    }
    proof {
        assert(digits@.take(digits@.len() as int) =~= digits@);
    }
    Some(acc as u32)
}

/// Decodes a hexadecimal token to a byte: one digit doubled, or the first two
/// digits of a longer token. `None` where the token is empty or one of the two
/// digits read is no hexadecimal digit.
pub fn match_to_num(token: &[u8]) -> (r: Option<u8>)
    ensures
        r == hex_token_value(token@),
{
    if token.len() == 0 {
        return None;
    }
    let first = token[0];
    let second = if token.len() >= 2 {
        token[1]
    } else {
        token[0]
    };
    match (hex_digit(first), hex_digit(second)) {
        (Some(hi), Some(lo)) => Some(hi * 16 + lo),
        _ => None,
    }
}

/// Decodes a decimal token to a byte. `None` where the token is empty, holds
/// anything but digits, or writes a number above 255.
pub fn match_to_num2(token: &[u8]) -> (r: Option<u8>)
    ensures
        r == decimal_token_value(token@),
{
    if token.len() == 0 {
        return None;
    }
    match decimal_bounded(token, 255) {
        Some(v) => Some(v as u8),
        None => None,
    }
}

} // verus!
