use vstd::prelude::*;
use vstd::string::StringSliceAdditionalSpecFns;
use vstd::utf8::{encode_utf8, is_ascii_chars, is_ascii_chars_encode_utf8};
use crate::channels::{decimal_text, digit_char, hex_pair, Channels};
use crate::digits::{
    all_digits, decimal_value, hex_token_value, hex_value, is_digit, LOWER_A, LOWER_F,
};
use crate::error::ColorError;
use crate::grammar::{
    decimal_end, digits_end, fraction_end, has_literal, is_decimal, is_fraction,
    lemma_decimal_stands, lemma_decimal_token, lemma_field_matches, lemma_field_shape,
    lemma_fraction_stands, lemma_fraction_token, triple,
};
use crate::notation::{
    cmyk_notation, hex_alpha_notation, hex_notation, hsl_notation, hsla_notation, hsv_notation,
    in_range, notation, rgb_notation, rgba_notation, without_spaces, AlphaView, Components,
    NotationView, HASH, SPACE,
};

verus! {

/// The bytes of a text of ASCII characters, one byte for each character.
pub open spec fn ascii_bytes(chars: Seq<char>) -> Seq<u8> {
    Seq::new(chars.len(), |i: int| chars[i] as u8)
}

/// The bytes of two texts written one behind the other are the bytes of the
/// first followed by those of the second.
pub proof fn lemma_ascii_bytes_concat(x: Seq<char>, y: Seq<char>)
    ensures
        ascii_bytes(x + y) == ascii_bytes(x) + ascii_bytes(y),
{
    assert(ascii_bytes(x + y) =~= ascii_bytes(x) + ascii_bytes(y));
}

/// The bytes of the literals that the notations are made of.
pub proof fn lemma_literal_bytes()
    ensures
        ",".spec_bytes() == seq![44u8],
        ")".spec_bytes() == seq![41u8],
        "%,".spec_bytes() == seq![37u8, 44u8],
        "%)".spec_bytes() == seq![37u8, 41u8],
        "rgb(".spec_bytes() == seq![114u8, 103u8, 98u8, 40u8],
        "rgba(".spec_bytes() == seq![114u8, 103u8, 98u8, 97u8, 40u8],
        "hsl(".spec_bytes() == seq![104u8, 115u8, 108u8, 40u8],
        "hsla".spec_bytes() == seq![104u8, 115u8, 108u8, 97u8],
        "hsla(".spec_bytes() == seq![104u8, 115u8, 108u8, 97u8, 40u8],
        "hsv(".spec_bytes() == seq![104u8, 115u8, 118u8, 40u8],
        "cmyk(".spec_bytes() == seq![99u8, 109u8, 121u8, 107u8, 40u8],
{
    lemma_separator_bytes();
    lemma_opening_bytes();
}

/// The bytes of the separators.
proof fn lemma_separator_bytes()
    ensures
        ",".spec_bytes() == seq![44u8],
        ")".spec_bytes() == seq![41u8],
        "%,".spec_bytes() == seq![37u8, 44u8],
        "%)".spec_bytes() == seq![37u8, 41u8],
{
    reveal_strlit(",");
    reveal_strlit(")");
    reveal_strlit("%,");
    reveal_strlit("%)");
    assert(is_ascii_chars(","@));
    assert(is_ascii_chars(")"@));
    assert(is_ascii_chars("%,"@));
    assert(is_ascii_chars("%)"@));
    is_ascii_chars_encode_utf8(","@);
    is_ascii_chars_encode_utf8(")"@);
    is_ascii_chars_encode_utf8("%,"@);
    is_ascii_chars_encode_utf8("%)"@);
    assert(",".spec_bytes() =~= seq![44u8]);
    assert(")".spec_bytes() =~= seq![41u8]);
    assert("%,".spec_bytes() =~= seq![37u8, 44u8]);
    assert("%)".spec_bytes() =~= seq![37u8, 41u8]);
}

/// The bytes of the openings.
proof fn lemma_opening_bytes()
    ensures
        "rgb(".spec_bytes() == seq![114u8, 103u8, 98u8, 40u8],
        "rgba(".spec_bytes() == seq![114u8, 103u8, 98u8, 97u8, 40u8],
        "hsl(".spec_bytes() == seq![104u8, 115u8, 108u8, 40u8],
        "hsla".spec_bytes() == seq![104u8, 115u8, 108u8, 97u8],
        "hsla(".spec_bytes() == seq![104u8, 115u8, 108u8, 97u8, 40u8],
        "hsv(".spec_bytes() == seq![104u8, 115u8, 118u8, 40u8],
        "cmyk(".spec_bytes() == seq![99u8, 109u8, 121u8, 107u8, 40u8],
{
    reveal_strlit("rgb(");
    reveal_strlit("rgba(");
    reveal_strlit("hsl(");
    reveal_strlit("hsla");
    reveal_strlit("hsla(");
    reveal_strlit("hsv(");
    reveal_strlit("cmyk(");
    assert(is_ascii_chars("rgb("@));
    assert(is_ascii_chars("rgba("@));
    assert(is_ascii_chars("hsl("@));
    assert(is_ascii_chars("hsla"@));
    assert(is_ascii_chars("hsla("@));
    assert(is_ascii_chars("hsv("@));
    assert(is_ascii_chars("cmyk("@));
    is_ascii_chars_encode_utf8("rgb("@);
    is_ascii_chars_encode_utf8("rgba("@);
    is_ascii_chars_encode_utf8("hsl("@);
    is_ascii_chars_encode_utf8("hsla"@);
    is_ascii_chars_encode_utf8("hsla("@);
    is_ascii_chars_encode_utf8("hsv("@);
    is_ascii_chars_encode_utf8("cmyk("@);
    assert("rgb(".spec_bytes() =~= seq![114u8, 103u8, 98u8, 40u8]);
    assert("rgba(".spec_bytes() =~= seq![114u8, 103u8, 98u8, 97u8, 40u8]);
    assert("hsl(".spec_bytes() =~= seq![104u8, 115u8, 108u8, 40u8]);
    assert("hsla".spec_bytes() =~= seq![104u8, 115u8, 108u8, 97u8]);
    assert("hsla(".spec_bytes() =~= seq![104u8, 115u8, 108u8, 97u8, 40u8]);
    assert("hsv(".spec_bytes() =~= seq![104u8, 115u8, 118u8, 40u8]);
    assert("cmyk(".spec_bytes() =~= seq![99u8, 109u8, 121u8, 107u8, 40u8]);
}

/// A text stands at the start of `t` exactly where `t` is long enough and
/// holds its bytes one by one.
pub proof fn lemma_prefix_bytes(t: Seq<u8>, lit: Seq<u8>)
    ensures
        has_literal(t, 0, lit) <==> lit.len() <= t.len() && forall|i: int|
            0 <= i < lit.len() ==> t[i] == lit[i],
{
    if has_literal(t, 0, lit) {
        assert forall|i: int| 0 <= i < lit.len() implies t[i] == lit[i] by {
            assert(t.subrange(0, lit.len() as int)[i] == t[i]);
        }
    }
    if lit.len() <= t.len() && forall|i: int| 0 <= i < lit.len() ==> t[i] == lit[i] {
        assert(t.subrange(0, lit.len() as int) =~= lit);
    }
}

/// A text stands at `at` exactly where its first part stands there and its
/// second part stands behind the first.
pub proof fn lemma_literal_split(s: Seq<u8>, at: int, x: Seq<u8>, y: Seq<u8>)
    ensures
        has_literal(s, at, x + y) <==> has_literal(s, at, x) && has_literal(s, at + x.len(), y),
{
    if has_literal(s, at, x + y) {
        let whole = s.subrange(at, at + (x + y).len());
        assert(s.subrange(at, at + x.len()) =~= whole.subrange(0, x.len() as int));
        assert(whole.subrange(0, x.len() as int) =~= x);
        assert(s.subrange(at + x.len(), at + x.len() + y.len()) =~= whole.subrange(
            x.len() as int,
            whole.len() as int,
        ));
        assert(whole.subrange(x.len() as int, whole.len() as int) =~= y);
    }
    if has_literal(s, at, x) && has_literal(s, at + x.len(), y) {
        assert(s.subrange(at, at + (x + y).len()) =~= s.subrange(at, at + x.len()) + s.subrange(
            at + x.len(),
            at + x.len() + y.len(),
        ));
    }
}

/// In a text made of three parts, each part stands where the parts before
/// it end.
pub proof fn lemma_parts_stand(x: Seq<u8>, y: Seq<u8>, z: Seq<u8>)
    ensures
        has_literal(x + y + z, 0, x),
        has_literal(x + y + z, x.len() as int, y),
        has_literal(x + y + z, (x.len() + y.len()) as int, z),
        (x + y + z).len() == x.len() + y.len() + z.len(),
{
    let s = x + y + z;
    assert(s.subrange(0, x.len() as int) =~= x);
    assert(s.subrange(x.len() as int, (x.len() + y.len()) as int) =~= y);
    assert(s.subrange((x.len() + y.len()) as int, (x.len() + y.len() + z.len()) as int) =~= z);
}

/// A hexadecimal letter has the same value in lower and in upper case.
pub proof fn lemma_hex_letter_case(b: u8)
    requires
        LOWER_A <= b <= LOWER_F,
    ensures
        hex_value(b) == hex_value((b - 32) as u8),
        hex_value(b) is Some,
{
}

/// A short hex code reads as the long one in which each digit stands twice.
pub proof fn lemma_short_hex_doubles(x: u8, y: u8, z: u8)
    ensures
        hex_notation(seq![HASH, x, y, z]) == hex_notation(seq![HASH, x, x, y, y, z, z]),
{
    let short = seq![HASH, x, y, z];
    let long = seq![HASH, x, x, y, y, z, z];
    assert(short.subrange(1, 2) + short.subrange(1, 2) =~= seq![x, x]);
    assert(short.subrange(2, 3) + short.subrange(2, 3) =~= seq![y, y]);
    assert(short.subrange(3, 4) + short.subrange(3, 4) =~= seq![z, z]);
    assert(long.subrange(1, 3) + long.subrange(1, 3) =~= seq![x, x, x, x]);
    assert(long.subrange(3, 5) + long.subrange(3, 5) =~= seq![y, y, y, y]);
    assert(long.subrange(5, 7) + long.subrange(5, 7) =~= seq![z, z, z, z]);
}

/// A text that starts with a hash sign is read as a hex code, chosen by its
/// length alone; with any length but 4, 7 and 9 it is a format error.
pub proof fn lemma_hash_dispatch(s: Seq<u8>)
    requires
        s.len() > 0,
        s[0] == HASH,
    ensures
        notation(s) == if s.len() == 4 || s.len() == 7 {
            hex_notation(s)
        } else if s.len() == 9 {
            hex_alpha_notation(s)
        } else {
            Err::<NotationView, ColorError>(ColorError::Format)
        },
{
}

/// A digit below sixteen is written by an ASCII character that reads back as
/// the same digit.
pub proof fn lemma_digit_char_reads_back(n: u8)
    requires
        n < 16,
    ensures
        digit_char(n) <= '\u{7f}',
        hex_value(digit_char(n) as u8) == Some(n),
{
}

/// The two hexadecimal digits of a byte, read as a token, give the byte.
pub proof fn lemma_hex_pair_reads_back(b: u8, token: Seq<u8>)
    requires
        token.len() == 2,
        token[0] == hex_pair(b)[0] as u8,
        token[1] == hex_pair(b)[1] as u8,
    ensures
        hex_token_value(token) == Some(b),
{
    lemma_digit_char_reads_back(b / 16);
    lemma_digit_char_reads_back(b % 16);
    let doubled = token + token;
    assert(doubled[0] == token[0]);
    assert(doubled[1] == token[1]);
}

/// The bytes of the two hexadecimal digits of `b`, at `at` in a text of
/// ASCII characters, read back as `b`.
pub proof fn lemma_pair_in_text(text: Seq<char>, at: int, b: u8)
    requires
        is_ascii_chars(text),
        0 <= at,
        at + 2 <= text.len(),
        text[at] == hex_pair(b)[0],
        text[at + 1] == hex_pair(b)[1],
    ensures
        hex_token_value(encode_utf8(text).subrange(at, at + 2)) == Some(b),
{
    is_ascii_chars_encode_utf8(text);
    let s = encode_utf8(text);
    assert(s[at] == text[at] as u8);
    assert(s[at + 1] == text[at + 1] as u8);
    lemma_hex_pair_reads_back(b, s.subrange(at, at + 2));
}

/// The `#RRGGBB` and `#RRGGBBAA` texts are made of ASCII characters.
pub proof fn lemma_hex_text_is_ascii(c: Channels, alpha: u8)
    ensures
        is_ascii_chars(c.hex_text()),
        is_ascii_chars(c.hex_alpha_text(alpha)),
        c.hex_text().len() == 7,
        c.hex_alpha_text(alpha).len() == 9,
        encode_utf8(c.hex_text())[0] == HASH,
        encode_utf8(c.hex_alpha_text(alpha))[0] == HASH,
{
    lemma_digit_char_reads_back(c.red / 16);
    lemma_digit_char_reads_back(c.red % 16);
    lemma_digit_char_reads_back(c.green / 16);
    lemma_digit_char_reads_back(c.green % 16);
    lemma_digit_char_reads_back(c.blue / 16);
    lemma_digit_char_reads_back(c.blue % 16);
    lemma_digit_char_reads_back(alpha / 16);
    lemma_digit_char_reads_back(alpha % 16);
    assert(is_ascii_chars(c.hex_text()));
    assert(is_ascii_chars(c.hex_alpha_text(alpha)));
    is_ascii_chars_encode_utf8(c.hex_text());
    is_ascii_chars_encode_utf8(c.hex_alpha_text(alpha));
    assert(c.hex_text()[0] == '#');
    assert(c.hex_alpha_text(alpha)[0] == '#');
}

/// Round trip: the `#RRGGBB` text of any channels is recognized, by the hex
/// recognizer and by the general one, as those channels, opaque.
pub proof fn lemma_hex_round_trip(c: Channels)
    ensures
        hex_notation(encode_utf8(c.hex_text())) == Ok::<NotationView, ColorError>(
            NotationView { components: Components::Rgb(c), alpha: AlphaView::Opaque },
        ),
        notation(encode_utf8(c.hex_text())) == hex_notation(encode_utf8(c.hex_text())),
{
    let text = c.hex_text();
    lemma_hex_text_is_ascii(c, 0);
    is_ascii_chars_encode_utf8(text);
    lemma_pair_in_text(text, 1, c.red);
    lemma_pair_in_text(text, 3, c.green);
    lemma_pair_in_text(text, 5, c.blue);
    lemma_hash_dispatch(encode_utf8(text));
}

/// Round trip: the `#RRGGBBAA` text of any channels and opacity byte is
/// recognized as those channels with that opacity.
pub proof fn lemma_hex_alpha_round_trip(c: Channels, alpha: u8)
    ensures
        hex_alpha_notation(encode_utf8(c.hex_alpha_text(alpha))) == Ok::<NotationView, ColorError>(
            NotationView { components: Components::Rgb(c), alpha: AlphaView::Byte(alpha) },
        ),
        notation(encode_utf8(c.hex_alpha_text(alpha))) == hex_alpha_notation(
            encode_utf8(c.hex_alpha_text(alpha)),
        ),
{
    let text = c.hex_alpha_text(alpha);
    lemma_hex_text_is_ascii(c, alpha);
    is_ascii_chars_encode_utf8(text);
    lemma_pair_in_text(text, 1, c.red);
    lemma_pair_in_text(text, 3, c.green);
    lemma_pair_in_text(text, 5, c.blue);
    lemma_pair_in_text(text, 7, alpha);
    lemma_hash_dispatch(encode_utf8(text));
}

/// Whether a byte is anything but a space.
pub open spec fn not_space() -> spec_fn(u8) -> bool {
    |b: u8| b != SPACE
}

/// Dropping the spaces keeps, in their order, exactly the bytes that are no
/// space.
pub proof fn lemma_without_spaces_is_filter(s: Seq<u8>)
    ensures
        without_spaces(s) == s.filter(not_space()),
    decreases s.len(),
{
    reveal(Seq::filter);
    if s.len() > 0 {
        lemma_without_spaces_is_filter(s.drop_last());
    }
}

/// A text without space bytes loses nothing when its spaces are dropped.
pub proof fn lemma_nothing_to_strip(s: Seq<u8>)
    requires
        forall|i: int| 0 <= i < s.len() ==> s[i] != SPACE,
    ensures
        without_spaces(s) == s,
    decreases s.len(),
{
    if s.len() > 0 {
        lemma_nothing_to_strip(s.drop_last());
        assert(s.drop_last().push(s.last()) =~= s);
    }
}

/// Two texts without spaces, written one behind the other, hold no space.
pub proof fn lemma_no_space_concat(x: Seq<u8>, y: Seq<u8>)
    requires
        forall|i: int| 0 <= i < x.len() ==> x[i] != SPACE,
        forall|i: int| 0 <= i < y.len() ==> y[i] != SPACE,
    ensures
        forall|i: int| 0 <= i < (x + y).len() ==> (x + y)[i] != SPACE,
{
    assert forall|i: int| 0 <= i < (x + y).len() implies (x + y)[i] != SPACE by {
        if i >= x.len() {
            assert((x + y)[i] == y[i - x.len()]);
        }
    }
}

/// Two texts that do not start with a hash sign and differ in their spaces
/// only are read alike.
pub proof fn lemma_spaces_are_ignored(s: Seq<u8>, t: Seq<u8>)
    requires
        s.len() == 0 || s[0] != HASH,
        t.len() == 0 || t[0] != HASH,
        without_spaces(s) == without_spaces(t),
    ensures
        notation(s) == notation(t),
{
}

/// A text that does not start with a hash sign is read, once its spaces are
/// dropped, by the recognizer whose opening it has; with none of the
/// openings it is a format error.
pub proof fn lemma_dispatch(s: Seq<u8>)
    requires
        s.len() == 0 || s[0] != HASH,
    ensures
        ({
            let t = without_spaces(s);
            let hsla = has_literal(t, 0, "hsla".spec_bytes());
            &&& has_literal(t, 0, "rgb(".spec_bytes()) ==> notation(s) == rgb_notation(t)
            &&& has_literal(t, 0, "rgba(".spec_bytes()) ==> notation(s) == rgba_notation(t)
            &&& has_literal(t, 0, "hsl(".spec_bytes()) ==> notation(s) == hsl_notation(t)
            &&& hsla ==> notation(s) == hsla_notation(t)
            &&& has_literal(t, 0, "hsla(".spec_bytes()) ==> hsla
            &&& hsla && !has_literal(t, 0, "hsla(".spec_bytes()) ==> notation(s) == Err::<
                NotationView,
                ColorError,
            >(ColorError::Format)
            &&& has_literal(t, 0, "hsv(".spec_bytes()) ==> notation(s) == hsv_notation(t)
            &&& has_literal(t, 0, "cmyk(".spec_bytes()) ==> notation(s) == cmyk_notation(t)
            &&& !has_literal(t, 0, "rgb(".spec_bytes()) && !has_literal(t, 0, "rgba(".spec_bytes())
                && !has_literal(t, 0, "hsl(".spec_bytes()) && !hsla && !has_literal(
                t,
                0,
                "hsv(".spec_bytes(),
            ) && !has_literal(t, 0, "cmyk(".spec_bytes()) ==> notation(s) == Err::<
                NotationView,
                ColorError,
            >(ColorError::Format)
        }),
{
    let t = without_spaces(s);
    lemma_literal_bytes();
    lemma_prefix_bytes(t, "rgb(".spec_bytes());
    lemma_prefix_bytes(t, "rgba(".spec_bytes());
    lemma_prefix_bytes(t, "hsl(".spec_bytes());
    lemma_prefix_bytes(t, "hsla".spec_bytes());
    lemma_prefix_bytes(t, "hsla(".spec_bytes());
    lemma_prefix_bytes(t, "hsv(".spec_bytes());
    lemma_prefix_bytes(t, "cmyk(".spec_bytes());
}

/// A number as it is written: a non-empty run of ASCII digits.
pub open spec fn is_number(a: Seq<u8>) -> bool {
    a.len() > 0 && all_digits(a)
}

/// Whether a separator can close a number: it is not empty and starts with
/// no digit.
pub open spec fn closes_number(sep: Seq<u8>) -> bool {
    sep.len() > 0 && !is_digit(sep[0])
}

/// No byte of a number is a space.
pub proof fn lemma_number_has_no_space(a: Seq<u8>)
    requires
        is_number(a),
    ensures
        forall|i: int| 0 <= i < a.len() ==> a[i] != SPACE,
{
    assert forall|i: int| 0 <= i < a.len() implies a[i] != SPACE by {
        assert(is_digit(a[i]));
    }
}

/// Three numbers written one behind the other, each closed by its separator,
/// are read as three fields with those numbers.
pub proof fn lemma_triple_matches(
    s: Seq<u8>,
    at: int,
    a: Seq<u8>,
    sep1: Seq<u8>,
    b: Seq<u8>,
    sep2: Seq<u8>,
    c: Seq<u8>,
    sep3: Seq<u8>,
)
    requires
        is_number(a),
        is_number(b),
        is_number(c),
        closes_number(sep1),
        closes_number(sep2),
        closes_number(sep3),
        has_literal(s, at, a + sep1 + b + sep2 + c + sep3),
    ensures
        triple(s, at, sep1, sep2, sep3) == Some(
            (
                decimal_value(a),
                decimal_value(b),
                decimal_value(c),
                at + a.len() + sep1.len() + b.len() + sep2.len() + c.len() + sep3.len(),
            ),
        ),
{
    reveal(triple);
    let first = a + sep1;
    let second = b + sep2;
    let third = c + sep3;
    assert(a + sep1 + b + sep2 + c + sep3 =~= first + (second + third));
    lemma_literal_split(s, at, first, second + third);
    lemma_literal_split(s, at + first.len(), second, third);
    lemma_field_matches(s, at, a, sep1);
    lemma_field_matches(s, at + first.len(), b, sep2);
    lemma_field_matches(s, at + first.len() + second.len(), c, sep3);
}

/// Where three fields are read, the text there is three numbers written one
/// behind the other, each closed by its separator.
pub proof fn lemma_triple_shape(s: Seq<u8>, at: int, sep1: Seq<u8>, sep2: Seq<u8>, sep3: Seq<u8>)
    requires
        0 <= at <= s.len(),
        triple(s, at, sep1, sep2, sep3) is Some,
    ensures
        exists|a: Seq<u8>, b: Seq<u8>, c: Seq<u8>|
            {
                &&& is_number(a)
                &&& is_number(b)
                &&& is_number(c)
                &&& #[trigger] has_literal(s, at, a + sep1 + b + sep2 + c + sep3)
                &&& triple(s, at, sep1, sep2, sep3) == Some(
                    (
                        decimal_value(a),
                        decimal_value(b),
                        decimal_value(c),
                        at + a.len() + sep1.len() + b.len() + sep2.len() + c.len() + sep3.len(),
                    ),
                )
            },
{
    reveal(triple);
    lemma_field_shape(s, at, sep1);
    let a = s.subrange(at, digits_end(s, at));
    let at2 = at + a.len() + sep1.len();
    lemma_field_shape(s, at2, sep2);
    let b = s.subrange(at2, digits_end(s, at2));
    let at3 = at2 + b.len() + sep2.len();
    lemma_field_shape(s, at3, sep3);
    let c = s.subrange(at3, digits_end(s, at3));
    let first = a + sep1;
    let second = b + sep2;
    let third = c + sep3;
    lemma_literal_split(s, at2, second, third);
    lemma_literal_split(s, at, first, second + third);
    assert(a + sep1 + b + sep2 + c + sep3 =~= first + (second + third));
}

/// A text made of an opening, three numbers with their separators, and a
/// tail opens with that opening, goes on with three fields that hold those
/// numbers, and has the tail behind them.
pub proof fn lemma_opened_triple_matches(
    open: Seq<u8>,
    a: Seq<u8>,
    sep1: Seq<u8>,
    b: Seq<u8>,
    sep2: Seq<u8>,
    c: Seq<u8>,
    sep3: Seq<u8>,
    tail: Seq<u8>,
)
    requires
        is_number(a),
        is_number(b),
        is_number(c),
        closes_number(sep1),
        closes_number(sep2),
        closes_number(sep3),
    ensures
        ({
            let s = open + (a + sep1 + b + sep2 + c + sep3) + tail;
            &&& has_literal(s, 0, open)
            &&& triple(s, open.len() as int, sep1, sep2, sep3) == Some(
                (decimal_value(a), decimal_value(b), decimal_value(c), s.len() - tail.len()),
            )
            &&& has_literal(s, s.len() - tail.len(), tail)
        }),
{
    let rest = a + sep1 + b + sep2 + c + sep3;
    let s = open + rest + tail;
    assert(rest.len() == a.len() + sep1.len() + b.len() + sep2.len() + c.len() + sep3.len());
    lemma_parts_stand(open, rest, tail);
    assert(has_literal(s, open.len() as int, a + sep1 + b + sep2 + c + sep3));
    lemma_triple_matches(s, open.len() as int, a, sep1, b, sep2, c, sep3);
    assert(s.len() - tail.len() == open.len() + rest.len());
}

/// A text that opens with `open` and goes on with three fields is, up to
/// the end of the third, `open` followed by three numbers and their
/// separators.
pub proof fn lemma_opened_triple_shape(
    s: Seq<u8>,
    open: Seq<u8>,
    sep1: Seq<u8>,
    sep2: Seq<u8>,
    sep3: Seq<u8>,
)
    requires
        has_literal(s, 0, open),
        triple(s, open.len() as int, sep1, sep2, sep3) is Some,
    ensures
        open.len() <= triple(s, open.len() as int, sep1, sep2, sep3).unwrap().3 <= s.len(),
        exists|a: Seq<u8>, b: Seq<u8>, c: Seq<u8>|
            is_number(a) && is_number(b) && is_number(c) && s.subrange(
                0,
                triple(s, open.len() as int, sep1, sep2, sep3).unwrap().3,
            ) == open + #[trigger] (a + sep1 + b + sep2 + c + sep3),
{
    let at = open.len() as int;
    lemma_triple_shape(s, at, sep1, sep2, sep3);
    let (a, b, c) = choose|a: Seq<u8>, b: Seq<u8>, c: Seq<u8>|
        {
            &&& is_number(a)
            &&& is_number(b)
            &&& is_number(c)
            &&& #[trigger] has_literal(s, at, a + sep1 + b + sep2 + c + sep3)
            &&& triple(s, at, sep1, sep2, sep3) == Some(
                (
                    decimal_value(a),
                    decimal_value(b),
                    decimal_value(c),
                    at + a.len() + sep1.len() + b.len() + sep2.len() + c.len() + sep3.len(),
                ),
            )
        };
    let rest = a + sep1 + b + sep2 + c + sep3;
    assert(rest.len() == a.len() + sep1.len() + b.len() + sep2.len() + c.len() + sep3.len());
    let end = at + rest.len();
    assert(s.subrange(0, end) =~= s.subrange(0, at) + s.subrange(at, at + rest.len()));
    assert(s.subrange(0, end) == open + rest);
}

/// What a hue and two percentages give: a format error where one does not
/// fit 32 bits, else a value error where one lies outside its range.
pub open spec fn checked(
    h: nat,
    first: nat,
    second: nat,
    components: Components,
    alpha: AlphaView,
) -> Result<NotationView, ColorError> {
    if h > u32::MAX || first > u32::MAX || second > u32::MAX {
        Err(ColorError::Format)
    } else if !in_range(h, first, second) {
        Err(ColorError::Value)
    } else {
        Ok(NotationView { components, alpha })
    }
}

/// The text `rgb(a,b,c)`.
pub open spec fn rgb_written(a: Seq<u8>, b: Seq<u8>, c: Seq<u8>) -> Seq<u8> {
    "rgb(".spec_bytes() + a + ",".spec_bytes() + b + ",".spec_bytes() + c + ")".spec_bytes()
}

/// The text `rgba(a,b,c,alpha)`.
pub open spec fn rgba_written(a: Seq<u8>, b: Seq<u8>, c: Seq<u8>, alpha: Seq<u8>) -> Seq<u8> {
    "rgba(".spec_bytes() + a + ",".spec_bytes() + b + ",".spec_bytes() + c + ",".spec_bytes()
        + alpha + ")".spec_bytes()
}

/// The text `hsl(a,b%,c%)`.
pub open spec fn hsl_written(a: Seq<u8>, b: Seq<u8>, c: Seq<u8>) -> Seq<u8> {
    "hsl(".spec_bytes() + a + ",".spec_bytes() + b + "%,".spec_bytes() + c + "%)".spec_bytes()
}

/// The text `hsla(a,b%,c%,alpha)`.
pub open spec fn hsla_written(a: Seq<u8>, b: Seq<u8>, c: Seq<u8>, alpha: Seq<u8>) -> Seq<u8> {
    "hsla(".spec_bytes() + a + ",".spec_bytes() + b + "%,".spec_bytes() + c + "%,".spec_bytes()
        + alpha + ")".spec_bytes()
}

/// The text `hsv(a,b%,c%)`.
pub open spec fn hsv_written(a: Seq<u8>, b: Seq<u8>, c: Seq<u8>) -> Seq<u8> {
    "hsv(".spec_bytes() + a + ",".spec_bytes() + b + "%,".spec_bytes() + c + "%)".spec_bytes()
}

/// The text `cmyk(a,b,c,d)`.
pub open spec fn cmyk_written(a: Seq<u8>, b: Seq<u8>, c: Seq<u8>, d: Seq<u8>) -> Seq<u8> {
    "cmyk(".spec_bytes() + a + ",".spec_bytes() + b + ",".spec_bytes() + c + ",".spec_bytes() + d
        + ")".spec_bytes()
}

/// Any three numbers written as `rgb(a,b,c)` are recognized as the channels
/// they write where each is at most 255, and are a format error where one is
/// larger.
pub proof fn lemma_rgb_accepts(a: Seq<u8>, b: Seq<u8>, c: Seq<u8>)
    requires
        is_number(a),
        is_number(b),
        is_number(c),
    ensures
        rgb_notation(rgb_written(a, b, c)) == if decimal_value(a) <= 255 && decimal_value(b) <= 255
            && decimal_value(c) <= 255 {
            Ok::<NotationView, ColorError>(
                NotationView {
                    components: Components::Rgb(
                        Channels {
                            red: decimal_value(a) as u8,
                            green: decimal_value(b) as u8,
                            blue: decimal_value(c) as u8,
                        },
                    ),
                    alpha: AlphaView::Opaque,
                },
            )
        } else {
            Err::<NotationView, ColorError>(ColorError::Format)
        },
{
    lemma_literal_bytes();
    let open = "rgb(".spec_bytes();
    let comma = ",".spec_bytes();
    let close = ")".spec_bytes();
    let s = rgb_written(a, b, c);
    let rest = a + comma + b + comma + c + close;
    assert(s =~= open + rest);
    assert(s.subrange(0, open.len() as int) =~= open);
    assert(s.subrange(open.len() as int, (open.len() + rest.len()) as int) =~= rest);
    lemma_triple_matches(s, open.len() as int, a, comma, b, comma, c, close);
}

/// Whatever the `rgb` recognizer accepts is three numbers written as
/// `rgb(a,b,c)`.
pub proof fn lemma_rgb_shape(s: Seq<u8>)
    requires
        rgb_notation(s) is Ok,
    ensures
        exists|a: Seq<u8>, b: Seq<u8>, c: Seq<u8>|
            is_number(a) && is_number(b) && is_number(c) && s == #[trigger] rgb_written(a, b, c),
{
    let open = "rgb(".spec_bytes();
    let comma = ",".spec_bytes();
    let close = ")".spec_bytes();
    lemma_opened_triple_shape(s, open, comma, comma, close);
    let (a, b, c) = choose|a: Seq<u8>, b: Seq<u8>, c: Seq<u8>|
        is_number(a) && is_number(b) && is_number(c) && s.subrange(
            0,
            triple(s, open.len() as int, comma, comma, close).unwrap().3,
        ) == open + #[trigger] (a + comma + b + comma + c + close);
    assert(s.subrange(0, s.len() as int) =~= s);
    assert(rgb_written(a, b, c) =~= open + (a + comma + b + comma + c + close));
}

/// Any three numbers and a decimal opacity written as `rgba(a,b,c,alpha)`
/// are recognized as the channels they write, with the opacity as it is
/// written, where each channel is at most 255; they are a format error where
/// one is larger.
pub proof fn lemma_rgba_accepts(a: Seq<u8>, b: Seq<u8>, c: Seq<u8>, alpha: Seq<u8>)
    requires
        is_number(a),
        is_number(b),
        is_number(c),
        is_decimal(alpha),
    ensures
        rgba_notation(rgba_written(a, b, c, alpha)) == if decimal_value(a) <= 255 && decimal_value(
            b,
        ) <= 255 && decimal_value(c) <= 255 {
            Ok::<NotationView, ColorError>(
                NotationView {
                    components: Components::Rgb(
                        Channels {
                            red: decimal_value(a) as u8,
                            green: decimal_value(b) as u8,
                            blue: decimal_value(c) as u8,
                        },
                    ),
                    alpha: AlphaView::Decimal(alpha),
                },
            )
        } else {
            Err::<NotationView, ColorError>(ColorError::Format)
        },
{
    lemma_literal_bytes();
    let open = "rgba(".spec_bytes();
    let comma = ",".spec_bytes();
    let close = ")".spec_bytes();
    let rest = a + comma + b + comma + c + comma;
    let tail = alpha + close;
    let s = open + rest + tail;
    let at = s.len() - tail.len();
    lemma_opened_triple_matches(open, a, comma, b, comma, c, comma, tail);
    lemma_decimal_stands(s, at, alpha, close);
    lemma_literal_split(s, at, alpha, close);
    assert(s.subrange(at, at + alpha.len()) == alpha);
    assert(rgba_written(a, b, c, alpha) =~= s);
}

/// Whatever the `rgba` recognizer accepts is three numbers and a decimal
/// opacity written as `rgba(a,b,c,alpha)`.
pub proof fn lemma_rgba_shape(s: Seq<u8>)
    requires
        rgba_notation(s) is Ok,
    ensures
        exists|a: Seq<u8>, b: Seq<u8>, c: Seq<u8>, alpha: Seq<u8>|
            is_number(a) && is_number(b) && is_number(c) && is_decimal(alpha) && s
                == #[trigger] rgba_written(a, b, c, alpha),
{
    let open = "rgba(".spec_bytes();
    let comma = ",".spec_bytes();
    let close = ")".spec_bytes();
    lemma_opened_triple_shape(s, open, comma, comma, comma);
    let at = triple(s, open.len() as int, comma, comma, comma).unwrap().3;
    let (a, b, c) = choose|a: Seq<u8>, b: Seq<u8>, c: Seq<u8>|
        is_number(a) && is_number(b) && is_number(c) && s.subrange(0, at) == open + #[trigger] (a
            + comma + b + comma + c + comma);
    lemma_decimal_token(s, at);
    let end = decimal_end(s, at).unwrap();
    let alpha = s.subrange(at, end);
    assert(s =~= s.subrange(0, at) + alpha + s.subrange(end, end + close.len()));
    assert(rgba_written(a, b, c, alpha) =~= open + (a + comma + b + comma + c + comma) + alpha
        + close);
}

/// Any three numbers written as `hsl(a,b%,c%)` are recognized as the hue,
/// saturation and lightness they write, where these fit and lie in range.
pub proof fn lemma_hsl_accepts(a: Seq<u8>, b: Seq<u8>, c: Seq<u8>)
    requires
        is_number(a),
        is_number(b),
        is_number(c),
    ensures
        hsl_notation(hsl_written(a, b, c)) == checked(
            decimal_value(a),
            decimal_value(b),
            decimal_value(c),
            Components::Hsl {
                hue: decimal_value(a) as u32,
                saturation: decimal_value(b) as u32,
                lightness: decimal_value(c) as u32,
            },
            AlphaView::Opaque,
        ),
{
    lemma_literal_bytes();
    let open = "hsl(".spec_bytes();
    let rest = a + ",".spec_bytes() + b + "%,".spec_bytes() + c + "%)".spec_bytes();
    lemma_opened_triple_matches(
        open,
        a,
        ",".spec_bytes(),
        b,
        "%,".spec_bytes(),
        c,
        "%)".spec_bytes(),
        Seq::empty(),
    );
    assert(hsl_written(a, b, c) =~= open + rest + Seq::<u8>::empty());
}

/// Whatever the `hsl` recognizer does not refuse for its format is three
/// numbers written as `hsl(a,b%,c%)`.
pub proof fn lemma_hsl_shape(s: Seq<u8>)
    requires
        hsl_notation(s) != Err::<NotationView, ColorError>(ColorError::Format),
    ensures
        exists|a: Seq<u8>, b: Seq<u8>, c: Seq<u8>|
            is_number(a) && is_number(b) && is_number(c) && s == #[trigger] hsl_written(a, b, c),
{
    let open = "hsl(".spec_bytes();
    let comma = ",".spec_bytes();
    let percent = "%,".spec_bytes();
    let close = "%)".spec_bytes();
    lemma_opened_triple_shape(s, open, comma, percent, close);
    let (a, b, c) = choose|a: Seq<u8>, b: Seq<u8>, c: Seq<u8>|
        is_number(a) && is_number(b) && is_number(c) && s.subrange(
            0,
            triple(s, open.len() as int, comma, percent, close).unwrap().3,
        ) == open + #[trigger] (a + comma + b + percent + c + close);
    assert(s.subrange(0, s.len() as int) =~= s);
    assert(hsl_written(a, b, c) =~= open + (a + comma + b + percent + c + close));
}

/// Any three numbers and a fraction below one written as
/// `hsla(a,b%,c%,alpha)` are recognized as the hue, saturation and lightness
/// they write, with the opacity as it is written, where these fit and lie in
/// range.
pub proof fn lemma_hsla_accepts(a: Seq<u8>, b: Seq<u8>, c: Seq<u8>, alpha: Seq<u8>)
    requires
        is_number(a),
        is_number(b),
        is_number(c),
        is_fraction(alpha),
    ensures
        hsla_notation(hsla_written(a, b, c, alpha)) == checked(
            decimal_value(a),
            decimal_value(b),
            decimal_value(c),
            Components::Hsl {
                hue: decimal_value(a) as u32,
                saturation: decimal_value(b) as u32,
                lightness: decimal_value(c) as u32,
            },
            AlphaView::Decimal(alpha),
        ),
{
    lemma_literal_bytes();
    let open = "hsla(".spec_bytes();
    let comma = ",".spec_bytes();
    let percent = "%,".spec_bytes();
    let close = ")".spec_bytes();
    let rest = a + comma + b + percent + c + percent;
    let tail = alpha + close;
    let s = open + rest + tail;
    let at = s.len() - tail.len();
    lemma_opened_triple_matches(open, a, comma, b, percent, c, percent, tail);
    lemma_fraction_stands(s, at, alpha, close);
    lemma_literal_split(s, at, alpha, close);
    assert(s.subrange(at, at + alpha.len()) == alpha);
    assert(hsla_written(a, b, c, alpha) =~= s);
}

/// Whatever the `hsla` recognizer does not refuse for its format is three
/// numbers and a fraction below one written as `hsla(a,b%,c%,alpha)`.
pub proof fn lemma_hsla_shape(s: Seq<u8>)
    requires
        hsla_notation(s) != Err::<NotationView, ColorError>(ColorError::Format),
    ensures
        exists|a: Seq<u8>, b: Seq<u8>, c: Seq<u8>, alpha: Seq<u8>|
            is_number(a) && is_number(b) && is_number(c) && is_fraction(alpha) && s
                == #[trigger] hsla_written(a, b, c, alpha),
{
    let open = "hsla(".spec_bytes();
    let comma = ",".spec_bytes();
    let percent = "%,".spec_bytes();
    let close = ")".spec_bytes();
    lemma_opened_triple_shape(s, open, comma, percent, percent);
    let at = triple(s, open.len() as int, comma, percent, percent).unwrap().3;
    let (a, b, c) = choose|a: Seq<u8>, b: Seq<u8>, c: Seq<u8>|
        is_number(a) && is_number(b) && is_number(c) && s.subrange(0, at) == open + #[trigger] (a
            + comma + b + percent + c + percent);
    lemma_fraction_token(s, at);
    let end = fraction_end(s, at).unwrap();
    let alpha = s.subrange(at, end);
    assert(s =~= s.subrange(0, at) + alpha + s.subrange(end, end + close.len()));
    assert(hsla_written(a, b, c, alpha) =~= open + (a + comma + b + percent + c + percent) + alpha
        + close);
}

/// Any three numbers written as `hsv(a,b%,c%)` are recognized as the hue,
/// saturation and value they write, where these fit and lie in range.
pub proof fn lemma_hsv_accepts(a: Seq<u8>, b: Seq<u8>, c: Seq<u8>)
    requires
        is_number(a),
        is_number(b),
        is_number(c),
    ensures
        hsv_notation(hsv_written(a, b, c)) == checked(
            decimal_value(a),
            decimal_value(b),
            decimal_value(c),
            Components::Hsv {
                hue: decimal_value(a) as u32,
                saturation: decimal_value(b) as u32,
                value: decimal_value(c) as u32,
            },
            AlphaView::Opaque,
        ),
{
    lemma_literal_bytes();
    let open = "hsv(".spec_bytes();
    let rest = a + ",".spec_bytes() + b + "%,".spec_bytes() + c + "%)".spec_bytes();
    lemma_opened_triple_matches(
        open,
        a,
        ",".spec_bytes(),
        b,
        "%,".spec_bytes(),
        c,
        "%)".spec_bytes(),
        Seq::empty(),
    );
    assert(hsv_written(a, b, c) =~= open + rest + Seq::<u8>::empty());
}

/// Whatever the `hsv` recognizer does not refuse for its format is three
/// numbers written as `hsv(a,b%,c%)`.
pub proof fn lemma_hsv_shape(s: Seq<u8>)
    requires
        hsv_notation(s) != Err::<NotationView, ColorError>(ColorError::Format),
    ensures
        exists|a: Seq<u8>, b: Seq<u8>, c: Seq<u8>|
            is_number(a) && is_number(b) && is_number(c) && s == #[trigger] hsv_written(a, b, c),
{
    let open = "hsv(".spec_bytes();
    let comma = ",".spec_bytes();
    let percent = "%,".spec_bytes();
    let close = "%)".spec_bytes();
    lemma_opened_triple_shape(s, open, comma, percent, close);
    let (a, b, c) = choose|a: Seq<u8>, b: Seq<u8>, c: Seq<u8>|
        is_number(a) && is_number(b) && is_number(c) && s.subrange(
            0,
            triple(s, open.len() as int, comma, percent, close).unwrap().3,
        ) == open + #[trigger] (a + comma + b + percent + c + close);
    assert(s.subrange(0, s.len() as int) =~= s);
    assert(hsv_written(a, b, c) =~= open + (a + comma + b + percent + c + close));
}

/// Any four numbers written as `cmyk(a,b,c,d)` are recognized as the inks
/// they write where each is at most 100; they are a value error where one
/// is larger but all fit 32 bits, and a format error where one does not fit.
pub proof fn lemma_cmyk_accepts(a: Seq<u8>, b: Seq<u8>, c: Seq<u8>, d: Seq<u8>)
    requires
        is_number(a),
        is_number(b),
        is_number(c),
        is_number(d),
    ensures
        cmyk_notation(cmyk_written(a, b, c, d)) == if decimal_value(a) > u32::MAX || decimal_value(
            b,
        ) > u32::MAX || decimal_value(c) > u32::MAX || decimal_value(d) > u32::MAX {
            Err::<NotationView, ColorError>(ColorError::Format)
        } else if decimal_value(a) > 100 || decimal_value(b) > 100 || decimal_value(c) > 100
            || decimal_value(d) > 100 {
            Err::<NotationView, ColorError>(ColorError::Value)
        } else {
            Ok::<NotationView, ColorError>(
                NotationView {
                    components: Components::Cmyk {
                        cyan: decimal_value(a) as u32,
                        magenta: decimal_value(b) as u32,
                        yellow: decimal_value(c) as u32,
                        key: decimal_value(d) as u32,
                    },
                    alpha: AlphaView::Opaque,
                },
            )
        },
{
    lemma_literal_bytes();
    let open = "cmyk(".spec_bytes();
    let comma = ",".spec_bytes();
    let close = ")".spec_bytes();
    let rest = a + comma + b + comma + c + comma;
    let tail = d + close;
    let s = open + rest + tail;
    lemma_opened_triple_matches(open, a, comma, b, comma, c, comma, tail);
    lemma_field_matches(s, s.len() - tail.len(), d, close);
    assert(cmyk_written(a, b, c, d) =~= s);
}

/// Whatever the `cmyk` recognizer does not refuse for its format is four
/// numbers written as `cmyk(a,b,c,d)`.
pub proof fn lemma_cmyk_shape(s: Seq<u8>)
    requires
        cmyk_notation(s) != Err::<NotationView, ColorError>(ColorError::Format),
    ensures
        exists|a: Seq<u8>, b: Seq<u8>, c: Seq<u8>, d: Seq<u8>|
            is_number(a) && is_number(b) && is_number(c) && is_number(d) && s
                == #[trigger] cmyk_written(a, b, c, d),
{
    let open = "cmyk(".spec_bytes();
    let comma = ",".spec_bytes();
    let close = ")".spec_bytes();
    lemma_opened_triple_shape(s, open, comma, comma, comma);
    let at = triple(s, open.len() as int, comma, comma, comma).unwrap().3;
    let (a, b, c) = choose|a: Seq<u8>, b: Seq<u8>, c: Seq<u8>|
        is_number(a) && is_number(b) && is_number(c) && s.subrange(0, at) == open + #[trigger] (a
            + comma + b + comma + c + comma);
    lemma_field_shape(s, at, close);
    let d = s.subrange(at, digits_end(s, at));
    assert(s =~= s.subrange(0, at) + s.subrange(at, at + (d + close).len()));
    assert(cmyk_written(a, b, c, d) =~= open + (a + comma + b + comma + c + comma) + (d + close));
}

/// A byte in base ten is a number as the recognizers read it, and reads back
/// as the same byte.
pub proof fn lemma_decimal_text_reads_back(b: u8)
    ensures
        is_ascii_chars(decimal_text(b)),
        is_number(ascii_bytes(decimal_text(b))),
        decimal_value(ascii_bytes(decimal_text(b))) == b,
{
    let d = ascii_bytes(decimal_text(b));
    reveal_with_fuel(decimal_value, 4);
    if b >= 100 {
        assert(d.drop_last() =~= seq![d[0], d[1]]);
        assert(d.drop_last().drop_last() =~= seq![d[0]]);
        assert(d.drop_last().drop_last().drop_last() =~= Seq::<u8>::empty());
    } else if b >= 10 {
        assert(d.drop_last() =~= seq![d[0]]);
        assert(d.drop_last().drop_last() =~= Seq::<u8>::empty());
    } else {
        assert(d.drop_last() =~= Seq::<u8>::empty());
    }
}

/// Numbers written as `rgb(a,b,c)` are read by the general recognizer as the
/// `rgb` recognizer reads them.
pub proof fn lemma_rgb_dispatch(a: Seq<u8>, b: Seq<u8>, c: Seq<u8>)
    requires
        is_number(a),
        is_number(b),
        is_number(c),
    ensures
        notation(rgb_written(a, b, c)) == rgb_notation(rgb_written(a, b, c)),
{
    lemma_literal_bytes();
    let open = "rgb(".spec_bytes();
    let comma = ",".spec_bytes();
    let close = ")".spec_bytes();
    let s = rgb_written(a, b, c);
    lemma_number_has_no_space(a);
    lemma_number_has_no_space(b);
    lemma_number_has_no_space(c);
    lemma_no_space_concat(open, a);
    lemma_no_space_concat(open + a, comma);
    lemma_no_space_concat(open + a + comma, b);
    lemma_no_space_concat(open + a + comma + b, comma);
    lemma_no_space_concat(open + a + comma + b + comma, c);
    lemma_no_space_concat(open + a + comma + b + comma + c, close);
    lemma_nothing_to_strip(s);
    assert(s.subrange(0, 4) =~= open);
    assert(s[0] == 114u8);
}

/// The bytes of the `rgb(r,g,b)` text of channels are the three channels in
/// base ten, written as `rgb(a,b,c)`.
pub proof fn lemma_rgb_text_bytes(c: Channels)
    ensures
        encode_utf8(c.rgb_text()) == rgb_written(
            ascii_bytes(decimal_text(c.red)),
            ascii_bytes(decimal_text(c.green)),
            ascii_bytes(decimal_text(c.blue)),
        ),
{
    lemma_literal_bytes();
    lemma_decimal_text_reads_back(c.red);
    lemma_decimal_text_reads_back(c.green);
    lemma_decimal_text_reads_back(c.blue);
    let text = c.rgb_text();
    let open = seq!['r', 'g', 'b', '('];
    let r = decimal_text(c.red);
    let g = decimal_text(c.green);
    let b = decimal_text(c.blue);
    assert(is_ascii_chars(text));
    is_ascii_chars_encode_utf8(text);
    assert(encode_utf8(text) =~= ascii_bytes(text));
    lemma_ascii_bytes_concat(open, r);
    lemma_ascii_bytes_concat(open + r, seq![',']);
    lemma_ascii_bytes_concat(open + r + seq![','], g);
    lemma_ascii_bytes_concat(open + r + seq![','] + g, seq![',']);
    lemma_ascii_bytes_concat(open + r + seq![','] + g + seq![','], b);
    lemma_ascii_bytes_concat(open + r + seq![','] + g + seq![','] + b, seq![')']);
    assert(ascii_bytes(open) =~= "rgb(".spec_bytes());
    assert(ascii_bytes(seq![',']) =~= ",".spec_bytes());
    assert(ascii_bytes(seq![')']) =~= ")".spec_bytes());
}

/// Round trip: the `rgb(r,g,b)` text of any channels is recognized, by the
/// `rgb` recognizer and by the general one, as those channels, opaque.
pub proof fn lemma_rgb_round_trip(c: Channels)
    ensures
        rgb_notation(encode_utf8(c.rgb_text())) == Ok::<NotationView, ColorError>(
            NotationView { components: Components::Rgb(c), alpha: AlphaView::Opaque },
        ),
        notation(encode_utf8(c.rgb_text())) == rgb_notation(encode_utf8(c.rgb_text())),
{
    let r = ascii_bytes(decimal_text(c.red));
    let g = ascii_bytes(decimal_text(c.green));
    let b = ascii_bytes(decimal_text(c.blue));
    lemma_decimal_text_reads_back(c.red);
    lemma_decimal_text_reads_back(c.green);
    lemma_decimal_text_reads_back(c.blue);
    lemma_rgb_text_bytes(c);
    lemma_rgb_accepts(r, g, b);
    lemma_rgb_dispatch(r, g, b);
}

} // verus!
