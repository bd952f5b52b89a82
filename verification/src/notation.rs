use vstd::prelude::*;
use vstd::slice::{slice_subrange, slice_to_vec};
use vstd::string::StringSliceAdditionalSpecFns;
use crate::channels::Channels;
use crate::digits::{hex_token_value, match_to_num};
use crate::error::ColorError;
use crate::grammar::{
    at_literal, decimal_end, field, fraction_end, has_literal, is_decimal, lemma_decimal_token,
    lemma_fraction_token, lemma_triple_end, read_field, read_triple, scan_decimal, scan_fraction, triple,
};

verus! {

/// ASCII `#`.
pub const HASH: u8 = 35;

/// ASCII space.
pub const SPACE: u8 = 32;

/// The components that a notation writes, as the integers that stand in the
/// text. Hue is in degrees, below 360; saturation, lightness, value and the
/// four inks are whole percents, at most 100.
#[derive(Debug, Clone, Copy, PartialEq, Eq, Structural)]
pub enum Components {
    Rgb(Channels),
    Hsl { hue: u32, saturation: u32, lightness: u32 },
    Hsv { hue: u32, saturation: u32, value: u32 },
    Cmyk { cyan: u32, magenta: u32, yellow: u32, key: u32 },
}

/// The opacity that a notation writes.
#[derive(Debug, Clone, PartialEq, Eq)]
pub enum Alpha {
    /// The notation has no alpha: the color is opaque.
    Opaque,
    /// The last pair of an eight-digit hex code: the opacity in 255ths.
    Byte(u8),
    /// The ASCII text of a decimal number: digits, with or without a dot and
    /// more digits behind it.
    Decimal(Vec<u8>),
}

/// The mathematical view of an [`Alpha`].
pub enum AlphaView {
    Opaque,
    Byte(u8),
    Decimal(Seq<u8>),
}

impl View for Alpha {
    type V = AlphaView;

    open spec fn view(&self) -> AlphaView {
        match self {
            Alpha::Opaque => AlphaView::Opaque,
            Alpha::Byte(b) => AlphaView::Byte(*b),
            Alpha::Decimal(text) => AlphaView::Decimal(text@),
        }
    }
}

/// What was recognized in a text: the components and the opacity.
#[derive(Debug, Clone, PartialEq, Eq)]
pub struct Notation {
    pub components: Components,
    pub alpha: Alpha,
}

/// The mathematical view of a [`Notation`].
pub struct NotationView {
    pub components: Components,
    pub alpha: AlphaView,
}

impl View for Notation {
    type V = NotationView;

    open spec fn view(&self) -> NotationView {
        NotationView { components: self.components, alpha: self.alpha@ }
    }
}

impl Components {
    /// Whether each component lies in its range: a hue below 360, a
    /// percentage at most 100.
    pub open spec fn within_ranges(self) -> bool {
        match self {
            Components::Rgb(_) => true,
            Components::Hsl { hue, saturation, lightness } => hue < 360 && saturation <= 100
                && lightness <= 100,
            Components::Hsv { hue, saturation, value } => hue < 360 && saturation <= 100 && value
                <= 100,
            Components::Cmyk { cyan, magenta, yellow, key } => cyan <= 100 && magenta <= 100
                && yellow <= 100 && key <= 100,
        }
    }
}

impl NotationView {
    /// Whether the components lie in their ranges and a decimal opacity is
    /// written as a decimal number.
    pub open spec fn well_formed(self) -> bool {
        &&& self.components.within_ranges()
        &&& match self.alpha {
            AlphaView::Decimal(text) => is_decimal(text),
            _ => true,
        }
    }
}

/// The view of what a recognizer returned.
pub open spec fn outcome(r: Result<Notation, ColorError>) -> Result<NotationView, ColorError> {
    match r {
        Ok(n) => Ok(n@),
        Err(e) => Err(e),
    }
}

/// `s` without its space bytes.
pub open spec fn without_spaces(s: Seq<u8>) -> Seq<u8>
    decreases s.len(),
{
    if s.len() == 0 {
        s
    } else if s.last() == SPACE {
        without_spaces(s.drop_last())
    } else {
        without_spaces(s.drop_last()).push(s.last())
    }
}

/// Red, green and blue with the given opacity, where all three tokens
/// decoded; a format error where one did not.
pub open spec fn rgb_of_tokens(r: Option<u8>, g: Option<u8>, b: Option<u8>, alpha: AlphaView) -> Result<
    NotationView,
    ColorError,
> {
    match (r, g, b) {
        (Some(r), Some(g), Some(b)) => Ok(
            NotationView {
                components: Components::Rgb(Channels { red: r, green: g, blue: b }),
                alpha,
            },
        ),
        _ => Err(ColorError::Format),
    }
}

/// `#RRGGBB` or `#RGB`: a hash sign and six or three hexadecimal digits. In
/// the short form each digit is doubled.
pub open spec fn hex_notation(s: Seq<u8>) -> Result<NotationView, ColorError> {
    if s.len() == 7 && s[0] == HASH {
        rgb_of_tokens(
            hex_token_value(s.subrange(1, 3)),
            hex_token_value(s.subrange(3, 5)),
            hex_token_value(s.subrange(5, 7)),
            AlphaView::Opaque,
        )
    } else if s.len() == 4 && s[0] == HASH {
        rgb_of_tokens(
            hex_token_value(s.subrange(1, 2)),
            hex_token_value(s.subrange(2, 3)),
            hex_token_value(s.subrange(3, 4)),
            AlphaView::Opaque,
        )
    } else {
        Err(ColorError::Format)
    }
}

/// `#RRGGBBAA`: a hash sign and eight hexadecimal digits, the last pair being
/// the opacity in 255ths.
pub open spec fn hex_alpha_notation(s: Seq<u8>) -> Result<NotationView, ColorError> {
    if s.len() == 9 && s[0] == HASH {
        match hex_token_value(s.subrange(7, 9)) {
            Some(a) => rgb_of_tokens(
                hex_token_value(s.subrange(1, 3)),
                hex_token_value(s.subrange(3, 5)),
                hex_token_value(s.subrange(5, 7)),
                AlphaView::Byte(a),
            ),
            None => Err(ColorError::Format),
        }
    } else {
        Err(ColorError::Format)
    }
}

/// `rgb(d,d,d)`: three decimal numbers, each at most 255.
pub open spec fn rgb_notation(s: Seq<u8>) -> Result<NotationView, ColorError> {
    let open = "rgb(".spec_bytes();
    let comma = ",".spec_bytes();
    if has_literal(s, 0, open) {
        match triple(s, open.len() as int, comma, comma, ")".spec_bytes()) {
            Some((r, g, b, end)) => if end == s.len() && r <= 255 && g <= 255 && b <= 255 {
                Ok(
                    NotationView {
                        components: Components::Rgb(
                            Channels { red: r as u8, green: g as u8, blue: b as u8 },
                        ),
                        alpha: AlphaView::Opaque,
                    },
                )
            } else {
                Err(ColorError::Format)
            },
            None => Err(ColorError::Format),
        }
    } else {
        Err(ColorError::Format)
    }
}

/// `rgba(d,d,d,f)`: three decimal numbers, each at most 255, and a decimal
/// opacity, which is handed on as it is written.
pub open spec fn rgba_notation(s: Seq<u8>) -> Result<NotationView, ColorError> {
    let open = "rgba(".spec_bytes();
    let comma = ",".spec_bytes();
    let close = ")".spec_bytes();
    if has_literal(s, 0, open) {
        match triple(s, open.len() as int, comma, comma, comma) {
            Some((r, g, b, at)) => match decimal_end(s, at) {
                Some(end) => if has_literal(s, end, close) && end + close.len() == s.len() && r
                    <= 255 && g <= 255 && b <= 255 {
                    Ok(
                        NotationView {
                            components: Components::Rgb(
                                Channels { red: r as u8, green: g as u8, blue: b as u8 },
                            ),
                            alpha: AlphaView::Decimal(s.subrange(at, end)),
                        },
                    )
                } else {
                    Err(ColorError::Format)
                },
                None => Err(ColorError::Format),
            },
            None => Err(ColorError::Format),
        }
    } else {
        Err(ColorError::Format)
    }
}

/// Whether a hue and two percentages lie in their ranges: the hue below 360,
/// each percentage at most 100.
pub open spec fn in_range(hue: nat, first: nat, second: nat) -> bool {
    hue < 360 && first <= 100 && second <= 100
}

/// `hsl(d,d%,d%)`: hue, saturation and lightness. A number that does not fit
/// 32 bits is a format error; one that fits but lies outside its range is a
/// value error.
pub open spec fn hsl_notation(s: Seq<u8>) -> Result<NotationView, ColorError> {
    let open = "hsl(".spec_bytes();
    if has_literal(s, 0, open) {
        match triple(s, open.len() as int, ",".spec_bytes(), "%,".spec_bytes(), "%)".spec_bytes()) {
            Some((h, sat, l, end)) => if end == s.len() && h <= u32::MAX && sat <= u32::MAX && l
                <= u32::MAX {
                if in_range(h, sat, l) {
                    Ok(
                        NotationView {
                            components: Components::Hsl {
                                hue: h as u32,
                                saturation: sat as u32,
                                lightness: l as u32,
                            },
                            alpha: AlphaView::Opaque,
                        },
                    )
                } else {
                    Err(ColorError::Value)
                }
            } else {
                Err(ColorError::Format)
            },
            None => Err(ColorError::Format),
        }
    } else {
        Err(ColorError::Format)
    }
}

/// `hsla(d,d%,d%,0.f)`: as `hsl`, with an opacity that starts with `0.` and
/// is handed on as it is written. The opacity's own range is not looked at.
pub open spec fn hsla_notation(s: Seq<u8>) -> Result<NotationView, ColorError> {
    let open = "hsla(".spec_bytes();
    let close = ")".spec_bytes();
    if has_literal(s, 0, open) {
        match triple(s, open.len() as int, ",".spec_bytes(), "%,".spec_bytes(), "%,".spec_bytes()) {
            Some((h, sat, l, at)) => match fraction_end(s, at) {
                Some(end) => if has_literal(s, end, close) && end + close.len() == s.len() && h
                    <= u32::MAX && sat <= u32::MAX && l <= u32::MAX {
                    if in_range(h, sat, l) {
                        Ok(
                            NotationView {
                                components: Components::Hsl {
                                    hue: h as u32,
                                    saturation: sat as u32,
                                    lightness: l as u32,
                                },
                                alpha: AlphaView::Decimal(s.subrange(at, end)),
                            },
                        )
                    } else {
                        Err(ColorError::Value)
                    }
                } else {
                    Err(ColorError::Format)
                },
                None => Err(ColorError::Format),
            },
            None => Err(ColorError::Format),
        }
    } else {
        Err(ColorError::Format)
    }
}

/// `hsv(d,d%,d%)`: hue, saturation and value, with the ranges and errors of
/// `hsl`.
pub open spec fn hsv_notation(s: Seq<u8>) -> Result<NotationView, ColorError> {
    let open = "hsv(".spec_bytes();
    if has_literal(s, 0, open) {
        match triple(s, open.len() as int, ",".spec_bytes(), "%,".spec_bytes(), "%)".spec_bytes()) {
            Some((h, sat, v, end)) => if end == s.len() && h <= u32::MAX && sat <= u32::MAX && v
                <= u32::MAX {
                if in_range(h, sat, v) {
                    Ok(
                        NotationView {
                            components: Components::Hsv {
                                hue: h as u32,
                                saturation: sat as u32,
                                value: v as u32,
                            },
                            alpha: AlphaView::Opaque,
                        },
                    )
                } else {
                    Err(ColorError::Value)
                }
            } else {
                Err(ColorError::Format)
            },
            None => Err(ColorError::Format),
        }
    } else {
        Err(ColorError::Format)
    }
}

/// `cmyk(d,d,d,d)`: four inks in whole percents. A number that does not fit
/// 32 bits is a format error; one above 100 is a value error.
pub open spec fn cmyk_notation(s: Seq<u8>) -> Result<NotationView, ColorError> {
    let open = "cmyk(".spec_bytes();
    let comma = ",".spec_bytes();
    if has_literal(s, 0, open) {
        match triple(s, open.len() as int, comma, comma, comma) {
            Some((c, m, y, at)) => match field(s, at, ")".spec_bytes()) {
                Some((k, end)) => if end == s.len() && c <= u32::MAX && m <= u32::MAX && y
                    <= u32::MAX && k <= u32::MAX {
                    if c <= 100 && m <= 100 && y <= 100 && k <= 100 {
                        Ok(
                            NotationView {
                                components: Components::Cmyk {
                                    cyan: c as u32,
                                    magenta: m as u32,
                                    yellow: y as u32,
                                    key: k as u32,
                                },
                                alpha: AlphaView::Opaque,
                            },
                        )
                    } else {
                        Err(ColorError::Value)
                    }
                } else {
                    Err(ColorError::Format)
                },
                None => Err(ColorError::Format),
            },
            None => Err(ColorError::Format),
        }
    } else {
        Err(ColorError::Format)
    }
}

/// What a text writes. A text that starts with a hash sign is a hex code,
/// chosen by its length alone: 4 or 7 bytes without alpha, 9 bytes with it.
/// Any other text first loses its spaces and is then read by the notation
/// whose opening it has; `hsla` is told by its four letters, before the
/// bracket is looked at.
pub open spec fn notation(s: Seq<u8>) -> Result<NotationView, ColorError> {
    if s.len() > 0 && s[0] == HASH {
        if s.len() == 4 || s.len() == 7 {
            hex_notation(s)
        } else if s.len() == 9 {
            hex_alpha_notation(s)
        } else {
            Err(ColorError::Format)
        }
    } else {
        let t = without_spaces(s);
        if has_literal(t, 0, "rgb(".spec_bytes()) {
            rgb_notation(t)
        } else if has_literal(t, 0, "rgba(".spec_bytes()) {
            rgba_notation(t)
        } else if has_literal(t, 0, "hsl(".spec_bytes()) {
            hsl_notation(t)
        } else if has_literal(t, 0, "hsla".spec_bytes()) {
            hsla_notation(t)
        } else if has_literal(t, 0, "hsv(".spec_bytes()) {
            hsv_notation(t)
        } else if has_literal(t, 0, "cmyk(".spec_bytes()) {
            cmyk_notation(t)
        } else {
            Err(ColorError::Format)
        }
    }
}

/// Whatever a recognizer accepts is well formed: its components lie in
/// their ranges, and a decimal opacity is written as a decimal number.
pub proof fn lemma_recognized_is_well_formed(s: Seq<u8>)
    ensures
        hex_notation(s) is Ok ==> hex_notation(s).unwrap().well_formed(),
        hex_alpha_notation(s) is Ok ==> hex_alpha_notation(s).unwrap().well_formed(),
        rgb_notation(s) is Ok ==> rgb_notation(s).unwrap().well_formed(),
        rgba_notation(s) is Ok ==> rgba_notation(s).unwrap().well_formed(),
        hsl_notation(s) is Ok ==> hsl_notation(s).unwrap().well_formed(),
        hsla_notation(s) is Ok ==> hsla_notation(s).unwrap().well_formed(),
        hsv_notation(s) is Ok ==> hsv_notation(s).unwrap().well_formed(),
        cmyk_notation(s) is Ok ==> cmyk_notation(s).unwrap().well_formed(),
{
    if rgba_notation(s) is Ok {
        let open = "rgba(".spec_bytes();
        let comma = ",".spec_bytes();
        let at = triple(s, open.len() as int, comma, comma, comma).unwrap().3;
        lemma_triple_end(s, open.len() as int, comma, comma, comma);
        lemma_decimal_token(s, at);
    }
    if hsla_notation(s) is Ok {
        let open = "hsla(".spec_bytes();
        let at = triple(
            s,
            open.len() as int,
            ",".spec_bytes(),
            "%,".spec_bytes(),
            "%,".spec_bytes(),
        ).unwrap().3;
        lemma_triple_end(s, open.len() as int, ",".spec_bytes(), "%,".spec_bytes(), "%,".spec_bytes());
        lemma_fraction_token(s, at);
    }
}

/// Whatever the general recognizer accepts is well formed.
pub proof fn lemma_notation_is_well_formed(s: Seq<u8>)
    ensures
        notation(s) is Ok ==> notation(s).unwrap().well_formed(),
{
    lemma_recognized_is_well_formed(s);
    lemma_recognized_is_well_formed(without_spaces(s));
}

/// Copies `s` without its space bytes.
pub fn strip_spaces(s: &[u8]) -> (out: Vec<u8>)
    ensures
        out@ == without_spaces(s@),
{
    let mut out: Vec<u8> = Vec::new();
    let mut i: usize = 0;
    proof {
        assert(s@.take(0) =~= Seq::<u8>::empty());
    }
    while i < s.len()
        invariant
            i <= s@.len(),
            out@ == without_spaces(s@.take(i as int)),
        decreases s@.len() - i,
    {
        proof {
            assert(s@.take(i + 1).drop_last() =~= s@.take(i as int));
        }
        if s[i] != SPACE {
            out.push(s[i]);
        }
        i = i + 1;
    }
    proof {
        assert(s@.take(s@.len() as int) =~= s@);
    }
    out
}

fn opaque_rgb(r: u8, g: u8, b: u8) -> (n: Notation)
    ensures
        n@ == (NotationView {
            components: Components::Rgb(Channels { red: r, green: g, blue: b }),
            alpha: AlphaView::Opaque,
        }),
{
    Notation { components: Components::Rgb(Channels::from_rgb(r, g, b)), alpha: Alpha::Opaque }
}

/// Reads `#RRGGBB` or `#RGB` from bytes.
pub fn read_hex(s: &[u8]) -> (r: Result<Notation, ColorError>)
    ensures
        outcome(r) == hex_notation(s@),
        r is Ok ==> r.unwrap()@.well_formed(),
{
    proof {
        lemma_recognized_is_well_formed(s@);
    }
    let n = s.len();
    if (n != 7 && n != 4) || s[0] != HASH {
        return Err(ColorError::Format);
    }
    let w: usize = if n == 7 {
        2
    } else {
        1
    };
    let r = match_to_num(slice_subrange(s, 1, 1 + w));
    let g = match_to_num(slice_subrange(s, 1 + w, 1 + 2 * w));
    let b = match_to_num(slice_subrange(s, 1 + 2 * w, 1 + 3 * w));
    match (r, g, b) {
        (Some(r), Some(g), Some(b)) => Ok(opaque_rgb(r, g, b)),
        _ => Err(ColorError::Format),
    }
}

/// Reads `#RRGGBBAA` from bytes.
pub fn read_hex_alpha(s: &[u8]) -> (r: Result<Notation, ColorError>)
    ensures
        outcome(r) == hex_alpha_notation(s@),
        r is Ok ==> r.unwrap()@.well_formed(),
{
    proof {
        lemma_recognized_is_well_formed(s@);
    }
    if s.len() != 9 || s[0] != HASH {
        return Err(ColorError::Format);
    }
    let r = match_to_num(slice_subrange(s, 1, 3));
    let g = match_to_num(slice_subrange(s, 3, 5));
    let b = match_to_num(slice_subrange(s, 5, 7));
    let a = match_to_num(slice_subrange(s, 7, 9));
    match (r, g, b, a) {
        (Some(r), Some(g), Some(b), Some(a)) => Ok(
            Notation {
                components: Components::Rgb(Channels::from_rgb(r, g, b)),
                alpha: Alpha::Byte(a),
            },
        ),
        _ => Err(ColorError::Format),
    }
}

/// Reads `rgb(d,d,d)` from bytes.
pub fn read_rgb(s: &[u8]) -> (r: Result<Notation, ColorError>)
    ensures
        outcome(r) == rgb_notation(s@),
        r is Ok ==> r.unwrap()@.well_formed(),
{
    proof {
        lemma_recognized_is_well_formed(s@);
    }
    let open = "rgb(".as_bytes();
    let comma = ",".as_bytes();
    if !at_literal(s, 0, open) {
        return Err(ColorError::Format);
    }
    match read_triple(s, open.len(), comma, comma, ")".as_bytes(), 255) {
        Some((r, g, b, end)) => {
            if end == s.len() {
                Ok(opaque_rgb(r as u8, g as u8, b as u8))
            } else {
                Err(ColorError::Format)
            }
        },
        None => Err(ColorError::Format),
    }
}

/// Reads `rgba(d,d,d,f)` from bytes.
pub fn read_rgba(s: &[u8]) -> (r: Result<Notation, ColorError>)
    ensures
        outcome(r) == rgba_notation(s@),
        r is Ok ==> r.unwrap()@.well_formed(),
{
    proof {
        lemma_recognized_is_well_formed(s@);
    }
    let open = "rgba(".as_bytes();
    let comma = ",".as_bytes();
    let close = ")".as_bytes();
    if !at_literal(s, 0, open) {
        return Err(ColorError::Format);
    }
    match read_triple(s, open.len(), comma, comma, comma, 255) {
        Some((r, g, b, at)) => {
            match scan_decimal(s, at) {
                Some(end) => {
                    if at_literal(s, end, close) && s.len() - end == close.len() {
                        let text = slice_to_vec(slice_subrange(s, at, end));
                        Ok(
                            Notation {
                                components: Components::Rgb(
                                    Channels::from_rgb(r as u8, g as u8, b as u8),
                                ),
                                alpha: Alpha::Decimal(text),
                            },
                        )
                    } else {
                        Err(ColorError::Format)
                    }
                },
                None => Err(ColorError::Format),
            }
        },
        None => Err(ColorError::Format),
    }
}

/// Tells whether a hue and two percentages lie in their ranges.
pub fn check_range(hue: u32, first: u32, second: u32) -> (r: bool)
    ensures
        r == in_range(hue as nat, first as nat, second as nat),
{
    hue < 360 && first <= 100 && second <= 100
}

/// Reads `hsl(d,d%,d%)` from bytes.
pub fn read_hsl(s: &[u8]) -> (r: Result<Notation, ColorError>)
    ensures
        outcome(r) == hsl_notation(s@),
        r is Ok ==> r.unwrap()@.well_formed(),
{
    proof {
        lemma_recognized_is_well_formed(s@);
    }
    let open = "hsl(".as_bytes();
    if !at_literal(s, 0, open) {
        return Err(ColorError::Format);
    }
    match read_triple(s, open.len(), ",".as_bytes(), "%,".as_bytes(), "%)".as_bytes(), u32::MAX) {
        Some((h, sat, l, end)) => {
            if end != s.len() {
                Err(ColorError::Format)
            } else if check_range(h, sat, l) {
                Ok(
                    Notation {
                        components: Components::Hsl { hue: h, saturation: sat, lightness: l },
                        alpha: Alpha::Opaque,
                    },
                )
            } else {
                Err(ColorError::Value)
            }
        },
        None => Err(ColorError::Format),
    }
}

/// Reads `hsla(d,d%,d%,0.f)` from bytes.
pub fn read_hsla(s: &[u8]) -> (r: Result<Notation, ColorError>)
    ensures
        outcome(r) == hsla_notation(s@),
        r is Ok ==> r.unwrap()@.well_formed(),
{
    proof {
        lemma_recognized_is_well_formed(s@);
    }
    let open = "hsla(".as_bytes();
    let close = ")".as_bytes();
    if !at_literal(s, 0, open) {
        return Err(ColorError::Format);
    }
    match read_triple(s, open.len(), ",".as_bytes(), "%,".as_bytes(), "%,".as_bytes(), u32::MAX) {
        Some((h, sat, l, at)) => {
            match scan_fraction(s, at) {
                Some(end) => {
                    if !(at_literal(s, end, close) && s.len() - end == close.len()) {
                        Err(ColorError::Format)
                    } else if check_range(h, sat, l) {
                        let text = slice_to_vec(slice_subrange(s, at, end));
                        Ok(
                            Notation {
                                components: Components::Hsl {
                                    hue: h,
                                    saturation: sat,
                                    lightness: l,
                                },
                                alpha: Alpha::Decimal(text),
                            },
                        )
                    } else {
                        Err(ColorError::Value)
                    }
                },
                None => Err(ColorError::Format),
            }
        },
        None => Err(ColorError::Format),
    }
}

/// Reads `hsv(d,d%,d%)` from bytes.
pub fn read_hsv(s: &[u8]) -> (r: Result<Notation, ColorError>)
    ensures
        outcome(r) == hsv_notation(s@),
        r is Ok ==> r.unwrap()@.well_formed(),
{
    proof {
        lemma_recognized_is_well_formed(s@);
    }
    let open = "hsv(".as_bytes();
    if !at_literal(s, 0, open) {
        return Err(ColorError::Format);
    }
    match read_triple(s, open.len(), ",".as_bytes(), "%,".as_bytes(), "%)".as_bytes(), u32::MAX) {
        Some((h, sat, v, end)) => {
            if end != s.len() {
                Err(ColorError::Format)
            } else if check_range(h, sat, v) {
                Ok(
                    Notation {
                        components: Components::Hsv { hue: h, saturation: sat, value: v },
                        alpha: Alpha::Opaque,
                    },
                )
            } else {
                Err(ColorError::Value)
            }
        },
        None => Err(ColorError::Format),
    }
}

/// Reads `cmyk(d,d,d,d)` from bytes.
pub fn read_cmyk(s: &[u8]) -> (r: Result<Notation, ColorError>)
    ensures
        outcome(r) == cmyk_notation(s@),
        r is Ok ==> r.unwrap()@.well_formed(),
{
    proof {
        lemma_recognized_is_well_formed(s@);
    }
    let open = "cmyk(".as_bytes();
    let comma = ",".as_bytes();
    if !at_literal(s, 0, open) {
        return Err(ColorError::Format);
    }
    match read_triple(s, open.len(), comma, comma, comma, u32::MAX) {
        Some((c, m, y, at)) => {
            match read_field(s, at, ")".as_bytes(), u32::MAX) {
                Some((k, end)) => {
                    if end != s.len() {
                        Err(ColorError::Format)
                    } else if c <= 100 && m <= 100 && y <= 100 && k <= 100 {
                        Ok(
                            Notation {
                                components: Components::Cmyk {
                                    cyan: c,
                                    magenta: m,
                                    yellow: y,
                                    key: k,
                                },
                                alpha: Alpha::Opaque,
                            },
                        )
                    } else {
                        Err(ColorError::Value)
                    }
                },
                None => Err(ColorError::Format),
            }
        },
        None => Err(ColorError::Format),
    }
}

/// Reads any of the accepted notations from bytes.
pub fn read(s: &[u8]) -> (r: Result<Notation, ColorError>)
    ensures
        outcome(r) == notation(s@),
        r is Ok ==> r.unwrap()@.well_formed(),
{
    proof {
        lemma_notation_is_well_formed(s@);
    }
    let len = s.len();
    if len > 0 && s[0] == HASH {
        if len == 4 || len == 7 {
            return read_hex(s);
        }
        if len == 9 {
            return read_hex_alpha(s);
        }
        return Err(ColorError::Format);
    }
    let stripped = strip_spaces(s);
    let t = stripped.as_slice();
    if at_literal(t, 0, "rgb(".as_bytes()) {
        return read_rgb(t);
    }
    if at_literal(t, 0, "rgba(".as_bytes()) {
        return read_rgba(t);
    }
    if at_literal(t, 0, "hsl(".as_bytes()) {
        return read_hsl(t);
    }
    if at_literal(t, 0, "hsla".as_bytes()) {
        return read_hsla(t);
    }
    if at_literal(t, 0, "hsv(".as_bytes()) {
        return read_hsv(t);
    }
    if at_literal(t, 0, "cmyk(".as_bytes()) {
        return read_cmyk(t);
    }
    Err(ColorError::Format)
}

impl Notation {
    /// Recognizes a color written in any of the accepted notations.
    pub fn from(color: &str) -> (r: Result<Notation, ColorError>)
        ensures
            outcome(r) == notation(color.spec_bytes()),
            r is Ok ==> r.unwrap()@.well_formed(),
    {
        read(color.as_bytes())
    }

    /// Recognizes `#RRGGBB` or `#RGB`.
    pub fn from_hex(hex: &str) -> (r: Result<Notation, ColorError>)
        ensures
            outcome(r) == hex_notation(hex.spec_bytes()),
            r is Ok ==> r.unwrap()@.well_formed(),
    {
        read_hex(hex.as_bytes())
    }

    /// Recognizes `#RRGGBBAA`.
    pub fn from_hex_alpha(hex_alpha: &str) -> (r: Result<Notation, ColorError>)
        ensures
            outcome(r) == hex_alpha_notation(hex_alpha.spec_bytes()),
            r is Ok ==> r.unwrap()@.well_formed(),
    {
        read_hex_alpha(hex_alpha.as_bytes())
    }

    /// Recognizes `rgb(R,G,B)`, written without spaces.
    pub fn from_rgb_str(rgb: &str) -> (r: Result<Notation, ColorError>)
        ensures
            outcome(r) == rgb_notation(rgb.spec_bytes()),
            r is Ok ==> r.unwrap()@.well_formed(),
    {
        read_rgb(rgb.as_bytes())
    }

    /// Recognizes `rgba(R,G,B,A)`, written without spaces.
    pub fn from_rgba_str(rgba: &str) -> (r: Result<Notation, ColorError>)
        ensures
            outcome(r) == rgba_notation(rgba.spec_bytes()),
            r is Ok ==> r.unwrap()@.well_formed(),
    {
        read_rgba(rgba.as_bytes())
    }

    /// Recognizes `hsl(H,S%,L%)`, written without spaces.
    pub fn from_hsl_str(hsl: &str) -> (r: Result<Notation, ColorError>)
        ensures
            outcome(r) == hsl_notation(hsl.spec_bytes()),
            r is Ok ==> r.unwrap()@.well_formed(),
    {
        read_hsl(hsl.as_bytes())
    }

    /// Recognizes `hsla(H,S%,L%,A)`, written without spaces.
    pub fn from_hsla_str(hsla: &str) -> (r: Result<Notation, ColorError>)
        ensures
            outcome(r) == hsla_notation(hsla.spec_bytes()),
            r is Ok ==> r.unwrap()@.well_formed(),
    {
        read_hsla(hsla.as_bytes())
    }

    /// Recognizes `hsv(H,S%,V%)`, written without spaces.
    pub fn from_hsv_str(hsv: &str) -> (r: Result<Notation, ColorError>)
        ensures
            outcome(r) == hsv_notation(hsv.spec_bytes()),
            r is Ok ==> r.unwrap()@.well_formed(),
    {
        read_hsv(hsv.as_bytes())
    }

    /// Recognizes `cmyk(C,M,Y,K)`, written without spaces.
    pub fn from_cmyk_str(cmyk: &str) -> (r: Result<Notation, ColorError>)
        ensures
            outcome(r) == cmyk_notation(cmyk.spec_bytes()),
            r is Ok ==> r.unwrap()@.well_formed(),
    {
        read_cmyk(cmyk.as_bytes())
    }
}

} // verus!
