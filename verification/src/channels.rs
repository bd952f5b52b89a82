use vstd::prelude::*;
use vstd::string::StringExecFns;
use crate::digits::{DIGIT_0, UPPER_A};

verus! {

/// The character that writes the digit `n`, below sixteen, in upper case.
pub open spec fn digit_char(n: u8) -> char {
    if n < 10 {
        (DIGIT_0 + n) as char
    } else {
        (UPPER_A + (n - 10)) as char
    }
}

/// The two upper-case hexadecimal digits of a byte.
pub open spec fn hex_pair(b: u8) -> Seq<char> {
    seq![digit_char(b / 16), digit_char(b % 16)]
}

/// A byte in base ten, without leading zeros.
pub open spec fn decimal_text(b: u8) -> Seq<char> {
    if b >= 100 {
        seq![digit_char(b / 100), digit_char(b / 10 % 10), digit_char(b % 10)]
    } else if b >= 10 {
        seq![digit_char(b / 10), digit_char(b % 10)]
    } else {
        seq![digit_char(b)]
    }
}

/// The one-character text of a digit below sixteen.
fn digit_str(n: u8) -> (r: &'static str)
    requires
        n < 16,
    ensures
        r@ == seq![digit_char(n)],
{
    proof {
        reveal_strlit("0");
        reveal_strlit("1");
        reveal_strlit("2");
        reveal_strlit("3");
        reveal_strlit("4");
        reveal_strlit("5");
        reveal_strlit("6");
        reveal_strlit("7");
        reveal_strlit("8");
        reveal_strlit("9");
        reveal_strlit("A");
        reveal_strlit("B");
        reveal_strlit("C");
        reveal_strlit("D");
        reveal_strlit("E");
        reveal_strlit("F");
    }
    let r = match n {
        0 => "0",
        1 => "1",
        2 => "2",
        3 => "3",
        4 => "4",
        5 => "5",
        6 => "6",
        7 => "7",
        8 => "8",
        9 => "9",
        10 => "A",
        11 => "B",
        12 => "C",
        13 => "D",
        14 => "E",
        _ => "F",
    };
    assert(r@ =~= seq![digit_char(n)]);
    r
}

/// Appends the two hexadecimal digits of `b`.
fn push_hex_pair(out: &mut String, b: u8)
    ensures
        final(out)@ == old(out)@ + hex_pair(b),
{
    out.append(digit_str(b / 16));
    out.append(digit_str(b % 16));
    assert(out@ =~= old(out)@ + hex_pair(b));
}

/// Appends `b` in base ten.
fn push_decimal(out: &mut String, b: u8)
    ensures
        final(out)@ == old(out)@ + decimal_text(b),
{
    if b >= 100 {
        out.append(digit_str(b / 100));
    }
    if b >= 10 {
        out.append(digit_str(b / 10 % 10));
    }
    out.append(digit_str(b % 10));
    assert(out@ =~= old(out)@ + decimal_text(b));
}

/// The three 8-bit channels of a color: red, green and blue.
#[derive(Debug, Clone, Copy, PartialEq, Eq, Structural)]
pub struct Channels {
    pub red: u8,
    pub green: u8,
    pub blue: u8,
}

impl Channels {
    /// The channels after inversion: each one taken from 255.
    pub open spec fn negated(self) -> Channels {
        Channels {
            red: (255 - self.red) as u8,
            green: (255 - self.green) as u8,
            blue: (255 - self.blue) as u8,
        }
    }

    /// `#RRGGBB`: a hash sign and the three channels, two upper-case
    /// hexadecimal digits each.
    pub open spec fn hex_text(self) -> Seq<char> {
        seq!['#'] + hex_pair(self.red) + hex_pair(self.green) + hex_pair(self.blue)
    }

    /// `#RRGGBBAA`: the channels, then the opacity in 255ths.
    pub open spec fn hex_alpha_text(self, alpha: u8) -> Seq<char> {
        self.hex_text() + hex_pair(alpha)
    }

    /// `#AARRGGBB`: the opacity in 255ths, then the channels.
    pub open spec fn alpha_hex_text(self, alpha: u8) -> Seq<char> {
        seq!['#'] + hex_pair(alpha) + hex_pair(self.red) + hex_pair(self.green) + hex_pair(
            self.blue,
        )
    }

    /// `rgb(r,g,b)`: the channels in base ten, with commas and no spaces.
    pub open spec fn rgb_text(self) -> Seq<char> {
        seq!['r', 'g', 'b', '('] + decimal_text(self.red) + seq![','] + decimal_text(self.green)
            + seq![','] + decimal_text(self.blue) + seq![')']
    }

    /// Builds the triple from its three channels.
    pub fn from_rgb(r: u8, g: u8, b: u8) -> (c: Channels)
        ensures
            c == (Channels { red: r, green: g, blue: b }),
    {
        Channels { red: r, green: g, blue: b }
    }

    /// Inverts the three channels in place, and hands the channels back so
    /// that calls can be chained.
    pub fn negate(&mut self) -> (ret: &mut Self)
        ensures
            *ret == old(self).negated(),
            *final(self) == *final(ret),
    {
        self.red = 255 - self.red;
        self.green = 255 - self.green;
        self.blue = 255 - self.blue;
        self
    }

    /// Renders the channels as `#RRGGBB`.
    pub fn to_hex(&self) -> (text: String)
        ensures
            text@ == self.hex_text(),
    {
        proof {
            reveal_strlit("#");
        }
        let mut text = String::new();
        text.append("#");
        push_hex_pair(&mut text, self.red);
        push_hex_pair(&mut text, self.green);
        push_hex_pair(&mut text, self.blue);
        assert(text@ =~= self.hex_text());
        text
    }

    /// Renders the channels and an opacity in 255ths as `#RRGGBBAA`.
    pub fn to_hex_alpha(&self, alpha: u8) -> (text: String)
        ensures
            text@ == self.hex_alpha_text(alpha),
    {
        let mut text = self.to_hex();
        push_hex_pair(&mut text, alpha);
        text
    }

    /// Renders an opacity in 255ths and the channels as `#AARRGGBB`.
    pub fn to_alpha_hex(&self, alpha: u8) -> (text: String)
        ensures
            text@ == self.alpha_hex_text(alpha),
    {
        proof {
            reveal_strlit("#");
        }
        let mut text = String::new();
        text.append("#");
        push_hex_pair(&mut text, alpha);
        push_hex_pair(&mut text, self.red);
        push_hex_pair(&mut text, self.green);
        push_hex_pair(&mut text, self.blue);
        assert(text@ =~= self.alpha_hex_text(alpha));
        text
    }

    /// Renders the channels as `rgb(r,g,b)`.
    pub fn to_rgb(&self) -> (text: String)
        ensures
            text@ == self.rgb_text(),
    {
        proof {
            reveal_strlit("rgb(");
            reveal_strlit(",");
            reveal_strlit(")");
        }
        let mut text = String::new();
        text.append("rgb(");
        push_decimal(&mut text, self.red);
        text.append(",");
        push_decimal(&mut text, self.green);
        text.append(",");
        push_decimal(&mut text, self.blue);
        text.append(")");
        assert(text@ =~= self.rgb_text());
        text
    }

    /// Inverting twice gives back the channels one started from.
    pub proof fn lemma_negate_twice(self)
        ensures
            self.negated().negated() == self,
    {
    }
}

} // verus!
