use icolor::channels::Channels;
use icolor::error::ColorError;
use icolor::notation::{Alpha, Components, Notation};

fn rgb(red: u8, green: u8, blue: u8, alpha: Alpha) -> Notation {
    Notation { components: Components::Rgb(Channels { red, green, blue }), alpha }
}

fn decimal(text: &str) -> Alpha {
    Alpha::Decimal(text.as_bytes().to_vec())
}

#[test]
fn accepts_every_notation() {
    assert!(Notation::from("#ff00aa").is_ok());
    assert!(Notation::from("#f0a").is_ok());
    assert!(Notation::from("#ff00aa80").is_ok());
    assert!(Notation::from("rgb(129,45,78)").is_ok());
    assert!(Notation::from("rgba(129,45,78, 0.8)").is_ok());
    assert!(Notation::from("hsl(120, 45%, 90%)").is_ok());
    assert!(Notation::from("hsla(120, 45%, 90%, 0.5)").is_ok());
    assert!(Notation::from("hsv(120, 60%, 80%)").is_ok());
    assert!(Notation::from("cmyk(100, 40,70,90)").is_ok());
}

#[test]
fn rejects_malformed_hex() {
    assert_eq!(Notation::from("#zz00aa"), Err(ColorError::Format));
    assert_eq!(Notation::from("#f0aa"), Err(ColorError::Format));
    assert_eq!(Notation::from("#ff00aaZ0"), Err(ColorError::Format));
}

#[test]
fn long_hex_gives_its_channels() {
    assert_eq!(Notation::from("#ff00aa"), Ok(rgb(255, 0, 170, Alpha::Opaque)));
    assert_eq!(Notation::from("#104C88"), Ok(rgb(16, 76, 136, Alpha::Opaque)));
    assert_eq!(Notation::from_hex("#AbCdEf"), Ok(rgb(0xAB, 0xCD, 0xEF, Alpha::Opaque)));
}

#[test]
fn short_hex_doubles_each_digit() {
    assert_eq!(Notation::from("#f0a"), Ok(rgb(255, 0, 170, Alpha::Opaque)));
    assert_eq!(Notation::from_hex("#123"), Ok(rgb(0x11, 0x22, 0x33, Alpha::Opaque)));
    assert_eq!(Notation::from_hex("#00g"), Err(ColorError::Format));
    assert_eq!(Notation::from_hex("#_00"), Err(ColorError::Format));
}

#[test]
fn hex_with_alpha_keeps_the_last_pair() {
    assert_eq!(Notation::from("#ff00aa80"), Ok(rgb(255, 0, 170, Alpha::Byte(128))));
    assert_eq!(Notation::from_hex_alpha("#000000ff"), Ok(rgb(0, 0, 0, Alpha::Byte(255))));
    assert_eq!(Notation::from_hex_alpha("#00000000"), Ok(rgb(0, 0, 0, Alpha::Byte(0))));
    assert_eq!(Notation::from_hex_alpha("#ff00aa"), Err(ColorError::Format));
    assert_eq!(Notation::from_hex_alpha("#ff00aa8"), Err(ColorError::Format));
    assert_eq!(Notation::from_hex_alpha("#ff00aa8g"), Err(ColorError::Format));
}

#[test]
fn hex_is_chosen_by_length_alone() {
    assert_eq!(Notation::from("#"), Err(ColorError::Format));
    assert_eq!(Notation::from("#ff"), Err(ColorError::Format));
    assert_eq!(Notation::from("#ff00a"), Err(ColorError::Format));
    assert_eq!(Notation::from("#ff00aa8"), Err(ColorError::Format));
    assert_eq!(Notation::from("#ff00aa8000"), Err(ColorError::Format));
    assert_eq!(Notation::from("#f0a "), Err(ColorError::Format));
    assert_eq!(Notation::from("# f0a"), Err(ColorError::Format));
    assert_eq!(Notation::from("#f 0a"), Err(ColorError::Format));
    assert_eq!(Notation::from(" #f0a"), Err(ColorError::Format));
    assert_eq!(Notation::from_hex("f0a"), Err(ColorError::Format));
    assert_eq!(Notation::from_hex(""), Err(ColorError::Format));
    assert_eq!(Notation::from_hex("#ff00aa80"), Err(ColorError::Format));
}

#[test]
fn text_beyond_ascii_is_a_format_error() {
    assert_eq!(Notation::from("#\u{e9}a"), Err(ColorError::Format));
    assert_eq!(Notation::from("#\u{e9}1234"), Err(ColorError::Format));
    assert_eq!(Notation::from_hex("#\u{e9}\u{e9}1"), Err(ColorError::Format));
    assert_eq!(Notation::from("rgb(\u{661},2,3)"), Err(ColorError::Format));
    assert_eq!(Notation::from("rgba(1,2,3,0.\u{665})"), Err(ColorError::Format));
    assert_eq!(Notation::from("hsla(1,2%,3%,0.\u{665})"), Err(ColorError::Format));
    assert_eq!(Notation::from("rgb(1,\u{a0}2,3)"), Err(ColorError::Format));
}

#[test]
fn rgb_reads_three_bytes() {
    assert_eq!(Notation::from("rgb(129,45,78)"), Ok(rgb(129, 45, 78, Alpha::Opaque)));
    assert_eq!(Notation::from("rgb(0,0,0)"), Ok(rgb(0, 0, 0, Alpha::Opaque)));
    assert_eq!(Notation::from("rgb(255,255,255)"), Ok(rgb(255, 255, 255, Alpha::Opaque)));
    assert_eq!(Notation::from("rgb(007,010,0000255)"), Ok(rgb(7, 10, 255, Alpha::Opaque)));
}

#[test]
fn rgb_rejects_what_is_no_byte() {
    assert_eq!(Notation::from("rgb(256,0,0)"), Err(ColorError::Format));
    assert_eq!(Notation::from("rgb(0,256,0)"), Err(ColorError::Format));
    assert_eq!(Notation::from("rgb(0,0,99999999999999999999999)"), Err(ColorError::Format));
    assert_eq!(Notation::from("rgb(1,2)"), Err(ColorError::Format));
    assert_eq!(Notation::from("rgb(1,2,3,4)"), Err(ColorError::Format));
    assert_eq!(Notation::from("rgb(1,2,3"), Err(ColorError::Format));
    assert_eq!(Notation::from("rgb(1,2,3))"), Err(ColorError::Format));
    assert_eq!(Notation::from("rgb(,2,3)"), Err(ColorError::Format));
    assert_eq!(Notation::from("rgb(-1,2,3)"), Err(ColorError::Format));
    assert_eq!(Notation::from("rgb(+1,2,3)"), Err(ColorError::Format));
    assert_eq!(Notation::from("rgb(1.0,2,3)"), Err(ColorError::Format));
    assert_eq!(Notation::from("RGB(1,2,3)"), Err(ColorError::Format));
    assert_eq!(Notation::from("rgb(1,\t2,3)"), Err(ColorError::Format));
    assert_eq!(Notation::from("rgb(1,2,3)\n"), Err(ColorError::Format));
}

#[test]
fn spaces_are_dropped_before_a_functional_notation_is_read() {
    assert_eq!(Notation::from(" r g b ( 1 2 , 3 , 4 ) "), Ok(rgb(12, 3, 4, Alpha::Opaque)));
    assert_eq!(Notation::from_rgb_str("rgb(1, 2,3)"), Err(ColorError::Format));
    assert_eq!(Notation::from_rgb_str("rgb(1,2,3)"), Ok(rgb(1, 2, 3, Alpha::Opaque)));
    assert_eq!(Notation::from_hsl_str("hsl(120, 45%, 90%)"), Err(ColorError::Format));
    assert_eq!(Notation::from_cmyk_str("cmyk(100, 40,70,90)"), Err(ColorError::Format));
}

#[test]
fn rgba_hands_the_alpha_text_on() {
    assert_eq!(Notation::from("rgba(129,45,78, 0.8)"), Ok(rgb(129, 45, 78, decimal("0.8"))));
    assert_eq!(Notation::from("rgba(1,2,3,1)"), Ok(rgb(1, 2, 3, decimal("1"))));
    assert_eq!(Notation::from("rgba(1,2,3,12.50)"), Ok(rgb(1, 2, 3, decimal("12.50"))));
    assert_eq!(Notation::from_rgba_str("rgba(1,2,3,0.25)"), Ok(rgb(1, 2, 3, decimal("0.25"))));
}

#[test]
fn rgba_rejects_a_malformed_alpha() {
    assert_eq!(Notation::from("rgba(1,2,3,1.)"), Err(ColorError::Format));
    assert_eq!(Notation::from("rgba(1,2,3,.5)"), Err(ColorError::Format));
    assert_eq!(Notation::from("rgba(1,2,3,1.2.3)"), Err(ColorError::Format));
    assert_eq!(Notation::from("rgba(1,2,3,)"), Err(ColorError::Format));
    assert_eq!(Notation::from("rgba(1,2,3)"), Err(ColorError::Format));
    assert_eq!(Notation::from("rgba(1,2,3,-0.5)"), Err(ColorError::Format));
    assert_eq!(Notation::from("rgba(1,2,3,1e3)"), Err(ColorError::Format));
    assert_eq!(Notation::from("rgba(1,2,300,0.5)"), Err(ColorError::Format));
    assert_eq!(Notation::from("rgba(1,2,3,0.5"), Err(ColorError::Format));
    assert_eq!(Notation::from("rgba(1,2,3,0.5)x"), Err(ColorError::Format));
}

fn hsl(hue: u32, saturation: u32, lightness: u32, alpha: Alpha) -> Notation {
    Notation { components: Components::Hsl { hue, saturation, lightness }, alpha }
}

#[test]
fn hsl_reads_degrees_and_percents() {
    assert_eq!(Notation::from("hsl(120, 45%, 90%)"), Ok(hsl(120, 45, 90, Alpha::Opaque)));
    assert_eq!(Notation::from("hsl(0,0%,0%)"), Ok(hsl(0, 0, 0, Alpha::Opaque)));
    assert_eq!(Notation::from("hsl(359,100%,100%)"), Ok(hsl(359, 100, 100, Alpha::Opaque)));
    assert_eq!(Notation::from_hsl_str("hsl(210,79%,30%)"), Ok(hsl(210, 79, 30, Alpha::Opaque)));
}

#[test]
fn hsl_out_of_range_is_a_value_error() {
    assert_eq!(Notation::from("hsl(360,0%,0%)"), Err(ColorError::Value));
    assert_eq!(Notation::from("hsl(0,101%,0%)"), Err(ColorError::Value));
    assert_eq!(Notation::from("hsl(0,0%,101%)"), Err(ColorError::Value));
    assert_eq!(Notation::from("hsl(4294967295,0%,0%)"), Err(ColorError::Value));
}

#[test]
fn hsl_malformed_is_a_format_error() {
    assert_eq!(Notation::from("hsl(4294967296,0%,0%)"), Err(ColorError::Format));
    assert_eq!(Notation::from("hsl(0,0%,4294967296%)"), Err(ColorError::Format));
    assert_eq!(Notation::from("hsl(0,0,0)"), Err(ColorError::Format));
    assert_eq!(Notation::from("hsl(0%,0%,0%)"), Err(ColorError::Format));
    assert_eq!(Notation::from("hsl(400,0%,0)"), Err(ColorError::Format));
    assert_eq!(Notation::from("hsl(0,0%,0%"), Err(ColorError::Format));
}

#[test]
fn hsla_takes_a_fraction_below_one() {
    assert_eq!(Notation::from("hsla(120, 45%, 90%, 0.5)"), Ok(hsl(120, 45, 90, decimal("0.5"))));
    assert_eq!(Notation::from("hsla(1,2%,3%,0.125)"), Ok(hsl(1, 2, 3, decimal("0.125"))));
    assert_eq!(Notation::from_hsla_str("hsla(1,2%,3%,0.0)"), Ok(hsl(1, 2, 3, decimal("0.0"))));
    assert_eq!(Notation::from("hsla(1,2%,3%,1.0)"), Err(ColorError::Format));
    assert_eq!(Notation::from("hsla(1,2%,3%,1)"), Err(ColorError::Format));
    assert_eq!(Notation::from("hsla(1,2%,3%,0.)"), Err(ColorError::Format));
    assert_eq!(Notation::from("hsla(1,2%,3%,0)"), Err(ColorError::Format));
    assert_eq!(Notation::from("hsla(1,2%,3%,00.5)"), Err(ColorError::Format));
    assert_eq!(Notation::from("hsla(1,2%,3%)"), Err(ColorError::Format));
}

#[test]
fn hsla_checks_the_format_before_the_ranges() {
    assert_eq!(Notation::from("hsla(360,2%,3%,0.5)"), Err(ColorError::Value));
    assert_eq!(Notation::from("hsla(1,200%,3%,0.5)"), Err(ColorError::Value));
    assert_eq!(Notation::from("hsla(360,2%,3%,1.5)"), Err(ColorError::Format));
}

#[test]
fn hsla_is_told_by_its_four_letters() {
    assert_eq!(Notation::from("hsla"), Err(ColorError::Format));
    assert_eq!(Notation::from("hsla1,2%,3%,0.5)"), Err(ColorError::Format));
    assert_eq!(Notation::from("hsla[1,2%,3%,0.5)"), Err(ColorError::Format));
}

#[test]
fn hsv_reads_degrees_and_percents() {
    assert_eq!(
        Notation::from("hsv(120, 60%, 80%)"),
        Ok(Notation {
            components: Components::Hsv { hue: 120, saturation: 60, value: 80 },
            alpha: Alpha::Opaque,
        })
    );
    assert_eq!(Notation::from("hsv(360,60%,80%)"), Err(ColorError::Value));
    assert_eq!(Notation::from("hsv(0,60%,180%)"), Err(ColorError::Value));
    assert_eq!(Notation::from_hsv_str("hsv(0,60,80)"), Err(ColorError::Format));
    assert_eq!(Notation::from_hsv_str("hsl(0,60%,80%)"), Err(ColorError::Format));
}

#[test]
fn cmyk_reads_four_percents() {
    assert_eq!(
        Notation::from("cmyk(100, 40,70,90)"),
        Ok(Notation {
            components: Components::Cmyk { cyan: 100, magenta: 40, yellow: 70, key: 90 },
            alpha: Alpha::Opaque,
        })
    );
    assert_eq!(Notation::from("cmyk(101,0,0,0)"), Err(ColorError::Value));
    assert_eq!(Notation::from("cmyk(0,0,0,101)"), Err(ColorError::Value));
    assert_eq!(Notation::from("cmyk(0,0,0,4294967296)"), Err(ColorError::Format));
    assert_eq!(Notation::from("cmyk(0,0,0)"), Err(ColorError::Format));
    assert_eq!(Notation::from("cmyk(0,0,0,0,0)"), Err(ColorError::Format));
    assert_eq!(Notation::from_cmyk_str("cmyk(1%,2%,3%,4%)"), Err(ColorError::Format));
}

#[test]
fn unknown_text_is_a_format_error() {
    assert_eq!(Notation::from(""), Err(ColorError::Format));
    assert_eq!(Notation::from("   "), Err(ColorError::Format));
    assert_eq!(Notation::from("red"), Err(ColorError::Format));
    assert_eq!(Notation::from("rgb"), Err(ColorError::Format));
    assert_eq!(Notation::from("lab(1,2,3)"), Err(ColorError::Format));
    assert_eq!(Notation::from("ff00aa"), Err(ColorError::Format));
}

#[test]
fn short_hex_reads_as_the_doubled_long_one() {
    let digits = b"0123456789abcdefABCDEF";
    for &x in digits.iter() {
        for &y in digits.iter() {
            let short = String::from_utf8(vec![b'#', x, y, x]).unwrap();
            let long = String::from_utf8(vec![b'#', x, x, y, y, x, x]).unwrap();
            assert!(Notation::from(&short).is_ok());
            assert_eq!(Notation::from(&short), Notation::from(&long));
        }
    }
}

#[test]
fn hex_letters_read_alike_in_both_cases() {
    assert_eq!(Notation::from("#abcdef"), Notation::from("#ABCDEF"));
    assert_eq!(Notation::from("#abcdef12"), Notation::from("#ABCDEF12"));
    assert_eq!(Notation::from("#fed"), Notation::from("#FED"));
}

#[test]
fn spaces_make_no_difference_outside_hex() {
    assert_eq!(Notation::from("hsl(120,45%,90%)"), Notation::from(" hsl( 120 , 45 % , 90 % ) "));
    assert_eq!(Notation::from("cmyk(1,2,3,4)"), Notation::from("c m y k (1, 2, 3, 4)"));
    assert_eq!(Notation::from("rgba(1,2,3,0.5)"), Notation::from("rgba(1,2,3,0 . 5)"));
    assert_eq!(Notation::from("hsl(1 2 0,45%,90%)"), Ok(hsl(120, 45, 90, Alpha::Opaque)));
}
