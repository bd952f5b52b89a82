use icolor::channels::Channels;
use icolor::error::ColorError;
use icolor::hue::{arrangement, Arrangement, Part};
use icolor::notation::{Alpha, Components, Notation};

#[test]
fn rgb_to_hex() {
    assert_eq!(Channels::from_rgb(16, 76, 136).to_hex(), "#104C88");
    assert_eq!(Channels::from_rgb(255, 0, 170).to_hex(), "#FF00AA");
    assert_eq!(Channels::from_rgb(0, 0, 0).to_hex(), "#000000");
    assert_eq!(Channels::from_rgb(1, 10, 15).to_hex(), "#010A0F");
    assert_eq!(Channels::from_rgb(255, 127, 212).to_hex(), "#FF7FD4");
}

#[test]
fn hex_with_alpha_last_or_first() {
    let c = Channels::from_rgb(255, 0, 170);
    assert_eq!(c.to_hex_alpha(255), "#FF00AAFF");
    assert_eq!(c.to_alpha_hex(255), "#FFFF00AA");
    assert_eq!(Channels::from_rgb(255, 0, 0).to_hex_alpha(127), "#FF00007F");
    assert_eq!(Channels::from_rgb(0, 0, 0).to_alpha_hex(127), "#7F000000");
    assert_eq!(Channels::from_rgb(1, 2, 3).to_alpha_hex(4), "#04010203");
}

#[test]
fn rgb_text_has_no_leading_zeros() {
    assert_eq!(Channels::from_rgb(255, 0, 170).to_rgb(), "rgb(255,0,170)");
    assert_eq!(Channels::from_rgb(127, 127, 127).to_rgb(), "rgb(127,127,127)");
    assert_eq!(Channels::from_rgb(0, 9, 10).to_rgb(), "rgb(0,9,10)");
    assert_eq!(Channels::from_rgb(99, 100, 101).to_rgb(), "rgb(99,100,101)");
    assert_eq!(Channels::from_rgb(200, 109, 110).to_rgb(), "rgb(200,109,110)");
}

#[test]
fn negate_takes_each_channel_from_255() {
    let mut c = Channels::from_rgb(16, 76, 136);
    c.negate();
    assert_eq!(c, Channels { red: 239, green: 179, blue: 119 });
    let mut d = Channels::from_rgb(0, 255, 128);
    d.negate();
    assert_eq!(d, Channels { red: 255, green: 0, blue: 127 });
}

#[test]
fn negate_can_be_chained() {
    let mut c = Channels::from_rgb(16, 76, 136);
    assert_eq!(c.negate().to_hex(), "#EFB377");
    assert_eq!(c.negate().negate().to_rgb(), "rgb(239,179,119)");
    assert_eq!(*c.negate(), Channels::from_rgb(16, 76, 136));
}

#[test]
fn negate_twice_gives_the_channels_back() {
    for v in 0..=255u8 {
        let start = Channels::from_rgb(v, 255 - v, v / 2);
        let mut c = start;
        c.negate();
        c.negate();
        assert_eq!(c, start);
    }
}

#[test]
fn hex_text_reads_back_as_the_same_channels() {
    for v in 0..=255u8 {
        let c = Channels::from_rgb(v, 255 - v, v.wrapping_mul(7));
        let n = Notation::from(&c.to_hex());
        assert_eq!(n, Ok(Notation { components: Components::Rgb(c), alpha: Alpha::Opaque }));
        let m = Notation::from(&c.to_hex_alpha(v));
        assert_eq!(m, Ok(Notation { components: Components::Rgb(c), alpha: Alpha::Byte(v) }));
    }
}

#[test]
fn rgb_text_reads_back_as_the_same_channels() {
    for v in 0..=255u8 {
        let c = Channels::from_rgb(v, 255 - v, v.wrapping_mul(7));
        let n = Notation::from(&c.to_rgb());
        assert_eq!(n, Ok(Notation { components: Components::Rgb(c), alpha: Alpha::Opaque }));
    }
}

#[test]
fn hue_selects_one_of_six_arrangements() {
    let a = |red, green, blue| Ok(Arrangement { red, green, blue });
    assert_eq!(arrangement(0), a(Part::Chroma, Part::Secondary, Part::Zero));
    assert_eq!(arrangement(59), a(Part::Chroma, Part::Secondary, Part::Zero));
    assert_eq!(arrangement(60), a(Part::Secondary, Part::Chroma, Part::Zero));
    assert_eq!(arrangement(119), a(Part::Secondary, Part::Chroma, Part::Zero));
    assert_eq!(arrangement(120), a(Part::Zero, Part::Chroma, Part::Secondary));
    assert_eq!(arrangement(180), a(Part::Zero, Part::Secondary, Part::Chroma));
    assert_eq!(arrangement(210), a(Part::Zero, Part::Secondary, Part::Chroma));
    assert_eq!(arrangement(240), a(Part::Secondary, Part::Zero, Part::Chroma));
    assert_eq!(arrangement(300), a(Part::Chroma, Part::Zero, Part::Secondary));
    assert_eq!(arrangement(359), a(Part::Chroma, Part::Zero, Part::Secondary));
}

#[test]
fn hue_of_a_full_turn_is_a_value_error() {
    assert_eq!(arrangement(360), Err(ColorError::Value));
    assert_eq!(arrangement(u32::MAX), Err(ColorError::Value));
}
