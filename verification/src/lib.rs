//! Textual color notations on bytes and integers.
//!
//! [`notation`] recognizes hex codes and the functional notations `rgb`,
//! `rgba`, `hsl`, `hsla`, `hsv` and `cmyk`, and hands back the integers and
//! the opacity that a text writes. [`channels`] holds the three 8-bit
//! channels of a color, inverts them and renders them as a hex code or as
//! `rgb(r,g,b)`. [`hue`] tells which channel takes which part when a hue is
//! turned into channels. [`grammar`] and [`digits`] are the scanners and the
//! number readers underneath, and [`lemmas`] states what holds between the
//! recognizers and the renderers.

pub mod channels;
pub mod digits;
pub mod error;
pub mod grammar;
pub mod hue;
pub mod lemmas;
pub mod notation;
