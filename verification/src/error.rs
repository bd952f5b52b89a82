use vstd::prelude::*;

verus! {

/// The two ways in which reading a color can fail.
#[derive(Debug, Clone, Copy, PartialEq, Eq, Structural)]
pub enum ColorError {
    /// The text matches none of the accepted notations, or a token of it
    /// cannot be decoded.
    Format,
    /// The text is well formed, but a component lies outside its range.
    Value,
}

} // verus!
