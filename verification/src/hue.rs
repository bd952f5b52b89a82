use vstd::prelude::*;
use crate::error::ColorError;

verus! {

/// The intermediate quantity that a channel takes when a hue is turned into
/// red, green and blue: the chroma, the secondary component, or nothing.
#[derive(Debug, Clone, Copy, PartialEq, Eq, Structural)]
pub enum Part {
    Chroma,
    Secondary,
    Zero,
}

/// Which part each of the three channels takes.
#[derive(Debug, Clone, Copy, PartialEq, Eq, Structural)]
pub struct Arrangement {
    pub red: Part,
    pub green: Part,
    pub blue: Part,
}

/// The arrangement for each of the six sectors of the hue circle, 60 degrees
/// wide each, counted from zero.
pub open spec fn sector_arrangement(sector: int) -> Arrangement {
    if sector == 0 {
        Arrangement { red: Part::Chroma, green: Part::Secondary, blue: Part::Zero }
    } else if sector == 1 {
        Arrangement { red: Part::Secondary, green: Part::Chroma, blue: Part::Zero }
    } else if sector == 2 {
        Arrangement { red: Part::Zero, green: Part::Chroma, blue: Part::Secondary }
    } else if sector == 3 {
        Arrangement { red: Part::Zero, green: Part::Secondary, blue: Part::Chroma }
    } else if sector == 4 {
        Arrangement { red: Part::Secondary, green: Part::Zero, blue: Part::Chroma }
    } else {
        Arrangement { red: Part::Chroma, green: Part::Zero, blue: Part::Secondary }
    }
}

/// The arrangement that a hue in degrees selects; a value error for a hue of
/// 360 or more.
pub open spec fn hue_arrangement(hue: u32) -> Result<Arrangement, ColorError> {
    if hue < 360 {
        Ok(sector_arrangement(hue as int / 60))
    } else {
        Err(ColorError::Value)
    }
}

impl Arrangement {
    /// Whether the three channels take three different parts.
    pub open spec fn is_permutation(self) -> bool {
        self.red != self.green && self.green != self.blue && self.red != self.blue
    }
}

/// Selects, for a hue in degrees, which channel takes the chroma, which the
/// secondary component and which nothing.
pub fn arrangement(hue: u32) -> (r: Result<Arrangement, ColorError>)
    ensures
        r == hue_arrangement(hue),
        r is Ok ==> r.unwrap().is_permutation(),
{
    if hue < 60 {
        Ok(Arrangement { red: Part::Chroma, green: Part::Secondary, blue: Part::Zero })
    } else if hue < 120 {
        Ok(Arrangement { red: Part::Secondary, green: Part::Chroma, blue: Part::Zero })
    } else if hue < 180 {
        Ok(Arrangement { red: Part::Zero, green: Part::Chroma, blue: Part::Secondary })
    } else if hue < 240 {
        Ok(Arrangement { red: Part::Zero, green: Part::Secondary, blue: Part::Chroma })
    } else if hue < 300 {
        Ok(Arrangement { red: Part::Secondary, green: Part::Zero, blue: Part::Chroma })
    } else if hue < 360 {
        Ok(Arrangement { red: Part::Chroma, green: Part::Zero, blue: Part::Secondary })
    } else {
        Err(ColorError::Value)
    }
}

} // verus!
