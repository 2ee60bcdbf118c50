use vstd::prelude::*;

verus! {

/// One entry of the display's 7-colour palette.
#[derive(Clone, Copy, Debug, PartialEq, Eq, Structural)]
pub enum Color {
    White,
    Black,
    Green,
    Blue,
    Red,
    Yellow,
    Orange,
}

/// A decoded 3-bit group did not name a palette entry.
#[derive(Clone, Copy, Debug, PartialEq, Eq, Structural)]
pub enum CodecError {
    InvalidPaletteIndex,
}

/// Number of entries in the palette; the indices `0..PALETTE_LEN` are valid.
pub const PALETTE_LEN: u8 = 7;

impl Color {
    /// The canonical palette index of a colour.
    pub open spec fn index(self) -> u8 {
        match self {
            Color::White => 0,
            Color::Black => 1,
            Color::Green => 2,
            Color::Blue => 3,
            Color::Red => 4,
            Color::Yellow => 5,
            Color::Orange => 6,
        }
    }

    /// The colour with palette index `i`, if there is one.
    pub open spec fn of_index(i: u8) -> Option<Color> {
        if i == 0 {
            Some(Color::White)
        } else if i == 1 {
            Some(Color::Black)
        } else if i == 2 {
            Some(Color::Green)
        } else if i == 3 {
            Some(Color::Blue)
        } else if i == 4 {
            Some(Color::Red)
        } else if i == 5 {
            Some(Color::Yellow)
        } else if i == 6 {
            Some(Color::Orange)
        } else {
            None
        }
    }

    /// Every colour's index is below the palette length, and maps back to it.
    pub broadcast proof fn lemma_index_round_trip(c: Color)
        ensures
            #[trigger] c.index() < PALETTE_LEN,
            Color::of_index(c.index()) == Some(c),
    {
    }

    /// An index names a colour exactly when it is below the palette length.
    pub broadcast proof fn lemma_of_index(i: u8)
        ensures
            (#[trigger] Color::of_index(i)) is Some <==> i < PALETTE_LEN,
            Color::of_index(i) is Some ==> Color::of_index(i)->Some_0.index() == i,
    {
    }
}

impl From<Color> for u8 {
    fn from(pixel: Color) -> (r: u8)
        ensures
            r == pixel.index(),
    {
        match pixel {
            Color::White => 0,
            Color::Black => 1,
            Color::Green => 2,
            Color::Blue => 3,
            Color::Red => 4,
            Color::Yellow => 5,
            Color::Orange => 6,
        }
    }
}

impl vstd::std_specs::convert::FromSpecImpl<Color> for u8 {
    open spec fn obeys_from_spec() -> bool {
        true
    }

    open spec fn from_spec(v: Color) -> u8 {
        v.index()
    }
}

impl TryFrom<u8> for Color {
    type Error = CodecError;

    fn try_from(value: u8) -> (r: Result<Color, CodecError>)
        ensures
            r == match Color::of_index(value) {
                Some(c) => Ok(c),
                None => Err(CodecError::InvalidPaletteIndex),
            },
    {
        match value {
            0 => Ok(Color::White),
            1 => Ok(Color::Black),
            2 => Ok(Color::Green),
            3 => Ok(Color::Blue),
            4 => Ok(Color::Red),
            5 => Ok(Color::Yellow),
            6 => Ok(Color::Orange),
            _ => Err(CodecError::InvalidPaletteIndex),
        }
    }
}

impl vstd::std_specs::convert::TryFromSpecImpl<u8> for Color {
    open spec fn obeys_try_from_spec() -> bool {
        true
    }

    open spec fn try_from_spec(v: u8) -> Result<Color, CodecError> {
        match Color::of_index(v) {
            Some(c) => Ok(c),
            None => Err(CodecError::InvalidPaletteIndex),
        }
    }
}

} // verus!
