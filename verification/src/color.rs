//! The six facelet colours and their numeric codes.

use vstd::prelude::*;

verus! {

/// A facelet colour. The declaration order is the order of the codes.
#[derive(Debug, Clone, Copy, PartialEq, Eq, PartialOrd, Ord)]
pub enum Color {
    W,
    Y,
    O,
    R,
    G,
    B,
}

/// The six colours, by rising code.
pub const ALL_COLORS: [Color; 6] = [Color::W, Color::Y, Color::O, Color::R, Color::G, Color::B];

impl Color {
    /// The code of a colour: 0 for `W` up to 5 for `B`.
    pub open spec fn code(self) -> u8 {
        match self {
            Color::W => 0,
            Color::Y => 1,
            Color::O => 2,
            Color::R => 3,
            Color::G => 4,
            Color::B => 5,
        }
    }

    /// The colour with a given code; `W` stands in for codes above 5.
    pub open spec fn of_code(value: u8) -> Color {
        if value == 0 {
            Color::W
        } else if value == 1 {
            Color::Y
        } else if value == 2 {
            Color::O
        } else if value == 3 {
            Color::R
        } else if value == 4 {
            Color::G
        } else if value == 5 {
            Color::B
        } else {
            Color::W
        }
    }

    /// The letter a colour is printed as.
    pub open spec fn letter(self) -> char {
        match self {
            Color::W => 'W',
            Color::Y => 'Y',
            Color::O => 'O',
            Color::R => 'R',
            Color::G => 'G',
            Color::B => 'B',
        }
    }

    /// The code of the colour.
    pub fn to_u8(&self) -> (value: u8)
        ensures
            value == self.code(),
            value < 6,
    {
        match self {
            Color::W => 0,
            Color::Y => 1,
            Color::O => 2,
            Color::R => 3,
            Color::G => 4,
            Color::B => 5,
        }
    }

    /// The colour with the given code. There is none for a code above 5.
    pub fn from_u8(value: u8) -> (color: Color)
        requires
            value < 6,
        ensures
            color == Color::of_code(value),
            color.code() == value,
    {
        if value == 0 {
            Color::W
        } else if value == 1 {
            Color::Y
        } else if value == 2 {
            Color::O
        } else if value == 3 {
            Color::R
        } else if value == 4 {
            Color::G
        } else {
            Color::B
        }
    }
}

/// Codes and colours correspond one to one.
pub proof fn lemma_color_code_round_trip(color: Color)
    ensures
        color.code() < 6,
        Color::of_code(color.code()) == color,
{
}

/// Two colours with one code are one colour.
pub proof fn lemma_color_code_injective(a: Color, b: Color)
    requires
        a.code() == b.code(),
    ensures
        a == b,
{
}

} // verus!
