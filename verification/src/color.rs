//! The six colours a cell can have, and the letters that stand for them.

use vstd::prelude::*;

verus! {

/// One of the six colours of a cell.
#[derive(Clone, Copy, Debug, PartialEq, Eq, Structural)]
pub enum Color {
    R,
    O,
    Y,
    G,
    B,
    P,
}

/// The colour that a character stands for, if it stands for one.
pub open spec fn color_of_char(c: char) -> Option<Color> {
    if c == 'R' {
        Some(Color::R)
    } else if c == 'O' {
        Some(Color::O)
    } else if c == 'Y' {
        Some(Color::Y)
    } else if c == 'G' {
        Some(Color::G)
    } else if c == 'B' {
        Some(Color::B)
    } else if c == 'P' {
        Some(Color::P)
    } else {
        None
    }
}

/// The letter that stands for a colour.
pub open spec fn letter_of(c: Color) -> char {
    match c {
        Color::R => 'R',
        Color::O => 'O',
        Color::Y => 'Y',
        Color::G => 'G',
        Color::B => 'B',
        Color::P => 'P',
    }
}

impl Color {
    /// Reads a colour from its letter; every other character gives `None`.
    pub fn from_char(c: char) -> (r: Option<Color>)
        ensures
            r == color_of_char(c),
    {
        match c {
            'R' => Some(Color::R),
            'O' => Some(Color::O),
            'Y' => Some(Color::Y),
            'G' => Some(Color::G),
            'B' => Some(Color::B),
            'P' => Some(Color::P),
            _ => None,
        }
    }

    /// The letter of this colour.
    pub fn letter(&self) -> (c: char)
        ensures
            c == letter_of(*self),
    {
        match self {
            Color::R => 'R',
            Color::O => 'O',
            Color::Y => 'Y',
            Color::G => 'G',
            Color::B => 'B',
            Color::P => 'P',
        }
    }
}

/// Reading the letter of a colour gives that colour back.
pub proof fn letter_round_trip(c: Color)
    ensures
        color_of_char(letter_of(c)) == Some(c),
{
}

/// A character stands for a colour exactly when it is that colour's letter.
pub proof fn only_letters_are_colors(ch: char, c: Color)
    ensures
        color_of_char(ch) == Some(c) <==> ch == letter_of(c),
{
}

} // verus!
