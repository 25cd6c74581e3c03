//! From the text of a puzzle to the picture of its first solution.

use vstd::prelude::*;
use crate::grid::{cells, is_square, square};
use crate::parse::{ParseError, colors_in, parse, rows_of, text_lines};
use crate::render::{picture, render};
use crate::search::{solutions, solve, walks};

verus! {

/// Why a text gives no picture.
#[derive(Clone, Copy, Debug, PartialEq, Eq, Structural)]
pub enum Failure {
    /// The text describes no puzzle.
    Input(ParseError),
    /// The rows after the first line do not make a square grid.
    NotSquare,
    /// No walk leads from the bottom row to the top row.
    NoPath,
}

impl Failure {
    /// A short description of the failure.
    pub fn message(&self) -> (text: &'static str)
        ensures
            text@ == match *self {
                Failure::Input(ParseError::MissingSequence) => "empty input"@,
                Failure::Input(ParseError::EmptySequence) => "the first line holds no colour"@,
                Failure::NotSquare => "the grid is not square"@,
                Failure::NoPath => "no path from the bottom row to the top row"@,
            },
    {
        match self {
            Failure::Input(e) => e.message(),
            Failure::NotSquare => "the grid is not square",
            Failure::NoPath => "no path from the bottom row to the top row",
        }
    }
}

/// What a text comes to: the picture of the first walk found, trying the
/// cells of the bottom row from left to right, or the reason why there is
/// none.
pub open spec fn outcome(t: Seq<char>) -> Result<Seq<char>, Failure> {
    let lines = text_lines(t);
    if lines.len() == 0 {
        Err(Failure::Input(ParseError::MissingSequence))
    } else if colors_in(lines[0]).len() == 0 {
        Err(Failure::Input(ParseError::EmptySequence))
    } else if !square(rows_of(lines)) {
        Err(Failure::NotSquare)
    } else {
        let found = solutions(rows_of(lines), colors_in(lines[0]), rows_of(lines).len());
        if found.len() == 0 {
            Err(Failure::NoPath)
        } else {
            Ok(picture(rows_of(lines), found[0]))
        }
    }
}

/// Reads the puzzle in `text`, searches from every cell of the bottom row,
/// and draws the first walk found on the grid.
pub fn solve_puzzle(text: &str) -> (r: Result<String, Failure>)
    ensures
        match r {
            Ok(out) => outcome(text@) == Ok::<Seq<char>, Failure>(out@),
            Err(e) => outcome(text@) == Err::<Seq<char>, Failure>(e),
        },
{
    match parse(text) {
        Err(e) => Err(Failure::Input(e)),
        Ok((maze, seq)) => {
            if !is_square(&maze) {
                return Err(Failure::NotSquare);
            }
            let paths = solve(&maze, &seq);
            if paths.len() == 0 {
                assert(walks(&paths).len() == 0);
                return Err(Failure::NoPath);
            }
            assert(walks(&paths)[0] == paths[0]@);
            Ok(render(&maze, &paths[0]))
        },
    }
}

} // verus!
