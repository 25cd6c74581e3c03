//! Reading a puzzle from text: the sequence on the first line, the grid on
//! the lines after it.

use vstd::prelude::*;
use crate::color::{Color, color_of_char};
use crate::grid::{Maze, cells};
use crate::sequence::Sequence;

verus! {

/// The text cut at every line feed: the pieces between the line feeds, of
/// which there is one more than there are line feeds.
pub open spec fn pieces(t: Seq<char>) -> Seq<Seq<char>>
    decreases t.len(),
{
    if t.len() == 0 {
        seq![Seq::<char>::empty()]
    } else {
        let before = pieces(t.drop_last());
        if t.last() == '\n' {
            before.push(Seq::<char>::empty())
        } else {
            before.drop_last().push(before.last().push(t.last()))
        }
    }
}

/// The lines of a text. Every line feed ends a line; what follows the last
/// line feed is a line too unless it is empty.
pub open spec fn text_lines(t: Seq<char>) -> Seq<Seq<char>> {
    if pieces(t).last().len() == 0 {
        pieces(t).drop_last()
    } else {
        pieces(t)
    }
}

/// The colours whose letters occur in `t`, in the order of the letters.
/// Every other character is passed over.
pub open spec fn colors_in(t: Seq<char>) -> Seq<Color>
    decreases t.len(),
{
    if t.len() == 0 {
        Seq::empty()
    } else {
        match color_of_char(t.last()) {
            Some(c) => colors_in(t.drop_last()).push(c),
            None => colors_in(t.drop_last()),
        }
    }
}

/// The rows of the grid that a text with these lines describes: the
/// colours of each line after the first.
pub open spec fn rows_of(lines: Seq<Seq<char>>) -> Seq<Seq<Color>> {
    if lines.len() == 0 {
        Seq::empty()
    } else {
        Seq::new((lines.len() - 1) as nat, |i: int| colors_in(lines[i + 1]))
    }
}

/// Why a text describes no puzzle.
#[derive(Clone, Copy, Debug, PartialEq, Eq, Structural)]
pub enum ParseError {
    /// The text has no line at all.
    MissingSequence,
    /// The first line of the text holds no colour letter.
    EmptySequence,
}

impl ParseError {
    /// A short description of the error.
    pub fn message(&self) -> (text: &'static str)
        ensures
            text@ == match *self {
                ParseError::MissingSequence => "empty input"@,
                ParseError::EmptySequence => "the first line holds no colour"@,
            },
    {
        match self {
            ParseError::MissingSequence => "empty input",
            ParseError::EmptySequence => "the first line holds no colour",
        }
    }
}

/// Cutting a text always gives at least one piece.
pub proof fn pieces_is_not_empty(t: Seq<char>)
    ensures
        pieces(t).len() >= 1,
    decreases t.len(),
{
    if t.len() > 0 {
        pieces_is_not_empty(t.drop_last());
    }
}

/// Reads a puzzle from `text`.
///
/// The first line gives the sequence, each line after it one row of the
/// grid, top row first. On every line only the letters of the six colours
/// count; all other characters are passed over. The rows are returned as
/// they stand: whether they make a square grid is not looked at.
pub fn parse(text: &str) -> (r: Result<(Maze, Sequence), ParseError>)
    ensures
        match r {
            Ok((m, s)) => {
                &&& text_lines(text@).len() > 0
                &&& s@ == colors_in(text_lines(text@)[0])
                &&& s.len() > 0
                &&& cells(&m) == rows_of(text_lines(text@))
            },
            Err(ParseError::MissingSequence) => text_lines(text@).len() == 0,
            Err(ParseError::EmptySequence) => {
                &&& text_lines(text@).len() > 0
                &&& colors_in(text_lines(text@)[0]).len() == 0
            },
        },
{
    broadcast use vstd::string::group_string_axioms;
    let mut seq: Sequence = Vec::new();
    let mut maze: Maze = Vec::new();
    let mut row: Vec<Color> = Vec::new();
    let mut first_done = false;
    let mut pending = false;
    assert(text@.take(0) == Seq::<char>::empty());
    assert(cells(&maze) == rows_of(pieces(text@.take(0)).drop_last()));
    for c in it: text.chars()
        invariant
            it.seq() == text@,
            pieces(text@.take(it.index())).len() >= 1,
            row@ == colors_in(pieces(text@.take(it.index())).last()),
            pending == (pieces(text@.take(it.index())).last().len() > 0),
            first_done == (pieces(text@.take(it.index())).len() > 1),
            first_done ==> seq@ == colors_in(pieces(text@.take(it.index()))[0]),
            !first_done ==> seq@.len() == 0,
            cells(&maze) == rows_of(pieces(text@.take(it.index())).drop_last()),
    {
        let ghost t = text@.take(it.index());
        let ghost t1 = text@.take(it.index() + 1);
        let ghost ps = pieces(t);
        let ghost above = cells(&maze);
        proof {
            assert(t1.drop_last() == t);
            assert(t1.last() == c);
            pieces_is_not_empty(t1);
        }
        if c == '\n' {
            if first_done {
                maze.push(row);
                assert(cells(&maze) == above.push(colors_in(ps.last())));
            } else {
                seq = row;
                first_done = true;
            }
            row = Vec::new();
            pending = false;
            assert(pieces(t1) == ps.push(Seq::<char>::empty()));
            assert(pieces(t1).drop_last() == ps);
            assert(cells(&maze) == rows_of(ps));
        } else {
            match Color::from_char(c) {
                Some(color) => {
                    row.push(color);
                },
                None => {},
            }
            pending = true;
            assert(pieces(t1) == ps.drop_last().push(ps.last().push(c)));
            assert(pieces(t1).last().drop_last() == ps.last());
            assert(pieces(t1).drop_last() == ps.drop_last());
        }
    }
    let ghost ps = pieces(text@);
    let ghost above = cells(&maze);
    assert(text@.take(text@.len() as int) == text@);
    if pending {
        if first_done {
            maze.push(row);
            assert(cells(&maze) == above.push(colors_in(ps.last())));
            assert(cells(&maze) == rows_of(ps));
        } else {
            seq = row;
            first_done = true;
            assert(cells(&maze) == rows_of(ps));
        }
    }
    if !first_done {
        Err(ParseError::MissingSequence)
    } else if seq.len() == 0 {
        Err(ParseError::EmptySequence)
    } else {
        Ok((maze, seq))
    }
}

/// A text without a line feed is a single piece.
pub proof fn pieces_of_one_line(a: Seq<char>)
    requires
        !a.contains('\n'),
    ensures
        pieces(a) == seq![a],
    decreases a.len(),
{
    if a.len() > 0 {
        assert(a.last() == a[a.len() - 1]);
        assert forall|i: int| 0 <= i < a.len() - 1 implies a.drop_last()[i] != '\n' by {
            assert(a.contains(a[i]));
        }
        pieces_of_one_line(a.drop_last());
        assert(a.drop_last().push(a.last()) == a);
        assert(seq![a.drop_last()].drop_last().push(a) == seq![a]);
    } else {
        assert(a == Seq::<char>::empty());
    }
}

/// The first piece of a text is what stands before its first line feed, and
/// the other pieces are those of what stands after that line feed.
pub proof fn pieces_after_line_feed(a: Seq<char>, b: Seq<char>)
    requires
        !a.contains('\n'),
    ensures
        pieces(a.push('\n') + b) == seq![a] + pieces(b),
    decreases b.len(),
{
    let t = a.push('\n') + b;
    if b.len() == 0 {
        assert(t == a.push('\n'));
        assert(t.drop_last() == a);
        pieces_of_one_line(a);
        assert(seq![a].push(Seq::<char>::empty()) == seq![a] + seq![Seq::<char>::empty()]);
    } else {
        assert(t.drop_last() == a.push('\n') + b.drop_last());
        assert(t.last() == b.last());
        pieces_after_line_feed(a, b.drop_last());
        pieces_is_not_empty(b.drop_last());
        let inner = pieces(b.drop_last());
        let whole = seq![a] + inner;
        if b.last() == '\n' {
            assert(whole.push(Seq::<char>::empty()) == seq![a] + inner.push(Seq::<char>::empty()));
        } else {
            assert(whole.drop_last().push(whole.last().push(b.last())) == seq![a]
                + inner.drop_last().push(inner.last().push(b.last())));
        }
    }
}

/// The first line of a text ends at its first line feed, and the other lines
/// are those of what stands after that line feed. A text without a line feed
/// is one line, or none if it is empty.
pub proof fn lines_after_line_feed(a: Seq<char>, b: Seq<char>)
    requires
        !a.contains('\n'),
    ensures
        text_lines(a.push('\n') + b) == seq![a] + text_lines(b),
        text_lines(a) == if a.len() == 0 {
            Seq::<Seq<char>>::empty()
        } else {
            seq![a]
        },
{
    pieces_after_line_feed(a, b);
    pieces_of_one_line(a);
    pieces_is_not_empty(b);
    let inner = pieces(b);
    let whole = seq![a] + inner;
    assert(whole.last() == inner.last());
    assert(whole.drop_last() == seq![a] + inner.drop_last());
    assert(seq![a].drop_last() == Seq::<Seq<char>>::empty());
}

/// The colours of a text made of two parts are those of the first part
/// followed by those of the second.
pub proof fn colors_in_concat(a: Seq<char>, b: Seq<char>)
    ensures
        colors_in(a + b) == colors_in(a) + colors_in(b),
    decreases b.len(),
{
    if b.len() == 0 {
        assert(a + b == a);
        assert(colors_in(a) + colors_in(b) == colors_in(a));
    } else {
        assert((a + b).drop_last() == a + b.drop_last());
        assert((a + b).last() == b.last());
        colors_in_concat(a, b.drop_last());
        match color_of_char(b.last()) {
            Some(c) => {
                assert((colors_in(a) + colors_in(b.drop_last())).push(c) == colors_in(a)
                    + colors_in(b.drop_last()).push(c));
            },
            None => {},
        }
    }
}

} // verus!
