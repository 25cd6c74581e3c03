//! The picture of a walk: the grid with every cell off the walk blanked out.

use vstd::prelude::*;
use crate::color::{Color, letter_of};
use crate::grid::{Maze, Point, cells};
use crate::path::{Path, member};

verus! {

/// The character shown for the cell in column `x` of row `y`: the letter of
/// its colour where the walk holds the cell, a dot where it does not.
pub open spec fn shown(g: Seq<Seq<Color>>, p: Seq<Point>, x: int, y: int) -> char {
    if p.contains(Point { x: x as usize, y: y as usize }) {
        letter_of(g[y][x])
    } else {
        '.'
    }
}

/// The first `k` characters of the line for row `y`.
pub open spec fn line_start(g: Seq<Seq<Color>>, p: Seq<Point>, y: int, k: nat) -> Seq<char> {
    Seq::new(k, |x: int| shown(g, p, x, y))
}

/// The line for row `y`: one character for each cell of the row, then a line feed.
pub open spec fn line(g: Seq<Seq<Color>>, p: Seq<Point>, y: int) -> Seq<char> {
    line_start(g, p, y, g[y].len()).push('\n')
}

/// The lines for the first `k` rows, one after the other.
pub open spec fn lines_upto(g: Seq<Seq<Color>>, p: Seq<Point>, k: nat) -> Seq<char>
    decreases k,
{
    if k == 0 {
        Seq::empty()
    } else {
        lines_upto(g, p, (k - 1) as nat) + line(g, p, k - 1)
    }
}

/// The picture of the walk `p` on the grid `g`: the lines of all rows, top row first.
pub open spec fn picture(g: Seq<Seq<Color>>, p: Seq<Point>) -> Seq<char> {
    lines_upto(g, p, g.len())
}

/// The letter of a colour as a string of one character.
fn letter_text(c: Color) -> (t: &'static str)
    ensures
        t@ == seq![letter_of(c)],
{
    proof {
        reveal_strlit("R");
        reveal_strlit("O");
        reveal_strlit("Y");
        reveal_strlit("G");
        reveal_strlit("B");
        reveal_strlit("P");
    }
    let t = match c {
        Color::R => "R",
        Color::O => "O",
        Color::Y => "Y",
        Color::G => "G",
        Color::B => "B",
        Color::P => "P",
    };
    assert(t@ =~= seq![letter_of(c)]);
    t
}

/// Draws the grid with the walk on it: one line for each row, top row first,
/// one character for each cell, each line ended by a line feed. A cell of the
/// walk shows the letter of its colour, every other cell a dot.
pub fn render(m: &Maze, p: &Path) -> (out: String)
    ensures
        out@ == picture(cells(m), p@),
{
    let ghost g = cells(m);
    let mut out = String::new();
    let mut y: usize = 0;
    while y < m.len()
        invariant
            y <= m.len(),
            g == cells(m),
            out@ == lines_upto(g, p@, y as nat),
        decreases m.len() - y,
    {
        let ghost above = out@;
        let mut x: usize = 0;
        assert(line_start(g, p@, y as int, 0) == Seq::<char>::empty());
        while x < m[y].len()
            invariant
                y < m.len(),
                x <= m[y as int].len(),
                g == cells(m),
                out@ == above + line_start(g, p@, y as int, x as nat),
            decreases m[y as int].len() - x,
        {
            proof {
                reveal_strlit(".");
                assert(line_start(g, p@, y as int, (x + 1) as nat) == line_start(
                    g,
                    p@,
                    y as int,
                    x as nat,
                ).push(shown(g, p@, x as int, y as int)));
            }
            if member(&Point { x: x, y: y }, p) {
                out.append(letter_text(m[y][x]));
                assert(out@ == above + line_start(g, p@, y as int, (x + 1) as nat));
            } else {
                out.append(".");
                assert("."@ =~= seq!['.']);
                assert(out@ == above + line_start(g, p@, y as int, (x + 1) as nat));
            }
            x += 1;
        }
        proof {
            reveal_strlit("\n");
            assert("\n"@ =~= seq!['\n']);
        }
        out.append("\n");
        assert(out@ == above + line(g, p@, y as int));
        y += 1;
    }
    out
}

/// The picture depends on nothing but the grid and the walk: two pictures
/// drawn of the same grid and the same walk are the same text.
pub proof fn render_is_repeatable(m: &Maze, p: &Path, first: String, second: String)
    requires
        first@ == picture(cells(m), p@),
        second@ == picture(cells(m), p@),
    ensures
        first@ == second@,
{
}

/// The lines for the first `k` rows of a square grid hold `g.len() + 1`
/// characters each.
pub proof fn picture_length(g: Seq<Seq<Color>>, p: Seq<Point>, k: nat)
    requires
        k <= g.len(),
        forall|y: int| 0 <= y < g.len() ==> (#[trigger] g[y]).len() == g.len(),
    ensures
        lines_upto(g, p, k).len() == k * (g.len() + 1),
    decreases k,
{
    let w = g.len() + 1;
    if k > 0 {
        let j = (k - 1) as nat;
        picture_length(g, p, j);
        assert(line(g, p, k - 1).len() == w);
        assert(lines_upto(g, p, k).len() == lines_upto(g, p, j).len() + w);
        assert(k * w == j * w + w) by (nonlinear_arith)
            requires
                k == j + 1,
        ;
    } else {
        assert(k * w == 0) by (nonlinear_arith)
            requires
                k == 0,
        ;
    }
}

/// In the picture of a square grid, the character for the cell in column `x`
/// of row `y` stands at position `y * (g.len() + 1) + x`, and each line ends
/// with a line feed.
pub proof fn picture_shows_each_cell(g: Seq<Seq<Color>>, p: Seq<Point>, x: int, y: int)
    requires
        0 <= x < g.len(),
        0 <= y < g.len(),
        forall|r: int| 0 <= r < g.len() ==> (#[trigger] g[r]).len() == g.len(),
    ensures
        picture(g, p).len() == g.len() * (g.len() + 1),
        0 <= y * (g.len() + 1) + x < picture(g, p).len(),
        picture(g, p)[y * (g.len() + 1) + x] == shown(g, p, x, y),
        picture(g, p)[y * (g.len() + 1) + g.len()] == '\n',
{
    picture_length(g, p, g.len());
    prefix_of_picture(g, p, (y + 1) as nat, g.len());
    picture_length(g, p, y as nat);
    picture_length(g, p, (y + 1) as nat);
    let w = g.len() + 1;
    assert((y + 1) * w == y * w + w) by (nonlinear_arith);
    assert((y + 1) * w <= g.len() * w) by (nonlinear_arith)
        requires
            y + 1 <= g.len(),
            w >= 0,
    ;
    assert(y * w >= 0) by (nonlinear_arith)
        requires
            y >= 0,
            w >= 0,
    ;
    let upto = lines_upto(g, p, (y + 1) as nat);
    assert(upto == lines_upto(g, p, y as nat) + line(g, p, y));
    assert(upto[y * w + x] == line(g, p, y)[x]);
    assert(upto[y * w + g.len()] == line(g, p, y)[g.len() as int]);
}

proof fn prefix_of_picture(g: Seq<Seq<Color>>, p: Seq<Point>, k: nat, n: nat)
    requires
        k <= n,
    ensures
        lines_upto(g, p, k).len() <= lines_upto(g, p, n).len(),
        forall|i: int|
            0 <= i < lines_upto(g, p, k).len() ==> lines_upto(g, p, n)[i] == lines_upto(g, p, k)[i],
    decreases n - k,
{
    if k < n {
        prefix_of_picture(g, p, k, (n - 1) as nat);
    }
}

} // verus!
