//! The grid of coloured cells, cell coordinates, and the neighbours of a cell.

use vstd::prelude::*;
use crate::color::Color;

verus! {

/// A cell coordinate: column `x` and row `y`. Row 0 is the top row.
#[derive(Clone, Copy, Debug, PartialEq, Eq, Structural)]
pub struct Point {
    pub x: usize,
    pub y: usize,
}

/// The grid, row by row: `m[y][x]` is the colour of the cell in column `x` of row `y`.
pub type Maze = Vec<Vec<Color>>;

/// The colours of a grid as a sequence of rows.
pub open spec fn cells(m: &Maze) -> Seq<Seq<Color>> {
    Seq::new(m.len() as nat, |y: int| m[y]@)
}

/// A grid is square when it has at least one row and every row is as long as
/// the grid has rows.
pub open spec fn square(g: Seq<Seq<Color>>) -> bool {
    &&& g.len() > 0
    &&& forall|y: int| 0 <= y < g.len() ==> (#[trigger] g[y]).len() == g.len()
}

/// Whether `c` lies in a square grid of side `n`.
pub open spec fn inside(c: Point, n: nat) -> bool {
    c.x < n && c.y < n
}

/// The colour of the cell at `c`.
pub open spec fn color_of(g: Seq<Seq<Color>>, c: Point) -> Color {
    g[c.y as int][c.x as int]
}

/// Whether two cells share an edge.
pub open spec fn adjacent(a: Point, b: Point) -> bool {
    ||| a.y == b.y && (a.x + 1 == b.x || b.x + 1 == a.x)
    ||| a.x == b.x && (a.y + 1 == b.y || b.y + 1 == a.y)
}

/// The neighbours of `c` in a square grid of side `n`, in the order in which
/// the search tries them: left, right, up, down, leaving out those that
/// would fall off the grid.
pub open spec fn neighbor_list(c: Point, n: nat) -> Seq<Point> {
    let left = if c.x > 0 {
        seq![Point { x: (c.x - 1) as usize, y: c.y }]
    } else {
        Seq::<Point>::empty()
    };
    let right = if c.x + 1 < n {
        seq![Point { x: (c.x + 1) as usize, y: c.y }]
    } else {
        Seq::<Point>::empty()
    };
    let up = if c.y > 0 {
        seq![Point { x: c.x, y: (c.y - 1) as usize }]
    } else {
        Seq::<Point>::empty()
    };
    let down = if c.y + 1 < n {
        seq![Point { x: c.x, y: (c.y + 1) as usize }]
    } else {
        Seq::<Point>::empty()
    };
    left + right + up + down
}

/// How many of the four sides of `c` lie on the border of a grid of side `n`.
pub open spec fn border_sides(c: Point, n: nat) -> nat {
    let left: nat = if c.x == 0 { 1 } else { 0 };
    let right: nat = if c.x + 1 == n { 1 } else { 0 };
    let top: nat = if c.y == 0 { 1 } else { 0 };
    let bottom: nat = if c.y + 1 == n { 1 } else { 0 };
    left + right + top + bottom
}

/// The number of rows of the grid, which is also its number of columns when
/// the grid is square.
pub fn size(m: &Maze) -> (n: usize)
    ensures
        n == cells(m).len(),
{
    m.len()
}

/// The colour of the cell at `c`.
pub fn color_at(m: &Maze, c: &Point) -> (color: Color)
    requires
        c.y < cells(m).len(),
        c.x < cells(m)[c.y as int].len(),
    ensures
        color == color_of(cells(m), *c),
{
    m[c.y][c.x]
}

/// Whether the grid is square.
pub fn is_square(m: &Maze) -> (b: bool)
    ensures
        b == square(cells(m)),
{
    let n = m.len();
    if n == 0 {
        return false;
    }
    let mut y: usize = 0;
    while y < n
        invariant
            y <= n,
            n == m.len(),
            forall|k: int| 0 <= k < y ==> (#[trigger] cells(m)[k]).len() == n,
        decreases n - y,
    {
        if m[y].len() != n {
            assert(cells(m)[y as int].len() != n);
            return false;
        }
        y += 1;
    }
    true
}

/// The cells next to `p` in a grid with as many rows and columns as `m` has
/// rows: left, right, up, down, without those that would fall off the grid.
pub fn neighbors(p: &Point, m: &Maze) -> (ret: Vec<Point>)
    requires
        m.len() > 0,
    ensures
        ret@ == neighbor_list(*p, m.len() as nat),
{
    let mut ret: Vec<Point> = Vec::new();
    if p.x > 0 {
        ret.push(Point { x: p.x - 1, y: p.y });
    }
    if p.x < m.len() - 1 {
        ret.push(Point { x: p.x + 1, y: p.y });
    }
    if p.y > 0 {
        ret.push(Point { x: p.x, y: p.y - 1 });
    }
    if p.y < m.len() - 1 {
        ret.push(Point { x: p.x, y: p.y + 1 });
    }
    ret
}

/// Every neighbour of a cell of the grid lies in the grid and shares an edge
/// with the cell, no neighbour is listed twice, and every cell of the grid
/// that shares an edge with the cell is listed.
pub proof fn neighbors_are_the_adjacent_cells(c: Point, n: nat)
    requires
        inside(c, n),
        n <= usize::MAX,
    ensures
        forall|i: int|
            0 <= i < neighbor_list(c, n).len() ==> {
                &&& inside(#[trigger] neighbor_list(c, n)[i], n)
                &&& adjacent(c, neighbor_list(c, n)[i])
            },
        neighbor_list(c, n).no_duplicates(),
        forall|d: Point| inside(d, n) && adjacent(c, d) ==> neighbor_list(c, n).contains(d),
{
    let ns = neighbor_list(c, n);
    assert forall|d: Point| inside(d, n) && adjacent(c, d) implies ns.contains(d) by {
        if d.y == c.y && d.x + 1 == c.x {
            assert(ns[0] == d);
        } else if d.y == c.y && c.x + 1 == d.x {
            let k: int = if c.x > 0 { 1 } else { 0 };
            assert(ns[k] == d);
        } else if d.x == c.x && d.y + 1 == c.y {
            let k: int = (if c.x > 0 { 1int } else { 0int }) + (if c.x + 1 < n { 1int } else { 0int });
            assert(ns[k] == d);
        } else {
            assert(ns[ns.len() - 1] == d);
        }
    }
}

/// A cell of the grid has four neighbours less one for each of its sides on
/// the border: in a grid of side two or more, two at a corner, three on an
/// edge and four in the interior.
pub proof fn neighbor_count(c: Point, n: nat)
    requires
        inside(c, n),
    ensures
        neighbor_list(c, n).len() + border_sides(c, n) == 4,
        n >= 2 ==> 2 <= neighbor_list(c, n).len() <= 4,
        n >= 2 && border_sides(c, n) == 2 ==> neighbor_list(c, n).len() == 2,
        n >= 2 && border_sides(c, n) == 1 ==> neighbor_list(c, n).len() == 3,
        n >= 2 && border_sides(c, n) == 0 ==> neighbor_list(c, n).len() == 4,
{
}

} // verus!
