//! Walks through the grid, and how often a walk visits a cell.

use vstd::prelude::*;
use crate::grid::Point;

verus! {

/// The cells of a walk, in the order in which they are visited.
pub type Path = Vec<Point>;

/// How many times `c` occurs in `p`.
pub open spec fn occurrences(p: Seq<Point>, c: Point) -> nat
    decreases p.len(),
{
    if p.len() == 0 {
        0
    } else {
        occurrences(p.drop_last(), c) + if p.last() == c {
            1nat
        } else {
            0nat
        }
    }
}

/// The number of occurrences of `n` in `p`.
pub fn freq(n: &Point, p: &Path) -> (ret: usize)
    ensures
        ret == occurrences(p@, *n),
{
    let mut ret: usize = 0;
    let mut i: usize = 0;
    while i < p.len()
        invariant
            i <= p.len(),
            ret <= i,
            ret == occurrences(p@.take(i as int), *n),
        decreases p.len() - i,
    {
        assert(p@.take(i + 1).drop_last() == p@.take(i as int));
        if p[i] == *n {
            ret += 1;
        }
        i += 1;
    }
    assert(p@.take(p.len() as int) == p@);
    ret
}

/// Whether `c` occurs in `p`.
pub fn member(c: &Point, p: &Path) -> (b: bool)
    ensures
        b == p@.contains(*c),
{
    let mut i: usize = 0;
    while i < p.len()
        invariant
            i <= p.len(),
            forall|k: int| 0 <= k < i ==> p@[k] != *c,
        decreases p.len() - i,
    {
        if p[i] == *c {
            return true;
        }
        i += 1;
    }
    false
}

/// Appending a cell adds one to its count and leaves every other count as it was.
pub proof fn occurrences_push(p: Seq<Point>, d: Point, c: Point)
    ensures
        occurrences(p.push(d), c) == occurrences(p, c) + if d == c {
            1nat
        } else {
            0nat
        },
{
    assert(p.push(d).drop_last() == p);
}

/// The count of a cell is the number of positions of the walk that hold it:
/// it is the length of the walk with every other cell taken out, and never
/// more than the length of the walk.
pub proof fn occurrences_counts_equal_cells(p: Seq<Point>, c: Point)
    ensures
        occurrences(p, c) == p.filter(|d: Point| d == c).len(),
        occurrences(p, c) <= p.len(),
    decreases p.len(),
{
    reveal(Seq::filter);
    if p.len() > 0 {
        occurrences_counts_equal_cells(p.drop_last(), c);
    }
}

/// A cell is counted zero times exactly when the walk does not hold it.
pub proof fn occurrences_zero_iff_absent(p: Seq<Point>, c: Point)
    ensures
        occurrences(p, c) == 0 <==> !p.contains(c),
    decreases p.len(),
{
    if p.len() > 0 {
        occurrences_zero_iff_absent(p.drop_last(), c);
        if p.last() == c {
            assert(p[p.len() - 1] == c);
        } else if p.contains(c) {
            let i = choose|i: int| 0 <= i < p.len() && p[i] == c;
            assert(p.drop_last()[i] == c);
        } else if p.drop_last().contains(c) {
            let i = choose|i: int| 0 <= i < p.len() - 1 && p.drop_last()[i] == c;
            assert(p[i] == c);
        }
    }
}

} // verus!
