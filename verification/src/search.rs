//! The depth-first search for a walk from the bottom row to the top row.
//!
//! A walk goes from a cell to one of its neighbours. The cell at position `k`
//! of a walk (the start is at position 0) must have the colour of step `k` of
//! the sequence, and no cell may be entered that the walk already holds twice.
//! The search stops as soon as a cell of the top row is entered.
//!
//! From the last cell of the walk so far, the search first looks at every
//! neighbour in turn: the first one that may be entered and lies in the top
//! row ends the search. If there is none, each neighbour that may be entered
//! is tried in turn: it is appended, the search goes on from it, and if that
//! fails the cell is taken off the walk again before the next one is tried.

use vstd::prelude::*;
use crate::color::Color;
use crate::grid::{
    Maze, Point, adjacent, cells, color_at, color_of, inside, neighbor_list, neighbors,
    neighbors_are_the_adjacent_cells, square,
};
use crate::path::{Path, freq, occurrences, occurrences_push};
use crate::sequence::{Sequence, nth_in_sequence, step_color};

verus! {

/// Whether the walk `p` may go on to the cell `c`: `c` lies in the grid, has
/// the colour of the next step, and occurs in `p` less than twice.
pub open spec fn admissible(g: Seq<Seq<Color>>, s: Seq<Color>, p: Seq<Point>, c: Point) -> bool {
    &&& inside(c, g.len())
    &&& color_of(g, c) == step_color(s, p.len())
    &&& occurrences(p, c) < 2
}

/// Whether going on to `c` ends the walk `p` in the top row.
pub open spec fn is_exit(g: Seq<Seq<Color>>, s: Seq<Color>, p: Seq<Point>, c: Point) -> bool {
    admissible(g, s, p, c) && c.y == 0
}

/// Whether the walk `p` may go on to `c` without ending there.
pub open spec fn is_candidate(g: Seq<Seq<Color>>, s: Seq<Color>, p: Seq<Point>, c: Point) -> bool {
    admissible(g, s, p, c) && c.y != 0
}

/// The first cell of `ns` that ends the walk `p` in the top row.
pub open spec fn first_exit(
    g: Seq<Seq<Color>>,
    s: Seq<Color>,
    p: Seq<Point>,
    ns: Seq<Point>,
) -> Option<Point>
    decreases ns.len(),
{
    if ns.len() == 0 {
        None
    } else if is_exit(g, s, p, ns[0]) {
        Some(ns[0])
    } else {
        first_exit(g, s, p, ns.drop_first())
    }
}

/// How many more times the cell `c` may be entered by the walk `p`.
pub open spec fn room(p: Seq<Point>, c: Point) -> nat {
    if occurrences(p, c) >= 2 {
        0
    } else {
        (2 - occurrences(p, c)) as nat
    }
}

/// The room left in the first `k` cells of row `y`.
pub open spec fn row_room(p: Seq<Point>, y: nat, k: nat) -> nat
    decreases k,
{
    if k == 0 {
        0
    } else {
        row_room(p, y, (k - 1) as nat) + room(p, Point { x: (k - 1) as usize, y: y as usize })
    }
}

/// The room left in the first `k` rows of a grid of side `n`.
pub open spec fn rows_room(p: Seq<Point>, n: nat, k: nat) -> nat
    decreases k,
{
    if k == 0 {
        0
    } else {
        rows_room(p, n, (k - 1) as nat) + row_room(p, (k - 1) as nat, n)
    }
}

/// The number of cells that the walk `p` can still enter in a grid of side
/// `n`, each cell counted as often as it may still be entered. Every step of
/// the search uses up one, which is why the search ends.
pub open spec fn slack(p: Seq<Point>, n: nat) -> nat {
    rows_room(p, n, n)
}

proof fn row_room_push(p: Seq<Point>, d: Point, y: nat, k: nat)
    ensures
        row_room(p.push(d), y, k) <= row_room(p, y, k),
        d.y == y && d.x < k && occurrences(p, d) < 2 ==> row_room(p.push(d), y, k) < row_room(
            p,
            y,
            k,
        ),
    decreases k,
{
    if k > 0 {
        row_room_push(p, d, y, (k - 1) as nat);
        let c = Point { x: (k - 1) as usize, y: y as usize };
        occurrences_push(p, d, c);
    }
}

proof fn rows_room_push(p: Seq<Point>, d: Point, n: nat, k: nat)
    ensures
        rows_room(p.push(d), n, k) <= rows_room(p, n, k),
        d.x < n && d.y < k && occurrences(p, d) < 2 ==> rows_room(p.push(d), n, k) < rows_room(
            p,
            n,
            k,
        ),
    decreases k,
{
    if k > 0 {
        rows_room_push(p, d, n, (k - 1) as nat);
        row_room_push(p, d, (k - 1) as nat, n);
    }
}

/// Entering a cell of the grid that the walk holds less than twice uses up slack.
pub proof fn slack_decreases(p: Seq<Point>, d: Point, n: nat)
    requires
        inside(d, n),
        occurrences(p, d) < 2,
    ensures
        slack(p.push(d), n) < slack(p, n),
{
    rows_room_push(p, d, n, n);
}

/// The walk that the search finds from the walk `p`, if it finds one.
pub open spec fn search(g: Seq<Seq<Color>>, s: Seq<Color>, p: Seq<Point>) -> Option<Seq<Point>>
    decreases slack(p, g.len()), 1nat, 0nat,
{
    let ns = neighbor_list(p.last(), g.len());
    match first_exit(g, s, p, ns) {
        Some(c) => Some(p.push(c)),
        None => explore(g, s, p, ns),
    }
}

/// The walk that the search finds from `p` by going on to one of the cells
/// `ns` without ending there: the cells are tried in turn, and the first one
/// from which the search succeeds decides.
pub open spec fn explore(
    g: Seq<Seq<Color>>,
    s: Seq<Color>,
    p: Seq<Point>,
    ns: Seq<Point>,
) -> Option<Seq<Point>>
    decreases slack(p, g.len()), 0nat, ns.len(),
{
    if ns.len() == 0 {
        None
    } else {
        let found = if is_candidate(g, s, p, ns[0]) {
            proof {
                slack_decreases(p, ns[0], g.len());
            }
            search(g, s, p.push(ns[0]))
        } else {
            None
        };
        if found is Some {
            found
        } else {
            explore(g, s, p, ns.drop_first())
        }
    }
}

/// Whether position `i` of the walk `q` is a lawful step: the cell there is a
/// neighbour of the cell before it and may be entered after the walk up to it.
pub open spec fn lawful_step(g: Seq<Seq<Color>>, s: Seq<Color>, q: Seq<Point>, i: int) -> bool {
    &&& neighbor_list(q[i - 1], g.len()).contains(q[i])
    &&& admissible(g, s, q.take(i), q[i])
}

/// Whether `q` carries the walk `p` on to the top row: `q` begins with `p`
/// and is longer, every position after `p` is a lawful step, and the last
/// cell of `q` is the only one after `p` that lies in the top row.
pub open spec fn is_route(g: Seq<Seq<Color>>, s: Seq<Color>, p: Seq<Point>, q: Seq<Point>) -> bool {
    &&& 0 < p.len() < q.len()
    &&& q.take(p.len() as int) == p
    &&& forall|i: int| p.len() <= i < q.len() ==> lawful_step(g, s, q, i)
    &&& forall|i: int| p.len() <= i < q.len() - 1 ==> (#[trigger] q[i]).y != 0
    &&& q.last().y == 0
}

proof fn first_exit_is_some(g: Seq<Seq<Color>>, s: Seq<Color>, p: Seq<Point>, ns: Seq<Point>, i: int)
    requires
        0 <= i < ns.len(),
        is_exit(g, s, p, ns[i]),
        forall|k: int| 0 <= k < i ==> !is_exit(g, s, p, #[trigger] ns[k]),
    ensures
        first_exit(g, s, p, ns) == Some(ns[i]),
    decreases i,
{
    if i > 0 {
        let rest = ns.drop_first();
        assert(rest[i - 1] == ns[i]);
        assert forall|k: int| 0 <= k < i - 1 implies !is_exit(g, s, p, #[trigger] rest[k]) by {
            assert(rest[k] == ns[k + 1]);
        }
        first_exit_is_some(g, s, p, rest, i - 1);
    }
}

proof fn first_exit_is_none(g: Seq<Seq<Color>>, s: Seq<Color>, p: Seq<Point>, ns: Seq<Point>)
    ensures
        first_exit(g, s, p, ns) is None <==> forall|k: int|
            0 <= k < ns.len() ==> !is_exit(g, s, p, #[trigger] ns[k]),
        first_exit(g, s, p, ns) matches Some(c) ==> ns.contains(c) && is_exit(g, s, p, c),
    decreases ns.len(),
{
    if ns.len() > 0 {
        let rest = ns.drop_first();
        first_exit_is_none(g, s, p, rest);
        if is_exit(g, s, p, ns[0]) {
        } else if first_exit(g, s, p, rest) is None {
            assert forall|k: int| 0 <= k < ns.len() implies !is_exit(g, s, p, #[trigger] ns[k]) by {
                if k > 0 {
                    assert(rest[k - 1] == ns[k]);
                }
            }
        } else {
            let k = choose|k: int| 0 <= k < rest.len() && is_exit(g, s, p, #[trigger] rest[k]);
            assert(ns[k + 1] == rest[k]);
            let c = first_exit(g, s, p, rest)->0;
            let j = choose|j: int| 0 <= j < rest.len() && rest[j] == c;
            assert(ns[j + 1] == c);
        }
    }
}

/// A cell that cannot be gone on to without ending there does not change
/// what the search finds among the others.
proof fn explore_skips(
    g: Seq<Seq<Color>>,
    s: Seq<Color>,
    p: Seq<Point>,
    a: Seq<Point>,
    c: Point,
    b: Seq<Point>,
)
    requires
        !is_candidate(g, s, p, c),
    ensures
        explore(g, s, p, a.push(c) + b) == explore(g, s, p, a + b),
    decreases a.len(),
{
    if a.len() == 0 {
        assert((a.push(c) + b).drop_first() == b);
        assert(a + b == b);
    } else {
        assert((a.push(c) + b).drop_first() == a.drop_first().push(c) + b);
        assert((a + b).drop_first() == a.drop_first() + b);
        explore_skips(g, s, p, a.drop_first(), c, b);
    }
}

proof fn explore_finds_from(
    g: Seq<Seq<Color>>,
    s: Seq<Color>,
    p: Seq<Point>,
    ns: Seq<Point>,
    c: Point,
)
    requires
        ns.contains(c),
        is_candidate(g, s, p, c),
        search(g, s, p.push(c)) is Some,
    ensures
        explore(g, s, p, ns) is Some,
    decreases ns.len(),
{
    if ns[0] != c {
        let rest = ns.drop_first();
        let k = choose|k: int| 0 <= k < ns.len() && ns[k] == c;
        assert(rest[k - 1] == c);
        if !(is_candidate(g, s, p, ns[0]) && search(g, s, p.push(ns[0])) is Some) {
            explore_finds_from(g, s, p, rest, c);
        }
    }
}

proof fn route_from_first_step(
    g: Seq<Seq<Color>>,
    s: Seq<Color>,
    p: Seq<Point>,
    c: Point,
    q: Seq<Point>,
)
    requires
        p.len() > 0,
        neighbor_list(p.last(), g.len()).contains(c),
        is_candidate(g, s, p, c),
        is_route(g, s, p.push(c), q),
    ensures
        is_route(g, s, p, q),
{
    let pc = p.push(c);
    assert(q.take(p.len() as int) == p) by {
        assert(q.take(p.len() as int) =~= q.take(pc.len() as int).take(p.len() as int));
        assert(pc.take(p.len() as int) =~= p);
    }
    assert(q[p.len() as int] == c && q[p.len() - 1] == p.last()) by {
        assert(q.take(pc.len() as int)[p.len() as int] == pc[p.len() as int]);
        assert(q.take(pc.len() as int)[p.len() - 1] == pc[p.len() - 1]);
    }
    assert forall|i: int| p.len() <= i < q.len() implies lawful_step(g, s, q, i) by {
        if i > p.len() {
            assert(lawful_step(g, s, q, i));
        }
    }
    assert forall|i: int| p.len() <= i < q.len() - 1 implies (#[trigger] q[i]).y != 0 by {
        if i > p.len() {
            assert(pc.len() <= i);
        }
    }
}

/// What the search finds carries the walk on to the top row.
pub proof fn search_finds_routes(g: Seq<Seq<Color>>, s: Seq<Color>, p: Seq<Point>)
    requires
        p.len() > 0,
        search(g, s, p) is Some,
    ensures
        is_route(g, s, p, search(g, s, p)->0),
    decreases slack(p, g.len()), 1nat, 0nat,
{
    let ns = neighbor_list(p.last(), g.len());
    first_exit_is_none(g, s, p, ns);
    match first_exit(g, s, p, ns) {
        Some(c) => {
            let q = p.push(c);
            assert(q.take(p.len() as int) =~= p);
            assert(lawful_step(g, s, q, p.len() as int));
        },
        None => {
            explore_finds_routes(g, s, p, ns);
        },
    }
}

proof fn explore_finds_routes(g: Seq<Seq<Color>>, s: Seq<Color>, p: Seq<Point>, ns: Seq<Point>)
    requires
        p.len() > 0,
        explore(g, s, p, ns) is Some,
        forall|k: int|
            0 <= k < ns.len() ==> neighbor_list(p.last(), g.len()).contains(#[trigger] ns[k]),
    ensures
        is_route(g, s, p, explore(g, s, p, ns)->0),
    decreases slack(p, g.len()), 0nat, ns.len(),
{
    let c = ns[0];
    if is_candidate(g, s, p, c) && search(g, s, p.push(c)) is Some {
        slack_decreases(p, c, g.len());
        search_finds_routes(g, s, p.push(c));
        route_from_first_step(g, s, p, c, search(g, s, p.push(c))->0);
    } else {
        let rest = ns.drop_first();
        assert forall|k: int| 0 <= k < rest.len() implies neighbor_list(
            p.last(),
            g.len(),
        ).contains(#[trigger] rest[k]) by {
            assert(rest[k] == ns[k + 1]);
        }
        explore_finds_routes(g, s, p, rest);
    }
}

/// The search fails only where no walk carries `p` on to the top row.
pub proof fn search_misses_no_route(g: Seq<Seq<Color>>, s: Seq<Color>, p: Seq<Point>, q: Seq<Point>)
    requires
        is_route(g, s, p, q),
    ensures
        search(g, s, p) is Some,
    decreases slack(p, g.len()),
{
    let ns = neighbor_list(p.last(), g.len());
    let c = q[p.len() as int];
    let pc = p.push(c);
    assert(lawful_step(g, s, q, p.len() as int));
    assert(q[p.len() - 1] == p.last()) by {
        assert(q.take(p.len() as int)[p.len() - 1] == q[p.len() - 1]);
    }
    first_exit_is_none(g, s, p, ns);
    if first_exit(g, s, p, ns) is None {
        let k = choose|k: int| 0 <= k < ns.len() && ns[k] == c;
        assert(!is_exit(g, s, p, ns[k]));
        assert(q.take(pc.len() as int) =~= pc);
        assert forall|i: int| pc.len() <= i < q.len() implies lawful_step(g, s, q, i) by {
            assert(p.len() <= i);
        }
        assert(is_route(g, s, pc, q));
        slack_decreases(p, c, g.len());
        search_misses_no_route(g, s, pc, q);
        explore_finds_from(g, s, p, ns, c);
    }
}

/// Searches for a walk that carries `p` on to the top row.
///
/// On success the walk found is returned and `p` holds it too. On failure `p`
/// is left as it was: every cell that the search appended has been taken off
/// again.
pub fn find_path(p: &mut Path, m: &Maze, s: &Sequence) -> (found: Option<Path>)
    requires
        square(cells(m)),
        s.len() > 0,
        old(p).len() > 0,
        inside(old(p)@.last(), m.len() as nat),
    ensures
        match found {
            Some(q) => {
                &&& search(cells(m), s@, old(p)@) == Some(q@)
                &&& is_route(cells(m), s@, old(p)@, q@)
                &&& final(p)@ == q@
            },
            None => {
                &&& search(cells(m), s@, old(p)@) is None
                &&& forall|q: Seq<Point>| !is_route(cells(m), s@, old(p)@, q)
                &&& final(p)@ == old(p)@
            },
        },
    decreases slack(old(p)@, m.len() as nat),
{
    let ghost g = cells(m);
    let ghost p0 = p@;
    let last = p[p.len() - 1];
    let around = neighbors(&last, m);
    let wanted = nth_in_sequence(s, p.len());
    proof {
        neighbors_are_the_adjacent_cells(last, m.len() as nat);
    }
    let mut matches: Vec<Point> = Vec::new();
    let mut i: usize = 0;
    assert(matches@ + around@.skip(0) == around@);
    while i < around.len()
        invariant
            i <= around.len(),
            p@ == p0,
            p0 == old(p)@,
            p0.len() > 0,
            g == cells(m),
            square(g),
            s.len() > 0,
            wanted == step_color(s@, p0.len()),
            around@ == neighbor_list(p0.last(), g.len()),
            forall|k: int| 0 <= k < around.len() ==> inside(#[trigger] around@[k], g.len()),
            forall|k: int| 0 <= k < i ==> !is_exit(g, s@, p0, #[trigger] around@[k]),
            forall|k: int| 0 <= k < matches.len() ==> is_candidate(g, s@, p0, #[trigger] matches@[k]),
            explore(g, s@, p0, around@) == explore(g, s@, p0, matches@ + around@.skip(i as int)),
        decreases around.len() - i,
    {
        let n = around[i];
        let ghost before = matches@;
        assert(around@.skip(i as int) == seq![n] + around@.skip(i + 1));
        if color_at(m, &n) == wanted && freq(&n, p) < 2 {
            if n.y == 0 {
                p.push(n);
                let q = p.clone();
                proof {
                    first_exit_is_some(g, s@, p0, around@, i as int);
                    search_finds_routes(g, s@, p0);
                    assert(q@ == p@);
                }
                return Some(q);
            }
            matches.push(n);
            assert(matches@ + around@.skip(i + 1) == before + around@.skip(i as int));
        } else {
            proof {
                explore_skips(g, s@, p0, before, n, around@.skip(i + 1));
                assert(before.push(n) + around@.skip(i + 1) == before + around@.skip(i as int));
            }
        }
        i += 1;
    }
    proof {
        first_exit_is_none(g, s@, p0, around@);
        assert(matches@ + around@.skip(i as int) == matches@);
        assert(matches@.skip(0) == matches@);
    }
    let mut j: usize = 0;
    while j < matches.len()
        invariant
            j <= matches.len(),
            p@ == p0,
            p0 == old(p)@,
            p0.len() > 0,
            g == cells(m),
            square(g),
            s.len() > 0,
            forall|k: int| 0 <= k < matches.len() ==> is_candidate(g, s@, p0, #[trigger] matches@[k]),
            search(g, s@, p0) == explore(g, s@, p0, matches@.skip(j as int)),
        decreases matches.len() - j,
    {
        let c = matches[j];
        proof {
            assert(matches@.skip(j as int)[0] == c);
            assert(matches@.skip(j as int).drop_first() == matches@.skip(j + 1));
            slack_decreases(p0, c, g.len());
        }
        p.push(c);
        match find_path(p, m, s) {
            Some(q) => {
                proof {
                    search_finds_routes(g, s@, p0);
                }
                return Some(q);
            },
            None => {
                p.pop();
                assert(p@ == p0);
            },
        }
        j += 1;
    }
    proof {
        assert forall|q: Seq<Point>| !is_route(g, s@, p0, q) by {
            if is_route(g, s@, p0, q) {
                search_misses_no_route(g, s@, p0, q);
            }
        }
    }
    None
}

/// Every step of a route keeps the rules: the cell entered lies in the grid,
/// shares an edge with the cell before it, has the colour of its step, and
/// was entered less than twice before.
pub proof fn routes_keep_the_rules(
    g: Seq<Seq<Color>>,
    s: Seq<Color>,
    p: Seq<Point>,
    q: Seq<Point>,
    i: int,
)
    requires
        is_route(g, s, p, q),
        inside(p.last(), g.len()),
        g.len() <= usize::MAX,
        p.len() <= i < q.len(),
    ensures
        inside(q[i], g.len()),
        inside(q[i - 1], g.len()),
        adjacent(q[i - 1], q[i]),
        color_of(g, q[i]) == step_color(s, i as nat),
        occurrences(q.take(i), q[i]) < 2,
    decreases i,
{
    assert(lawful_step(g, s, q, i));
    if i == p.len() {
        assert(q.take(p.len() as int)[i - 1] == q[i - 1]);
    } else {
        routes_keep_the_rules(g, s, p, q, i - 1);
    }
    neighbors_are_the_adjacent_cells(q[i - 1], g.len());
}

/// A route enters no cell a third time: a cell that the walk held at most
/// twice before is held at most twice by the route.
pub proof fn routes_hold_no_cell_three_times(
    g: Seq<Seq<Color>>,
    s: Seq<Color>,
    p: Seq<Point>,
    q: Seq<Point>,
    c: Point,
)
    requires
        is_route(g, s, p, q),
        occurrences(p, c) <= 2,
    ensures
        occurrences(q, c) <= 2,
{
    holds_at_most_twice(g, s, p, q, c, q.len() as int);
    assert(q.take(q.len() as int) == q);
}

proof fn holds_at_most_twice(
    g: Seq<Seq<Color>>,
    s: Seq<Color>,
    p: Seq<Point>,
    q: Seq<Point>,
    c: Point,
    k: int,
)
    requires
        is_route(g, s, p, q),
        occurrences(p, c) <= 2,
        p.len() <= k <= q.len(),
    ensures
        occurrences(q.take(k), c) <= 2,
    decreases k,
{
    if k > p.len() {
        holds_at_most_twice(g, s, p, q, c, k - 1);
        assert(lawful_step(g, s, q, k - 1));
        assert(q.take(k) == q.take(k - 1).push(q[k - 1]));
        occurrences_push(q.take(k - 1), q[k - 1], c);
    }
}

/// In a grid of a single cell no walk can be carried on: the cell has no
/// neighbour, so the search finds nothing, even though the cell is in the top
/// row and in the bottom row at once.
pub proof fn single_cell_grid_has_no_route(g: Seq<Seq<Color>>, s: Seq<Color>, p: Seq<Point>)
    requires
        g.len() == 1,
        p.len() > 0,
        inside(p.last(), 1),
    ensures
        search(g, s, p) is None,
        forall|q: Seq<Point>| !is_route(g, s, p, q),
{
    assert(neighbor_list(p.last(), 1).len() == 0);
    assert forall|q: Seq<Point>| !is_route(g, s, p, q) by {
        if is_route(g, s, p, q) {
            search_misses_no_route(g, s, p, q);
        }
    }
}

/// The walks of a list of paths.
pub open spec fn walks(paths: &Vec<Path>) -> Seq<Seq<Point>> {
    Seq::new(paths.len() as nat, |i: int| paths[i]@)
}

/// The cell in column `x` of the bottom row of a grid of side `n`.
pub open spec fn start_cell(x: nat, n: nat) -> Point {
    Point { x: x as usize, y: (n - 1) as usize }
}

/// The walks found from the first `k` cells of the bottom row, one search
/// per cell, in the order of the columns. A cell from which the search fails
/// adds nothing.
pub open spec fn solutions(g: Seq<Seq<Color>>, s: Seq<Color>, k: nat) -> Seq<Seq<Point>>
    decreases k,
{
    if k == 0 {
        Seq::empty()
    } else {
        let before = solutions(g, s, (k - 1) as nat);
        match search(g, s, seq![start_cell((k - 1) as nat, g.len())]) {
            Some(q) => before.push(q),
            None => before,
        }
    }
}

/// Whether `q` leads from the cell in column `x` of the bottom row of the
/// grid to the top row.
pub open spec fn solves_from(g: Seq<Seq<Color>>, s: Seq<Color>, x: nat, q: Seq<Point>) -> bool {
    is_route(g, s, seq![start_cell(x, g.len())], q)
}

/// Every walk among the solutions leads from one of the first `k` cells of
/// the bottom row to the top row.
pub proof fn solutions_are_routes(g: Seq<Seq<Color>>, s: Seq<Color>, k: nat, i: int)
    requires
        0 <= i < solutions(g, s, k).len(),
    ensures
        exists|x: nat| x < k && solves_from(g, s, x, solutions(g, s, k)[i]),
    decreases k,
{
    if k > 0 {
        let j = (k - 1) as nat;
        let before = solutions(g, s, j);
        if i < before.len() {
            solutions_are_routes(g, s, j, i);
            let x = choose|x: nat| x < j && solves_from(g, s, x, before[i]);
            assert(solves_from(g, s, x, solutions(g, s, k)[i]));
        } else {
            search_finds_routes(g, s, seq![start_cell(j, g.len())]);
            assert(solves_from(g, s, j, solutions(g, s, k)[i]));
        }
    }
}

/// The solutions stand in the order of the columns that they start from, and
/// no two of them start from the same column.
pub proof fn solutions_keep_column_order(g: Seq<Seq<Color>>, s: Seq<Color>, k: nat, i: int, j: int)
    requires
        k <= g.len() <= usize::MAX,
        0 <= i < j < solutions(g, s, k).len(),
    ensures
        solutions(g, s, k)[i][0].x < solutions(g, s, k)[j][0].x < k,
    decreases k,
{
    if k > 0 {
        let before = solutions(g, s, (k - 1) as nat);
        if j < before.len() {
            solutions_keep_column_order(g, s, (k - 1) as nat, i, j);
        } else {
            let start = start_cell((k - 1) as nat, g.len());
            search_finds_routes(g, s, seq![start]);
            let q = solutions(g, s, k)[j];
            assert(q.take(1)[0] == start);
            solutions_are_routes(g, s, (k - 1) as nat, i);
            let x = choose|x: nat| x < k - 1 && solves_from(g, s, x, before[i]);
            assert(before[i].take(1)[0] == start_cell(x, g.len()));
        }
    }
}

/// There is no solution exactly when no walk leads from any of the first `k`
/// cells of the bottom row to the top row, and there is at most one solution
/// for each of these cells.
pub proof fn no_solutions_iff_no_route(g: Seq<Seq<Color>>, s: Seq<Color>, k: nat)
    ensures
        solutions(g, s, k).len() == 0 <==> forall|x: nat, q: Seq<Point>|
            x < k ==> !solves_from(g, s, x, q),
        solutions(g, s, k).len() <= k,
    decreases k,
{
    if k > 0 {
        let j = (k - 1) as nat;
        let start = start_cell(j, g.len());
        no_solutions_iff_no_route(g, s, j);
        if search(g, s, seq![start]) is Some {
            search_finds_routes(g, s, seq![start]);
            assert(solves_from(g, s, j, search(g, s, seq![start])->0));
        } else if solutions(g, s, j).len() == 0 {
            assert forall|x: nat, q: Seq<Point>| x < k implies !solves_from(g, s, x, q) by {
                if x == j && solves_from(g, s, x, q) {
                    search_misses_no_route(g, s, seq![start], q);
                }
            }
        } else {
            let x = choose|x: nat, q: Seq<Point>| x < j && solves_from(g, s, x, q);
            assert(x.0 < k && solves_from(g, s, x.0, x.1));
        }
    }
}

/// Searches from every cell of the bottom row in turn, left to right, and
/// returns the walks found, in that order. The list is empty when no search
/// succeeds.
pub fn solve(m: &Maze, s: &Sequence) -> (paths: Vec<Path>)
    requires
        square(cells(m)),
        s.len() > 0,
    ensures
        walks(&paths) == solutions(cells(m), s@, m.len() as nat),
        forall|i: int|
            0 <= i < paths.len() ==> {
                &&& (#[trigger] paths[i])@[0].y == m.len() - 1
                &&& paths[i]@.last().y == 0
                &&& is_route(cells(m), s@, seq![paths[i]@[0]], paths[i]@)
            },
        paths.len() == 0 <==> forall|x: nat, q: Seq<Point>|
            x < m.len() ==> !solves_from(cells(m), s@, x, q),
{
    let ghost g = cells(m);
    let n = m.len();
    let bottom = n - 1;
    let mut paths: Vec<Path> = Vec::new();
    let mut x: usize = 0;
    assert(walks(&paths) == solutions(g, s@, 0));
    assert(g[bottom as int].len() == n);
    while x < m[bottom].len()
        invariant
            x <= n,
            n == m.len(),
            bottom == n - 1,
            g == cells(m),
            square(g),
            s.len() > 0,
            m[bottom as int].len() == n,
            walks(&paths) == solutions(g, s@, x as nat),
        decreases n - x,
    {
        let ghost before = walks(&paths);
        let start = Point { x: x, y: bottom };
        let mut path: Path = Vec::new();
        path.push(start);
        assert(path@ == seq![start_cell(x as nat, g.len())]);
        match find_path(&mut path, m, s) {
            Some(result) => {
                paths.push(result);
                assert(walks(&paths) == before.push(result@));
            },
            None => {},
        }
        x += 1;
    }
    proof {
        no_solutions_iff_no_route(g, s@, n as nat);
        assert(walks(&paths).len() == paths.len());
        assert forall|i: int| 0 <= i < paths.len() implies {
            &&& (#[trigger] paths[i])@[0].y == m.len() - 1
            &&& paths[i]@.last().y == 0
            &&& is_route(g, s@, seq![paths[i]@[0]], paths[i]@)
        } by {
            solutions_are_routes(g, s@, n as nat, i);
            let q = paths[i]@;
            assert(q == walks(&paths)[i]);
            let c = choose|c: nat| c < n && solves_from(g, s@, c, q);
            assert(q.take(1)[0] == start_cell(c, g.len()));
        }
    }
    paths
}

} // verus!
