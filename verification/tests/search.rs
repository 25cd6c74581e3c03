use color_maze::grid::{Maze, Point};
use color_maze::parse::parse;
use color_maze::path::{freq, Path};
use color_maze::search::{find_path, solve};
use color_maze::sequence::{nth_in_sequence, Sequence};

fn puzzle(text: &str) -> (Maze, Sequence) {
    parse(text).unwrap()
}

fn pt(x: usize, y: usize) -> Point {
    Point { x, y }
}

fn adjacent(a: &Point, b: &Point) -> bool {
    let dx = if a.x > b.x { a.x - b.x } else { b.x - a.x };
    let dy = if a.y > b.y { a.y - b.y } else { b.y - a.y };
    dx + dy == 1
}

/// Whether `q` is a walk from the bottom row to the top row that keeps the rules.
fn keeps_the_rules(m: &Maze, s: &Sequence, q: &Path) -> bool {
    let n = m.len();
    if q.len() < 2 || q[0].y != n - 1 || q[q.len() - 1].y != 0 {
        return false;
    }
    for i in 1..q.len() {
        let before: Path = q[..i].to_vec();
        let ok = q[i].x < n
            && q[i].y < n
            && adjacent(&q[i - 1], &q[i])
            && m[q[i].y][q[i].x] == nth_in_sequence(s, i)
            && freq(&q[i], &before) < 2
            && (q[i].y != 0 || i == q.len() - 1);
        if !ok {
            return false;
        }
    }
    true
}

#[test]
fn find_path_ends_at_a_matching_top_neighbor() {
    let (m, s) = puzzle("RG\nGR\nRG\n");
    let mut p: Path = vec![pt(0, 1)];
    let found = find_path(&mut p, &m, &s);
    assert_eq!(found, Some(vec![pt(0, 1), pt(0, 0)]));
    assert_eq!(p, vec![pt(0, 1), pt(0, 0)]);
}

#[test]
fn find_path_looks_for_the_top_row_before_it_goes_deeper() {
    // The cell to the right of the start matches and leads to the top row,
    // and it comes before the cell above in the order of the neighbours; the
    // cell above matches too and lies in the top row, so the walk ends there.
    let (m, s) = puzzle("RG\nGR\nRG\n");
    let mut longer: Path = vec![pt(0, 1), pt(1, 1)];
    assert_eq!(find_path(&mut longer, &m, &s), Some(vec![pt(0, 1), pt(1, 1), pt(1, 0)]));
    let mut p: Path = vec![pt(0, 1)];
    assert_eq!(find_path(&mut p, &m, &s), Some(vec![pt(0, 1), pt(0, 0)]));
}

#[test]
fn find_path_fails_without_matching_neighbor() {
    let (m, s) = puzzle("RG\nGR\nRG\n");
    let mut p: Path = vec![pt(1, 1)];
    assert_eq!(find_path(&mut p, &m, &s), None);
    assert_eq!(p, vec![pt(1, 1)]);
}

#[test]
fn find_path_goes_straight_up() {
    let (m, s) = puzzle("RGB\nBOO\nGOO\nROO\n");
    let mut p: Path = vec![pt(0, 2)];
    let found = find_path(&mut p, &m, &s);
    assert_eq!(found, Some(vec![pt(0, 2), pt(0, 1), pt(0, 0)]));
    assert_eq!(p, vec![pt(0, 2), pt(0, 1), pt(0, 0)]);
}

#[test]
fn find_path_does_not_look_at_the_color_of_the_start() {
    let (m, s) = puzzle("RGB\nBOO\nGOO\nPOO\n");
    let mut p: Path = vec![pt(0, 2)];
    assert_eq!(find_path(&mut p, &m, &s), Some(vec![pt(0, 2), pt(0, 1), pt(0, 0)]));
}

#[test]
fn find_path_takes_failed_cells_off_again() {
    // The cell to the left of the start matches but leads nowhere; the walk
    // found goes through the cell to the right and does not hold the left one.
    let (m, s) = puzzle("RGB\nOOR\nOOB\nGRG\n");
    let mut p: Path = vec![pt(1, 2)];
    let found = find_path(&mut p, &m, &s);
    let expected = vec![pt(1, 2), pt(2, 2), pt(2, 1), pt(2, 0)];
    assert_eq!(found, Some(expected.clone()));
    assert_eq!(p, expected);
    assert!(keeps_the_rules(&m, &s, &p));
}

#[test]
fn find_path_tries_the_left_neighbor_before_the_right_one() {
    let (m, s) = puzzle("RGB\nROR\nBOB\nGOG\n");
    let mut p: Path = vec![pt(1, 2)];
    let found = find_path(&mut p, &m, &s);
    assert_eq!(found, Some(vec![pt(1, 2), pt(0, 2), pt(0, 1), pt(0, 0)]));
}

#[test]
fn find_path_may_enter_a_cell_twice() {
    let (m, s) = puzzle("RGBY\nYO\nBG\n");
    let mut p: Path = vec![pt(0, 1)];
    let found = find_path(&mut p, &m, &s);
    let expected = vec![pt(0, 1), pt(1, 1), pt(0, 1), pt(0, 0)];
    assert_eq!(found, Some(expected.clone()));
    assert_eq!(p, expected);
    assert_eq!(freq(&pt(0, 1), &p), 2);
}

#[test]
fn find_path_never_enters_a_cell_a_third_time() {
    let (m, s) = puzzle("R\nOO\nRR\n");
    let mut p: Path = vec![pt(0, 1)];
    assert_eq!(find_path(&mut p, &m, &s), None);
    assert_eq!(p, vec![pt(0, 1)]);
    let mut p: Path = vec![pt(1, 1)];
    assert_eq!(find_path(&mut p, &m, &s), None);
    assert_eq!(p, vec![pt(1, 1)]);
}

#[test]
fn find_path_counts_the_cells_already_on_the_path() {
    let (m, s) = puzzle("R\nOR\nRR\n");
    let mut p: Path = vec![pt(0, 1)];
    assert_eq!(find_path(&mut p, &m, &s), Some(vec![pt(0, 1), pt(1, 1), pt(1, 0)]));
    let mut p: Path = vec![pt(0, 1), pt(1, 1), pt(0, 1)];
    assert_eq!(
        find_path(&mut p, &m, &s),
        Some(vec![pt(0, 1), pt(1, 1), pt(0, 1), pt(1, 1), pt(1, 0)])
    );
    let walked = vec![pt(0, 1), pt(1, 1), pt(0, 1), pt(1, 1), pt(0, 1)];
    let mut p: Path = walked.clone();
    assert_eq!(find_path(&mut p, &m, &s), None);
    assert_eq!(p, walked);
}

#[test]
fn find_path_follows_the_order_of_the_search() {
    let (m, s) = puzzle("R\nRRR\nRRR\nRRR\n");
    let mut p: Path = vec![pt(0, 2)];
    let found = find_path(&mut p, &m, &s);
    let expected =
        vec![pt(0, 2), pt(1, 2), pt(0, 2), pt(1, 2), pt(2, 2), pt(2, 1), pt(2, 0)];
    assert_eq!(found, Some(expected.clone()));
    assert_eq!(p, expected);
    assert!(keeps_the_rules(&m, &s, &p));
}

#[test]
fn find_path_on_a_single_cell_finds_nothing() {
    // The only cell is in the bottom row and in the top row at once, but it
    // has no neighbour to go on to.
    let (m, s) = puzzle("R\nR\n");
    let mut p: Path = vec![pt(0, 0)];
    assert_eq!(find_path(&mut p, &m, &s), None);
    assert_eq!(p, vec![pt(0, 0)]);
    assert_eq!(solve(&m, &s), Vec::<Path>::new());
}

#[test]
fn solve_collects_the_walks_in_column_order() {
    let (m, s) = puzzle("RGR\nRYR\nGOG\nPOP\n");
    let paths = solve(&m, &s);
    assert_eq!(
        paths,
        vec![vec![pt(0, 2), pt(0, 1), pt(0, 0)], vec![pt(2, 2), pt(2, 1), pt(2, 0)]]
    );
    for q in &paths {
        assert!(keeps_the_rules(&m, &s, q));
    }
}

#[test]
fn solve_finds_one_walk_for_each_start_that_has_one() {
    let (m, s) = puzzle("R\nRRR\nRRR\nRRR\n");
    let paths = solve(&m, &s);
    assert_eq!(paths.len(), 3);
    for (x, q) in paths.iter().enumerate() {
        assert_eq!(q[0], pt(x, 2));
        assert!(keeps_the_rules(&m, &s, q));
        let mut p: Path = vec![pt(x, 2)];
        assert_eq!(find_path(&mut p, &m, &s), Some(q.clone()));
    }
}

#[test]
fn solve_skips_the_starts_without_a_walk() {
    let (m, s) = puzzle("RGB\nROR\nBOB\nGOG\n");
    assert_eq!(solve(&m, &s), vec![vec![pt(1, 2), pt(0, 2), pt(0, 1), pt(0, 0)]]);
}

#[test]
fn solve_returns_nothing_where_no_neighbor_matches() {
    let (m, s) = puzzle("RG\nOOO\nOOO\nOOO\n");
    assert_eq!(solve(&m, &s), Vec::<Path>::new());
    let (m, s) = puzzle("RG\nGGG\nRRR\nRRR\n");
    assert_eq!(solve(&m, &s), Vec::<Path>::new());
}

#[test]
fn solve_of_the_three_by_three_example_finds_nothing() {
    // No cell next to the middle start or the right start is green, and the
    // walk from the left start runs dry after four cells.
    let (m, s) = puzzle("RGB\nROY\nGRP\nBRY\n");
    let mut p: Path = vec![pt(1, 2)];
    assert_eq!(find_path(&mut p, &m, &s), None);
    assert_eq!(p, vec![pt(1, 2)]);
    let mut p: Path = vec![pt(0, 2), pt(0, 1), pt(0, 2), pt(1, 2)];
    assert!(!keeps_the_rules(&m, &s, &p));
    assert_eq!(find_path(&mut p, &m, &s), None);
    assert_eq!(solve(&m, &s), Vec::<Path>::new());
}
