use color_maze::grid::{Maze, Point};
use color_maze::parse::parse;
use color_maze::path::{member, Path};
use color_maze::render::render;
use color_maze::search::solve;
use color_maze::sequence::Sequence;

fn puzzle(text: &str) -> (Maze, Sequence) {
    parse(text).unwrap()
}

fn pt(x: usize, y: usize) -> Point {
    Point { x, y }
}

#[test]
fn render_shows_the_cells_of_the_path() {
    let (m, _) = puzzle("RGB\nROY\nGRP\nBRY\n");
    let p: Path = vec![pt(0, 2), pt(0, 1), pt(1, 1), pt(1, 0)];
    assert_eq!(render(&m, &p), ".O.\nGR.\nB..\n");
}

#[test]
fn render_without_path_shows_dots() {
    let (m, _) = puzzle("RGB\nROY\nGRP\nBRY\n");
    assert_eq!(render(&m, &Vec::new()), "...\n...\n...\n");
}

#[test]
fn render_with_every_cell_shows_the_grid() {
    let (m, _) = puzzle("RGB\nROY\nGBP\nPYR\n");
    let mut p: Path = Vec::new();
    for y in 0..3 {
        for x in 0..3 {
            p.push(pt(x, y));
        }
    }
    assert_eq!(render(&m, &p), "ROY\nGBP\nPYR\n");
}

#[test]
fn render_shows_a_cell_once_however_often_it_is_visited() {
    let (m, _) = puzzle("RGBY\nYO\nBG\n");
    let p: Path = vec![pt(0, 1), pt(1, 1), pt(0, 1), pt(0, 0)];
    assert_eq!(render(&m, &p), "Y.\nBG\n");
}

#[test]
fn render_takes_x_for_the_column_and_y_for_the_row() {
    let (m, _) = puzzle("R\nROY\nGBP\nPYR\n");
    assert_eq!(render(&m, &vec![pt(2, 0)]), "..Y\n...\n...\n");
    assert_eq!(render(&m, &vec![pt(0, 2)]), "...\n...\nP..\n");
}

#[test]
fn render_passes_over_cells_outside_the_grid() {
    let (m, _) = puzzle("R\nRO\nYG\n");
    assert_eq!(render(&m, &vec![pt(2, 0), pt(0, 2), pt(5, 5)]), "..\n..\n");
}

#[test]
fn render_draws_rows_of_any_length() {
    let (m, _) = puzzle("R\nROY\n\nG\n");
    let p: Path = vec![pt(2, 0), pt(0, 2)];
    assert_eq!(render(&m, &p), "..Y\n\nG\n");
    assert_eq!(render(&Vec::new(), &p), "");
}

#[test]
fn render_twice_gives_the_same_text() {
    let (m, s) = puzzle("RGB\nBOY\nGRP\nRRY\n");
    let paths = solve(&m, &s);
    let first = render(&m, &paths[0]);
    let second = render(&m, &paths[0]);
    assert_eq!(first, second);
    assert_eq!(first, "B..\nG..\nR..\n");
}

#[test]
fn solve_and_render_a_three_by_three_walk() {
    let (m, s) = puzzle("RGB\nBOY\nGRP\nRRY\n");
    let paths = solve(&m, &s);
    assert_eq!(paths, vec![vec![pt(0, 2), pt(0, 1), pt(0, 0)]]);
    let text = render(&m, &paths[0]);
    assert_eq!(text, "B..\nG..\nR..\n");
    let lines: Vec<&str> = text.lines().collect();
    let letters = ["BOY", "GRP", "RRY"];
    for y in 0..3 {
        for x in 0..3 {
            let shown = lines[y].chars().nth(x).unwrap();
            if member(&pt(x, y), &paths[0]) {
                assert_eq!(shown, letters[y].chars().nth(x).unwrap());
            } else {
                assert_eq!(shown, '.');
            }
        }
    }
}

#[test]
fn render_shows_a_walk_with_a_turn() {
    let (m, s) = puzzle("RGB\nOOR\nOOB\nGRG\n");
    let paths = solve(&m, &s);
    assert_eq!(paths, vec![vec![pt(1, 2), pt(2, 2), pt(2, 1), pt(2, 0)]]);
    assert_eq!(render(&m, &paths[0]), "..R\n..B\n.RG\n");
}
