use color_maze::color::Color;
use color_maze::grid::Point;
use color_maze::path::{freq, member, Path};
use color_maze::sequence::{nth_in_sequence, Sequence};

fn pt(x: usize, y: usize) -> Point {
    Point { x, y }
}

#[test]
fn freq_counts_equal_points() {
    let p: Path = vec![pt(0, 2), pt(0, 1), pt(0, 2), pt(1, 2), pt(0, 2)];
    assert_eq!(freq(&pt(0, 2), &p), 3);
    assert_eq!(freq(&pt(0, 1), &p), 1);
    assert_eq!(freq(&pt(1, 2), &p), 1);
    for c in [pt(0, 2), pt(0, 1), pt(1, 2), pt(2, 0)] {
        assert_eq!(freq(&c, &p), p.iter().filter(|d| **d == c).count());
    }
}

#[test]
fn freq_of_absent_point_is_zero() {
    let p: Path = vec![pt(0, 2), pt(0, 1)];
    assert_eq!(freq(&pt(2, 0), &p), 0);
    assert_eq!(freq(&pt(1, 0), &p), 0);
    assert_eq!(freq(&pt(0, 0), &Vec::new()), 0);
}

#[test]
fn freq_tells_columns_from_rows() {
    let p: Path = vec![pt(1, 2)];
    assert_eq!(freq(&pt(1, 2), &p), 1);
    assert_eq!(freq(&pt(2, 1), &p), 0);
}

#[test]
fn member_finds_points_of_the_path() {
    let p: Path = vec![pt(0, 2), pt(0, 1), pt(0, 0)];
    assert!(member(&pt(0, 2), &p));
    assert!(member(&pt(0, 1), &p));
    assert!(member(&pt(0, 0), &p));
    assert!(!member(&pt(1, 0), &p));
    assert!(!member(&pt(2, 0), &p));
    assert!(!member(&pt(0, 0), &Vec::new()));
}

#[test]
fn member_agrees_with_freq() {
    let p: Path = vec![pt(0, 2), pt(0, 1), pt(0, 2)];
    for y in 0..3 {
        for x in 0..3 {
            assert_eq!(member(&pt(x, y), &p), freq(&pt(x, y), &p) > 0);
        }
    }
}

#[test]
fn nth_in_sequence_walks_the_sequence() {
    let s: Sequence = vec![Color::R, Color::G, Color::B];
    assert_eq!(nth_in_sequence(&s, 0), Color::R);
    assert_eq!(nth_in_sequence(&s, 1), Color::G);
    assert_eq!(nth_in_sequence(&s, 2), Color::B);
    assert_eq!(nth_in_sequence(&s, 3), Color::R);
    assert_eq!(nth_in_sequence(&s, 4), Color::G);
    assert_eq!(nth_in_sequence(&s, 5), Color::B);
    assert_eq!(nth_in_sequence(&s, 100), Color::G);
}

#[test]
fn nth_in_sequence_is_cyclic() {
    let s: Sequence = vec![Color::P, Color::O, Color::Y, Color::O, Color::B];
    for n in 0..40 {
        assert_eq!(nth_in_sequence(&s, n), nth_in_sequence(&s, n + s.len()));
    }
    assert_eq!(nth_in_sequence(&s, usize::MAX), s[usize::MAX % 5]);
}

#[test]
fn sequence_of_one_color_never_changes() {
    let s: Sequence = vec![Color::Y];
    for n in [0usize, 1, 2, 3, 17, 1000, usize::MAX] {
        assert_eq!(nth_in_sequence(&s, n), Color::Y);
    }
}
