use maze_walk::maze::{Cell, Maze, MazeError};
use maze_walk::point::Point;
use maze_walk::render::Glyph;
use maze_walk::search::{solve, walk};

fn parse(text: &str) -> Maze {
    match Maze::new(text) {
        Ok(m) => m,
        Err(e) => panic!("unexpected parse error {:?}", e),
    }
}

#[test]
fn neighbors_in_fixed_order() {
    assert_eq!(
        Point(3, 5).neighbors(),
        vec![Some(Point(2, 5)), Some(Point(4, 5)), Some(Point(3, 4)), Some(Point(3, 6))]
    );
}

#[test]
fn neighbors_at_origin_skip_negative_sides() {
    assert_eq!(Point(0, 0).neighbors(), vec![None, Some(Point(1, 0)), None, Some(Point(0, 1))]);
}

#[test]
fn neighbors_at_usize_max_skip_overflow() {
    let p = Point(usize::MAX, usize::MAX);
    assert_eq!(
        p.neighbors(),
        vec![Some(Point(usize::MAX - 1, usize::MAX)), None, Some(Point(usize::MAX, usize::MAX - 1)), None]
    );
}

#[test]
fn parse_places_start_and_end() {
    let m = parse("@.x\n.x.\n x.$");
    assert_eq!(m.width, 3);
    assert_eq!(m.start, Point(0, 0));
    assert_eq!(m.end, Point(2, 2));
    assert_eq!(
        m.layout,
        vec![
            Cell::Open, Cell::Open, Cell::Wall,
            Cell::Open, Cell::Wall, Cell::Open,
            Cell::Wall, Cell::Open, Cell::Open,
        ]
    );
}

#[test]
fn parse_skips_unknown_characters_and_leading_newlines() {
    let m = parse("\n# maze\n. x .\r\n$ @ x\r\n. . .\r\n");
    assert_eq!(m.width, 3);
    assert_eq!(m.start, Point(1, 1));
    assert_eq!(m.end, Point(0, 1));
}

#[test]
fn parse_rejects_ragged_rows() {
    assert_eq!(Maze::new("@.\n.$.\n..\n").err(), Some(MazeError::RaggedRow));
}

#[test]
fn parse_rejects_rectangles() {
    assert_eq!(Maze::new("@.$\n...\n").err(), Some(MazeError::NotSquare));
    assert_eq!(Maze::new("@.\n.$\n..\n").err(), Some(MazeError::NotSquare));
}

#[test]
fn parse_rejects_text_without_a_row_end() {
    assert_eq!(Maze::new("@$").err(), Some(MazeError::NotSquare));
    assert_eq!(Maze::new("").err(), Some(MazeError::NotSquare));
}

#[test]
fn parse_rejects_missing_or_repeated_markers() {
    assert_eq!(Maze::new("..\n.$\n").err(), Some(MazeError::StartMarker));
    assert_eq!(Maze::new("@@\n.$\n").err(), Some(MazeError::StartMarker));
    assert_eq!(Maze::new("@.\n..\n").err(), Some(MazeError::EndMarker));
    assert_eq!(Maze::new("@$\n$.\n").err(), Some(MazeError::EndMarker));
}

#[test]
fn is_wall_outside_and_inside() {
    let m = parse("@.x\n.x.\nx.$\n");
    assert!(m.is_wall(Point(3, 0)));
    assert!(m.is_wall(Point(0, 3)));
    assert!(m.is_wall(Point(usize::MAX, usize::MAX)));
    assert!(m.is_wall(Point(2, 0)));
    assert!(m.is_wall(Point(1, 1)));
    assert!(!m.is_wall(Point(0, 0)));
    assert!(!m.is_wall(Point(2, 2)));
}

#[test]
fn valid_moves_are_passable_neighbours() {
    let m = parse("@.x\n...\nx.$\n");
    assert_eq!(m.valid_moves(Point(1, 1)), vec![Point(0, 1), Point(2, 1), Point(1, 0), Point(1, 2)]);
    assert_eq!(m.valid_moves(Point(0, 0)), vec![Point(1, 0), Point(0, 1)]);
    assert_eq!(m.valid_moves(Point(2, 1)), vec![Point(1, 1), Point(2, 2)]);
}

#[test]
fn adjacent_open_cells_are_moves_both_ways() {
    let m = parse("@.\n.$\n");
    assert!(m.valid_moves(Point(0, 0)).contains(&Point(1, 0)));
    assert!(m.valid_moves(Point(1, 0)).contains(&Point(0, 0)));
}

#[test]
fn solve_reports_no_path_when_end_is_walled_off() {
    let m = parse("@.x\n.x.\n x.$");
    let (found, total) = solve(&m);
    assert_eq!(found, None);
    assert_eq!(total, 3);
}

#[test]
fn solve_follows_the_only_path() {
    let m = parse("@..\nxx.\n$..\n");
    let (found, total) = solve(&m);
    assert_eq!(
        found,
        Some(vec![Point(0, 0), Point(1, 0), Point(2, 0), Point(2, 1), Point(2, 2), Point(1, 2), Point(0, 2)])
    );
    assert_eq!(total, 6);
}

#[test]
fn solve_disconnected_regions() {
    let m = parse("@x.\nxx.\n..$\n");
    let (found, total) = solve(&m);
    assert_eq!(found, None);
    assert_eq!(total, 1);
}

#[test]
fn solve_when_start_is_end() {
    let mut m = parse("@$\n..\n");
    m.end = m.start;
    let (found, total) = solve(&m);
    assert_eq!(found, Some(vec![Point(0, 0)]));
    assert_eq!(total, 0);
}

#[test]
fn solve_path_is_a_walk_in_an_open_room() {
    let m = parse("@...\n....\n....\n...$\n");
    let (found, _) = solve(&m);
    let path = found.expect("the room is open");
    assert_eq!(path[0], m.start);
    assert_eq!(*path.last().unwrap(), m.end);
    for pair in path.windows(2) {
        let (a, b) = (pair[0], pair[1]);
        let dist = a.0.abs_diff(b.0) + a.1.abs_diff(b.1);
        assert_eq!(dist, 1);
        assert!(!m.is_wall(b));
    }
}

#[test]
fn solve_is_repeatable() {
    let m = parse("@.x.\n..x.\nx...\n..x$\n");
    let first = solve(&m);
    let second = solve(&m);
    assert!(first.0.is_some());
    assert_eq!(first, second);
}

#[test]
fn walk_returns_path_from_end_back() {
    let m = parse("@.\nx$\n");
    let mut visited = vec![false; 4];
    visited[0] = true;
    let mut total: usize = 0;
    let found = walk(m.start, &m, &mut visited, &mut total);
    assert_eq!(found, Some(vec![Point(1, 1), Point(1, 0), Point(0, 0)]));
    assert_eq!(total, 2);
    assert_eq!(visited, vec![true, true, false, true]);
}

#[test]
fn walk_at_end_is_immediate() {
    let m = parse("@.\nx$\n");
    let mut visited = vec![false, false, false, true];
    let mut total: usize = 7;
    let found = walk(m.end, &m, &mut visited, &mut total);
    assert_eq!(found, Some(vec![Point(1, 1)]));
    assert_eq!(total, 7);
    assert_eq!(visited, vec![false, false, false, true]);
}

#[test]
fn mark_path_stamps_only_open_cells_on_the_path() {
    let mut m = parse("@.x\n...\nx.$\n");
    m.mark_path(&[Point(0, 0), Point(1, 0), Point(2, 0), Point(9, 9)]);
    assert_eq!(
        m.layout,
        vec![
            Cell::PathMarked, Cell::PathMarked, Cell::Wall,
            Cell::Open, Cell::Open, Cell::Open,
            Cell::Wall, Cell::Open, Cell::Open,
        ]
    );
    assert_eq!(m.glyph_at(0, 0), Glyph::Path);
    assert_eq!(m.glyph_at(2, 0), Glyph::Wall);
    assert_eq!(m.glyph_at(2, 2), Glyph::End);
    assert_eq!(m.glyph_at(0, 1), Glyph::Blank);
}

#[test]
fn glyphs_of_a_fresh_maze() {
    let m = parse("@x\n.$\n");
    assert_eq!(m.glyph_at(0, 0), Glyph::Start);
    assert_eq!(m.glyph_at(1, 0), Glyph::Wall);
    assert_eq!(m.glyph_at(0, 1), Glyph::Blank);
    assert_eq!(m.glyph_at(1, 1), Glyph::End);
}

#[test]
fn frame_of_a_fresh_maze() {
    let m = parse("@x\n.$\n");
    let wall = "\u{1b}[38;5;238m\u{25A0} \u{1b}[0m";
    assert_eq!(m.frame(), format!("..{}\n  ''\n\n", wall));
}

#[test]
fn frame_after_stamping_a_path() {
    let mut m = parse("@x\n.$\n");
    let (found, _) = solve(&m);
    let path = found.expect("reachable");
    assert_eq!(path, vec![Point(0, 0), Point(0, 1), Point(1, 1)]);
    m.mark_path(&path);
    let wall = "\u{1b}[38;5;238m\u{25A0} \u{1b}[0m";
    let dot = "\u{1b}[31m. \u{1b}[0m";
    assert_eq!(m.frame(), format!("{}{}\n{}{}\n\n", dot, wall, dot, dot));
}
