use vstd::prelude::*;
use crate::maze::{Maze, Cell, is_move, stamped, count_of, last_index_of};
use crate::point::{Point, adjacent};
use crate::render::{Glyph, glyph_of};
use crate::search::{is_route, is_walk, reachable};

verus! {

/// Two passable cells one step apart are each a move from the other, and
/// each is reachable from the other.
pub proof fn lemma_neighbours_reach_each_other(maze: Maze, p: Point, q: Point)
    requires
        adjacent(p, q),
        !maze.wall_at(p),
        !maze.wall_at(q),
    ensures
        is_move(maze, p, q),
        is_move(maze, q, p),
        reachable(maze, p, q),
        reachable(maze, q, p),
{
    let pq = seq![p, q];
    let qp = seq![q, p];
    assert(is_walk(maze, pq) && pq[0] == p && pq.last() == q);
    assert(is_walk(maze, qp) && qp[0] == q && qp.last() == p);
}

/// Every point with a coordinate at or past the width is a wall.
pub proof fn lemma_outside_is_wall(maze: Maze, p: Point)
    requires
        p.0 >= maze.size() || p.1 >= maze.size(),
    ensures
        maze.wall_at(p),
{
}

/// A character that occurs once sits at its last index: the start and end
/// that parsing derives from the last `@` and `$` are the only ones.
pub proof fn lemma_single_marker(cs: Seq<char>, c: char, i: int)
    requires
        count_of(cs, c) == 1,
        0 <= i < cs.len(),
        cs[i] == c,
    ensures
        i == last_index_of(cs, c),
    decreases cs.len(),
{
    if cs.last() != c {
        lemma_single_marker(cs.drop_last(), c, i);
    } else if i != cs.len() - 1 {
        lemma_count_positive(cs.drop_last(), c, i);
    }
}

/// A character at some position is counted.
proof fn lemma_count_positive(cs: Seq<char>, c: char, i: int)
    requires
        0 <= i < cs.len(),
        cs[i] == c,
    ensures
        count_of(cs, c) > 0,
    decreases cs.len(),
{
    if i < cs.len() - 1 {
        lemma_count_positive(cs.drop_last(), c, i);
    }
}

/// Stamping a path onto a maze without marks shows exactly the passable cells
/// of the path with the path glyph, and leaves the glyph of every other cell
/// as it was.
pub proof fn lemma_stamp_marks_exactly_the_path(
    before: Maze,
    after: Maze,
    path: Seq<Point>,
    q: Point,
)
    requires
        stamped(before, after, path),
        forall|c: Point| #[trigger] before.in_bounds(c) ==> before.cell(c) != Cell::PathMarked,
        before.in_bounds(q),
    ensures
        glyph_of(after, q) == Glyph::Path <==> (path.contains(q) && !before.wall_at(q)),
        !path.contains(q) ==> glyph_of(after, q) == glyph_of(before, q),
{
    assert(after.in_bounds(q));
}

/// Where a maze has only one route from start to end, any route found is
/// that one.
pub proof fn lemma_only_route_is_found(maze: Maze, only: Seq<Point>, found: Seq<Point>)
    requires
        is_route(maze, only),
        forall|p: Seq<Point>| #[trigger] is_route(maze, p) ==> p == only,
        is_route(maze, found),
    ensures
        found == only,
{
}

} // verus!
