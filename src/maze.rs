use vstd::prelude::*;
use vstd::arithmetic::div_mod::{lemma_fundamental_div_mod, lemma_fundamental_div_mod_converse};
use crate::point::{Point, neighbors_of, adjacent, lemma_neighbors_are_adjacent};

verus! {

/// The state of one grid position.
#[derive(Debug, Clone, Copy, PartialEq, Eq, Structural)]
pub enum Cell {
    /// Impassable.
    Wall,
    /// Passable and not on a stamped path.
    Open,
    /// Passable and part of a stamped path.
    PathMarked,
}

/// Why a maze text was refused.
#[derive(Debug, Clone, Copy, PartialEq, Eq, Structural)]
pub enum MazeError {
    /// At the end of some row the number of cells so far is not a multiple of
    /// the width that the first row fixed.
    RaggedRow,
    /// The first row has no cells, or the number of rows differs from the width.
    NotSquare,
    /// The text does not hold exactly one `@`.
    StartMarker,
    /// The text does not hold exactly one `$`.
    EndMarker,
}

/// A square grid of cells with a start and an end, stored row by row.
#[derive(Debug)]
pub struct Maze {
    /// The cells, row by row.
    pub layout: Vec<Cell>,
    /// The number of cells on each side.
    pub width: usize,
    pub start: Point,
    pub end: Point,
}

/// The characters that stand for a cell: `@` start, `$` end, `.` open, `x` wall.
pub open spec fn is_cell_char(c: char) -> bool {
    c == '@' || c == '$' || c == '.' || c == 'x'
}

/// The cell that a cell character stands for.
pub open spec fn cell_of(c: char) -> Cell {
    if c == 'x' { Cell::Wall } else { Cell::Open }
}

/// The cell characters of `s`, in order; every other character is skipped.
pub open spec fn cells_of(s: Seq<char>) -> Seq<char>
    decreases s.len(),
{
    if s.len() == 0 {
        seq![]
    } else if is_cell_char(s.last()) {
        cells_of(s.drop_last()).push(s.last())
    } else {
        cells_of(s.drop_last())
    }
}

/// The width that scanning `s` fixes: the number of cells before the first
/// newline that follows at least one cell, and zero while there is none.
pub open spec fn width_of(s: Seq<char>) -> nat
    decreases s.len(),
{
    if s.len() == 0 {
        0
    } else if s.last() == '\n' && width_of(s.drop_last()) == 0 {
        cells_of(s.drop_last()).len()
    } else {
        width_of(s.drop_last())
    }
}

/// At every newline after the width is fixed, the cells so far fill whole rows.
pub open spec fn rows_even(s: Seq<char>) -> bool
    decreases s.len(),
{
    if s.len() == 0 {
        true
    } else {
        &&& rows_even(s.drop_last())
        &&& (s.last() == '\n' && width_of(s.drop_last()) != 0) ==> cells_of(s.drop_last()).len()
            % width_of(s.drop_last()) == 0
    }
}

/// How often `c` occurs in `cs`.
pub open spec fn count_of(cs: Seq<char>, c: char) -> nat
    decreases cs.len(),
{
    if cs.len() == 0 {
        0
    } else if cs.last() == c {
        count_of(cs.drop_last(), c) + 1
    } else {
        count_of(cs.drop_last(), c)
    }
}

/// The position of the last `c` in `cs`, or -1.
pub open spec fn last_index_of(cs: Seq<char>, c: char) -> int
    decreases cs.len(),
{
    if cs.len() == 0 {
        -1
    } else if cs.last() == c {
        cs.len() - 1
    } else {
        last_index_of(cs.drop_last(), c)
    }
}

/// The point at position `i` of a row-major grid of width `w`.
pub open spec fn point_at(i: int, w: nat) -> Point {
    Point((i % (w as int)) as usize, (i / (w as int)) as usize)
}

/// The position of `p` in a row-major grid of width `w`.
pub open spec fn index_of(p: Point, w: nat) -> int {
    p.1 * w + p.0
}

/// The error that parsing `s` meets first, if any.
pub open spec fn parse_error(s: Seq<char>) -> Option<MazeError> {
    let w = width_of(s);
    let cs = cells_of(s);
    if !rows_even(s) {
        Some(MazeError::RaggedRow)
    } else if w == 0 || cs.len() != w * w {
        Some(MazeError::NotSquare)
    } else if count_of(cs, '@') != 1 {
        Some(MazeError::StartMarker)
    } else if count_of(cs, '$') != 1 {
        Some(MazeError::EndMarker)
    } else {
        None
    }
}

/// A point inside a grid of width `w` has a position below `w * w`.
pub proof fn lemma_index_in_grid(p: Point, w: nat)
    requires
        p.0 < w,
        p.1 < w,
    ensures
        0 <= index_of(p, w) < w * w,
{
    let (x, y) = (p.0 as int, p.1 as int);
    assert(y * w + x < w * w) by (nonlinear_arith)
        requires
            x < w,
            y < w,
            0 <= x,
            0 <= y,
    ;
}

/// Two points of a grid share a position only if they are equal.
pub proof fn lemma_index_unique(p: Point, q: Point, w: nat)
    requires
        p.0 < w,
        q.0 < w,
        index_of(p, w) == index_of(q, w),
    ensures
        p == q,
{
    lemma_fundamental_div_mod_converse(index_of(p, w), w as int, p.1 as int, p.0 as int);
    lemma_fundamental_div_mod_converse(index_of(q, w), w as int, q.1 as int, q.0 as int);
}

/// Each position of a grid belongs to the point that `point_at` gives.
pub proof fn lemma_point_at(i: int, w: nat)
    requires
        0 <= i < w * w,
        w <= usize::MAX,
    ensures
        point_at(i, w).0 < w,
        point_at(i, w).1 < w,
        index_of(point_at(i, w), w) == i,
{
    let wi = w as int;
    lemma_fundamental_div_mod(i, wi);
    let q = i / wi;
    let r = i % wi;
    assert(0 <= r < wi && 0 <= q);
    assert(q < wi) by (nonlinear_arith)
        requires
            i == wi * q + r,
            0 <= r,
            i < wi * wi,
            0 < wi,
    ;
    assert(q * wi == wi * q) by (nonlinear_arith);
}

impl Maze {
    /// The number of cells on each side.
    pub open spec fn size(self) -> nat {
        self.width as nat
    }

    /// The cells, row by row.
    pub open spec fn cells(self) -> Seq<Cell> {
        self.layout@
    }

    /// `p` lies inside the grid.
    pub open spec fn in_bounds(self, p: Point) -> bool {
        p.0 < self.size() && p.1 < self.size()
    }

    /// The cell at `p`, for a point inside the grid.
    pub open spec fn cell(self, p: Point) -> Cell {
        self.cells()[index_of(p, self.size())]
    }

    /// `p` is outside the grid or a wall.
    pub open spec fn wall_at(self, p: Point) -> bool {
        !self.in_bounds(p) || self.cell(p) == Cell::Wall
    }

    /// The grid is square, and start and end are passable cells in it.
    pub open spec fn wf(self) -> bool {
        &&& self.size() > 0
        &&& self.cells().len() == self.size() * self.size()
        &&& !self.wall_at(self.start)
        &&& !self.wall_at(self.end)
    }

    /// Parses a maze: each `@`, `$`, `.` and `x` is one cell, row by row; a
    /// newline ends a row, the first row fixes the width, and every other
    /// character is skipped. Start and end are the positions of `@` and `$`.
    pub fn new(maze_txt: &str) -> (r: Result<Maze, MazeError>)
        ensures
            match r {
                Ok(m) => {
                    let cs = cells_of(maze_txt@);
                    let w = width_of(maze_txt@);
                    &&& parse_error(maze_txt@) is None
                    &&& m.wf()
                    &&& m.size() == w
                    &&& m.cells() == cs.map_values(|c: char| cell_of(c))
                    &&& m.start == point_at(last_index_of(cs, '@'), w)
                    &&& m.end == point_at(last_index_of(cs, '$'), w)
                },
                Err(e) => parse_error(maze_txt@) == Some(e),
            },
    {
        let n = maze_txt.unicode_len();
        let mut layout: Vec<Cell> = Vec::new();
        let mut width: usize = 0;
        let mut start: usize = 0;
        let mut end: usize = 0;
        let mut n_start: usize = 0;
        let mut n_end: usize = 0;
        let mut i: usize = 0;
        while i < n
            invariant
                n == maze_txt@.len(),
                i <= n,
                layout@.len() <= i,
                ({
                    let t = maze_txt@.subrange(0, i as int);
                    &&& layout@ == cells_of(t).map_values(|c: char| cell_of(c))
                    &&& width == width_of(t)
                    &&& rows_even(t)
                    &&& n_start == count_of(cells_of(t), '@')
                    &&& n_end == count_of(cells_of(t), '$')
                    &&& n_start > 0 ==> start == last_index_of(cells_of(t), '@')
                    &&& n_end > 0 ==> end == last_index_of(cells_of(t), '$')
                }),
                n_start <= i,
                n_end <= i,
            decreases n - i,
        {
            let c = maze_txt.get_char(i);
            let ghost t = maze_txt@.subrange(0, i as int);
            let ghost t2 = maze_txt@.subrange(0, i + 1);
            assert(t2.drop_last() =~= t);
            assert(t2.last() == c);
            if c == '@' {
                start = layout.len();
                n_start = n_start + 1;
                layout.push(Cell::Open);
            } else if c == '$' {
                end = layout.len();
                n_end = n_end + 1;
                layout.push(Cell::Open);
            } else if c == '.' {
                layout.push(Cell::Open);
            } else if c == 'x' {
                layout.push(Cell::Wall);
            } else if c == '\n' {
                if width == 0 {
                    width = layout.len();
                } else if layout.len() % width != 0 {
                    proof {
                        lemma_rows_even_prefix(maze_txt@, i + 1);
                        assert(maze_txt@.subrange(0, n as int) =~= maze_txt@);
                    }
                    return Err(MazeError::RaggedRow);
                }
            }
            proof {
                if is_cell_char(c) {
                    assert(cells_of(t2).drop_last() =~= cells_of(t));
                }
            }
            assert(layout@ =~= cells_of(t2).map_values(|c: char| cell_of(c)));
            i = i + 1;
        }
        proof {
            assert(maze_txt@.subrange(0, n as int) =~= maze_txt@);
        }
        if width == 0 || width.checked_mul(width) != Some(layout.len()) {
            return Err(MazeError::NotSquare);
        }
        if n_start != 1 {
            return Err(MazeError::StartMarker);
        }
        if n_end != 1 {
            return Err(MazeError::EndMarker);
        }
        proof {
            let cs = cells_of(maze_txt@);
            lemma_last_index_bounds(cs, '@');
            lemma_last_index_bounds(cs, '$');
            lemma_point_at(start as int, width as nat);
            lemma_point_at(end as int, width as nat);
        }
        let m = Maze {
            layout,
            width,
            start: Point(start % width, start / width),
            end: Point(end % width, end / width),
        };
        Ok(m)
    }

    /// An outside point is a wall; an inside one is a wall if its cell is.
    pub fn is_wall(&self, pos: Point) -> (r: bool)
        requires
            self.cells().len() == self.size() * self.size(),
        ensures
            r == self.wall_at(pos),
    {
        if pos.0 >= self.width || pos.1 >= self.width {
            true
        } else {
            let n = self.layout.len();
            proof {
                lemma_index_in_grid(pos, self.size());
                assert(pos.1 * self.width <= pos.1 * self.width + pos.0);
            }
            self.layout[pos.1 * self.width + pos.0] == Cell::Wall
        }
    }

    /// The neighbours of `from` that lie in the grid and are not walls, each
    /// once, in the order left, right, up, down.
    pub fn valid_moves(&self, from: Point) -> (r: Vec<Point>)
        requires
            self.cells().len() == self.size() * self.size(),
        ensures
            forall|q: Point| #[trigger] r@.contains(q) <==> is_move(*self, from, q),
            r@.no_duplicates(),
    {
        let nbs = from.neighbors();
        let mut r: Vec<Point> = Vec::new();
        let mut i: usize = 0;
        while i < nbs.len()
            invariant
                nbs@ == neighbors_of(from),
                i <= nbs@.len(),
                self.cells().len() == self.size() * self.size(),
                forall|q: Point|
                    r@.contains(q) <==> exists|j: int|
                        0 <= j < i && #[trigger] nbs@[j] == Some(q) && !self.wall_at(q),
                r@.no_duplicates(),
            decreases nbs@.len() - i,
        {
            let ghost before = r@;
            if let Some(p) = nbs[i] {
                if !self.is_wall(p) {
                    assert(!r@.contains(p));
                    r.push(p);
                    assert(r@ == before.push(p));
                }
            }
            assert forall|q: Point|
                r@.contains(q) <==> exists|j: int|
                    0 <= j < i + 1 && #[trigger] nbs@[j] == Some(q) && !self.wall_at(q) by {
                if nbs@[i as int] == Some(q) && !self.wall_at(q) {
                    assert(r@.last() == q);
                }
                if r@.contains(q) && !before.contains(q) {
                    let k = choose|k: int| 0 <= k < r@.len() && r@[k] == q;
                    assert(k == before.len());
                }
                if before.contains(q) {
                    let k = choose|k: int| 0 <= k < before.len() && before[k] == q;
                    assert(r@[k] == q);
                }
            }
            i = i + 1;
        }
        assert forall|q: Point| r@.contains(q) <==> (adjacent(from, q) && !self.wall_at(q)) by {
            lemma_neighbors_are_adjacent(from, q);
        }
        r
    }

    /// Marks each passable cell of `path` that lies in the grid as part of the
    /// path; walls and outside points are left alone.
    pub fn mark_path(&mut self, path: &[Point])
        requires
            old(self).cells().len() == old(self).size() * old(self).size(),
        ensures
            stamped(*old(self), *final(self), path@),
            old(self).wf() ==> final(self).wf(),
    {
        let ghost w = self.size();
        let mut i: usize = 0;
        while i < path.len()
            invariant
                i <= path@.len(),
                self.size() == w,
                self.start == old(self).start,
                self.end == old(self).end,
                self.cells().len() == w * w,
                forall|q: Point| #[trigger]
                    self.in_bounds(q) ==> self.cell(q) == marked(
                        old(self).cell(q),
                        path@.subrange(0, i as int).contains(q),
                    ),
            decreases path@.len() - i,
        {
            let p = path[i];
            let ghost before = *self;
            let n = self.layout.len();
            if p.0 < self.width && p.1 < self.width {
                proof {
                    lemma_index_in_grid(p, w);
                    assert(p.1 * self.width <= p.1 * self.width + p.0);
                }
                let k = p.1 * self.width + p.0;
                if self.layout[k] != Cell::Wall {
                    self.layout.set(k, Cell::PathMarked);
                }
            }
            let ghost pre = path@.subrange(0, i as int);
            let ghost post = path@.subrange(0, i + 1);
            assert(post =~= pre.push(p));
            assert forall|q: Point| #[trigger]
                self.in_bounds(q) implies self.cell(q) == marked(
                    old(self).cell(q),
                    post.contains(q),
                ) by {
                assert(before.in_bounds(q));
                assert(post[i as int] == p);
                if pre.contains(q) {
                    let j = choose|j: int| 0 <= j < pre.len() && pre[j] == q;
                    assert(post[j] == q);
                }
                if q != p {
                    if post.contains(q) {
                        let j = choose|j: int| 0 <= j < post.len() && post[j] == q;
                        assert(pre[j] == q);
                    }
                    if self.in_bounds(p) {
                        lemma_index_in_grid(q, w);
                        if index_of(q, w) == index_of(p, w) {
                            lemma_index_unique(q, p, w);
                        }
                    }
                }
            }
            i = i + 1;
        }
        assert(path@.subrange(0, path@.len() as int) =~= path@);
        proof {
            if old(self).wf() {
                assert(self.in_bounds(self.start));
                assert(self.cell(self.start) != Cell::Wall);
                assert(self.in_bounds(self.end));
                assert(self.cell(self.end) != Cell::Wall);
            }
        }
    }
}

/// A cell after a path has been stamped: passable cells on the path become
/// `PathMarked`, all others keep their state.
pub open spec fn marked(c: Cell, on_path: bool) -> Cell {
    if on_path && c != Cell::Wall { Cell::PathMarked } else { c }
}

/// `after` is `before` with `path` stamped on it.
pub open spec fn stamped(before: Maze, after: Maze, path: Seq<Point>) -> bool {
    &&& after.size() == before.size()
    &&& after.start == before.start
    &&& after.end == before.end
    &&& after.cells().len() == before.cells().len()
    &&& forall|q: Point| #[trigger]
        after.in_bounds(q) ==> after.cell(q) == marked(before.cell(q), path.contains(q))
}

/// A step from `from` to `to` is allowed: they are adjacent and `to` is passable.
pub open spec fn is_move(maze: Maze, from: Point, to: Point) -> bool {
    adjacent(from, to) && !maze.wall_at(to)
}

/// A prefix of text whose rows are even has even rows too.
proof fn lemma_rows_even_prefix(s: Seq<char>, k: int)
    requires
        0 <= k <= s.len(),
        !rows_even(s.subrange(0, k)),
    ensures
        !rows_even(s),
    decreases s.len() - k,
{
    if k < s.len() {
        let t = s.subrange(0, k + 1);
        assert(t.drop_last() =~= s.subrange(0, k));
        lemma_rows_even_prefix(s, k + 1);
    } else {
        assert(s.subrange(0, k) =~= s);
    }
}

/// The last index of a character that occurs is a position holding it.
proof fn lemma_last_index_bounds(cs: Seq<char>, c: char)
    requires
        count_of(cs, c) > 0,
    ensures
        0 <= last_index_of(cs, c) < cs.len(),
        cs[last_index_of(cs, c)] == c,
    decreases cs.len(),
{
    if cs.last() != c {
        lemma_last_index_bounds(cs.drop_last(), c);
    }
}

} // verus!
