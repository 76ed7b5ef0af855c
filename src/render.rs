use vstd::prelude::*;
use vstd::string::StringExecFns;
use crate::maze::{Maze, Cell, lemma_index_in_grid};
use crate::point::Point;

verus! {

/// The 256-colour palette entry that walls are drawn in.
pub const WALL_SHADE: u8 = 238;

/// What a cell looks like on screen.
#[derive(Debug, Clone, Copy, PartialEq, Eq, Structural)]
pub enum Glyph {
    /// A solid block.
    Wall,
    /// The start, while it is not on a stamped path.
    Start,
    /// The end, while it is not on a stamped path.
    End,
    /// A passable cell off the path.
    Blank,
    /// A cell on a stamped path.
    Path,
}

/// A terminal colour: one of the basic eight, or an entry of the 256-colour
/// palette.
#[derive(Debug, Clone, Copy, PartialEq, Eq, Structural)]
pub enum Tint {
    /// The basic red.
    Red,
    /// An entry of the 256-colour palette.
    Fixed(u8),
}

/// The decimal digits of `n`.
pub open spec fn decimal(n: nat) -> Seq<char>
    decreases n,
{
    let d = ((n % 10) + ('0' as nat)) as char;
    if n < 10 {
        seq![d]
    } else {
        decimal(n / 10).push(d)
    }
}

/// The numbers of the select-graphic-rendition code that sets `t` as the
/// foreground colour.
pub open spec fn tint_code(t: Tint) -> Seq<char> {
    match t {
        Tint::Red => seq!['3', '1'],
        Tint::Fixed(n) => seq!['3', '8', ';', '5', ';'] + decimal(n as nat),
    }
}

/// `s` between the escape code that sets `t` and the code that resets all styles.
pub open spec fn painted(t: Tint, s: Seq<char>) -> Seq<char> {
    seq!['\x1b', '['] + tint_code(t) + seq!['m'] + s + seq!['\x1b', '[', '0', 'm']
}

/// Relies on ansi_term's `Colour::paint` and the `Display` of the painted
/// string, which writes the colour's escape code, the text, and the reset code.
#[verifier::external_body]
fn paint(tint: Tint, text: &str) -> (r: String)
    ensures
        r@ == painted(tint, text@),
{
    let colour = match tint {
        Tint::Red => ansi_term::Colour::Red,
        Tint::Fixed(n) => ansi_term::Colour::Fixed(n),
    };
    colour.paint(text).to_string()
}

/// The text of a wall cell.
pub open spec fn wall_text() -> Seq<char> {
    painted(Tint::Fixed(WALL_SHADE), seq!['\u{25A0}', ' '])
}

/// The text of a cell on the path.
pub open spec fn path_text() -> Seq<char> {
    painted(Tint::Red, seq!['.', ' '])
}

/// The two characters drawn for each glyph.
pub open spec fn glyph_text(g: Glyph) -> Seq<char> {
    match g {
        Glyph::Wall => wall_text(),
        Glyph::Start => seq!['.', '.'],
        Glyph::End => seq!['\'', '\''],
        Glyph::Blank => seq![' ', ' '],
        Glyph::Path => path_text(),
    }
}

/// The glyph of the cell at `p`: the start and end show as such only while
/// their cell is not on a stamped path.
pub open spec fn glyph_of(maze: Maze, p: Point) -> Glyph {
    match maze.cell(p) {
        Cell::Wall => Glyph::Wall,
        Cell::Open => if p == maze.start {
            Glyph::Start
        } else if p == maze.end {
            Glyph::End
        } else {
            Glyph::Blank
        },
        Cell::PathMarked => Glyph::Path,
    }
}

/// The texts of the first `k` cells of row `y`.
pub open spec fn row_text(maze: Maze, y: nat, k: nat) -> Seq<char>
    decreases k,
{
    if k == 0 {
        seq![]
    } else {
        row_text(maze, y, (k - 1) as nat) + glyph_text(glyph_of(maze, Point((k - 1) as usize, y as usize)))
    }
}

/// The first `rows` rows of the grid, each ended by a newline.
pub open spec fn rows_text(maze: Maze, rows: nat) -> Seq<char>
    decreases rows,
{
    if rows == 0 {
        seq![]
    } else {
        rows_text(maze, (rows - 1) as nat) + row_text(maze, (rows - 1) as nat, maze.size()) + seq!['\n']
    }
}

/// The whole picture of the maze: every row, then a blank line.
pub open spec fn frame_text(maze: Maze) -> Seq<char> {
    rows_text(maze, maze.size()) + seq!['\n']
}

impl Maze {
    /// The glyph of the cell in column `x`, row `y`.
    pub fn glyph_at(&self, x: usize, y: usize) -> (g: Glyph)
        requires
            self.cells().len() == self.size() * self.size(),
            x < self.size(),
            y < self.size(),
        ensures
            g == glyph_of(*self, Point(x, y)),
    {
        let p = Point(x, y);
        let n = self.layout.len();
        proof {
            lemma_index_in_grid(p, self.size());
            assert(y * self.width <= y * self.width + x);
        }
        match self.layout[y * self.width + x] {
            Cell::Wall => Glyph::Wall,
            Cell::Open => if p == self.start {
                Glyph::Start
            } else if p == self.end {
                Glyph::End
            } else {
                Glyph::Blank
            },
            Cell::PathMarked => Glyph::Path,
        }
    }

    /// The maze as terminal text: one glyph per cell, row by row, each row
    /// ended by a newline, then one more newline.
    pub fn frame(&self) -> (r: String)
        requires
            self.cells().len() == self.size() * self.size(),
        ensures
            r@ == frame_text(*self),
    {
        let wall = paint(Tint::Fixed(WALL_SHADE), "\u{25A0} ");
        let dot = paint(Tint::Red, ". ");
        proof {
            reveal_strlit("\u{25A0} ");
            reveal_strlit(". ");
            reveal_strlit("..");
            reveal_strlit("''");
            reveal_strlit("  ");
            reveal_strlit("\n");
            assert("\u{25A0} "@ =~= seq!['\u{25A0}', ' ']);
            assert(". "@ =~= seq!['.', ' ']);
            assert(".."@ =~= seq!['.', '.']);
            assert("''"@ =~= seq!['\'', '\'']);
            assert("  "@ =~= seq![' ', ' ']);
            assert("\n"@ =~= seq!['\n']);
        }
        let mut out = String::new();
        let mut y: usize = 0;
        while y < self.width
            invariant
                self.cells().len() == self.size() * self.size(),
                y <= self.size(),
                wall@ == wall_text(),
                dot@ == path_text(),
                out@ == rows_text(*self, y as nat),
                ".."@ == seq!['.', '.'],
                "''"@ == seq!['\'', '\''],
                "  "@ == seq![' ', ' '],
                "\n"@ == seq!['\n'],
            decreases self.size() - y,
        {
            let ghost before = out@;
            let mut x: usize = 0;
            while x < self.width
                invariant
                    self.cells().len() == self.size() * self.size(),
                    y < self.size(),
                    x <= self.size(),
                    wall@ == wall_text(),
                    dot@ == path_text(),
                    out@ == before + row_text(*self, y as nat, x as nat),
                    ".."@ == seq!['.', '.'],
                    "''"@ == seq!['\'', '\''],
                    "  "@ == seq![' ', ' '],
                    "\n"@ == seq!['\n'],
                decreases self.size() - x,
            {
                let g = self.glyph_at(x, y);
                let ghost prev = out@;
                match g {
                    Glyph::Wall => out.append(wall.as_str()),
                    Glyph::Start => out.append(".."),
                    Glyph::End => out.append("''"),
                    Glyph::Blank => out.append("  "),
                    Glyph::Path => out.append(dot.as_str()),
                }
                proof {
                    assert(out@ == prev + glyph_text(g));
                    let r = row_text(*self, y as nat, x as nat);
                    assert(row_text(*self, y as nat, (x + 1) as nat) == r + glyph_text(g));
                    assert((before + r) + glyph_text(g) =~= before + (r + glyph_text(g)));
                }
                x = x + 1;
            }
            let ghost prev = out@;
            out.append("\n");
            proof {
                assert(out@ == prev + seq!['\n']);
                assert(out@ =~= rows_text(*self, (y + 1) as nat));
            }
            y = y + 1;
        }
        out.append("\n");
        out
    }
}

} // verus!
