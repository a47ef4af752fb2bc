use crate::maze::{Cell, Maze};
use vstd::prelude::*;
use vstd::string::StringExecFns;

verus! {

/// The character drawn for a side of a cell: `#` where the wall stands,
/// `*` where it is down.
pub open spec fn side_glyph(standing: bool) -> char {
    if standing {
        '#'
    } else {
        '*'
    }
}

/// The decimal digit `d`.
pub open spec fn digit(d: int) -> char {
    if d == 0 {
        '0'
    } else if d == 1 {
        '1'
    } else if d == 2 {
        '2'
    } else if d == 3 {
        '3'
    } else if d == 4 {
        '4'
    } else if d == 5 {
        '5'
    } else if d == 6 {
        '6'
    } else if d == 7 {
        '7'
    } else if d == 8 {
        '8'
    } else {
        '9'
    }
}

/// The decimal digits of a non-negative `n`, without leading zeros.
pub open spec fn decimal(n: int) -> Seq<char>
    decreases n,
{
    if n < 10 {
        seq![digit(n)]
    } else {
        decimal(n / 10) + seq![digit(n % 10)]
    }
}

/// Relies on `ToString` through `Display` for `i32`: a non-negative number is
/// written in decimal, without sign or leading zeros.
#[verifier::external_body]
fn decimal_string(n: i32) -> (r: String)
    requires
        n >= 0,
    ensures
        r@ == decimal(n as int),
{
    n.to_string()
}

fn side_piece(standing: bool) -> (r: &'static str)
    ensures
        r@ == seq![side_glyph(standing)],
{
    proof {
        reveal_strlit("#");
        reveal_strlit("*");
    }
    if standing {
        "#"
    } else {
        "*"
    }
}

impl Cell {
    /// Line `k` (0, 1 or 2) of the 3 by 3 drawing of the cell: corners `#`,
    /// the centre `*`, and each side's midpoint `#` or `*` as its wall stands
    /// or not.
    pub open spec fn drawing(self, k: int) -> Seq<char> {
        if k == 0 {
            seq!['#', side_glyph(self.walls@[0]), '#']
        } else if k == 1 {
            seq![side_glyph(self.walls@[3]), '*', side_glyph(self.walls@[1])]
        } else {
            seq!['#', side_glyph(self.walls@[2]), '#']
        }
    }

    /// The three lines of the cell's drawing, top to bottom.
    pub fn format(&self) -> (r: Vec<String>)
        ensures
            r@.len() == 3,
            forall|k: int| 0 <= k < 3 ==> (#[trigger] r@[k])@ == self.drawing(k),
    {
        proof {
            reveal_strlit("#");
            reveal_strlit("*");
        }
        let mut top = String::new();
        top.append("#");
        top.append(side_piece(self.walls[0]));
        top.append("#");
        let mut middle = String::new();
        middle.append(side_piece(self.walls[3]));
        middle.append("*");
        middle.append(side_piece(self.walls[1]));
        let mut bottom = String::new();
        bottom.append("#");
        bottom.append(side_piece(self.walls[2]));
        bottom.append("#");
        assert(top@ =~= self.drawing(0));
        assert(middle@ =~= self.drawing(1));
        assert(bottom@ =~= self.drawing(2));
        let r = vec![top, middle, bottom];
        r
    }
}

impl Maze {
    /// Line `k` of the drawings of the first `n` cells of row `y`, side by side.
    pub open spec fn row_drawing(self, y: int, k: int, n: int) -> Seq<char>
        decreases n,
    {
        if n <= 0 {
            seq![]
        } else {
            self.row_drawing(y, k, n - 1) + self.cell(n - 1, y).drawing(k)
        }
    }

    /// The three text lines of each of the first `n` rows, each line ended by
    /// a newline.
    pub open spec fn rows_drawing(self, n: int) -> Seq<char>
        decreases n,
    {
        if n <= 0 {
            seq![]
        } else {
            let w = self.width as int;
            self.rows_drawing(n - 1) + self.row_drawing(n - 1, 0, w) + seq!['\n'] + self.row_drawing(
                n - 1,
                1,
                w,
            ) + seq!['\n'] + self.row_drawing(n - 1, 2, w) + seq!['\n']
        }
    }

    /// The header line `Maze of size WxH`, with its newline.
    pub open spec fn header(self) -> Seq<char> {
        seq!['M', 'a', 'z', 'e', ' ', 'o', 'f', ' ', 's', 'i', 'z', 'e', ' '] + decimal(
            self.width as int,
        ) + seq!['x'] + decimal(self.height as int) + seq!['\n']
    }

    /// The whole drawing: the header, then every row of cells.
    pub open spec fn drawing(self) -> Seq<char> {
        self.header() + self.rows_drawing(self.height as int)
    }

    /// The maze drawn as text: the header line, then three lines per row.
    pub fn render(&self) -> (r: String)
        requires
            self.shaped(),
        ensures
            r@ == self.drawing(),
    {
        proof {
            reveal_strlit("Maze of size ");
            reveal_strlit("x");
            reveal_strlit("\n");
        }
        let mut out = String::new();
        out.append("Maze of size ");
        let ws = decimal_string(self.width);
        out.append(ws.as_str());
        out.append("x");
        let hs = decimal_string(self.height);
        out.append(hs.as_str());
        out.append("\n");
        assert(out@ =~= self.header());
        let mut y: usize = 0;
        while y < self.maze.len()
            invariant
                self.shaped(),
                0 <= y <= self.height,
                out@ == self.header() + self.rows_drawing(y as int),
            decreases self.height - y,
        {
            let mut l0 = String::new();
            let mut l1 = String::new();
            let mut l2 = String::new();
            let mut x: usize = 0;
            while x < self.maze[y].len()
                invariant
                    self.shaped(),
                    0 <= y < self.height,
                    0 <= x <= self.width,
                    l0@ == self.row_drawing(y as int, 0, x as int),
                    l1@ == self.row_drawing(y as int, 1, x as int),
                    l2@ == self.row_drawing(y as int, 2, x as int),
                decreases self.width - x,
            {
                let g = self.maze[y][x].format();
                l0.append(g[0].as_str());
                l1.append(g[1].as_str());
                l2.append(g[2].as_str());
                x = x + 1;
            }
            assert(self.maze@[y as int]@.len() == self.width);
            proof {
                reveal_strlit("\n");
            }
            let ghost before = out@;
            out.append(l0.as_str());
            out.append("\n");
            out.append(l1.as_str());
            out.append("\n");
            out.append(l2.as_str());
            out.append("\n");
            assert(out@ =~= before + self.row_drawing(y as int, 0, self.width as int) + seq!['\n']
                + self.row_drawing(y as int, 1, self.width as int) + seq!['\n'] + self.row_drawing(
                y as int,
                2,
                self.width as int,
            ) + seq!['\n']);
            y = y + 1;
        }
        out
    }
}

} // verus!
