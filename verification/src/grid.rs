//! The grid data model: coordinates, movement offsets, and the rectangular
//! table of cell elevations that the traversal engine reads.

use vstd::prelude::*;

verus! {

/// A grid position or a movement offset: a pair of signed integers, so that
/// out-of-range candidates can be formed uniformly and then discarded by a
/// bounds check.
#[derive(Clone, Copy, PartialEq, Eq, Structural, Debug, Hash)]
pub struct Coord {
    pub row: i64,
    pub col: i64,
}

/// Largest accepted grid extent per side; keeps every in-bounds coordinate,
/// and every candidate formed from one, inside `i64`.
pub const MAX_DIM: usize = 0x4000_0000;

/// Largest accepted magnitude of a movement offset component.
pub const MAX_OFFSET: i64 = 0x4000_0000_0000;

/// An immutable rectangular table of cells, `rows x cols`, each cell holding
/// a small numeric elevation. Built once from input text; never mutated.
pub struct Grid {
    pub cells: Vec<Vec<u8>>,
}

impl Grid {
    pub open spec fn rows(self) -> int {
        self.cells@.len() as int
    }

    pub open spec fn cols(self) -> int {
        if self.cells@.len() == 0 {
            0
        } else {
            self.cells@[0]@.len() as int
        }
    }

    /// Well-formedness: at least one row and one column, every row of equal
    /// length, and both extents small enough for safe coordinate arithmetic.
    pub open spec fn wf(self) -> bool {
        &&& 0 < self.rows() <= MAX_DIM
        &&& 0 < self.cols() <= MAX_DIM
        &&& forall|i: int|
            0 <= i < self.rows() ==> (#[trigger] self.cells@[i])@.len() == self.cols()
    }

    pub open spec fn in_bounds(self, c: Coord) -> bool {
        0 <= c.row < self.rows() && 0 <= c.col < self.cols()
    }

    /// The elevation stored at `c`; meaningful only when `c` is in bounds.
    pub open spec fn elev(self, c: Coord) -> int {
        self.cells@[c.row as int]@[c.col as int] as int
    }

    pub fn row_count(&self) -> (n: usize)
        ensures
            n == self.rows(),
    {
        self.cells.len()
    }

    pub fn col_count(&self) -> (n: usize)
        requires
            self.wf(),
        ensures
            n == self.cols(),
    {
        self.cells[0].len()
    }

    /// Boundary clipping test: whether `c` names a cell of this grid.
    pub fn contains_coord(&self, c: Coord) -> (r: bool)
        requires
            self.wf(),
        ensures
            r == self.in_bounds(c),
    {
        c.row >= 0 && c.col >= 0 && c.row < self.cells.len() as i64 && c.col < self.cells[0].len() as i64
    }

    pub fn elevation(&self, c: Coord) -> (v: u8)
        requires
            self.wf(),
            self.in_bounds(c),
        ensures
            v == self.elev(c),
    {
        self.cells[c.row as usize][c.col as usize]
    }

    /// Builds a grid of elevations from equal-length text rows: a decimal
    /// digit is its value, any other character counts as elevation zero.
    pub fn from_digit_lines(lines: &Vec<String>) -> (g: Grid)
        requires
            1 <= lines@.len() <= MAX_DIM,
            1 <= lines@[0]@.len() <= MAX_DIM,
            forall|i: int|
                0 <= i < lines@.len() ==> (#[trigger] lines@[i])@.len() == lines@[0]@.len(),
        ensures
            g.wf(),
            g.rows() == lines@.len(),
            g.cols() == lines@[0]@.len(),
            forall|r: int, c: int|
                0 <= r < lines@.len() && 0 <= c < lines@[0]@.len() ==> g.cells@[r]@[c]
                    == elev_of_char(#[trigger] lines@[r]@[c]),
    {
        let ghost cols = lines@[0]@.len() as int;
        let mut cells: Vec<Vec<u8>> = Vec::new();
        let mut r: usize = 0;
        while r < lines.len()
            invariant
                1 <= lines@.len() <= MAX_DIM,
                1 <= cols <= MAX_DIM,
                cols == lines@[0]@.len(),
                forall|i: int| 0 <= i < lines@.len() ==> (#[trigger] lines@[i])@.len() == cols,
                r <= lines@.len(),
                cells@.len() == r,
                forall|i: int| 0 <= i < r ==> (#[trigger] cells@[i])@.len() == cols,
                forall|i: int, c: int|
                    0 <= i < r && 0 <= c < cols ==> cells@[i]@[c] == elev_of_char(
                        #[trigger] lines@[i]@[c],
                    ),
            decreases lines@.len() - r,
        {
            let line = &lines[r];
            let mut row: Vec<u8> = Vec::new();
            let mut j: usize = 0;
            let w = line.as_str().unicode_len();
            while j < w
                invariant
                    w == line@.len(),
                    j <= w,
                    row@.len() == j,
                    forall|c: int| 0 <= c < j ==> row@[c] == elev_of_char(#[trigger] line@[c]),
                decreases w - j,
            {
                let ch = line.as_str().get_char(j);
                let code = ch as u32;
                let v: u8 = if code >= 48 && code <= 57 {
                    (code - 48) as u8
                } else {
                    0
                };
                row.push(v);
                j += 1;
            }
            cells.push(row);
            r += 1;
        }
        Grid { cells }
    }
}

/// The elevation a text character stands for: a digit's value, else zero.
pub open spec fn elev_of_char(c: char) -> int {
    if 48 <= c as int <= 57 {
        c as int - 48
    } else {
        0
    }
}

/// The coordinates of every cell of `lines` holding `marker`, row by row,
/// without duplicates.
pub fn marker_cells(lines: &Vec<String>, marker: char) -> (v: Vec<Coord>)
    requires
        1 <= lines@.len() <= MAX_DIM,
        1 <= lines@[0]@.len() <= MAX_DIM,
        forall|i: int| 0 <= i < lines@.len() ==> (#[trigger] lines@[i])@.len() == lines@[0]@.len(),
    ensures
        v@.no_duplicates(),
        forall|c: Coord|
            #[trigger] v@.to_set().contains(c) <==> (0 <= c.row < lines@.len() && 0 <= c.col
                < lines@[0]@.len() && lines@[c.row as int]@[c.col as int] == marker),
{
    let ghost rows = lines@.len() as int;
    let ghost cols = lines@[0]@.len() as int;
    let mut v: Vec<Coord> = Vec::new();
    let mut r: usize = 0;
    while r < lines.len()
        invariant
            1 <= rows <= MAX_DIM,
            1 <= cols <= MAX_DIM,
            rows == lines@.len(),
            cols == lines@[0]@.len(),
            forall|i: int| 0 <= i < lines@.len() ==> (#[trigger] lines@[i])@.len() == cols,
            r <= rows,
            v@.no_duplicates(),
            forall|t: int| 0 <= t < v@.len() ==> (#[trigger] v@[t]).row < r,
            forall|c: Coord|
                #[trigger] v@.contains(c) <==> (0 <= c.row < r && 0 <= c.col < cols
                    && lines@[c.row as int]@[c.col as int] == marker),
        decreases rows - r,
    {
        let line = &lines[r];
        let w = line.as_str().unicode_len();
        let mut j: usize = 0;
        while j < w
            invariant
                1 <= rows <= MAX_DIM,
                1 <= cols <= MAX_DIM,
                rows == lines@.len(),
                cols == lines@[0]@.len(),
                forall|i: int| 0 <= i < lines@.len() ==> (#[trigger] lines@[i])@.len() == cols,
                r < rows,
                line@ == lines@[r as int]@,
                w == cols,
                j <= w,
                v@.no_duplicates(),
                forall|t: int|
                    0 <= t < v@.len() ==> (#[trigger] v@[t]).row < r || (v@[t].row == r && v@[t].col
                        < j),
                forall|c: Coord|
                    #[trigger] v@.contains(c) <==> ((0 <= c.row < r && 0 <= c.col < cols
                        && lines@[c.row as int]@[c.col as int] == marker) || (c.row == r && 0
                        <= c.col < j && lines@[r as int]@[c.col as int] == marker)),
            decreases w - j,
        {
            let ch = line.as_str().get_char(j);
            proof {
                assert(ch == lines@[r as int]@[j as int]);
            }
            let ghost vpre = v@;
            let ghost pushed = Coord { row: r as i64, col: j as i64 };
            if ch == marker {
                let c = Coord { row: r as i64, col: j as i64 };
                proof {
                    assert(lines@[r as int]@[j as int] == marker);
                    assert(!v@.contains(c));
                    assert forall|i: int, t: int|
                        0 <= i < v@.push(c).len() && 0 <= t < v@.push(c).len() && i
                            != t implies v@.push(c)[i] != v@.push(c)[t] by {
                        if i < v@.len() && t < v@.len() {
                        } else if t == v@.len() && i < v@.len() {
                            assert(v@[i].row < r || (v@[i].row == r && v@[i].col < j));
                        } else if i == v@.len() && t < v@.len() {
                            assert(v@[t].row < r || (v@[t].row == r && v@[t].col < j));
                        }
                    }
                }
                v.push(c);
            }
            proof {
                let nj = j + 1;
                assert forall|c: Coord| #[trigger] v@.contains(c) implies ((0 <= c.row < r && 0
                    <= c.col < cols && lines@[c.row as int]@[c.col as int] == marker) || (c.row == r
                    && 0 <= c.col < nj && lines@[r as int]@[c.col as int] == marker)) by {
                    let t = choose|t: int| 0 <= t < v@.len() && v@[t] == c;
                    if t < vpre.len() {
                        assert(vpre[t] == c);
                        assert(vpre.contains(c));
                    } else {
                        assert(c == pushed);
                    }
                }
                assert forall|c: Coord|
                    ((0 <= c.row < r && 0 <= c.col < cols && lines@[c.row as int]@[c.col as int]
                        == marker) || (c.row == r && 0 <= c.col < nj
                        && lines@[r as int]@[c.col as int] == marker)) implies #[trigger] v@.contains(
                    c,
                ) by {
                    if c.row == r && c.col == j {
                        assert(lines@[r as int]@[j as int] == marker);
                        assert(c == pushed);
                        assert(v@[vpre.len() as int] == c);
                    } else {
                        assert(vpre.contains(c));
                        let t = choose|t: int| 0 <= t < vpre.len() && vpre[t] == c;
                        assert(v@[t] == c);
                    }
                }
            }
            j += 1;
        }
        r += 1;
    }
    proof {
        assert forall|c: Coord| #[trigger] v@.to_set().contains(c) implies v@.contains(c) by {}
    }
    v
}

} // verus!
