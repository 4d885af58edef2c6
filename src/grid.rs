use vstd::prelude::*;
use vstd::string::*;

use crate::cell::{Cell, cell_char};
use crate::zones::{
    CELLS, ZONES, ZoneIndex, in_zone, is_neighbor, lemma_zone_pos, lemma_zone_slot, region_of,
    row_of, col_of, zone_pos, zone_slot,
};

verus! {

/// A (row, column) coordinate of the grid.
#[derive(Clone, Copy, PartialEq, Eq, Debug)]
pub struct Position {
    pub row: usize,
    pub column: usize,
}

impl Position {
    pub open spec fn wf(self) -> bool {
        self.row < 9 && self.column < 9
    }

    /// The row-major number of the cell.
    pub open spec fn index(self) -> int {
        self.row * 9 + self.column
    }
}

/// The cell holds a digit of `1..=9`.
pub open spec fn holds_digit(c: Cell) -> bool {
    c.value matches Some(v) && 1 <= v <= 9
}

/// Every cell holds a digit of `1..=9`, and no two neighbours hold the same
/// digit.
pub open spec fn is_solved(s: Seq<Cell>) -> bool {
    &&& s.len() == 81
    &&& forall|p: int| 0 <= p < 81 ==> holds_digit(#[trigger] s[p])
    &&& forall|p: int, q: int|
        0 <= p < 81 && 0 <= q < 81 && is_neighbor(p, q) ==> #[trigger] s[p].value
            != #[trigger] s[q].value
}

/// The nine cells of zone `z` hold nine distinct digits of `1..=9`, that is
/// each digit exactly once.
pub open spec fn zone_is_permutation(s: Seq<Cell>, z: int) -> bool {
    &&& forall|k: int|
        0 <= k < 9 ==> holds_digit(#[trigger] s[zone_pos(z, k)])
    &&& forall|k: int, l: int|
        0 <= k < 9 && 0 <= l < 9 && k != l ==> #[trigger] s[zone_pos(z, k)].value
            != #[trigger] s[zone_pos(z, l)].value
}

/// A grid is solved exactly when each of its 27 zones holds a permutation of
/// the digits `1..=9`.
pub proof fn lemma_solved_iff_zones(s: Seq<Cell>)
    requires
        s.len() == 81,
    ensures
        is_solved(s) <==> forall|z: int| 0 <= z < 27 ==> #[trigger] zone_is_permutation(s, z),
{
    if is_solved(s) {
        assert forall|z: int| 0 <= z < 27 implies #[trigger] zone_is_permutation(s, z) by {
            assert forall|k: int| 0 <= k < 9 implies holds_digit(#[trigger] s[zone_pos(z, k)]) by {
                lemma_zone_pos(z, k);
            }
            assert forall|k: int, l: int| 0 <= k < 9 && 0 <= l < 9 && k != l implies #[trigger] s[zone_pos(
                z,
                k,
            )].value != #[trigger] s[zone_pos(z, l)].value by {
                lemma_zone_pos(z, k);
                lemma_zone_pos(z, l);
                assert(is_neighbor(zone_pos(z, k), zone_pos(z, l)));
            }
        }
    }
    if forall|z: int| 0 <= z < 27 ==> #[trigger] zone_is_permutation(s, z) {
        assert forall|p: int| 0 <= p < 81 implies holds_digit(#[trigger] s[p]) by {
            let z = row_of(p);
            lemma_zone_slot(z, p);
            assert(zone_is_permutation(s, z));
            assert(s[zone_pos(z, zone_slot(z, p))] == s[p]);
        }
        assert forall|p: int, q: int|
            0 <= p < 81 && 0 <= q < 81 && is_neighbor(p, q) implies #[trigger] s[p].value
                != #[trigger] s[q].value by {
            let z = if row_of(p) == row_of(q) {
                row_of(p)
            } else if col_of(p) == col_of(q) {
                9 + col_of(p)
            } else {
                18 + region_of(p)
            };
            assert(0 <= z < 27 && in_zone(z, p) && in_zone(z, q));
            lemma_zone_slot(z, p);
            lemma_zone_slot(z, q);
            assert(zone_is_permutation(s, z));
            let k = zone_slot(z, p);
            let l = zone_slot(z, q);
            assert(s[zone_pos(z, k)].value != s[zone_pos(z, l)].value);
        }
    }
}

/// The grid: 81 cells in row-major order, and a count of the branch points
/// the search has met (cells with two or more candidates).
pub struct Sudoku {
    cells: Vec<Cell>,
    try_count: u128,
}

impl View for Sudoku {
    type V = Seq<Cell>;

    closed spec fn view(&self) -> Seq<Cell> {
        self.cells@
    }
}

/// Why a text grid was refused.
#[derive(Clone, Copy, PartialEq, Eq, Debug)]
pub enum InputFormatError {
    /// The text does not have nine lines.
    LineCount { found: usize },
    /// Line `line` does not have nine characters.
    LineLength { line: usize, found: usize },
    /// A flattened grid does not have 81 characters.
    CellCount { found: usize },
}

/// The cell that a character of a text grid stands for: a digit `'1'..='9'`
/// is a given, anything else an empty cell.
pub open spec fn cell_of_char(c: char) -> Cell {
    if '1' as u32 <= c as u32 <= '9' as u32 {
        Cell { value: Some((c as u32 - '0' as u32) as u8), fixed: true }
    } else {
        Cell { value: None, fixed: false }
    }
}

/// The grid that nine lines of nine characters stand for.
pub open spec fn grid_of_lines(lines: Seq<Seq<char>>) -> Seq<Cell> {
    Seq::new(81, |p: int| cell_of_char(lines[p / 9][p % 9]))
}

/// The grid that a flattened text of 81 characters stands for.
pub open spec fn grid_of_flat(text: Seq<char>) -> Seq<Cell> {
    Seq::new(81, |p: int| cell_of_char(text[p]))
}

/// The text of row `r`: the nine cells' characters, separated by spaces.
pub open spec fn row_text(s: Seq<Cell>, r: int) -> Seq<char> {
    Seq::new(17, |i: int| if i % 2 == 0 { cell_char(s[r * 9 + i / 2].value) } else { ' ' })
}

impl Sudoku {
    /// How many cells with two or more candidates the search has branched on.
    pub closed spec fn tries(&self) -> u128 {
        self.try_count
    }

    pub fn try_count(&self) -> (r: u128)
        ensures
            r == self.tries(),
    {
        self.try_count
    }

    pub open spec fn wf(&self) -> bool {
        &&& self@.len() == 81
        &&& forall|p: int| 0 <= p < 81 ==> (#[trigger] self@[p]).wf()
    }

    /// A grid with every cell empty.
    pub fn new() -> (r: Sudoku)
        ensures
            r.wf(),
            r@ == Seq::new(81, |p: int| Cell { value: None, fixed: false }),
            r.tries() == 0,
    {
        let mut cells: Vec<Cell> = Vec::new();
        let mut p: usize = 0;
        while p < CELLS
            invariant
                p <= 81,
                cells@ == Seq::new(p as nat, |p: int| Cell { value: None, fixed: false }),
            decreases 81 - p,
        {
            cells.push(Cell::empty());
            p += 1;
        }
        Sudoku { cells, try_count: 0 }
    }

    /// Reads a grid from nine lines of nine characters each: `'1'..='9'` is a
    /// given digit, any other character an empty cell.
    pub fn from_lines(lines: &Vec<String>) -> (r: Result<Sudoku, InputFormatError>)
        ensures
            lines@.len() != 9 <==> r == Err::<Sudoku, InputFormatError>(
                InputFormatError::LineCount { found: lines@.len() as usize },
            ),
            match r {
                Ok(g) => {
                    &&& g.wf()
                    &&& g.tries() == 0
                    &&& lines@.len() == 9
                    &&& forall|i: int| 0 <= i < 9 ==> (#[trigger] lines@[i])@.len() == 9
                    &&& g@ == grid_of_lines(Seq::new(9, |i: int| lines@[i]@))
                },
                Err(InputFormatError::LineCount { .. }) => lines@.len() != 9,
                Err(InputFormatError::LineLength { line, found }) => {
                    &&& lines@.len() == 9
                    &&& line < 9
                    &&& found == lines@[line as int]@.len()
                    &&& found != 9
                    &&& forall|i: int| 0 <= i < line ==> (#[trigger] lines@[i])@.len() == 9
                },
                Err(InputFormatError::CellCount { .. }) => false,
            },
    {
        if lines.len() != 9 {
            return Err(InputFormatError::LineCount { found: lines.len() });
        }
        let mut i: usize = 0;
        while i < 9
            invariant
                lines@.len() == 9,
                i <= 9,
                forall|j: int| 0 <= j < i ==> (#[trigger] lines@[j])@.len() == 9,
            decreases 9 - i,
        {
            let n = lines[i].as_str().unicode_len();
            if n != 9 {
                return Err(InputFormatError::LineLength { line: i, found: n });
            }
            i += 1;
        }
        let ghost text = Seq::new(9, |i: int| lines@[i]@);
        let mut cells: Vec<Cell> = Vec::new();
        let mut p: usize = 0;
        while p < CELLS
            invariant
                lines@.len() == 9,
                forall|j: int| 0 <= j < 9 ==> (#[trigger] lines@[j])@.len() == 9,
                text == Seq::new(9, |i: int| lines@[i]@),
                p <= 81,
                cells@.len() == p,
                forall|q: int| 0 <= q < p ==> #[trigger] cells@[q] == grid_of_lines(text)[q],
            decreases 81 - p,
        {
            let c = lines[p / 9].as_str().get_char(p % 9);
            let cell = if '1' <= c && c <= '9' {
                Cell { value: Some((c as u32 - '0' as u32) as u8), fixed: true }
            } else {
                Cell::empty()
            };
            cells.push(cell);
            p += 1;
        }
        let g = Sudoku { cells, try_count: 0 };
        assert(g@ =~= grid_of_lines(text));
        Ok(g)
    }

    /// Reads a grid from its 81 characters in row-major order, with the
    /// same convention as `from_lines`.
    pub fn from_flat(text: &str) -> (r: Result<Sudoku, InputFormatError>)
        ensures
            match r {
                Ok(g) => {
                    &&& text@.len() == 81
                    &&& g.wf()
                    &&& g.tries() == 0
                    &&& g@ == grid_of_flat(text@)
                },
                Err(e) => text@.len() != 81 && e == InputFormatError::CellCount {
                    found: text@.len() as usize,
                },
            },
    {
        let n = text.unicode_len();
        if n != CELLS {
            return Err(InputFormatError::CellCount { found: n });
        }
        let mut cells: Vec<Cell> = Vec::new();
        let mut p: usize = 0;
        while p < CELLS
            invariant
                text@.len() == 81,
                p <= 81,
                cells@.len() == p,
                forall|q: int| 0 <= q < p ==> #[trigger] cells@[q] == grid_of_flat(text@)[q],
            decreases 81 - p,
        {
            let c = text.get_char(p);
            let cell = if '1' <= c && c <= '9' {
                Cell { value: Some((c as u32 - '0' as u32) as u8), fixed: true }
            } else {
                Cell::empty()
            };
            cells.push(cell);
            p += 1;
        }
        let g = Sudoku { cells, try_count: 0 };
        assert(g@ =~= grid_of_flat(text@));
        Ok(g)
    }

    /// The cell at `pos`.
    pub fn get(&self, pos: &Position) -> (r: Cell)
        requires
            self.wf(),
            pos.wf(),
        ensures
            r == self@[pos.index()],
    {
        self.cells[pos.row * 9 + pos.column]
    }

    /// Whether the cell at `pos` holds no digit.
    pub fn is_empty(&self, pos: &Position) -> (r: bool)
        requires
            self.wf(),
            pos.wf(),
        ensures
            r == self@[pos.index()].value is None,
    {
        self.cells[pos.row * 9 + pos.column].value.is_none()
    }

    /// Writes `value` into the cell at `pos`, unless that cell is a given:
    /// then nothing changes and the result is `false`.
    pub fn set(&mut self, pos: &Position, value: Option<u8>) -> (r: bool)
        requires
            old(self).wf(),
            pos.wf(),
            value matches Some(v) ==> 1 <= v <= 9,
        ensures
            final(self).wf(),
            final(self).tries() == old(self).tries(),
            r == !old(self)@[pos.index()].fixed,
            r ==> final(self)@ == old(self)@.update(pos.index(), Cell { value, fixed: false }),
            !r ==> final(self)@ == old(self)@,
    {
        let p = pos.row * 9 + pos.column;
        if self.cells[p].fixed {
            return false;
        }
        self.put(p, Cell { value, fixed: false });
        true
    }

    /// The cell at row-major number `p`.
    pub fn cell(&self, p: usize) -> (r: Cell)
        requires
            self.wf(),
            p < 81,
        ensures
            r == self@[p as int],
    {
        self.cells[p]
    }

    pub(crate) fn put(&mut self, p: usize, c: Cell)
        requires
            old(self).wf(),
            p < 81,
            c.wf(),
        ensures
            final(self).wf(),
            final(self)@ == old(self)@.update(p as int, c),
            final(self).tries() == old(self).tries(),
    {
        self.cells.set(p, c);
    }

    /// An independent copy of the grid, for a branch of the search to work on.
    pub fn copy_grid(&self) -> (r: Sudoku)
        requires
            self.wf(),
        ensures
            r.wf(),
            r@ == self@,
            r.tries() == self.tries(),
    {
        let mut cells: Vec<Cell> = Vec::new();
        let mut p: usize = 0;
        while p < CELLS
            invariant
                self.wf(),
                p <= 81,
                cells@ == self@.take(p as int),
            decreases 81 - p,
        {
            cells.push(self.cells[p]);
            assert(cells@ =~= self@.take(p + 1));
            p += 1;
        }
        assert(cells@ =~= self@);
        Sudoku { cells, try_count: self.try_count }
    }

    /// Counts one more branch point, saturating at the largest count.
    pub(crate) fn count_try(&mut self)
        ensures
            final(self)@ == old(self)@,
            final(self).tries() >= old(self).tries(),
    {
        if self.try_count < u128::MAX {
            self.try_count = self.try_count + 1;
        }
    }

    /// Whether every one of the 27 zones holds each digit `1..=9` exactly
    /// once.
    pub fn is_complete_and_valid(&self, idx: &ZoneIndex) -> (r: bool)
        requires
            self.wf(),
            idx.wf(),
        ensures
            r == is_solved(self@),
    {
        let ghost s = self@;
        let mut z: usize = 0;
        while z < ZONES
            invariant
                self.wf(),
                idx.wf(),
                s == self@,
                z <= 27,
                forall|y: int| 0 <= y < z ==> #[trigger] zone_is_permutation(s, y),
            decreases 27 - z,
        {
            let mut seen: Vec<bool> = vec![false; 10];
            let mut k: usize = 0;
            while k < 9
                invariant
                    self.wf(),
                    idx.wf(),
                    s == self@,
                    z < 27,
                    k <= 9,
                    seen@.len() == 10,
                    forall|j: int|
                        0 <= j < k ==> holds_digit(#[trigger] s[zone_pos(z as int, j)])
                            && seen@[s[zone_pos(z as int, j)].value->0 as int],
                    forall|d: int|
                        0 <= d < 10 && #[trigger] seen@[d] ==> exists|j: int|
                            0 <= j < k && s[zone_pos(z as int, j)].value == Some(d as u8),
                    forall|j: int, l: int|
                        0 <= j < k && 0 <= l < k && j != l ==> #[trigger] s[zone_pos(
                            z as int,
                            j,
                        )].value != #[trigger] s[zone_pos(z as int, l)].value,
                decreases 9 - k,
            {
                let p = idx.zone_cell(z, k);
                proof {
                    lemma_zone_pos(z as int, k as int);
                }
                match self.cells[p].value {
                    None => {
                        proof {
                            lemma_solved_iff_zones(s);
                            assert(!zone_is_permutation(s, z as int));
                        }
                        return false;
                    },
                    Some(v) => {
                        if seen[v as usize] {
                            proof {
                                let j = choose|j: int|
                                    0 <= j < k && s[zone_pos(z as int, j)].value == Some(v);
                                lemma_solved_iff_zones(s);
                                assert(!zone_is_permutation(s, z as int));
                            }
                            return false;
                        }
                        seen.set(v as usize, true);
                        proof {
                            assert forall|d: int|
                                0 <= d < 10 && #[trigger] seen@[d] implies exists|j: int|
                                    0 <= j < k + 1 && s[zone_pos(z as int, j)].value == Some(
                                        d as u8,
                                    ) by {
                                if d == v as int {
                                    assert(s[zone_pos(z as int, k as int)].value == Some(d as u8));
                                }
                            }
                        }
                    },
                }
                k += 1;
            }
            z += 1;
        }
        proof {
            lemma_solved_iff_zones(s);
        }
        true
    }

    /// Row `r` as text: its nine cells' characters separated by spaces.
    pub fn row_string(&self, r: usize) -> (out: String)
        requires
            self.wf(),
            r < 9,
        ensures
            out@ == row_text(self@, r as int),
    {
        let mut out = String::new();
        let mut c: usize = 0;
        while c < 9
            invariant
                self.wf(),
                r < 9,
                c <= 9,
                out@ == row_text(self@, r as int).take(if c == 0 { 0 } else { 2 * c - 1 }),
            decreases 9 - c,
        {
            let ghost text = row_text(self@, r as int);
            if c > 0 {
                let ghost before = out@;
                out.append(" ");
                assert(before =~= text.take(2 * c - 1));
                proof {
                    reveal_strlit(" ");
                }
                assert(text[2 * c - 1] == ' ');
                assert(out@ =~= text.take(2 * c));
            }
            assert(out@ =~= text.take(2 * c));
            let s = self.cells[r * 9 + c].as_string();
            out.append(s.as_str());
            assert(text[2 * c] == cell_char(self@[r * 9 + c].value));
            assert(out@ =~= text.take(2 * c + 1));
            c += 1;
        }
        assert(out@ =~= row_text(self@, r as int));
        out
    }
}

} // verus!
