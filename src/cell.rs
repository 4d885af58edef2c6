use vstd::prelude::*;
use vstd::string::*;

verus! {

/// One slot of the grid: an optional digit in `1..=9`, and whether that
/// digit was given by the puzzle (and so must never be changed).
#[derive(Clone, Copy, PartialEq, Eq, Debug)]
pub struct Cell {
    pub value: Option<u8>,
    pub fixed: bool,
}

impl Cell {
    /// A well-formed cell holds a digit in `1..=9` or nothing, and only a
    /// cell holding a digit can be fixed.
    pub open spec fn wf(self) -> bool {
        &&& (self.value matches Some(v) ==> 1 <= v <= 9)
        &&& (self.fixed ==> self.value is Some)
    }

    pub fn empty() -> (r: Cell)
        ensures
            r.value is None,
            !r.fixed,
    {
        Cell { value: None, fixed: false }
    }

    /// Whether the cell holds a digit.
    pub fn valid(&self) -> (r: bool)
        ensures
            r == self.value is Some,
    {
        self.value.is_some()
    }

    /// The digit as a character, or `'_'` for an empty cell.
    pub fn as_char(&self) -> (r: char)
        ensures
            r == cell_char(self.value),
    {
        match self.value {
            Some(1) => '1',
            Some(2) => '2',
            Some(3) => '3',
            Some(4) => '4',
            Some(5) => '5',
            Some(6) => '6',
            Some(7) => '7',
            Some(8) => '8',
            Some(9) => '9',
            _ => '_',
        }
    }

    /// The digit as a one-character string, or `"_"` for an empty cell.
    pub fn as_string(&self) -> (r: String)
        ensures
            r@ == seq![cell_char(self.value)],
    {
        let text = match self.value {
            Some(1) => "1",
            Some(2) => "2",
            Some(3) => "3",
            Some(4) => "4",
            Some(5) => "5",
            Some(6) => "6",
            Some(7) => "7",
            Some(8) => "8",
            Some(9) => "9",
            _ => "_",
        };
        proof {
            reveal_strlit("1");
            reveal_strlit("2");
            reveal_strlit("3");
            reveal_strlit("4");
            reveal_strlit("5");
            reveal_strlit("6");
            reveal_strlit("7");
            reveal_strlit("8");
            reveal_strlit("9");
            reveal_strlit("_");
        }
        let r = String::from_str(text);
        assert(r@ =~= seq![cell_char(self.value)]);
        r
    }
}

/// The character that shows a cell's content.
pub open spec fn cell_char(value: Option<u8>) -> char {
    match value {
        Some(v) => if 1 <= v <= 9 {
            ('0' as u8 + v) as char
        } else {
            '_'
        },
        None => '_',
    }
}

} // verus!
