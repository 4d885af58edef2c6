use sudoku::cell::Cell;
use sudoku::grid::{InputFormatError, Position, Sudoku};
use sudoku::zones::ZoneIndex;

const SOLUTION: [&str; 9] = [
    "534678912",
    "672195348",
    "198342567",
    "859761423",
    "426853791",
    "713924856",
    "961537284",
    "287419635",
    "345286179",
];

fn lines(rows: &[&str]) -> Vec<String> {
    rows.iter().map(|r| r.to_string()).collect()
}

#[test]
fn cell_valid_and_chars() {
    let full = Cell { value: Some(7), fixed: true };
    let empty = Cell::empty();
    assert!(full.valid());
    assert!(!empty.valid());
    assert_eq!(full.as_char(), '7');
    assert_eq!(empty.as_char(), '_');
    assert_eq!(full.as_string(), "7");
    assert_eq!(empty.as_string(), "_");
    assert_eq!(Cell { value: Some(1), fixed: false }.as_string(), "1");
}

#[test]
fn every_cell_has_twenty_neighbors() {
    let idx = ZoneIndex::new();
    for p in 0..81 {
        assert_eq!(idx.neighbor_count(p), 20);
    }
    let list = idx.neighbors_of(0);
    assert_eq!(list[0], 1);
    assert!(list.contains(&80) == false);
    assert!(list.contains(&20));
    assert!(list.contains(&72));
    assert!(!list.contains(&0));
}

#[test]
fn zones_list_rows_columns_regions() {
    let idx = ZoneIndex::new();
    assert_eq!(idx.zone_cell(0, 8), 8);
    assert_eq!(idx.zone_cell(9, 1), 9);
    assert_eq!(idx.zone_cell(17, 8), 80);
    assert_eq!(idx.zone_cell(18, 4), 10);
    assert_eq!(idx.zone_cell(22, 4), 40);
    assert_eq!(idx.zone_cell(26, 0), 60);
}

#[test]
fn parse_reads_givens_and_blanks() {
    let mut rows = SOLUTION;
    rows[0] = "5.4_7x91 ";
    let g = Sudoku::from_lines(&lines(&rows)).unwrap();
    let c = g.get(&Position { row: 0, column: 0 });
    assert_eq!(c.value, Some(5));
    assert!(c.fixed);
    let c = g.get(&Position { row: 0, column: 1 });
    assert_eq!(c.value, None);
    assert!(!c.fixed);
    assert!(g.is_empty(&Position { row: 0, column: 3 }));
    assert!(g.is_empty(&Position { row: 0, column: 8 }));
    assert_eq!(g.get(&Position { row: 8, column: 8 }).value, Some(9));
    assert_eq!(g.try_count(), 0);
}

#[test]
fn parse_rejects_wrong_line_count() {
    let r = Sudoku::from_lines(&lines(&SOLUTION[..8]));
    assert_eq!(r.err(), Some(InputFormatError::LineCount { found: 8 }));
    let r = Sudoku::from_lines(&Vec::new());
    assert_eq!(r.err(), Some(InputFormatError::LineCount { found: 0 }));
}

#[test]
fn parse_rejects_wrong_line_length() {
    let mut rows = SOLUTION;
    rows[3] = "85976142";
    rows[5] = "7139248567";
    let r = Sudoku::from_lines(&lines(&rows));
    assert_eq!(r.err(), Some(InputFormatError::LineLength { line: 3, found: 8 }));
}

#[test]
fn row_string_separates_cells() {
    let mut rows = SOLUTION;
    rows[1] = "6.2195.48";
    let g = Sudoku::from_lines(&lines(&rows)).unwrap();
    assert_eq!(g.row_string(0), "5 3 4 6 7 8 9 1 2");
    assert_eq!(g.row_string(1), "6 _ 2 1 9 5 _ 4 8");
}

#[test]
fn set_refuses_givens() {
    let mut rows = SOLUTION;
    rows[4] = "4268.3791";
    let mut g = Sudoku::from_lines(&lines(&rows)).unwrap();
    let center = Position { row: 4, column: 4 };
    assert!(!g.set(&Position { row: 0, column: 0 }, Some(1)));
    assert_eq!(g.get(&Position { row: 0, column: 0 }).value, Some(5));
    assert!(g.set(&center, Some(5)));
    assert_eq!(g.get(&center), Cell { value: Some(5), fixed: false });
    assert!(g.set(&center, None));
    assert!(g.is_empty(&center));
}

#[test]
fn new_grid_is_empty() {
    let g = Sudoku::new();
    for r in 0..9 {
        for c in 0..9 {
            assert!(g.is_empty(&Position { row: r, column: c }));
        }
    }
    assert_eq!(g.row_string(4), "_ _ _ _ _ _ _ _ _");
}

#[test]
fn validator_accepts_complete_solution() {
    let idx = ZoneIndex::new();
    let g = Sudoku::from_lines(&lines(&SOLUTION)).unwrap();
    assert!(g.is_complete_and_valid(&idx));
}

#[test]
fn validator_rejects_incomplete_or_clashing() {
    let idx = ZoneIndex::new();
    let mut rows = SOLUTION;
    rows[4] = "4268.3791";
    let g = Sudoku::from_lines(&lines(&rows)).unwrap();
    assert!(!g.is_complete_and_valid(&idx));
    // two cells of row 0 swapped: rows stay permutations, columns do not
    let mut rows = SOLUTION;
    rows[0] = "354678912";
    let g = Sudoku::from_lines(&lines(&rows)).unwrap();
    assert!(!g.is_complete_and_valid(&idx));
}

#[test]
fn flat_text_reads_like_lines() {
    let flat: String = SOLUTION.concat().replace('5', "0");
    let g = Sudoku::from_flat(&flat).unwrap();
    assert_eq!(g.row_string(0), "_ 3 4 6 7 8 9 1 2");
    assert_eq!(g.get(&Position { row: 8, column: 8 }).value, Some(9));
    assert!(g.get(&Position { row: 8, column: 8 }).fixed);
    let r = Sudoku::from_flat("123");
    assert_eq!(r.err(), Some(InputFormatError::CellCount { found: 3 }));
}
