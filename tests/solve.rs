use sudoku::grid::{Position, Sudoku};
use sudoku::zones::ZoneIndex;

const SOLUTION: [&str; 9] = [
    "534678912",
    "672195348",
    "198342567",
    "859761423",
    "426853791",
    "713924856",
    "961537284",
    "287419635",
    "345286179",
];

const PUZZLE: [&str; 9] = [
    "53..7....",
    "6..195...",
    ".98....6.",
    "8...6...3",
    "4..8.3..1",
    "7...2...6",
    ".6....28.",
    "...419..5",
    "....8..79",
];

const EVIL: [&str; 9] = [
    "8........",
    "..36.....",
    ".7..9.2..",
    ".5...7...",
    "....457..",
    "...1...3.",
    "..1....68",
    "..85...1.",
    ".9....4..",
];

const EVIL_SOLUTION: [&str; 9] = [
    "812753649",
    "943682175",
    "675491283",
    "154237896",
    "369845721",
    "287169534",
    "521974368",
    "438526917",
    "796318452",
];

fn grid(rows: &[&str]) -> Sudoku {
    let lines: Vec<String> = rows.iter().map(|r| r.to_string()).collect();
    Sudoku::from_lines(&lines).unwrap()
}

fn rows_of(g: &Sudoku) -> Vec<String> {
    (0..9).map(|r| g.row_string(r).replace(' ', "")).collect()
}

#[test]
fn solved_grid_is_left_alone() {
    let mut g = grid(&SOLUTION);
    let idx = ZoneIndex::new();
    assert!(g.is_complete_and_valid(&idx));
    assert!(g.solve());
    assert_eq!(rows_of(&g), SOLUTION.to_vec());
    assert_eq!(g.try_count(), 0);
    for r in 0..9 {
        for c in 0..9 {
            assert!(g.get(&Position { row: r, column: c }).fixed);
        }
    }
}

#[test]
fn blank_center_gets_five() {
    let mut rows = SOLUTION;
    rows[4] = "4268_3791";
    let mut g = grid(&rows);
    let center = Position { row: 4, column: 4 };
    assert!(g.is_empty(&center));
    let idx = ZoneIndex::new();
    assert_eq!(g.get_available_values(&idx, 40), vec![5]);
    assert!(g.solve());
    assert_eq!(g.get(&center).value, Some(5));
    assert!(!g.get(&center).fixed);
    assert_eq!(g.try_count(), 0);
    assert!(g.is_complete_and_valid(&idx));
}

#[test]
fn single_gap_in_corner_is_filled() {
    let mut rows = SOLUTION;
    rows[8] = "34528617.";
    let mut g = grid(&rows);
    let idx = ZoneIndex::new();
    assert!(g.solve_with(&idx, &mut 7));
    assert_eq!(g.get(&Position { row: 8, column: 8 }).value, Some(9));
}

#[test]
fn evil_puzzle_is_solved() {
    let mut g = grid(&EVIL);
    let idx = ZoneIndex::new();
    assert!(g.solve_parallel(&idx));
    assert!(g.is_complete_and_valid(&idx));
    assert_eq!(rows_of(&g), EVIL_SOLUTION.to_vec());
    assert!(g.try_count() > 0);
    assert!(g.try_count() < 1_000_000);
}

#[test]
fn evil_puzzle_is_solved_sequentially() {
    let mut g = grid(&EVIL);
    let idx = ZoneIndex::new();
    assert!(g.solve_with(&idx, &mut 7));
    assert!(g.is_complete_and_valid(&idx));
    assert_eq!(rows_of(&g), EVIL_SOLUTION.to_vec());
    assert!(g.try_count() > 0);
    assert!(g.try_count() < 1_000_000);
}

#[test]
fn givens_are_kept_and_result_validates() {
    let before = grid(&PUZZLE);
    let mut g = grid(&PUZZLE);
    assert!(g.solve());
    assert_eq!(rows_of(&g), SOLUTION.to_vec());
    let idx = ZoneIndex::new();
    assert!(g.is_complete_and_valid(&idx));
    for r in 0..9 {
        for c in 0..9 {
            let pos = Position { row: r, column: c };
            let old = before.get(&pos);
            if old.fixed {
                assert_eq!(g.get(&pos), old);
            } else {
                assert!(!g.get(&pos).fixed);
            }
        }
    }
}

#[test]
fn duplicate_in_row_fails() {
    let mut rows = PUZZLE;
    rows[0] = "53..7...5";
    let before = rows_of(&grid(&rows));
    let mut g = grid(&rows);
    assert!(!g.solve());
    assert_eq!(rows_of(&g), before);
    let mut g = grid(&rows);
    let idx = ZoneIndex::new();
    assert!(!g.solve_with(&idx, &mut 7));
    assert_eq!(rows_of(&g), before);
}

#[test]
fn clashing_full_grid_fails() {
    let mut rows = SOLUTION;
    rows[0] = "354678912";
    let mut g = grid(&rows);
    assert!(!g.solve());
    assert_eq!(rows_of(&g)[0], "354678912");
}

#[test]
fn empty_grid_is_solved() {
    let mut g = Sudoku::new();
    let idx = ZoneIndex::new();
    assert!(g.solve_with(&idx, &mut 7));
    assert!(g.is_complete_and_valid(&idx));
}

#[test]
fn best_position_prefers_fewest_candidates() {
    let idx = ZoneIndex::new();
    let g = grid(&PUZZLE);
    let (p, vals) = g.find_best_position(&idx).unwrap();
    assert_eq!(vals.len(), 1);
    assert_eq!(g.get_available_values(&idx, p), vals);
    assert!(grid(&SOLUTION).find_best_position(&idx).is_none());
    let (p, vals) = Sudoku::new().find_best_position(&idx).unwrap();
    assert_eq!(p, 0);
    assert_eq!(vals, vec![1, 2, 3, 4, 5, 6, 7, 8, 9]);
}

#[test]
fn available_values_exclude_neighbors() {
    let idx = ZoneIndex::new();
    let g = grid(&PUZZLE);
    // row 0 holds 5 3 7, column 2 holds 8, region 0 holds 5 3 6 9 8
    assert_eq!(g.get_available_values(&idx, 2), vec![1, 2, 4]);
}

#[test]
fn any_seed_finds_a_solution() {
    let idx = ZoneIndex::new();
    let mut seen = Vec::new();
    for seed in [0u64, 1, 42, u64::MAX] {
        let mut rng = seed;
        let mut g = Sudoku::new();
        assert!(g.solve_with(&idx, &mut rng));
        assert!(g.is_complete_and_valid(&idx));
        seen.push(rows_of(&g));
        let mut e = grid(&EVIL);
        let mut rng = seed;
        assert!(e.solve_with(&idx, &mut rng));
        assert_eq!(rows_of(&e), EVIL_SOLUTION.to_vec());
    }
    assert!(seen.iter().any(|s| *s != seen[0]));
}
