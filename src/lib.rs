// A 9x9 grid puzzle solver: the zones of the grid, the grid itself with its
// validator, and a backtracking search that picks the cell with the fewest
// candidates first, proved to return a solution that keeps every given digit
// exactly when one exists.

pub mod cell;
pub mod zones;
pub mod grid;
pub mod solver;
pub mod laws;
