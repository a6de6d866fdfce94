use vstd::prelude::*;

pub mod maze;

verus! {

/// A grid coordinate: `row` increases downward, `col` to the right.
#[allow(non_snake_case)]
#[derive(Clone, Copy, PartialEq, Eq, Structural, Debug)]
pub struct MazeIndex {
    pub row: i32,
    pub col: i32,
}

/// A maze description: the start cell, the end cell, and a rectangular grid
/// of passability bitmasks (bit 1 = up, 2 = right, 4 = down, 8 = left).
#[allow(non_snake_case)]
#[derive(Debug)]
pub struct Maze {
    pub start: MazeIndex,
    pub end: MazeIndex,
    pub rowsAndColumns: Vec<Vec<i32>>,
}

/// The result of a search: the ordered cells of a path, start to end.
#[derive(Debug)]
pub struct Output {
    pub results: Vec<MazeIndex>,
}

impl Output {
    /// Package a `(row, col)` pair as a `MazeIndex`.
    pub fn from_index(index: &(i32, i32)) -> (r: MazeIndex)
        ensures
            r.row == index.0,
            r.col == index.1,
    {
        MazeIndex { row: index.0, col: index.1 }
    }
}

} // verus!
