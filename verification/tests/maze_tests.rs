use maze_solver::maze::{
    get_neighbors, get_path, index_to_tuple, is_in_bounds, is_passable, MazeCell,
};
use maze_solver::{Maze, MazeIndex, Output};

fn maze_of(start: (i32, i32), end: (i32, i32), grid: Vec<Vec<i32>>) -> Maze {
    Maze {
        start: MazeIndex { row: start.0, col: start.1 },
        end: MazeIndex { row: end.0, col: end.1 },
        rowsAndColumns: grid,
    }
}

fn step_is_permitted(grid: &[Vec<i32>], a: (i32, i32), b: (i32, i32)) -> bool {
    let mask = grid[a.0 as usize][a.1 as usize];
    (mask & 1 != 0 && b == (a.0 - 1, a.1))
        || (mask & 2 != 0 && b == (a.0, a.1 + 1))
        || (mask & 4 != 0 && b == (a.0 + 1, a.1))
        || (mask & 8 != 0 && b == (a.0, a.1 - 1))
}

#[test]
fn single_cell_start_is_end() {
    let m = maze_of((0, 0), (0, 0), vec![vec![0]]);
    assert_eq!(get_path(&m), Some(vec![(0, 0)]));
}

#[test]
fn start_equals_end_on_larger_grid() {
    let m = maze_of((1, 0), (1, 0), vec![vec![6, 12], vec![3, 9]]);
    assert_eq!(get_path(&m), Some(vec![(1, 0)]));
}

#[test]
fn two_by_two_all_open() {
    let grid = vec![vec![6, 12], vec![3, 9]];
    let m = maze_of((0, 0), (1, 1), grid.clone());
    let path = get_path(&m).expect("a path exists");
    assert_eq!(path.len(), 3);
    assert_eq!(path[0], (0, 0));
    assert_eq!(path[2], (1, 1));
    assert!(path == vec![(0, 0), (0, 1), (1, 1)] || path == vec![(0, 0), (1, 0), (1, 1)]);
    for pair in path.windows(2) {
        assert!(step_is_permitted(&grid, pair[0], pair[1]));
    }
    for i in 0..path.len() {
        for j in 0..i {
            assert_ne!(path[i], path[j]);
        }
    }
}

#[test]
fn no_exit_from_start() {
    let m = maze_of((0, 0), (0, 1), vec![vec![0, 0]]);
    assert_eq!(get_path(&m), None);
}

#[test]
fn walled_off_end() {
    // Both cells next to the end are dead ends, so the end is unreachable.
    let m = maze_of((0, 0), (1, 1), vec![vec![6, 0], vec![0, 0]]);
    assert_eq!(get_path(&m), None);
}

#[test]
fn straight_corridor() {
    let m = maze_of((0, 0), (0, 2), vec![vec![2, 10, 8]]);
    assert_eq!(get_path(&m), Some(vec![(0, 0), (0, 1), (0, 2)]));
}

#[test]
fn detour_around_wall() {
    // Columns are joined only along the bottom row: the single path from
    // (0, 0) to (0, 2) must take six steps, though the two cells sit a
    // Manhattan distance of two apart.
    let grid = vec![
        vec![4, 0, 4],
        vec![5, 0, 5],
        vec![3, 10, 9],
    ];
    let m = maze_of((0, 0), (0, 2), grid);
    assert_eq!(
        get_path(&m),
        Some(vec![(0, 0), (1, 0), (2, 0), (2, 1), (2, 2), (1, 2), (0, 2)])
    );
}

#[test]
fn neighbors_all_bits_point_off_grid() {
    let neighbors = get_neighbors((0, 0), &vec![vec![15]]);
    assert_eq!(neighbors.len(), 0);
}

#[test]
fn neighbors_of_open_corner() {
    let neighbors = get_neighbors((0, 0), &vec![vec![6, 12], vec![3, 9]]);
    let mut indexes: Vec<(i32, i32)> = neighbors.iter().map(|c| c.index).collect();
    indexes.sort();
    assert_eq!(indexes, vec![(0, 1), (1, 0)]);
    for cell in &neighbors {
        assert_eq!(cell.g_cost, 0);
        assert_eq!(cell.h_cost, 0);
        assert!(cell.parent.is_none());
    }
}

#[test]
fn neighbors_respect_mask() {
    // Only the "right" bit is set, so only (0, 1) comes back.
    let neighbors = get_neighbors((0, 0), &vec![vec![2, 8], vec![0, 0]]);
    assert_eq!(neighbors.len(), 1);
    assert_eq!(neighbors[0].index, (0, 1));
}

#[test]
fn distance_fn_exact() {
    assert_eq!(MazeCell::distance_fn((0, 0), (2, 3)), 5);
    assert_eq!(MazeCell::distance_fn((2, 3), (0, 0)), 5);
    assert_eq!(MazeCell::distance_fn((4, 4), (4, 4)), 0);
    assert_eq!(MazeCell::distance_fn((-1, -2), (1, 1)), 5);
}

#[test]
fn from_index_fresh_node() {
    let cell = MazeCell::from_index((3, 7));
    assert_eq!(cell.index, (3, 7));
    assert_eq!(cell.g_cost, 0);
    assert_eq!(cell.h_cost, 0);
    assert!(cell.parent.is_none());
}

#[test]
fn set_h_cost_uses_manhattan() {
    let mut cell = MazeCell::from_index((0, 0));
    cell.g_cost = 9;
    cell.set_h_cost((0, 0), (1, 2));
    assert_eq!(cell.h_cost, 3);
    assert_eq!(cell.g_cost, 9);
    assert_eq!(cell.index, (0, 0));
}

#[test]
fn cost_sums_g_and_h() {
    let mut cell = MazeCell::from_index((0, 0));
    cell.g_cost = 3;
    cell.h_cost = 4;
    assert_eq!(cell.cost(), 7);
}

#[test]
fn get_path_walks_the_chain() {
    let root = MazeCell::from_index((0, 0));
    let mut mid = MazeCell::from_index((0, 1));
    mid.parent = Box::new(Some(root));
    let mut tip = MazeCell::from_index((1, 1));
    tip.parent = Box::new(Some(mid));
    assert_eq!(tip.get_path(), vec![(0, 0), (0, 1), (1, 1)]);
}

#[test]
fn as_usize_index_converts() {
    let cell = MazeCell::from_index((2, 3));
    assert_eq!(cell.as_usize_index(), (2usize, 3usize));
}

#[test]
fn index_to_tuple_reads_fields() {
    assert_eq!(index_to_tuple(&MazeIndex { row: 5, col: 7 }), (5, 7));
}

#[test]
fn is_in_bounds_cases() {
    assert!(is_in_bounds((0, 0), (1, 1)));
    assert!(is_in_bounds((2, 3), (3, 4)));
    assert!(!is_in_bounds((-1, 0), (3, 4)));
    assert!(!is_in_bounds((0, -1), (3, 4)));
    assert!(!is_in_bounds((3, 0), (3, 4)));
    assert!(!is_in_bounds((0, 4), (3, 4)));
}

#[test]
fn is_passable_checks_bit() {
    assert!(is_passable(6, 2));
    assert!(is_passable(6, 4));
    assert!(!is_passable(6, 1));
    assert!(!is_passable(6, 8));
    assert!(!is_passable(0, 1));
}

#[test]
fn output_from_index() {
    let idx = Output::from_index(&(3, 4));
    assert_eq!(idx.row, 3);
    assert_eq!(idx.col, 4);
}
