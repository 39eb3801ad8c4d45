use aoc25::grid::{Grid, GridError};
use std::fmt::Display;

#[test]
fn grid_test_construction() {
    let mut g = Grid::new(4, 4, 0.0);
    g.set(0, 1, 4.0);

    assert_eq!(g.get(0, 0).unwrap(), &0.0);
    assert_eq!(g[(0, 1)], 4.0);
}

#[test]
fn test_from_data() {
    let g = Grid::from_data(vec![1, 2, 3, 4, 5, 6], 3).unwrap();
    assert_eq!(g.dimensions(), (2, 3));
    assert_eq!(g[(1, 1)], 5);
    assert_eq!(g.get(4, 1), None);
}

#[test]
fn grid_test_transpose() {
    let a: Grid<char> = Grid::from_str("abc\ndef").unwrap();
    let b = a.transpose();
    let transposed: Grid<char> = Grid::from_str("ad\nbe\ncf").unwrap();

    assert_eq!(a.cols(), b.rows());
    assert_eq!(a.rows(), b.cols());
    assert_eq!(b, transposed);
}

#[test]
fn test_iter_row() {
    let grid: Grid<char> = Grid::from_str("1234\n4567\n7890").unwrap();
    assert_eq!(
        grid.row(0).into_iter().copied().collect::<Vec<_>>(),
        vec!['1', '2', '3', '4']
    );
    assert_eq!(
        grid.row(1).into_iter().copied().collect::<Vec<_>>(),
        vec!['4', '5', '6', '7']
    );
    assert_eq!(
        grid.row(2).into_iter().copied().collect::<Vec<_>>(),
        vec!['7', '8', '9', '0']
    );
}

#[test]
fn test_iter_col() {
    let grid: Grid<char> = Grid::from_str("1234\n4567\n7890").unwrap();
    assert_eq!(
        grid.col(0).into_iter().copied().collect::<Vec<_>>(),
        vec!['1', '4', '7']
    );
    assert_eq!(
        grid.col(1).into_iter().copied().collect::<Vec<_>>(),
        vec!['2', '5', '8']
    );
    assert_eq!(
        grid.col(2).into_iter().copied().collect::<Vec<_>>(),
        vec!['3', '6', '9']
    );
    assert_eq!(
        grid.col(3).into_iter().copied().collect::<Vec<_>>(),
        vec!['4', '7', '0']
    );
}

#[test]
fn test_cells() {
    let g: Grid<char> = Grid::from_str("...\n...").unwrap();
    let coords: Vec<_> = g.cells().into_iter().map(|(r, c, _)| (r, c)).collect();
    assert_eq!(coords, vec![(0, 0), (0, 1), (0, 2), (1, 0), (1, 1), (1, 2)])
}

#[test]
fn test_steps() {
    let size = 5;
    let grid = {
        let mut g = Grid::new(size, size, 0);
        for r in 0..size {
            for c in 0..size {
                g.set(r, c, (r * size) + c);
            }
        }
        g
    };

    let steps: Vec<usize> = grid.step((0, 0), (0, 1)).into_iter().map(|s| *s.0).collect();
    assert_eq!(steps, vec![0, 1, 2, 3, 4]);

    let steps: Vec<usize> = grid.step((0, 0), (1, 0)).into_iter().map(|s| *s.0).collect();
    assert_eq!(steps, vec![0, 5, 10, 15, 20]);

    let steps: Vec<usize> = grid.step((0, 0), (1, 1)).into_iter().map(|s| *s.0).collect();
    assert_eq!(steps, vec![0, 6, 12, 18, 24]);
}

#[test]
fn test_rotate_rows() {
    let init = Grid::from_data(vec![1, 2, 3, 4, 5, 6], 2).unwrap();
    let mut grid = init.clone();

    let grid2 = Grid::from_data(vec![5, 6, 1, 2, 3, 4], 2).unwrap();

    grid.rotate_rows(1);
    assert_eq!(grid, grid2);

    let mut rotated1 = init.clone();
    let mut rotated2 = init.clone();
    rotated1.rotate_rows(2);
    rotated2.rotate_rows(-1);
    assert_eq!(rotated1, rotated2);
}

#[test]
fn test_rotate_cols() {
    let init = Grid::from_data(vec![1, 2, 3, 4, 5, 6], 3).unwrap();
    let mut grid = init.clone();

    let grid2 = Grid::from_data(vec![3, 1, 2, 6, 4, 5], 3).unwrap();

    grid.rotate_cols(1);
    assert_eq!(grid, grid2);

    let mut rotated1 = init.clone();
    let mut rotated2 = init.clone();
    rotated1.rotate_cols(2);
    rotated2.rotate_cols(-1);
    assert_eq!(rotated1, rotated2);
}

#[derive(Clone, Copy, PartialEq, Eq, PartialOrd, Ord, Debug)]
enum TicTacToe {
    Empty,
    Naught,
    Cross,
}

impl Display for TicTacToe {
    fn fmt(&self, f: &mut std::fmt::Formatter<'_>) -> std::fmt::Result {
        match self {
            TicTacToe::Empty => f.write_str(" "),
            TicTacToe::Naught => f.write_str("o"),
            TicTacToe::Cross => f.write_str("x"),
        }
    }
}

#[test]
fn test_display() {
    let size = 4;
    let mut g = Grid::new(size, size, TicTacToe::Empty);
    for i in 0..size {
        g.set(i, i, TicTacToe::Naught);
        g.set(size - i - 1, i, TicTacToe::Cross);
    }

    let x = g.render();
    assert_eq!(x, "o  x\n ox \n xo \nx  o\n");
}

#[test]
fn a_grid_needs_whole_rows_of_one_length() {
    assert_eq!(Grid::from_data(vec![1, 2, 3], 2).err(), Some(GridError::BadDataSize(3)));
    assert_eq!(Grid::<u8>::from_rows(vec![]).err(), Some(GridError::OuterEmpty));
    assert_eq!(Grid::<u8>::from_rows(vec![vec![], vec![1]]).err(), Some(GridError::InnerEmpty));
    assert_eq!(
        Grid::from_rows(vec![vec![1], vec![1, 2]]).err(),
        Some(GridError::UnequalRows)
    );
    assert_eq!(Grid::<char>::from_str("").err(), Some(GridError::OuterEmpty));
    let g: Grid<char> = Grid::from_str("ab\r\ncd\n").unwrap();
    assert_eq!(g.dimensions(), (2, 2));
    assert_eq!(g.iter(), vec![&'a', &'b', &'c', &'d']);
}

#[test]
fn a_cell_can_be_changed_in_place() {
    let mut g = Grid::new(2, 3, 0);
    *g.get_mut(1, 2).unwrap() = 7;
    assert!(g.get_mut(2, 0).is_none());
    assert_eq!(g.set(1, 2, 9), Some(7));
    assert_eq!(g.set(0, 3, 9), None);
    assert_eq!(g.get_index(1, 2), Some(5));
    assert_eq!(g.get_index(2, 0), None);
    assert_eq!(g.iter(), vec![&0, &0, &0, &0, &0, &9]);
}

#[test]
fn the_cells_around_a_cell_come_row_after_row() {
    let g = Grid::from_data(vec![1, 2, 3, 4, 5, 6, 7, 8, 9], 3).unwrap();
    assert_eq!(g.neighbors(1, 1), vec![&1, &2, &3, &4, &6, &7, &8, &9]);
    assert_eq!(g.neighbors(0, 0), vec![&2, &4, &5]);
    assert_eq!(g.neighbors(2, 2), vec![&5, &6, &8]);
    assert_eq!(g.orthogonal(1, 1), vec![&2, &4, &6, &8]);
    assert_eq!(g.orthogonal(2, 2), vec![&6, &8]);
    assert_eq!(g.count_neighbors(1, 1, |v| *v % 2 == 0), 4);
    assert_eq!(g.count_neighbors(0, 2, |v| *v > 2), 2);
}

#[test]
fn a_walk_ends_before_the_cell_it_cannot_leave() {
    let g = Grid::from_data(vec![1, 2, 3, 4, 5, 6], 3).unwrap();
    let back: Vec<i32> = g.step((1, 2), (0, -1)).into_iter().map(|s| *s.0).collect();
    assert_eq!(back, vec![6, 5]);
    let places: Vec<(usize, usize)> = g.step((0, 0), (1, 2)).into_iter().map(|s| s.1).collect();
    assert_eq!(places, vec![(0, 0), (1, 2)]);
    assert!(g.step((2, 0), (0, 0)).is_empty());
}

#[test]
fn turning_and_flipping() {
    let g = Grid::from_data(vec![1, 2, 3, 4, 5, 6], 3).unwrap();
    let turned = g.rotate();
    assert_eq!(turned.dimensions(), (3, 2));
    assert_eq!(turned.iter(), vec![&3, &6, &2, &5, &1, &4]);
    let flipped = g.flip();
    assert_eq!(flipped.dimensions(), (3, 2));
    assert_eq!(flipped.iter(), vec![&6, &5, &4, &3, &2, &1]);
    let mut rows = g.clone();
    rows.rotate_rows(-1);
    assert_eq!(rows.iter(), vec![&4, &5, &6, &1, &2, &3]);
    rows.rotate_rows(0);
    assert_eq!(rows.iter(), vec![&4, &5, &6, &1, &2, &3]);
    let mut cols = g.clone();
    cols.rotate_cols(-1);
    assert_eq!(cols.iter(), vec![&2, &3, &1, &5, &6, &4]);
    cols.rotate_cols(3);
    assert_eq!(cols.iter(), vec![&2, &3, &1, &5, &6, &4]);
}
