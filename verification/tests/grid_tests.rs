use rust_challenges::grid::Grid;

/// Example grid for tests.
fn grid() -> Grid<i32> {
    Grid::from_2d_array([[3, 1, 4], [1, 5, 9]])
}

#[test]
fn test_equality() {
    assert_eq!(grid(), grid());
}

#[test]
fn test_inequality_different_shape() {
    let grid_transposed = Grid::from_2d_array([[3, 1], [4, 1], [5, 9]]);
    assert_ne!(grid(), grid_transposed);
}

#[test]
fn test_inequality_different_values() {
    let grid_doubled = Grid::from_2d_array([[6, 2, 8], [2, 10, 18]]);
    assert_ne!(grid(), grid_doubled);
}

#[test]
fn test_filled() {
    let expected = Grid::from_2d_array([[1, 1, 1], [1, 1, 1]]);
    assert_eq!(Grid::filled(1, (3, 2)), expected);
}

#[test]
fn test_dimensions() {
    let grid = grid();
    assert_eq!(grid.width(), 3);
    assert_eq!(grid.height(), 2);
    assert_eq!(grid.dimensions(), (3, 2));
}

#[test]
fn test_get() {
    let cases: &[((i32, i32), Option<i32>)] = &[
        ((0, 0), Some(3)),
        ((1, 0), Some(1)),
        ((2, 0), Some(4)),
        ((0, 1), Some(1)),
        ((1, 1), Some(5)),
        ((2, 1), Some(9)),
        ((3, 0), None),
        ((0, 2), None),
        ((6, 3), None),
        ((-1, 0), None),
        ((0, -1), None),
        ((-3, -3), None),
    ];
    for &(index, expected) in cases {
        assert_eq!(grid().get(index), expected.as_ref());
    }
}

#[test]
fn test_set() {
    let mut grid = grid();
    let expected = Grid::from_2d_array([[3, 1, 4], [2, 5, 6]]);
    *grid.get_mut((0, 1)).unwrap() = 2;
    *grid.get_mut((2, 1)).unwrap() = 6;
    assert_eq!(grid, expected);
    assert_eq!(grid.get_mut((4, 1)), None);
}

#[test]
fn test_iteration() {
    let grid = grid();
    let actual: Vec<((i32, i32), i32)> = grid.enumerate();
    let expected = vec![
        ((0, 0), 3),
        ((1, 0), 1),
        ((2, 0), 4),
        ((0, 1), 1),
        ((1, 1), 5),
        ((2, 1), 9),
    ];
    assert_eq!(actual, expected);
}

#[test]
fn test_map() {
    let grid_doubled = Grid::from_2d_array([[6, 2, 8], [2, 10, 18]]);
    assert_eq!(grid().map(|n| n * 2), grid_doubled);
}

#[test]
fn test_empty_grid_dimensions() {
    let empty: Grid<i32> = Grid::filled(0, (0, 5));
    assert_eq!(empty.dimensions(), (0, 5));
    assert_eq!(empty.get((0, 0)), None);
    assert_eq!(empty.enumerate::<(i32, i32)>(), vec![]);
}
