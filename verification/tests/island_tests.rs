use rust_challenges::grid::Grid;
use rust_challenges::island_sizes::island_sizes;
use rust_challenges::island_sizes::Square::{self, Land as L, Water as W};

fn check<const N: usize>(grid: Grid<Square>, expected: [usize; N]) {
    let mut actual = island_sizes(&grid);
    actual.sort();
    assert_eq!(actual, expected);
}

#[test]
fn test_empty_regions() {
    for dimensions in [(0, 0), (3, 0), (0, 3)] {
        let actual = island_sizes(&Grid::filled(Square::Land, dimensions));
        assert_eq!(actual, []);
    }
}

#[test]
fn test_problem_description_example() {
    check(
        Grid::from_2d_array([
            [L, L, L, W, L, L, L],
            [L, L, W, W, W, L, L],
            [L, W, W, L, W, W, L],
            [W, W, L, W, L, W, W],
            [L, W, W, L, W, W, L],
            [L, L, W, W, W, L, L],
            [L, L, L, W, L, L, L],
        ]),
        [4, 6, 6, 6, 6],
    );
}

#[test]
fn test_chevrons() {
    check(
        Grid::from_2d_array([
            [W, L, L, W],
            [L, W, W, L],
            [W, W, W, W],
            [W, L, L, W],
            [L, W, W, L],
        ]),
        [4, 4],
    );
}

#[test]
fn test_isolated() {
    check(
        Grid::from_2d_array([
            [W, W, W, W, W, W, W],
            [W, L, W, W, W, L, W],
            [W, W, W, L, W, W, W],
            [W, L, W, W, W, L, W],
            [W, W, W, W, W, W, W],
        ]),
        [1, 1, 1, 1, 1],
    );
}

#[test]
fn test_checkerboard() {
    check(
        Grid::from_2d_array([
            [W, L, W, L],
            [L, W, L, W],
            [W, L, W, L],
            [L, W, L, W],
        ]),
        [8],
    );
}

#[test]
fn test_spiral() {
    check(
        Grid::from_2d_array([
            [L, W, W, L, L, W, W],
            [L, W, L, W, W, L, W],
            [L, W, L, W, W, L, W],
            [L, W, W, L, W, L, W],
            [W, L, W, W, W, L, W],
            [W, W, L, L, L, W, W],
            [W, W, W, W, W, W, W],
        ]),
        [17],
    );
}

#[test]
fn test_question_mark() {
    check(
        Grid::from_2d_array([
            [W, W, W, W, W],
            [W, L, L, W, W],
            [W, W, W, L, W],
            [W, W, L, W, W],
            [W, L, W, W, W],
            [W, W, W, W, W],
            [W, L, W, W, W],
            [W, W, W, W, W],
        ]),
        [1, 5],
    );
}

#[test]
fn test_lisp() {
    check(
        Grid::from_2d_array([
            [W, L, W, W, W, W, W, W, L, L, L, W, W, W, L, L, W, W, W, W, L, W, L, W, L, W],
            [L, W, W, L, W, W, W, W, W, W, L, W, W, W, W, L, W, W, W, W, L, W, L, W, W, L],
            [L, W, L, L, L, W, W, W, L, L, L, W, W, W, W, L, W, W, W, W, L, L, L, W, W, L],
            [L, W, W, L, W, W, W, W, W, W, L, W, W, W, W, L, W, W, W, W, W, W, L, W, W, L],
            [W, L, W, W, W, W, W, W, L, L, L, W, W, W, L, L, L, W, W, W, W, W, L, W, L, W],
        ]),
        [5, 5, 5, 8, 9, 11],
    );
}

#[test]
fn test_single() {
    check(Grid::from_2d_array([[L]]), [1]);
}

#[test]
fn test_single_row() {
    check(Grid::from_2d_array([[L, W, L, W, L, W]]), [1, 1, 1]);
}

#[test]
fn test_single_column() {
    check(Grid::from_2d_array([[W], [W], [L], [L], [L]]), [3]);
}

#[test]
fn test_all_water() {
    check(
        Grid::from_2d_array([[W, W, W, W, W, W], [W, W, W, W, W, W]]),
        [],
    );
}

#[test]
fn test_all_land() {
    check(
        Grid::from_2d_array([
            [L, L, L, L, L],
            [L, L, L, L, L],
            [L, L, L, L, L],
        ]),
        [15],
    );
}
