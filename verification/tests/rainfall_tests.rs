use rust_challenges::grid::Grid;
use rust_challenges::rainfall::{identify_basins, Basin};

fn check_ok<const W: usize, const H: usize>(
    region: [[i32; W]; H],
    basins: [[Basin; W]; H],
) {
    let region = Grid::from_2d_array(region);
    let actual = identify_basins(&region);
    let expected = Ok(Grid::from_2d_array(basins));
    assert_eq!(actual, expected);
}

/// Checks that `identify_basins` fails on the region, and that a violation of
/// the unique lowest altitude requirement actually occurs at the reported cell.
/// There might be multiple such cells, but only one will ever be returned,
/// so the expected return value cannot be hardcoded.
fn check_err<const W: usize, const H: usize>(region: [[i32; W]; H]) {
    let region = Grid::from_2d_array(region);
    let (x, y) = identify_basins(&region).unwrap_err();
    let neighborhood = [(x, y), (x - 1, y), (x + 1, y), (x, y - 1), (x, y + 1)];
    let altitudes: Vec<i32> = neighborhood
        .iter()
        .filter_map(|&cell| region.get(cell).copied())
        .collect();
    let lowest = altitudes.iter().min().unwrap();
    let lowest_count = altitudes.iter().filter(|&a| a == lowest).count();
    assert!(lowest_count > 1, "no violation at ({x}, {y})");
}

#[test]
fn test_rainfall_empty_regions() {
    for dimensions in [(0, 0), (3, 0), (0, 3)] {
        let actual = identify_basins(&Grid::filled(0, dimensions));
        let placeholder_basin = Basin::new((0, 0));
        let expected = Ok(Grid::filled(placeholder_basin, dimensions));
        assert_eq!(actual, expected);
    }
}

#[test]
fn test_rainfall_problem_description_example() {
    let a = Basin::new((1, 0));
    let b = Basin::new((3, 0));
    let c = Basin::new((0, 1));
    let d = Basin::new((4, 2));
    check_ok(
        [
            [3, 1, 4, 2, 5, 9],
            [2, 6, 5, 3, 5, 8],
            [9, 7, 9, 3, 1, 3],
        ],
        [
            [a, a, a, b, b, b],
            [c, a, b, b, d, d],
            [c, a, d, d, d, d],
        ],
    );
}

#[test]
fn test_corner_sinks() {
    let a = Basin::new((0, 0));
    let b = Basin::new((3, 0));
    let c = Basin::new((0, 3));
    let d = Basin::new((3, 3));
    check_ok(
        [
            [0, 1, 1, 0],
            [2, 3, 2, 3],
            [1, 2, 3, 2],
            [0, 3, 1, 0],
        ],
        [
            [a, a, b, b],
            [a, a, b, b],
            [c, c, d, d],
            [c, c, d, d],
        ],
    );
}

#[test]
fn test_spiral_basin() {
    let a = Basin::new((0, 0));
    check_ok(
        [
            [-12, -11, -10, -9, -8],
            [5, 4, 3, 2, -7],
            [6, -1, 0, 1, -6],
            [7, -2, -3, -4, -5],
            [8, 9, 10, 11, 12],
        ],
        [
            [a, a, a, a, a],
            [a, a, a, a, a],
            [a, a, a, a, a],
            [a, a, a, a, a],
            [a, a, a, a, a],
        ],
    );
}

#[test]
fn test_strips() {
    let a = Basin::new((5, 0));
    let b = Basin::new((5, 2));
    check_ok(
        [
            [-1, -2, -3, -4, -5, -7],
            [-1, -2, -3, -4, -5, -6],
            [-1, -2, -3, -4, -5, -8],
        ],
        [
            [a, a, a, a, a, a],
            [b, b, b, b, b, b],
            [b, b, b, b, b, b],
        ],
    );
}

#[test]
fn test_single_cell() {
    let a = Basin::new((0, 0));
    check_ok([[0]], [[a]]);
}

#[test]
fn test_single_row_basin() {
    let a = Basin::new((1, 0));
    check_ok([[1, 0, 2]], [[a, a, a]]);
}

#[test]
fn test_single_column_basin() {
    let a = Basin::new((0, 0));
    let b = Basin::new((0, 2));
    check_ok([[0], [2], [1]], [[a], [a], [b]]);
}

// Violation at cell (2, 0) (altitude 4).
#[test]
fn test_problem_description_example_invalid_modification() {
    check_err([
        [3, 1, 4, 1, 5, 9],
        [2, 6, 5, 3, 5, 8],
        [9, 7, 9, 3, 2, 3],
    ]);
}

// Violation at the top cells.
#[test]
fn test_unclear_sink() {
    check_err([[0, 0], [1, 1]]);
}

// Violation at the center cells.
#[test]
fn test_ambiguous_corner_sinks() {
    check_err([
        [-1, 0, 0, -1],
        [0, 1, 1, 0],
        [0, 1, 1, 0],
        [-1, 0, 0, -1],
    ]);
}

// Violation at cell (5, 1) (altitude -6).
#[test]
fn test_ambiguous_strips() {
    check_err([
        [-1, -2, -3, -4, -5, -7],
        [-1, -2, -3, -4, -5, -6],
        [-1, -2, -3, -4, -5, -7],
    ]);
}

// Violation at every cell.
#[test]
fn test_all_equal() {
    check_err([
        [0, 0, 0],
        [0, 0, 0],
        [0, 0, 0],
    ]);
}
