use rust_challenges::bloxorz_model::Orientation::{Horizontal, Upright, Vertical};
use rust_challenges::bloxorz_model::Tile::{Empty, Fragile, Goal, Regular};
use rust_challenges::bloxorz_model::{Block, Board, Direction, Game, Status};
use rust_challenges::bloxorz_solver::solve;
use rust_challenges::grid::Grid;

/// Returns the result of making multiple moves in the given directions in the given game.
///
/// Panics if there are still moves to make after the game is won or lost.
fn play<'a>(mut game: Game<'a>, directions: &[Direction]) -> Game<'a> {
    for (i, &direction) in directions.iter().enumerate() {
        let Status::Active(active_game) = game.status() else {
            panic!("cannot make a move in a finished game: move {i} of {directions:?}")
        };
        game = active_game.make_move(direction);
    }
    game
}

/// Solves the given board from the given initial block and checks the outcome
/// against the expected optimal solution length (None: unwinnable).
fn check_solve(board: Board, initial_block: Block, optimal_solution_length: Option<usize>) {
    let game = Game::new(&board, initial_block);
    match optimal_solution_length {
        Some(length) => {
            let solution = solve(game).unwrap();
            assert_eq!(solution.len(), length, "incorrect length: {solution:?}");
            let Status::Win = play(game, &solution).status() else {
                panic!("expected a win: {solution:?}");
            };
        }
        None => {
            if let Some(solution) = solve(game) {
                panic!("expected no solution, got solution {solution:?}");
            }
        }
    }
}

#[test]
fn test_instant_loss() {
    check_solve(
        Board(Grid::from_2d_array([[Fragile]])),
        Block((0, 0), Upright),
        None,
    );
}

#[test]
fn test_separated() {
    let o = Empty;
    let x = Regular;
    let g = Goal;
    check_solve(
        Board(Grid::from_2d_array([
            [x, x, x, o, x, x, x],
            [x, x, x, o, x, g, x],
            [x, x, x, o, x, x, x],
        ])),
        Block((1, 1), Vertical),
        None,
    );
}

#[test]
fn test_no_goal() {
    let x = Regular;
    check_solve(
        Board(Grid::from_2d_array([
            [x, x, x, x, x, x],
            [x, x, x, x, x, x],
            [x, x, x, x, x, x],
        ])),
        Block((2, 1), Horizontal),
        None,
    );
}

#[test]
fn test_slanted_rectangle() {
    let o = Empty;
    let x = Regular;
    let g = Goal;
    check_solve(
        Board(Grid::from_2d_array([
            [o, x, o, o],
            [x, x, x, o],
            [o, x, x, x],
            [o, o, g, o],
        ])),
        Block((0, 1), Upright),
        None,
    );
}

#[test]
fn test_instant_win() {
    check_solve(
        Board(Grid::from_2d_array([[Goal]])),
        Block((0, 0), Upright),
        Some(0),
    );
}

#[test]
fn test_dumbbell() {
    let o = Empty;
    let x = Regular;
    let f = Fragile;
    let g = Goal;
    check_solve(
        Board(Grid::from_2d_array([
            [x, x, x, o, o, o, x, x, g],
            [x, x, x, f, f, f, x, x, x],
            [x, x, x, f, f, f, x, x, x],
            [x, x, x, o, o, o, x, x, g],
        ])),
        Block((0, 0), Upright),
        Some(10),
    );
}

#[test]
fn test_plain_square() {
    let x = Regular;
    let g = Goal;
    check_solve(
        Board(Grid::from_2d_array([
            [x, x, x, x],
            [x, x, x, x],
            [x, x, x, x],
            [x, x, x, g],
        ])),
        Block((0, 0), Upright),
        Some(4),
    );
}

#[test]
fn test_winding() {
    let o = Empty;
    let x = Regular;
    let f = Fragile;
    let g = Goal;
    check_solve(
        Board(Grid::from_2d_array([
            [f, f, f, x, x, x, x],
            [f, o, o, o, o, o, x],
            [f, o, o, o, o, o, x],
            [g, x, x, o, x, x, x],
            [x, x, x, o, x, x, o],
            [x, x, x, o, x, x, o],
            [x, x, x, x, x, x, o],
        ])),
        Block((3, 0), Upright),
        Some(13),
    );
}

#[test]
fn test_circuit() {
    let o = Empty;
    let x = Regular;
    let f = Fragile;
    let g = Goal;
    check_solve(
        Board(Grid::from_2d_array([
            [f, f, f, f, f, f, f, f],
            [f, f, f, f, f, f, f, f],
            [o, o, x, o, o, x, f, f],
            [f, f, g, o, o, o, f, f],
            [f, f, o, o, o, o, f, f],
            [f, f, x, o, o, x, f, f],
            [f, f, f, f, f, f, f, f],
            [f, f, f, f, f, f, f, f],
        ])),
        Block((2, 2), Upright),
        Some(19),
    );
}

#[test]
fn test_switch() {
    let o = Empty;
    let x = Regular;
    let f = Fragile;
    let g = Goal;
    check_solve(
        Board(Grid::from_2d_array([
            [o, o, o, o, x, x, x, x, x, x],
            [f, f, f, f, f, f, f, o, x, x],
            [f, f, f, f, f, f, f, o, x, x],
            [f, f, f, x, f, f, f, g, x, x],
            [f, f, f, f, f, f, f, f, x, x],
            [f, f, f, f, f, f, f, f, x, x],
        ])),
        Block((0, 1), Vertical),
        Some(10),
    );
}

#[test]
fn test_many_paths() {
    let o = Empty;
    let x = Regular;
    let f = Fragile;
    let g = Goal;
    check_solve(
        Board(Grid::from_2d_array([
            [x, x, x, g, o, o, o],
            [x, f, f, x, o, o, o],
            [f, o, o, f, o, o, o],
            [f, o, o, f, o, o, o],
            [g, f, f, x, x, x, g],
        ])),
        Block((1, 1), Horizontal),
        Some(2),
    );
}

#[test]
fn test_tight_maneuvering() {
    let o = Empty;
    let x = Regular;
    let f = Fragile;
    let g = Goal;
    check_solve(
        Board(Grid::from_2d_array([
            [x, x, x, x],
            [o, f, f, g],
            [o, x, x, x],
        ])),
        Block((0, 0), Horizontal),
        Some(7),
    );
}

#[test]
fn test_instant_win_solution_is_empty() {
    // A board holding only a goal tile, with an upright block on it, is an
    // immediate win: the solver returns a zero-length move sequence.
    let board = Board(Grid::from_2d_array([[Goal]]));
    let game = Game::new(&board, Block((0, 0), Upright));
    let Status::Win = game.status() else {
        panic!("expected an immediate win");
    };
    assert_eq!(solve(game), Some(vec![]));
}

#[test]
fn test_replay_of_solution_avoids_losses() {
    // Every prefix of a returned solution leaves the game active, and the full
    // replay wins.
    let o = Empty;
    let x = Regular;
    let f = Fragile;
    let g = Goal;
    let board = Board(Grid::from_2d_array([
        [x, x, x, o, o, o, x, x, g],
        [x, x, x, f, f, f, x, x, x],
        [x, x, x, f, f, f, x, x, x],
        [x, x, x, o, o, o, x, x, g],
    ]));
    let game = Game::new(&board, Block((0, 0), Upright));
    let solution = solve(game).unwrap();
    for prefix_len in 0..solution.len() {
        let reached = play(game, &solution[..prefix_len]);
        let Status::Active(_) = reached.status() else {
            panic!("prefix of length {prefix_len} did not leave the game active");
        };
    }
    let Status::Win = play(game, &solution).status() else {
        panic!("expected a win");
    };
}
