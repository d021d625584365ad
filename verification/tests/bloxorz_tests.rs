use rust_challenges::bloxorz_model::Direction::{self, Down as D, Left as L, Right as R, Up as U};
use rust_challenges::bloxorz_model::Orientation::{Horizontal, Upright, Vertical};
use rust_challenges::bloxorz_model::Tile::{Empty, Fragile, Goal, Regular};
use rust_challenges::bloxorz_model::{Block, Board, Game, Status, Tile};
use rust_challenges::grid::Grid;

#[test]
fn test_make_move() {
    let cases = [
        (Block((0, 0), Upright), L, Block((-2, 0), Horizontal)),
        (Block((3, 1), Upright), R, Block((4, 1), Horizontal)),
        (Block((0, 0), Upright), U, Block((0, -2), Vertical)),
        (Block((4, 1), Upright), D, Block((4, 2), Vertical)),
        (Block((0, 3), Horizontal), L, Block((-1, 3), Upright)),
        (Block((5, 9), Horizontal), R, Block((7, 9), Upright)),
        (Block((6, 1), Horizontal), U, Block((6, 0), Horizontal)),
        (Block((2, 6), Horizontal), D, Block((2, 7), Horizontal)),
        (Block((1, 6), Vertical), L, Block((0, 6), Vertical)),
        (Block((5, 3), Vertical), R, Block((6, 3), Vertical)),
        (Block((3, 0), Vertical), U, Block((3, -1), Upright)),
        (Block((5, 8), Vertical), D, Block((5, 10), Upright)),
    ];
    for (block, direction, expected) in cases {
        assert_eq!(block.make_move(direction), expected);
    }
}

fn slanted_rectangle_board() -> Board {
    let o = Empty;
    let x = Regular;
    Board(Grid::from_2d_array([
        [o, x, o, o],
        [x, x, x, o],
        [o, x, x, x],
        [o, o, x, o],
    ]))
}

#[test]
fn test_is_touching() {
    let board = slanted_rectangle_board();
    let cases = [
        (Block((1, 2), Upright), Empty, false),
        (Block((3, 1), Upright), Empty, true),
        (Block((0, 1), Horizontal), Empty, false),
        (Block((1, 3), Horizontal), Empty, true),
        (Block((3, 2), Horizontal), Empty, true),
        (Block((-1, 2), Horizontal), Empty, true),
        (Block((2, 1), Vertical), Empty, false),
        (Block((1, -1), Vertical), Empty, true),
        (Block((3, 2), Vertical), Empty, true),
        (Block((3, 0), Vertical), Empty, true),
    ];
    for (block, tile, expected) in cases {
        assert_eq!(block.is_touching(tile, &board), expected);
    }
}

fn dumbbell_board() -> Board {
    let o = Empty;
    let x = Regular;
    let f = Fragile;
    let g = Goal;
    Board(Grid::from_2d_array([
        [x, x, x, o, o, o, x, x, g],
        [x, x, x, f, f, f, x, x, x],
        [x, x, x, f, f, f, x, x, x],
        [x, x, x, o, o, o, x, x, g],
    ]))
}

#[test]
fn test_is_standing_on() {
    let board = dumbbell_board();
    let cases = [
        (Block((0, 0), Upright), Goal, false),
        (Block((4, 1), Upright), Fragile, true),
        (Block((8, 3), Upright), Goal, true),
        (Block((8, 3), Upright), Fragile, false),
        (Block((6, 3), Horizontal), Goal, false),
        (Block((5, 1), Horizontal), Fragile, false),
        (Block((7, 0), Horizontal), Goal, false),
        (Block((3, 2), Horizontal), Fragile, false),
        (Block((0, 1), Vertical), Fragile, false),
        (Block((8, 0), Vertical), Goal, false),
        (Block((8, 2), Vertical), Goal, false),
        (Block((3, 1), Vertical), Fragile, false),
    ];
    for (block, tile, expected) in cases {
        assert_eq!(block.is_standing_on(tile, &board), expected);
    }
}

#[test]
fn test_tile_at() {
    let board = dumbbell_board();
    let cases: [((i32, i32), Tile); 7] = [
        ((-5, 2), Empty),
        ((4, 4), Empty),
        ((0, 2), Regular),
        ((3, 3), Empty),
        ((5, 1), Fragile),
        ((8, 0), Goal),
        ((8, 3), Goal),
    ];
    for (coordinates, expected) in cases {
        assert_eq!(board.tile_at(coordinates), expected);
    }
}

/// Returns the result of making multiple moves in the given directions in the given game.
///
/// Panics if there are still moves to make after the game is won or lost.
fn play<'a>(mut game: Game<'a>, directions: &[Direction]) -> Game<'a> {
    for (i, &direction) in directions.iter().enumerate() {
        let Status::Active(active_game) = game.status() else {
            panic!("move {i}: cannot make a move in a finished game")
        };
        game = active_game.make_move(direction);
    }
    game
}

#[test]
fn test_winning_play() {
    let cases: [(&[Direction], Block); 2] = [
        (&[D, R, R, R, R, R, R, R, R, U], Block((8, 0), Upright)),
        (
            &[R, D, D, D, L, U, R, R, R, R, R, R, D, R, U, U, U, L, D, R, R, D],
            Block((8, 3), Upright)),
    ];
    for (directions, final_block) in cases {
        let board = dumbbell_board();
        let result = play(Game::new(&board, Block((0, 0), Upright)), directions);
        assert_eq!(result.block(), final_block);
        let Status::Win = result.status() else {
            panic!("expected a win");
        };
    }
}

#[test]
fn test_losing_play() {
    let cases: [(&[Direction], Block); 5] = [
        (&[D, L], Block((-1, 1), Vertical)),
        (&[D, R, U, R], Block((2, 0), Horizontal)),
        (&[D, D, R, R], Block((3, 3), Upright)),
        (&[R, D, L, D, R, U, R, R], Block((4, 1), Upright)),
        (
            &[D, R, R, R, R, R, R, U, R, D, D, L, L, L],
            Block((3, 2), Upright)),
    ];
    for (directions, final_block) in cases {
        let board = dumbbell_board();
        let result = play(Game::new(&board, Block((0, 0), Upright)), directions);
        assert_eq!(result.block(), final_block);
        let Status::Loss = result.status() else {
            panic!("expected a loss");
        };
    }
}

#[test]
fn test_loss_beats_goal_when_straddling() {
    // A horizontal block covering a goal cell and an off-board cell is a loss:
    // falling takes precedence, and wins require standing upright.
    let board = Board(Grid::from_2d_array([[Regular, Goal]]));
    let game = Game::new(&board, Block((1, 0), Horizontal));
    let Status::Loss = game.status() else {
        panic!("expected a loss");
    };
}
