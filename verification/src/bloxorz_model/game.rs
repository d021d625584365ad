//! Module for the game's rules and state.

use crate::bloxorz_model::block::{Block, Direction, Orientation};
use crate::bloxorz_model::board::{Board, Tile};
use vstd::prelude::*;

verus! {

/// A game of Bloxorz in a specific state.
#[derive(Clone, Copy)]
pub struct Game<'a> {
    board: &'a Board,
    block: Block,
}

/// Information about the final outcome of a game of Bloxorz.
#[derive(Clone, Copy)]
pub enum Status<'a> {
    /// The player successfully completed the stage.
    Win,
    /// The player entered a fail state.
    Loss,
    /// The game is still ongoing.
    Active(ActiveGame<'a>),
}

/// An ongoing game of Bloxorz in which the player can still make moves.
#[derive(Clone, Copy)]
pub struct ActiveGame<'a> {
    board: &'a Board,
    block: Block,
}

/// A fail state: the block touches empty space anywhere in its footprint,
/// or stands fully upright on a fragile tile.
pub open spec fn is_loss_state(board: Board, block: Block) -> bool {
    ||| block.spec_is_touching(Tile::Empty, board)
    ||| block.spec_is_standing_on(Tile::Fragile, board)
}

/// A winning state: the block stands fully upright on a goal tile,
/// and no loss condition applies (falling takes precedence).
pub open spec fn is_win_state(board: Board, block: Block) -> bool {
    !is_loss_state(board, block) && block.spec_is_standing_on(Tile::Goal, board)
}

/// An in-progress state: neither a loss nor a win.
pub open spec fn is_active_state(board: Board, block: Block) -> bool {
    !is_loss_state(board, block) && !is_win_state(board, block)
}

impl<'a> Game<'a> {
    /// The board of this game.
    pub closed spec fn spec_board(self) -> Board {
        *self.board
    }

    /// The block of this game.
    pub closed spec fn spec_block(self) -> Block {
        self.block
    }

    /// Creates a game pairing the given board with the given block.
    pub fn new(board: &'a Board, block: Block) -> (g: Game<'a>)
        ensures
            g.spec_board() == *board,
            g.spec_block() == block,
    {
        Game { board, block }
    }

    /// The block of this game.
    pub fn block(self) -> (b: Block)
        ensures
            b == self.spec_block(),
    {
        self.block
    }

    /// Evaluates the status of the game based on the current state,
    /// in accordance with the rules of Bloxorz.
    pub fn status(self) -> (r: Status<'a>)
        requires
            self.spec_board().wf(),
            self.spec_block().footprint_fits(),
        ensures
            match r {
                Status::Win => is_win_state(self.spec_board(), self.spec_block()),
                Status::Loss => is_loss_state(self.spec_board(), self.spec_block()),
                Status::Active(g) => {
                    &&& is_active_state(self.spec_board(), self.spec_block())
                    &&& g.spec_board() == self.spec_board()
                    &&& g.spec_block() == self.spec_block()
                },
            },
    {
        let Game { board, block } = self;
        if block.is_touching(Tile::Empty, board) {
            return Status::Loss;
        }
        if block.is_standing_on(Tile::Fragile, board) {
            return Status::Loss;
        }
        if block.is_standing_on(Tile::Goal, board) {
            return Status::Win;
        }
        Status::Active(ActiveGame { board, block })
    }
}

impl<'a> ActiveGame<'a> {
    /// The board of this game.
    pub closed spec fn spec_board(self) -> Board {
        *self.board
    }

    /// The block of this game.
    pub closed spec fn spec_block(self) -> Block {
        self.block
    }

    /// The block of this game.
    pub fn block(self) -> (b: Block)
        ensures
            b == self.spec_block(),
    {
        self.block
    }

    /// Returns the result of making a move in the given direction in the current game state.
    pub fn make_move(self, direction: Direction) -> (g: Game<'a>)
        requires
            self.spec_block().move_fits(direction),
        ensures
            g.spec_board() == self.spec_board(),
            g.spec_block() == self.spec_block().spec_make_move(direction),
    {
        Game { board: self.board, block: self.block.make_move(direction) }
    }
}

/// A lying block never stands on anything: standing requires the upright
/// orientation, whatever the tile and the board.
pub proof fn lemma_lying_block_stands_on_nothing(block: Block, tile: Tile, board: Board)
    requires
        block.1 != Orientation::Upright,
    ensures
        !block.spec_is_standing_on(tile, board),
{
}

/// Classification precedence: a block touching empty space anywhere in its
/// footprint is in a loss state, never a win, whatever else its footprint covers.
pub proof fn lemma_touching_empty_is_loss(board: Board, block: Block)
    requires
        block.spec_is_touching(Tile::Empty, board),
    ensures
        is_loss_state(board, block),
        !is_win_state(board, block),
        !is_active_state(board, block),
{
}

} // verus!
