//! Module for the player-controlled block.

use crate::bloxorz_model::board::{Board, Coordinates, Tile};
use vstd::prelude::*;

verus! {

/// A direction in which the block can be moved.
#[derive(Clone, Copy, Debug, PartialEq, Eq, Structural)]
pub enum Direction {
    Left,
    Right,
    Up,
    Down,
}

/// The orientation of the block.
#[derive(Clone, Copy, Debug, PartialEq, Eq, Hash, Structural)]
pub enum Orientation {
    /// Standing up, covering a 1×1 area.
    Upright,
    /// Lying down, covering a 2×1 area.
    Horizontal,
    /// Lying down, covering a 1×2 area.
    Vertical,
}

/// The rectangular block that the player controls.
///
/// The coordinates of the block refer to the top left square of its covered area.
/// The block is not, by itself, associated with a board --
/// on its own, it can move to any pair of integer coordinates.
#[derive(Clone, Copy, Debug, PartialEq, Eq, Hash)]
pub struct Block(pub Coordinates, pub Orientation);

impl Block {
    /// Horizontal coordinate delta of one move, keyed by (orientation, direction).
    pub open spec fn move_dx(orientation: Orientation, direction: Direction) -> int {
        match (orientation, direction) {
            (Orientation::Upright, Direction::Left) => -2,
            (Orientation::Upright, Direction::Right) => 1,
            (Orientation::Horizontal, Direction::Left) => -1,
            (Orientation::Horizontal, Direction::Right) => 2,
            (Orientation::Vertical, Direction::Left) => -1,
            (Orientation::Vertical, Direction::Right) => 1,
            _ => 0,
        }
    }

    /// Vertical coordinate delta of one move, keyed by (orientation, direction).
    pub open spec fn move_dy(orientation: Orientation, direction: Direction) -> int {
        match (orientation, direction) {
            (Orientation::Upright, Direction::Up) => -2,
            (Orientation::Upright, Direction::Down) => 1,
            (Orientation::Horizontal, Direction::Up) => -1,
            (Orientation::Horizontal, Direction::Down) => 1,
            (Orientation::Vertical, Direction::Up) => -1,
            (Orientation::Vertical, Direction::Down) => 2,
            _ => 0,
        }
    }

    /// Resulting orientation of one move, keyed by (orientation, direction).
    pub open spec fn move_orientation(orientation: Orientation, direction: Direction) -> Orientation {
        match (orientation, direction) {
            (Orientation::Upright, Direction::Left) => Orientation::Horizontal,
            (Orientation::Upright, Direction::Right) => Orientation::Horizontal,
            (Orientation::Upright, Direction::Up) => Orientation::Vertical,
            (Orientation::Upright, Direction::Down) => Orientation::Vertical,
            (Orientation::Horizontal, Direction::Up) => Orientation::Horizontal,
            (Orientation::Horizontal, Direction::Down) => Orientation::Horizontal,
            (Orientation::Vertical, Direction::Left) => Orientation::Vertical,
            (Orientation::Vertical, Direction::Right) => Orientation::Vertical,
            _ => Orientation::Upright,
        }
    }

    /// The block after one move: coordinates shifted by the move deltas,
    /// orientation replaced by the move's resulting orientation.
    pub open spec fn spec_make_move(self, direction: Direction) -> Block {
        Block(
            (
                (self.0.0 + Self::move_dx(self.1, direction)) as i32,
                (self.0.1 + Self::move_dy(self.1, direction)) as i32,
            ),
            Self::move_orientation(self.1, direction),
        )
    }

    /// Whether the coordinates of the block after one move are representable.
    pub open spec fn move_fits(self, direction: Direction) -> bool {
        &&& i32::MIN <= self.0.0 + Self::move_dx(self.1, direction) <= i32::MAX
        &&& i32::MIN <= self.0.1 + Self::move_dy(self.1, direction) <= i32::MAX
    }

    /// Returns the result of moving the block once in the given direction,
    /// following the block movement mechanics of Bloxorz.
    pub fn make_move(self, direction: Direction) -> (r: Block)
        requires
            self.move_fits(direction),
        ensures
            r == self.spec_make_move(direction),
    {
        // Movement:
        // Upright: | Horizontal: | Vertical:
        //          |             |
        //   U      |             |
        //   u      |  Uu         |  U
        // LlSRr    | LSsR        | LSR
        //   D      |  Dd         | lsr
        //   d      |             |  D
        //
        // S: start; L: left; R: right; U: up; D: down
        // Capital letters indicate the square referred to by the block's coordinates.
        let Block((x, y), curr_orientation) = self;
        let (dx, dy, new_orientation) = match (curr_orientation, direction) {
            (Orientation::Upright, Direction::Left) => (-2i32, 0i32, Orientation::Horizontal),
            (Orientation::Upright, Direction::Right) => (1, 0, Orientation::Horizontal),
            (Orientation::Upright, Direction::Up) => (0, -2, Orientation::Vertical),
            (Orientation::Upright, Direction::Down) => (0, 1, Orientation::Vertical),
            (Orientation::Horizontal, Direction::Left) => (-1, 0, Orientation::Upright),
            (Orientation::Horizontal, Direction::Right) => (2, 0, Orientation::Upright),
            (Orientation::Horizontal, Direction::Up) => (0, -1, Orientation::Horizontal),
            (Orientation::Horizontal, Direction::Down) => (0, 1, Orientation::Horizontal),
            (Orientation::Vertical, Direction::Left) => (-1, 0, Orientation::Vertical),
            (Orientation::Vertical, Direction::Right) => (1, 0, Orientation::Vertical),
            (Orientation::Vertical, Direction::Up) => (0, -1, Orientation::Upright),
            (Orientation::Vertical, Direction::Down) => (0, 2, Orientation::Upright),
        };
        Block((x + dx, y + dy), new_orientation)
    }

    /// Horizontal offset from the block's reference square to its second covered square.
    pub open spec fn footprint_dx(orientation: Orientation) -> int {
        match orientation {
            Orientation::Upright => 0,
            Orientation::Horizontal => 1,
            Orientation::Vertical => 0,
        }
    }

    /// Vertical offset from the block's reference square to its second covered square.
    pub open spec fn footprint_dy(orientation: Orientation) -> int {
        match orientation {
            Orientation::Upright => 0,
            Orientation::Horizontal => 0,
            Orientation::Vertical => 1,
        }
    }

    /// Whether both covered squares of the block have representable coordinates.
    pub open spec fn footprint_fits(self) -> bool {
        &&& self.0.0 + Self::footprint_dx(self.1) <= i32::MAX
        &&& self.0.1 + Self::footprint_dy(self.1) <= i32::MAX
    }

    /// Whether any covered square of the block holds the given tile on the given board.
    pub open spec fn spec_is_touching(self, tile: Tile, board: Board) -> bool {
        ||| board.spec_tile_at(self.0.0 as int, self.0.1 as int) == tile
        ||| board.spec_tile_at(
            self.0.0 + Self::footprint_dx(self.1),
            self.0.1 + Self::footprint_dy(self.1),
        ) == tile
    }

    /// Whether the block stands upright on a square holding the given tile.
    /// Lying blocks never stand on anything.
    pub open spec fn spec_is_standing_on(self, tile: Tile, board: Board) -> bool {
        self.1 == Orientation::Upright && self.spec_is_touching(tile, board)
    }

    /// Returns the coordinates of both squares covered by the block.
    ///
    /// For upright blocks, returns the same pair of coordinates twice.
    pub fn full_coordinates(self) -> (r: [Coordinates; 2])
        requires
            self.footprint_fits(),
        ensures
            r@[0] == self.0,
            r@[1].0 == self.0.0 + Self::footprint_dx(self.1),
            r@[1].1 == self.0.1 + Self::footprint_dy(self.1),
    {
        let Block((x, y), orientation) = self;
        let (dx, dy) = match orientation {
            Orientation::Upright => (0i32, 0i32),
            Orientation::Horizontal => (1, 0),
            Orientation::Vertical => (0, 1),
        };
        [(x, y), (x + dx, y + dy)]
    }

    /// Returns whether any part of the block would be touching a tile of the given type
    /// if it were on the given board.
    pub fn is_touching(self, tile: Tile, board: &Board) -> (r: bool)
        requires
            board.wf(),
            self.footprint_fits(),
        ensures
            r == self.spec_is_touching(tile, *board),
    {
        let cells = self.full_coordinates();
        board.tile_at(cells[0]) == tile || board.tile_at(cells[1]) == tile
    }

    /// Returns whether the block would be standing upright on a tile of the given type
    /// if it were on the given board.
    pub fn is_standing_on(self, tile: Tile, board: &Board) -> (r: bool)
        requires
            board.wf(),
            self.footprint_fits(),
        ensures
            r == self.spec_is_standing_on(tile, *board),
    {
        let Block(_, orientation) = self;
        orientation == Orientation::Upright && self.is_touching(tile, board)
    }
}

} // verus!
