//! Module for specifying a Bloxorz stage.

use crate::grid::Grid;
use vstd::prelude::*;

verus! {

/// A square of terrain.
#[derive(Clone, Copy, Debug, PartialEq, Eq, Structural)]
pub enum Tile {
    /// Empty space.
    Empty,
    /// A standard gray tile.
    Regular,
    /// A fragile orange tile.
    Fragile,
    /// A hole that the block needs to fall through to win the stage.
    Goal,
}

pub type Coordinates = (i32, i32);

/// The terrain of a Bloxorz stage.
///
/// Note that boards are allowed to have multiple goals, unlike in the actual game.
pub struct Board(pub Grid<Tile>);

impl Board {
    /// Well-formedness of the underlying grid.
    pub open spec fn wf(self) -> bool {
        self.0.wf()
    }

    /// The tile at mathematical coordinates.
    ///
    /// Total over all integers: coordinates outside the stored rectangle hold Empty.
    pub open spec fn spec_tile_at(self, x: int, y: int) -> Tile {
        if self.0.in_bounds(x, y) {
            self.0.cell(x, y)
        } else {
            Tile::Empty
        }
    }

    /// The tile at the given coordinates.
    ///
    /// Out-of-bounds locations are treated as containing empty space.
    pub fn tile_at(&self, coordinates: Coordinates) -> (t: Tile)
        requires
            self.wf(),
        ensures
            t == self.spec_tile_at(coordinates.0 as int, coordinates.1 as int),
    {
        let Board(grid) = self;
        match grid.get(coordinates) {
            Some(tile) => *tile,
            None => Tile::Empty,
        }
    }
}

} // verus!
