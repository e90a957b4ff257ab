use crate::axial::Axial;
use crate::player::PlayerNumber;
use crate::tile::TileType;
use vstd::prelude::*;

verus! {

/// A piece on the board together with its owner and its cell.
#[derive(Clone, Copy, Debug)]
pub struct PlacedTile {
    pub tile: TileType,
    pub player: PlayerNumber,
    pub position: Axial,
}

impl PlacedTile {
    pub fn new(tile: TileType, position: Axial, player: PlayerNumber) -> (t: PlacedTile)
        ensures
            t.tile == tile,
            t.player == player,
            t.position == position,
    {
        PlacedTile { tile: tile, player: player, position: position }
    }
}

} // verus!
