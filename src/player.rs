use crate::axial::Axial;
use crate::board::{placements, Board};
use crate::tile::{Colour, TileType};
use vstd::prelude::*;

verus! {

#[derive(Clone, Copy, Eq, PartialEq, Debug, Structural)]
pub enum PlayerNumber {
    One,
    Two,
}

impl PlayerNumber {
    pub fn other(&self) -> (p: PlayerNumber)
        ensures
            p != *self,
    {
        match self {
            PlayerNumber::One => PlayerNumber::Two,
            PlayerNumber::Two => PlayerNumber::One,
        }
    }

    /// The colour this player plays: the first player has white.
    pub open spec fn colour_of(self) -> Colour {
        match self {
            PlayerNumber::One => Colour::White,
            PlayerNumber::Two => Colour::Black,
        }
    }

    pub fn colour(&self) -> (c: Colour)
        ensures
            c == self.colour_of(),
    {
        match self {
            PlayerNumber::One => Colour::White,
            PlayerNumber::Two => Colour::Black,
        }
    }
}

/// A player: the pieces still in hand and the seat at the table.
pub struct Player {
    pub tiles: Vec<TileType>,
    pub number: PlayerNumber,
}

impl Player {
    pub fn new(tiles: Vec<TileType>, number: PlayerNumber) -> (p: Player)
        ensures
            p.tiles@ == tiles@,
            p.number == number,
    {
        Player { tiles, number }
    }

    /// The first piece in hand and a cell where the player may place it;
    /// `None` when the hand is empty or no cell is open to the player.
    pub fn get_tile_placement(&self, board: &Board) -> (r: Option<(TileType, Axial)>)
        requires
            board.wf(),
        ensures
            match r {
                Some((t, p)) => self.tiles@.len() > 0 && t == self.tiles@[0] && placements(
                    board.pieces(),
                    self.number.colour_of(),
                ).contains(p),
                None => self.tiles@.len() == 0 || placements(
                    board.pieces(),
                    self.number.colour_of(),
                ) == Set::<Axial>::empty(),
            },
    {
        if self.tiles.len() == 0 {
            return None;
        }
        let open = board.get_available_placements(self.number.colour());
        if open.len() == 0 {
            proof {
                assert(open@.to_set() =~= Set::<Axial>::empty());
            }
            return None;
        }
        proof {
            assert(open@.to_set().contains(open@[0]));
        }
        Some((self.tiles[0], open[0]))
    }
}

} // verus!
