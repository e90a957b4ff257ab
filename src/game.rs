use crate::axial::{adjacent, Axial};
use crate::board::{placements, Board};
use crate::player::Player;
use crate::tile::{Colour, Tile, TileType};
use vstd::prelude::*;

verus! {

/// Every piece on the board is white.
pub open spec fn all_white(pieces: Map<Axial, Tile>) -> bool {
    forall|k: Axial| #[trigger] pieces.contains_key(k) ==> pieces[k].0 == Colour::White
}

/// On a board of white pieces, white may place on any empty cell next to one
/// of them.
pub proof fn lemma_white_next_to_white(b: Board, p: Axial, o: Axial)
    requires
        b.wf(),
        all_white(b.pieces()),
        !b.pieces().contains_key(p),
        b.pieces().contains_key(o),
        adjacent(o, p),
    ensures
        placements(b.pieces(), Colour::White).contains(p),
{
    assert(b.pieces().dom().contains(o));
}

/// Two players and the board they play on.
pub struct Game {
    player1: Player,
    player2: Player,
    board: Board,
}

impl Game {
    pub closed spec fn board_spec(&self) -> Board {
        self.board
    }

    pub fn new(p1: Player, p2: Player) -> (g: Game)
        ensures
            g.board_spec().wf(),
            g.board_spec().pieces() == Map::<Axial, Tile>::empty(),
    {
        Game { player1: p1, player2: p2, board: Board::default() }
    }

    pub fn board(&self) -> (b: &Board)
        ensures
            *b == self.board_spec(),
    {
        &self.board
    }

    /// Plays a fixed white opening on an empty board: a queen at the origin,
    /// a column of beetle, spider and ant below it, ants on three sides of
    /// the lowest one, and a grasshopper beside the beetle.
    pub fn go(&mut self)
        requires
            old(self).board_spec().wf(),
            old(self).board_spec().pieces() == Map::<Axial, Tile>::empty(),
        ensures
            final(self).board_spec().wf(),
            final(self).board_spec().pieces() == map![
                Axial { q: 0, r: 0 } => (Colour::White, TileType::Queen),
                Axial { q: 0, r: 1 } => (Colour::White, TileType::Beetle),
                Axial { q: 0, r: 2 } => (Colour::White, TileType::Spider),
                Axial { q: 0, r: 3 } => (Colour::White, TileType::Ant),
                Axial { q: -1i8, r: 4 } => (Colour::White, TileType::Ant),
                Axial { q: -1i8, r: 3 } => (Colour::White, TileType::Ant),
                Axial { q: 1, r: 3 } => (Colour::White, TileType::Ant),
                Axial { q: 1, r: 0 } => (Colour::White, TileType::Grasshopper),
            ],
    {
        let origin = Axial::zero();
        proof {
            assert(self.board.pieces().dom() =~= Set::<Axial>::empty());
        }
        self.board.place((Colour::White, TileType::Queen), origin);

        let beetle_at = origin.south();
        proof {
            lemma_white_next_to_white(self.board, beetle_at, origin);
        }
        self.board.place((Colour::White, TileType::Beetle), beetle_at);

        let spider_at = beetle_at.south();
        proof {
            lemma_white_next_to_white(self.board, spider_at, beetle_at);
        }
        self.board.place((Colour::White, TileType::Spider), spider_at);

        let ant_at = spider_at.south();
        proof {
            lemma_white_next_to_white(self.board, ant_at, spider_at);
        }
        self.board.place((Colour::White, TileType::Ant), ant_at);

        let second_ant_at = ant_at.south_west();
        proof {
            lemma_white_next_to_white(self.board, second_ant_at, ant_at);
        }
        self.board.place((Colour::White, TileType::Ant), second_ant_at);

        let third_ant_at = ant_at.north_west();
        proof {
            lemma_white_next_to_white(self.board, third_ant_at, ant_at);
        }
        self.board.place((Colour::White, TileType::Ant), third_ant_at);

        let fourth_ant_at = ant_at.south_east();
        proof {
            lemma_white_next_to_white(self.board, fourth_ant_at, ant_at);
        }
        self.board.place((Colour::White, TileType::Ant), fourth_ant_at);

        let hopper_at = beetle_at.north_east();
        proof {
            lemma_white_next_to_white(self.board, hopper_at, beetle_at);
        }
        self.board.place((Colour::White, TileType::Grasshopper), hopper_at);
        proof {
            assert(origin == Axial { q: 0, r: 0 });
            assert(beetle_at == Axial { q: 0, r: 1 });
            assert(spider_at == Axial { q: 0, r: 2 });
            assert(ant_at == Axial { q: 0, r: 3 });
            assert(second_ant_at == Axial { q: -1i8, r: 4 });
            assert(third_ant_at == Axial { q: -1i8, r: 3 });
            assert(fourth_ant_at == Axial { q: 1, r: 3 });
            assert(hopper_at == Axial { q: 1, r: 0 });
            assert(self.board.pieces() =~= map![
                Axial { q: 0, r: 0 } => (Colour::White, TileType::Queen),
                Axial { q: 0, r: 1 } => (Colour::White, TileType::Beetle),
                Axial { q: 0, r: 2 } => (Colour::White, TileType::Spider),
                Axial { q: 0, r: 3 } => (Colour::White, TileType::Ant),
                Axial { q: -1i8, r: 4 } => (Colour::White, TileType::Ant),
                Axial { q: -1i8, r: 3 } => (Colour::White, TileType::Ant),
                Axial { q: 1, r: 3 } => (Colour::White, TileType::Ant),
                Axial { q: 1, r: 0 } => (Colour::White, TileType::Grasshopper),
            ]);
        }
    }
}

} // verus!
