use hive::axial::Axial;
use hive::board::Board;
use hive::placed_tile::PlacedTile;
use hive::player::{Player, PlayerNumber};
use hive::tile::{ant, beetle, grass_hopper, queen, spider, standard_game_tiles};
use hive::tile::{Colour, TileType, Tiles};

#[test]
fn colours_and_players_alternate() {
    assert_eq!(Colour::White.other(), Colour::Black);
    assert_eq!(Colour::Black.other(), Colour::White);
    assert_eq!(PlayerNumber::One.other(), PlayerNumber::Two);
    assert_eq!(PlayerNumber::Two.other(), PlayerNumber::One);
}

#[test]
fn standard_set_has_eleven_pieces() {
    let t = standard_game_tiles();
    assert_eq!(t.len(), 11);
    assert_eq!(t[0], TileType::Queen);
    assert_eq!(t.iter().filter(|k| **k == TileType::Ant).count(), 3);
    assert_eq!(t.iter().filter(|k| **k == TileType::Grasshopper).count(), 3);
    assert_eq!(t.iter().filter(|k| **k == TileType::Beetle).count(), 2);
    assert_eq!(t.iter().filter(|k| **k == TileType::Spider).count(), 2);
    assert_eq!(ant(), TileType::Ant);
    assert_eq!(queen(), TileType::Queen);
    assert_eq!(beetle(), TileType::Beetle);
    assert_eq!(spider(), TileType::Spider);
    assert_eq!(grass_hopper(), TileType::Grasshopper);
}

#[test]
fn registry_insert_replaces_and_reports() {
    let mut tiles = Tiles::with_capacity(4);
    assert_eq!(tiles.len(), 0);
    assert_eq!(tiles.insert(Axial::zero(), (Colour::White, TileType::Ant)), None);
    assert_eq!(
        tiles.insert(Axial::zero(), (Colour::Black, TileType::Queen)),
        Some((Colour::White, TileType::Ant))
    );
    assert_eq!(tiles.len(), 1);
    assert_eq!(tiles.get(&Axial::zero()), Some(&(Colour::Black, TileType::Queen)));
    assert_eq!(tiles.get(&Axial::zero().north()), None);
    tiles.insert(Axial::zero().north(), (Colour::White, TileType::Spider));
    assert_eq!(tiles.iter().len(), 2);
    let mut keys = tiles.keys();
    keys.sort_by_key(|a| (a.q, a.r));
    assert_eq!(keys, vec![Axial::new(0, -1), Axial::zero()]);
    tiles.clear();
    assert_eq!(tiles.len(), 0);
    assert!(!tiles.contains_key(&Axial::zero()));
}

#[test]
fn registry_extend_prefers_the_new_entries() {
    let mut a = Tiles::with_capacity(4);
    a.insert(Axial::zero(), (Colour::White, TileType::Ant));
    a.insert(Axial::new(1, 0), (Colour::White, TileType::Beetle));
    let mut b = Tiles::with_capacity(4);
    b.insert(Axial::zero(), (Colour::Black, TileType::Spider));
    b.insert(Axial::new(0, 1), (Colour::Black, TileType::Queen));
    a.extend(&b);
    assert_eq!(a.len(), 3);
    assert_eq!(a.get(&Axial::zero()), Some(&(Colour::Black, TileType::Spider)));
    assert_eq!(a.get(&Axial::new(1, 0)), Some(&(Colour::White, TileType::Beetle)));
    assert_eq!(a.get(&Axial::new(0, 1)), Some(&(Colour::Black, TileType::Queen)));
}

#[test]
fn placed_tile_keeps_its_parts() {
    let t = PlacedTile::new(TileType::Beetle, Axial::new(1, 2), PlayerNumber::Two);
    assert_eq!(t.tile, TileType::Beetle);
    assert_eq!(t.position, Axial::new(1, 2));
    assert_eq!(t.player, PlayerNumber::Two);
}

#[test]
fn player_offers_first_piece_on_an_open_cell() {
    let board = Board::default();
    let p = Player::new(standard_game_tiles(), PlayerNumber::One);
    assert_eq!(p.get_tile_placement(&board), Some((TileType::Queen, Axial::zero())));
    let empty = Player::new(Vec::new(), PlayerNumber::Two);
    assert_eq!(empty.get_tile_placement(&board), None);
}
