use hive::axial::Axial;
use hive::game::Game;
use hive::player::{Player, PlayerNumber};
use hive::tile::{standard_game_tiles, Colour, TileType};

#[test]
fn opening_places_eight_white_pieces() {
    let mut g = Game::new(
        Player::new(standard_game_tiles(), PlayerNumber::One),
        Player::new(standard_game_tiles(), PlayerNumber::Two),
    );
    assert_eq!(g.board().tiles().len(), 0);
    g.go();
    let tiles = g.board().tiles();
    assert_eq!(tiles.len(), 8);
    assert_eq!(tiles.get(&Axial::new(0, 0)), Some(&(Colour::White, TileType::Queen)));
    assert_eq!(tiles.get(&Axial::new(0, 1)), Some(&(Colour::White, TileType::Beetle)));
    assert_eq!(tiles.get(&Axial::new(0, 2)), Some(&(Colour::White, TileType::Spider)));
    assert_eq!(tiles.get(&Axial::new(0, 3)), Some(&(Colour::White, TileType::Ant)));
    assert_eq!(tiles.get(&Axial::new(-1, 4)), Some(&(Colour::White, TileType::Ant)));
    assert_eq!(tiles.get(&Axial::new(-1, 3)), Some(&(Colour::White, TileType::Ant)));
    assert_eq!(tiles.get(&Axial::new(1, 3)), Some(&(Colour::White, TileType::Ant)));
    assert_eq!(tiles.get(&Axial::new(1, 0)), Some(&(Colour::White, TileType::Grasshopper)));
    // Black may not place anywhere: every open cell touches white.
    assert!(g.board().get_available_placements(Colour::Black).is_empty());
}
