use hive::axial::Axial;
use hive::nav_mesh::{path_between, NavMesh};
use hive::tile::{Colour, TileType, Tiles};

#[test]
fn single_tile() {
    let mut tiles = Tiles::with_capacity(16);
    tiles.insert(Axial::zero(), (Colour::White, TileType::Ant));

    let mut nav_mesh = NavMesh::default();
    // A lone piece has no neighbour to cut off.
    assert!(nav_mesh.can_move_tile(&tiles, Axial::zero()));
}

#[test]
fn two_tiles() {
    let mut tiles = Tiles::with_capacity(16);
    tiles.insert(Axial::zero(), (Colour::White, TileType::Ant));
    tiles.insert(Axial::zero().north(), (Colour::Black, TileType::Ant));

    let mut nav_mesh = NavMesh::default();
    // Each piece has one occupied neighbour, which stays in one piece.
    assert!(nav_mesh.can_move_tile(&tiles, Axial::zero()));
    assert!(nav_mesh.can_move_tile(&tiles, Axial::zero().north()));
}

#[test]
fn three_tiles() {
    let mut tiles = Tiles::with_capacity(16);
    tiles.insert(Axial::zero(), (Colour::White, TileType::Ant));
    tiles.insert(Axial::zero().north(), (Colour::Black, TileType::Ant));
    tiles.insert(Axial::zero().south(), (Colour::White, TileType::Ant));

    let mut nav_mesh = NavMesh::default();

    nav_mesh.can_move_tile(&tiles, Axial::zero().south());
}

#[test]
fn test_allocations() {
    let mut tiles = Tiles::with_capacity(16);
    tiles.insert(Axial::zero(), (Colour::White, TileType::Ant));
    tiles.insert(Axial::zero().north(), (Colour::Black, TileType::Ant));
    tiles.insert(Axial::zero().south(), (Colour::White, TileType::Ant));

    let mut nav_mesh = NavMesh::default();
    let (count, _) =
        alloc_counter::count_alloc(|| nav_mesh.can_move_tile(&tiles, Axial::zero()));

    println!("{:?}", count);
}

#[test]
fn three_in_a_line_pins_the_middle() {
    let mut tiles = Tiles::with_capacity(16);
    tiles.insert(Axial::zero(), (Colour::White, TileType::Ant));
    tiles.insert(Axial::zero().north(), (Colour::Black, TileType::Ant));
    tiles.insert(Axial::zero().south(), (Colour::White, TileType::Ant));

    let mut nav_mesh = NavMesh::default();
    assert!(!nav_mesh.can_move_tile(&tiles, Axial::zero()));
    assert!(nav_mesh.can_move_tile(&tiles, Axial::zero().north()));
    assert!(nav_mesh.can_move_tile(&tiles, Axial::zero().south()));
}

#[test]
fn triangle_of_three_all_move() {
    let mut tiles = Tiles::with_capacity(16);
    tiles.insert(Axial::zero(), (Colour::White, TileType::Ant));
    tiles.insert(Axial::zero().north(), (Colour::Black, TileType::Ant));
    tiles.insert(Axial::zero().north_east(), (Colour::White, TileType::Ant));

    let mut nav_mesh = NavMesh::default();
    assert!(nav_mesh.can_move_tile(&tiles, Axial::zero()));
    assert!(nav_mesh.can_move_tile(&tiles, Axial::zero().north()));
    assert!(nav_mesh.can_move_tile(&tiles, Axial::zero().north_east()));
}

#[test]
fn path_between_follows_occupied_cells() {
    let mut tiles = Tiles::with_capacity(16);
    tiles.insert(Axial::new(0, 0), (Colour::White, TileType::Ant));
    tiles.insert(Axial::new(0, 1), (Colour::Black, TileType::Ant));
    tiles.insert(Axial::new(0, 2), (Colour::White, TileType::Ant));
    tiles.insert(Axial::new(5, 5), (Colour::White, TileType::Ant));

    let mut scratch = Vec::new();
    assert!(path_between(&tiles, &Axial::new(0, 0), &Axial::new(0, 2), &mut scratch));
    assert!(path_between(&tiles, &Axial::new(0, 2), &Axial::new(0, 0), &mut scratch));
    assert!(path_between(&tiles, &Axial::new(0, 0), &Axial::new(0, 0), &mut scratch));
    assert!(!path_between(&tiles, &Axial::new(0, 0), &Axial::new(5, 5), &mut scratch));
    assert!(!path_between(&tiles, &Axial::new(0, 0), &Axial::new(0, 3), &mut scratch));
}
