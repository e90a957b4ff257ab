use hive::axial::Axial;
use hive::board::Board;
use hive::render::{Bounds, CharacterBuffer2D};
use hive::tile::{Colour, TileType, Tiles};

#[test]
fn set() {
    let mut buffer = CharacterBuffer2D::new(10, 10);
    buffer.set(0, 0, 'a');
    assert!(buffer.get(0, 0) == 'a');
}

#[test]
#[should_panic]
fn set_out_of_bounds() {
    let mut buffer = CharacterBuffer2D::new(10, 10);
    buffer.set(20, 20, 'a');
}

#[test]
#[should_panic]
fn get_out_of_bounds() {
    let buffer = CharacterBuffer2D::new(10, 10);
    buffer.get(20, 20);
}

#[test]
fn buffer_starts_blank_and_columns_fill() {
    let mut buffer = CharacterBuffer2D::new(3, 2);
    assert_eq!(buffer.to_string(), "      ");
    buffer.set_column(2, '\n');
    assert_eq!(buffer.to_string(), "  \n  \n");
    buffer.set(1, 1, 'z');
    assert_eq!(buffer.get(1, 1), 'z');
    assert_eq!(buffer.buffer[4], 'z');
    assert_eq!(buffer.to_string(), "  \n z\n");
}

#[test]
fn bounds_include_the_origin() {
    assert_eq!(
        Bounds::zero(),
        Bounds::new(Axial::zero(), Axial::zero(), Axial::zero(), Axial::zero())
    );
    let mut tiles = Tiles::with_capacity(4);
    tiles.insert(Axial::new(2, 1), (Colour::White, TileType::Ant));
    tiles.insert(Axial::new(-1, -2), (Colour::Black, TileType::Ant));
    let b = Bounds::from_tiles(&tiles);
    assert_eq!(b.left, Axial::new(-1, -2));
    assert_eq!(b.right, Axial::new(2, 1));
    assert_eq!(b.top, Axial::new(-1, -2));
    assert_eq!(b.bottom, Axial::new(2, 1));
}

#[test]
fn one_piece_is_one_hexagon() {
    let mut board = Board::default();
    board.place((Colour::White, TileType::Ant), Axial::zero());
    let expected = [
        "  ____  \n",
        " /    \\ \n",
        "/  w   \\\n",
        "\\  a   /\n",
        " \\____/ \n",
    ]
    .concat();
    assert_eq!(board.render(), expected);
}

#[test]
fn upper_piece_is_drawn_over_the_lower() {
    let mut board = Board::default();
    board.place((Colour::White, TileType::Ant), Axial::zero());
    board.place((Colour::Black, TileType::Beetle), Axial::zero().north());
    let expected = [
        "  ____  \n",
        " /    \\ \n",
        "/  b   \\\n",
        "\\  b   /\n",
        " \\____/ \n",
        " /    \\ \n",
        "/  w   \\\n",
        "\\  a   /\n",
        " \\____/ \n",
    ]
    .concat();
    assert_eq!(board.render(), expected);
}

#[test]
fn empty_board_draws_a_blank_frame() {
    let board = Board::default();
    let s = board.render();
    assert_eq!(s.len(), 9 * 5);
    assert!(s.chars().all(|c| c == ' ' || c == '\n'));
}
