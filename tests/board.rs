use hive::axial::Axial;
use hive::board::Board;
use hive::tile::{Colour, TileType};
use rand::seq::IteratorRandom;
use rand::Rng;
use std::collections::HashSet;

fn set_of(v: &[Axial]) -> HashSet<Axial> {
    v.iter().copied().collect()
}

fn occupied(board: &Board) -> HashSet<Axial> {
    board.tiles().keys().into_iter().collect()
}

/// The empty cells next to an occupied one, computed from scratch.
fn expected_frontier(board: &Board) -> HashSet<Axial> {
    let occ = occupied(board);
    if occ.is_empty() {
        return [Axial::zero()].into_iter().collect();
    }
    let mut f = HashSet::new();
    for p in &occ {
        for n in p.surrounding_positions() {
            if !occ.contains(&n) {
                f.insert(n);
            }
        }
    }
    f
}

#[test]
fn place() {
    let mut board = Board::default();

    assert!(!board.tiles().contains_key(&Axial::zero()));
    board.place((Colour::White, TileType::Ant), Axial::zero());
    assert!(board.tiles().contains_key(&Axial::zero()));
}

#[test]
fn clone_from() {
    let mut board = Board::default();
    board.place((Colour::White, TileType::Ant), Axial::zero());
    board.place((Colour::Black, TileType::Beetle), Axial::zero().north());

    let mut cloned_board = Board::default();
    cloned_board.clone_from(&board);

    assert_eq!(board.tiles().len(), cloned_board.tiles().len());
}

#[test]
fn get_available_placements_with_no_tiles_placed() {
    let board = Board::default();

    assert_eq!(board.get_available_placements(Colour::White), [Axial::zero()]);
}

#[test]
fn get_available_placements_with_single_tile_placed() {
    let mut board = Board::default();
    board.place((Colour::White, TileType::Ant), Axial::zero());

    assert_eq!(
        board
            .get_available_placements(Colour::White)
            .into_iter()
            .collect::<HashSet<Axial>>(),
        Axial::zero()
            .surrounding_positions()
            .into_iter()
            .collect::<HashSet<Axial>>()
    );
}

#[test]
fn empty_board_offers_only_the_origin_to_both_colours() {
    let board = Board::default();
    assert_eq!(board.get_available_placements(Colour::White), vec![Axial::zero()]);
    assert_eq!(board.get_available_placements(Colour::Black), vec![Axial::zero()]);
}

#[test]
fn second_piece_may_touch_the_first_of_either_colour() {
    let mut board = Board::default();
    board.place((Colour::White, TileType::Queen), Axial::zero());
    let six: HashSet<Axial> = Axial::zero().surrounding_positions().into_iter().collect();
    let white = board.get_available_placements(Colour::White);
    let black = board.get_available_placements(Colour::Black);
    assert_eq!(white.len(), 6);
    assert_eq!(set_of(&white), six);
    assert_eq!(set_of(&black), six);
}

#[test]
fn placements_avoid_cells_next_to_the_other_colour() {
    let mut board = Board::default();
    board.place((Colour::White, TileType::Ant), Axial::new(0, 0));
    board.place((Colour::Black, TileType::Ant), Axial::new(0, -1));

    let white = board.get_available_placements(Colour::White);
    let expected: HashSet<Axial> =
        [Axial::new(1, 0), Axial::new(0, 1), Axial::new(-1, 1)].into_iter().collect();
    assert_eq!(white.len(), 3);
    assert_eq!(set_of(&white), expected);
    assert!(!white.contains(&Axial::new(0, -1)));
    assert!(!white.contains(&Axial::new(0, 0)));

    let black = board.get_available_placements(Colour::Black);
    let expected: HashSet<Axial> =
        [Axial::new(0, -2), Axial::new(1, -2), Axial::new(-1, -1)].into_iter().collect();
    assert_eq!(set_of(&black), expected);
}

#[test]
fn frontier_tracks_the_occupied_cells_through_random_games() {
    let mut rng = rand::thread_rng();
    for _ in 0..200 {
        let mut board = Board::default();
        let mut colour = Colour::White;
        for _ in 0..22 {
            let choice = board.get_available_placements(colour).into_iter().choose(&mut rng);
            let p = match choice {
                Some(p) => p,
                None => break,
            };
            board.place((colour, TileType::Ant), p);
            let frontier = set_of(board.free_positions());
            assert_eq!(frontier.len(), board.free_positions().len());
            assert_eq!(frontier, expected_frontier(&board));
            assert!(frontier.is_disjoint(&occupied(&board)));
            colour = colour.other();
        }
    }
}

#[test]
fn random_games_never_place_twice_on_one_cell() {
    let mut rng = rand::thread_rng();
    for _ in 0..200 {
        let mut board = Board::default();
        let mut colour = Colour::White;
        let mut seen: HashSet<Axial> = HashSet::new();
        for _ in 0..22 {
            if rng.gen::<bool>() {
                let choice = board.get_available_placements(colour).into_iter().choose(&mut rng);
                let p = match choice {
                    Some(p) => p,
                    None => break,
                };
                assert!(!board.tiles().contains_key(&p));
                assert!(seen.insert(p));
                let before = board.tiles().len();
                board.place((colour, TileType::Ant), p);
                assert_eq!(board.tiles().len(), before + 1);
                colour = colour.other();
            }
        }
        assert_eq!(board.tiles().len(), seen.len());
    }
}

#[test]
fn clone_from_leaves_no_stale_entries() {
    let mut source = Board::default();
    source.place((Colour::White, TileType::Ant), Axial::zero());
    source.place((Colour::Black, TileType::Spider), Axial::zero().south());

    let mut target = Board::default();
    target.place((Colour::Black, TileType::Queen), Axial::zero());
    target.place((Colour::White, TileType::Beetle), Axial::zero().north());
    target.place((Colour::Black, TileType::Ant), Axial::zero().south_east());

    target.clone_from(&source);
    assert_eq!(occupied(&target), occupied(&source));
    assert_eq!(set_of(target.free_positions()), set_of(source.free_positions()));
    assert_eq!(target.tiles().len(), 2);
    assert_eq!(
        target.tiles().get(&Axial::zero().south()),
        Some(&(Colour::Black, TileType::Spider))
    );
    assert!(!target.tiles().contains_key(&Axial::zero().north()));
}

#[test]
fn chain_of_three_pins_the_middle() {
    let mut board = Board::default();
    board.place((Colour::White, TileType::Ant), Axial::zero());
    board.place((Colour::Black, TileType::Ant), Axial::zero().north());
    board.place((Colour::White, TileType::Ant), Axial::zero().south());
    assert!(!board.can_move(Axial::zero()));
    assert!(board.can_move(Axial::zero().north()));
    assert!(board.can_move(Axial::zero().south()));
}

#[test]
fn lone_piece_may_move() {
    let mut board = Board::default();
    board.place((Colour::White, TileType::Ant), Axial::zero());
    assert!(board.can_move(Axial::zero()));
}

#[test]
fn every_piece_of_a_ring_may_move() {
    // Six pieces around an empty cell: lifting any one leaves a path.
    let mut board = Board::default();
    let centre = Axial::zero().south();
    let ring = centre.surrounding_positions();
    for p in ring.iter() {
        board.place((Colour::White, TileType::Ant), *p);
    }
    for p in ring.iter() {
        assert!(board.can_move(*p));
    }
}

#[test]
fn middle_of_a_path_is_pinned() {
    let mut board = Board::default();
    let centre = Axial::zero().south();
    let ring = centre.surrounding_positions();
    for p in ring.iter().take(5) {
        board.place((Colour::White, TileType::Ant), *p);
    }
    assert!(board.can_move(ring[0]));
    assert!(!board.can_move(ring[2]));
    assert!(board.can_move(ring[4]));
}

#[test]
fn placements_into_reuses_the_buffer() {
    let mut board = Board::default();
    board.place((Colour::White, TileType::Ant), Axial::zero());
    board.place((Colour::Black, TileType::Ant), Axial::zero().north());
    let mut out = vec![Axial::new(9, 9); 4];
    board.available_placements_into(Colour::Black, &mut out);
    assert_eq!(set_of(&out), set_of(&board.get_available_placements(Colour::Black)));
    assert_eq!(out.len(), 3);
}
