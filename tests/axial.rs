use hive::axial::Axial;
use hive::coord_utils::{axial_to_position, position_to_axial};
use hive::position::Position;

#[test]
fn at_zero() {
    let a = Axial::zero();
    let tiles = a.surrounding_positions();
    assert_eq!(tiles.len(), 6);
}

#[test]
fn neighbours_in_fixed_order() {
    let a = Axial::new(2, -3);
    assert_eq!(
        a.surrounding_positions(),
        [
            Axial::new(2, -4),
            Axial::new(3, -4),
            Axial::new(3, -3),
            Axial::new(2, -2),
            Axial::new(1, -2),
            Axial::new(1, -3),
        ]
    );
    assert_eq!(a.north(), Axial::new(2, -4));
    assert_eq!(a.north_east(), Axial::new(3, -4));
    assert_eq!(a.south_east(), Axial::new(3, -3));
    assert_eq!(a.south(), Axial::new(2, -2));
    assert_eq!(a.south_west(), Axial::new(1, -2));
    assert_eq!(a.north_west(), Axial::new(1, -3));
}

#[test]
fn vertical_pos_counts_r_twice() {
    assert_eq!(Axial::new(3, -2).vertical_pos(), -1);
    assert_eq!(Axial::zero().vertical_pos(), 0);
}

#[test]
fn position_neighbours() {
    let o = Position::zero();
    assert_eq!(o.north(), Position::new(0, 1, -1));
    assert_eq!(Position::new(1, -3, 2).north(), Position::new(1, -2, 1));
    assert_eq!(o.north_east(), Position::new(1, 0, -1));
    assert_eq!(Position::new(1, -3, 2).north_east(), Position::new(2, -3, 1));
    assert_eq!(o.south_east(), Position::new(1, -1, 0));
    assert_eq!(Position::new(-2, 2, 0).south_east(), Position::new(-1, 1, 0));
    assert_eq!(o.south(), Position::new(0, -1, 1));
    assert_eq!(Position::new(-3, 2, 1).south(), Position::new(-3, 1, 2));
    assert_eq!(o.south_west(), Position::new(-1, 0, 1));
    assert_eq!(Position::new(1, -1, 0).south_west(), Position::new(0, -1, 1));
    assert_eq!(o.north_west(), Position::new(-1, 1, 0));
    assert_eq!(Position::new(1, -1, 0).north_west(), Position::new(0, 0, 0));
    let all = o.get_all_adjacent();
    assert_eq!(all.len(), 6);
    assert_eq!(all[0], Position::new(0, 1, -1));
    assert_eq!(all[5], Position::new(-1, 1, 0));
}

#[test]
fn coordinates_convert_both_ways() {
    let a = Axial::new(3, -5);
    let p = axial_to_position(a);
    assert_eq!(p, Position::new(3, 2, -5));
    assert_eq!(position_to_axial(p), a);
}
