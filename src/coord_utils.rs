use crate::axial::Axial;
use crate::position::Position;
use vstd::prelude::*;

verus! {

/// The axial form of a cube coordinate: `q` is `x` and `r` is `z`.
pub fn position_to_axial(position: Position) -> (a: Axial)
    requires
        -128 <= position.x <= 127,
        -128 <= position.z <= 127,
    ensures
        a.q == position.x,
        a.r == position.z,
{
    Axial::new(position.x as i8, position.z as i8)
}

/// The cube form of an axial coordinate: `(q, -q - r, r)`.
pub fn axial_to_position(axial: Axial) -> (p: Position)
    ensures
        p.x == axial.q,
        p.y == -axial.q - axial.r,
        p.z == axial.r,
        p.x + p.y + p.z == 0,
{
    Position::new(axial.q as i32, -(axial.q as i32) - (axial.r as i32), axial.r as i32)
}

} // verus!
