use vstd::prelude::*;

verus! {

/// A cube coordinate `(x, y, z)` on the hexagonal grid.
#[derive(Clone, Copy, Eq, PartialEq, Debug, Structural)]
pub struct Position {
    pub x: i32,
    pub y: i32,
    pub z: i32,
}

#[derive(Clone, Copy, Eq, PartialEq, Debug, Structural)]
pub enum Direction {
    North,
    NorthEast,
    SouthEast,
    South,
    SouthWest,
    NorthWest,
}

/// The three components lie at least one away from the ends of the `i32`
/// range, so that a step in any direction stays representable.
pub open spec fn steppable(p: Position) -> bool {
    i32::MIN < p.x < i32::MAX && i32::MIN < p.y < i32::MAX && i32::MIN < p.z < i32::MAX
}

/// `b` is `a` moved by `(dx, dy, dz)`.
pub open spec fn moved(a: Position, b: Position, dx: int, dy: int, dz: int) -> bool {
    b.x == a.x + dx && b.y == a.y + dy && b.z == a.z + dz
}

impl Position {
    pub fn new(x: i32, y: i32, z: i32) -> (p: Position)
        ensures
            p.x == x,
            p.y == y,
            p.z == z,
    {
        Position { x: x, y: y, z: z }
    }

    pub fn zero() -> (p: Position)
        ensures
            p.x == 0,
            p.y == 0,
            p.z == 0,
    {
        Position::new(0, 0, 0)
    }

    /// The six neighbours in the order north, north-east, south-east, south,
    /// south-west, north-west.
    pub fn get_all_adjacent(&self) -> (v: Vec<Position>)
        requires
            steppable(*self),
        ensures
            v@.len() == 6,
            moved(*self, v@[0], 0, 1, -1),
            moved(*self, v@[1], 1, 0, -1),
            moved(*self, v@[2], 1, -1, 0),
            moved(*self, v@[3], 0, -1, 1),
            moved(*self, v@[4], -1, 0, 1),
            moved(*self, v@[5], -1, 1, 0),
    {
        vec![
            self.north(),
            self.north_east(),
            self.south_east(),
            self.south(),
            self.south_west(),
            self.north_west(),
        ]
    }

    pub fn north(&self) -> (p: Position)
        requires
            self.y < i32::MAX,
            self.z > i32::MIN,
        ensures
            moved(*self, p, 0, 1, -1),
    {
        Position::new(self.x, self.y + 1, self.z - 1)
    }

    pub fn north_east(&self) -> (p: Position)
        requires
            self.x < i32::MAX,
            self.z > i32::MIN,
        ensures
            moved(*self, p, 1, 0, -1),
    {
        Position::new(self.x + 1, self.y, self.z - 1)
    }

    pub fn south_east(&self) -> (p: Position)
        requires
            self.x < i32::MAX,
            self.y > i32::MIN,
        ensures
            moved(*self, p, 1, -1, 0),
    {
        Position::new(self.x + 1, self.y - 1, self.z)
    }

    pub fn south(&self) -> (p: Position)
        requires
            self.y > i32::MIN,
            self.z < i32::MAX,
        ensures
            moved(*self, p, 0, -1, 1),
    {
        Position::new(self.x, self.y - 1, self.z + 1)
    }

    pub fn south_west(&self) -> (p: Position)
        requires
            self.x > i32::MIN,
            self.z < i32::MAX,
        ensures
            moved(*self, p, -1, 0, 1),
    {
        Position::new(self.x - 1, self.y, self.z + 1)
    }

    pub fn north_west(&self) -> (p: Position)
        requires
            self.x > i32::MIN,
            self.y < i32::MAX,
        ensures
            moved(*self, p, -1, 1, 0),
    {
        Position::new(self.x - 1, self.y + 1, self.z)
    }
}

} // verus!
