use vstd::prelude::*;

verus! {

pub type Coord = i8;

/// An axial coordinate `(q, r)` on the hexagonal grid.
#[derive(Copy, Clone, PartialEq, Eq, Debug, Hash, Structural)]
pub struct Axial {
    pub q: Coord,
    pub r: Coord,
}

/// The cell where the first piece goes.
pub open spec fn origin() -> Axial {
    Axial { q: 0, r: 0 }
}

/// The offset in `q` of the `d`-th direction: north, north-east, south-east,
/// south, south-west, north-west.
pub open spec fn dir_q(d: int) -> int {
    if d == 0 || d == 3 {
        0
    } else if d == 1 || d == 2 {
        1
    } else {
        -1
    }
}

/// The offset in `r` of the `d`-th direction.
pub open spec fn dir_r(d: int) -> int {
    if d == 0 || d == 1 {
        -1
    } else if d == 3 || d == 4 {
        1
    } else {
        0
    }
}

/// `b` is the neighbour of `a` in direction `d`.
pub open spec fn is_step(a: Axial, b: Axial, d: int) -> bool {
    b.q == a.q + dir_q(d) && b.r == a.r + dir_r(d)
}

/// The two cells share an edge.
pub open spec fn adjacent(a: Axial, b: Axial) -> bool {
    let dq = b.q - a.q;
    let dr = b.r - a.r;
    ||| dq == 0 && dr == -1
    ||| dq == 1 && dr == -1
    ||| dq == 1 && dr == 0
    ||| dq == 0 && dr == 1
    ||| dq == -1 && dr == 1
    ||| dq == -1 && dr == 0
}

/// Adjacency is symmetric.
pub proof fn lemma_adjacent_symmetric(a: Axial, b: Axial)
    ensures
        adjacent(a, b) == adjacent(b, a),
{
}

/// No cell is its own neighbour.
pub proof fn lemma_adjacent_irreflexive(a: Axial)
    ensures
        !adjacent(a, a),
{
}

impl Axial {
    /// Both components lie at least `m` away from the ends of the `i8` range,
    /// so that `m` steps in any direction stay representable.
    pub open spec fn within(self, m: int) -> bool {
        -128 + m <= self.q <= 127 - m && -128 + m <= self.r <= 127 - m
    }

    pub fn new(q: Coord, r: Coord) -> (a: Axial)
        ensures
            a.q == q,
            a.r == r,
    {
        Axial { q, r }
    }

    pub fn zero() -> (a: Axial)
        ensures
            a == origin(),
    {
        Axial::new(0, 0)
    }

    /// The row on which the cell is drawn: `q + 2r`.
    pub fn vertical_pos(&self) -> (v: Coord)
        requires
            -128 <= self.q + 2 * self.r <= 127,
        ensures
            v == self.q + 2 * self.r,
    {
        self.q + self.r + self.r
    }

    /// The six neighbours in the fixed order north, north-east, south-east,
    /// south, south-west, north-west.
    pub fn surrounding_positions(&self) -> (s: [Axial; 6])
        requires
            self.within(1),
        ensures
            forall|d: int| 0 <= d < 6 ==> #[trigger] is_step(*self, s[d], d),
            forall|d: int| 0 <= d < 6 ==> adjacent(*self, #[trigger] s[d]),
            forall|b: Axial|
                adjacent(*self, b) ==> (b == s[0] || b == s[1] || b == s[2] || b == s[3] || b
                    == s[4] || b == s[5]),
            forall|i: int, j: int| 0 <= i < j < 6 ==> s[i] != s[j],
    {
        let s = [
            self.north(),
            self.north_east(),
            self.south_east(),
            self.south(),
            self.south_west(),
            self.north_west(),
        ];
        assert(forall|d: int| 0 <= d < 6 ==> #[trigger] is_step(*self, s[d], d));
        s
    }

    pub fn north(&self) -> (a: Axial)
        requires
            self.r > -128,
        ensures
            is_step(*self, a, 0),
    {
        Axial::new(self.q, self.r - 1)
    }

    pub fn north_east(&self) -> (a: Axial)
        requires
            self.q < 127,
            self.r > -128,
        ensures
            is_step(*self, a, 1),
    {
        Axial::new(self.q + 1, self.r - 1)
    }

    pub fn south_east(&self) -> (a: Axial)
        requires
            self.q < 127,
        ensures
            is_step(*self, a, 2),
    {
        Axial::new(self.q + 1, self.r)
    }

    pub fn south(&self) -> (a: Axial)
        requires
            self.r < 127,
        ensures
            is_step(*self, a, 3),
    {
        Axial::new(self.q, self.r + 1)
    }

    pub fn south_west(&self) -> (a: Axial)
        requires
            self.q > -128,
            self.r < 127,
        ensures
            is_step(*self, a, 4),
    {
        Axial::new(self.q - 1, self.r + 1)
    }

    pub fn north_west(&self) -> (a: Axial)
        requires
            self.q > -128,
        ensures
            is_step(*self, a, 5),
    {
        Axial::new(self.q - 1, self.r)
    }
}

} // verus!
