use crate::axial::{adjacent, lemma_adjacent_irreflexive, origin, Axial};
use crate::nav_mesh::{all_within, holds, movable, NavMesh};
use crate::render::{drawing, is_bounds, Bounds};
use crate::tile::{Colour, Tile, Tiles};
use vstd::prelude::*;

verus! {

/// The cells where the next piece may go, before colours are considered: the
/// origin on an empty board, else the empty cells next to an occupied one.
pub open spec fn frontier_of(occupied: Set<Axial>) -> Set<Axial> {
    if occupied == Set::<Axial>::empty() {
        set![origin()]
    } else {
        Set::new(
            |c: Axial|
                !occupied.contains(c) && exists|o: Axial| #[trigger]
                    occupied.contains(o) && adjacent(o, c),
        )
    }
}

/// Every occupied neighbour of `c` holds a piece of `colour`.
pub open spec fn touches_only(pieces: Map<Axial, Tile>, c: Axial, colour: Colour) -> bool {
    forall|o: Axial| #[trigger] pieces.contains_key(o) && adjacent(c, o) ==> pieces[o].0 == colour
}

/// The cells where a piece of `colour` may be placed. With a single piece on
/// the board any of its neighbours will do; otherwise a frontier cell
/// qualifies when all its occupied neighbours are of `colour`.
pub open spec fn placements(pieces: Map<Axial, Tile>, colour: Colour) -> Set<Axial> {
    let f = frontier_of(pieces.dom());
    if pieces.len() == 1 {
        f
    } else {
        f.filter(|c: Axial| touches_only(pieces, c, colour))
    }
}

/// On an empty board the only cell open to either colour is the origin.
pub proof fn lemma_empty_board_placements(colour: Colour)
    ensures
        placements(Map::<Axial, Tile>::empty(), colour) == set![origin()],
{
    let m = Map::<Axial, Tile>::empty();
    assert(m.dom() =~= Set::<Axial>::empty());
    assert(placements(m, colour) =~= set![origin()]);
}

/// With one piece at the origin, either colour may place on any of the six
/// neighbours of the origin, and nowhere else.
pub proof fn lemma_single_piece_placements(tile: Tile, colour: Colour)
    ensures
        placements(map![origin() => tile], colour) == set![
            Axial { q: 0, r: -1i8 },
            Axial { q: 1, r: -1i8 },
            Axial { q: 1, r: 0 },
            Axial { q: 0, r: 1 },
            Axial { q: -1i8, r: 1 },
            Axial { q: -1i8, r: 0 },
        ],
{
    let m = map![origin() => tile];
    let six = set![
        Axial { q: 0, r: -1i8 },
        Axial { q: 1, r: -1i8 },
        Axial { q: 1, r: 0 },
        Axial { q: 0, r: 1 },
        Axial { q: -1i8, r: 1 },
        Axial { q: -1i8, r: 0 },
    ];
    assert(m.dom() =~= set![origin()]);
    assert(m.dom().len() == 1) by {
        assert(set![origin()] =~= Set::<Axial>::empty().insert(origin()));
    }
    assert(m.dom().contains(origin()));
    assert forall|c: Axial| #[trigger] frontier_of(m.dom()).contains(c) <==> six.contains(c) by {
        if six.contains(c) {
            assert(m.dom().contains(origin()) && adjacent(origin(), c));
        }
        if frontier_of(m.dom()).contains(c) {
            let o = choose|o: Axial| #[trigger] m.dom().contains(o) && adjacent(o, c);
            assert(o == origin());
        }
    }
    assert(placements(m, colour) =~= six);
}

/// No cell is ever both occupied and in the frontier.
pub proof fn lemma_frontier_disjoint(b: Board)
    requires
        b.wf(),
    ensures
        forall|c: Axial| !(b.pieces().contains_key(c) && #[trigger] b.frontier().contains(c)),
{
    assert forall|c: Axial| !(b.pieces().contains_key(c) && #[trigger] b.frontier().contains(c)) by {
        if b.pieces().dom() == Set::<Axial>::empty() {
            assert(!b.pieces().dom().contains(c));
        }
    }
}

/// A legal placement goes to a cell that no piece holds, so the board gains
/// exactly one piece and no two placements ever share a cell.
pub proof fn lemma_placement_is_fresh(b: Board, tile: Tile, position: Axial)
    requires
        b.wf(),
        placements(b.pieces(), tile.0).contains(position),
    ensures
        !b.pieces().contains_key(position),
        b.pieces().insert(position, tile).len() == b.pieces().len() + 1,
{
    lemma_frontier_disjoint(b);
    if b.pieces().dom() == Set::<Axial>::empty() {
        assert(!b.pieces().dom().contains(position));
    } else {
        assert(b.frontier().contains(position));
    }
    assert(b.pieces().insert(position, tile).dom() =~= b.pieces().dom().insert(position));
}

/// A board: the placed pieces, the frontier of cells next to them, and
/// scratch space for the connectivity test.
pub struct Board {
    tiles: Tiles,
    free_positions: Vec<Axial>,
    nav_mesh: NavMesh,
}

/// A prefix one longer holds what the shorter one holds, and the next element.
proof fn lemma_prefix_step(s: Seq<Axial>, d: int, x: Axial)
    requires
        0 <= d < s.len(),
    ensures
        s.subrange(0, d + 1).contains(x) == (s.subrange(0, d).contains(x) || s[d] == x),
{
    let k = d + 1;
    let pre = s.subrange(0, d);
    let ext = s.subrange(0, k);
    if pre.contains(x) {
        let j = choose|j: int| 0 <= j < pre.len() && pre[j] == x;
        assert(ext[j] == x);
    }
    if s[d] == x {
        assert(ext[d] == x);
    }
    if ext.contains(x) && s[d] != x {
        let j = choose|j: int| 0 <= j < ext.len() && ext[j] == x;
        assert(pre[j] == x);
    }
}

/// Removes the element `x` from `v`, if present.
fn remove_cell(v: &mut Vec<Axial>, x: Axial)
    requires
        old(v)@.no_duplicates(),
    ensures
        final(v)@.no_duplicates(),
        final(v)@.to_set() == old(v)@.to_set().remove(x),
{
    let ghost orig = v@;
    let mut i: usize = 0;
    while i < v.len()
        invariant
            v@ == orig,
            orig == old(v)@,
            orig.no_duplicates(),
            i <= v@.len(),
            forall|j: int| 0 <= j < i ==> v@[j] != x,
        decreases v@.len() - i,
    {
        if v[i] == x {
            let ghost before = v@;
            v.remove(i);
            assert(before[i as int] == x);
            assert(before.no_duplicates());
            assert(v@ == before.remove(i as int));
            assert(v@.no_duplicates()) by {
                assert forall|a: int, b: int| 0 <= a < b < v@.len() implies v@[a] != v@[b] by {
                    let a0 = if a < i { a } else { a + 1 };
                    let b0 = if b < i { b } else { b + 1 };
                    assert(a0 < b0);
                    assert(v@[a] == before[a0] && v@[b] == before[b0]);
                }
            }
            assert(v@.to_set() =~= before.to_set().remove(x)) by {
                assert forall|y: Axial| before.contains(y) && y != x implies v@.contains(y) by {
                    let j = choose|j: int| 0 <= j < before.len() && before[j] == y;
                    if j < i {
                        assert(v@[j] == y);
                    } else {
                        assert(v@[j - 1] == y);
                    }
                }
                assert forall|y: Axial| v@.contains(y) implies before.contains(y) && y != x by {
                    let j = choose|j: int| 0 <= j < v@.len() && v@[j] == y;
                    if j < i {
                        assert(before[j] == y);
                        assert(j != i);
                    } else {
                        assert(before[j + 1] == y);
                        assert(j + 1 != i);
                    }
                }
            }
            return;
        }
        i = i + 1;
    }
    assert(v@.to_set() =~= v@.to_set().remove(x));
}

impl Board {
    /// The pieces on the board, by cell.
    pub closed spec fn pieces(&self) -> Map<Axial, Tile> {
        self.tiles@
    }

    /// The empty cells next to the pieces (the origin on an empty board).
    pub closed spec fn frontier(&self) -> Set<Axial> {
        self.free_positions@.to_set()
    }

    pub closed spec fn storage_wf(&self) -> bool {
        self.tiles.wf() && self.free_positions@.no_duplicates()
    }

    /// The board's invariant: the frontier is exactly the empty cells next to
    /// the pieces, and every cell in use stays clear of the ends of the `i8`
    /// range.
    pub open spec fn wf(&self) -> bool {
        &&& self.storage_wf()
        &&& self.pieces().dom().finite()
        &&& self.frontier() == frontier_of(self.pieces().dom())
        &&& all_within(self.pieces().dom(), 2)
        &&& all_within(self.frontier(), 1)
    }

    /// The placed pieces.
    pub fn tiles(&self) -> (t: &Tiles)
        requires
            self.wf(),
        ensures
            t.wf(),
            t@ == self.pieces(),
    {
        &self.tiles
    }

    /// The frontier cells, each once, in no particular order.
    pub fn free_positions(&self) -> (s: &[Axial])
        requires
            self.wf(),
        ensures
            s@.no_duplicates(),
            s@.to_set() == self.frontier(),
    {
        self.free_positions.as_slice()
    }

    /// Every occupied neighbour of `c` holds a piece of `colour`.
    fn only_touches(&self, c: Axial, colour: Colour) -> (b: bool)
        requires
            self.wf(),
            c.within(1),
        ensures
            b == touches_only(self.pieces(), c, colour),
    {
        let around = c.surrounding_positions();
        let mut d: usize = 0;
        while d < 6
            invariant
                self.wf(),
                d <= 6,
                forall|e: int| 0 <= e < 6 ==> adjacent(c, #[trigger] around[e]),
                forall|e: int|
                    0 <= e < d && self.pieces().contains_key(#[trigger] around[e])
                        ==> self.pieces()[around[e]].0 == colour,
            decreases 6 - d,
        {
            match self.tiles.get(&around[d]) {
                Some(t) => {
                    if t.0 != colour {
                        return false;
                    }
                },
                None => {},
            }
            d = d + 1;
        }
        true
    }

    /// The cells where a piece of `colour` may be placed, each once, in no
    /// particular order.
    pub fn get_available_placements(&self, colour: Colour) -> (v: Vec<Axial>)
        requires
            self.wf(),
        ensures
            v@.no_duplicates(),
            v@.to_set() == placements(self.pieces(), colour),
    {
        let mut v: Vec<Axial> = Vec::new();
        self.available_placements_into(colour, &mut v);
        v
    }

    /// Overwrites `v` with the cells where a piece of `colour` may be placed,
    /// each once, in no particular order; `v` keeps its allocation.
    pub fn available_placements_into(&self, colour: Colour, v: &mut Vec<Axial>)
        requires
            self.wf(),
        ensures
            final(v)@.no_duplicates(),
            final(v)@.to_set() == placements(self.pieces(), colour),
    {
        let single = self.tiles.len() == 1;
        let ghost free = self.free_positions@;
        v.clear();
        let mut i: usize = 0;
        while i < self.free_positions.len()
            invariant
                self.wf(),
                free == self.free_positions@,
                single == (self.pieces().len() == 1),
                i <= free.len(),
                v@.no_duplicates(),
                forall|x: Axial|
                    #[trigger] v@.contains(x) <==> free.subrange(0, i as int).contains(x) && (single
                        || touches_only(self.pieces(), x, colour)),
            decreases free.len() - i,
        {
            let c = self.free_positions[i];
            assert(free.to_set().contains(c));
            let ghost v0 = v@;
            proof {
                assert forall|x: Axial| #[trigger] free.subrange(0, i + 1).contains(x) == (free.subrange(0, i as int).contains(x) || x == c) by {
                    lemma_prefix_step(free, i as int, x);
                }
            }
            if single || self.only_touches(c, colour) {
                assert(!v@.contains(c)) by {
                    if free.subrange(0, i as int).contains(c) {
                        let j = choose|j: int| 0 <= j < i && free.subrange(0, i as int)[j] == c;
                        assert(free[j] == c);
                    }
                }
                v.push(c);
                proof {
                    assert forall|x: Axial| #[trigger] v@.contains(x) == (v0.contains(x) || x == c) by {
                        if v0.contains(x) {
                            let j = choose|j: int| 0 <= j < v0.len() && v0[j] == x;
                            assert(v@[j] == x);
                        }
                        if x == c {
                            assert(v@[v0.len() as int] == x);
                        }
                        if v@.contains(x) && x != c {
                            let j = choose|j: int| 0 <= j < v@.len() && v@[j] == x;
                            assert(v0[j] == x);
                        }
                    }
                }
            }
            i = i + 1;
        }
        proof {
            assert(free.subrange(0, free.len() as int) =~= free);
            assert(v@.to_set() =~= placements(self.pieces(), colour));
        }
    }

    /// Places `tile` at `position` and patches the frontier: `position` leaves
    /// it and every empty neighbour of `position` joins it.
    pub fn place(&mut self, tile: Tile, position: Axial)
        requires
            old(self).wf(),
            placements(old(self).pieces(), tile.0).contains(position),
            position.within(2),
        ensures
            final(self).wf(),
            final(self).pieces() == old(self).pieces().insert(position, tile),
            final(self).frontier() == frontier_of(final(self).pieces().dom()),
    {
        let ghost occ = self.pieces().dom();
        let ghost f0 = self.frontier();
        self.tiles.insert(position, tile);
        remove_cell(&mut self.free_positions, position);
        let ghost occ1 = self.pieces().dom();
        assert(occ1 =~= occ.insert(position));
        let around = position.surrounding_positions();
        proof {
            lemma_adjacent_irreflexive(position);
        }
        let mut d: usize = 0;
        while d < 6
            invariant
                self.storage_wf(),
                occ1 == self.pieces().dom(),
                occ1 == occ.insert(position),
                f0 == frontier_of(occ),
                self.pieces() == old(self).pieces().insert(position, tile),
                d <= 6,
                forall|e: int| 0 <= e < 6 ==> adjacent(position, #[trigger] around[e]),
                forall|x: Axial|
                    #[trigger] self.frontier().contains(x) <==> (f0.contains(x) && x != position) || (
                    around@.subrange(0, d as int).contains(x) && !occ1.contains(x)),
            decreases 6 - d,
        {
            let n = around[d];
            let ghost fr_before = self.frontier();
            let ghost mut pushed = false;
            if !self.tiles.contains_key(&n) && !holds(&self.free_positions, n) {
                let ghost before = self.free_positions@;
                self.free_positions.push(n);
                proof {
                    assert(self.free_positions@ == before.push(n));
                    assert(self.free_positions@.no_duplicates()) by {
                        assert forall|a: int, b: int|
                            0 <= a < b < self.free_positions@.len() implies self.free_positions@[a]
                            != self.free_positions@[b] by {
                            if b == before.len() {
                                assert(before.contains(before[a]));
                            }
                        }
                    }
                    assert(self.free_positions@.to_set() =~= before.to_set().insert(n)) by {
                        assert forall|y: Axial| before.contains(y) implies self.free_positions@.contains(y) by {
                            let j = choose|j: int| 0 <= j < before.len() && before[j] == y;
                            assert(self.free_positions@[j] == y);
                        }
                        assert(self.free_positions@[before.len() as int] == n);
                    }
                    pushed = true;
                }
            }
            proof {
                assert(self.frontier() == if pushed {
                    fr_before.insert(n)
                } else {
                    fr_before
                });
                assert forall|x: Axial|
                    #[trigger] self.frontier().contains(x) <==> (f0.contains(x) && x != position) || (
                    around@.subrange(0, d + 1).contains(x) && !occ1.contains(x)) by {
                    lemma_prefix_step(around@, d as int, x);
                    assert(fr_before.contains(x) <==> (f0.contains(x) && x != position) || (
                    around@.subrange(0, d as int).contains(x) && !occ1.contains(x)));
                }
            }
            d = d + 1;
        }
        self.nav_mesh.update(tile, position);
        proof {
            assert(around@.subrange(0, 6) =~= around@);
            assert forall|x: Axial| #[trigger] around@.contains(x) <==> adjacent(position, x) by {
                if adjacent(position, x) {
                    assert(x == around[0] || x == around[1] || x == around[2] || x == around[3]
                        || x == around[4] || x == around[5]);
                    if x == around[0] { assert(around@[0] == x); }
                    if x == around[1] { assert(around@[1] == x); }
                    if x == around[2] { assert(around@[2] == x); }
                    if x == around[3] { assert(around@[3] == x); }
                    if x == around[4] { assert(around@[4] == x); }
                    if x == around[5] { assert(around@[5] == x); }
                }
                if around@.contains(x) {
                    let e = choose|e: int| 0 <= e < 6 && around@[e] == x;
                    assert(adjacent(position, around[e]));
                }
            }
            assert forall|x: Axial| #[trigger] self.frontier().contains(x) <==> frontier_of(occ1).contains(x) by {
                if occ == Set::<Axial>::empty() {
                    assert(position == origin());
                    if frontier_of(occ1).contains(x) {
                        let o = choose|o: Axial| #[trigger] occ1.contains(o) && adjacent(o, x);
                        assert(o == position);
                    }
                    if self.frontier().contains(x) {
                        assert(occ1.contains(position) && adjacent(position, x));
                    }
                } else {
                    assert(occ1.contains(position));
                    assert(occ1 != Set::<Axial>::empty());
                    if frontier_of(occ1).contains(x) {
                        assert(exists|o: Axial| #[trigger] occ1.contains(o) && adjacent(o, x));
                        let o = choose|o: Axial| #[trigger] occ1.contains(o) && adjacent(o, x);
                        assert(occ1.contains(o));
                        if o != position {
                            assert(occ.contains(o));
                            assert(frontier_of(occ).contains(x));
                        }
                    }
                    if self.frontier().contains(x) {
                        if f0.contains(x) && x != position {
                            let o = choose|o: Axial| #[trigger] occ.contains(o) && adjacent(o, x);
                            assert(occ1.contains(o));
                        } else {
                            assert(occ1.contains(position) && adjacent(position, x));
                        }
                    }
                }
            }
            assert(self.frontier() =~= frontier_of(occ1));
            assert forall|x: Axial| self.frontier().contains(x) implies x.within(1) by {
                if !(f0.contains(x) && x != position) {
                    assert(adjacent(position, x));
                }
            }
        }
    }

    /// Overwrites this board with `source`, keeping the allocations already made.
    pub fn clone_from(&mut self, source: &Board)
        requires
            old(self).wf(),
            source.wf(),
        ensures
            final(self).wf(),
            final(self).pieces() == source.pieces(),
            final(self).frontier() == source.frontier(),
    {
        self.tiles.clear();
        self.tiles.extend(&source.tiles);
        assert(self.tiles@ =~= source.tiles@);
        self.free_positions.clear();
        let mut i: usize = 0;
        while i < source.free_positions.len()
            invariant
                self.tiles.wf(),
                self.tiles@ == source.tiles@,
                i <= source.free_positions@.len(),
                self.free_positions@ == source.free_positions@.subrange(0, i as int),
            decreases source.free_positions@.len() - i,
        {
            self.free_positions.push(source.free_positions[i]);
            i = i + 1;
            assert(self.free_positions@ =~= source.free_positions@.subrange(0, i as int));
        }
        assert(self.free_positions@ =~= source.free_positions@);
    }

    /// The piece at `position` may be lifted without splitting the pieces
    /// into two groups.
    pub fn can_move(&mut self, position: Axial) -> (can: bool)
        requires
            old(self).wf(),
            old(self).pieces().contains_key(position),
        ensures
            final(self).wf(),
            final(self).pieces() == old(self).pieces(),
            final(self).frontier() == old(self).frontier(),
            can == movable(old(self).pieces().dom(), position),
    {
        self.nav_mesh.can_move_tile(&self.tiles, position)
    }

    /// Draws the pieces as text, row after row.
    pub fn render(&self) -> (s: String)
        requires
            self.wf(),
        ensures
            exists|b: Bounds| is_bounds(self.pieces(), b) && drawing(self.pieces(), b, s@),
    {
        self.tiles.render()
    }
}

impl Default for Board {
    fn default() -> (b: Board)
        ensures
            b.wf(),
            b.pieces() == Map::<Axial, Tile>::empty(),
    {
        let mut free_positions: Vec<Axial> = Vec::with_capacity(32);
        free_positions.push(Axial::zero());
        let b = Board {
            tiles: Tiles::with_capacity(44),
            free_positions,
            nav_mesh: NavMesh::default(),
        };
        assert(b.pieces().dom() =~= Set::<Axial>::empty());
        assert(b.frontier() =~= set![origin()]) by {
            assert(b.free_positions@[0] == origin());
        }
        b
    }
}

} // verus!
