use crate::axial::{adjacent, lemma_adjacent_irreflexive, lemma_adjacent_symmetric, Axial};
use crate::tile::{Tile, Tiles};
use vstd::prelude::*;

verus! {

/// Every cell of the set lies at least `m` steps inside the `i8` range.
pub open spec fn all_within(cells: Set<Axial>, m: int) -> bool {
    forall|k: Axial| cells.contains(k) ==> k.within(m)
}

/// `c` holds every cell of `region` that is adjacent to a cell of `c`.
pub open spec fn closed_in(region: Set<Axial>, c: Set<Axial>) -> bool {
    forall|x: Axial, y: Axial|
        #![trigger c.contains(x), adjacent(x, y)]
        c.contains(x) && region.contains(y) && adjacent(x, y) ==> c.contains(y)
}

/// `b` is reached from `a` by steps between adjacent cells of `region`: it lies
/// in every set that holds `a` and is closed in `region`.
pub open spec fn connected(region: Set<Axial>, a: Axial, b: Axial) -> bool {
    forall|c: Set<Axial>| #[trigger] closed_in(region, c) && c.contains(a) ==> c.contains(b)
}

/// Lifting the piece at `p` keeps its occupied neighbours mutually reachable
/// through the other occupied cells.
pub open spec fn movable(occupied: Set<Axial>, p: Axial) -> bool {
    forall|a: Axial, b: Axial|
        occupied.contains(a) && occupied.contains(b) && adjacent(p, a) && adjacent(p, b)
            ==> #[trigger] connected(occupied.remove(p), a, b)
}

/// The cells a search may walk: the occupied ones, less `skip` if given.
pub open spec fn region_of(occupied: Set<Axial>, skip: Option<Axial>) -> Set<Axial> {
    match skip {
        Some(s) => occupied.remove(s),
        None => occupied,
    }
}

/// One step from a reached cell to an adjacent cell of the region is reached.
pub proof fn lemma_connected_step(region: Set<Axial>, a: Axial, x: Axial, y: Axial)
    requires
        connected(region, a, x),
        region.contains(y),
        adjacent(x, y),
    ensures
        connected(region, a, y),
{
    assert forall|c: Set<Axial>| #[trigger] closed_in(region, c) && c.contains(a) implies c.contains(
        y,
    ) by {
        assert(c.contains(x));
    }
}

/// Reachability is transitive.
pub proof fn lemma_connected_transitive(region: Set<Axial>, a: Axial, b: Axial, d: Axial)
    requires
        connected(region, a, b),
        connected(region, b, d),
    ensures
        connected(region, a, d),
{
    assert forall|c: Set<Axial>| #[trigger] closed_in(region, c) && c.contains(a) implies c.contains(
        d,
    ) by {
        assert(c.contains(b));
    }
}

/// Reachability between cells of the region is symmetric.
pub proof fn lemma_connected_symmetric(region: Set<Axial>, a: Axial, b: Axial)
    requires
        region.contains(a),
        connected(region, a, b),
    ensures
        connected(region, b, a),
{
    assert forall|c: Set<Axial>| #[trigger] closed_in(region, c) && c.contains(b) implies c.contains(
        a,
    ) by {
        if !c.contains(a) {
            let rest = region.difference(c);
            assert forall|x: Axial, y: Axial|
                #![trigger rest.contains(x), adjacent(x, y)]
                rest.contains(x) && region.contains(y) && adjacent(x, y) implies rest.contains(y) by {
                lemma_adjacent_symmetric(x, y);
                if c.contains(y) {
                    assert(c.contains(x));
                }
            }
            assert(closed_in(region, rest));
            assert(rest.contains(a));
            assert(rest.contains(b));
        }
    }
}

/// A piece with no occupied neighbour may always be lifted.
pub proof fn lemma_isolated_movable(occupied: Set<Axial>, p: Axial)
    requires
        forall|n: Axial| adjacent(p, n) ==> !#[trigger] occupied.contains(n),
    ensures
        movable(occupied, p),
{
}

/// In a chain of three pieces `a`, `b`, `c`, where `b` touches both ends and
/// the ends do not touch, the middle piece is pinned and both ends may move.
pub proof fn lemma_chain_of_three(a: Axial, b: Axial, c: Axial)
    requires
        adjacent(a, b),
        adjacent(b, c),
        !adjacent(a, c),
        a != c,
    ensures
        !movable(set![a, b, c], b),
        movable(set![a, b, c], a),
        movable(set![a, b, c], c),
{
    let occ = set![a, b, c];
    lemma_adjacent_irreflexive(a);
    lemma_adjacent_irreflexive(b);
    lemma_adjacent_irreflexive(c);
    lemma_adjacent_symmetric(a, b);
    lemma_adjacent_symmetric(b, c);
    lemma_adjacent_symmetric(a, c);
    // Without `b`, the set holding only `a` is closed, so `c` is out of reach.
    let rest = occ.remove(b);
    let only_a = set![a];
    assert forall|x: Axial, y: Axial|
        #![trigger only_a.contains(x), adjacent(x, y)]
        only_a.contains(x) && rest.contains(y) && adjacent(x, y) implies only_a.contains(y) by {
        assert(x == a);
        assert(y == a || y == c);
    }
    assert(closed_in(rest, only_a) && only_a.contains(a) && !only_a.contains(c));
    assert(!connected(rest, a, c));
    assert(occ.contains(a) && occ.contains(c) && adjacent(b, a) && adjacent(b, c));
    // An end has a single occupied neighbour, `b`, which reaches itself.
    assert forall|x: Axial, y: Axial|
        occ.contains(x) && occ.contains(y) && adjacent(a, x) && adjacent(a, y) implies #[trigger] connected(
        occ.remove(a),
        x,
        y,
    ) by {
        assert(x == b && y == b);
    }
    assert forall|x: Axial, y: Axial|
        occ.contains(x) && occ.contains(y) && adjacent(c, x) && adjacent(c, y) implies #[trigger] connected(
        occ.remove(c),
        x,
        y,
    ) by {
        assert(x == b && y == b);
    }
}

/// Scratch space for the connectivity test, reused from call to call.
pub struct NavMesh {
    can_move_scratch: Vec<Axial>,
}

impl NavMesh {
    /// What the last search left behind.
    pub closed spec fn scratch(&self) -> Seq<Axial> {
        self.can_move_scratch@
    }
}

impl Default for NavMesh {
    fn default() -> (n: NavMesh)
        ensures
            n.scratch().len() == 0,
    {
        NavMesh { can_move_scratch: Vec::with_capacity(22) }
    }
}

/// `x` is one of the elements of `v`.
pub(crate) fn holds(v: &Vec<Axial>, x: Axial) -> (b: bool)
    ensures
        b == v@.contains(x),
{
    let mut i: usize = 0;
    while i < v.len()
        invariant
            i <= v@.len(),
            forall|j: int| 0 <= j < i ==> v@[j] != x,
        decreases v@.len() - i,
    {
        if v[i] == x {
            return true;
        }
        i = i + 1;
    }
    false
}

/// `n` is occupied and is not `skip`.
fn in_region(tiles: &Tiles, skip: Option<Axial>, n: Axial) -> (b: bool)
    requires
        tiles.wf(),
    ensures
        b == region_of(tiles@.dom(), skip).contains(n),
{
    tiles.contains_key(&n) && match skip {
        Some(s) => n != s,
        None => true,
    }
}

/// Fills `visited` with the cells reached from `start` within the region,
/// each once.
fn flood(tiles: &Tiles, skip: Option<Axial>, start: Axial, visited: &mut Vec<Axial>)
    requires
        tiles.wf(),
        all_within(tiles@.dom(), 1),
        region_of(tiles@.dom(), skip).contains(start),
    ensures
        final(visited)@.no_duplicates(),
        final(visited)@.to_set().subset_of(region_of(tiles@.dom(), skip)),
        final(visited)@.contains(start),
        closed_in(region_of(tiles@.dom(), skip), final(visited)@.to_set()),
        forall|i: int|
            0 <= i < final(visited)@.len() ==> connected(
                region_of(tiles@.dom(), skip),
                start,
                #[trigger] final(visited)@[i],
            ),
{
    let ghost region = region_of(tiles@.dom(), skip);
    proof {
        tiles.lemma_finite();
        assert(connected(region, start, start));
    }
    visited.clear();
    visited.push(start);
    let mut next: usize = 0;
    while next < visited.len()
        invariant
            tiles.wf(),
            all_within(tiles@.dom(), 1),
            region == region_of(tiles@.dom(), skip),
            region.finite(),
            next <= visited@.len() <= region.len(),
            visited@.len() > 0,
            visited@.no_duplicates(),
            visited@[0] == start,
            forall|i: int| 0 <= i < visited@.len() ==> region.contains(#[trigger] visited@[i]),
            forall|i: int| 0 <= i < visited@.len() ==> connected(region, start, #[trigger] visited@[i]),
            forall|i: int, y: Axial|
                0 <= i < next && region.contains(y) && #[trigger] adjacent(visited@[i], y)
                    ==> visited@.contains(y),
        decreases region.len() - next,
    {
        let x = visited[next];
        let around = x.surrounding_positions();
        let ghost before = visited@;
        let mut d: usize = 0;
        while d < 6
            invariant
                tiles.wf(),
                region == region_of(tiles@.dom(), skip),
                region.finite(),
                next < visited@.len(),
                d <= 6,
                x == visited@[next as int],
                visited@.len() >= before.len(),
                forall|i: int| 0 <= i < before.len() ==> visited@[i] == before[i],
                visited@.no_duplicates(),
                forall|i: int| 0 <= i < visited@.len() ==> region.contains(#[trigger] visited@[i]),
                forall|i: int| 0 <= i < visited@.len() ==> connected(region, start, #[trigger] visited@[i]),
                forall|e: int| 0 <= e < d && region.contains(around[e]) ==> visited@.contains(#[trigger] around[e]),
                forall|e: int| 0 <= e < 6 ==> adjacent(x, #[trigger] around[e]),
            decreases 6 - d,
        {
            let n = around[d];
            if in_region(tiles, skip, n) && !holds(visited, n) {
                proof {
                    lemma_connected_step(region, start, x, n);
                }
                let ghost prev = visited@;
                visited.push(n);
                proof {
                    assert(visited@[visited@.len() - 1] == n);
                    assert forall|e: int| 0 <= e < d && region.contains(around[e]) implies visited@.contains(
                        #[trigger] around[e],
                    ) by {
                        assert(prev.contains(around[e]));
                        let j = choose|j: int| 0 <= j < prev.len() && prev[j] == around[e];
                        assert(visited@[j] == around[e]);
                    }
                }
            }
            d = d + 1;
        }
        proof {
            assert forall|i: int, y: Axial|
                0 <= i < next + 1 && region.contains(y) && #[trigger] adjacent(visited@[i], y)
                    implies visited@.contains(y) by {
                if i < next {
                    assert(before[i] == visited@[i]);
                    let j = choose|j: int| 0 <= j < before.len() && before[j] == y;
                    assert(visited@[j] == y);
                } else {
                    assert(y == around[0] || y == around[1] || y == around[2] || y == around[3]
                        || y == around[4] || y == around[5]);
                }
            }
            visited@.unique_seq_to_set();
            assert(visited@.to_set().subset_of(region));
            vstd::set_lib::lemma_len_subset(visited@.to_set(), region);
        }
        next = next + 1;
    }
    proof {
        assert(visited@.contains(start)) by {
            assert(visited@[0] == start);
        }
        assert forall|x: Axial, y: Axial|
            #![trigger visited@.to_set().contains(x), adjacent(x, y)]
            visited@.to_set().contains(x) && region.contains(y) && adjacent(x, y)
                implies visited@.to_set().contains(y) by {
            let i = choose|i: int| 0 <= i < visited@.len() && visited@[i] == x;
            assert(adjacent(visited@[i], y));
        }
    }
}

/// There is a way from `a` to `b` through occupied cells.
///
/// `scratch` is overwritten and keeps its allocation.
pub fn path_between(tiles: &Tiles, a: &Axial, b: &Axial, scratch: &mut Vec<Axial>) -> (found: bool)
    requires
        tiles.wf(),
        all_within(tiles@.dom(), 1),
        tiles@.contains_key(*a),
    ensures
        found == connected(tiles@.dom(), *a, *b),
{
    flood(tiles, None, *a, scratch);
    let found = holds(scratch, *b);
    proof {
        let region = tiles@.dom();
        if found {
            let i = choose|i: int| 0 <= i < scratch@.len() && scratch@[i] == *b;
            assert(connected(region, *a, scratch@[i]));
        } else {
            let c = scratch@.to_set();
            assert(closed_in(region, c) && c.contains(*a));
            assert(!c.contains(*b));
        }
    }
    found
}

impl NavMesh {
    /// Called for each placement; the scratch space needs no update.
    pub fn update(&mut self, tile: Tile, position: Axial)
        ensures
            *final(self) == *old(self),
    {
    }

    /// The piece at `position` may be lifted without splitting the hive: its
    /// occupied neighbours stay mutually reachable once `position` is left out.
    pub fn can_move_tile(&mut self, tiles: &Tiles, position: Axial) -> (can: bool)
        requires
            tiles.wf(),
            all_within(tiles@.dom(), 1),
            tiles@.contains_key(position),
        ensures
            can == movable(tiles@.dom(), position),
    {
        let ghost occupied = tiles@.dom();
        let ghost region = occupied.remove(position);
        let around = position.surrounding_positions();
        proof {
            lemma_adjacent_irreflexive(position);
        }
        let mut first: usize = 0;
        while first < 6 && !tiles.contains_key(&around[first])
            invariant
                tiles.wf(),
                occupied == tiles@.dom(),
                first <= 6,
                forall|e: int| 0 <= e < first ==> !occupied.contains(#[trigger] around[e]),
            decreases 6 - first,
        {
            first = first + 1;
        }
        if first == 6 {
            proof {
                assert forall|a: Axial, b: Axial|
                    occupied.contains(a) && occupied.contains(b) && adjacent(position, a) && adjacent(
                        position,
                        b,
                    ) implies #[trigger] connected(region, a, b) by {
                    assert(a == around[0] || a == around[1] || a == around[2] || a == around[3]
                        || a == around[4] || a == around[5]);
                }
            }
            return true;
        }
        let start = around[first];
        flood(tiles, Some(position), start, &mut self.can_move_scratch);
        let mut d: usize = 0;
        while d < 6
            invariant
                tiles.wf(),
                occupied == tiles@.dom(),
                region == occupied.remove(position),
                first < 6,
                start == around[first as int],
                d <= 6,
                forall|e: int| 0 <= e < 6 ==> adjacent(position, #[trigger] around[e]),
                !adjacent(position, position),
                self.can_move_scratch@.to_set().subset_of(region),
                self.can_move_scratch@.contains(start),
                closed_in(region, self.can_move_scratch@.to_set()),
                forall|i: int|
                    0 <= i < self.can_move_scratch@.len() ==> connected(
                        region,
                        start,
                        #[trigger] self.can_move_scratch@[i],
                    ),
                forall|e: int|
                    0 <= e < d && occupied.contains(around[e]) ==> self.can_move_scratch@.contains(
                        #[trigger] around[e],
                    ),
            decreases 6 - d,
        {
            if tiles.contains_key(&around[d]) && !holds(&self.can_move_scratch, around[d]) {
                proof {
                    let c = self.can_move_scratch@.to_set();
                    assert(around[d as int] != position);
                    assert(closed_in(region, c) && c.contains(start));
                    assert(!c.contains(around[d as int]));
                    assert(!connected(region, start, around[d as int]));
                }
                return false;
            }
            d = d + 1;
        }
        proof {
            let v = self.can_move_scratch@;
            assert forall|a: Axial, b: Axial|
                occupied.contains(a) && occupied.contains(b) && adjacent(position, a) && adjacent(
                    position,
                    b,
                ) implies #[trigger] connected(region, a, b) by {
                assert(a == around[0] || a == around[1] || a == around[2] || a == around[3]
                    || a == around[4] || a == around[5]);
                assert(b == around[0] || b == around[1] || b == around[2] || b == around[3]
                    || b == around[4] || b == around[5]);
                assert(v.contains(a));
                assert(v.contains(b));
                let i = choose|i: int| 0 <= i < v.len() && v[i] == a;
                let j = choose|j: int| 0 <= j < v.len() && v[j] == b;
                assert(connected(region, start, v[i]));
                assert(connected(region, start, v[j]));
                lemma_connected_symmetric(region, start, a);
                lemma_connected_transitive(region, a, start, b);
            }
        }
        true
    }
}

} // verus!
