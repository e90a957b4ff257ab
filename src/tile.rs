use crate::axial::Axial;
use vstd::prelude::*;

verus! {

#[derive(Copy, Clone, PartialEq, Eq, Debug, Hash, Structural)]
pub enum Colour {
    White,
    Black,
}

impl Colour {
    pub fn other(&self) -> (c: Colour)
        ensures
            c != *self,
    {
        match self {
            Colour::White => Colour::Black,
            Colour::Black => Colour::White,
        }
    }
}

#[derive(Copy, Clone, PartialEq, Eq, Debug, Hash, Structural)]
pub enum TileType {
    Ant,
    Grasshopper,
    Beetle,
    Queen,
    Spider,
}

/// A placed piece: its colour and its kind.
pub type Tile = (Colour, TileType);

pub fn ant() -> (t: TileType)
    ensures
        t == TileType::Ant,
{
    TileType::Ant
}

pub fn queen() -> (t: TileType)
    ensures
        t == TileType::Queen,
{
    TileType::Queen
}

pub fn grass_hopper() -> (t: TileType)
    ensures
        t == TileType::Grasshopper,
{
    TileType::Grasshopper
}

pub fn beetle() -> (t: TileType)
    ensures
        t == TileType::Beetle,
{
    TileType::Beetle
}

pub fn spider() -> (t: TileType)
    ensures
        t == TileType::Spider,
{
    TileType::Spider
}

/// The pieces each player starts with, in a fixed order.
pub open spec fn standard_set() -> Seq<TileType> {
    seq![
        TileType::Queen,
        TileType::Beetle,
        TileType::Beetle,
        TileType::Spider,
        TileType::Spider,
        TileType::Ant,
        TileType::Ant,
        TileType::Ant,
        TileType::Grasshopper,
        TileType::Grasshopper,
        TileType::Grasshopper,
    ]
}

pub fn standard_game_tiles() -> (v: Vec<TileType>)
    ensures
        v@ == standard_set(),
{
    let v = vec![
        queen(),
        beetle(),
        beetle(),
        spider(),
        spider(),
        ant(),
        ant(),
        ant(),
        grass_hopper(),
        grass_hopper(),
        grass_hopper(),
    ];
    assert(v@ =~= standard_set());
    v
}

/// The pieces on the board, keyed by their cell.
///
/// The entries are kept in a vector with distinct keys, so that clearing and
/// refilling the registry keeps its allocation.
pub struct Tiles {
    entries: Vec<(Axial, Tile)>,
    contents: Ghost<Map<Axial, Tile>>,
}

impl View for Tiles {
    type V = Map<Axial, Tile>;

    closed spec fn view(&self) -> Map<Axial, Tile> {
        self.contents@
    }
}

impl Tiles {
    /// The entries have distinct keys and hold exactly the pieces of the view.
    pub closed spec fn wf(&self) -> bool {
        let e = self.entries@;
        let m = self.contents@;
        &&& forall|i: int, j: int| 0 <= i < j < e.len() ==> e[i].0 != e[j].0
        &&& forall|i: int|
            0 <= i < e.len() ==> m.contains_key(#[trigger] e[i].0) && m[e[i].0] == e[i].1
        &&& forall|k: Axial| m.contains_key(k) ==> exists|i: int| 0 <= i < e.len() && e[i].0 == k
        &&& m.dom().finite()
        &&& m.len() == e.len()
    }

    /// A well-formed registry holds finitely many pieces.
    pub proof fn lemma_finite(&self)
        requires
            self.wf(),
        ensures
            self@.dom().finite(),
    {
    }

    pub fn with_capacity(capacity: usize) -> (t: Tiles)
        ensures
            t.wf(),
            t@ == Map::<Axial, Tile>::empty(),
    {
        Tiles { entries: Vec::with_capacity(capacity), contents: Ghost(Map::empty()) }
    }

    pub fn len(&self) -> (n: usize)
        requires
            self.wf(),
        ensures
            n == self@.len(),
    {
        self.entries.len()
    }

    /// The index of the entry for `k`, if there is one.
    fn find(&self, k: &Axial) -> (i: Option<usize>)
        requires
            self.wf(),
        ensures
            match i {
                Some(i) => i < self.entries@.len() && self.entries@[i as int].0 == *k,
                None => !self@.contains_key(*k),
            },
    {
        let mut i: usize = 0;
        while i < self.entries.len()
            invariant
                self.wf(),
                i <= self.entries@.len(),
                forall|j: int| 0 <= j < i ==> self.entries@[j].0 != *k,
            decreases self.entries@.len() - i,
        {
            if self.entries[i].0 == *k {
                return Some(i);
            }
            i = i + 1;
        }
        None
    }

    pub fn contains_key(&self, k: &Axial) -> (b: bool)
        requires
            self.wf(),
        ensures
            b == self@.contains_key(*k),
    {
        self.find(k).is_some()
    }

    pub fn get(&self, k: &Axial) -> (t: Option<&Tile>)
        requires
            self.wf(),
        ensures
            match t {
                Some(t) => self@.contains_key(*k) && *t == self@[*k],
                None => !self@.contains_key(*k),
            },
    {
        match self.find(k) {
            Some(i) => Some(&self.entries[i].1),
            None => None,
        }
    }

    /// Puts `v` at `k` and hands back the piece that was there.
    pub fn insert(&mut self, k: Axial, v: Tile) -> (prev: Option<Tile>)
        requires
            old(self).wf(),
        ensures
            final(self).wf(),
            final(self)@ == old(self)@.insert(k, v),
            prev == (if old(self)@.contains_key(k) {
                Some(old(self)@[k])
            } else {
                None
            }),
    {
        match self.find(&k) {
            Some(i) => {
                let prev = self.entries[i].1;
                self.entries.set(i, (k, v));
                self.contents = Ghost(self.contents@.insert(k, v));
                assert(forall|k2: Axial| #[trigger]
                    self.contents@.contains_key(k2) ==> exists|j: int|
                        0 <= j < self.entries@.len() && self.entries@[j].0 == k2) by {
                    assert forall|k2: Axial| #[trigger]
                        self.contents@.contains_key(k2) implies exists|j: int|
                        0 <= j < self.entries@.len() && self.entries@[j].0 == k2 by {
                        if k2 == k {
                            assert(self.entries@[i as int].0 == k2);
                        } else {
                            assert(old(self)@.contains_key(k2));
                            let j = choose|j: int| 0 <= j < old(self).entries@.len() && old(self).entries@[j].0 == k2;
                            assert(self.entries@[j].0 == k2);
                        }
                    }
                }
                Some(prev)
            },
            None => {
                self.entries.push((k, v));
                self.contents = Ghost(self.contents@.insert(k, v));
                let ghost n = self.entries@.len() - 1;
                assert(forall|k2: Axial| #[trigger]
                    self.contents@.contains_key(k2) ==> exists|j: int|
                        0 <= j < self.entries@.len() && self.entries@[j].0 == k2) by {
                    assert forall|k2: Axial| #[trigger]
                        self.contents@.contains_key(k2) implies exists|j: int|
                        0 <= j < self.entries@.len() && self.entries@[j].0 == k2 by {
                        if k2 == k {
                            assert(self.entries@[n].0 == k2);
                        } else {
                            assert(old(self)@.contains_key(k2));
                            let j = choose|j: int| 0 <= j < old(self).entries@.len() && old(self).entries@[j].0 == k2;
                            assert(self.entries@[j].0 == k2);
                        }
                    }
                }
                None
            },
        }
    }

    /// Empties the registry and keeps its allocation.
    pub fn clear(&mut self)
        requires
            old(self).wf(),
        ensures
            final(self).wf(),
            final(self)@ == Map::<Axial, Tile>::empty(),
    {
        self.entries.clear();
        self.contents = Ghost(Map::empty());
    }

    /// Copies every entry of `other` in, replacing the pieces at shared cells.
    pub fn extend(&mut self, other: &Tiles)
        requires
            old(self).wf(),
            other.wf(),
        ensures
            final(self).wf(),
            final(self)@ == old(self)@.union_prefer_right(other@),
    {
        let mut i: usize = 0;
        while i < other.entries.len()
            invariant
                self.wf(),
                other.wf(),
                i <= other.entries@.len(),
                self@ == old(self)@.union_prefer_right(
                    Map::new(
                        |k: Axial| exists|j: int| 0 <= j < i && other.entries@[j].0 == k,
                        |k: Axial| other@[k],
                    ),
                ),
            decreases other.entries@.len() - i,
        {
            let (k, v) = other.entries[i];
            self.insert(k, v);
            i = i + 1;
            proof {
                let part = Map::new(
                    |k2: Axial| exists|j: int| 0 <= j < i && other.entries@[j].0 == k2,
                    |k2: Axial| other@[k2],
                );
                assert(part.contains_key(k)) by {
                    assert(other.entries@[i - 1].0 == k);
                }
                assert(self@ =~= old(self)@.union_prefer_right(part));
            }
        }
        proof {
            let part = Map::new(
                |k2: Axial| exists|j: int| 0 <= j < i && other.entries@[j].0 == k2,
                |k2: Axial| other@[k2],
            );
            assert(part =~= other@);
        }
    }

    /// The entries, each cell once, in no particular order.
    pub fn iter(&self) -> (s: &[(Axial, Tile)])
        requires
            self.wf(),
        ensures
            s@.len() == self@.len(),
            forall|i: int| 0 <= i < s@.len() ==> #[trigger] self@.contains_key(s@[i].0) && self@[s@[i].0] == s@[i].1,
            forall|k: Axial| self@.contains_key(k) ==> exists|i: int| 0 <= i < s@.len() && s@[i].0 == k,
            forall|i: int, j: int| 0 <= i < j < s@.len() ==> s@[i].0 != s@[j].0,
    {
        self.entries.as_slice()
    }

    /// The occupied cells, each once, in no particular order.
    pub fn keys(&self) -> (v: Vec<Axial>)
        requires
            self.wf(),
        ensures
            v@.no_duplicates(),
            v@.to_set() == self@.dom(),
    {
        let mut v: Vec<Axial> = Vec::with_capacity(self.entries.len());
        let mut i: usize = 0;
        while i < self.entries.len()
            invariant
                self.wf(),
                i <= self.entries@.len(),
                v@.len() == i,
                forall|j: int| 0 <= j < i ==> v@[j] == self.entries@[j].0,
            decreases self.entries@.len() - i,
        {
            v.push(self.entries[i].0);
            i = i + 1;
        }
        assert(v@.to_set() =~= self@.dom()) by {
            assert forall|k: Axial| self@.contains_key(k) implies v@.contains(k) by {
                let j = choose|j: int| 0 <= j < self.entries@.len() && self.entries@[j].0 == k;
                assert(v@[j] == k);
            }
            assert forall|k: Axial| v@.contains(k) implies self@.contains_key(k) by {
                let j = choose|j: int| 0 <= j < v@.len() && v@[j] == k;
                assert(self@.contains_key(self.entries@[j].0));
            }
        }
        v
    }
}

} // verus!
