use crate::axial::{origin, Axial};
use crate::tile::{Colour, Tile, TileType, Tiles};
use vstd::prelude::*;

verus! {

/// The drawing of one piece, eight columns by five rows; `c` stands for the
/// colour and `x` for the kind of the piece.
pub open spec fn template(x: int, y: int) -> char {
    if y == 0 {
        if 2 <= x <= 5 { '_' } else { ' ' }
    } else if y == 1 {
        if x == 1 { '/' } else if x == 6 { '\\' } else { ' ' }
    } else if y == 2 {
        if x == 0 { '/' } else if x == 3 { 'c' } else if x == 7 { '\\' } else { ' ' }
    } else if y == 3 {
        if x == 0 { '\\' } else if x == 3 { 'x' } else if x == 7 { '/' } else { ' ' }
    } else {
        if x == 1 { '\\' } else if 2 <= x <= 5 { '_' } else if x == 6 { '/' } else { ' ' }
    }
}

pub open spec fn type_char(t: TileType) -> char {
    match t {
        TileType::Ant => 'a',
        TileType::Grasshopper => 'g',
        TileType::Beetle => 'b',
        TileType::Queen => 'q',
        TileType::Spider => 's',
    }
}

pub open spec fn colour_char(c: Colour) -> char {
    match c {
        Colour::White => 'w',
        Colour::Black => 'b',
    }
}

/// The character at `(x, y)` of the drawing of `tile`.
pub open spec fn glyph(tile: Tile, x: int, y: int) -> char {
    let t = template(x, y);
    if t == 'x' {
        type_char(tile.1)
    } else if t == 'c' {
        colour_char(tile.0)
    } else {
        t
    }
}

/// The row on which a cell is drawn, in half-rows: `q + 2r`.
pub open spec fn vpos(a: Axial) -> int {
    a.q + 2 * a.r
}

/// The cells that bound a drawing: the leftmost, rightmost, topmost and
/// bottommost of the pieces and the origin.
#[derive(Clone, Copy, Eq, PartialEq, Debug, Structural)]
pub struct Bounds {
    pub top: Axial,
    pub bottom: Axial,
    pub left: Axial,
    pub right: Axial,
}

/// `b` bounds the pieces and the origin, each side touching one of them.
pub open spec fn is_bounds(pieces: Map<Axial, Tile>, b: Bounds) -> bool {
    &&& b.left == origin() || pieces.contains_key(b.left)
    &&& b.right == origin() || pieces.contains_key(b.right)
    &&& b.top == origin() || pieces.contains_key(b.top)
    &&& b.bottom == origin() || pieces.contains_key(b.bottom)
    &&& b.left.q <= 0 && 0 <= b.right.q
    &&& vpos(b.top) <= 0 && 0 <= vpos(b.bottom)
    &&& forall|p: Axial|
        #[trigger] pieces.contains_key(p) ==> b.left.q <= p.q <= b.right.q && vpos(b.top) <= vpos(p)
            <= vpos(b.bottom)
}

/// Width of the drawing, without the line breaks.
pub open spec fn width_of(b: Bounds) -> int {
    8 + 6 * (b.right.q - b.left.q)
}

/// Height of the drawing.
pub open spec fn height_of(b: Bounds) -> int {
    5 + 2 * (vpos(b.bottom) - vpos(b.top))
}

/// First column of the drawing of the piece at `p`.
pub open spec fn box_col(b: Bounds, p: Axial) -> int {
    6 * (p.q - b.left.q)
}

/// First row of the drawing of the piece at `p`.
pub open spec fn box_row(b: Bounds, p: Axial) -> int {
    2 * (vpos(p) - vpos(b.top))
}

/// The drawing of the piece at `p` covers `(x, y)`.
pub open spec fn covers(b: Bounds, p: Axial, x: int, y: int) -> bool {
    box_col(b, p) <= x < box_col(b, p) + 8 && box_row(b, p) <= y < box_row(b, p) + 5
}

/// `a` is drawn after `b`, over it: pieces go from the bottom row up, and
/// from right to left within a row.
pub open spec fn drawn_after(a: Axial, b: Axial) -> bool {
    a.r < b.r || (a.r == b.r && a.q < b.q)
}

/// The piece at `p` is the one seen at `(x, y)`: it covers the cell and no
/// other covering piece is drawn after it.
pub open spec fn on_top(pieces: Map<Axial, Tile>, b: Bounds, p: Axial, x: int, y: int) -> bool {
    &&& pieces.contains_key(p)
    &&& covers(b, p, x, y)
    &&& forall|o: Axial|
        #[trigger] pieces.contains_key(o) && covers(b, o, x, y) && o != p ==> !drawn_after(o, p)
}

/// `c` is the character shown at `(x, y)`: a line break past the last
/// column, the drawing of the topmost piece there, or a blank.
pub open spec fn pixel(pieces: Map<Axial, Tile>, b: Bounds, x: int, y: int, c: char) -> bool {
    if x == width_of(b) {
        c == '\n'
    } else if exists|p: Axial| #[trigger] pieces.contains_key(p) && covers(b, p, x, y) {
        exists|p: Axial|
            #[trigger] on_top(pieces, b, p, x, y) && c == glyph(
                pieces[p],
                x - box_col(b, p),
                y - box_row(b, p),
            )
    } else {
        c == ' '
    }
}

/// `s` is the drawing of the pieces within `b`, row after row, each row
/// ended by a line break.
pub open spec fn drawing(pieces: Map<Axial, Tile>, b: Bounds, s: Seq<char>) -> bool {
    let w = width_of(b) + 1;
    &&& s.len() == w * height_of(b)
    &&& forall|y: int, x: int|
        0 <= y < height_of(b) && 0 <= x < w ==> #[trigger] pixel(pieces, b, x, y, s[y * w + x])
}

/// Relies on `String::push`: appends `c` to the end of `s`.
#[verifier::external_body]
fn push_char(s: &mut String, c: char)
    ensures
        final(s)@ == old(s)@.push(c),
{
    s.push(c)
}

fn template_char(x: usize, y: usize) -> (c: char)
    requires
        x < 8,
        y < 5,
    ensures
        c == template(x as int, y as int),
{
    if y == 0 {
        if 2 <= x && x <= 5 { '_' } else { ' ' }
    } else if y == 1 {
        if x == 1 { '/' } else if x == 6 { '\\' } else { ' ' }
    } else if y == 2 {
        if x == 0 { '/' } else if x == 3 { 'c' } else if x == 7 { '\\' } else { ' ' }
    } else if y == 3 {
        if x == 0 { '\\' } else if x == 3 { 'x' } else if x == 7 { '/' } else { ' ' }
    } else {
        if x == 1 { '\\' } else if 2 <= x && x <= 5 { '_' } else if x == 6 { '/' } else { ' ' }
    }
}

fn tile_type_to_char(tile_type: TileType) -> (c: char)
    ensures
        c == type_char(tile_type),
{
    match tile_type {
        TileType::Ant => 'a',
        TileType::Grasshopper => 'g',
        TileType::Beetle => 'b',
        TileType::Queen => 'q',
        TileType::Spider => 's',
    }
}

fn colour_to_char(colour: Colour) -> (c: char)
    ensures
        c == colour_char(colour),
{
    match colour {
        Colour::White => 'w',
        Colour::Black => 'b',
    }
}

fn glyph_char(tile: Tile, x: usize, y: usize) -> (c: char)
    requires
        x < 8,
        y < 5,
    ensures
        c == glyph(tile, x as int, y as int),
{
    let t = template_char(x, y);
    if t == 'x' {
        tile_type_to_char(tile.1)
    } else if t == 'c' {
        colour_to_char(tile.0)
    } else {
        t
    }
}

fn vertical(a: Axial) -> (v: i32)
    ensures
        v == vpos(a),
{
    a.q as i32 + 2 * (a.r as i32)
}

impl Bounds {
    pub fn zero() -> (b: Bounds)
        ensures
            b.top == origin() && b.bottom == origin() && b.left
                == origin() && b.right == origin(),
    {
        Bounds::new(Axial::zero(), Axial::zero(), Axial::zero(), Axial::zero())
    }

    pub fn new(top: Axial, bottom: Axial, left: Axial, right: Axial) -> (b: Bounds)
        ensures
            b.top == top,
            b.bottom == bottom,
            b.left == left,
            b.right == right,
    {
        Bounds { top: top, bottom: bottom, left: left, right: right }
    }

    /// The bounds of the pieces and the origin.
    pub fn from_tiles(tiles: &Tiles) -> (b: Bounds)
        requires
            tiles.wf(),
        ensures
            is_bounds(tiles@, b),
    {
        let entries = tiles.iter();
        let mut b = Bounds::zero();
        let mut i: usize = 0;
        while i < entries.len()
            invariant
                tiles.wf(),
                forall|k: int|
                    0 <= k < entries@.len() ==> #[trigger] tiles@.contains_key(entries@[k].0),
                forall|k: Axial|
                    tiles@.contains_key(k) ==> exists|j: int| 0 <= j < entries@.len() && entries@[j].0 == k,
                i <= entries@.len(),
                b.left == origin() || tiles@.contains_key(b.left),
                b.right == origin() || tiles@.contains_key(b.right),
                b.top == origin() || tiles@.contains_key(b.top),
                b.bottom == origin() || tiles@.contains_key(b.bottom),
                b.left.q <= 0 && 0 <= b.right.q,
                vpos(b.top) <= 0 && 0 <= vpos(b.bottom),
                forall|j: int|
                    0 <= j < i ==> b.left.q <= (#[trigger] entries@[j]).0.q <= b.right.q && vpos(b.top)
                        <= vpos(entries@[j].0) <= vpos(b.bottom),
            decreases entries@.len() - i,
        {
            let pos = entries[i].0;
            if b.left.q > pos.q {
                b.left = pos;
            }
            if b.right.q < pos.q {
                b.right = pos;
            }
            if vertical(b.top) > vertical(pos) {
                b.top = pos;
            }
            if vertical(b.bottom) < vertical(pos) {
                b.bottom = pos;
            }
            i = i + 1;
        }
        proof {
            assert forall|p: Axial| #[trigger] tiles@.contains_key(p) implies b.left.q <= p.q <= b.right.q
                && vpos(b.top) <= vpos(p) <= vpos(b.bottom) by {
                let j = choose|j: int| 0 <= j < entries@.len() && entries@[j].0 == p;
                assert(b.left.q <= (entries@[j]).0.q);
            }
        }
        b
    }

    /// Width of the drawing, without the line breaks.
    fn characters_wide(&self) -> (w: usize)
        requires
            self.left.q <= self.right.q,
        ensures
            w == width_of(*self),
    {
        // A drawing is eight columns wide, and each step in `q` moves six.
        let width = self.right.q as i32 - self.left.q as i32;
        (8 + width * 6) as usize
    }

    /// Height of the drawing.
    fn characters_high(&self) -> (h: usize)
        requires
            vpos(self.top) <= vpos(self.bottom),
        ensures
            h == height_of(*self),
    {
        // A drawing is five rows high; a step in `q` moves two rows, one in
        // `r` four.
        let qheight = self.bottom.q as i32 - self.top.q as i32;
        let rheight = self.bottom.r as i32 - self.top.r as i32;
        (5 + qheight * 2 + rheight * 4) as usize
    }
}

/// A grid of characters, `width` by `height`, stored row after row.
pub struct CharacterBuffer2D {
    pub buffer: Vec<char>,
    width: usize,
    height: usize,
}

/// The index of a cell of a `w` by `h` grid lies below `w * h`.
proof fn lemma_cell_in_grid(x: int, y: int, w: int, h: int)
    requires
        0 <= x < w,
        0 <= y < h,
    ensures
        x + y * w < w * h,
{
    assert(x + y * w < w * h) by (nonlinear_arith)
        requires
            0 <= x < w,
            0 <= y < h,
    ;
}

/// Two rows of one column are kept apart.
proof fn lemma_rows_apart(y0: int, y: int, w: int)
    requires
        0 <= y0 < y,
        w > 0,
    ensures
        y0 * w < y * w,
{
    assert(y0 * w < y * w) by (nonlinear_arith)
        requires
            0 <= y0 < y,
            w > 0,
    ;
}

impl CharacterBuffer2D {
    /// The characters held, row after row.
    pub closed spec fn cells(&self) -> Seq<char> {
        self.buffer@
    }

    pub closed spec fn width_spec(&self) -> int {
        self.width as int
    }

    pub closed spec fn height_spec(&self) -> int {
        self.height as int
    }

    /// Where `(x, y)` is kept in `buffer`.
    pub open spec fn index_of(&self, x: int, y: int) -> int {
        x + y * self.width_spec()
    }

    /// A grid of blanks.
    pub fn new(width: usize, height: usize) -> (b: CharacterBuffer2D)
        requires
            width * height <= usize::MAX,
        ensures
            b.width_spec() == width,
            b.height_spec() == height,
            b.cells().len() == width * height,
            forall|i: int| 0 <= i < b.cells().len() ==> b.cells()[i] == ' ',
    {
        let n = width * height;
        let mut buffer: Vec<char> = Vec::new();
        let mut i: usize = 0;
        while i < n
            invariant
                i <= n,
                buffer@.len() == i,
                forall|j: int| 0 <= j < i ==> buffer@[j] == ' ',
            decreases n - i,
        {
            buffer.push(' ');
            i = i + 1;
        }
        CharacterBuffer2D { buffer: buffer, width: width, height: height }
    }

    pub fn set(&mut self, x: usize, y: usize, val: char)
        requires
            old(self).index_of(x as int, y as int) < old(self).cells().len(),
        ensures
            final(self).width_spec() == old(self).width_spec(),
            final(self).height_spec() == old(self).height_spec(),
            final(self).cells() == old(self).cells().update(old(self).index_of(x as int, y as int), val),
    {
        let n = self.buffer.len();
        self.buffer.set(x + (y * self.width), val);
    }

    /// Writes `val` in every row of column `col`.
    pub fn set_column(&mut self, col: usize, val: char)
        requires
            col < old(self).width_spec(),
            old(self).width_spec() * old(self).height_spec() <= old(self).cells().len(),
        ensures
            final(self).width_spec() == old(self).width_spec(),
            final(self).height_spec() == old(self).height_spec(),
            final(self).cells().len() == old(self).cells().len(),
            forall|y: int|
                0 <= y < old(self).height_spec() ==> final(self).cells()[old(self).index_of(col as int, y)]
                    == val,
            forall|i: int|
                0 <= i < old(self).cells().len() && (forall|y: int|
                    0 <= y < old(self).height_spec() ==> i != #[trigger] old(self).index_of(col as int, y))
                    ==> final(self).cells()[i] == old(self).cells()[i],
    {
        let ghost orig = self.cells();
        let ghost w = self.width_spec();
        let mut y: usize = 0;
        while y < self.height
            invariant
                col < w,
                w == self.width_spec(),
                w * self.height_spec() <= self.cells().len(),
                self.width_spec() == old(self).width_spec(),
                self.height_spec() == old(self).height_spec(),
                orig == old(self).cells(),
                self.cells().len() == orig.len(),
                y <= self.height,
                forall|y0: int| 0 <= y0 < y ==> self.cells()[#[trigger] (col + y0 * w)] == val,
                forall|i: int|
                    0 <= i < orig.len() && (forall|y0: int| 0 <= y0 < y ==> i != #[trigger] (col + y0 * w))
                        ==> self.cells()[i] == orig[i],
            decreases self.height - y,
        {
            proof {
                lemma_cell_in_grid(col as int, y as int, w, self.height as int);
            }
            let ghost before = self.cells();
            self.set(col, y, val);
            proof {
                assert(self.cells() == before.update(col + y * w, val));
                assert forall|y0: int| 0 <= y0 < y + 1 implies self.cells()[#[trigger] (col + y0 * w)] == val by {
                    if y0 < y {
                        lemma_rows_apart(y0, y as int, w);
                        assert(before[col + y0 * w] == val);
                    }
                }
                assert forall|i: int|
                    0 <= i < orig.len() && (forall|y0: int| 0 <= y0 < y + 1 ==> i != #[trigger] (col + y0 * w))
                        implies self.cells()[i] == orig[i] by {
                    assert(i != col + y * w);
                    assert(forall|y0: int| 0 <= y0 < y ==> i != #[trigger] (col + y0 * w));
                    assert(before[i] == orig[i]);
                }
            }
            y = y + 1;
        }
        proof {
            assert forall|y0: int| 0 <= y0 < old(self).height_spec() implies self.cells()[old(self).index_of(col as int, y0)] == val by {
                assert(self.cells()[col + y0 * w] == val);
            }
            assert forall|i: int|
                0 <= i < old(self).cells().len() && (forall|y0: int|
                    0 <= y0 < old(self).height_spec() ==> i != #[trigger] old(self).index_of(col as int, y0))
                    implies self.cells()[i] == old(self).cells()[i] by {
                assert forall|y0: int| 0 <= y0 < y implies i != #[trigger] (col + y0 * w) by {
                    assert(i != old(self).index_of(col as int, y0));
                }
            }
        }
    }

    pub fn get(&self, x: usize, y: usize) -> (c: char)
        requires
            self.index_of(x as int, y as int) < self.cells().len(),
        ensures
            c == self.cells()[self.index_of(x as int, y as int)],
    {
        let n = self.buffer.len();
        self.buffer[x + (y * self.width)]
    }

    /// The characters of the grid, row after row.
    pub fn to_string(&self) -> (s: String)
        ensures
            s@ == self.cells(),
    {
        let mut s = String::new();
        let mut i: usize = 0;
        while i < self.buffer.len()
            invariant
                i <= self.cells().len(),
                s@ == self.cells().subrange(0, i as int),
            decreases self.cells().len() - i,
        {
            push_char(&mut s, self.buffer[i]);
            i = i + 1;
            assert(s@ =~= self.cells().subrange(0, i as int));
        }
        assert(self.cells().subrange(0, i as int) =~= self.cells());
        s
    }
}

/// `entries` holds every piece of `pieces` with its cell.
pub open spec fn lists(pieces: Map<Axial, Tile>, entries: Seq<(Axial, Tile)>) -> bool {
    &&& forall|i: int|
        0 <= i < entries.len() ==> #[trigger] pieces.contains_key(entries[i].0) && pieces[entries[i].0]
            == entries[i].1
    &&& forall|k: Axial| pieces.contains_key(k) ==> exists|i: int| 0 <= i < entries.len() && entries[i].0 == k
}

/// Rows before row `y` end before any cell of row `y` begins.
proof fn lemma_earlier_row(y0: int, x0: int, y: int, w: int)
    requires
        0 <= y0 < y,
        0 <= x0 < w,
    ensures
        y0 * w + x0 < y * w,
{
    assert(y0 * w + x0 < y * w) by (nonlinear_arith)
        requires
            0 <= y0 < y,
            0 <= x0 < w,
    ;
}

/// Whether the drawing of the piece at `p` covers `(x, y)`.
fn covers_at(b: &Bounds, p: Axial, x: usize, y: usize) -> (r: bool)
    requires
        x < 4096,
        y < 4096,
    ensures
        r == covers(*b, p, x as int, y as int),
{
    let col = 6 * (p.q as i32 - b.left.q as i32);
    let row = 2 * (vertical(p) - vertical(b.top));
    col <= x as i32 && (x as i32) < col + 8 && row <= y as i32 && (y as i32) < row + 5
}

/// The index of the entry whose piece is seen at `(x, y)`, if any piece
/// covers it.
fn top_piece(tiles: &Tiles, entries: &[(Axial, Tile)], b: &Bounds, x: usize, y: usize) -> (r: Option<usize>)
    requires
        tiles.wf(),
        x < 4096,
        y < 4096,
        lists(tiles@, entries@),
    ensures
        match r {
            Some(i) => i < entries@.len() && on_top(tiles@, *b, entries@[i as int].0, x as int, y as int),
            None => forall|p: Axial|
                #[trigger] tiles@.contains_key(p) ==> !covers(*b, p, x as int, y as int),
        },
{
    let mut best: Option<usize> = None;
    let mut i: usize = 0;
    while i < entries.len()
        invariant
            x < 4096,
            y < 4096,
            i <= entries@.len(),
            match best {
                Some(k) => k < i && covers(*b, entries@[k as int].0, x as int, y as int),
                None => true,
            },
            forall|j: int|
                0 <= j < i && covers(*b, (#[trigger] entries@[j]).0, x as int, y as int) ==> match best {
                    Some(k) => entries@[j].0 == entries@[k as int].0 || !drawn_after(
                        entries@[j].0,
                        entries@[k as int].0,
                    ),
                    None => false,
                },
        decreases entries@.len() - i,
    {
        let p = entries[i].0;
        if covers_at(b, p, x, y) {
            match best {
                None => {
                    best = Some(i);
                },
                Some(k) => {
                    let q = entries[k].0;
                    if p.r < q.r || (p.r == q.r && p.q < q.q) {
                        best = Some(i);
                    }
                },
            }
        }
        i = i + 1;
    }
    match best {
        None => {
            proof {
                assert forall|p: Axial| #[trigger] tiles@.contains_key(p) implies !covers(*b, p, x as int, y as int) by {
                    let j = choose|j: int| 0 <= j < entries@.len() && entries@[j].0 == p;
                    assert(covers(*b, entries@[j].0, x as int, y as int) ==> false);
                }
            }
            None
        },
        Some(k) => {
            proof {
                let top = entries@[k as int].0;
                assert(tiles@.contains_key(top));
                assert forall|o: Axial|
                    #[trigger] tiles@.contains_key(o) && covers(*b, o, x as int, y as int) && o != top
                        implies !drawn_after(o, top) by {
                    let j = choose|j: int| 0 <= j < entries@.len() && entries@[j].0 == o;
                    assert(covers(*b, entries@[j].0, x as int, y as int));
                }
            }
            Some(k)
        },
    }
}

impl Tiles {
    /// Draws the pieces as text: each piece as a hexagon showing its colour
    /// and kind, rows ended by line breaks.
    pub fn render(&self) -> (s: String)
        requires
            self.wf(),
        ensures
            exists|b: Bounds| is_bounds(self@, b) && drawing(self@, b, s@),
    {
        let b = Bounds::from_tiles(self);
        let width = b.characters_wide();
        let height = b.characters_high();
        let entries = self.iter();
        let ghost w1 = width + 1;
        let mut s = String::new();
        let mut y: usize = 0;
        while y < height
            invariant
                self.wf(),
                is_bounds(self@, b),
                width == width_of(b),
                height == height_of(b),
                w1 == width + 1,
                width < 2048,
                height < 2048,
                lists(self@, entries@),
                y <= height,
                s@.len() == y * w1,
                forall|y0: int, x0: int|
                    0 <= y0 < y && 0 <= x0 < w1 ==> #[trigger] pixel(self@, b, x0, y0, s@[y0 * w1 + x0]),
            decreases height - y,
        {
            let mut x: usize = 0;
            while x <= width
                invariant
                    self.wf(),
                    is_bounds(self@, b),
                    width == width_of(b),
                    height == height_of(b),
                    w1 == width + 1,
                    width < 2048,
                    height < 2048,
                    lists(self@, entries@),
                    y < height,
                    x <= w1,
                    s@.len() == y * w1 + x,
                    forall|y0: int, x0: int|
                        0 <= y0 < y && 0 <= x0 < w1 ==> #[trigger] pixel(self@, b, x0, y0, s@[y0 * w1 + x0]),
                    forall|x0: int| 0 <= x0 < x ==> #[trigger] pixel(self@, b, x0, y as int, s@[y * w1 + x0]),
                decreases w1 - x,
            {
                let c = if x == width {
                    '\n'
                } else {
                    match top_piece(self, entries, &b, x, y) {
                        Some(i) => {
                            let p = entries[i].0;
                            let col = 6 * (p.q as i32 - b.left.q as i32);
                            let row = 2 * (vertical(p) - vertical(b.top));
                            let c = glyph_char(entries[i].1, (x as i32 - col) as usize, (y as i32 - row) as usize);
                            proof {
                                assert(self@.contains_key(p) && covers(b, p, x as int, y as int));
                                assert(on_top(self@, b, p, x as int, y as int) && c == glyph(
                                    self@[p],
                                    x - box_col(b, p),
                                    y - box_row(b, p),
                                ));
                            }
                            c
                        },
                        None => ' ',
                    }
                };
                assert(pixel(self@, b, x as int, y as int, c));
                let ghost before = s@;
                push_char(&mut s, c);
                proof {
                    assert forall|y0: int, x0: int|
                        0 <= y0 < y && 0 <= x0 < w1 implies #[trigger] pixel(self@, b, x0, y0, s@[y0 * w1 + x0]) by {
                        lemma_earlier_row(y0, x0, y as int, w1);
                        assert(s@[y0 * w1 + x0] == before[y0 * w1 + x0]);
                    }
                    assert forall|x0: int| 0 <= x0 < x + 1 implies #[trigger] pixel(self@, b, x0, y as int, s@[y * w1 + x0]) by {
                        if x0 < x {
                            assert(s@[y * w1 + x0] == before[y * w1 + x0]);
                        }
                    }
                }
                x = x + 1;
            }
            proof {
                assert(s@.len() == (y + 1) * w1) by (nonlinear_arith)
                    requires
                        s@.len() == y * w1 + w1,
                ;
                assert forall|y0: int, x0: int|
                    0 <= y0 < y + 1 && 0 <= x0 < w1 implies #[trigger] pixel(self@, b, x0, y0, s@[y0 * w1 + x0]) by {
                    if y0 == y {
                        assert(pixel(self@, b, x0, y as int, s@[y * w1 + x0]));
                    }
                }
            }
            y = y + 1;
        }
        proof {
            assert(s@.len() == w1 * height) by (nonlinear_arith)
                requires
                    s@.len() == y * w1,
                    y == height,
            ;
            assert(drawing(self@, b, s@));
        }
        s
    }
}

} // verus!
