use vstd::prelude::*;
use crate::components::Coordinates;
use crate::tile_map::{lemma_flat_bound, lemma_flat_index, lemma_flat_inj, BoardError, TileMap, TileMapView};
use vstd::arithmetic::div_mod::lemma_fundamental_div_mod_converse;

verus! {

/// An opaque handle that the presentation layer gives to something it drew.
#[derive(Debug, Copy, Clone, PartialEq, Eq, Structural, PartialOrd, Ord, Hash)]
pub struct EntityId(pub u64);

/// An axis-aligned rectangle in whole world units: its bottom-left corner and its size.
#[derive(Debug, Copy, Clone, PartialEq, Eq, Structural)]
pub struct Bounds2 {
    pub x: i64,
    pub y: i64,
    pub width: i64,
    pub height: i64,
}

impl Bounds2 {
    /// The point `(px, py)` lies in the rectangle; its left and bottom edges included,
    /// its right and top edges not.
    pub open spec fn contains(&self, px: int, py: int) -> bool {
        self.x <= px < self.x + self.width && self.y <= py < self.y + self.height
    }

    pub fn in_bounds(&self, px: i64, py: i64) -> (r: bool)
        ensures
            r == self.contains(px as int, py as int),
    {
        let dx = px as i128 - self.x as i128;
        let dy = py as i128 - self.y as i128;
        0 <= dx && dx < self.width as i128 && 0 <= dy && dy < self.height as i128
    }
}

/// The mathematical picture of a board: its tiles, where it lies in the world, and
/// the cover handle of each cell that is still covered.
pub struct BoardView {
    pub tiles: TileMapView,
    pub bounds: Bounds2,
    pub tile_size: int,
    pub covered: Map<Coordinates, EntityId>,
    pub entity: EntityId,
}

impl BoardView {
    pub open spec fn wf(&self) -> bool {
        &&& self.tiles.wf()
        &&& self.tiles.total_bombs() == self.tiles.bomb_count
        &&& self.tiles.classified()
        &&& 0 < self.tile_size <= u32::MAX
        &&& i32::MIN <= self.bounds.x <= i32::MAX
        &&& i32::MIN <= self.bounds.y <= i32::MAX
        &&& self.bounds.width == self.tiles.width * self.tile_size
        &&& self.bounds.height == self.tiles.height * self.tile_size
        &&& forall|c: Coordinates| #[trigger] self.covered.contains_key(c) ==> self.tiles.in_grid(c.x as int, c.y as int)
    }

    /// The cell under the world point `(px, py)`, if the point lies on the board.
    pub open spec fn coordinate_of(&self, px: int, py: int) -> Option<Coordinates> {
        if self.bounds.contains(px, py) {
            Some(Coordinates {
                x: ((px - self.bounds.x) / self.tile_size) as u16,
                y: ((py - self.bounds.y) / self.tile_size) as u16,
            })
        } else {
            None
        }
    }

    /// The world point at the centre of cell `c`.
    pub open spec fn center_of(&self, c: Coordinates) -> (int, int) {
        (
            self.bounds.x + c.x * self.tile_size + self.tile_size / 2,
            self.bounds.y + c.y * self.tile_size + self.tile_size / 2,
        )
    }

    /// The cover handle of `c`, if `c` is still covered.
    pub open spec fn cover(&self, c: Coordinates) -> Option<EntityId> {
        if self.covered.contains_key(c) {
            Some(self.covered[c])
        } else {
            None
        }
    }

    /// The cover handles of the cells of `s` that are still covered, in order.
    pub open spec fn covered_handles(&self, s: Seq<Coordinates>) -> Seq<EntityId>
        decreases s.len(),
    {
        if s.len() == 0 {
            seq![]
        } else {
            self.covered_handles(s.drop_last()) + match self.cover(s.last()) {
                Some(h) => seq![h],
                None => seq![],
            }
        }
    }

    /// The board once `c` is uncovered.
    pub open spec fn after_uncover(&self, c: Coordinates) -> BoardView {
        BoardView { covered: self.covered.remove(c), ..*self }
    }

    /// The number of covered cells among the first `n` cells in row-major order.
    pub open spec fn covered_before(&self, n: int) -> nat
        decreases n,
    {
        if n <= 0 {
            0
        } else {
            self.covered_before(n - 1) + if self.covered.contains_key(cell_at(n - 1, self.tiles.width)) {
                1nat
            } else {
                0
            }
        }
    }

    /// The number of covered cells.
    pub open spec fn covered_cells(&self) -> nat {
        self.covered_before(self.tiles.width * self.tiles.height)
    }

    /// Every safe cell is uncovered.
    pub open spec fn won(&self) -> bool {
        forall|c: Coordinates|
            self.tiles.in_grid(c.x as int, c.y as int) && !self.tiles.bomb_at(c.x as int, c.y as int)
                ==> !#[trigger] self.covered.contains_key(c)
    }
}

/// Uncovering a cell a second time finds no cover and leaves the board as it was.
pub proof fn lemma_uncover_idempotent(v: BoardView, c: Coordinates)
    ensures
        v.after_uncover(c).cover(c) is None,
        v.after_uncover(c).after_uncover(c) == v.after_uncover(c),
{
    assert(v.after_uncover(c).covered.remove(c) =~= v.after_uncover(c).covered);
}

/// Uncovering `c` takes one cell off the count of covered cells if `c` was covered, and
/// none otherwise.
pub proof fn lemma_uncover_count(v: BoardView, c: Coordinates)
    requires
        v.wf(),
    ensures
        v.after_uncover(c).covered_cells() + (if v.covered.contains_key(c) { 1nat } else { 0 }) == v.covered_cells(),
{
    let w = v.tiles.width;
    let h = v.tiles.height;
    if v.covered.contains_key(c) {
        lemma_flat_bound(c.x as int, c.y as int, w, h);
    }
    lemma_covered_before_remove(v, c, w * h);
}

proof fn lemma_covered_before_remove(v: BoardView, c: Coordinates, n: int)
    requires
        v.wf(),
        0 <= n <= v.tiles.width * v.tiles.height,
    ensures
        v.after_uncover(c).covered_before(n) + (if v.covered.contains_key(c) && flat(c, v.tiles.width) < n {
            1nat
        } else {
            0
        }) == v.covered_before(n),
    decreases n,
{
    let w = v.tiles.width;
    if n > 0 {
        lemma_covered_before_remove(v, c, n - 1);
        let i = n - 1;
        lemma_flat_index(i, w, v.tiles.height);
        let cell = cell_at(i, w);
        assert(cell.x == i % w && cell.y == i / w);
        if v.covered.contains_key(c) {
            if cell == c {
                assert(flat(c, w) == i);
            } else if flat(c, w) == i {
                lemma_flat_inj(c.x as int, c.y as int, cell.x as int, cell.y as int, w);
            }
        }
    }
}

/// The centre of every cell of the board maps back to that cell.
pub proof fn lemma_pixel_round_trip(v: BoardView, c: Coordinates)
    requires
        v.wf(),
        v.tiles.in_grid(c.x as int, c.y as int),
    ensures
        v.coordinate_of(v.center_of(c).0, v.center_of(c).1) == Some(c),
{
    let ts = v.tile_size;
    let (px, py) = v.center_of(c);
    let w = v.tiles.width;
    let h = v.tiles.height;
    assert(0 <= c.x * ts + ts / 2 < w * ts) by (nonlinear_arith)
        requires
            0 <= c.x < w,
            ts > 0,
    ;
    assert(0 <= c.y * ts + ts / 2 < h * ts) by (nonlinear_arith)
        requires
            0 <= c.y < h,
            ts > 0,
    ;
    lemma_fundamental_div_mod_converse(c.x * ts + ts / 2, ts, c.x as int, ts / 2);
    lemma_fundamental_div_mod_converse(c.y * ts + ts / 2, ts, c.y as int, ts / 2);
}

/// A board in play: its tiles, where it lies in the world, and the cover still drawn
/// over each covered cell, stored row by row.
#[derive(Debug)]
pub struct Board {
    tile_map: TileMap,
    bounds: Bounds2,
    tile_size: u32,
    covered_tiles: Vec<Option<EntityId>>,
    entity: EntityId,
}

/// The cell at row-major position `i` of a `width`-wide grid.
pub open spec fn cell_at(i: int, width: int) -> Coordinates {
    Coordinates { x: (i % width) as u16, y: (i / width) as u16 }
}

pub open spec fn flat(c: Coordinates, width: int) -> int {
    c.y * width + c.x
}

impl View for Board {
    type V = BoardView;

    closed spec fn view(&self) -> BoardView {
        let w = self.tile_map@.width;
        BoardView {
            tiles: self.tile_map@,
            bounds: self.bounds,
            tile_size: self.tile_size as int,
            covered: Map::new(
                |c: Coordinates|
                    self.tile_map@.in_grid(c.x as int, c.y as int) && self.covered_tiles@[flat(c, w)] is Some,
                |c: Coordinates| self.covered_tiles@[flat(c, w)]->Some_0,
            ),
            entity: self.entity,
        }
    }
}

impl Board {
    pub open spec fn wf(&self) -> bool {
        self@.wf() && self.inner_wf()
    }

    pub closed spec fn inner_wf(&self) -> bool {
        &&& self.tile_map.wf()
        &&& self.covered_tiles@.len() == self@.tiles.width * self@.tiles.height
    }

    proof fn lemma_index(&self, c: Coordinates)
        requires
            self.wf(),
            self@.tiles.in_grid(c.x as int, c.y as int),
        ensures
            0 <= flat(c, self@.tiles.width) < self.covered_tiles@.len(),
            self@.cover(c) == self.covered_tiles@[flat(c, self@.tiles.width)],
    {
        lemma_flat_bound(c.x as int, c.y as int, self@.tiles.width, self@.tiles.height);
    }

    fn index_of(&self, c: Coordinates) -> (r: usize)
        requires
            self.wf(),
            self@.tiles.in_grid(c.x as int, c.y as int),
        ensures
            r == flat(c, self@.tiles.width),
            r < self.covered_tiles@.len(),
            self@.cover(c) == self.covered_tiles@[r as int],
    {
        proof {
            self.lemma_index(c);
        }
        let w = self.tile_map.width();
        proof {
            lemma_flat_bound(c.x as int, c.y as int, w as int, self@.tiles.height);
            assert(w as int * self@.tiles.height <= u16::MAX as int * u16::MAX as int) by (nonlinear_arith)
                requires
                    w <= u16::MAX,
                    self@.tiles.height <= u16::MAX,
            ;
            assert(c.y as int * w as int <= c.y as int * w as int + c.x as int);
        }
        (c.y as u32 * w as u32 + c.x as u32) as usize
    }

    /// Lays the tiles of `tile_map` out in the world, each cell `tile_size` units wide,
    /// the bottom-left corner at `(x, y)`, and covers every cell; `covers` gives the
    /// cover handles row by row. Fails where `tile_size` is zero or `covers` does not
    /// hold one handle per cell.
    pub fn new(tile_map: TileMap, x: i32, y: i32, tile_size: u32, covers: Vec<EntityId>, entity: EntityId) -> (r: Result<Board, BoardError>)
        requires
            tile_map.wf(),
        ensures
            (tile_size == 0 || covers@.len() != tile_map@.width * tile_map@.height) <==> r is Err,
            r is Err ==> r == Err::<Board, BoardError>(BoardError::InvalidLayout),
            r is Ok ==> {
                let b = r->Ok_0;
                &&& b.wf()
                &&& b@.tiles == tile_map@
                &&& b@.bounds == (Bounds2 {
                    x: x as i64,
                    y: y as i64,
                    width: (tile_map@.width * tile_size) as i64,
                    height: (tile_map@.height * tile_size) as i64,
                })
                &&& b@.tile_size == tile_size
                &&& b@.entity == entity
                &&& forall|c: Coordinates| #[trigger] b@.covered.contains_key(c) <==> tile_map@.in_grid(c.x as int, c.y as int)
                &&& forall|c: Coordinates| tile_map@.in_grid(c.x as int, c.y as int) ==> #[trigger] b@.covered[c]
                    == covers@[flat(c, tile_map@.width)]
            },
    {
        let w = tile_map.width();
        let h = tile_map.height();
        proof {
            assert(w as int * h as int <= u16::MAX as int * u16::MAX as int) by (nonlinear_arith)
                requires
                    w <= u16::MAX,
                    h <= u16::MAX,
            ;
            assert(w as int * tile_size as int <= u16::MAX as int * u32::MAX as int) by (nonlinear_arith)
                requires
                    w <= u16::MAX,
            ;
            assert(h as int * tile_size as int <= u16::MAX as int * u32::MAX as int) by (nonlinear_arith)
                requires
                    h <= u16::MAX,
            ;
        }
        if tile_size == 0 || covers.len() != w as usize * h as usize {
            return Err(BoardError::InvalidLayout);
        }
        let mut covered_tiles: Vec<Option<EntityId>> = Vec::new();
        let mut i: usize = 0;
        while i < covers.len()
            invariant
                i <= covers@.len(),
                covered_tiles@.len() == i,
                forall|j: int| 0 <= j < i ==> #[trigger] covered_tiles@[j] == Some(covers@[j]),
            decreases covers@.len() - i,
        {
            covered_tiles.push(Some(covers[i]));
            i = i + 1;
        }
        let bounds = Bounds2 {
            x: x as i64,
            y: y as i64,
            width: w as i64 * tile_size as i64,
            height: h as i64 * tile_size as i64,
        };
        let b = Board { tile_map, bounds, tile_size, covered_tiles, entity };
        proof {
            assert forall|c: Coordinates| tile_map@.in_grid(c.x as int, c.y as int) implies #[trigger] b@.covered.contains_key(c) by {
                lemma_flat_bound(c.x as int, c.y as int, w as int, h as int);
            }
            assert forall|c: Coordinates| tile_map@.in_grid(c.x as int, c.y as int) implies #[trigger] b@.covered[c]
                == covers@[flat(c, tile_map@.width)] by {
                lemma_flat_bound(c.x as int, c.y as int, w as int, h as int);
            }
        }
        Ok(b)
    }

    pub fn tile_map(&self) -> (r: &TileMap)
        requires
            self.wf(),
        ensures
            r@ == self@.tiles,
            r.wf(),
    {
        &self.tile_map
    }

    pub fn bounds(&self) -> (r: Bounds2)
        ensures
            r == self@.bounds,
    {
        self.bounds
    }

    pub fn tile_size(&self) -> (r: u32)
        ensures
            r == self@.tile_size,
    {
        self.tile_size
    }

    pub fn entity(&self) -> (r: EntityId)
        ensures
            r == self@.entity,
    {
        self.entity
    }

    /// The cover handle of `coordinates` if that cell is still covered; the board is
    /// left as it is.
    pub fn tile_to_uncover(&self, coordinates: Coordinates) -> (r: Option<EntityId>)
        requires
            self.wf(),
        ensures
            r == self@.cover(coordinates),
    {
        if coordinates.x >= self.tile_map.width() || coordinates.y >= self.tile_map.height() {
            return None;
        }
        self.covered_tiles[self.index_of(coordinates)]
    }

    /// Uncovers `coordinates` and hands back its cover handle; `None`, with nothing
    /// changed, where the cell is already uncovered or off the board.
    pub fn try_uncover_tile(&mut self, coordinates: Coordinates) -> (r: Option<EntityId>)
        requires
            old(self).wf(),
        ensures
            final(self).wf(),
            r == old(self)@.cover(coordinates),
            final(self)@ == old(self)@.after_uncover(coordinates),
            final(self)@.covered_cells() + (if r is Some { 1nat } else { 0 }) == old(self)@.covered_cells(),
            final(self)@.covered == old(self)@.covered.remove(coordinates),
            final(self)@.tiles == old(self)@.tiles,
            final(self)@.bounds == old(self)@.bounds,
            final(self)@.tile_size == old(self)@.tile_size,
            final(self)@.entity == old(self)@.entity,
    {
        if coordinates.x >= self.tile_map.width() || coordinates.y >= self.tile_map.height() {
            assert(self@.covered.remove(coordinates) =~= self@.covered);
            assert(self@.after_uncover(coordinates) == self@);
            proof {
                lemma_uncover_count(self@, coordinates);
            }
            return None;
        }
        let w = self.tile_map.width();
        let i = self.index_of(coordinates);
        let r = self.covered_tiles[i];
        let ghost pre = self@;
        proof {
            lemma_uncover_count(pre, coordinates);
        }
        self.covered_tiles.set(i, None);
        proof {
            assert forall|c: Coordinates| #[trigger] self@.covered.contains_key(c) == pre.covered.remove(coordinates).contains_key(c)
                && (self@.covered.contains_key(c) ==> self@.covered[c] == pre.covered[c]) by {
                if self@.tiles.in_grid(c.x as int, c.y as int) && c != coordinates {
                    lemma_flat_bound(c.x as int, c.y as int, w as int, self@.tiles.height);
                    if flat(c, w as int) == flat(coordinates, w as int) {
                        lemma_flat_inj(c.x as int, c.y as int, coordinates.x as int, coordinates.y as int, w as int);
                    }
                }
            }
            assert(self@.covered =~= pre.covered.remove(coordinates));
            assert(self@ == pre.after_uncover(coordinates));
        }
        r
    }

    /// The cover handles of the cells around `coordinates` that are still covered.
    pub fn adjacent_covered_tiles(&self, coordinates: Coordinates) -> (r: Vec<EntityId>)
        requires
            self.wf(),
        ensures
            r@ == self@.covered_handles(crate::tile_map::square_seq(coordinates)),
    {
        let square = self.tile_map.neighbors_at(coordinates);
        let mut r: Vec<EntityId> = Vec::new();
        let mut i: usize = 0;
        while i < square.len()
            invariant
                self.wf(),
                i <= square@.len(),
                r@ == self@.covered_handles(square@.take(i as int)),
            decreases square@.len() - i,
        {
            assert(square@.take(i as int + 1).drop_last() =~= square@.take(i as int));
            match self.tile_to_uncover(square[i]) {
                Some(h) => r.push(h),
                None => {},
            }
            i = i + 1;
        }
        assert(square@.take(i as int) =~= square@);
        r
    }

    /// The cell under the world point `(px, py)`; `None` off the board.
    pub fn pixel_to_coordinate(&self, px: i64, py: i64) -> (r: Option<Coordinates>)
        requires
            self.wf(),
        ensures
            r == self@.coordinate_of(px as int, py as int),
            r is Some ==> self@.tiles.in_grid(r->Some_0.x as int, r->Some_0.y as int),
    {
        if !self.bounds.in_bounds(px, py) {
            return None;
        }
        let dx = (px as i128 - self.bounds.x as i128) as u64;
        let dy = (py as i128 - self.bounds.y as i128) as u64;
        let ts = self.tile_size as u64;
        let cx = dx / ts;
        let cy = dy / ts;
        proof {
            let w = self@.tiles.width;
            let h = self@.tiles.height;
            assert(cx < w) by (nonlinear_arith)
                requires
                    cx == dx / ts,
                    dx < w * ts,
                    ts > 0,
            ;
            assert(cy < h) by (nonlinear_arith)
                requires
                    cy == dy / ts,
                    dy < h * ts,
                    ts > 0,
            ;
        }
        Some(Coordinates { x: cx as u16, y: cy as u16 })
    }

    /// The world point at the centre of the cell `coordinates`.
    pub fn tile_center(&self, coordinates: Coordinates) -> (r: (i64, i64))
        requires
            self.wf(),
            self@.tiles.in_grid(coordinates.x as int, coordinates.y as int),
        ensures
            r.0 == self@.center_of(coordinates).0,
            r.1 == self@.center_of(coordinates).1,
    {
        let ts = self.tile_size as i64;
        proof {
            assert(coordinates.x as int * ts as int <= u16::MAX as int * u32::MAX as int) by (nonlinear_arith)
                requires
                    coordinates.x <= u16::MAX,
                    0 < ts <= u32::MAX,
            ;
            assert(coordinates.y as int * ts as int <= u16::MAX as int * u32::MAX as int) by (nonlinear_arith)
                requires
                    coordinates.y <= u16::MAX,
                    0 < ts <= u32::MAX,
            ;
        }
        (
            self.bounds.x + coordinates.x as i64 * ts + ts / 2,
            self.bounds.y + coordinates.y as i64 * ts + ts / 2,
        )
    }

    /// Whether every safe cell has been uncovered.
    pub fn is_won(&self) -> (r: bool)
        requires
            self.wf(),
        ensures
            r == self@.won(),
    {
        let w = self.tile_map.width();
        let h = self.tile_map.height();
        let mut y: u16 = 0;
        while y < h
            invariant
                self.wf(),
                w == self@.tiles.width,
                h == self@.tiles.height,
                y <= h,
                forall|c: Coordinates|
                    c.y < y && self@.tiles.in_grid(c.x as int, c.y as int) && !self@.tiles.bomb_at(c.x as int, c.y as int)
                        ==> !#[trigger] self@.covered.contains_key(c),
            decreases h - y,
        {
            let mut x: u16 = 0;
            while x < w
                invariant
                    self.wf(),
                    w == self@.tiles.width,
                    h == self@.tiles.height,
                    y < h,
                    x <= w,
                    forall|c: Coordinates|
                        (c.y < y || (c.y == y && c.x < x)) && self@.tiles.in_grid(c.x as int, c.y as int)
                            && !self@.tiles.bomb_at(c.x as int, c.y as int) ==> !#[trigger] self@.covered.contains_key(c),
                decreases w - x,
            {
                let c = Coordinates { x, y };
                if !self.tile_map.is_bomb_at(c) && self.tile_to_uncover(c).is_some() {
                    return false;
                }
                x = x + 1;
            }
            y = y + 1;
        }
        true
    }
}

} // verus!
