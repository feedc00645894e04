use vstd::prelude::*;
use crate::components::{decimal, push_decimal, Coordinates};
use crate::random::random_below;
use crate::tile::{safe_tile, tile_text, Tile};
use rand::rngs::StdRng;
use vstd::arithmetic::div_mod::{
    lemma_div_pos_is_pos, lemma_fundamental_div_mod, lemma_fundamental_div_mod_converse,
    lemma_mod_bound, lemma_multiply_divide_lt,
};

verus! {

/// Why a board could not be generated.
#[derive(Debug, Copy, Clone, PartialEq, Eq, Structural)]
pub enum BoardError {
    /// The board would have no cell: a width or a height of zero.
    InvalidDimensions,
    /// The bombs asked for would fill every cell, leaving none safe.
    TooManyMines,
    /// A board layout with a tile size of zero, or without one cover per cell.
    InvalidLayout,
}

/// A rectangular grid of tiles, stored row by row (`map[y][x]`).
#[derive(Debug, Clone)]
pub struct TileMap {
    bomb_count: u16,
    height: u16,
    width: u16,
    map: Vec<Vec<Tile>>,
}

/// The cell at offset `(dx, dy)` from `c`, if both components stay within `u16`.
pub open spec fn offset_seq(c: Coordinates, dx: int, dy: int) -> Seq<Coordinates> {
    if 0 <= c.x + dx <= u16::MAX && 0 <= c.y + dy <= u16::MAX {
        seq![Coordinates { x: (c.x + dx) as u16, y: (c.y + dy) as u16 }]
    } else {
        seq![]
    }
}

/// The distinct cells around `c`, up to 8, from bottom left to top right.
pub open spec fn square_seq(c: Coordinates) -> Seq<Coordinates> {
    offset_seq(c, -1, -1) + offset_seq(c, 0, -1) + offset_seq(c, 1, -1) + offset_seq(c, -1, 0)
        + offset_seq(c, 1, 0) + offset_seq(c, -1, 1) + offset_seq(c, 0, 1) + offset_seq(c, 1, 1)
}

/// `v` held to the range of `u16`.
pub open spec fn clamp_u16(v: int) -> u16 {
    if v < 0 {
        0
    } else if v > u16::MAX {
        u16::MAX
    } else {
        v as u16
    }
}

/// `c` moved by `(dx, dy)`, each component saturating at 0 and at `u16::MAX`.
pub open spec fn saturated_offset(c: Coordinates, dx: int, dy: int) -> Coordinates {
    Coordinates { x: clamp_u16(c.x + dx), y: clamp_u16(c.y + dy) }
}

/// `c` moved by each of the eight unit offsets, from bottom left to top right, with
/// saturating components. Near an edge of the `u16` range some entries repeat a cell.
pub open spec fn saturated_square(c: Coordinates) -> Seq<Coordinates> {
    seq![
        saturated_offset(c, -1, -1),
        saturated_offset(c, 0, -1),
        saturated_offset(c, 1, -1),
        saturated_offset(c, -1, 0),
        saturated_offset(c, 1, 0),
        saturated_offset(c, -1, 1),
        saturated_offset(c, 0, 1),
        saturated_offset(c, 1, 1),
    ]
}

fn step(v: u16, d: i32) -> (r: u16)
    requires
        -1 <= d <= 1,
    ensures
        r == clamp_u16(v + d),
{
    if d < 0 {
        v.saturating_sub(1)
    } else if d > 0 {
        v.saturating_add(1)
    } else {
        v
    }
}

fn push_saturated(v: &mut Vec<Coordinates>, c: Coordinates, dx: i32, dy: i32)
    requires
        -1 <= dx <= 1,
        -1 <= dy <= 1,
    ensures
        final(v)@ == old(v)@.push(saturated_offset(c, dx as int, dy as int)),
{
    v.push(Coordinates { x: step(c.x, dx), y: step(c.y, dy) });
}

fn push_offset(v: &mut Vec<Coordinates>, c: Coordinates, dx: i32, dy: i32)
    requires
        -1 <= dx <= 1,
        -1 <= dy <= 1,
    ensures
        final(v)@ == old(v)@ + offset_seq(c, dx as int, dy as int),
{
    let x = c.x as i32 + dx;
    let y = c.y as i32 + dy;
    if 0 <= x && x <= 65535 && 0 <= y && y <= 65535 {
        v.push(Coordinates { x: x as u16, y: y as u16 });
    }
    assert(final(v)@ =~= old(v)@ + offset_seq(c, dx as int, dy as int));
}

/// The mathematical picture of a tile map: its size, the bomb count it was given and
/// its cells, row by row.
pub struct TileMapView {
    pub width: int,
    pub height: int,
    pub bomb_count: int,
    pub cells: Seq<Seq<Tile>>,
}

impl TileMapView {
    /// A `height` by `width` grid, neither of them zero.
    pub open spec fn wf(&self) -> bool {
        &&& 0 < self.width <= u16::MAX
        &&& 0 < self.height <= u16::MAX
        &&& 0 <= self.bomb_count <= u16::MAX
        &&& self.cells.len() == self.height
        &&& forall|y: int| 0 <= y < self.height ==> (#[trigger] self.cells[y]).len() == self.width
    }

    pub open spec fn in_grid(&self, x: int, y: int) -> bool {
        0 <= x < self.width && 0 <= y < self.height
    }

    /// The tile at column `x`, row `y`.
    pub open spec fn tile(&self, x: int, y: int) -> Tile {
        self.cells[y][x]
    }

    /// A bomb lies at `(x, y)`; never outside the grid.
    pub open spec fn bomb_at(&self, x: int, y: int) -> bool {
        self.in_grid(x, y) && self.tile(x, y) is Bomb
    }

    pub open spec fn bomb_num(&self, x: int, y: int) -> int {
        if self.bomb_at(x, y) { 1 } else { 0 }
    }

    /// The number of bombs among the eight cells around `(x, y)`.
    pub open spec fn neighbor_bombs(&self, x: int, y: int) -> int {
        self.bomb_num(x - 1, y - 1) + self.bomb_num(x, y - 1) + self.bomb_num(x + 1, y - 1)
            + self.bomb_num(x - 1, y) + self.bomb_num(x + 1, y)
            + self.bomb_num(x - 1, y + 1) + self.bomb_num(x, y + 1) + self.bomb_num(x + 1, y + 1)
    }

    /// The number of bombs among the cells listed in `s`.
    pub open spec fn count_bombs(&self, s: Seq<Coordinates>) -> int
        decreases s.len(),
    {
        if s.len() == 0 {
            0
        } else {
            self.count_bombs(s.drop_last()) + self.bomb_num(s.last().x as int, s.last().y as int)
        }
    }
}

/// The number of `true` among the first `n` entries of `s`.
pub open spec fn count_true(s: Seq<bool>, n: int) -> int
    decreases n,
{
    if n <= 0 {
        0
    } else {
        count_true(s, n - 1) + if s[n - 1] { 1int } else { 0 }
    }
}

proof fn lemma_count_true_zero(s: Seq<bool>, n: int)
    requires
        0 <= n <= s.len(),
        forall|j: int| 0 <= j < n ==> !s[j],
    ensures
        count_true(s, n) == 0,
    decreases n,
{
    if n > 0 {
        lemma_count_true_zero(s, n - 1);
    }
}

proof fn lemma_count_true_update(s: Seq<bool>, j: int, n: int)
    requires
        0 <= j < s.len(),
        !s[j],
        0 <= n <= s.len(),
    ensures
        count_true(s.update(j, true), n) == count_true(s, n) + if j < n { 1int } else { 0 },
    decreases n,
{
    if n > 0 {
        lemma_count_true_update(s, j, n - 1);
    }
}

/// Row-major position `i` of a `w`-wide grid lies at column `i % w`, row `i / w`.
pub(crate) proof fn lemma_flat_index(i: int, w: int, h: int)
    requires
        0 < w,
        0 <= i < w * h,
    ensures
        0 <= i % w < w,
        0 <= i / w < h,
        (i / w) * w + i % w == i,
{
    lemma_fundamental_div_mod(i, w);
    lemma_mod_bound(i, w);
    lemma_multiply_divide_lt(i, w, h);
    lemma_div_pos_is_pos(i, w);
    assert(w * (i / w) == (i / w) * w) by (nonlinear_arith);
}

pub(crate) proof fn lemma_flat_bound(x: int, y: int, w: int, h: int)
    requires
        0 <= x < w,
        0 <= y < h,
    ensures
        0 <= y * w + x < w * h,
{
    assert(0 <= y * w + x < w * h) by (nonlinear_arith)
        requires
            0 <= x < w,
            0 <= y < h,
    ;
}

/// Two cells of a `w`-wide grid with the same row-major position are the same cell.
pub(crate) proof fn lemma_flat_inj(x: int, y: int, x2: int, y2: int, w: int)
    requires
        0 <= x < w,
        0 <= x2 < w,
        0 <= y,
        0 <= y2,
        y * w + x == y2 * w + x2,
    ensures
        x == x2,
        y == y2,
{
    let i = y * w + x;
    lemma_fundamental_div_mod_converse(i, w, y, x);
    lemma_fundamental_div_mod_converse(i, w, y2, x2);
}

/// The index of the `k`-th `false` entry of `s`, counting from zero.
fn nth_free(s: &Vec<bool>, k: u32) -> (r: usize)
    requires
        s@.len() <= u32::MAX,
        k < s@.len() - count_true(s@, s@.len() as int),
    ensures
        r < s@.len(),
        !s@[r as int],
{
    let mut i: usize = 0;
    let mut seen: u32 = 0;
    while i < s.len()
        invariant
            s@.len() <= u32::MAX,
            k < s@.len() - count_true(s@, s@.len() as int),
            i <= s@.len(),
            seen == i - count_true(s@, i as int),
            seen <= k,
        decreases s@.len() - i,
    {
        if !s[i] {
            if seen == k {
                return i;
            }
            seen = seen + 1;
        }
        i = i + 1;
    }
    proof {
        assert(false);
    }
    0
}

/// Counting bombs over two lists adds up.
pub proof fn lemma_count_concat(v: TileMapView, a: Seq<Coordinates>, b: Seq<Coordinates>)
    ensures
        v.count_bombs(a + b) == v.count_bombs(a) + v.count_bombs(b),
    decreases b.len(),
{
    if b.len() == 0 {
        assert(a + b =~= a);
    } else {
        assert((a + b).drop_last() =~= a + b.drop_last());
        lemma_count_concat(v, a, b.drop_last());
    }
}

/// The neighbour list of a cell holds exactly its bombs around it.
pub proof fn lemma_count_square(v: TileMapView, c: Coordinates)
    requires
        v.wf(),
    ensures
        v.count_bombs(square_seq(c)) == v.neighbor_bombs(c.x as int, c.y as int),
{
    let o = |dx: int, dy: int| offset_seq(c, dx, dy);
    assert forall|dx: int, dy: int| -1 <= dx <= 1 && -1 <= dy <= 1 implies
        v.count_bombs(#[trigger] offset_seq(c, dx, dy)) == v.bomb_num(c.x + dx, c.y + dy) by {
        let s = offset_seq(c, dx, dy);
        assert(v.count_bombs(Seq::<Coordinates>::empty()) == 0);
        if 0 <= c.x + dx <= u16::MAX && 0 <= c.y + dy <= u16::MAX {
            assert(s.drop_last() =~= Seq::<Coordinates>::empty());
            assert(s.last().x == c.x + dx);
            assert(s.last().y == c.y + dy);
        } else {
            assert(s =~= Seq::<Coordinates>::empty());
            assert(!v.in_grid(c.x + dx, c.y + dy));
        }
    }
    let s1 = o(-1, -1);
    let s2 = s1 + o(0, -1);
    let s3 = s2 + o(1, -1);
    let s4 = s3 + o(-1, 0);
    let s5 = s4 + o(1, 0);
    let s6 = s5 + o(-1, 1);
    let s7 = s6 + o(0, 1);
    let s8 = s7 + o(1, 1);
    lemma_count_concat(v, s1, o(0, -1));
    lemma_count_concat(v, s2, o(1, -1));
    lemma_count_concat(v, s3, o(-1, 0));
    lemma_count_concat(v, s4, o(1, 0));
    lemma_count_concat(v, s5, o(-1, 1));
    lemma_count_concat(v, s6, o(0, 1));
    lemma_count_concat(v, s7, o(1, 1));
    assert(s8 == square_seq(c));
}

impl TileMapView {
    /// The number of bombs among the first `n` cells in row-major order.
    pub open spec fn bombs_before(&self, n: int) -> int
        decreases n,
    {
        if n <= 0 {
            0
        } else {
            self.bombs_before(n - 1) + self.bomb_num((n - 1) % self.width, (n - 1) / self.width)
        }
    }

    /// The number of cells that hold a bomb.
    pub open spec fn total_bombs(&self) -> int {
        self.bombs_before(self.width * self.height)
    }

    /// Every safe cell holds the number of bombs around it.
    pub open spec fn classified(&self) -> bool {
        forall|x: int, y: int|
            self.in_grid(x, y) && !self.bomb_at(x, y) ==> #[trigger] self.tile(x, y) == safe_tile(
                self.neighbor_bombs(x, y),
            )
    }
}

proof fn lemma_no_bombs(v: TileMapView, n: int)
    requires
        forall|x: int, y: int| v.in_grid(x, y) ==> v.tile(x, y) == Tile::Empty,
    ensures
        v.bombs_before(n) == 0,
        v.classified(),
    decreases n,
{
    if n > 0 {
        lemma_no_bombs(v, n - 1);
    }
}

proof fn lemma_bombs_before_same(a: TileMapView, b: TileMapView, n: int)
    requires
        a.width == b.width,
        forall|x: int, y: int| a.bomb_at(x, y) == b.bomb_at(x, y),
    ensures
        a.bombs_before(n) == b.bombs_before(n),
    decreases n,
{
    if n > 0 {
        lemma_bombs_before_same(a, b, n - 1);
        assert(a.bomb_at((n - 1) % a.width, (n - 1) / a.width) == b.bomb_at((n - 1) % a.width, (n - 1) / a.width));
    }
}

proof fn lemma_bombs_before_flat(v: TileMapView, s: Seq<bool>, n: int)
    requires
        v.wf(),
        s.len() == v.width * v.height,
        0 <= n <= s.len(),
        forall|x: int, y: int| v.in_grid(x, y) ==> v.bomb_at(x, y) == s[y * v.width + x],
    ensures
        v.bombs_before(n) == count_true(s, n),
    decreases n,
{
    if n > 0 {
        lemma_bombs_before_flat(v, s, n - 1);
        lemma_flat_index(n - 1, v.width, v.height);
        assert(v.in_grid((n - 1) % v.width, (n - 1) / v.width));
    }
}

/// The tiles of a row, side by side.
pub open spec fn row_text(row: Seq<Tile>) -> Seq<char>
    decreases row.len(),
{
    if row.len() == 0 {
        seq![]
    } else {
        row_text(row.drop_last()) + tile_text(row.last())
    }
}

/// Rows `0..n` framed by `|`, the highest row first, one per line.
pub open spec fn rows_text(cells: Seq<Seq<Tile>>, n: int) -> Seq<char>
    decreases n,
{
    if n <= 0 {
        seq![]
    } else {
        seq!['|'] + row_text(cells[n - 1]) + seq!['|', '\n'] + rows_text(cells, n - 1)
    }
}

/// `n` dashes.
pub open spec fn dashes(n: nat) -> Seq<char> {
    Seq::new(n, |i: int| '-')
}

/// The text picture of a map: a title line, then the grid framed by dashes and bars,
/// its top row first.
pub open spec fn map_text(v: TileMapView) -> Seq<char> {
    let line = dashes((v.width + 2) as nat);
    "Map ("@ + decimal(v.width as nat) + ", "@ + decimal(v.height as nat) + ") with "@
        + decimal(v.bomb_count as nat) + " bombs:\n"@ + line + "\n"@ + rows_text(v.cells, v.height)
        + line
}

/// No bomb lies next to an empty cell: uncovering the cells around an empty cell never
/// uncovers a bomb.
pub proof fn lemma_empty_neighbors_safe(v: TileMapView, u: Coordinates, n: Coordinates)
    requires
        v.wf(),
        v.classified(),
        v.in_grid(u.x as int, u.y as int),
        v.tile(u.x as int, u.y as int) == Tile::Empty,
        square_seq(u).contains(n),
    ensures
        !v.bomb_at(n.x as int, n.y as int),
{
    assert(v.neighbor_bombs(u.x as int, u.y as int) == 0);
    let k = choose|k: int| 0 <= k < square_seq(u).len() && square_seq(u)[k] == n;
    assert(-1 <= n.x - u.x <= 1 && -1 <= n.y - u.y <= 1 && n != u) by {
        let o = |dx: int, dy: int| offset_seq(u, dx, dy);
        assert forall|dx: int, dy: int, j: int| 0 <= j < offset_seq(u, dx, dy).len() implies
            (#[trigger] offset_seq(u, dx, dy)[j]).x == u.x + dx && offset_seq(u, dx, dy)[j].y == u.y + dy by {}
        let s1 = o(-1, -1);
        let s2 = s1 + o(0, -1);
        let s3 = s2 + o(1, -1);
        let s4 = s3 + o(-1, 0);
        let s5 = s4 + o(1, 0);
        let s6 = s5 + o(-1, 1);
        let s7 = s6 + o(0, 1);
        assert(square_seq(u) == s7 + o(1, 1));
        if k >= s7.len() {
            assert(n == o(1, 1)[k - s7.len()]);
        } else if k >= s6.len() {
            assert(n == s7[k]);
            assert(n == o(0, 1)[k - s6.len()]);
        } else if k >= s5.len() {
            assert(n == s7[k] && n == s6[k]);
            assert(n == o(-1, 1)[k - s5.len()]);
        } else if k >= s4.len() {
            assert(n == s7[k] && n == s6[k] && n == s5[k]);
            assert(n == o(1, 0)[k - s4.len()]);
        } else if k >= s3.len() {
            assert(n == s7[k] && n == s6[k] && n == s5[k] && n == s4[k]);
            assert(n == o(-1, 0)[k - s3.len()]);
        } else if k >= s2.len() {
            assert(n == s7[k] && n == s6[k] && n == s5[k] && n == s4[k] && n == s3[k]);
            assert(n == o(1, -1)[k - s2.len()]);
        } else if k >= s1.len() {
            assert(n == s7[k] && n == s6[k] && n == s5[k] && n == s4[k] && n == s3[k] && n == s2[k]);
            assert(n == o(0, -1)[k - s1.len()]);
        } else {
            assert(n == s7[k] && n == s6[k] && n == s5[k] && n == s4[k] && n == s3[k] && n == s2[k]);
            assert(n == s1[k]);
        }
    }
}

impl View for TileMap {
    type V = TileMapView;

    closed spec fn view(&self) -> TileMapView {
        TileMapView {
            width: self.width as int,
            height: self.height as int,
            bomb_count: self.bomb_count as int,
            cells: self.map@.map_values(|r: Vec<Tile>| r@),
        }
    }
}

impl TileMap {
    /// The grid has its size, holds exactly `bomb_count` bombs, and every safe cell holds
    /// the number of bombs around it.
    pub open spec fn wf(&self) -> bool {
        &&& self@.wf()
        &&& self@.total_bombs() == self@.bomb_count
        &&& self@.classified()
    }

    proof fn lemma_row(&self, y: int)
        requires
            self@.wf(),
            0 <= y < self@.height,
        ensures
            self@.cells[y] == self.map@[y]@,
            self.map@[y]@.len() == self@.width,
            self.map@.len() == self@.height,
            self@.width == self.width,
            self@.height == self.height,
    {
        assert(self@.cells[y].len() == self@.width);
    }

    /// A map of the given size with every cell empty and no bomb.
    pub fn empty(width: u16, height: u16) -> (r: Result<TileMap, BoardError>)
        ensures
            (width == 0 || height == 0) <==> r is Err,
            r is Err ==> r == Err::<TileMap, BoardError>(BoardError::InvalidDimensions),
            r is Ok ==> {
                let m = r->Ok_0;
                &&& m.wf()
                &&& m@.width == width
                &&& m@.height == height
                &&& m@.bomb_count == 0
                &&& forall|x: int, y: int| m@.in_grid(x, y) ==> m@.tile(x, y) == Tile::Empty
            },
    {
        if width == 0 || height == 0 {
            return Err(BoardError::InvalidDimensions);
        }
        let mut map: Vec<Vec<Tile>> = Vec::new();
        let mut y: u16 = 0;
        while y < height
            invariant
                y <= height,
                map@.len() == y,
                forall|j: int| 0 <= j < y ==> (#[trigger] map@[j])@.len() == width,
                forall|j: int, i: int| 0 <= j < y && 0 <= i < width ==> map@[j]@[i] == Tile::Empty,
            decreases height - y,
        {
            let mut row: Vec<Tile> = Vec::new();
            let mut x: u16 = 0;
            while x < width
                invariant
                    x <= width,
                    row@.len() == x,
                    forall|i: int| 0 <= i < x ==> row@[i] == Tile::Empty,
                decreases width - x,
            {
                row.push(Tile::Empty);
                x = x + 1;
            }
            map.push(row);
            y = y + 1;
        }
        let m = TileMap { bomb_count: 0, height, width, map };
        proof {
            assert forall|b: int| 0 <= b < height implies (#[trigger] m@.cells[b]).len() == width by {
                assert(m@.cells[b] == m.map@[b]@);
            }
            assert forall|a: int, b: int| m@.in_grid(a, b) implies m@.tile(a, b) == Tile::Empty by {
                m.lemma_row(b);
            }
            lemma_no_bombs(m@, width as int * height as int);
        }
        Ok(m)
    }

    pub fn width(&self) -> (r: u16)
        ensures
            r == self@.width,
    {
        self.width
    }

    pub fn height(&self) -> (r: u16)
        ensures
            r == self@.height,
    {
        self.height
    }

    pub fn bomb_count(&self) -> (r: u16)
        ensures
            r == self@.bomb_count,
    {
        self.bomb_count
    }

    /// The tile at `coordinates`, or `None` outside the grid.
    pub fn tile_at(&self, coordinates: Coordinates) -> (r: Option<Tile>)
        requires
            self@.wf(),
        ensures
            r == (if self@.in_grid(coordinates.x as int, coordinates.y as int) {
                Some(self@.tile(coordinates.x as int, coordinates.y as int))
            } else {
                None
            }),
    {
        if coordinates.x >= self.width || coordinates.y >= self.height {
            return None;
        }
        proof {
            self.lemma_row(coordinates.y as int);
        }
        Some(self.map[coordinates.y as usize][coordinates.x as usize])
    }

    /// `coordinates` moved by each of the eight unit offsets, bottom left first, with
    /// components saturating at 0 and at `u16::MAX`. The cells are not checked against
    /// the grid: lookups such as `is_bomb_at` do that.
    pub fn safe_square_at(&self, coordinates: Coordinates) -> (r: Vec<Coordinates>)
        ensures
            r@ == saturated_square(coordinates),
    {
        let mut r: Vec<Coordinates> = Vec::new();
        push_saturated(&mut r, coordinates, -1, -1);
        push_saturated(&mut r, coordinates, 0, -1);
        push_saturated(&mut r, coordinates, 1, -1);
        push_saturated(&mut r, coordinates, -1, 0);
        push_saturated(&mut r, coordinates, 1, 0);
        push_saturated(&mut r, coordinates, -1, 1);
        push_saturated(&mut r, coordinates, 0, 1);
        push_saturated(&mut r, coordinates, 1, 1);
        assert(r@ =~= saturated_square(coordinates));
        r
    }

    /// The distinct cells around `coordinates`, each once: the offsets that would leave
    /// the range of `u16` are left out, so none repeats `coordinates` or another cell.
    pub(crate) fn neighbors_at(&self, coordinates: Coordinates) -> (r: Vec<Coordinates>)
        ensures
            r@ == square_seq(coordinates),
    {
        let mut r: Vec<Coordinates> = Vec::new();
        push_offset(&mut r, coordinates, -1, -1);
        push_offset(&mut r, coordinates, 0, -1);
        push_offset(&mut r, coordinates, 1, -1);
        push_offset(&mut r, coordinates, -1, 0);
        push_offset(&mut r, coordinates, 1, 0);
        push_offset(&mut r, coordinates, -1, 1);
        push_offset(&mut r, coordinates, 0, 1);
        push_offset(&mut r, coordinates, 1, 1);
        assert(r@ =~= square_seq(coordinates));
        r
    }

    /// Whether a bomb lies at `coordinates`; `false` outside the grid.
    pub fn is_bomb_at(&self, coordinates: Coordinates) -> (r: bool)
        requires
            self@.wf(),
        ensures
            r == self@.bomb_at(coordinates.x as int, coordinates.y as int),
    {
        if coordinates.x >= self.width || coordinates.y >= self.height {
            return false;
        }
        proof {
            self.lemma_row(coordinates.y as int);
        }
        self.map[coordinates.y as usize][coordinates.x as usize].is_bomb()
    }

    /// The number of bombs around `coordinates`; 0 where a bomb lies on it.
    pub fn bomb_count_at(&self, coordinates: Coordinates) -> (r: u8)
        requires
            self@.wf(),
        ensures
            r == (if self@.bomb_at(coordinates.x as int, coordinates.y as int) {
                0
            } else {
                self@.neighbor_bombs(coordinates.x as int, coordinates.y as int)
            }),
    {
        if self.is_bomb_at(coordinates) {
            return 0;
        }
        let square = self.neighbors_at(coordinates);
        let mut count: u8 = 0;
        let mut i: usize = 0;
        while i < square.len()
            invariant
                self@.wf(),
                square@ == square_seq(coordinates),
                square@.len() <= 8,
                i <= square@.len(),
                count == self@.count_bombs(square@.take(i as int)),
                count <= i,
            decreases square@.len() - i,
        {
            assert(square@.take(i as int + 1).drop_last() =~= square@.take(i as int));
            if self.is_bomb_at(square[i]) {
                count = count + 1;
            }
            i = i + 1;
        }
        proof {
            assert(square@.take(i as int) =~= square@);
            lemma_count_square(self@, coordinates);
        }
        count
    }

    /// Places `bomb_count` bombs on a fresh layout of the grid, each on a cell drawn
    /// uniformly from those still free, then gives every safe cell the number of bombs
    /// around it. Fails, leaving the map as it was, where the bombs would fill every cell.
    pub fn set_bombs(&mut self, bomb_count: u16, rng: &mut StdRng) -> (r: Result<(), BoardError>)
        requires
            old(self).wf(),
        ensures
            r is Err <==> bomb_count >= old(self)@.width * old(self)@.height,
            r is Err ==> r == Err::<(), BoardError>(BoardError::TooManyMines) && *final(self) == *old(self),
            r is Ok ==> {
                &&& final(self).wf()
                &&& final(self)@.width == old(self)@.width
                &&& final(self)@.height == old(self)@.height
                &&& final(self)@.bomb_count == bomb_count
                &&& final(self)@.total_bombs() == bomb_count
                &&& final(self)@.classified()
            },
    {
        let width = self.width;
        let height = self.height;
        proof {
            assert(width as int * height as int <= u16::MAX as int * u16::MAX as int) by (nonlinear_arith)
                requires
                    width <= u16::MAX,
                    height <= u16::MAX,
            ;
        }
        let n: u32 = width as u32 * height as u32;
        if bomb_count as u32 >= n {
            return Err(BoardError::TooManyMines);
        }
        // Which cells hold a bomb, in row-major order.
        let mut mined: Vec<bool> = Vec::new();
        let mut i: u32 = 0;
        while i < n
            invariant
                i <= n,
                mined@.len() == i,
                forall|j: int| 0 <= j < i ==> !mined@[j],
                count_true(mined@, i as int) == 0,
            decreases n - i,
        {
            mined.push(false);
            i = i + 1;
            proof {
                assert forall|m: int| 0 <= m <= i implies count_true(mined@, m) == 0 by {
                    lemma_count_true_zero(mined@, m);
                }
            }
        }
        let mut placed: u16 = 0;
        while placed < bomb_count
            invariant
                placed <= bomb_count,
                (bomb_count as int) < n,
                n <= u32::MAX,
                mined@.len() == n,
                count_true(mined@, n as int) == placed,
            decreases bomb_count - placed,
        {
            let k = random_below(rng, n - placed as u32);
            let j = nth_free(&mined, k);
            proof {
                lemma_count_true_update(mined@, j as int, n as int);
            }
            mined.set(j, true);
            placed = placed + 1;
        }
        // The grid with bombs and empty cells only.
        let mut cells: Vec<Vec<Tile>> = Vec::new();
        let mut y: u16 = 0;
        while y < height
            invariant
                y <= height,
                n == width * height,
                mined@.len() == n,
                cells@.len() == y,
                forall|b: int| 0 <= b < y ==> (#[trigger] cells@[b])@.len() == width,
                forall|b: int, a: int|
                    0 <= b < y && 0 <= a < width ==> (#[trigger] cells@[b]@[a]) == if mined@[b * width + a] {
                        Tile::Bomb
                    } else {
                        Tile::Empty
                    },
            decreases height - y,
        {
            let mut row: Vec<Tile> = Vec::new();
            let mut x: u16 = 0;
            while x < width
                invariant
                    x <= width,
                    y < height,
                    n == width * height,
                    mined@.len() == n,
                    row@.len() == x,
                    forall|a: int|
                        0 <= a < x ==> (#[trigger] row@[a]) == if mined@[y * width + a] {
                            Tile::Bomb
                        } else {
                            Tile::Empty
                        },
                decreases width - x,
            {
                proof {
                    lemma_flat_bound(x as int, y as int, width as int, height as int);
                }
                let idx: usize = y as usize * width as usize + x as usize;
                if mined[idx] {
                    row.push(Tile::Bomb);
                } else {
                    row.push(Tile::Empty);
                }
                x = x + 1;
            }
            cells.push(row);
            y = y + 1;
        }
        let base = TileMap { bomb_count, height, width, map: cells };
        proof {
            assert(base@.wf()) by {
                assert forall|b: int| 0 <= b < height implies (#[trigger] base@.cells[b]).len() == width by {
                    assert(base@.cells[b] == base.map@[b]@);
                }
            }
            assert forall|a: int, b: int| base@.in_grid(a, b) implies base@.bomb_at(a, b) == mined@[b * width + a] by {
                base.lemma_row(b);
                lemma_flat_bound(a, b, width as int, height as int);
            }
            lemma_bombs_before_flat(base@, mined@, n as int);
        }
        // Every safe cell gets the number of bombs around it.
        let mut map: Vec<Vec<Tile>> = Vec::new();
        let mut y: u16 = 0;
        while y < height
            invariant
                base@.wf(),
                base@.width == width,
                base@.height == height,
                y <= height,
                map@.len() == y,
                forall|b: int| 0 <= b < y ==> (#[trigger] map@[b])@.len() == width,
                forall|b: int, a: int|
                    0 <= b < y && 0 <= a < width ==> (#[trigger] map@[b]@[a]) == if base@.bomb_at(a, b) {
                        Tile::Bomb
                    } else {
                        safe_tile(base@.neighbor_bombs(a, b))
                    },
            decreases height - y,
        {
            let mut row: Vec<Tile> = Vec::new();
            let mut x: u16 = 0;
            while x < width
                invariant
                    base@.wf(),
                    base@.width == width,
                    base@.height == height,
                    x <= width,
                    y < height,
                    row@.len() == x,
                    forall|a: int|
                        0 <= a < x ==> (#[trigger] row@[a]) == if base@.bomb_at(a, y as int) {
                            Tile::Bomb
                        } else {
                            safe_tile(base@.neighbor_bombs(a, y as int))
                        },
                decreases width - x,
            {
                let c = Coordinates { x, y };
                if base.is_bomb_at(c) {
                    row.push(Tile::Bomb);
                } else {
                    let num = base.bomb_count_at(c);
                    if num == 0 {
                        row.push(Tile::Empty);
                    } else {
                        row.push(Tile::BombNeighbor(num));
                    }
                }
                x = x + 1;
            }
            map.push(row);
            y = y + 1;
        }
        let ghost old_self = *self;
        self.map = map;
        self.bomb_count = bomb_count;
        proof {
            assert(self@.wf()) by {
                assert forall|b: int| 0 <= b < height implies (#[trigger] self@.cells[b]).len() == width by {
                    assert(self@.cells[b] == self.map@[b]@);
                }
            }
            assert forall|a: int, b: int| #![auto] self@.bomb_at(a, b) == base@.bomb_at(a, b) by {
                if self@.in_grid(a, b) {
                    self.lemma_row(b);
                    base.lemma_row(b);
                }
            }
            lemma_bombs_before_same(self@, base@, n as int);
            assert forall|a: int, b: int| self@.in_grid(a, b) && !self@.bomb_at(a, b) implies #[trigger] self@.tile(a, b)
                == safe_tile(self@.neighbor_bombs(a, b)) by {
                self.lemma_row(b);
                assert(self@.neighbor_bombs(a, b) == base@.neighbor_bombs(a, b));
            }
        }
        Ok(())
    }

    /// A text picture of the map, for debugging.
    pub fn console_output(&self) -> (r: String)
        requires
            self@.wf(),
        ensures
            r@ == map_text(self@),
    {
        let mut line = String::new();
        let mut i: u32 = 0;
        let w2: u32 = self.width as u32 + 2;
        while i < w2
            invariant
                i <= w2,
                line@ == dashes(i as nat),
            decreases w2 - i,
        {
            line.append("-");
            proof {
                reveal_strlit("-");
            }
            i = i + 1;
            assert(line@ =~= dashes(i as nat));
        }
        let mut body = String::new();
        let mut y: u16 = self.height;
        while y > 0
            invariant
                self@.wf(),
                y <= self@.height,
                body@ + rows_text(self@.cells, y as int) == rows_text(self@.cells, self@.height),
            decreases y,
        {
            let ghost pre = body@;
            proof {
                self.lemma_row(y - 1);
            }
            let row = &self.map[y as usize - 1];
            body.append("|");
            proof {
                reveal_strlit("|");
                assert(row_text(row@.take(0)) == Seq::<char>::empty());
                assert(body@ =~= pre + seq!['|'] + row_text(row@.take(0)));
            }
            let mut x: usize = 0;
            while x < row.len()
                invariant
                    body@ == pre + seq!['|'] + row_text(row@.take(x as int)),
                    x <= row@.len(),
                decreases row@.len() - x,
            {
                let t = row[x].console_output();
                body.append(t.as_str());
                assert(row@.take(x as int + 1).drop_last() =~= row@.take(x as int));
                x = x + 1;
                assert(body@ =~= pre + seq!['|'] + row_text(row@.take(x as int)));
            }
            body.append("|\n");
            proof {
                reveal_strlit("|");
                reveal_strlit("|\n");
                assert(row@.take(x as int) =~= row@);
                assert(body@ =~= pre + (seq!['|'] + row_text(self@.cells[y - 1]) + seq!['|', '\n']));
            }
            y = y - 1;
            assert(body@ + rows_text(self@.cells, y as int) =~= rows_text(self@.cells, self@.height));
        }
        let mut s = String::new();
        s.append("Map (");
        push_decimal(&mut s, self.width);
        s.append(", ");
        push_decimal(&mut s, self.height);
        s.append(") with ");
        push_decimal(&mut s, self.bomb_count);
        s.append(" bombs:\n");
        s.append(line.as_str());
        s.append("\n");
        s.append(body.as_str());
        s.append(line.as_str());
        proof {
            reveal_strlit("Map (");
            reveal_strlit(", ");
            reveal_strlit(") with ");
            reveal_strlit(" bombs:\n");
            reveal_strlit("\n");
            assert(body@ =~= rows_text(self@.cells, self@.height));
            assert(s@ =~= map_text(self@));
        }
        s
    }

    /// The first empty cell in row-major order (row 0 first, left to right), if any.
    pub fn first_empty(&self) -> (r: Option<Coordinates>)
        requires
            self@.wf(),
        ensures
            r is Some ==> {
                let c = r->Some_0;
                &&& self@.in_grid(c.x as int, c.y as int)
                &&& self@.tile(c.x as int, c.y as int) == Tile::Empty
                &&& forall|a: int, b: int|
                    self@.in_grid(a, b) && (b < c.y || (b == c.y && a < c.x)) ==> self@.tile(a, b)
                        != Tile::Empty
            },
            r is None ==> forall|a: int, b: int| self@.in_grid(a, b) ==> self@.tile(a, b) != Tile::Empty,
    {
        let mut y: u16 = 0;
        while y < self.height
            invariant
                self@.wf(),
                y <= self@.height,
                forall|a: int, b: int| self@.in_grid(a, b) && b < y ==> self@.tile(a, b) != Tile::Empty,
            decreases self@.height - y,
        {
            proof {
                self.lemma_row(y as int);
            }
            let mut x: u16 = 0;
            while x < self.width
                invariant
                    self@.wf(),
                    y < self@.height,
                    x <= self@.width,
                    self.map@[y as int]@.len() == self@.width,
                    self@.cells[y as int] == self.map@[y as int]@,
                    forall|a: int, b: int|
                        self@.in_grid(a, b) && (b < y || (b == y && a < x)) ==> self@.tile(a, b)
                            != Tile::Empty,
                decreases self@.width - x,
            {
                proof {
                    self.lemma_row(y as int);
                }
                if self.map[y as usize][x as usize] == Tile::Empty {
                    return Some(Coordinates { x, y });
                }
                x = x + 1;
            }
            y = y + 1;
        }
        None
    }
}

/// A `width` by `height` map with `bomb_count` bombs placed at random and every safe
/// cell numbered.
pub fn generate_map(width: u16, height: u16, bomb_count: u16, rng: &mut StdRng) -> (r: Result<TileMap, BoardError>)
    ensures
        (width == 0 || height == 0) <==> r == Err::<TileMap, BoardError>(BoardError::InvalidDimensions),
        (width > 0 && height > 0 && bomb_count >= width * height) <==> r == Err::<TileMap, BoardError>(
            BoardError::TooManyMines,
        ),
        r is Ok <==> (width > 0 && height > 0 && bomb_count < width * height),
        r is Ok ==> {
            let m = r->Ok_0;
            &&& m.wf()
            &&& m@.width == width
            &&& m@.height == height
            &&& m@.bomb_count == bomb_count
            &&& m@.total_bombs() == bomb_count
        },
{
    let mut map = match TileMap::empty(width, height) {
        Ok(m) => m,
        Err(e) => {
            return Err(e);
        },
    };
    match map.set_bombs(bomb_count, rng) {
        Ok(()) => Ok(map),
        Err(e) => Err(e),
    }
}

} // verus!
