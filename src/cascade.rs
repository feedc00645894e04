use vstd::prelude::*;
use crate::board::{Board, BoardView, EntityId};
use crate::tile_map::TileMapView;
use crate::components::{Coordinates, TileTriggerEvent};
use crate::tile::Tile;
use crate::tile_map::{lemma_empty_neighbors_safe, square_seq};

verus! {

/// What one reveal pass did.
#[derive(Debug)]
pub struct TickResult {
    /// The cells uncovered in this pass, in order, each with the cover handle it had.
    pub uncovered: Vec<(Coordinates, EntityId)>,
    /// The covered cells to uncover on the next pass.
    pub pending: Vec<Coordinates>,
    /// A bomb was uncovered: the game is lost.
    pub exploded: bool,
    /// Every safe cell is uncovered: the game is won.
    pub won: bool,
}

/// The cells of a list of uncovered cells with their handles.
pub open spec fn cells_of(u: Seq<(Coordinates, EntityId)>) -> Seq<Coordinates> {
    u.map_values(|p: (Coordinates, EntityId)| p.0)
}

/// `n` lies next to an empty cell of `u`.
pub open spec fn next_to_empty(v: BoardView, u: Seq<(Coordinates, EntityId)>, n: Coordinates) -> bool {
    exists|k: int|
        0 <= k < u.len() && v.tiles.tile(u[k].0.x as int, u[k].0.y as int) == Tile::Empty && #[trigger] square_seq(
            u[k].0,
        ).contains(n)
}

/// The `k`-th uncovered cell lies next to an empty cell uncovered before it.
pub open spec fn reached(v: BoardView, u: Seq<(Coordinates, EntityId)>, k: int) -> bool {
    exists|j: int|
        0 <= j < k && v.tiles.tile(u[j].0.x as int, u[j].0.y as int) == Tile::Empty && #[trigger] square_seq(
            u[j].0,
        ).contains(u[k].0)
}

/// No covered cell lies next to an empty cell of `u`.
pub open spec fn closed_region(v: BoardView, after: BoardView, u: Seq<(Coordinates, EntityId)>) -> bool {
    forall|k: int, n: Coordinates|
        0 <= k < u.len() && v.tiles.tile(u[k].0.x as int, u[k].0.y as int) == Tile::Empty
            && #[trigger] square_seq(u[k].0).contains(n) ==> !after.covered.contains_key(n)
}

proof fn lemma_cells_of_concat(a: Seq<(Coordinates, EntityId)>, b: Seq<(Coordinates, EntityId)>, c: Coordinates)
    ensures
        cells_of(a + b).contains(c) <==> (cells_of(a).contains(c) || cells_of(b).contains(c)),
{
    assert(cells_of(a + b) =~= cells_of(a) + cells_of(b));
    if cells_of(a + b).contains(c) {
        let k = choose|k: int| 0 <= k < cells_of(a + b).len() && cells_of(a + b)[k] == c;
        if k < a.len() {
            assert(cells_of(a)[k] == c);
        } else {
            assert(cells_of(b)[k - a.len()] == c);
        }
    }
    if cells_of(a).contains(c) {
        let k = choose|k: int| 0 <= k < cells_of(a).len() && cells_of(a)[k] == c;
        assert(cells_of(a + b)[k] == c);
    }
    if cells_of(b).contains(c) {
        let k = choose|k: int| 0 <= k < cells_of(b).len() && cells_of(b)[k] == c;
        assert(cells_of(a + b)[k + a.len()] == c);
    }
}

/// Some cell of `u` holds a bomb.
pub open spec fn hit_bomb(v: BoardView, u: Seq<(Coordinates, EntityId)>) -> bool {
    exists|k: int| 0 <= k < u.len() && v.tiles.bomb_at((#[trigger] u[k]).0.x as int, u[k].0.y as int)
}

/// The targets of the events whose cell is still covered, in order.
pub open spec fn covered_targets(v: BoardView, events: Seq<TileTriggerEvent>) -> Seq<Coordinates>
    decreases events.len(),
{
    if events.len() == 0 {
        seq![]
    } else {
        covered_targets(v, events.drop_last()) + if v.covered.contains_key(events.last().0) {
            seq![events.last().0]
        } else {
            seq![]
        }
    }
}

/// The cells that the trigger events ask to uncover and that are still covered.
pub fn trigger_event_handler(board: &Board, events: &Vec<TileTriggerEvent>) -> (r: Vec<Coordinates>)
    requires
        board.wf(),
    ensures
        r@ == covered_targets(board@, events@),
{
    let mut r: Vec<Coordinates> = Vec::new();
    let mut i: usize = 0;
    while i < events.len()
        invariant
            board.wf(),
            i <= events@.len(),
            r@ == covered_targets(board@, events@.take(i as int)),
        decreases events@.len() - i,
    {
        assert(events@.take(i as int + 1).drop_last() =~= events@.take(i as int));
        let target = events[i].0;
        if board.tile_to_uncover(target).is_some() {
            r.push(target);
        }
        i = i + 1;
    }
    assert(events@.take(i as int) =~= events@);
    r
}

/// Appends to `next` the cells around `c` that are still covered.
fn push_covered_neighbors(board: &Board, c: Coordinates, next: &mut Vec<Coordinates>)
    requires
        board.wf(),
    ensures
        forall|n: Coordinates|
            #[trigger] final(next)@.contains(n) <==> (old(next)@.contains(n) || (square_seq(c).contains(n)
                && board@.covered.contains_key(n))),
{
    let square = board.tile_map().neighbors_at(c);
    let mut j: usize = 0;
    while j < square.len()
        invariant
            board.wf(),
            square@ == square_seq(c),
            j <= square@.len(),
            forall|n: Coordinates|
                #[trigger] next@.contains(n) <==> (old(next)@.contains(n) || (square@.take(j as int).contains(n)
                    && board@.covered.contains_key(n))),
        decreases square@.len() - j,
    {
        let n = square[j];
        assert(square@.take(j as int + 1) =~= square@.take(j as int).push(n));
        let ghost pre = next@;
        if board.tile_to_uncover(n).is_some() {
            next.push(n);
            assert(next@ =~= pre.push(n));
        }
        assert forall|m: Coordinates| #[trigger] next@.contains(m) <==> (old(next)@.contains(m) || (square@.take(
            j as int + 1,
        ).contains(m) && board@.covered.contains_key(m))) by {
            if next@.contains(m) && m != n && next@ != pre {
                let k = choose|k: int| 0 <= k < next@.len() && next@[k] == m;
                assert(pre[k] == m);
            }
            if square@.take(j as int + 1).contains(m) && m != n {
                let k = choose|k: int| 0 <= k < j + 1 && #[trigger] square@.take(j as int + 1)[k] == m;
                assert(square@.take(j as int)[k] == m);
            }
            if pre.contains(m) && next@ != pre {
                let k = choose|k: int| 0 <= k < pre.len() && pre[k] == m;
                assert(next@[k] == m);
            }
            if m == n && next@ != pre {
                assert(next@[pre.len() as int] == m);
            }
            if m == n {
                assert(square@.take(j as int + 1)[j as int] == m);
            }
        }
        j = j + 1;
    }
    assert(square@.take(j as int) =~= square@);
}

/// One pass of the reveal cascade. Uncovers every cell of `pending`, in order, passing
/// over those already uncovered. An empty cell puts its covered neighbours on the next
/// pass; a numbered cell stops there. A bomb loses the game: nothing is left pending and
/// the pass reports no win.
pub fn uncover_tiles(board: &mut Board, pending: &Vec<Coordinates>) -> (r: TickResult)
    requires
        old(board).wf(),
    ensures
        final(board).wf(),
        final(board)@.tiles == old(board)@.tiles,
        final(board)@.bounds == old(board)@.bounds,
        final(board)@.tile_size == old(board)@.tile_size,
        final(board)@.entity == old(board)@.entity,
        final(board)@.covered_cells() + r.uncovered@.len() == old(board)@.covered_cells(),
        // each uncovered cell was asked for and covered, and comes with its handle
        forall|k: int|
            0 <= k < r.uncovered@.len() ==> old(board)@.cover((#[trigger] r.uncovered@[k]).0) == Some(
                r.uncovered@[k].1,
            ) && pending@.contains(r.uncovered@[k].0),
        // no cell is listed twice
        forall|k: int, m: int|
            0 <= k < m < r.uncovered@.len() ==> (#[trigger] r.uncovered@[k]).0 != (#[trigger] r.uncovered@[m]).0,
        // the covers left are those of the cells not uncovered
        forall|c: Coordinates|
            #[trigger] final(board)@.covered.contains_key(c) ==> old(board)@.covered.contains_key(c)
                && final(board)@.covered[c] == old(board)@.covered[c],
        forall|c: Coordinates|
            #[trigger] old(board)@.covered.contains_key(c) ==> (final(board)@.covered.contains_key(c)
                <==> !cells_of(r.uncovered@).contains(c)),
        // every pending cell is uncovered
        forall|j: int| 0 <= j < pending@.len() ==> !final(board)@.covered.contains_key(#[trigger] pending@[j]),
        // a bomb among them ends the game, with nothing left pending
        r.exploded <==> hit_bomb(old(board)@, r.uncovered@),
        r.exploded ==> r.pending@.len() == 0,
        // what is pending is covered, next to an uncovered empty cell, and never a bomb
        forall|n: Coordinates|
            #[trigger] r.pending@.contains(n) ==> final(board)@.covered.contains_key(n) && next_to_empty(
                old(board)@,
                r.uncovered@,
                n,
            ) && !old(board)@.tiles.bomb_at(n.x as int, n.y as int),
        // and every covered cell next to an uncovered empty cell is pending
        !r.exploded ==> forall|k: int, n: Coordinates|
            0 <= k < r.uncovered@.len() && old(board)@.tiles.tile(
                r.uncovered@[k].0.x as int,
                r.uncovered@[k].0.y as int,
            ) == Tile::Empty && #[trigger] square_seq(r.uncovered@[k].0).contains(n)
                && final(board)@.covered.contains_key(n) ==> r.pending@.contains(n),
        r.won == (!r.exploded && final(board)@.won()),
{
    let ghost v0 = board@;
    let ghost c0 = board@.covered_cells();
    let mut uncovered: Vec<(Coordinates, EntityId)> = Vec::new();
    let mut next: Vec<Coordinates> = Vec::new();
    let mut exploded = false;
    let mut i: usize = 0;
    while i < pending.len()
        invariant
            board.wf(),
            board@.tiles == v0.tiles,
            board@.bounds == v0.bounds,
            board@.tile_size == v0.tile_size,
            board@.entity == v0.entity,
            board@.covered_cells() + uncovered@.len() == c0,
            v0.wf(),
            i <= pending@.len(),
            forall|k: int|
                0 <= k < uncovered@.len() ==> v0.cover((#[trigger] uncovered@[k]).0) == Some(uncovered@[k].1)
                    && pending@.contains(uncovered@[k].0),
            forall|k: int, m: int|
                0 <= k < m < uncovered@.len() ==> (#[trigger] uncovered@[k]).0 != (#[trigger] uncovered@[m]).0,
            forall|c: Coordinates|
                #[trigger] board@.covered.contains_key(c) ==> v0.covered.contains_key(c) && board@.covered[c]
                    == v0.covered[c],
            forall|c: Coordinates|
                #[trigger] v0.covered.contains_key(c) ==> (board@.covered.contains_key(c)
                    <==> !cells_of(uncovered@).contains(c)),
            exploded <==> hit_bomb(v0, uncovered@),
            forall|j: int| 0 <= j < i ==> !board@.covered.contains_key(#[trigger] pending@[j]),
            forall|k: int, n: Coordinates|
                0 <= k < uncovered@.len() && v0.tiles.tile(uncovered@[k].0.x as int, uncovered@[k].0.y as int)
                    == Tile::Empty && #[trigger] square_seq(uncovered@[k].0).contains(n)
                    && board@.covered.contains_key(n) ==> next@.contains(n),
            forall|n: Coordinates| #[trigger] next@.contains(n) ==> next_to_empty(v0, uncovered@, n),
        decreases pending@.len() - i,
    {
        let c = pending[i];
        let ghost before = board@;
        let ghost u0 = uncovered@;
        let got = board.try_uncover_tile(c);
        match got {
            None => {
                assert(board@.covered =~= before.covered);
            },
            Some(h) => {
                proof {
                    assert forall|k: int| 0 <= k < u0.len() implies (#[trigger] u0[k]).0 != c by {
                        assert(cells_of(u0)[k] == u0[k].0);
                    }
                }
                uncovered.push((c, h));
                proof {
                    assert forall|k: int, m: int| 0 <= k < m < uncovered@.len() implies (#[trigger] uncovered@[k]).0
                        != (#[trigger] uncovered@[m]).0 by {
                        assert(uncovered@[k] == u0[k]);
                        if m < u0.len() {
                            assert(uncovered@[m] == u0[m]);
                        }
                    }
                    assert(cells_of(uncovered@) =~= cells_of(u0).push(c));
                    assert(pending@[i as int] == c);
                    assert forall|c2: Coordinates| #[trigger] v0.covered.contains_key(c2) implies (
                    board@.covered.contains_key(c2) <==> !cells_of(uncovered@).contains(c2)) by {
                        if c2 != c && cells_of(uncovered@).contains(c2) {
                            let k = choose|k: int| 0 <= k < cells_of(uncovered@).len() && cells_of(uncovered@)[k] == c2;
                            assert(cells_of(u0)[k] == c2);
                        }
                        if c2 != c && cells_of(u0).contains(c2) {
                            let k = choose|k: int| 0 <= k < cells_of(u0).len() && cells_of(u0)[k] == c2;
                            assert(cells_of(uncovered@)[k] == c2);
                        }
                        if c2 == c {
                            assert(cells_of(uncovered@)[u0.len() as int] == c2);
                        }
                    }
                    if hit_bomb(v0, u0) {
                        let k = choose|k: int| 0 <= k < u0.len() && v0.tiles.bomb_at((#[trigger] u0[k]).0.x as int, u0[k].0.y as int);
                        assert(uncovered@[k] == u0[k]);
                    }
                    if hit_bomb(v0, uncovered@) && !v0.tiles.bomb_at(c.x as int, c.y as int) {
                        let k = choose|k: int| 0 <= k < uncovered@.len() && v0.tiles.bomb_at((#[trigger] uncovered@[k]).0.x as int, uncovered@[k].0.y as int);
                        assert(uncovered@[k] == u0[k]);
                    }
                    assert(uncovered@[u0.len() as int] == (c, h));
                    assert forall|k: int| 0 <= k < uncovered@.len() implies v0.cover((#[trigger] uncovered@[k]).0)
                        == Some(uncovered@[k].1) && pending@.contains(uncovered@[k].0) by {
                        if k < u0.len() {
                            assert(uncovered@[k] == u0[k]);
                        }
                    }
                    assert forall|n: Coordinates| #[trigger] next@.contains(n) implies next_to_empty(v0, uncovered@, n) by {
                        let k = choose|k: int|
                            0 <= k < u0.len() && v0.tiles.tile(u0[k].0.x as int, u0[k].0.y as int) == Tile::Empty
                                && #[trigger] square_seq(u0[k].0).contains(n);
                        assert(uncovered@[k] == u0[k]);
                    }
                }
                let t = board.tile_map().tile_at(c);
                match t {
                    Some(Tile::Bomb) => {
                        exploded = true;
                    },
                    Some(Tile::Empty) => {
                        let ghost next0 = next@;
                        push_covered_neighbors(board, c, &mut next);
                        proof {
                            let last = (u0.len()) as int;
                            assert(uncovered@[last] == (c, h));
                            assert forall|n: Coordinates| #[trigger] next@.contains(n) implies next_to_empty(
                                v0,
                                uncovered@,
                                n,
                            ) by {
                                if !next0.contains(n) {
                                    assert(square_seq(uncovered@[last].0).contains(n));
                                }
                            }
                        }
                    },
                    _ => {},
                }
            },
        }
        i = i + 1;
    }
    if exploded {
        next = Vec::new();
    }
    // Keep only what is still covered.
    let mut still: Vec<Coordinates> = Vec::new();
    let mut j: usize = 0;
    while j < next.len()
        invariant
            board.wf(),
            board@.covered_cells() + uncovered@.len() == c0,
            j <= next@.len(),
            still@.len() <= j,
            exploded ==> next@.len() == 0,
            forall|n: Coordinates| #[trigger] still@.contains(n) ==> next@.contains(n) && board@.covered.contains_key(n),
            forall|m: int| 0 <= m < j && board@.covered.contains_key(next@[m]) ==> still@.contains(#[trigger] next@[m]),
        decreases next@.len() - j,
    {
        let n = next[j];
        let ghost pre = still@;
        if board.tile_to_uncover(n).is_some() {
            still.push(n);
            proof {
                assert(still@[pre.len() as int] == n);
                assert forall|m: Coordinates| #[trigger] still@.contains(m) implies next@.contains(m) && board@.covered.contains_key(m) by {
                    if m != n {
                        let k = choose|k: int| 0 <= k < still@.len() && still@[k] == m;
                        assert(pre[k] == m);
                        assert(pre.contains(m));
                    } else {
                        assert(next@[j as int] == m);
                    }
                }
                assert forall|m: int| 0 <= m < j + 1 && board@.covered.contains_key(next@[m]) implies still@.contains(#[trigger] next@[m]) by {
                    if m < j {
                        let k = choose|k: int| 0 <= k < pre.len() && pre[k] == next@[m];
                        assert(still@[k] == next@[m]);
                    }
                }
            }
        }
        j = j + 1;
    }
    proof {
        assert forall|n: Coordinates| #[trigger] still@.contains(n) implies !v0.tiles.bomb_at(n.x as int, n.y as int) by {
            let k = choose|k: int|
                0 <= k < uncovered@.len() && v0.tiles.tile(uncovered@[k].0.x as int, uncovered@[k].0.y as int)
                    == Tile::Empty && #[trigger] square_seq(uncovered@[k].0).contains(n);
            lemma_empty_neighbors_safe(v0.tiles, uncovered@[k].0, n);
        }
        if !exploded {
            assert forall|k: int, n: Coordinates|
                0 <= k < uncovered@.len() && v0.tiles.tile(uncovered@[k].0.x as int, uncovered@[k].0.y as int)
                    == Tile::Empty && #[trigger] square_seq(uncovered@[k].0).contains(n)
                    && board@.covered.contains_key(n) implies still@.contains(n) by {
                let m = choose|m: int| 0 <= m < next@.len() && next@[m] == n;
            }
        }
    }
    let won = !exploded && board.is_won();
    TickResult { uncovered, pending: still, exploded, won }
}

/// What the cascade from `start` has done so far, with `pending` the next pass.
spec fn cascade_inv(
    v0: BoardView,
    b: BoardView,
    all: Seq<(Coordinates, EntityId)>,
    pending: Seq<Coordinates>,
    start: Coordinates,
    exploded: bool,
) -> bool {
    &&& forall|k: int| 0 <= k < all.len() ==> v0.cover((#[trigger] all[k]).0) == Some(all[k].1)
    &&& forall|k: int, m: int| 0 <= k < m < all.len() ==> (#[trigger] all[k]).0 != (#[trigger] all[m]).0
    &&& forall|c: Coordinates|
        #[trigger] b.covered.contains_key(c) ==> v0.covered.contains_key(c) && b.covered[c] == v0.covered[c]
    &&& forall|c: Coordinates|
        #[trigger] v0.covered.contains_key(c) ==> (b.covered.contains_key(c) <==> !cells_of(all).contains(c))
    &&& v0.covered.contains_key(start) <==> all.len() > 0
    &&& all.len() > 0 ==> all[0].0 == start
    &&& forall|k: int| 0 < k < all.len() ==> reached(v0, all, k)
    &&& exploded <==> v0.covered.contains_key(start) && v0.tiles.bomb_at(start.x as int, start.y as int)
    &&& exploded ==> all.len() == 1 && pending.len() == 0
    &&& forall|k: int| 0 < k < all.len() ==> !v0.tiles.bomb_at((#[trigger] all[k]).0.x as int, all[k].0.y as int)
    &&& forall|n: Coordinates|
        #[trigger] pending.contains(n) ==> next_to_empty(v0, all, n) && !v0.tiles.bomb_at(n.x as int, n.y as int)
    &&& !exploded ==> forall|k: int, n: Coordinates|
        0 <= k < all.len() && v0.tiles.tile(all[k].0.x as int, all[k].0.y as int) == Tile::Empty
            && #[trigger] square_seq(all[k].0).contains(n) && b.covered.contains_key(n) ==> pending.contains(n)
}

/// What one pass over `pending_in` promises, from `before` to `after`.
spec fn pass_done(
    before: BoardView,
    after: BoardView,
    pending_in: Seq<Coordinates>,
    u: Seq<(Coordinates, EntityId)>,
    pending_out: Seq<Coordinates>,
    exploded: bool,
) -> bool {
    &&& after.tiles == before.tiles
    &&& forall|k: int| 0 <= k < u.len() ==> before.cover((#[trigger] u[k]).0) == Some(u[k].1) && pending_in.contains(u[k].0)
    &&& forall|k: int, m: int| 0 <= k < m < u.len() ==> (#[trigger] u[k]).0 != (#[trigger] u[m]).0
    &&& forall|c: Coordinates|
        #[trigger] after.covered.contains_key(c) ==> before.covered.contains_key(c) && after.covered[c] == before.covered[c]
    &&& forall|c: Coordinates|
        #[trigger] before.covered.contains_key(c) ==> (after.covered.contains_key(c) <==> !cells_of(u).contains(c))
    &&& exploded <==> hit_bomb(before, u)
    &&& forall|j: int| 0 <= j < pending_in.len() ==> !after.covered.contains_key(#[trigger] pending_in[j])
    &&& forall|n: Coordinates| #[trigger] pending_out.contains(n) ==> after.covered.contains_key(n) && next_to_empty(before, u, n)
    &&& !exploded ==> forall|k: int, n: Coordinates|
        0 <= k < u.len() && before.tiles.tile(u[k].0.x as int, u[k].0.y as int) == Tile::Empty
            && #[trigger] square_seq(u[k].0).contains(n) && after.covered.contains_key(n) ==> pending_out.contains(n)
}

proof fn lemma_pass_step(
    v0: BoardView,
    before: BoardView,
    after: BoardView,
    a0: Seq<(Coordinates, EntityId)>,
    pending_in: Seq<Coordinates>,
    u: Seq<(Coordinates, EntityId)>,
    pending_out: Seq<Coordinates>,
    start: Coordinates,
    exploded: bool,
)
    requires
        v0.wf(),
        before.tiles == v0.tiles,
        cascade_inv(v0, before, a0, pending_in, start, false),
        pending_in.len() > 0,
        pass_done(before, after, pending_in, u, pending_out, exploded),
    ensures
        !exploded,
        pending_out.len() > 0 ==> u.len() > 0,
        cascade_inv(v0, after, a0 + u, pending_out, start, false),
{
    let all = a0 + u;
    if exploded {
        let k = choose|k: int| 0 <= k < u.len() && before.tiles.bomb_at((#[trigger] u[k]).0.x as int, u[k].0.y as int);
        assert(pending_in.contains(u[k].0));
    }
    if pending_out.len() > 0 {
        assert(pending_out.contains(pending_out[0]));
    }
    assert(pending_in.contains(pending_in[0]));
    assert(a0.len() > 0);
    assert(all[0] == a0[0]);
    assert forall|k: int| 0 <= k < all.len() implies v0.cover((#[trigger] all[k]).0) == Some(all[k].1) by {
        if k >= a0.len() {
            assert(all[k] == u[k - a0.len()]);
            assert(before.cover(u[k - a0.len()].0) == Some(u[k - a0.len()].1));
            assert(before.covered.contains_key(u[k - a0.len()].0));
        } else {
            assert(all[k] == a0[k]);
        }
    }
    assert forall|k: int, m: int| 0 <= k < m < all.len() implies (#[trigger] all[k]).0 != (#[trigger] all[m]).0 by {
        if m >= a0.len() {
            let um = u[m - a0.len()];
            assert(all[m] == um);
            assert(before.cover(um.0) == Some(um.1));
            if k < a0.len() {
                assert(all[k] == a0[k]);
                assert(cells_of(a0)[k] == a0[k].0);
                assert(v0.cover(a0[k].0) == Some(a0[k].1));
                assert(!before.covered.contains_key(a0[k].0));
            } else {
                assert(all[k] == u[k - a0.len()]);
            }
        } else {
            assert(all[k] == a0[k] && all[m] == a0[m]);
        }
    }
    assert forall|c: Coordinates| #[trigger] v0.covered.contains_key(c) implies (after.covered.contains_key(c)
        <==> !cells_of(all).contains(c)) by {
        lemma_cells_of_concat(a0, u, c);
        if cells_of(u).contains(c) {
            let m = choose|m: int| 0 <= m < cells_of(u).len() && cells_of(u)[m] == c;
            assert(u[m].0 == c);
            assert(before.cover(u[m].0) == Some(u[m].1));
        }
    }
    assert forall|k: int| 0 < k < all.len() implies reached(v0, all, k) by {
        if k < a0.len() {
            assert(reached(v0, a0, k));
            let j = choose|j: int|
                0 <= j < k && v0.tiles.tile(a0[j].0.x as int, a0[j].0.y as int) == Tile::Empty
                    && #[trigger] square_seq(a0[j].0).contains(a0[k].0);
            assert(all[j] == a0[j] && all[k] == a0[k]);
        } else {
            let m = k - a0.len();
            assert(all[k] == u[m]);
            assert(pending_in.contains(u[m].0));
            let n = u[m].0;
            assert(next_to_empty(v0, a0, n));
            let j = choose|j: int|
                0 <= j < a0.len() && v0.tiles.tile(a0[j].0.x as int, a0[j].0.y as int) == Tile::Empty
                    && #[trigger] square_seq(a0[j].0).contains(n);
            assert(all[j] == a0[j]);
        }
    }
    assert forall|k: int| 0 < k < all.len() implies !v0.tiles.bomb_at(
        (#[trigger] all[k]).0.x as int,
        all[k].0.y as int,
    ) by {
        if k >= a0.len() {
            assert(all[k] == u[k - a0.len()]);
            assert(pending_in.contains(u[k - a0.len()].0));
        } else {
            assert(all[k] == a0[k]);
        }
    }
    assert forall|n: Coordinates| #[trigger] pending_out.contains(n) implies next_to_empty(v0, all, n)
        && !v0.tiles.bomb_at(n.x as int, n.y as int) by {
        assert(next_to_empty(before, u, n));
        let m = choose|m: int|
            0 <= m < u.len() && before.tiles.tile(u[m].0.x as int, u[m].0.y as int) == Tile::Empty
                && #[trigger] square_seq(u[m].0).contains(n);
        assert(all[a0.len() + m] == u[m]);
        assert(u[m].0 == all[a0.len() + m].0);
        assert(before.covered.contains_key(u[m].0));
        lemma_empty_neighbors_safe(v0.tiles, u[m].0, n);
    }
    assert forall|k: int, n: Coordinates|
        0 <= k < all.len() && v0.tiles.tile(all[k].0.x as int, all[k].0.y as int) == Tile::Empty
            && #[trigger] square_seq(all[k].0).contains(n) && after.covered.contains_key(n)
            implies pending_out.contains(n) by {
        if k < a0.len() {
            assert(all[k] == a0[k]);
            assert(before.covered.contains_key(n));
            assert(pending_in.contains(n));
            let j = choose|j: int| 0 <= j < pending_in.len() && pending_in[j] == n;
            assert(!after.covered.contains_key(pending_in[j]));
        } else {
            assert(all[k] == u[k - a0.len()]);
        }
    }
}

#[verifier::rlimit(100)]
proof fn lemma_first_pass(
    v0: BoardView,
    after: BoardView,
    u: Seq<(Coordinates, EntityId)>,
    pending_out: Seq<Coordinates>,
    start: Coordinates,
    exploded: bool,
)
    requires
        v0.wf(),
        pass_done(v0, after, seq![start], u, pending_out, exploded),
        exploded ==> pending_out.len() == 0,
    ensures
        cascade_inv(v0, after, u, pending_out, start, exploded),
{
    let one = seq![start];
    if u.len() > 0 {
        assert(one.contains(u[0].0));
        assert(u.len() == 1) by {
            if u.len() > 1 {
                assert(one.contains(u[1].0));
                assert(u[0].0 != u[1].0);
            }
        }
        assert(u.last() == u[0]);
    }
    if v0.covered.contains_key(start) {
        assert(!after.covered.contains_key(one[0]));
        if u.len() == 0 {
            assert(!cells_of(u).contains(start));
        }
        assert(u[0].0 == start);
        if v0.tiles.bomb_at(start.x as int, start.y as int) {
            assert(v0.tiles.bomb_at(u[0].0.x as int, u[0].0.y as int));
        }
    }
    if exploded {
        let k = choose|k: int| 0 <= k < u.len() && v0.tiles.bomb_at((#[trigger] u[k]).0.x as int, u[k].0.y as int);
        assert(one.contains(u[k].0));
        assert(v0.cover(u[k].0) == Some(u[k].1));
    }
    if !v0.covered.contains_key(start) && u.len() > 0 {
        assert(v0.cover(u[0].0) == Some(u[0].1));
    }
    assert forall|n: Coordinates| #[trigger] pending_out.contains(n) implies next_to_empty(v0, u, n)
        && !v0.tiles.bomb_at(n.x as int, n.y as int) by {
        let m = choose|m: int|
            0 <= m < u.len() && v0.tiles.tile(u[m].0.x as int, u[m].0.y as int) == Tile::Empty
                && #[trigger] square_seq(u[m].0).contains(n);
        assert(v0.covered.contains_key(u[m].0));
        lemma_empty_neighbors_safe(v0.tiles, u[m].0, n);
    }
}

/// Runs the cascade from `start` to its end, pass after pass. Uncovers `start`, if it is
/// covered, and from there every covered cell that a chain of empty cells reaches: each
/// cell after the first lies next to an empty cell uncovered before it, and when it ends
/// no covered cell lies next to an uncovered empty one. Only `start` can be a bomb; then
/// the cascade stops there. Returns the cells uncovered, in order, with their cover
/// handles, and whether a bomb went off.
pub fn uncover_from(board: &mut Board, start: Coordinates) -> (r: (Vec<(Coordinates, EntityId)>, bool))
    requires
        old(board).wf(),
    ensures
        final(board).wf(),
        final(board)@.tiles == old(board)@.tiles,
        final(board)@.bounds == old(board)@.bounds,
        final(board)@.tile_size == old(board)@.tile_size,
        final(board)@.entity == old(board)@.entity,
        forall|k: int|
            0 <= k < r.0@.len() ==> old(board)@.cover((#[trigger] r.0@[k]).0) == Some(r.0@[k].1),
        forall|k: int, m: int| 0 <= k < m < r.0@.len() ==> (#[trigger] r.0@[k]).0 != (#[trigger] r.0@[m]).0,
        forall|c: Coordinates|
            #[trigger] final(board)@.covered.contains_key(c) ==> old(board)@.covered.contains_key(c)
                && final(board)@.covered[c] == old(board)@.covered[c],
        forall|c: Coordinates|
            #[trigger] old(board)@.covered.contains_key(c) ==> (final(board)@.covered.contains_key(c)
                <==> !cells_of(r.0@).contains(c)),
        old(board)@.covered.contains_key(start) <==> r.0@.len() > 0,
        r.0@.len() > 0 ==> r.0@[0].0 == start,
        forall|k: int| 0 < k < r.0@.len() ==> reached(old(board)@, r.0@, k),
        r.1 <==> old(board)@.covered.contains_key(start) && old(board)@.tiles.bomb_at(start.x as int, start.y as int),
        r.1 ==> r.0@.len() == 1,
        forall|k: int|
            0 < k < r.0@.len() ==> !old(board)@.tiles.bomb_at(
                (#[trigger] r.0@[k]).0.x as int,
                r.0@[k].0.y as int,
            ),
        !r.1 ==> closed_region(old(board)@, final(board)@, r.0@),
{
    let ghost v0 = board@;
    let ghost c0 = board@.covered_cells();
    let mut one: Vec<Coordinates> = Vec::new();
    one.push(start);
    let first = uncover_tiles(board, &one);
    proof {
        assert(one@ =~= seq![start]);
        assert(pass_done(v0, board@, seq![start], first.uncovered@, first.pending@, first.exploded));
        lemma_first_pass(v0, board@, first.uncovered@, first.pending@, start, first.exploded);
    }
    let mut all = first.uncovered;
    let exploded = first.exploded;
    let mut pending = first.pending;
    while pending.len() > 0
        invariant
            board.wf(),
            v0.wf(),
            board@.tiles == v0.tiles,
            board@.bounds == v0.bounds,
            board@.tile_size == v0.tile_size,
            board@.entity == v0.entity,
            board@.covered_cells() + all@.len() == c0,
            cascade_inv(v0, board@, all@, pending@, start, exploded),
        decreases board@.covered_cells() * 2 + if pending@.len() > 0 { 1nat } else { 0 },
    {
        let ghost before = board@;
        let ghost a0 = all@;
        let ghost pending_in = pending@;
        let tick = uncover_tiles(board, &pending);
        proof {
            lemma_pass_step(v0, before, board@, a0, pending_in, tick.uncovered@, tick.pending@, start, tick.exploded);
        }
        let mut fresh = tick.uncovered;
        all.append(&mut fresh);
        pending = tick.pending;
    }
    proof {
        if !exploded {
            assert forall|k: int, n: Coordinates|
                0 <= k < all@.len() && v0.tiles.tile(all@[k].0.x as int, all@[k].0.y as int) == Tile::Empty
                    && #[trigger] square_seq(all@[k].0).contains(n) implies !board@.covered.contains_key(n) by {
                if board@.covered.contains_key(n) {
                    assert(pending@.contains(n));
                }
            }
        }
    }
    (all, exploded)
}

/// `path` steps from cell to neighbouring cell of the grid, leaving only empty cells.
pub open spec fn empty_walk(v: TileMapView, path: Seq<Coordinates>) -> bool {
    &&& path.len() > 0
    &&& forall|i: int| 0 <= i < path.len() ==> v.in_grid((#[trigger] path[i]).x as int, path[i].y as int)
    &&& forall|i: int|
        0 <= i < path.len() - 1 ==> v.tile((#[trigger] path[i]).x as int, path[i].y as int) == Tile::Empty
            && square_seq(path[i]).contains(path[i + 1])
}

/// `c` lies in the region of `start`: the connected empty cells around it and the
/// numbered cells that border them.
pub open spec fn in_region(v: TileMapView, start: Coordinates, c: Coordinates) -> bool {
    exists|path: Seq<Coordinates>| #[trigger] empty_walk(v, path) && path[0] == start && path.last() == c
}

#[verifier::rlimit(100)]
proof fn lemma_reached_in_region(v: BoardView, u: Seq<(Coordinates, EntityId)>, start: Coordinates, k: int)
    requires
        v.wf(),
        0 <= k < u.len(),
        u[0].0 == start,
        forall|m: int| 0 <= m < u.len() ==> #[trigger] v.covered.contains_key(u[m].0),
        forall|m: int| 0 < m < u.len() ==> reached(v, u, m),
    ensures
        in_region(v.tiles, start, u[k].0),
    decreases k,
{
    if k == 0 {
        let path = seq![start];
        assert(v.covered.contains_key(u[0].0));
        assert(empty_walk(v.tiles, path));
    } else {
        assert(reached(v, u, k));
        let j = choose|j: int|
            0 <= j < k && v.tiles.tile(u[j].0.x as int, u[j].0.y as int) == Tile::Empty && #[trigger] square_seq(
                u[j].0,
            ).contains(u[k].0);
        lemma_reached_in_region(v, u, start, j);
        let path = choose|path: Seq<Coordinates>| #[trigger] empty_walk(v.tiles, path) && path[0] == start && path.last() == u[j].0;
        let longer = path.push(u[k].0);
        assert(v.covered.contains_key(u[k].0));
        assert(v.covered.contains_key(u[j].0));
        assert forall|i: int| 0 <= i < longer.len() implies v.tiles.in_grid((#[trigger] longer[i]).x as int, longer[i].y as int) by {
            if i < path.len() {
                assert(longer[i] == path[i]);
            }
        }
        assert forall|i: int| 0 <= i < longer.len() - 1 implies v.tiles.tile((#[trigger] longer[i]).x as int, longer[i].y as int)
            == Tile::Empty && square_seq(longer[i]).contains(longer[i + 1]) by {
            assert(longer[i] == path[i]);
            if i < path.len() - 1 {
                assert(longer[i + 1] == path[i + 1]);
            }
        }
        assert(empty_walk(v.tiles, longer));
        assert(longer[0] == start);
    }
}

#[verifier::rlimit(100)]
proof fn lemma_walk_uncovered(
    v: BoardView,
    after: BoardView,
    u: Seq<(Coordinates, EntityId)>,
    start: Coordinates,
    path: Seq<Coordinates>,
    i: int,
)
    requires
        v.wf(),
        forall|c: Coordinates| v.tiles.in_grid(c.x as int, c.y as int) ==> #[trigger] v.covered.contains_key(c),
        u.len() > 0,
        u[0].0 == start,
        closed_region(v, after, u),
        forall|c: Coordinates|
            #[trigger] v.covered.contains_key(c) ==> (after.covered.contains_key(c) <==> !cells_of(u).contains(c)),
        empty_walk(v.tiles, path),
        path[0] == start,
        0 <= i < path.len(),
    ensures
        cells_of(u).contains(path[i]),
    decreases i,
{
    if i == 0 {
        assert(cells_of(u)[0] == start);
    } else {
        lemma_walk_uncovered(v, after, u, start, path, i - 1);
        let prev = path[i - 1];
        let k = choose|k: int| 0 <= k < cells_of(u).len() && cells_of(u)[k] == prev;
        assert(u[k].0 == prev);
        assert(v.tiles.tile(prev.x as int, prev.y as int) == Tile::Empty);
        assert(square_seq(u[k].0).contains(path[i]));
        assert(v.tiles.in_grid(path[i].x as int, path[i].y as int));
        assert(v.covered.contains_key(path[i]));
        assert(!after.covered.contains_key(path[i]));
    }
}

/// On a board with every cell covered, a cascade from `start` that hit no bomb uncovers
/// exactly the region of `start`: the empty cells connected to it and the numbered
/// cells that border them.
pub proof fn lemma_cascade_region(
    v: BoardView,
    after: BoardView,
    u: Seq<(Coordinates, EntityId)>,
    start: Coordinates,
    c: Coordinates,
)
    requires
        v.wf(),
        forall|c: Coordinates| v.tiles.in_grid(c.x as int, c.y as int) ==> #[trigger] v.covered.contains_key(c),
        forall|k: int| 0 <= k < u.len() ==> v.cover((#[trigger] u[k]).0) == Some(u[k].1),
        forall|c: Coordinates|
            #[trigger] v.covered.contains_key(c) ==> (after.covered.contains_key(c) <==> !cells_of(u).contains(c)),
        v.covered.contains_key(start) <==> u.len() > 0,
        u.len() > 0 ==> u[0].0 == start,
        forall|k: int| 0 < k < u.len() ==> reached(v, u, k),
        closed_region(v, after, u),
        v.tiles.in_grid(start.x as int, start.y as int),
    ensures
        cells_of(u).contains(c) <==> in_region(v.tiles, start, c),
{
    assert(v.covered.contains_key(start));
    assert forall|m: int| 0 <= m < u.len() implies #[trigger] v.covered.contains_key(u[m].0) by {
        assert(v.cover(u[m].0) == Some(u[m].1));
    }
    if cells_of(u).contains(c) {
        let k = choose|k: int| 0 <= k < cells_of(u).len() && cells_of(u)[k] == c;
        assert(u[k].0 == c);
        lemma_reached_in_region(v, u, start, k);
    }
    if in_region(v.tiles, start, c) {
        let path = choose|path: Seq<Coordinates>| #[trigger] empty_walk(v.tiles, path) && path[0] == start && path.last() == c;
        lemma_walk_uncovered(v, after, u, start, path, path.len() - 1);
    }
}

} // verus!
