use board_plugin::{
    generate_map, trigger_event_handler, uncover_from, uncover_tiles, Board, BoardError, Bounds2, Coordinates,
    EntityId, Tile, TileMap, TileTriggerEvent,
};
use rand::rngs::StdRng;
use rand::SeedableRng;
use std::collections::{BTreeSet, VecDeque};

fn at(x: u16, y: u16) -> Coordinates {
    Coordinates { x, y }
}

fn covers_for(map: &TileMap) -> Vec<EntityId> {
    let n = map.width() as u64 * map.height() as u64;
    (0..n).map(|i| EntityId(100 + i)).collect()
}

fn board_for(map: TileMap) -> Board {
    let covers = covers_for(&map);
    Board::new(map, -50, 20, 16, covers, EntityId(1)).unwrap()
}

fn handle_of(board: &Board, c: Coordinates) -> EntityId {
    EntityId(100 + c.y as u64 * board.tile_map().width() as u64 + c.x as u64)
}

/// Runs passes until nothing is pending; returns what was uncovered and whether a bomb went off.
fn run_cascade(board: &mut Board, start: Coordinates) -> (BTreeSet<Coordinates>, bool) {
    let mut pending = vec![start];
    let mut seen = BTreeSet::new();
    let mut exploded = false;
    while !pending.is_empty() {
        let tick = uncover_tiles(board, &pending);
        for (c, h) in &tick.uncovered {
            assert!(seen.insert(*c));
            assert_eq!(*h, handle_of(board, *c));
        }
        exploded |= tick.exploded;
        pending = tick.pending;
    }
    (seen, exploded)
}

fn expected_region(map: &TileMap, start: Coordinates) -> BTreeSet<Coordinates> {
    let mut region = BTreeSet::new();
    let mut queue = VecDeque::new();
    region.insert(start);
    queue.push_back(start);
    while let Some(c) = queue.pop_front() {
        if map.tile_at(c) != Some(Tile::Empty) {
            continue;
        }
        for dy in -1i32..=1 {
            for dx in -1i32..=1 {
                let nx = c.x as i32 + dx;
                let ny = c.y as i32 + dy;
                if (dx, dy) == (0, 0) || nx < 0 || ny < 0 || nx >= map.width() as i32 || ny >= map.height() as i32 {
                    continue;
                }
                let n = at(nx as u16, ny as u16);
                if region.insert(n) {
                    queue.push_back(n);
                }
            }
        }
    }
    region
}

#[test]
fn new_board_covers_every_cell() {
    let board = board_for(TileMap::empty(3, 2).unwrap());
    for y in 0..2 {
        for x in 0..3 {
            assert_eq!(board.tile_to_uncover(at(x, y)), Some(handle_of(&board, at(x, y))));
        }
    }
    assert_eq!(board.tile_to_uncover(at(3, 0)), None);
    assert_eq!(board.bounds(), Bounds2 { x: -50, y: 20, width: 48, height: 32 });
    assert_eq!(board.tile_size(), 16);
    assert_eq!(board.entity(), EntityId(1));
    assert!(!board.is_won());
}

#[test]
fn new_board_rejects_bad_layout() {
    let map = TileMap::empty(3, 2).unwrap();
    let err = Board::new(map.clone(), 0, 0, 16, vec![EntityId(1); 5], EntityId(0)).unwrap_err();
    assert_eq!(err, BoardError::InvalidLayout);
    let err = Board::new(map, 0, 0, 0, vec![EntityId(1); 6], EntityId(0)).unwrap_err();
    assert_eq!(err, BoardError::InvalidLayout);
}

#[test]
fn uncover_twice_is_a_no_op() {
    let mut board = board_for(TileMap::empty(4, 4).unwrap());
    let c = at(2, 1);
    assert_eq!(board.try_uncover_tile(c), Some(handle_of(&board, c)));
    assert_eq!(board.tile_to_uncover(c), None);
    let before: Vec<_> = (0..16).map(|i| board.tile_to_uncover(at(i % 4, i / 4))).collect();
    assert_eq!(board.try_uncover_tile(c), None);
    let after: Vec<_> = (0..16).map(|i| board.tile_to_uncover(at(i % 4, i / 4))).collect();
    assert_eq!(before, after);
    assert_eq!(board.try_uncover_tile(at(9, 9)), None);
}

#[test]
fn adjacent_covered_lists_remaining_neighbours() {
    let mut board = board_for(TileMap::empty(3, 3).unwrap());
    board.try_uncover_tile(at(1, 0));
    board.try_uncover_tile(at(1, 1));
    let handles = board.adjacent_covered_tiles(at(0, 0));
    assert_eq!(handles, vec![handle_of(&board, at(0, 1))]);
    let around = board.adjacent_covered_tiles(at(1, 1));
    assert_eq!(around.len(), 7);
}

#[test]
fn pixel_round_trip_for_every_cell() {
    let board = board_for(TileMap::empty(5, 4).unwrap());
    for y in 0..4 {
        for x in 0..5 {
            let (px, py) = board.tile_center(at(x, y));
            assert_eq!(board.pixel_to_coordinate(px, py), Some(at(x, y)));
        }
    }
    assert_eq!(board.tile_center(at(0, 0)), (-42, 28));
}

#[test]
fn pixels_off_the_board() {
    let board = board_for(TileMap::empty(5, 4).unwrap());
    assert_eq!(board.pixel_to_coordinate(-51, 20), None);
    assert_eq!(board.pixel_to_coordinate(-50, 19), None);
    assert_eq!(board.pixel_to_coordinate(30, 20), None);
    assert_eq!(board.pixel_to_coordinate(29, 83), Some(at(4, 3)));
    assert_eq!(board.pixel_to_coordinate(29, 84), None);
    assert_eq!(board.pixel_to_coordinate(-50, 20), Some(at(0, 0)));
    assert_eq!(board.pixel_to_coordinate(i64::MIN, i64::MAX), None);
}

fn first_bomb(map: &TileMap) -> Coordinates {
    for y in 0..map.height() {
        for x in 0..map.width() {
            if map.is_bomb_at(at(x, y)) {
                return at(x, y);
            }
        }
    }
    panic!("no bomb");
}

#[test]
fn clicking_a_bomb_explodes_without_propagation() {
    let mut rng = StdRng::seed_from_u64(5);
    let map = generate_map(6, 6, 10, &mut rng).unwrap();
    let bomb = first_bomb(&map);
    let mut board = board_for(map);
    let tick = uncover_tiles(&mut board, &vec![bomb]);
    assert!(tick.exploded);
    assert!(!tick.won);
    assert_eq!(tick.uncovered, vec![(bomb, handle_of(&board, bomb))]);
    assert!(tick.pending.is_empty());
    for y in 0..6 {
        for x in 0..6 {
            let covered = board.tile_to_uncover(at(x, y)).is_some();
            assert_eq!(covered, at(x, y) != bomb);
        }
    }
}

#[test]
fn bomb_among_pending_cells_still_uncovers_them_all() {
    let mut rng = StdRng::seed_from_u64(5);
    let map = generate_map(6, 6, 10, &mut rng).unwrap();
    let bomb = first_bomb(&map);
    let others: Vec<Coordinates> = [at(0, 0), at(5, 5), at(3, 2)].into_iter().filter(|c| *c != bomb).collect();
    let mut pending = vec![bomb];
    pending.extend(others.iter().copied());
    let mut board = board_for(map);
    let tick = uncover_tiles(&mut board, &pending);
    assert!(tick.exploded);
    assert!(!tick.won);
    assert!(tick.pending.is_empty());
    let expected: Vec<(Coordinates, EntityId)> = pending.iter().map(|c| (*c, handle_of(&board, *c))).collect();
    assert_eq!(tick.uncovered, expected);
    for c in &pending {
        assert_eq!(board.tile_to_uncover(*c), None);
    }
}

#[test]
fn last_safe_cell_and_a_bomb_in_one_pass_is_no_win() {
    let mut rng = StdRng::seed_from_u64(13);
    let map = generate_map(4, 4, 5, &mut rng).unwrap();
    let bomb = first_bomb(&map);
    let mut safe = Vec::new();
    for y in 0..4 {
        for x in 0..4 {
            if !map.is_bomb_at(at(x, y)) {
                safe.push(at(x, y));
            }
        }
    }
    let mut board = board_for(map);
    for c in &safe {
        board.try_uncover_tile(*c);
    }
    assert!(board.is_won());
    let tick = uncover_tiles(&mut board, &vec![bomb]);
    assert!(tick.exploded);
    assert!(!tick.won);
}

#[test]
fn cascade_from_empty_board_uncovers_everything_and_wins() {
    let mut board = board_for(TileMap::empty(5, 3).unwrap());
    let first = uncover_tiles(&mut board, &vec![at(0, 0)]);
    assert_eq!(first.uncovered, vec![(at(0, 0), handle_of(&board, at(0, 0)))]);
    assert_eq!(first.pending, vec![at(1, 0), at(0, 1), at(1, 1)]);
    assert!(!first.won);
    let (rest, exploded) = run_cascade(&mut board, at(1, 0));
    assert!(!exploded);
    assert_eq!(rest.len(), 14);
    assert!(board.is_won());
}

#[test]
fn cascade_uncovers_exactly_the_empty_region_and_its_border() {
    for seed in 0..30u64 {
        let mut rng = StdRng::seed_from_u64(seed);
        let map = generate_map(10, 8, 12, &mut rng).unwrap();
        let start = match map.first_empty() {
            Some(c) => c,
            None => continue,
        };
        let expected = expected_region(&map, start);
        let mut board = board_for(map);
        let (got, exploded) = run_cascade(&mut board, start);
        assert!(!exploded);
        assert_eq!(got, expected);
        for c in &got {
            assert!(!board.tile_map().is_bomb_at(*c));
        }
    }
}

#[test]
fn numbered_cell_does_not_propagate() {
    let mut rng = StdRng::seed_from_u64(11);
    let map = generate_map(6, 6, 8, &mut rng).unwrap();
    let mut numbered = None;
    for y in 0..6 {
        for x in 0..6 {
            if let Some(Tile::BombNeighbor(_)) = map.tile_at(at(x, y)) {
                numbered = Some(at(x, y));
            }
        }
    }
    let c = numbered.unwrap();
    let mut board = board_for(map);
    let tick = uncover_tiles(&mut board, &vec![c, c]);
    assert_eq!(tick.uncovered.len(), 1);
    assert!(tick.pending.is_empty());
    assert!(!tick.exploded);
}

#[test]
fn win_after_uncovering_all_safe_cells() {
    let mut rng = StdRng::seed_from_u64(12);
    let map = generate_map(4, 4, 5, &mut rng).unwrap();
    let mut safe = Vec::new();
    for y in 0..4 {
        for x in 0..4 {
            if !map.is_bomb_at(at(x, y)) {
                safe.push(at(x, y));
            }
        }
    }
    let mut board = board_for(map);
    let (last, rest) = safe.split_last().unwrap();
    for c in rest {
        board.try_uncover_tile(*c);
    }
    assert!(!board.is_won());
    let tick = uncover_tiles(&mut board, &vec![*last]);
    assert!(tick.won);
    assert!(!tick.exploded);
}

#[test]
fn trigger_events_keep_covered_targets() {
    let mut board = board_for(TileMap::empty(3, 3).unwrap());
    board.try_uncover_tile(at(1, 1));
    let events = vec![
        TileTriggerEvent(at(0, 0)),
        TileTriggerEvent(at(1, 1)),
        TileTriggerEvent(at(7, 7)),
        TileTriggerEvent(at(2, 2)),
    ];
    assert_eq!(trigger_event_handler(&board, &events), vec![at(0, 0), at(2, 2)]);
}

#[test]
fn safe_start_cell_never_holds_a_bomb() {
    for seed in 0..20u64 {
        let mut rng = StdRng::seed_from_u64(seed);
        let map = generate_map(8, 8, 20, &mut rng).unwrap();
        if let Some(c) = map.first_empty() {
            let mut board = board_for(map);
            let tick = uncover_tiles(&mut board, &vec![c]);
            assert!(!tick.exploded);
        }
    }
}

#[test]
fn full_cascade_matches_region() {
    for seed in 0..30u64 {
        let mut rng = StdRng::seed_from_u64(100 + seed);
        let map = generate_map(12, 9, 15, &mut rng).unwrap();
        let start = match map.first_empty() {
            Some(c) => c,
            None => continue,
        };
        let expected = expected_region(&map, start);
        let mut board = board_for(map);
        let (cells, exploded) = uncover_from(&mut board, start);
        assert!(!exploded);
        assert_eq!(cells[0].0, start);
        let got: BTreeSet<Coordinates> = cells.iter().map(|p| p.0).collect();
        assert_eq!(got.len(), cells.len());
        assert_eq!(got, expected);
        for (c, h) in &cells {
            assert_eq!(*h, handle_of(&board, *c));
            assert_eq!(board.tile_to_uncover(*c), None);
        }
    }
}

#[test]
fn full_cascade_from_bomb_stops_at_once() {
    let mut rng = StdRng::seed_from_u64(77);
    let map = generate_map(5, 5, 6, &mut rng).unwrap();
    let mut bomb = at(0, 0);
    for y in 0..5 {
        for x in 0..5 {
            if map.is_bomb_at(at(x, y)) {
                bomb = at(x, y);
            }
        }
    }
    let mut board = board_for(map);
    let (cells, exploded) = uncover_from(&mut board, bomb);
    assert!(exploded);
    assert_eq!(cells, vec![(bomb, handle_of(&board, bomb))]);
    let (again, exploded_again) = uncover_from(&mut board, bomb);
    assert!(again.is_empty());
    assert!(!exploded_again);
}

#[test]
fn full_cascade_from_numbered_cell_uncovers_only_it() {
    let mut rng = StdRng::seed_from_u64(78);
    let map = generate_map(5, 5, 6, &mut rng).unwrap();
    let mut numbered = None;
    for y in 0..5 {
        for x in 0..5 {
            if let Some(Tile::BombNeighbor(_)) = map.tile_at(at(x, y)) {
                numbered = Some(at(x, y));
            }
        }
    }
    let c = numbered.unwrap();
    let mut board = board_for(map);
    let (cells, exploded) = uncover_from(&mut board, c);
    assert!(!exploded);
    assert_eq!(cells, vec![(c, handle_of(&board, c))]);
}

#[test]
fn bounds_include_left_and_bottom_edges_only() {
    let b = Bounds2 { x: -10, y: 5, width: 20, height: 4 };
    assert!(b.in_bounds(-10, 5));
    assert!(b.in_bounds(9, 8));
    assert!(!b.in_bounds(10, 8));
    assert!(!b.in_bounds(9, 9));
    assert!(!b.in_bounds(-11, 6));
    assert!(!b.in_bounds(i64::MAX, i64::MIN));
}
