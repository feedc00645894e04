use board_plugin::{generate_map, BoardError, Coordinates, Tile, TileMap};
use rand::rngs::StdRng;
use rand::SeedableRng;

fn at(x: u16, y: u16) -> Coordinates {
    Coordinates { x, y }
}

fn count_bombs(map: &TileMap) -> usize {
    let mut n = 0;
    for y in 0..map.height() {
        for x in 0..map.width() {
            if map.is_bomb_at(at(x, y)) {
                n += 1;
            }
        }
    }
    n
}

fn brute_force(map: &TileMap, x: u16, y: u16) -> u8 {
    let mut n = 0;
    for dy in -1i32..=1 {
        for dx in -1i32..=1 {
            if dx == 0 && dy == 0 {
                continue;
            }
            let nx = x as i32 + dx;
            let ny = y as i32 + dy;
            if nx >= 0 && ny >= 0 && nx < map.width() as i32 && ny < map.height() as i32 {
                if map.is_bomb_at(at(nx as u16, ny as u16)) {
                    n += 1;
                }
            }
        }
    }
    n
}

#[test]
fn empty_four_by_four_has_no_bombs() {
    let map = TileMap::empty(4, 4).unwrap();
    assert_eq!(map.width(), 4);
    assert_eq!(map.height(), 4);
    assert_eq!(map.bomb_count(), 0);
    for y in 0..4 {
        for x in 0..4 {
            assert_eq!(map.tile_at(at(x, y)), Some(Tile::Empty));
            assert_eq!(map.bomb_count_at(at(x, y)), 0);
        }
    }
}

#[test]
fn zero_bombs_leave_every_cell_empty() {
    let mut rng = StdRng::seed_from_u64(1);
    let map = generate_map(4, 4, 0, &mut rng).unwrap();
    for y in 0..4 {
        for x in 0..4 {
            assert_eq!(map.tile_at(at(x, y)), Some(Tile::Empty));
            assert_eq!(map.bomb_count_at(at(x, y)), 0);
        }
    }
}

#[test]
fn empty_rejects_zero_sizes() {
    assert_eq!(TileMap::empty(0, 3).unwrap_err(), BoardError::InvalidDimensions);
    assert_eq!(TileMap::empty(3, 0).unwrap_err(), BoardError::InvalidDimensions);
    let mut rng = StdRng::seed_from_u64(2);
    assert_eq!(generate_map(0, 0, 0, &mut rng).unwrap_err(), BoardError::InvalidDimensions);
}

#[test]
fn full_board_of_bombs_is_refused() {
    let mut map = TileMap::empty(3, 3).unwrap();
    let mut rng = StdRng::seed_from_u64(3);
    assert_eq!(map.set_bombs(9, &mut rng), Err(BoardError::TooManyMines));
    assert_eq!(map.set_bombs(10, &mut rng), Err(BoardError::TooManyMines));
    assert_eq!(map.bomb_count(), 0);
    assert_eq!(count_bombs(&map), 0);
}

#[test]
fn all_but_one_cell_can_hold_a_bomb() {
    let mut map = TileMap::empty(3, 3).unwrap();
    let mut rng = StdRng::seed_from_u64(4);
    assert_eq!(map.set_bombs(8, &mut rng), Ok(()));
    assert_eq!(count_bombs(&map), 8);
    let safe = map.first_empty();
    assert_eq!(safe, None);
}

#[test]
fn bomb_count_matches_request() {
    for seed in 0..40u64 {
        let mut rng = StdRng::seed_from_u64(seed);
        let (w, h, b) = (5 + (seed % 7) as u16, 4 + (seed % 5) as u16, (seed * 3 % 19) as u16);
        let map = generate_map(w, h, b, &mut rng).unwrap();
        assert_eq!(map.bomb_count(), b);
        assert_eq!(count_bombs(&map), b as usize);
    }
}

#[test]
fn neighbour_counts_match_brute_force() {
    for seed in 0..20u64 {
        let mut rng = StdRng::seed_from_u64(seed);
        let map = generate_map(9, 7, 20, &mut rng).unwrap();
        for y in 0..7 {
            for x in 0..9 {
                let c = at(x, y);
                if map.is_bomb_at(c) {
                    assert_eq!(map.tile_at(c), Some(Tile::Bomb));
                    assert_eq!(map.bomb_count_at(c), 0);
                } else {
                    let n = brute_force(&map, x, y);
                    assert_eq!(map.bomb_count_at(c), n);
                    let expected = if n == 0 { Tile::Empty } else { Tile::BombNeighbor(n) };
                    assert_eq!(map.tile_at(c), Some(expected));
                }
            }
        }
    }
}

#[test]
fn single_center_bomb_numbers_every_other_cell_one() {
    let mut found = false;
    for seed in 0..500u64 {
        let mut rng = StdRng::seed_from_u64(seed);
        let map = generate_map(3, 3, 1, &mut rng).unwrap();
        if !map.is_bomb_at(at(1, 1)) {
            continue;
        }
        found = true;
        for y in 0..3 {
            for x in 0..3 {
                if (x, y) != (1, 1) {
                    assert_eq!(map.bomb_count_at(at(x, y)), 1);
                    assert_eq!(map.tile_at(at(x, y)), Some(Tile::BombNeighbor(1)));
                }
            }
        }
        break;
    }
    assert!(found);
}

#[test]
fn lookups_outside_the_grid() {
    let map = TileMap::empty(2, 2).unwrap();
    assert!(!map.is_bomb_at(at(2, 0)));
    assert!(!map.is_bomb_at(at(0, 65535)));
    assert_eq!(map.tile_at(at(5, 5)), None);
}

#[test]
fn square_around_corner_and_middle() {
    let map = TileMap::empty(3, 3).unwrap();
    let middle = map.safe_square_at(at(1, 1));
    assert_eq!(
        middle,
        vec![at(0, 0), at(1, 0), at(2, 0), at(0, 1), at(2, 1), at(0, 2), at(1, 2), at(2, 2)]
    );
    let corner = map.safe_square_at(at(0, 0));
    assert_eq!(
        corner,
        vec![at(0, 0), at(0, 0), at(1, 0), at(0, 0), at(1, 0), at(0, 1), at(0, 1), at(1, 1)]
    );
    let far = map.safe_square_at(at(65535, 65535));
    assert_eq!(
        far,
        vec![
            at(65534, 65534),
            at(65535, 65534),
            at(65535, 65534),
            at(65534, 65535),
            at(65535, 65535),
            at(65534, 65535),
            at(65535, 65535),
            at(65535, 65535)
        ]
    );
}

#[test]
fn console_output_of_empty_map() {
    let map = TileMap::empty(2, 1).unwrap();
    assert_eq!(map.console_output(), "Map (2, 1) with 0 bombs:\n----\n|  |\n----");
}

#[test]
fn console_output_draws_top_row_first() {
    let mut rng = StdRng::seed_from_u64(9);
    let map = generate_map(2, 2, 3, &mut rng).unwrap();
    let out = map.console_output();
    let mut expected = String::from("Map (2, 2) with 3 bombs:\n----\n");
    for y in (0..2).rev() {
        expected.push('|');
        for x in 0..2 {
            expected.push_str(&map.tile_at(at(x, y)).unwrap().console_output());
        }
        expected.push_str("|\n");
    }
    expected.push_str("----");
    assert_eq!(out, expected);
    assert_eq!(out.matches('*').count(), 3);
}

#[test]
fn tile_text() {
    assert_eq!(Tile::Bomb.console_output(), "*");
    assert_eq!(Tile::Empty.console_output(), " ");
    assert_eq!(Tile::BombNeighbor(7).console_output(), "7");
    assert!(Tile::Bomb.is_bomb());
    assert!(!Tile::BombNeighbor(2).is_bomb());
}

#[test]
fn first_empty_is_first_in_row_order() {
    for seed in 0..10u64 {
        let mut rng = StdRng::seed_from_u64(seed);
        let map = generate_map(6, 5, 12, &mut rng).unwrap();
        let mut expected = None;
        'scan: for y in 0..5 {
            for x in 0..6 {
                if map.tile_at(at(x, y)) == Some(Tile::Empty) {
                    expected = Some(at(x, y));
                    break 'scan;
                }
            }
        }
        assert_eq!(map.first_empty(), expected);
    }
}

#[test]
fn seeded_generation_is_repeatable() {
    let a = generate_map(8, 8, 10, &mut StdRng::seed_from_u64(42)).unwrap();
    let b = generate_map(8, 8, 10, &mut StdRng::seed_from_u64(42)).unwrap();
    assert_eq!(a.console_output(), b.console_output());
}

#[test]
fn corner_counts_each_neighbour_once() {
    for seed in 0..200u64 {
        let mut rng = StdRng::seed_from_u64(seed);
        let map = generate_map(3, 3, 1, &mut rng).unwrap();
        if !map.is_bomb_at(at(1, 0)) {
            continue;
        }
        assert_eq!(map.bomb_count_at(at(0, 0)), 1);
        assert_eq!(map.bomb_count_at(at(2, 0)), 1);
        assert_eq!(map.bomb_count_at(at(0, 1)), 1);
        assert_eq!(map.bomb_count_at(at(1, 2)), 0);
        return;
    }
    panic!("no seed put the bomb at (1, 0)");
}
