use maze::gen::recursive;
use maze::meta::{from_hex_string, to_hex_string, MetaData};
use maze::render::{init_edge_map, maze_pos, EdgePattern};
use maze::square_maze::{MazeCell, MazeError, SquareMaze, WallDirection};

fn generated_maze(width: usize, height: usize, seed: [u8; 16], start: (usize, usize)) -> SquareMaze {
    let mut m = SquareMaze::new_filled(width, height).unwrap();
    recursive(&mut m, seed, MazeCell::new(start.0, start.1));
    m
}

fn count_open_edges(m: &SquareMaze) -> usize {
    let mut n = 0;
    for y in 0..m.height {
        for x in 0..m.width {
            if y + 1 < m.height && !m.wall(WallDirection::NORTH, x, y) {
                n += 1;
            }
            if x + 1 < m.width && !m.wall(WallDirection::EAST, x, y) {
                n += 1;
            }
        }
    }
    n
}

fn flood_fill_count(m: &SquareMaze, start: (usize, usize)) -> usize {
    let mut seen = vec![false; m.width * m.height];
    let mut stack = vec![start];
    seen[start.1 * m.width + start.0] = true;
    let mut count = 1;
    while let Some((x, y)) = stack.pop() {
        if y + 1 < m.height && !m.wall(WallDirection::NORTH, x, y) && !seen[(y + 1) * m.width + x] {
            seen[(y + 1) * m.width + x] = true;
            count += 1;
            stack.push((x, y + 1));
        }
        if x + 1 < m.width && !m.wall(WallDirection::EAST, x, y) && !seen[y * m.width + x + 1] {
            seen[y * m.width + x + 1] = true;
            count += 1;
            stack.push((x + 1, y));
        }
        if y >= 1 && !m.wall(WallDirection::SOUTH, x, y) && !seen[(y - 1) * m.width + x] {
            seen[(y - 1) * m.width + x] = true;
            count += 1;
            stack.push((x, y - 1));
        }
        if x >= 1 && !m.wall(WallDirection::WEST, x, y) && !seen[y * m.width + x - 1] {
            seen[y * m.width + x - 1] = true;
            count += 1;
            stack.push((x - 1, y));
        }
    }
    count
}

fn wall_snapshot(m: &SquareMaze) -> Vec<bool> {
    let mut v = Vec::new();
    for y in 0..m.height {
        for x in 0..m.width {
            v.push(m.wall(WallDirection::NORTH, x, y));
            v.push(m.wall(WallDirection::EAST, x, y));
            v.push(m.wall(WallDirection::SOUTH, x, y));
            v.push(m.wall(WallDirection::WEST, x, y));
        }
    }
    v
}

#[test]
fn scenario_one_by_one() {
    let m = generated_maze(1, 1, [5; 16], (0, 0));
    assert!(m.wall(WallDirection::NORTH, 0, 0));
    assert!(m.wall(WallDirection::EAST, 0, 0));
    assert!(m.wall(WallDirection::SOUTH, 0, 0));
    assert!(m.wall(WallDirection::WEST, 0, 0));
    assert_eq!(count_open_edges(&m), 0);
}

#[test]
fn scenario_two_by_one_all_ones() {
    let m = generated_maze(2, 1, [1; 16], (0, 0));
    assert!(!m.wall(WallDirection::EAST, 0, 0));
    assert!(!m.wall(WallDirection::WEST, 1, 0));
    assert!(m.wall(WallDirection::NORTH, 0, 0));
    assert!(m.wall(WallDirection::SOUTH, 0, 0));
    assert!(m.wall(WallDirection::WEST, 0, 0));
    assert!(m.wall(WallDirection::NORTH, 1, 0));
    assert!(m.wall(WallDirection::SOUTH, 1, 0));
    assert!(m.wall(WallDirection::EAST, 1, 0));
    assert_eq!(count_open_edges(&m), 1);
}

#[test]
fn scenario_three_by_three_fixture() {
    let mut seed = [0u8; 16];
    for i in 0..16 {
        seed[i] = i as u8;
    }
    let m = generated_maze(3, 3, seed, (0, 0));
    assert_eq!(count_open_edges(&m), 8);
    assert_eq!(flood_fill_count(&m, (0, 0)), 9);
    assert!(m.wall(WallDirection::NORTH, 0, 0) == false);
    assert!(m.wall(WallDirection::EAST, 0, 0) == true);
    assert!(m.wall(WallDirection::NORTH, 1, 0) == false);
    assert!(m.wall(WallDirection::EAST, 1, 0) == false);
    assert!(m.wall(WallDirection::NORTH, 2, 0) == false);
    assert!(m.wall(WallDirection::EAST, 2, 0) == true);
    assert!(m.wall(WallDirection::NORTH, 0, 1) == false);
    assert!(m.wall(WallDirection::EAST, 0, 1) == true);
    assert!(m.wall(WallDirection::NORTH, 1, 1) == false);
    assert!(m.wall(WallDirection::EAST, 1, 1) == true);
    assert!(m.wall(WallDirection::NORTH, 2, 1) == false);
    assert!(m.wall(WallDirection::EAST, 2, 1) == true);
    assert!(m.wall(WallDirection::NORTH, 0, 2) == true);
    assert!(m.wall(WallDirection::EAST, 0, 2) == false);
    assert!(m.wall(WallDirection::NORTH, 1, 2) == true);
    assert!(m.wall(WallDirection::EAST, 1, 2) == true);
    assert!(m.wall(WallDirection::NORTH, 2, 2) == true);
    assert!(m.wall(WallDirection::EAST, 2, 2) == true);
}

#[test]
fn determinism_same_inputs() {
    let seed = [0xab; 16];
    let a = generated_maze(8, 8, seed, (0, 0));
    let b = generated_maze(8, 8, seed, (0, 0));
    assert_eq!(wall_snapshot(&a), wall_snapshot(&b));
    let c = generated_maze(5, 7, seed, (3, 2));
    let d = generated_maze(5, 7, seed, (3, 2));
    assert_eq!(wall_snapshot(&c), wall_snapshot(&d));
}

#[test]
fn spanning_tree_edge_count_and_connectivity() {
    let m = generated_maze(8, 8, [0x42; 16], (0, 0));
    assert_eq!(count_open_edges(&m), 63);
    assert_eq!(flood_fill_count(&m, (0, 0)), 64);
    let m2 = generated_maze(7, 3, [9; 16], (4, 1));
    assert_eq!(count_open_edges(&m2), 20);
    assert_eq!(flood_fill_count(&m2, (4, 1)), 21);
}

#[test]
fn boundary_sealed_after_generation() {
    let m = generated_maze(6, 4, [0x33; 16], (0, 0));
    for x in 0..6 {
        assert!(m.wall(WallDirection::SOUTH, x, 0));
        assert!(m.wall(WallDirection::NORTH, x, 3));
    }
    for y in 0..4 {
        assert!(m.wall(WallDirection::WEST, 0, y));
        assert!(m.wall(WallDirection::EAST, 5, y));
    }
}

#[test]
fn wall_symmetry() {
    let m = generated_maze(5, 4, [0x77; 16], (0, 0));
    for y in 0..4 {
        for x in 0..4 {
            assert_eq!(
                m.wall(WallDirection::EAST, x, y),
                m.wall(WallDirection::WEST, x + 1, y)
            );
        }
    }
    for y in 0..3 {
        for x in 0..5 {
            assert_eq!(
                m.wall(WallDirection::NORTH, x, y),
                m.wall(WallDirection::SOUTH, x, y + 1)
            );
        }
    }
}

#[test]
fn seed_sensitivity() {
    let zero = [0u8; 16];
    let mut one = [0u8; 16];
    one[0] = 1;
    let a = generated_maze(8, 8, zero, (0, 0));
    let b = generated_maze(8, 8, one, (0, 0));
    assert_ne!(wall_snapshot(&a), wall_snapshot(&b));

    let sevens = [7u8; 16];
    let mut sevens_last = [7u8; 16];
    sevens_last[15] = 8;
    let c = generated_maze(8, 8, sevens, (0, 0));
    let d = generated_maze(8, 8, sevens_last, (0, 0));
    assert_ne!(wall_snapshot(&c), wall_snapshot(&d));

    let threes = [3u8; 16];
    let mut threes_mid = [3u8; 16];
    threes_mid[7] = 4;
    let e = generated_maze(8, 8, threes, (0, 0));
    let f = generated_maze(8, 8, threes_mid, (0, 0));
    assert_ne!(wall_snapshot(&e), wall_snapshot(&f));
}

#[test]
fn hex_round_trip_all_bytes() {
    for b in 0..=255u8 {
        let seed = [b; 16];
        let s = to_hex_string(seed);
        let back = from_hex_string(s.as_str()).unwrap();
        assert_eq!(back, seed.to_vec());
    }
    let mut mixed = [0u8; 16];
    for i in 0..16 {
        mixed[i] = (i as u8) * 17;
    }
    let back = from_hex_string(to_hex_string(mixed).as_str()).unwrap();
    assert_eq!(back, mixed.to_vec());
}

#[test]
fn hex_exact_value() {
    let mut seed = [0u8; 16];
    for i in 0..16 {
        seed[i] = i as u8;
    }
    assert_eq!(
        to_hex_string(seed),
        "000102030405060708090a0b0c0d0e0f".to_string()
    );
    assert_eq!(to_hex_string([0xff; 16]).as_str(), "ffffffffffffffffffffffffffffffff");
}

#[test]
fn hex_parse_rejects_bad_input() {
    assert!(from_hex_string("abc").is_none());
    assert!(from_hex_string("0g").is_none());
    assert!(from_hex_string("AB").is_none());
    assert_eq!(from_hex_string("").unwrap(), Vec::<u8>::new());
    assert_eq!(from_hex_string("00ff").unwrap(), vec![0x00, 0xff]);
}

#[test]
fn invalid_dimensions_error() {
    assert_eq!(SquareMaze::new_filled(0, 3).unwrap_err(), MazeError::InvalidDimensions);
    assert_eq!(SquareMaze::new_filled(3, 0).unwrap_err(), MazeError::InvalidDimensions);
    assert_eq!(SquareMaze::new_filled(0, 0).unwrap_err(), MazeError::InvalidDimensions);
    assert!(SquareMaze::new_filled(1, 1).is_ok());
}

#[test]
fn out_of_bounds_error() {
    let m = SquareMaze::new_filled(3, 2).unwrap();
    assert_eq!(m.try_wall(WallDirection::NORTH, 3, 0).unwrap_err(), MazeError::OutOfBounds);
    assert_eq!(m.try_wall(WallDirection::EAST, 0, 2).unwrap_err(), MazeError::OutOfBounds);
    assert_eq!(m.try_wall(WallDirection::WEST, 1, 1).unwrap(), true);
}

#[test]
fn entry_set_to_start() {
    let m = generated_maze(4, 4, [2; 16], (2, 3));
    assert_eq!(m.entry.x, 2);
    assert_eq!(m.entry.y, 3);
    let fresh = SquareMaze::new_filled(4, 4).unwrap();
    assert_eq!(fresh.entry.x, 0);
    assert_eq!(fresh.entry.y, 0);
}

#[test]
fn fresh_maze_fully_walled() {
    let m = SquareMaze::new_filled(4, 3).unwrap();
    for y in 0..3 {
        for x in 0..4 {
            assert!(m.wall(WallDirection::NORTH, x, y));
            assert!(m.wall(WallDirection::EAST, x, y));
            assert!(m.wall(WallDirection::SOUTH, x, y));
            assert!(m.wall(WallDirection::WEST, x, y));
        }
    }
}

#[test]
fn edge_map_glyphs() {
    let map = init_edge_map();
    assert_eq!(map.len(), 16);
    assert_eq!(map[EdgePattern::new(false, false, false, false).code()], ' ');
    assert_eq!(map[EdgePattern::new(false, false, false, true).code()], '━');
    assert_eq!(map[EdgePattern::new(true, false, true, false).code()], '┃');
    assert_eq!(map[EdgePattern::new(true, true, true, true).code()], '╋');
    assert_eq!(map[EdgePattern::new(false, true, true, false).code()], '┓');
    assert_eq!(map[EdgePattern::new(true, false, false, true).code()], '┗');
}

#[test]
fn maze_pos_values() {
    assert_eq!(maze_pos(0, 0, 5), (2, 10));
    assert_eq!(maze_pos(3, 2, 5), (11, 6));
    assert_eq!(maze_pos(1, 5, 5), (5, 0));
}

#[test]
fn metadata_holds_seed() {
    let mut meta = MetaData::new_empty();
    assert_eq!(meta.seed, String::new());
    meta.seed = to_hex_string([1; 16]);
    assert_eq!(meta.seed.as_str(), "01010101010101010101010101010101");
}
