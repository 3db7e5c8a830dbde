use summoning::hexgrid::{map_index, move_dir, MapDirection, MapSpaceContents, INVALID, MAP_SZ};

const OFF: i32 = INVALID as i32;

#[test]
fn map_index_inside_and_outside() {
    assert_eq!(map_index(0, 0), 0);
    assert_eq!(map_index(3, 7), 37);
    assert_eq!(map_index(9, 9), 99);
    assert_eq!(map_index(-1, 0), OFF);
    assert_eq!(map_index(0, -1), OFF);
    assert_eq!(map_index(10, 0), OFF);
    assert_eq!(map_index(0, 10), OFF);
    assert_eq!(MAP_SZ, 10);
}

#[test]
fn map_index_never_wraps() {
    for row in -3..13 {
        for col in -3..13 {
            let inside = (0..10).contains(&row) && (0..10).contains(&col);
            let expected = if inside { row * 10 + col } else { OFF };
            assert_eq!(map_index(row, col), expected);
        }
    }
}

#[test]
fn move_dir_even_column() {
    // cell 44: row 4, column 4
    assert_eq!(move_dir(44, MapDirection::North), 54);
    assert_eq!(move_dir(44, MapDirection::NorthEast), 55);
    assert_eq!(move_dir(44, MapDirection::NorthWest), 53);
    assert_eq!(move_dir(44, MapDirection::South), 34);
    assert_eq!(move_dir(44, MapDirection::SouthWest), 43);
    assert_eq!(move_dir(44, MapDirection::SouthEast), 45);
}

#[test]
fn move_dir_odd_column() {
    // cell 45: row 4, column 5
    assert_eq!(move_dir(45, MapDirection::North), 55);
    assert_eq!(move_dir(45, MapDirection::NorthEast), 46);
    assert_eq!(move_dir(45, MapDirection::NorthWest), 44);
    assert_eq!(move_dir(45, MapDirection::South), 35);
    assert_eq!(move_dir(45, MapDirection::SouthWest), 34);
    assert_eq!(move_dir(45, MapDirection::SouthEast), 36);
}

#[test]
fn move_dir_stops_at_the_rim() {
    assert_eq!(move_dir(0, MapDirection::South), OFF);
    assert_eq!(move_dir(0, MapDirection::SouthWest), OFF);
    assert_eq!(move_dir(0, MapDirection::NorthWest), OFF);
    assert_eq!(move_dir(0, MapDirection::North), 10);
    assert_eq!(move_dir(0, MapDirection::NorthEast), 11);
    assert_eq!(move_dir(0, MapDirection::SouthEast), 1);
    assert_eq!(move_dir(99, MapDirection::North), OFF);
    assert_eq!(move_dir(99, MapDirection::NorthEast), OFF);
    assert_eq!(move_dir(99, MapDirection::SouthEast), OFF);
    assert_eq!(move_dir(99, MapDirection::NorthWest), 98);
    assert_eq!(move_dir(99, MapDirection::SouthWest), 88);
    assert_eq!(move_dir(99, MapDirection::South), 89);
    // a row's last cell does not lead into the next row's first
    assert_eq!(move_dir(9, MapDirection::NorthEast), OFF);
    assert_eq!(move_dir(10, MapDirection::SouthWest), OFF);
}

#[test]
fn move_dir_from_the_sentinel_stays_off_the_board() {
    for d in MapDirection::iterator() {
        assert_eq!(move_dir(OFF, d), OFF);
    }
}

#[test]
fn adjacency_is_symmetric_everywhere() {
    let mut steps = 0;
    for c in 0..100 {
        for d in MapDirection::iterator() {
            let n = move_dir(c, d);
            if n != OFF {
                assert!((0..100).contains(&n));
                assert_ne!(n, c);
                assert_eq!(move_dir(n, d.opposite()), c);
                steps += 1;
            }
        }
    }
    // 600 steps less those that leave the board
    assert_eq!(steps, 600 - 2 * 10 - 2 * 10 - 2 * (10 + 9));
}

#[test]
fn directions_come_clockwise_from_north() {
    let dirs: Vec<MapDirection> = MapDirection::iterator().into_iter().collect();
    assert_eq!(
        dirs,
        vec![
            MapDirection::North,
            MapDirection::NorthEast,
            MapDirection::SouthEast,
            MapDirection::South,
            MapDirection::SouthWest,
            MapDirection::NorthWest,
        ]
    );
}

#[test]
fn opposite_turns_around() {
    assert_eq!(MapDirection::North.opposite(), MapDirection::South);
    assert_eq!(MapDirection::NorthEast.opposite(), MapDirection::SouthWest);
    assert_eq!(MapDirection::NorthWest.opposite(), MapDirection::SouthEast);
    for d in MapDirection::iterator() {
        assert_eq!(d.opposite().opposite(), d);
        assert_ne!(d.opposite(), d);
    }
}

#[test]
fn contents_default_to_not_in_map() {
    assert_eq!(MapSpaceContents::default(), MapSpaceContents::NotInMap);
}
