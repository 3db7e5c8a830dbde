use summoning::gamemap::{GameMap, MapSpace};
use summoning::hexgrid::{move_dir, MapDirection, MapSpaceContents, INVALID};

const OFF: i32 = INVALID as i32;

fn board(playable: &[usize]) -> GameMap {
    let mut map = GameMap::default();
    for i in 0..100 {
        map.spaces[i].ndx = i as i32;
    }
    for &i in playable {
        map.spaces[i].contents = MapSpaceContents::Playable;
    }
    map
}

fn full_board() -> GameMap {
    let all: Vec<usize> = (0..100).collect();
    board(&all)
}

#[test]
fn default_map_is_empty() {
    let map = GameMap::default();
    assert_eq!(map.spaces.len(), 100);
    for cell in map.spaces.iter() {
        assert_eq!(cell.contents, MapSpaceContents::NotInMap);
        assert_eq!(cell.player, 0);
        assert_eq!(cell.power, 0);
        assert_eq!(cell.ndx, 0);
    }
    let cell = MapSpace::default();
    assert_eq!(cell.contents, MapSpaceContents::NotInMap);
    assert_eq!((cell.player, cell.power, cell.ndx), (0, 0, 0));
}

#[test]
fn search_dir_runs_to_the_rim_of_an_empty_board() {
    let map = full_board();
    assert_eq!(map.search_dir(44, MapDirection::North), 94);
    assert_eq!(map.search_dir(44, MapDirection::NorthEast), 79);
    assert_eq!(map.search_dir(44, MapDirection::SouthEast), 29);
    assert_eq!(map.search_dir(44, MapDirection::South), 4);
    assert_eq!(map.search_dir(44, MapDirection::SouthWest), 20);
    assert_eq!(map.search_dir(44, MapDirection::NorthWest), 60);
}

#[test]
fn search_dir_returns_the_origin_when_the_first_step_is_closed() {
    let mut map = full_board();
    assert_eq!(map.search_dir(0, MapDirection::South), 0);
    assert_eq!(map.search_dir(99, MapDirection::North), 99);
    map.spaces[54].contents = MapSpaceContents::Blocked;
    assert_eq!(map.search_dir(44, MapDirection::North), 44);
    map.spaces[54].contents = MapSpaceContents::NotInMap;
    assert_eq!(map.search_dir(44, MapDirection::North), 44);
    map.spaces[54].contents = MapSpaceContents::Playable;
    map.spaces[54].player = 2;
    map.spaces[54].power = 1;
    assert_eq!(map.search_dir(44, MapDirection::North), 44);
}

#[test]
fn search_dir_stops_before_an_occupied_cell() {
    let mut map = full_board();
    map.spaces[84].player = 1;
    map.spaces[84].power = 2;
    assert_eq!(map.search_dir(44, MapDirection::North), 74);
    map.spaces[64].contents = MapSpaceContents::Blocked;
    assert_eq!(map.search_dir(44, MapDirection::North), 54);
}

#[test]
fn search_dir_from_the_sentinel_is_the_sentinel() {
    let map = full_board();
    for d in MapDirection::iterator() {
        assert_eq!(map.search_dir(OFF, d), OFF);
    }
}

#[test]
fn search_dir_ends_on_an_open_cell_with_a_closed_step_behind() {
    let mut map = full_board();
    for i in [3usize, 17, 22, 48, 51, 66, 70, 85, 99] {
        map.spaces[i].contents = MapSpaceContents::Blocked;
    }
    for i in [5usize, 34, 58, 61, 92] {
        map.spaces[i].player = 1;
        map.spaces[i].power = 2;
    }
    for c in 0..100 {
        for d in MapDirection::iterator() {
            let end = map.search_dir(c, d);
            assert!((0..100).contains(&end));
            if end != c {
                let cell = map.spaces[end as usize];
                assert_eq!(cell.contents, MapSpaceContents::Playable);
                assert_eq!(cell.power, 0);
            }
            let next = move_dir(end, d);
            if next != OFF {
                let cell = map.spaces[next as usize];
                assert!(cell.contents != MapSpaceContents::Playable || cell.power != 0);
            }
            // the end is reached by at most nine steps
            let mut at = c;
            let mut steps = 0;
            while at != end {
                at = move_dir(at, d);
                steps += 1;
                assert!(steps <= 9);
            }
        }
    }
}

#[test]
fn neighbors_unfiltered_lists_all_six() {
    let map = full_board();
    assert_eq!(map.neighbors(44, false), vec![54, 55, 45, 34, 43, 53]);
    assert_eq!(map.neighbors(45, false), vec![55, 46, 36, 35, 34, 44]);
    assert_eq!(map.neighbors(0, false), vec![10, 11, 1, OFF, OFF, OFF]);
    assert_eq!(map.neighbors(99, false), vec![OFF, OFF, OFF, 89, 88, 98]);
}

#[test]
fn neighbors_valid_only_keeps_the_playable() {
    let mut map = full_board();
    assert_eq!(map.neighbors(0, true), vec![10, 11, 1]);
    assert_eq!(map.neighbors(44, true), vec![54, 55, 45, 34, 43, 53]);
    map.spaces[55].contents = MapSpaceContents::Blocked;
    map.spaces[34].contents = MapSpaceContents::NotInMap;
    assert_eq!(map.neighbors(44, true), vec![54, 45, 43, 53]);
    assert_eq!(map.neighbors(44, false), vec![54, 55, 45, 34, 43, 53]);
    // a cell that holds power is still a playable neighbour
    map.spaces[54].player = 1;
    map.spaces[54].power = 3;
    assert_eq!(map.neighbors(44, true), vec![54, 45, 43, 53]);
    let empty = GameMap::default();
    assert_eq!(empty.neighbors(44, true), Vec::<i32>::new());
}

#[test]
fn edge_spaces_of_a_full_board_are_its_rim() {
    let map = full_board();
    let mut rim = Vec::new();
    for i in 0..100 {
        let (row, col) = (i / 10, i % 10);
        if row == 0 || row == 9 || col == 0 || col == 9 {
            rim.push(i);
        }
    }
    assert_eq!(map.edge_spaces(), rim);
    assert_eq!(rim.len(), 36);
}

#[test]
fn edge_spaces_see_cells_outside_the_map_but_not_blocked_ones() {
    let mut map = full_board();
    map.spaces[44].contents = MapSpaceContents::Blocked;
    assert!(!map.edge_spaces().contains(&54));
    assert!(!map.edge_spaces().contains(&44));
    map.spaces[44].contents = MapSpaceContents::NotInMap;
    let edges = map.edge_spaces();
    for n in [54, 55, 45, 34, 43, 53] {
        assert!(edges.contains(&n));
    }
    assert!(!edges.contains(&44));
    assert_eq!(edges.len(), 42);
    assert_eq!(GameMap::default().edge_spaces(), Vec::<i32>::new());
}

#[test]
fn corners_are_the_edge_cells_with_fewest_neighbors() {
    // a row of three: the two ends have one playable neighbour each
    let map = board(&[44, 54, 64]);
    assert_eq!(map.edge_spaces(), vec![44, 54, 64]);
    assert_eq!(map.edge_spaces_corners(), vec![44, 64]);
    // a single cell has none
    let map = board(&[44]);
    assert_eq!(map.edge_spaces_corners(), vec![44]);
    // nothing playable, no corners
    assert_eq!(GameMap::default().edge_spaces_corners(), Vec::<i32>::new());
}

#[test]
fn corners_fall_back_to_higher_thresholds() {
    // on the full board the four corner cells have 2 or 3 neighbours
    let map = full_board();
    assert_eq!(map.neighbors(0, true).len(), 3);
    assert_eq!(map.neighbors(9, true).len(), 2);
    assert_eq!(map.neighbors(90, true).len(), 2);
    assert_eq!(map.neighbors(99, true).len(), 3);
    assert_eq!(map.edge_spaces_corners(), vec![9, 90]);
    // a triangle of three cells: each has two neighbours
    let map = board(&[44, 54, 55]);
    assert_eq!(map.edge_spaces_corners(), vec![44, 54, 55]);
}

#[test]
fn check_reachability_on_connected_boards() {
    assert!(full_board().check_reachability());
    assert!(GameMap::default().check_reachability());
    assert!(board(&[44]).check_reachability());
    assert!(board(&[44, 54, 64, 65]).check_reachability());
    // a long winding path that the fill has to follow against the scan order
    let path = [90, 80, 70, 60, 50, 40, 30, 20, 10, 0, 1, 2, 3, 4, 5, 6, 7, 8, 9];
    assert!(board(&path).check_reachability());
}

#[test]
fn check_reachability_finds_a_cut() {
    assert!(!board(&[44, 64]).check_reachability());
    assert!(!board(&[0, 99]).check_reachability());
    let mut map = full_board();
    for i in 40..50 {
        map.spaces[i].contents = MapSpaceContents::Blocked;
    }
    assert!(!map.check_reachability());
    map.spaces[45].contents = MapSpaceContents::Playable;
    assert!(map.check_reachability());
    // power and owners do not matter
    map.spaces[45].player = 1;
    map.spaces[45].power = 9;
    assert!(map.check_reachability());
    map.spaces[45].contents = MapSpaceContents::NotInMap;
    assert!(!map.check_reachability());
}

#[test]
fn well_formed_boards() {
    let mut map = full_board();
    assert!(map.well_formed());
    map.spaces[44].player = 2;
    map.spaces[44].power = 7;
    assert!(map.well_formed());
    // an owner without power is allowed, power without an owner is not
    map.spaces[45].player = 1;
    assert!(map.well_formed());
    map.spaces[46].power = 1;
    assert!(!map.well_formed());
    map.spaces[46].power = 0;
    // five seats are one too many
    map.spaces[47].player = 5;
    assert!(!map.well_formed());
    map.spaces[47].player = 0;
    // only playable cells are owned
    map.spaces[44].contents = MapSpaceContents::Blocked;
    assert!(!map.well_formed());
    map.spaces[44].contents = MapSpaceContents::Playable;
    // every cell knows its index
    map.spaces[99].ndx = 98;
    assert!(!map.well_formed());
    assert!(!GameMap::default().well_formed());
}
