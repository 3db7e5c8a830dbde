use summoning::gamemap::GameMap;
use summoning::hexgrid::MapSpaceContents;
use summoning::snapshot::GameSnapshot;

fn open_snapshot() -> GameSnapshot {
    let mut snap = GameSnapshot::default();
    for i in 0..100 {
        snap.map.spaces[i].ndx = i as i32;
        snap.map.spaces[i].contents = MapSpaceContents::Playable;
    }
    snap
}

fn own(snap: &mut GameSnapshot, at: usize, seat: u8, power: u8) {
    snap.map.spaces[at].player = seat + 1;
    snap.map.spaces[at].power = power;
}

#[test]
fn default_snapshot_is_empty() {
    let snap = GameSnapshot::default();
    assert_eq!(snap.score, [0, 0, 0, 0]);
    let empty = GameMap::default();
    for i in 0..100 {
        assert_eq!(snap.map.spaces[i].contents, empty.spaces[i].contents);
        assert_eq!(snap.map.spaces[i].power, 0);
    }
}

#[test]
fn simple_score_counts_cells_with_power() {
    let mut snap = open_snapshot();
    own(&mut snap, 3, 0, 5);
    own(&mut snap, 4, 0, 1);
    own(&mut snap, 50, 1, 2);
    own(&mut snap, 99, 3, 16);
    // owned but without power: does not count
    own(&mut snap, 60, 2, 0);
    assert_eq!(snap.calc_simple_score(0), 2);
    assert_eq!(snap.calc_simple_score(1), 1);
    assert_eq!(snap.calc_simple_score(2), 0);
    assert_eq!(snap.calc_simple_score(3), 1);
}

#[test]
fn simple_score_of_a_board_owned_by_one_seat() {
    let mut snap = open_snapshot();
    for i in 0..100 {
        own(&mut snap, i, 2, 1);
    }
    assert_eq!(snap.calc_simple_score(2), 100);
    assert_eq!(snap.calc_simple_score(0), 0);
}

#[test]
fn update_scores_fills_all_four_and_leaves_the_board() {
    let mut snap = open_snapshot();
    own(&mut snap, 3, 0, 5);
    own(&mut snap, 4, 0, 1);
    own(&mut snap, 50, 1, 2);
    own(&mut snap, 99, 3, 16);
    snap.score = [7, 7, 7, 7];
    let before = snap;
    snap.update_scores();
    assert_eq!(snap.score, [2, 1, 0, 1]);
    for i in 0..100 {
        assert_eq!(snap.map.spaces[i].player, before.map.spaces[i].player);
        assert_eq!(snap.map.spaces[i].power, before.map.spaces[i].power);
        assert_eq!(snap.map.spaces[i].contents, before.map.spaces[i].contents);
        assert_eq!(snap.map.spaces[i].ndx, before.map.spaces[i].ndx);
    }
}

#[test]
fn snapshots_are_copies() {
    let mut a = open_snapshot();
    own(&mut a, 10, 0, 4);
    let mut b = a;
    b.map.spaces[10].power = 1;
    b.score[0] = 9;
    assert_eq!(a.map.spaces[10].power, 4);
    assert_eq!(a.score[0], 0);
}

#[test]
fn accessors_read_cells_and_scores() {
    let mut snap = open_snapshot();
    own(&mut snap, 50, 1, 2);
    snap.update_scores();
    assert_eq!(snap.score_of(0), 0);
    assert_eq!(snap.score_of(1), 1);
    let cell = snap.map.space_at(50).unwrap();
    assert_eq!((cell.player, cell.power, cell.ndx), (2, 2, 50));
    assert_eq!(cell.contents, MapSpaceContents::Playable);
    assert!(snap.map.space_at(0).is_some());
    assert!(snap.map.space_at(99).is_some());
    assert!(snap.map.space_at(100).is_none());
    assert!(snap.map.space_at(-1).is_none());
    assert!(snap.map.space_at(9999).is_none());
}
