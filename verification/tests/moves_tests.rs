use summoning::hexgrid::MapSpaceContents;
use summoning::moves::gen_valid_moves;
use summoning::snapshot::GameSnapshot;

fn snapshot_with(playable: &[usize]) -> GameSnapshot {
    let mut snap = GameSnapshot::default();
    for i in 0..100 {
        snap.map.spaces[i].ndx = i as i32;
    }
    for &i in playable {
        snap.map.spaces[i].contents = MapSpaceContents::Playable;
    }
    snap
}

fn open_snapshot() -> GameSnapshot {
    let all: Vec<usize> = (0..100).collect();
    snapshot_with(&all)
}

fn own(snap: &mut GameSnapshot, at: usize, seat: u8, power: u8) {
    snap.map.spaces[at].player = seat + 1;
    snap.map.spaces[at].power = power;
}

fn total_power(snap: &GameSnapshot) -> u32 {
    snap.map.spaces.iter().map(|c| c.power as u32).sum()
}

fn changed_cells(a: &GameSnapshot, b: &GameSnapshot) -> Vec<usize> {
    (0..100)
        .filter(|&i| {
            let (x, y) = (a.map.spaces[i], b.map.spaces[i]);
            x.power != y.power || x.player != y.player || x.contents != y.contents || x.ndx != y.ndx
        })
        .collect()
}

#[test]
fn three_by_three_board_gives_twelve_moves() {
    // rows 0 to 2, columns 0 to 2; the cell in the middle is 11
    let mut snap = snapshot_with(&[0, 1, 2, 10, 11, 12, 20, 21, 22]);
    own(&mut snap, 11, 0, 3);
    let moves = gen_valid_moves(snap, 0);
    assert_eq!(moves.len(), 12);
    // directions clockwise from north, each with amounts 1 and 2
    let targets = [21usize, 12, 2, 1, 0, 10];
    for (k, next) in moves.iter().enumerate() {
        let dst = targets[k / 2];
        let amt = (k % 2 + 1) as u8;
        assert_eq!(total_power(next), 3);
        assert_eq!(next.map.spaces[11].power, 3 - amt);
        assert_eq!(next.map.spaces[11].player, 1);
        assert_eq!(next.map.spaces[dst].power, amt);
        assert_eq!(next.map.spaces[dst].player, 1);
        assert_eq!(changed_cells(&snap, next), {
            let mut v = vec![11, dst];
            v.sort();
            v
        });
        assert_eq!(next.score, snap.score);
    }
}

#[test]
fn moves_go_to_the_far_end_of_each_ray() {
    let mut snap = open_snapshot();
    own(&mut snap, 44, 1, 2);
    snap.score = [3, 1, 4, 1];
    let moves = gen_valid_moves(snap, 1);
    assert_eq!(moves.len(), 6);
    let targets = [94usize, 79, 29, 4, 20, 60];
    for (k, next) in moves.iter().enumerate() {
        assert_eq!(next.map.spaces[44].power, 1);
        assert_eq!(next.map.spaces[targets[k]].power, 1);
        assert_eq!(next.map.spaces[targets[k]].player, 2);
        assert_eq!(changed_cells(&snap, next), {
            let mut v = vec![44, targets[k]];
            v.sort();
            v
        });
        assert_eq!(next.score, [3, 1, 4, 1]);
    }
}

#[test]
fn moves_are_listed_by_cell_then_direction_then_amount() {
    let mut snap = open_snapshot();
    own(&mut snap, 70, 0, 3);
    own(&mut snap, 15, 0, 4);
    let moves = gen_valid_moves(snap, 0);
    // cell 15 comes first: row 1 (odd column 5), south is one step away
    let sources: Vec<usize> = moves
        .iter()
        .map(|m| if m.map.spaces[15].power != 4 { 15 } else { 70 })
        .collect();
    let first_70 = sources.iter().position(|&s| s == 70).unwrap();
    assert!(sources[..first_70].iter().all(|&s| s == 15));
    assert!(sources[first_70..].iter().all(|&s| s == 70));
    assert_eq!(first_70, 6 * 3);
    // within one ray the amounts rise
    assert_eq!(moves[0].map.spaces[15].power, 3);
    assert_eq!(moves[1].map.spaces[15].power, 2);
    assert_eq!(moves[2].map.spaces[15].power, 1);
    // cell 70 sits in column 0: nothing to the west
    assert_eq!(moves.len() - first_70, 4 * 2);
}

#[test]
fn no_moves_without_power_to_split() {
    let mut snap = open_snapshot();
    assert_eq!(gen_valid_moves(snap, 0).len(), 0);
    own(&mut snap, 44, 0, 1);
    own(&mut snap, 45, 0, 1);
    own(&mut snap, 77, 1, 5);
    assert_eq!(gen_valid_moves(snap, 0).len(), 0);
    assert_eq!(gen_valid_moves(snap, 2).len(), 0);
    assert_eq!(gen_valid_moves(snap, 3).len(), 0);
    assert!(gen_valid_moves(snap, 1).len() > 0);
}

#[test]
fn no_moves_when_every_ray_is_closed() {
    let mut snap = snapshot_with(&[44]);
    own(&mut snap, 44, 0, 9);
    assert_eq!(gen_valid_moves(snap, 0).len(), 0);
    let mut snap = open_snapshot();
    own(&mut snap, 44, 0, 9);
    for n in [54usize, 55, 45, 34, 43, 53] {
        own(&mut snap, n, 1, 1);
    }
    assert_eq!(gen_valid_moves(snap, 0).len(), 0);
}

#[test]
fn every_move_conserves_power_and_touches_two_cells() {
    let mut snap = open_snapshot();
    for i in [3usize, 17, 22, 48, 51, 66] {
        snap.map.spaces[i].contents = MapSpaceContents::Blocked;
    }
    own(&mut snap, 44, 0, 6);
    own(&mut snap, 12, 0, 2);
    own(&mut snap, 88, 1, 16);
    own(&mut snap, 35, 1, 1);
    own(&mut snap, 90, 2, 255);
    for seat in 0..4usize {
        let moves = gen_valid_moves(snap, seat);
        for next in moves.iter() {
            assert_eq!(total_power(next), total_power(&snap));
            let changed = changed_cells(&snap, next);
            assert_eq!(changed.len(), 2);
            let (a, b) = (changed[0], changed[1]);
            let (src, dst) = if snap.map.spaces[a].power > 0 { (a, b) } else { (b, a) };
            assert_eq!(snap.map.spaces[src].player, seat as u8 + 1);
            assert_eq!(snap.map.spaces[dst].power, 0);
            let amt = next.map.spaces[dst].power;
            assert!(amt >= 1);
            assert_eq!(next.map.spaces[src].power + amt, snap.map.spaces[src].power);
            assert!(next.map.spaces[src].power >= 1);
            assert_eq!(next.map.spaces[dst].player, seat as u8 + 1);
            assert_eq!(next.map.spaces[src].player, seat as u8 + 1);
        }
    }
    // the cell with all the power has two open rays of 254 amounts each
    assert_eq!(gen_valid_moves(snap, 2).len(), 2 * 254);
    assert_eq!(gen_valid_moves(snap, 3).len(), 0);
}
