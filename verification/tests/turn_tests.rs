use rand::rngs::StdRng;
use rand::SeedableRng;
use summoning::boardgen::build_map;
use summoning::evaluate::evaluate_position;
use summoning::hexgrid::{MapDirection, MapSpaceContents};
use summoning::moves::gen_valid_moves;
use summoning::snapshot::GameSnapshot;
use summoning::turn::{
    best_index, choose_move, move_events, move_strength, next_player, pick_move, split_source,
    try_split, GameStateChanged, SummonGame,
};

fn open_with(owned: &[(usize, u8, u8)]) -> GameSnapshot {
    let mut snap = GameSnapshot::default();
    for i in 0..100 {
        snap.map.spaces[i].ndx = i as i32;
        snap.map.spaces[i].contents = MapSpaceContents::Playable;
    }
    for &(at, seat, power) in owned {
        snap.map.spaces[at].player = seat + 1;
        snap.map.spaces[at].power = power;
    }
    snap
}

fn same_board(a: &GameSnapshot, b: &GameSnapshot) -> bool {
    (0..100).all(|i| {
        let (x, y) = (a.map.spaces[i], b.map.spaces[i]);
        x.power == y.power && x.player == y.player && x.contents == y.contents && x.ndx == y.ndx
    })
}

#[test]
fn next_player_skips_inactive_seats() {
    let all = [true, true, true, true];
    assert_eq!(next_player(0, all), 1);
    assert_eq!(next_player(1, all), 2);
    assert_eq!(next_player(3, all), 0);
    let some = [true, false, false, true];
    assert_eq!(next_player(0, some), 3);
    assert_eq!(next_player(3, some), 0);
    assert_eq!(next_player(1, some), 3);
    assert_eq!(next_player(2, some), 3);
}

#[test]
fn next_player_alone_or_with_nobody() {
    assert_eq!(next_player(2, [false, false, true, false]), 2);
    assert_eq!(next_player(0, [false, false, true, false]), 2);
    for turn in 0..4 {
        assert_eq!(next_player(turn, [false, false, false, false]), turn);
    }
}

#[test]
fn move_strength_weighs_the_mover_against_the_rest() {
    assert_eq!(move_strength([100, 20, 3, 0], 0, 3, 7), 7 + 200 - 20 - 3);
    assert_eq!(move_strength([100, 20, 3, 0], 1, 3, 0), 40 - 100 - 3);
    assert_eq!(move_strength([100, 20, 3, 0], 0, 1, 999), 999 - 23);
    assert_eq!(move_strength([100, 20, 3, 0], 0, 0, 0), -100 - 23);
    assert_eq!(move_strength([0, 0, 0, 50], 3, 4, 1), 151);
}

#[test]
fn best_index_is_the_first_of_the_strongest() {
    assert_eq!(best_index(&vec![5, 9, 9, 1], 3), 1);
    assert_eq!(best_index(&vec![5], 0), 0);
    assert_eq!(best_index(&vec![-5, -7, -5], 1), 0);
    assert_eq!(best_index(&vec![1, 2, 3, 4], 0), 3);
}

#[test]
fn best_index_falls_back_when_nothing_counts() {
    assert_eq!(best_index(&vec![-1_000_000_000, -2_000_000_000], 1), 1);
    assert_eq!(best_index(&vec![-1_000_000_000, -999_999_999], 0), 1);
}

#[test]
fn choose_move_plays_a_legal_move() {
    let snap = open_with(&[(44, 0, 5), (47, 1, 3), (0, 1, 1)]);
    for seed in 0..10u64 {
        let mut rng = StdRng::seed_from_u64(seed);
        let next = choose_move(snap, 0, 2, &mut rng).unwrap();
        let moves = gen_valid_moves(snap, 0);
        assert!(moves.iter().any(|m| same_board(m, &next)));
        // the noise is small: the move played is among the best by value
        let value = |s: &GameSnapshot| {
            let e = evaluate_position(*s);
            e[0] - e[1] - e[2] - e[3]
        };
        let best = moves.iter().map(|m| value(m)).max().unwrap();
        assert!(value(&next) > best - 1000);
    }
}

#[test]
fn choose_move_passes_without_moves() {
    let mut rng = StdRng::seed_from_u64(1);
    let snap = open_with(&[(44, 0, 1), (47, 1, 3)]);
    assert!(choose_move(snap, 0, 2, &mut rng).is_none());
    assert!(choose_move(snap, 2, 2, &mut rng).is_none());
    assert!(choose_move(snap, 1, 2, &mut rng).is_some());
}

#[test]
fn try_split_carries_out_a_legal_split() {
    let snap = open_with(&[(44, 0, 5), (47, 1, 3)]);
    let next = try_split(snap, 0, 44, MapDirection::North, 2).unwrap();
    assert_eq!((next.map.spaces[44].player, next.map.spaces[44].power), (1, 3));
    assert_eq!((next.map.spaces[94].player, next.map.spaces[94].power), (1, 2));
    assert_eq!(next.score, [2, 1, 0, 0]);
    for i in 0..100 {
        if i != 44 && i != 94 {
            assert_eq!(next.map.spaces[i].power, snap.map.spaces[i].power);
            assert_eq!(next.map.spaces[i].player, snap.map.spaces[i].player);
        }
    }
    let moves = gen_valid_moves(snap, 0);
    assert!(moves.iter().any(|m| same_board(m, &next)));
}

#[test]
fn try_split_refuses_what_is_not_allowed() {
    let mut snap = open_with(&[(44, 0, 5), (47, 1, 3), (10, 0, 1)]);
    // not the seat's cell
    assert!(try_split(snap, 0, 47, MapDirection::North, 1).is_none());
    assert!(try_split(snap, 2, 44, MapDirection::North, 1).is_none());
    // an empty cell, a cell with one unit, a cell off the board
    assert!(try_split(snap, 0, 45, MapDirection::North, 1).is_none());
    assert!(try_split(snap, 0, 10, MapDirection::North, 1).is_none());
    assert!(try_split(snap, 0, 9999, MapDirection::North, 1).is_none());
    assert!(try_split(snap, 0, -1, MapDirection::NorthEast, 1).is_none());
    assert!(try_split(snap, 0, 100, MapDirection::South, 1).is_none());
    // nothing, everything, more than everything
    assert!(try_split(snap, 0, 44, MapDirection::North, 0).is_none());
    assert!(try_split(snap, 0, 44, MapDirection::North, -3).is_none());
    assert!(try_split(snap, 0, 44, MapDirection::North, 5).is_none());
    assert!(try_split(snap, 0, 44, MapDirection::North, 300).is_none());
    assert!(try_split(snap, 0, 44, MapDirection::North, 4).is_some());
    // a ray that goes nowhere
    snap.map.spaces[54].contents = MapSpaceContents::Blocked;
    assert!(try_split(snap, 0, 44, MapDirection::North, 1).is_none());
    // a ray that ends on a cell that somebody owns without power
    snap.map.spaces[4].player = 2;
    assert!(try_split(snap, 0, 44, MapDirection::South, 1).is_none());
    assert!(try_split(snap, 0, 44, MapDirection::NorthEast, 1).is_some());
}

#[test]
fn split_source_is_the_first_cell_that_lost_power() {
    let old = open_with(&[(44, 0, 5), (47, 1, 3)]);
    let new = try_split(old, 0, 44, MapDirection::South, 2).unwrap();
    assert_eq!(split_source(&old, &new), Some(44));
    assert_eq!(split_source(&old, &old), None);
    assert_eq!(split_source(&new, &old), Some(4));
}

#[test]
fn move_events_report_a_split() {
    let old = open_with(&[(44, 0, 5), (47, 1, 3)]);
    // towards a higher index: the target comes after the source
    let new = try_split(old, 0, 44, MapDirection::North, 2).unwrap();
    assert_eq!(
        move_events(&old, &new),
        vec![GameStateChanged::CircleAdded(44), GameStateChanged::CircleSplit(44, 94)]
    );
    // towards a lower index: the target comes first
    let new = try_split(old, 0, 44, MapDirection::South, 2).unwrap();
    assert_eq!(
        move_events(&old, &new),
        vec![GameStateChanged::CircleSplit(44, 4), GameStateChanged::CircleAdded(44)]
    );
}

#[test]
fn move_events_without_a_split() {
    let old = open_with(&[(44, 0, 5)]);
    assert_eq!(move_events(&old, &old), Vec::new());
    // power that only grew is reported as added
    let new = open_with(&[(44, 0, 6), (10, 1, 1)]);
    assert_eq!(
        move_events(&old, &new),
        vec![GameStateChanged::CircleAdded(10), GameStateChanged::CircleAdded(44)]
    );
}

#[test]
fn a_game_between_computers_comes_to_an_end() {
    let active = [true, true, false, false];
    let mut rng = StdRng::seed_from_u64(2024);
    let mut snap = build_map(active, &mut rng).unwrap().snapshot;
    let total: u32 = snap.map.spaces.iter().map(|c| c.power as u32).sum();
    assert_eq!(total, 32);
    let mut turn = 0;
    let mut passes = 0;
    let mut turns = 0;
    while passes < 2 {
        match choose_move(snap, turn as usize, 2, &mut rng) {
            Some(next) => {
                assert_eq!(next.map.spaces.iter().map(|c| c.power as u32).sum::<u32>(), 32);
                snap = next;
                passes = 0;
            }
            None => passes += 1,
        }
        snap.update_scores();
        turn = next_player(turn, active);
        turns += 1;
        // each move takes one more cell: 32 units fill at most 32 cells
        assert!(turns <= 40);
    }
    let held = snap.map.spaces.iter().filter(|c| c.power > 0).count() as i32;
    assert_eq!(snap.score[0] + snap.score[1], held);
    assert!(gen_valid_moves(snap, 0).is_empty());
    assert!(gen_valid_moves(snap, 1).is_empty());
}

#[test]
fn pick_move_takes_the_strongest_position() {
    let snap = open_with(&[(44, 0, 5), (47, 1, 3), (0, 1, 1)]);
    let moves = gen_valid_moves(snap, 0);
    assert_eq!(moves.len(), 24);
    let noises = vec![0i64; moves.len()];
    let strengths: Vec<i64> = moves
        .iter()
        .map(|m| move_strength(evaluate_position(*m), 0, 2, 0))
        .collect();
    let best = *strengths.iter().max().unwrap();
    let first_best = strengths.iter().position(|&s| s == best).unwrap();
    assert_eq!(pick_move(&moves, &noises, 5, 0, 2), first_best);
    // noise decides between positions of nearly equal strength
    let runner_up = (0..moves.len())
        .filter(|&i| i != first_best)
        .max_by_key(|&i| (strengths[i], std::cmp::Reverse(i)))
        .unwrap();
    if best - strengths[runner_up] < 999 {
        let mut tipped = noises.clone();
        tipped[runner_up] = 999;
        assert_eq!(pick_move(&moves, &tipped, 5, 0, 2), runner_up);
    }
}

#[test]
fn pick_move_with_one_move() {
    let mut snap = GameSnapshot::default();
    for i in 0..100 {
        snap.map.spaces[i].ndx = i as i32;
    }
    snap.map.spaces[44].contents = MapSpaceContents::Playable;
    snap.map.spaces[54].contents = MapSpaceContents::Playable;
    snap.map.spaces[44].player = 1;
    snap.map.spaces[44].power = 2;
    let moves = gen_valid_moves(snap, 0);
    assert_eq!(moves.len(), 1);
    assert_eq!(pick_move(&moves, &vec![500], 0, 0, 1), 0);
}

#[test]
fn choose_move_with_one_player_plays_the_strongest_position() {
    // the noise is below 1000, so the move played is within 1000 of the best
    let snap = open_with(&[(44, 0, 5), (12, 0, 2)]);
    let moves = gen_valid_moves(snap, 0);
    let plain: Vec<i64> = moves
        .iter()
        .map(|m| move_strength(evaluate_position(*m), 0, 1, 0))
        .collect();
    let best = *plain.iter().max().unwrap();
    for seed in 0..10u64 {
        let mut rng = StdRng::seed_from_u64(seed);
        let next = choose_move(snap, 0, 1, &mut rng).unwrap();
        let at = moves.iter().position(|m| same_board(m, &next)).unwrap();
        assert!(plain[at] > best - 1000);
    }
}

#[test]
fn strengths_stay_above_the_worst_that_counts() {
    // the weakest position there can be for a mover with opponents
    let low = move_strength([0, 255_000_000, 255_000_000, 255_000_000], 0, 4, 0);
    assert_eq!(low, -765_000_000);
    assert!(low > -1_000_000_000);
    assert_eq!(move_strength([255_000_000, 0, 0, 0], 0, 4, 999), 765_000_999);
}

#[test]
fn a_new_game_is_empty() {
    let game = SummonGame::default();
    assert_eq!((game.player_count, game.player_turn, game.turn_num), (0, 0, 0));
    assert_eq!(game.snapshot.score, [0, 0, 0, 0]);
    assert!(game.snapshot.map.spaces.iter().all(|c| c.power == 0));
}

#[test]
fn advance_turn_ends_a_turn() {
    let mut game = SummonGame {
        snapshot: open_with(&[(44, 0, 5), (47, 2, 3), (48, 2, 1)]),
        player_count: 2,
        player_turn: 0,
        turn_num: 7,
    };
    let before = game.snapshot;
    game.advance_turn([true, false, true, false]);
    assert_eq!((game.player_count, game.player_turn, game.turn_num), (2, 2, 8));
    assert_eq!(game.snapshot.score, [1, 0, 2, 0]);
    assert!(same_board(&game.snapshot, &before));
    game.advance_turn([true, false, true, false]);
    assert_eq!((game.player_turn, game.turn_num), (0, 9));
}

#[test]
fn the_computer_takes_its_turn() {
    let start = open_with(&[(44, 0, 5), (47, 1, 3)]);
    for seed in 0..5u64 {
        let mut rng = StdRng::seed_from_u64(seed);
        let mut game = SummonGame { snapshot: start, player_count: 2, player_turn: 0, turn_num: 0 };
        let events = game.take_ai_turn([true, true, false, false], &mut rng);
        assert_eq!((game.player_turn, game.turn_num, game.player_count), (1, 1, 2));
        assert!(gen_valid_moves(start, 0).iter().any(|m| same_board(m, &game.snapshot)));
        assert_eq!(game.snapshot.score, [2, 1, 0, 0]);
        assert_eq!(events, move_events(&start, &game.snapshot));
        assert_eq!(events.len(), 2);
        assert!(events.contains(&GameStateChanged::CircleAdded(44)));
    }
}

#[test]
fn the_computer_passes_without_moves() {
    let start = open_with(&[(44, 0, 1), (47, 1, 3)]);
    let mut rng = StdRng::seed_from_u64(9);
    let mut game = SummonGame { snapshot: start, player_count: 2, player_turn: 0, turn_num: 3 };
    let events = game.take_ai_turn([true, true, false, false], &mut rng);
    assert!(events.is_empty());
    assert!(same_board(&game.snapshot, &start));
    assert_eq!(game.snapshot.score, [1, 1, 0, 0]);
    assert_eq!((game.player_turn, game.turn_num), (1, 4));
}
