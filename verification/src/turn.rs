//! Taking turns: whose turn is next, a player's own split, and the move
//! that the computer opponent picks.

use vstd::prelude::*;
use rand::rngs::StdRng;
use crate::random::rng_below;
use crate::evaluate::{evaluate_position, EVAL_MAX};
use crate::gamemap::GameMap;
use crate::hexgrid::{MapDirection, INVALID};
use crate::moves::{gen_valid_moves, is_move_list, lemma_split_effect, split_cells};
use crate::seq_lemmas::lemma_filter_next;
use crate::snapshot::GameSnapshot;

verus! {

/// A move is only ever picked by strength when its strength is above this.
pub const WORST_STRENGTH: i64 = -1000000000;

/// The noise added to a move's strength is drawn from zero up to, and
/// without, this.
pub const NOISE_RANGE: usize = 1000;

/// The seat `k` places after `turn` in the round of four.
pub open spec fn seat_after(turn: int, k: int) -> int {
    (turn + k) % 4
}

/// The seat whose turn comes after that of `turn`: the first active seat
/// behind it in the round, which is `turn` again when no other seat is
/// active, and also when none is active at all.
pub open spec fn next_player_spec(turn: int, active: Seq<bool>) -> int {
    if active[seat_after(turn, 1)] {
        seat_after(turn, 1)
    } else if active[seat_after(turn, 2)] {
        seat_after(turn, 2)
    } else if active[seat_after(turn, 3)] {
        seat_after(turn, 3)
    } else {
        turn
    }
}

/// The seat that plays after `turn`.
pub fn next_player(turn: i32, active: [bool; 4]) -> (r: i32)
    requires
        0 <= turn < 4,
    ensures
        r == next_player_spec(turn as int, active@),
        0 <= r < 4,
{
    let mut pnum = turn;
    let mut steps: i32 = 0;
    loop
        invariant_except_break
            0 <= steps < 4,
            pnum == seat_after(turn as int, steps as int),
            forall|k: int| 1 <= k <= steps ==> !active[#[trigger] seat_after(turn as int, k)],
        invariant
            0 <= turn < 4,
            0 <= pnum < 4,
        ensures
            pnum == next_player_spec(turn as int, active@),
        decreases 4 - steps,
    {
        pnum = pnum + 1;
        if pnum >= 4 {
            pnum = 0;
        }
        steps = steps + 1;
        assert(pnum == seat_after(turn as int, steps as int));
        if active[pnum as usize] {
            assert(!active[seat_after(turn as int, 1)] || steps == 1);
            assert(!active[seat_after(turn as int, 2)] || steps <= 2);
            break ;
        }
        if pnum == turn {
            assert(steps == 4);
            assert(!active[seat_after(turn as int, 1)]);
            assert(!active[seat_after(turn as int, 2)]);
            assert(!active[seat_after(turn as int, 3)]);
            break ;
        }
    }
    pnum
}

/// What seat `p` adds to the strength of a position for the seat `turn`
/// that moves, in a game of `count` players: the mover's own strength
/// counts once for each opponent, every other seat's strength counts
/// against it.
pub open spec fn strength_term(evals: Seq<i64>, turn: int, count: int, p: int) -> int {
    if p == turn {
        evals[p] * (count - 1)
    } else {
        -evals[p]
    }
}

/// The strength of a position for the seat that moves, over the first `n`
/// seats, on top of `noise`.
pub open spec fn strength_upto(evals: Seq<i64>, turn: int, count: int, noise: int, n: nat) -> int
    decreases n,
{
    if n == 0 {
        noise
    } else {
        strength_upto(evals, turn, count, noise, (n - 1) as nat) + strength_term(
            evals,
            turn,
            count,
            n - 1,
        )
    }
}

/// How good a position with the seat strengths `evals` is for the seat
/// `player_turn` that moved into it, in a game of `player_count` players,
/// with `noise` added to break ties.
pub fn move_strength(evals: [i64; 4], player_turn: usize, player_count: i32, noise: i64) -> (r:
    i64)
    requires
        player_turn < 4,
        0 <= player_count <= 4,
        0 <= noise < NOISE_RANGE,
        forall|p: int| 0 <= p < 4 ==> 0 <= #[trigger] evals[p] <= EVAL_MAX,
    ensures
        r == strength_upto(evals@, player_turn as int, player_count as int, noise as int, 4),
        player_count >= 1 ==> r > WORST_STRENGTH,
{
    let mut new_str: i64 = noise;
    let mut player: usize = 0;
    while player < 4
        invariant
            player <= 4,
            player_turn < 4,
            0 <= player_count <= 4,
            forall|p: int| 0 <= p < 4 ==> 0 <= #[trigger] evals[p] <= EVAL_MAX,
            new_str == strength_upto(
                evals@,
                player_turn as int,
                player_count as int,
                noise as int,
                player as nat,
            ),
            -255000000 * player <= new_str <= 1000 + 765000000 * player,
            player_count >= 1 && player > player_turn ==> new_str >= -255000000 * (player - 1),
        decreases 4 - player,
    {
        let own = evals[player];
        if player == player_turn {
            let weight: i64 = (player_count - 1) as i64;
            assert(-255000000 <= own * weight <= 765000000 && (weight >= 0 ==> own * weight >= 0))
                by (nonlinear_arith)
                requires
                    0 <= own <= 255000000,
                    -1 <= weight <= 3,
            ;
            new_str += own * weight;
        } else {
            new_str -= own;
        }
        player += 1;
    }
    new_str
}

/// `r` is the move to play among moves of the given strengths: the first of
/// the strongest, provided that it is stronger than the worst strength that
/// counts, and the move at `fallback` otherwise.
pub open spec fn is_best(strengths: Seq<i64>, fallback: int, r: int) -> bool {
    if forall|i: int| 0 <= i < strengths.len() ==> strengths[i] <= WORST_STRENGTH {
        r == fallback
    } else {
        &&& 0 <= r < strengths.len()
        &&& strengths[r] > WORST_STRENGTH
        &&& forall|i: int| 0 <= i < strengths.len() ==> strengths[i] <= strengths[r]
        &&& forall|i: int| 0 <= i < r ==> strengths[i] < strengths[r]
    }
}

/// `r` is the first of the strongest among moves of the given strengths.
pub open spec fn is_first_strongest(strengths: Seq<i64>, r: int) -> bool {
    &&& 0 <= r < strengths.len()
    &&& forall|i: int| 0 <= i < strengths.len() ==> strengths[i] <= strengths[r]
    &&& forall|i: int| 0 <= i < r ==> strengths[i] < strengths[r]
}

/// The index of the move to play: the first of the strongest moves, or
/// `fallback` when no move is stronger than the worst strength that counts.
pub fn best_index(strengths: &Vec<i64>, fallback: usize) -> (r: usize)
    requires
        fallback < strengths.len(),
    ensures
        is_best(strengths@, fallback as int, r as int),
        r < strengths.len(),
{
    let mut chosen = fallback;
    let mut curr_strength: i64 = WORST_STRENGTH;
    let mut i: usize = 0;
    while i < strengths.len()
        invariant
            i <= strengths.len(),
            fallback < strengths.len(),
            chosen < strengths.len(),
            curr_strength >= WORST_STRENGTH,
            forall|j: int| 0 <= j < i ==> strengths[j] <= curr_strength,
            curr_strength == WORST_STRENGTH ==> chosen == fallback,
            curr_strength > WORST_STRENGTH ==> {
                &&& chosen < i
                &&& strengths[chosen as int] == curr_strength
                &&& forall|j: int| 0 <= j < chosen ==> strengths[j] < curr_strength
            },
        decreases strengths.len() - i,
    {
        let new_str = strengths[i];
        if new_str > curr_strength {
            curr_strength = new_str;
            chosen = i;
        }
        i += 1;
    }
    chosen
}

/// How good the position on `map` is for the seat `turn` that moved into it,
/// in a game of `count` players, with `noise` added.
pub open spec fn position_strength(map: GameMap, turn: int, count: int, noise: int) -> int {
    strength_upto(Seq::new(4, |p: int| map.seat_value(p) as i64), turn, count, noise, 4)
}

/// The strengths of the positions that `moves` lead to, each with its noise.
pub open spec fn strengths_of(
    moves: Seq<GameSnapshot>,
    noises: Seq<i64>,
    turn: int,
    count: int,
) -> Seq<i64> {
    Seq::new(
        moves.len(),
        |i: int| position_strength(moves[i].map, turn, count, noises[i] as int) as i64,
    )
}

/// Which of `moves` the seat `player_turn` plays in a game of
/// `player_count` players: the first of those that lead to the strongest
/// position, each position valued with the noise drawn for it; the move at
/// `fallback` when no position is stronger than the worst that counts.
pub fn pick_move(
    moves: &Vec<GameSnapshot>,
    noises: &Vec<i64>,
    fallback: usize,
    player_turn: usize,
    player_count: i32,
) -> (r: usize)
    requires
        noises.len() == moves.len(),
        fallback < moves.len(),
        player_turn < 4,
        0 <= player_count <= 4,
        forall|i: int| 0 <= i < moves.len() ==> (#[trigger] moves[i]).wf(),
        forall|i: int| 0 <= i < noises.len() ==> 0 <= #[trigger] noises[i] < NOISE_RANGE,
    ensures
        r < moves.len(),
        is_best(
            strengths_of(moves@, noises@, player_turn as int, player_count as int),
            fallback as int,
            r as int,
        ),
        player_count >= 1 ==> is_first_strongest(
            strengths_of(moves@, noises@, player_turn as int, player_count as int),
            r as int,
        ),
{
    let mut strengths: Vec<i64> = Vec::new();
    let mut i: usize = 0;
    while i < moves.len()
        invariant
            i <= moves.len(),
            strengths.len() == i,
            noises.len() == moves.len(),
            player_turn < 4,
            0 <= player_count <= 4,
            forall|j: int| 0 <= j < moves.len() ==> (#[trigger] moves[j]).wf(),
            forall|j: int| 0 <= j < noises.len() ==> 0 <= #[trigger] noises[j] < NOISE_RANGE,
            forall|j: int|
                0 <= j < i ==> strengths[j] == position_strength(
                    moves[j].map,
                    player_turn as int,
                    player_count as int,
                    noises[j] as int,
                ),
            player_count >= 1 ==> forall|j: int|
                0 <= j < i ==> #[trigger] strengths[j] > WORST_STRENGTH,
        decreases moves.len() - i,
    {
        let curr_move = moves[i];
        let plyr_evals = evaluate_position(curr_move);
        proof {
            assert(plyr_evals@ =~= Seq::new(4, |p: int| curr_move.map.seat_value(p) as i64));
        }
        strengths.push(move_strength(plyr_evals, player_turn, player_count, noises[i]));
        i += 1;
    }
    proof {
        assert(strengths@ =~= strengths_of(
            moves@,
            noises@,
            player_turn as int,
            player_count as int,
        ));
    }
    let pick = best_index(&strengths, fallback);
    proof {
        if player_count >= 1 {
            assert(strengths[fallback as int] > WORST_STRENGTH);
        }
    }
    pick
}

/// `next` is the move that the seat `turn` plays from `snapshot` in a game
/// of `count` players when `noises` are the noises drawn for its legal
/// moves `moves` and `fallback` is the move drawn to fall back on: the move
/// at `pick`, which is the one to play among moves of these strengths. For
/// at least one player that is the first of the strongest.
pub open spec fn chosen_by(
    snapshot: GameSnapshot,
    turn: int,
    count: int,
    moves: Seq<GameSnapshot>,
    noises: Seq<i64>,
    fallback: int,
    pick: int,
    next: GameSnapshot,
) -> bool {
    &&& is_move_list(snapshot, turn, moves)
    &&& noises.len() == moves.len()
    &&& forall|i: int| 0 <= i < noises.len() ==> 0 <= #[trigger] noises[i] < NOISE_RANGE
    &&& 0 <= fallback < moves.len()
    &&& 0 <= pick < moves.len()
    &&& is_best(strengths_of(moves, noises, turn, count), fallback, pick)
    &&& count >= 1 ==> is_first_strongest(strengths_of(moves, noises, turn, count), pick)
    &&& next == moves[pick]
}

/// The move of the computer opponent for seat `player_turn` in a game of
/// `player_count` players: every legal move is valued by the strength of the
/// position it leads to plus a little noise drawn from `rng`, and the
/// strongest is played. `None` when the seat has no move and must pass.
pub fn choose_move(
    snapshot: GameSnapshot,
    player_turn: usize,
    player_count: i32,
    rng: &mut StdRng,
) -> (r: Option<GameSnapshot>)
    requires
        snapshot.wf(),
        player_turn < 4,
        0 <= player_count <= 4,
    ensures
        r is None <==> !snapshot.has_move(player_turn as int),
        r matches Some(next) ==> {
            &&& snapshot.is_split_of(player_turn as int, next)
            &&& next.wf()
            &&& exists|moves: Seq<GameSnapshot>, noises: Seq<i64>, fallback: int, pick: int| #[trigger]
                chosen_by(
                    snapshot,
                    player_turn as int,
                    player_count as int,
                    moves,
                    noises,
                    fallback,
                    pick,
                    next,
                )
        },
{
    let moves = gen_valid_moves(snapshot, player_turn);
    if moves.len() == 0 {
        return None;
    }
    let fallback = rng_below(rng, moves.len());
    let mut noises: Vec<i64> = Vec::new();
    let mut i: usize = 0;
    while i < moves.len()
        invariant
            i <= moves.len(),
            noises.len() == i,
            forall|j: int| 0 <= j < i ==> 0 <= #[trigger] noises[j] < NOISE_RANGE,
        decreases moves.len() - i,
    {
        noises.push(rng_below(rng, NOISE_RANGE) as i64);
        i += 1;
    }
    let pick = pick_move(&moves, &noises, fallback, player_turn, player_count);
    let next = moves[pick];
    proof {
        assert(chosen_by(
            snapshot,
            player_turn as int,
            player_count as int,
            moves@,
            noises@,
            fallback as int,
            pick as int,
            next,
        ));
        assert(exists|list: Seq<GameSnapshot>, drawn: Seq<i64>, back: int, at: int| #[trigger]
            chosen_by(
                snapshot,
                player_turn as int,
                player_count as int,
                list,
                drawn,
                back,
                at,
                next,
            ));
    }
    Some(next)
}

/// The split that a player asks for: `amount` of the power at `from` goes
/// along `dir` to the farthest empty cell. It is carried out when the cell
/// at `from` belongs to `seat` and holds more than one unit of power, the
/// amount is at least one unit and leaves at least one behind, the ray gets
/// somewhere, and nobody owns the cell where it ends. The snapshot that
/// comes back has its scores brought up to date. `None` when the split is
/// not allowed.
pub fn try_split(snapshot: GameSnapshot, seat: usize, from: i32, dir: MapDirection, amount: i32) -> (r:
    Option<GameSnapshot>)
    requires
        snapshot.wf(),
        seat < 4,
    ensures
        r is Some <==> {
            &&& snapshot.can_split(seat as int, from as int, dir)
            &&& 1 <= amount < snapshot.map.spaces[from as int].power
            &&& snapshot.map.spaces[snapshot.map.ray_end(from as int, dir)].player == 0
        },
        r matches Some(next) ==> {
            &&& next.wf()
            &&& next.map.spaces@ == split_cells(
                snapshot.map.spaces@,
                seat as int,
                from as int,
                snapshot.map.ray_end(from as int, dir),
                amount as int,
            )
            &&& forall|p: int| 0 <= p < 4 ==> next.score[p] == next.simple_score(p)
        },
{
    if from < 0 || from >= 100 {
        return None;
    }
    let source = snapshot.map.spaces[from as usize];
    if !(source.power > 1 && source.player == (seat + 1) as u8) {
        return None;
    }
    let found = snapshot.map.search_dir(from, dir);
    if found == from || found == INVALID as i32 {
        return None;
    }
    let found_ndx = found as usize;
    if snapshot.map.spaces[found_ndx].player != 0 {
        return None;
    }
    if amount < 1 || amount >= source.power as i32 {
        return None;
    }
    proof {
        lemma_split_effect(snapshot, seat as int, from as int, dir, amount as int);
    }
    let mut next = snapshot;
    next.map.spaces[found_ndx].player = (seat + 1) as u8;
    next.map.spaces[found_ndx].power = amount as u8;
    next.map.spaces[from as usize].power -= amount as u8;
    proof {
        let made = split_cells(
            snapshot.map.spaces@,
            seat as int,
            from as int,
            found as int,
            amount as int,
        );
        assert(next.map.spaces@ =~= made);
        assert forall|i: int| 0 <= i < 100 implies (#[trigger] next.map.spaces[i]).wf_at(i) by {
            assert(made[i].wf_at(i));
        }
    }
    let ghost moved = next;
    next.update_scores();
    proof {
        assert(next.map == moved.map);
        assert forall|p: int| 0 <= p < 4 implies next.score[p] == next.simple_score(p) by {
            assert(next.score[p] == moved.simple_score(p));
        }
    }
    Some(next)
}

/// What a host has to redraw after a move.
#[derive(Copy, Clone, Debug, PartialEq, Eq, Structural)]
pub enum GameStateChanged {
    /// The cell at this index holds another amount of power than before.
    CircleAdded(i32),
    /// Power went from the first cell to the second.
    CircleSplit(i32, i32),
}

/// The cell at `i` holds less power in `new` than it did in `old`.
pub open spec fn power_fell(old: GameMap, new: GameMap, i: int) -> bool {
    old.spaces[i].power > new.spaces[i].power
}

/// The first cell from `i` on whose power fell, if there is one.
pub open spec fn first_fall_from(old: GameMap, new: GameMap, i: int) -> Option<int>
    decreases 100 - i,
{
    if i >= 100 {
        None
    } else if power_fell(old, new, i) {
        Some(i)
    } else {
        first_fall_from(old, new, i + 1)
    }
}

/// What is reported of the cell at `i`, whose power changed: that power
/// came to it from the cell that a split was made at, or, for that cell
/// itself and where no cell lost power, that it holds another amount.
pub open spec fn event_at(old: GameMap, new: GameMap, i: int) -> GameStateChanged {
    match first_fall_from(old, new, 0) {
        Some(source) if !power_fell(old, new, i) => GameStateChanged::CircleSplit(
            source as i32,
            i as i32,
        ),
        _ => GameStateChanged::CircleAdded(i as i32),
    }
}

/// The events that lead from `old` to `new`: one for each cell whose power
/// changed, in index order.
pub open spec fn move_events_spec(old: GameMap, new: GameMap) -> Seq<GameStateChanged> {
    Seq::new(100, |i: int| i).filter(
        |i: int| old.spaces[i].power != new.spaces[i].power,
    ).map_values(|i: int| event_at(old, new, i))
}

/// The first cell that holds less power in `new` than in `old`: the cell
/// that a split was made at.
pub fn split_source(old: &GameSnapshot, new: &GameSnapshot) -> (r: Option<i32>)
    requires
        new.map.indexed(),
    ensures
        r is Some <==> first_fall_from(old.map, new.map, 0) is Some,
        r matches Some(s) ==> first_fall_from(old.map, new.map, 0) == Some(s as int),
{
    let mut i: usize = 0;
    while i < 100
        invariant
            i <= 100,
            new.map.indexed(),
            first_fall_from(old.map, new.map, 0) == first_fall_from(old.map, new.map, i as int),
        decreases 100 - i,
    {
        let mapsq = new.map.spaces[i];
        let oldsq = old.map.spaces[mapsq.ndx as usize];
        if oldsq.power > mapsq.power {
            return Some(mapsq.ndx);
        }
        i += 1;
    }
    None
}

/// What a host has to redraw to get from `old` to `new`.
pub fn move_events(old: &GameSnapshot, new: &GameSnapshot) -> (r: Vec<GameStateChanged>)
    requires
        new.map.indexed(),
    ensures
        r@ == move_events_spec(old.map, new.map),
{
    let split_ndx = split_source(old, new);
    let mut events: Vec<GameStateChanged> = Vec::new();
    let ghost cells = Seq::new(100, |i: int| i);
    let ghost changed = |i: int| old.map.spaces[i].power != new.map.spaces[i].power;
    let ghost report = |i: int| event_at(old.map, new.map, i);
    let mut i: usize = 0;
    proof {
        reveal(Seq::filter);
        assert(cells.take(0) =~= Seq::<int>::empty());
        assert(cells.take(0).filter(changed).map_values(report) =~= Seq::<
            GameStateChanged,
        >::empty());
    }
    while i < 100
        invariant
            i <= 100,
            new.map.indexed(),
            cells == Seq::new(100, |i: int| i),
            changed == (|i: int| old.map.spaces[i].power != new.map.spaces[i].power),
            report == (|i: int| event_at(old.map, new.map, i)),
            split_ndx is Some <==> first_fall_from(old.map, new.map, 0) is Some,
            split_ndx matches Some(s) ==> first_fall_from(old.map, new.map, 0) == Some(s as int),
            events@ == cells.take(i as int).filter(changed).map_values(report),
        decreases 100 - i,
    {
        let mapsq = new.map.spaces[i];
        let oldsq = old.map.spaces[mapsq.ndx as usize];
        proof {
            lemma_filter_next(cells, changed, i as int);
            let before = cells.take(i as int).filter(changed);
            assert(before.push(i as int).map_values(report) =~= before.map_values(report).push(
                event_at(old.map, new.map, i as int),
            ));
        }
        if oldsq.power != mapsq.power {
            match split_ndx {
                Some(source) if oldsq.power <= mapsq.power => {
                    events.push(GameStateChanged::CircleSplit(source, mapsq.ndx));
                },
                _ => {
                    events.push(GameStateChanged::CircleAdded(mapsq.ndx));
                },
            }
        }
        i += 1;
    }
    proof {
        assert(cells.take(100) =~= cells);
    }
    events
}

/// A game in progress.
#[derive(Copy, Clone, Debug)]
pub struct SummonGame {
    pub snapshot: GameSnapshot,
    /// The number of active seats.
    pub player_count: i32,
    /// The seat whose turn it is.
    pub player_turn: i32,
    /// The number of turns taken so far.
    pub turn_num: i32,
}

impl Default for SummonGame {
    fn default() -> (r: SummonGame)
        ensures
            r.snapshot.map.spaces@ == GameMap::default_spaces(),
            forall|p: int| 0 <= p < 4 ==> r.snapshot.score[p] == 0,
            r.player_count == 0,
            r.player_turn == 0,
            r.turn_num == 0,
    {
        SummonGame { snapshot: GameSnapshot::default(), player_count: 0, player_turn: 0, turn_num: 0 }
    }
}

/// The computer, playing seat `turn` in a game of `count` players, made the
/// board `new_map` of `old`: for some noises and fallback in their ranges,
/// it is the board of the move that `chosen_by` singles out.
pub open spec fn ai_played(old: GameSnapshot, turn: int, count: int, new_map: GameMap) -> bool {
    exists|moves: Seq<GameSnapshot>, noises: Seq<i64>, fallback: int, pick: int|
        #[trigger] chosen_by(old, turn, count, moves, noises, fallback, pick, moves[pick])
            && moves[pick].map == new_map
}

impl SummonGame {
    /// The board is well formed, the seat whose turn it is and the number of
    /// players are in range, and the turn counter can still go up.
    pub open spec fn wf(&self) -> bool {
        &&& self.snapshot.wf()
        &&& 0 <= self.player_turn < 4
        &&& 0 <= self.player_count <= 4
        &&& self.turn_num < i32::MAX
    }

    /// Ends a turn: the scores are brought up to date, the turn goes to the
    /// next active seat, and the turn counter goes up by one. The board
    /// stays as it is.
    pub fn advance_turn(&mut self, active: [bool; 4])
        requires
            0 <= old(self).player_turn < 4,
            old(self).turn_num < i32::MAX,
        ensures
            final(self).snapshot.map == old(self).snapshot.map,
            forall|p: int|
                0 <= p < 4 ==> final(self).snapshot.score[p] == old(self).snapshot.simple_score(p),
            final(self).player_turn == next_player_spec(old(self).player_turn as int, active@),
            final(self).turn_num == old(self).turn_num + 1,
            final(self).player_count == old(self).player_count,
    {
        self.player_turn = next_player(self.player_turn, active);
        self.turn_num += 1;
        self.snapshot.update_scores();
    }

    /// The computer's turn for the seat whose turn it is: it plays the move
    /// that `choose_move` picks, or passes when it has none, and the turn
    /// ends. Returns what a host has to redraw.
    pub fn take_ai_turn(&mut self, active: [bool; 4], rng: &mut StdRng) -> (events: Vec<
        GameStateChanged,
    >)
        requires
            old(self).wf(),
        ensures
            !old(self).snapshot.has_move(old(self).player_turn as int) ==> {
                &&& final(self).snapshot.map == old(self).snapshot.map
                &&& events@.len() == 0
            },
            old(self).snapshot.has_move(old(self).player_turn as int) ==> {
                &&& ai_played(
                    old(self).snapshot,
                    old(self).player_turn as int,
                    old(self).player_count as int,
                    final(self).snapshot.map,
                )
                &&& old(self).snapshot.is_split_of(
                    old(self).player_turn as int,
                    GameSnapshot { map: final(self).snapshot.map, score: old(self).snapshot.score },
                )
                &&& events@ == move_events_spec(old(self).snapshot.map, final(self).snapshot.map)
            },
            final(self).snapshot.wf(),
            forall|p: int|
                0 <= p < 4 ==> final(self).snapshot.score[p] == final(self).snapshot.simple_score(
                    p,
                ),
            final(self).player_turn == next_player_spec(old(self).player_turn as int, active@),
            final(self).turn_num == old(self).turn_num + 1,
            final(self).player_count == old(self).player_count,
    {
        let old_snapshot = self.snapshot;
        let mut events: Vec<GameStateChanged> = Vec::new();
        match choose_move(self.snapshot, self.player_turn as usize, self.player_count, rng) {
            Some(next) => {
                proof {
                    let (moves, noises, fallback, pick) = choose|
                        moves: Seq<GameSnapshot>,
                        noises: Seq<i64>,
                        fallback: int,
                        pick: int,
                    | #[trigger]
                        chosen_by(
                            old_snapshot,
                            self.player_turn as int,
                            self.player_count as int,
                            moves,
                            noises,
                            fallback,
                            pick,
                            next,
                        );
                    assert(chosen_by(
                        old_snapshot,
                        self.player_turn as int,
                        self.player_count as int,
                        moves,
                        noises,
                        fallback,
                        pick,
                        moves[pick],
                    ));
                    assert(ai_played(
                        old_snapshot,
                        self.player_turn as int,
                        self.player_count as int,
                        next.map,
                    ));
                    assert(next == (GameSnapshot { map: next.map, score: old_snapshot.score }));
                }
                self.snapshot = next;
                events = move_events(&old_snapshot, &self.snapshot);
            },
            None => {},
        }
        let ghost moved = self.snapshot;
        self.advance_turn(active);
        proof {
            assert(self.snapshot.map == moved.map);
            assert forall|p: int| 0 <= p < 4 implies self.snapshot.score[p]
                == self.snapshot.simple_score(p) by {
                assert(self.snapshot.score[p] == moved.simple_score(p));
            }
        }
        events
    }
}

} // verus!
