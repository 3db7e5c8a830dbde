//! Board generation: a disk of cells with some blocked at random, eroded
//! from its corners down to a size that fits the number of players, without
//! ever cutting the playable region in two; then one starting cell per
//! player on the rim.

use vstd::prelude::*;
use rand::rngs::StdRng;
use crate::gamemap::{GameMap, MapSpace};
use crate::hexgrid::{lemma_step_lands, on_board, MapDirection, MapSpaceContents};
use crate::random::{rng_below, rng_ratio, rng_shuffle};
use crate::reach::eroded;
use crate::seq_lemmas::{lemma_filter_len_update, lemma_filter_next, lemma_same_elements};
use crate::snapshot::GameSnapshot;

verus! {

/// Playable cells that the board is eroded down to for each player.
pub const SPACES_PER_PLAYER: i32 = 16;

/// How many erosion attempts a board gets.
pub const ERODE_ATTEMPTS: i32 = 1000;

/// The power that each player starts with.
pub const START_POWER: u8 = 16;

/// Whether the cell at `ndx` lies within the disk that boards are carved
/// from. With the cells laid out as hexagons of side 1, columns a distance
/// of 3/2 apart, rows a distance of √3 apart and odd columns shifted by half
/// a row, the disk has radius 8 about the middle of the board; multiplied
/// out, that is an inequality between integers.
pub open spec fn in_disk_spec(ndx: int) -> bool {
    let row = ndx / 10;
    let col = ndx % 10;
    let across = 2 * col - 9;
    let along = 10 - 2 * row + col % 2;
    9 * (across * across) + 12 * (along * along) < 1024
}

/// Whether the cell at `ndx` lies within the disk that boards are carved
/// from.
pub fn in_disk(ndx: usize) -> (r: bool)
    requires
        ndx < 100,
    ensures
        r == in_disk_spec(ndx as int),
{
    let row: i32 = (ndx / 10) as i32;
    let col: i32 = (ndx % 10) as i32;
    let across: i32 = 2 * col - 9;
    let along: i32 = 10 - 2 * row + col % 2;
    assert(-9 <= across <= 9 && -9 <= along <= 11);
    assert(0 <= across * across <= 81 && 0 <= along * along <= 121) by (nonlinear_arith)
        requires
            -9 <= across <= 9 && -9 <= along <= 11,
    ;
    9 * (across * across) + 12 * (along * along) < 1024
}

/// The cell that generation starts with at `ndx`: not part of the map
/// outside the disk; inside it blocked or playable as the coin fell.
/// Nobody owns it.
pub open spec fn seed_cell_spec(ndx: int, blocked: bool) -> MapSpace {
    MapSpace {
        contents: if !in_disk_spec(ndx) {
            MapSpaceContents::NotInMap
        } else if blocked {
            MapSpaceContents::Blocked
        } else {
            MapSpaceContents::Playable
        },
        player: 0,
        power: 0,
        ndx: ndx as i32,
    }
}

/// The cell that generation starts with at `ndx`, given how the coin for it
/// fell.
pub fn seed_cell(ndx: usize, blocked: bool) -> (r: MapSpace)
    requires
        ndx < 100,
    ensures
        r == seed_cell_spec(ndx as int, blocked),
        r.wf_at(ndx as int),
{
    let contents = if !in_disk(ndx) {
        MapSpaceContents::NotInMap
    } else if blocked {
        MapSpaceContents::Blocked
    } else {
        MapSpaceContents::Playable
    };
    MapSpace { contents, player: 0, power: 0, ndx: ndx as i32 }
}

/// One attempt at erosion: the cell at `cell` is taken out of a copy of the
/// map, and the copy takes the map's place if its playable cells are still
/// connected. Returns the map to go on with and whether the cell was taken.
pub fn erode_step(map: GameMap, cell: i32) -> (r: (GameMap, bool))
    requires
        on_board(cell as int),
    ensures
        r.1 == map.cut(cell as int).connected(),
        r.0 == map.eroded_at(cell as int),
        r.1 ==> r.0.connected(),
{
    let mut map_copy = map;
    map_copy.spaces[cell as usize].contents = MapSpaceContents::NotInMap;
    proof {
        assert(map_copy.spaces =~= map.cut(cell as int).spaces);
    }
    if map_copy.check_reachability() {
        (map_copy, true)
    } else {
        (map, false)
    }
}

/// `m` is a board as seeding makes it: every cell is what `seed_cell_spec`
/// gives for its position, for the one or the other fall of the coin.
pub open spec fn seeded_board(m: GameMap) -> bool {
    forall|i: int|
        0 <= i < 100 ==> (#[trigger] m.spaces[i]) == seed_cell_spec(i, true) || m.spaces[i]
            == seed_cell_spec(i, false)
}

/// The board that generation starts from: every cell within the disk is
/// blocked with a chance of one in eight and playable otherwise, every cell
/// outside it is not part of the map. Returns the board and the number of
/// its playable cells.
pub fn seed_map(rng: &mut StdRng) -> (r: (GameMap, i32))
    ensures
        r.0.fresh(),
        seeded_board(r.0),
        r.1 == r.0.playable_count(),
        0 <= r.1 <= 100,
{
    let mut map = GameMap::default();
    let mut space_count: i32 = 0;
    let ghost open = |c: MapSpace| c.contents == MapSpaceContents::Playable;
    let mut i: usize = 0;
    proof {
        reveal(Seq::filter);
        assert(map.spaces@.take(0) =~= Seq::<MapSpace>::empty());
    }
    while i < 100
        invariant
            i <= 100,
            open == (|c: MapSpace| c.contents == MapSpaceContents::Playable),
            forall|j: int|
                0 <= j < i ==> (#[trigger] map.spaces[j]) == seed_cell_spec(j, true)
                    || map.spaces[j] == seed_cell_spec(j, false),
            forall|j: int| 0 <= j < i ==> (#[trigger] map.spaces[j]).wf_at(j),
            space_count == map.spaces@.take(i as int).filter(open).len(),
            0 <= space_count <= i,
        decreases 100 - i,
    {
        let blocked = if in_disk(i) {
            rng_ratio(rng, 1, 8)
        } else {
            false
        };
        let cell = seed_cell(i, blocked);
        let ghost before = map.spaces@;
        map.spaces[i] = cell;
        proof {
            assert(map.spaces@.take(i as int) =~= before.take(i as int));
            lemma_filter_next(map.spaces@, open, i as int);
            assert(cell == seed_cell_spec(i as int, true) || cell == seed_cell_spec(
                i as int,
                false,
            ));
        }
        if cell.contents == MapSpaceContents::Playable {
            space_count += 1;
        }
        i += 1;
    }
    proof {
        assert(map.spaces@.take(100) =~= map.spaces@);
    }
    (map, space_count)
}

/// `end`, with `count` playable cells, is what a run of erosion makes of
/// `map` for the target `target`, the attempts being made at the cells
/// `picks` in turn: there are no more attempts than a board gets; each is
/// made while the board is still above the target, at one of the sharpest
/// corners that the board has at that time; and a run that ends above the
/// target has used up its attempts or has come to a board without corners.
pub open spec fn erosion_run(
    map: GameMap,
    picks: Seq<int>,
    end: GameMap,
    count: int,
    target: int,
) -> bool {
    &&& picks.len() <= ERODE_ATTEMPTS
    &&& end == eroded(map, picks)
    &&& forall|k: int|
        0 <= k < picks.len() ==> {
            let before = #[trigger] eroded(map, picks.take(k));
            &&& before.playable_count() > target
            &&& before.is_corner(picks[k])
        }
    &&& count > target ==> picks.len() == ERODE_ATTEMPTS || end.corners_from(1).len() == 0
}

/// Erodes a fresh board from its corners until no more than `target`
/// playable cells are left or the attempts are used up. Each attempt picks
/// one of the sharpest corners at random and takes it out of the map unless
/// that would cut the playable region in two; on a board without any edge
/// cell an attempt does nothing. Returns the board and the number of its
/// playable cells; a number above `target` says that the attempts ran out.
pub fn erode_map(map: GameMap, space_count: i32, target: i32, rng: &mut StdRng) -> (r: (
    GameMap,
    i32,
))
    requires
        map.fresh(),
        space_count == map.playable_count(),
    ensures
        r.0.fresh(),
        r.0.carved_from(map),
        r.1 == r.0.playable_count(),
        r.1 <= space_count,
        space_count <= target ==> r.0 == map,
        space_count > target ==> r.1 >= target,
        r.1 < space_count ==> r.0.connected(),
        map.connected() ==> r.0.connected(),
        exists|picks: Seq<int>| #[trigger] erosion_run(map, picks, r.0, r.1 as int, target as int),
{
    let mut curr = map;
    let mut space_count = space_count;
    let ghost seeded = space_count;
    let ghost mut picks: Seq<int> = Seq::empty();
    let mut attempts: i32 = ERODE_ATTEMPTS;
    let ghost open = |c: MapSpace| c.contents == MapSpaceContents::Playable;
    while space_count > target && attempts > 0
        invariant
            0 <= attempts <= ERODE_ATTEMPTS,
            open == (|c: MapSpace| c.contents == MapSpaceContents::Playable),
            curr.fresh(),
            curr.carved_from(map),
            space_count == curr.playable_count(),
            space_count <= seeded,
            seeded == map.playable_count(),
            seeded <= target ==> curr == map,
            seeded > target ==> space_count >= target,
            space_count < seeded ==> curr.connected(),
            map.connected() ==> curr.connected(),
            curr == eroded(map, picks),
            picks.len() + attempts <= ERODE_ATTEMPTS,
            picks.len() + attempts == ERODE_ATTEMPTS || curr.corners_from(1).len() == 0,
            forall|k: int|
                0 <= k < picks.len() ==> {
                    let before = #[trigger] eroded(map, picks.take(k));
                    &&& before.playable_count() > target
                    &&& before.is_corner(picks[k])
                },
        decreases attempts,
    {
        let edge_spaces = curr.edge_spaces_corners();
        if edge_spaces.len() > 0 {
            let random_index = rng_below(rng, edge_spaces.len());
            let selected_index = edge_spaces[random_index];
            proof {
                curr.lemma_corners_are_edges(1);
                curr.lemma_edge_cells();
                let edges = curr.edge_spaces_spec();
                assert(edge_spaces@[random_index as int] == selected_index);
                assert(curr.corners_from(1).contains(selected_index));
                assert(edges.contains(selected_index));
                let j = choose|j: int| 0 <= j < edges.len() && edges[j] == selected_index;
                assert(curr.is_edge(edges[j] as int));
                assert(curr.is_corner(selected_index as int));
            }
            let (next, taken) = erode_step(curr, selected_index);
            proof {
                let longer = picks.push(selected_index as int);
                assert(longer.drop_last() =~= picks);
                assert(next == eroded(map, longer));
                assert forall|k: int| 0 <= k < longer.len() implies ({
                    let before = #[trigger] eroded(map, longer.take(k));
                    &&& before.playable_count() > target
                    &&& before.is_corner(longer[k])
                }) by {
                    if k < picks.len() {
                        assert(longer.take(k) =~= picks.take(k));
                    } else {
                        assert(longer.take(k) =~= picks);
                    }
                }
                picks = longer;
            }
            if taken {
                proof {
                    let at = selected_index as int;
                    let gone = MapSpace {
                        contents: MapSpaceContents::NotInMap,
                        ..curr.spaces[at]
                    };
                    assert(next.spaces@ == curr.spaces@.update(at, gone));
                    lemma_filter_len_update(curr.spaces@, open, at, gone);
                    assert forall|i: int| 0 <= i < 100 implies (#[trigger] next.spaces[i]).wf_at(i)
                        && next.spaces[i].player == 0 by {
                        assert(curr.spaces[i].wf_at(i));
                    }
                    assert forall|i: int| 0 <= i < 100 implies (#[trigger] next.spaces[i])
                        == map.spaces[i] || (map.spaces[i].contents == MapSpaceContents::Playable
                        && next.spaces[i] == (MapSpace {
                        contents: MapSpaceContents::NotInMap,
                        ..map.spaces[i]
                    })) by {
                        assert(curr.spaces[i] == map.spaces[i] || (map.spaces[i].contents
                            == MapSpaceContents::Playable && curr.spaces[i] == (MapSpace {
                            contents: MapSpaceContents::NotInMap,
                            ..map.spaces[i]
                        })));
                    }
                }
                curr = next;
                space_count -= 1;
            }
        }
        attempts -= 1;
    }
    let r = (curr, space_count);
    proof {
        assert(erosion_run(map, picks, r.0, r.1 as int, target as int));
        assert(exists|run: Seq<int>|
            #[trigger] erosion_run(map, run, r.0, r.1 as int, target as int));
    }
    r
}

/// Why a board could not be generated.
#[derive(Copy, Clone, Debug, PartialEq, Eq, Structural)]
pub enum BoardError {
    /// The board has fewer edge cells than there are active players.
    NoStartingPosition,
}

/// How many of the first `seat` seats are active.
pub open spec fn active_before(active: Seq<bool>, seat: nat) -> nat
    decreases seat,
{
    if seat == 0 {
        0
    } else {
        active_before(active, (seat - 1) as nat) + if active[seat - 1] {
            1nat
        } else {
            0nat
        }
    }
}

/// The cells after the active ones among the first `seat` seats have been
/// given their starting cells: the first active seat gets the first cell of
/// `shuffled`, the second the second, and so on. A starting cell belongs to
/// its seat and holds the starting power.
pub open spec fn placed(
    cells: Seq<MapSpace>,
    shuffled: Seq<i32>,
    active: Seq<bool>,
    seat: nat,
) -> Seq<MapSpace>
    decreases seat,
{
    if seat == 0 {
        cells
    } else {
        let before = placed(cells, shuffled, active, (seat - 1) as nat);
        if active[seat - 1] {
            let at = shuffled[active_before(active, (seat - 1) as nat) as int] as int;
            before.update(at, MapSpace { player: seat as u8, power: START_POWER, ..before[at] })
        } else {
            before
        }
    }
}

/// Counts the active seats.
pub fn count_active(active: [bool; 4]) -> (r: i32)
    ensures
        r == active_before(active@, 4),
        0 <= r <= 4,
{
    let mut player_count: i32 = 0;
    let mut i: usize = 0;
    while i < 4
        invariant
            i <= 4,
            player_count == active_before(active@, i as nat),
            0 <= player_count <= i,
        decreases 4 - i,
    {
        if active[i] {
            player_count += 1;
        }
        i += 1;
    }
    player_count
}

/// Gives each active seat its starting cell: the seats in rising order take
/// the cells of `shuffled` from the front. Fails when `shuffled` has fewer
/// cells than there are active seats.
pub fn place_starts(map: GameMap, shuffled: &Vec<i32>, active: [bool; 4]) -> (r: Result<
    GameMap,
    BoardError,
>)
    requires
        forall|j: int| 0 <= j < shuffled.len() ==> on_board(#[trigger] shuffled[j] as int),
    ensures
        r is Err <==> shuffled.len() < active_before(active@, 4),
        r matches Ok(m) ==> m.spaces@ == placed(map.spaces@, shuffled@, active@, 4),
        r matches Err(e) ==> e == BoardError::NoStartingPosition,
{
    let player_count = count_active(active);
    if shuffled.len() < player_count as usize {
        return Err(BoardError::NoStartingPosition);
    }
    let mut map = map;
    let ghost cells = map.spaces@;
    let mut next: usize = 0;
    let mut i: usize = 0;
    while i < 4
        invariant
            i <= 4,
            next == active_before(active@, i as nat),
            active_before(active@, 4) <= shuffled.len(),
            forall|j: int| 0 <= j < shuffled.len() ==> on_board(#[trigger] shuffled[j] as int),
            map.spaces@ == placed(cells, shuffled@, active@, i as nat),
        decreases 4 - i,
    {
        if active[i] {
            proof {
                lemma_active_before_rises(active@, i as nat + 1, 4);
            }
            let selected_index = shuffled[next] as usize;
            map.spaces[selected_index].player = (i + 1) as u8;
            map.spaces[selected_index].power = START_POWER;
            next += 1;
        }
        i += 1;
    }
    Ok(map)
}

/// The count of active seats only grows with the number of seats looked at.
pub proof fn lemma_active_before_rises(active: Seq<bool>, a: nat, b: nat)
    requires
        a <= b,
    ensures
        active_before(active, a) <= active_before(active, b),
        active_before(active, b) <= b,
    decreases b,
{
    if a < b {
        lemma_active_before_rises(active, a, (b - 1) as nat);
    } else if b > 0 {
        lemma_active_before_rises(active, (b - 1) as nat, (b - 1) as nat);
    }
}

/// The starting cells of a generated board: a cell is unowned and empty, or
/// it lies on the rim, belongs to an active seat and holds the starting
/// power; every active seat has a cell, and no seat has two.
pub open spec fn starts_placed(m: GameMap, active: Seq<bool>) -> bool {
    &&& forall|c: int|
        0 <= c < 100 ==> {
            let cell = #[trigger] m.spaces[c];
            (cell.player == 0 && cell.power == 0) || (1 <= cell.player <= 4 && active[cell.player
                - 1] && cell.power == START_POWER && m.is_edge(c))
        }
    &&& forall|s: int|
        0 <= s < 4 && #[trigger] active[s] ==> exists|c: int|
            0 <= c < 100 && (#[trigger] m.spaces[c]).player == s + 1
    &&& forall|c1: int, c2: int|
        0 <= c1 < 100 && 0 <= c2 < 100 && (#[trigger] m.spaces[c1]).player == (
        #[trigger] m.spaces[c2]).player && m.spaces[c1].player != 0 ==> c1 == c2
}

/// The cell of `shuffled` that seat `s` starts on.
pub open spec fn start_of(shuffled: Seq<i32>, active: Seq<bool>, s: int) -> int {
    shuffled[active_before(active, s as nat) as int] as int
}

/// Cell `c` of `p` is what placing the starts of the first `seat` seats
/// makes of the unowned cell `c` of `cells`: contents and index are kept;
/// the cell is as before when it is unowned, and otherwise it holds the
/// starting power for an active seat that starts on it.
pub open spec fn start_cell_ok(
    cells: Seq<MapSpace>,
    shuffled: Seq<i32>,
    active: Seq<bool>,
    seat: nat,
    p: Seq<MapSpace>,
    c: int,
) -> bool {
    &&& p[c].contents == cells[c].contents
    &&& p[c].ndx == cells[c].ndx
    &&& p[c].player == 0 ==> p[c] == cells[c]
    &&& p[c].player != 0 ==> {
        &&& 1 <= p[c].player <= seat
        &&& active[p[c].player - 1]
        &&& p[c].power == START_POWER
        &&& c == start_of(shuffled, active, p[c].player - 1)
    }
}

/// Two active seats start on different cells when the cells handed out are
/// distinct.
pub proof fn lemma_starts_differ(shuffled: Seq<i32>, active: Seq<bool>, s: nat, t: nat)
    requires
        shuffled.no_duplicates(),
        active_before(active, 4) <= shuffled.len(),
        s < t < 4,
        active[s as int],
        active[t as int],
    ensures
        0 <= active_before(active, s) < active_before(active, t) < shuffled.len(),
        shuffled[active_before(active, s) as int] != shuffled[active_before(active, t) as int],
{
    lemma_active_before_rises(active, s + 1, t);
    lemma_active_before_rises(active, t + 1, 4);
}

/// What placing the starts of the first `seat` seats does to a board without
/// owners when the cells handed out are distinct: every cell keeps its
/// contents and index, an unowned cell stays as it was, an owned cell holds
/// the starting power for the active seat that starts on it, and every
/// active seat owns the cell that it starts on.
pub proof fn lemma_placed(cells: Seq<MapSpace>, shuffled: Seq<i32>, active: Seq<bool>, seat: nat)
    requires
        cells.len() == 100,
        active.len() == 4,
        seat <= 4,
        forall|c: int| 0 <= c < 100 ==> (#[trigger] cells[c]).player == 0,
        shuffled.no_duplicates(),
        forall|j: int| 0 <= j < shuffled.len() ==> on_board(#[trigger] shuffled[j] as int),
        active_before(active, 4) <= shuffled.len(),
    ensures
        placed(cells, shuffled, active, seat).len() == 100,
        forall|c: int|
            0 <= c < 100 ==> #[trigger] start_cell_ok(
                cells,
                shuffled,
                active,
                seat,
                placed(cells, shuffled, active, seat),
                c,
            ),
        forall|s: int|
            0 <= s < seat && active[s] ==> placed(cells, shuffled, active, seat)[#[trigger] start_of(
                shuffled,
                active,
                s,
            )].player == s + 1,
    decreases seat,
{
    let p = placed(cells, shuffled, active, seat);
    if seat == 0 {
        assert forall|c: int| 0 <= c < 100 implies #[trigger] start_cell_ok(
            cells,
            shuffled,
            active,
            seat,
            p,
            c,
        ) by {
            assert(cells[c].player == 0);
        }
    } else {
        let prev = (seat - 1) as nat;
        lemma_placed(cells, shuffled, active, prev);
        let before = placed(cells, shuffled, active, prev);
        if active[seat - 1] {
            lemma_active_before_rises(active, seat, 4);
            let at = start_of(shuffled, active, seat - 1);
            assert(on_board(shuffled[active_before(active, prev) as int] as int));
            assert forall|c: int| 0 <= c < 100 implies #[trigger] start_cell_ok(
                cells,
                shuffled,
                active,
                seat,
                p,
                c,
            ) by {
                assert(start_cell_ok(cells, shuffled, active, prev, before, c));
            }
            assert forall|s: int| 0 <= s < seat && active[s] implies p[#[trigger] start_of(
                shuffled,
                active,
                s,
            )].player == s + 1 by {
                if s < seat - 1 {
                    lemma_starts_differ(shuffled, active, s as nat, prev);
                    assert(before[start_of(shuffled, active, s)].player == s + 1);
                }
            }
        } else {
            assert forall|c: int| 0 <= c < 100 implies #[trigger] start_cell_ok(
                cells,
                shuffled,
                active,
                seat,
                p,
                c,
            ) by {
                assert(start_cell_ok(cells, shuffled, active, prev, before, c));
            }
            assert forall|s: int| 0 <= s < seat && active[s] implies p[#[trigger] start_of(
                shuffled,
                active,
                s,
            )].player == s + 1 by {
                assert(before[start_of(shuffled, active, s)].player == s + 1);
            }
        }
    }
}

/// The cells of a board as seeding made them: what lies outside the disk is
/// not part of the map.
pub open spec fn within_disk(m: GameMap) -> bool {
    forall|i: int|
        0 <= i < 100 && !in_disk_spec(i) ==> (#[trigger] m.spaces[i]).contents
            == MapSpaceContents::NotInMap
}

/// A generated board and how its generation went.
#[derive(Copy, Clone, Debug)]
pub struct BoardReport {
    /// The board with the starting cells placed; the scores are zero.
    pub snapshot: GameSnapshot,
    /// The number of active seats.
    pub player_count: i32,
    /// Playable cells before erosion.
    pub seeded_count: i32,
    /// Playable cells of the finished board.
    pub space_count: i32,
    /// Erosion ran out of attempts before the board was down to its target
    /// size. The board is larger than intended and still good to play on.
    pub exhausted: bool,
}

/// The report `b` is what a run of generation for the seats `active` gives
/// that seeds the board `seeded`, makes its erosion attempts at the cells
/// `picks`, and hands out the starting cells from the list `shuffled`: the
/// board is seeded as seeding does it; it is eroded towards sixteen
/// playable cells for each active seat, as `erosion_run` says; the list is
/// the eroded board's edge cells in some order; and the starts are placed on
/// the eroded board from the front of the list.
pub open spec fn generation_run(
    active: Seq<bool>,
    seeded: GameMap,
    picks: Seq<int>,
    shuffled: Seq<i32>,
    b: BoardReport,
) -> bool {
    &&& seeded_board(seeded)
    &&& b.seeded_count == seeded.playable_count()
    &&& erosion_run(
        seeded,
        picks,
        eroded(seeded, picks),
        b.space_count as int,
        SPACES_PER_PLAYER * active_before(active, 4),
    )
    &&& b.space_count == eroded(seeded, picks).playable_count()
    &&& shuffled.to_multiset() == eroded(seeded, picks).edge_spaces_spec().to_multiset()
    &&& b.snapshot.map.spaces@ == placed(eroded(seeded, picks).spaces@, shuffled, active, 4)
}

/// A run of generation for the seats `active` that seeds the board `seeded`
/// and makes its erosion attempts at the cells `picks` ends without a
/// starting cell for every active seat: the eroded board has fewer edge
/// cells than there are active seats.
pub open spec fn generation_fails(active: Seq<bool>, seeded: GameMap, picks: Seq<int>) -> bool {
    &&& seeded_board(seeded)
    &&& erosion_run(
        seeded,
        picks,
        eroded(seeded, picks),
        eroded(seeded, picks).playable_count(),
        SPACES_PER_PLAYER * active_before(active, 4),
    )
    &&& eroded(seeded, picks).edge_spaces_spec().len() < active_before(active, 4)
}

/// Generates a board for the seats marked in `active`, drawing from `rng`.
/// The board is seeded, eroded down to sixteen playable cells for each
/// active seat, and every active seat gets a starting cell on the rim,
/// picked at random. Fails when the rim has fewer cells than there are
/// active seats, which cannot happen when no seat is active.
pub fn build_map(active: [bool; 4], rng: &mut StdRng) -> (r: Result<BoardReport, BoardError>)
    ensures
        active_before(active@, 4) == 0 ==> r is Ok,
        r matches Err(e) ==> e == BoardError::NoStartingPosition && exists|
            seeded: GameMap,
            picks: Seq<int>,
        | #[trigger] generation_fails(active@, seeded, picks),
        r matches Ok(b) ==> {
            &&& exists|seeded: GameMap, picks: Seq<int>, shuffled: Seq<i32>| #[trigger]
                generation_run(active@, seeded, picks, shuffled, b)
            &&& b.snapshot.wf()
            &&& forall|p: int| 0 <= p < 4 ==> b.snapshot.score[p] == 0
            &&& within_disk(b.snapshot.map)
            &&& starts_placed(b.snapshot.map, active@)
            &&& b.player_count == active_before(active@, 4)
            &&& b.space_count == b.snapshot.map.playable_count()
            &&& 0 <= b.space_count <= b.seeded_count <= 100
            &&& b.seeded_count <= SPACES_PER_PLAYER * b.player_count ==> b.space_count
                == b.seeded_count
            &&& b.seeded_count > SPACES_PER_PLAYER * b.player_count ==> b.space_count
                >= SPACES_PER_PLAYER * b.player_count
            &&& b.exhausted == (b.space_count > SPACES_PER_PLAYER * b.player_count)
            &&& b.space_count < b.seeded_count ==> b.snapshot.map.connected()
        },
{
    let player_count = count_active(active);
    let (seeded, seeded_count) = seed_map(rng);
    let target_spaces = player_count * SPACES_PER_PLAYER;
    let (map, space_count) = erode_map(seeded, seeded_count, target_spaces, rng);
    let ghost picks = choose|picks: Seq<int>| #[trigger]
        erosion_run(seeded, picks, map, space_count as int, target_spaces as int);
    let mut edge_spaces = map.edge_spaces();
    let ghost edges = edge_spaces@;
    rng_shuffle(rng, &mut edge_spaces);
    proof {
        map.lemma_edge_cells();
        lemma_same_elements(edges, edge_spaces@);
        assert forall|j: int| 0 <= j < edge_spaces.len() implies map.is_edge(
            #[trigger] edge_spaces[j] as int,
        ) by {
            assert(edge_spaces@.contains(edge_spaces@[j]));
            assert(edges.contains(edge_spaces@[j]));
            let k = choose|k: int| 0 <= k < edges.len() && edges[k] == edge_spaces@[j];
            assert(map.is_edge(edges[k] as int));
        }
    }
    match place_starts(map, &edge_spaces, active) {
        Err(e) => {
            proof {
                assert(generation_fails(active@, seeded, picks));
                assert(exists|seed: GameMap, run: Seq<int>| #[trigger]
                    generation_fails(active@, seed, run));
            }
            Err(e)
        },
        Ok(placed_map) => {
            let snapshot = GameSnapshot { map: placed_map, score: [0;4] };
            proof {
                lemma_placed(map.spaces@, edge_spaces@, active@, 4);
                let p = placed_map.spaces@;
                assert forall|c: int| 0 <= c < 100 implies start_cell_ok(
                    map.spaces@,
                    edge_spaces@,
                    active@,
                    4,
                    p,
                    c,
                ) && (p[c].player != 0 ==> map.is_edge(c)) by {
                    assert(start_cell_ok(map.spaces@, edge_spaces@, active@, 4, p, c));
                    if p[c].player != 0 {
                        lemma_active_before_rises(active@, p[c].player as nat, 4);
                        let slot = active_before(active@, (p[c].player - 1) as nat) as int;
                        assert(map.is_edge(edge_spaces[slot] as int));
                    }
                }
                assert forall|i: int| 0 <= i < 100 implies (#[trigger] map.spaces[i]).contents
                    == placed_map.spaces[i].contents by {
                    assert(start_cell_ok(map.spaces@, edge_spaces@, active@, 4, p, i));
                }
                map.lemma_playable_count_same(placed_map, 100);
                assert(map.same_playable(placed_map));
                if space_count < seeded_count {
                    map.lemma_connected_same(placed_map);
                }
                assert forall|i: int| 0 <= i < 100 implies map.is_edge(i) == placed_map.is_edge(
                    i,
                ) by {
                    lemma_is_edge_same(map, placed_map, i);
                }
                assert forall|i: int| 0 <= i < 100 implies (#[trigger] placed_map.spaces[i]).wf_at(
                    i,
                ) by {
                    assert(map.spaces[i].wf_at(i));
                    assert(start_cell_ok(map.spaces@, edge_spaces@, active@, 4, p, i));
                    assert(p[i].player != 0 ==> map.is_edge(i));
                }
                assert forall|c: int| 0 <= c < 100 implies ({
                    let cell = #[trigger] placed_map.spaces[c];
                    (cell.player == 0 && cell.power == 0) || (1 <= cell.player <= 4 && active@[cell.player
                        - 1] && cell.power == START_POWER && placed_map.is_edge(c))
                }) by {
                    assert(map.spaces[c].wf_at(c));
                    assert(start_cell_ok(map.spaces@, edge_spaces@, active@, 4, p, c));
                    assert(p[c].player != 0 ==> map.is_edge(c));
                }
                assert forall|s: int| 0 <= s < 4 && #[trigger] active@[s] implies exists|c: int|
                    0 <= c < 100 && (#[trigger] placed_map.spaces[c]).player == s + 1 by {
                    lemma_active_before_rises(active@, s as nat + 1, 4);
                    let c = start_of(edge_spaces@, active@, s);
                    assert(map.is_edge(edge_spaces[active_before(active@, s as nat) as int] as int));
                    assert(p[c].player == s + 1);
                    assert(placed_map.spaces[c].player == s + 1);
                }
                assert forall|c1: int, c2: int|
                    0 <= c1 < 100 && 0 <= c2 < 100 && (#[trigger] placed_map.spaces[c1]).player == (
                    #[trigger] placed_map.spaces[c2]).player && placed_map.spaces[c1].player
                        != 0 implies c1 == c2 by {
                    assert(start_cell_ok(map.spaces@, edge_spaces@, active@, 4, p, c1));
                    assert(start_cell_ok(map.spaces@, edge_spaces@, active@, 4, p, c2));
                }
                assert forall|i: int| 0 <= i < 100 && !in_disk_spec(i) implies (
                #[trigger] placed_map.spaces[i]).contents == MapSpaceContents::NotInMap by {
                    assert(seeded.spaces[i] == seed_cell_spec(i, true) || seeded.spaces[i]
                        == seed_cell_spec(i, false));
                    assert(map.spaces[i] == seeded.spaces[i] || map.spaces[i].contents
                        == MapSpaceContents::NotInMap);
                    assert(start_cell_ok(map.spaces@, edge_spaces@, active@, 4, p, i));
                }
            }
            let board = BoardReport {
                snapshot,
                player_count,
                seeded_count,
                space_count,
                exhausted: space_count > target_spaces,
            };
            proof {
                assert(generation_run(active@, seeded, picks, edge_spaces@, board));
                assert(exists|seed: GameMap, run: Seq<int>, list: Seq<i32>| #[trigger]
                    generation_run(active@, seed, run, list, board));
            }
            Ok(board)
        },
    }
}

/// Whether a cell is an edge cell depends on the contents of the cells, and
/// on nothing else.
pub proof fn lemma_is_edge_same(a: GameMap, b: GameMap, i: int)
    requires
        forall|j: int| 0 <= j < 100 ==> (#[trigger] a.spaces[j]).contents == b.spaces[j].contents,
    ensures
        a.is_edge(i) == b.is_edge(i),
{
    lemma_step_lands(i, MapDirection::North);
    lemma_step_lands(i, MapDirection::NorthEast);
    lemma_step_lands(i, MapDirection::SouthEast);
    lemma_step_lands(i, MapDirection::South);
    lemma_step_lands(i, MapDirection::SouthWest);
    lemma_step_lands(i, MapDirection::NorthWest);
}

} // verus!
