//! Move enumeration: every way in which a seat can split the power of one
//! of its cells along a ray.

use vstd::prelude::*;
use crate::gamemap::{GameMap, MapSpace};
use crate::hexgrid::{dir_at, on_board, MapDirection, INVALID};
use crate::seq_lemmas::lemma_flatten_skip;
use crate::snapshot::GameSnapshot;

verus! {

/// The cells after `amt` of the power at `src` has moved to `dst`, which
/// `seat` (counted from 0) then owns. Nothing else changes.
pub open spec fn split_cells(cells: Seq<MapSpace>, seat: int, src: int, dst: int, amt: int) -> Seq<
    MapSpace,
> {
    cells.update(src, MapSpace { power: (cells[src].power - amt) as u8, ..cells[src] }).update(
        dst,
        MapSpace { power: (cells[dst].power + amt) as u8, player: (seat + 1) as u8, ..cells[dst] },
    )
}

/// The sum of the power of all cells.
pub open spec fn total_power(cells: Seq<MapSpace>) -> int
    decreases cells.len(),
{
    if cells.len() == 0 {
        0
    } else {
        total_power(cells.drop_last()) + cells.last().power
    }
}

/// Replacing one cell changes the total by the difference in its power.
pub proof fn lemma_total_power_update(cells: Seq<MapSpace>, i: int, c: MapSpace)
    requires
        0 <= i < cells.len(),
    ensures
        total_power(cells.update(i, c)) == total_power(cells) - cells[i].power + c.power,
    decreases cells.len(),
{
    let t = cells.update(i, c);
    if i == cells.len() - 1 {
        assert(t.drop_last() =~= cells.drop_last());
    } else {
        lemma_total_power_update(cells.drop_last(), i, c);
        assert(t.drop_last() =~= cells.drop_last().update(i, c));
    }
}

impl GameMap {
    /// `seat` may split at `src` along `dir`: the cell is its own, holds more
    /// than one unit of power, and the ray in that direction gets somewhere.
    pub open spec fn can_split(&self, seat: int, src: int, dir: MapDirection) -> bool {
        &&& on_board(src)
        &&& self.spaces[src].power > 1
        &&& self.spaces[src].player == seat + 1
        &&& self.ray_end(src, dir) != src
    }
}

impl GameSnapshot {
    /// `seat` may split at `src` along `dir` on this snapshot's board.
    pub open spec fn can_split(&self, seat: int, src: int, dir: MapDirection) -> bool {
        self.map.can_split(seat, src, dir)
    }

    /// The boards that `seat` can reach by a split at `src` along `dir`, one
    /// for each amount from 1 up to all but one unit of the cell's power.
    pub open spec fn ray_moves(&self, seat: int, src: int, dir: MapDirection) -> Seq<
        Seq<MapSpace>,
    > {
        if self.can_split(seat, src, dir) {
            Seq::new(
                (self.map.spaces[src].power - 1) as nat,
                |a: int|
                    split_cells(self.map.spaces@, seat, src, self.map.ray_end(src, dir), a + 1),
            )
        } else {
            Seq::empty()
        }
    }

    /// The moves of all six hundred rays, one ray after the other: cells in
    /// index order, and for each cell the directions clockwise from north.
    pub open spec fn all_rays(&self, seat: int) -> Seq<Seq<Seq<MapSpace>>> {
        Seq::new(600, |n: int| self.ray_moves(seat, n / 6, dir_at(n % 6)))
    }

    /// The boards of all legal moves of `seat`, in the order in which they
    /// are listed.
    pub open spec fn valid_moves(&self, seat: int) -> Seq<Seq<MapSpace>> {
        self.all_rays(seat).flatten()
    }

    /// `seat` has at least one legal move.
    pub open spec fn has_move(&self, seat: int) -> bool {
        exists|src: int, k: int| 0 <= k < 6 && #[trigger] self.can_split(seat, src, dir_at(k))
    }

    /// `next` is what a legal split of `seat` makes of this snapshot.
    pub open spec fn is_split_of(&self, seat: int, next: GameSnapshot) -> bool {
        exists|src: int, k: int, amt: int|
            {
                &&& 0 <= k < 6
                &&& self.can_split(seat, src, dir_at(k))
                &&& 1 <= amt < self.map.spaces[src].power
                &&& next.score == self.score
                &&& next.map.spaces@ == #[trigger] split_cells(
                    self.map.spaces@,
                    seat,
                    src,
                    self.map.ray_end(src, dir_at(k)),
                    amt,
                )
            }
    }
}

/// Two boards agree in every cell but those at `src` and `dst`.
pub open spec fn same_but_at(a: Seq<MapSpace>, b: Seq<MapSpace>, src: int, dst: int) -> bool {
    &&& a.len() == b.len()
    &&& forall|i: int| 0 <= i < a.len() && i != src && i != dst ==> a[i] == b[i]
}

/// What a split does: it changes the source and the destination cell only;
/// the source keeps its owner and loses exactly the amount, the destination
/// held nothing and now holds the amount for the seat that moved; the power
/// on the board stays the same in sum, and the board stays well formed.
pub proof fn lemma_split_effect(
    s: GameSnapshot,
    seat: int,
    src: int,
    dir: MapDirection,
    amt: int,
)
    requires
        s.wf(),
        0 <= seat < 4,
        s.can_split(seat, src, dir),
        1 <= amt < s.map.spaces[src].power,
    ensures
        ({
            let dst = s.map.ray_end(src, dir);
            let before = s.map.spaces@;
            let after = split_cells(before, seat, src, dst, amt);
            &&& on_board(dst)
            &&& dst != src
            &&& s.map.open_at(dst)
            &&& after.len() == 100
            &&& forall|i: int| 0 <= i < 100 && i != src && i != dst ==> after[i] == before[i]
            &&& after[src].power + amt == before[src].power
            &&& after[src].player == seat + 1
            &&& after[src].contents == before[src].contents
            &&& after[src].ndx == src
            &&& after[dst].power == amt
            &&& after[dst].player == seat + 1
            &&& after[dst].contents == before[dst].contents
            &&& after[dst].ndx == dst
            &&& total_power(after) == total_power(before)
            &&& forall|i: int| 0 <= i < 100 ==> (#[trigger] after[i]).wf_at(i)
        }),
{
    let dst = s.map.ray_end(src, dir);
    let before = s.map.spaces@;
    s.map.lemma_ray_search(src, dir);
    assert(s.map.spaces[src].wf_at(src));
    assert(s.map.spaces[dst].wf_at(dst));
    let mid = before.update(
        src,
        MapSpace { power: (before[src].power - amt) as u8, ..before[src] },
    );
    let after = split_cells(before, seat, src, dst, amt);
    lemma_total_power_update(
        before,
        src,
        MapSpace { power: (before[src].power - amt) as u8, ..before[src] },
    );
    lemma_total_power_update(
        mid,
        dst,
        MapSpace { power: (mid[dst].power + amt) as u8, player: (seat + 1) as u8, ..mid[dst] },
    );
    assert forall|i: int| 0 <= i < 100 implies (#[trigger] after[i]).wf_at(i) by {
        assert(s.map.spaces[i].wf_at(i));
    }
}

/// Every snapshot that a legal split leads to holds as much power as the
/// one it came from, differs from it in two cells at most, and is well
/// formed.
pub proof fn lemma_move_conserves_power(s: GameSnapshot, seat: int, next: GameSnapshot)
    requires
        s.wf(),
        0 <= seat < 4,
        s.is_split_of(seat, next),
    ensures
        next.wf(),
        next.score == s.score,
        total_power(next.map.spaces@) == total_power(s.map.spaces@),
        exists|src: int, dst: int| same_but_at(s.map.spaces@, next.map.spaces@, src, dst),
{
    let (src, k, amt) = choose|src: int, k: int, amt: int|
        {
            &&& 0 <= k < 6
            &&& s.can_split(seat, src, dir_at(k))
            &&& 1 <= amt < s.map.spaces[src].power
            &&& next.score == s.score
            &&& next.map.spaces@ == #[trigger] split_cells(
                s.map.spaces@,
                seat,
                src,
                s.map.ray_end(src, dir_at(k)),
                amt,
            )
        };
    lemma_split_effect(s, seat, src, dir_at(k), amt);
    let dst = s.map.ray_end(src, dir_at(k));
    assert(same_but_at(s.map.spaces@, next.map.spaces@, src, dst));
    assert forall|i: int| 0 <= i < 100 implies (#[trigger] next.map.spaces[i]).wf_at(i) by {
        assert(next.map.spaces@[i].wf_at(i));
    }
}

/// A seat that owns no cell with more than one unit of power has no move.
pub proof fn lemma_no_power_no_move(s: GameSnapshot, seat: int)
    requires
        forall|c: int|
            0 <= c < 100 ==> !((#[trigger] s.map.spaces[c]).player == seat + 1
                && s.map.spaces[c].power > 1),
    ensures
        !s.has_move(seat),
        s.valid_moves(seat).len() == 0,
{
    let rays = s.all_rays(seat);
    assert forall|j: int| 0 <= j < 600 implies (#[trigger] rays[j]).len() == 0 by {
        assert(!s.can_split(seat, j / 6, dir_at(j % 6)));
    }
    lemma_flatten_skip(rays, 0, 600);
    assert(rays.take(600) =~= rays);
    assert(rays.take(0) =~= Seq::<Seq<Seq<MapSpace>>>::empty());
    assert(rays.take(0).flatten() =~= Seq::<Seq<MapSpace>>::empty());
}

/// The cells of a snapshot's board.
pub open spec fn cells_of(t: GameSnapshot) -> Seq<MapSpace> {
    t.map.spaces@
}

/// The boards of a list of snapshots.
pub open spec fn boards_of(moves: Seq<GameSnapshot>) -> Seq<Seq<MapSpace>> {
    moves.map_values(|t: GameSnapshot| cells_of(t))
}

/// `moves` is the list of the legal moves of `seat` from `s`: its boards
/// are those of the legal moves in their order, and every snapshot in it
/// carries the scores of `s`.
pub open spec fn is_move_list(s: GameSnapshot, seat: int, moves: Seq<GameSnapshot>) -> bool {
    &&& boards_of(moves) == s.valid_moves(seat)
    &&& forall|j: int| 0 <= j < moves.len() ==> (#[trigger] moves[j]).score == s.score
}

/// Every legal move of `for_player` (a seat, counted from 0) from `gamecurr`,
/// each as the snapshot that it leads to. A move takes the power of one of
/// the seat's cells that holds more than one unit, and sends part of it,
/// at least one unit and not all, along one of the six rays to the farthest
/// empty cell. The moves are listed by source cell in index order, then by
/// direction clockwise from north, then by amount. An empty list means that
/// the seat has to pass. The scores are copied as they are.
pub fn gen_valid_moves(gamecurr: GameSnapshot, for_player: usize) -> (result: Vec<GameSnapshot>)
    requires
        gamecurr.wf(),
        for_player < 4,
    ensures
        is_move_list(gamecurr, for_player as int, result@),
        forall|j: int|
            0 <= j < result.len() ==> gamecurr.is_split_of(for_player as int, #[trigger] result[j]),
        forall|j: int| 0 <= j < result.len() ==> (#[trigger] result[j]).wf(),
        result.len() == 0 <==> !gamecurr.has_move(for_player as int),
{
    let mut result: Vec<GameSnapshot> = Vec::new();
    let dirs = MapDirection::iterator();
    let ghost seat = for_player as int;
    let ghost rays = gamecurr.all_rays(seat);
    let ghost board = |t: GameSnapshot| cells_of(t);
    let mut i: usize = 0;
    proof {
        assert(rays.take(0) =~= Seq::<Seq<Seq<MapSpace>>>::empty());
        assert(rays.take(0).flatten() =~= Seq::<Seq<MapSpace>>::empty());
        assert(result@.map_values(board) =~= Seq::<Seq<MapSpace>>::empty());
    }
    while i < 100
        invariant
            i <= 100,
            gamecurr.wf(),
            for_player < 4,
            seat == for_player as int,
            rays == gamecurr.all_rays(seat),
            board == (|t: GameSnapshot| cells_of(t)),
            forall|j: int| 0 <= j < 6 ==> dirs[j] == dir_at(j),
            result@.map_values(board) == rays.take(6 * i).flatten(),
            forall|j: int| 0 <= j < result.len() ==> gamecurr.is_split_of(seat, #[trigger] result[j]),
            result.len() == 0 <==> forall|n: int| 0 <= n < 6 * i ==> (#[trigger] rays[n]).len() == 0,
        decreases 100 - i,
    {
        let mapsq = gamecurr.map.spaces[i];
        assert(mapsq.wf_at(i as int));
        if (mapsq.power > 1) && (mapsq.player == (for_player + 1) as u8) {
            let mut k: usize = 0;
            while k < 6
                invariant
                    i < 100,
                    k <= 6,
                    gamecurr.wf(),
                    for_player < 4,
                    seat == for_player as int,
                    mapsq == gamecurr.map.spaces[i as int],
                    mapsq.ndx == i,
                    mapsq.power > 1,
                    mapsq.player == seat + 1,
                    rays == gamecurr.all_rays(seat),
                    board == (|t: GameSnapshot| cells_of(t)),
                    forall|j: int| 0 <= j < 6 ==> dirs[j] == dir_at(j),
                    result@.map_values(board) == rays.take(6 * i + k).flatten(),
                    forall|j: int|
                        0 <= j < result.len() ==> gamecurr.is_split_of(seat, #[trigger] result[j]),
                    result.len() == 0 <==> forall|n: int|
                        0 <= n < 6 * i + k ==> (#[trigger] rays[n]).len() == 0,
                decreases 6 - k,
            {
                let ndx = mapsq.ndx;
                let move_ndx = gamecurr.map.search_dir(ndx, dirs[k]);
                let ghost n = 6 * i + k;
                let ghost base = result@.map_values(board);
                proof {
                    assert(n / 6 == i && n % 6 == k);
                    assert(rays[n] == gamecurr.ray_moves(seat, i as int, dir_at(k as int)));
                    assert(rays.take(n + 1) =~= rays.take(n).push(rays[n]));
                    rays.take(n).lemma_flatten_push(rays[n]);
                }
                if move_ndx != ndx && move_ndx != INVALID as i32 {
                    let start_ndx = ndx as usize;
                    let move_ndx = move_ndx as usize;
                    let mut amt: u8 = 1;
                    assert(gamecurr.can_split(seat, i as int, dir_at(k as int)));
                    while amt < gamecurr.map.spaces[start_ndx].power
                        invariant
                            1 <= amt <= mapsq.power,
                            start_ndx == i,
                            i < 100,
                            k < 6,
                            move_ndx < 100,
                            move_ndx != start_ndx,
                            for_player < 4,
                            seat == for_player as int,
                            mapsq == gamecurr.map.spaces[i as int],
                            move_ndx == gamecurr.map.ray_end(i as int, dir_at(k as int)),
                            gamecurr.map.spaces[move_ndx as int].power == 0,
                            gamecurr.can_split(seat, i as int, dir_at(k as int)),
                            board == (|t: GameSnapshot| cells_of(t)),
                            result@.map_values(board) == base + Seq::new(
                                (amt - 1) as nat,
                                |a: int|
                                    split_cells(
                                        gamecurr.map.spaces@,
                                        seat,
                                        i as int,
                                        move_ndx as int,
                                        a + 1,
                                    ),
                            ),
                            forall|j: int|
                                0 <= j < result.len() ==> gamecurr.is_split_of(
                                    seat,
                                    #[trigger] result[j],
                                ),
                        decreases mapsq.power - amt,
                    {
                        let mut next: GameSnapshot = gamecurr;
                        next.map.spaces[start_ndx].power -= amt;
                        next.map.spaces[move_ndx].power += amt;
                        next.map.spaces[move_ndx].player = (for_player + 1) as u8;
                        proof {
                            let made = split_cells(
                                gamecurr.map.spaces@,
                                seat,
                                i as int,
                                move_ndx as int,
                                amt as int,
                            );
                            assert(next.map.spaces@ =~= made);
                            assert(gamecurr.is_split_of(seat, next));
                            let before = Seq::new(
                                (amt - 1) as nat,
                                |a: int|
                                    split_cells(
                                        gamecurr.map.spaces@,
                                        seat,
                                        i as int,
                                        move_ndx as int,
                                        a + 1,
                                    ),
                            );
                            let after = Seq::new(
                                amt as nat,
                                |a: int|
                                    split_cells(
                                        gamecurr.map.spaces@,
                                        seat,
                                        i as int,
                                        move_ndx as int,
                                        a + 1,
                                    ),
                            );
                            assert(after =~= before.push(made));
                            assert(result@.push(next).map_values(board) =~= result@.map_values(
                                board,
                            ).push(made));
                            assert((base + before).push(made) =~= base + after);
                        }
                        result.push(next);
                        amt += 1;
                    }
                    proof {
                        let made = Seq::new(
                            (amt - 1) as nat,
                            |a: int|
                                split_cells(
                                    gamecurr.map.spaces@,
                                    seat,
                                    i as int,
                                    move_ndx as int,
                                    a + 1,
                                ),
                        );
                        assert(made =~= rays[n]);
                        assert(rays[n].len() > 0);
                        assert(result.len() > 0) by {
                            assert(result@.map_values(board).len() == base.len() + made.len());
                        }
                    }
                } else {
                    proof {
                        assert(!gamecurr.can_split(seat, i as int, dir_at(k as int)));
                        assert(rays[n].len() == 0);
                        assert(rays.take(n).flatten() + rays[n] =~= rays.take(n).flatten());
                    }
                }
                k += 1;
            }
        } else {
            proof {
                assert forall|j: int| 6 * i <= j < 6 * i + 6 implies (#[trigger] rays[j]).len()
                    == 0 by {
                    assert(j / 6 == i);
                    assert(!gamecurr.can_split(seat, i as int, dir_at(j % 6)));
                }
                lemma_flatten_skip(rays, 6 * i, 6 * i + 6);
            }
        }
        i += 1;
    }
    proof {
        assert(rays.take(600) =~= rays);
        if gamecurr.has_move(seat) {
            let (src, k) = choose|src: int, k: int|
                0 <= k < 6 && #[trigger] gamecurr.can_split(seat, src, dir_at(k));
            let n = 6 * src + k;
            assert(n / 6 == src && n % 6 == k);
            assert(rays[n].len() > 0);
        }
        if result.len() != 0 {
            let n = choose|n: int| 0 <= n < 600 && (#[trigger] rays[n]).len() != 0;
            assert(gamecurr.can_split(seat, n / 6, dir_at(n % 6)));
        }
        assert forall|j: int| 0 <= j < result.len() implies (#[trigger] result[j]).wf() by {
            lemma_move_conserves_power(gamecurr, seat, result[j]);
        }
    }
    result
}

} // verus!
