//! Position evaluation: a strength score for each seat, in fixed point.
//!
//! A cell that holds power is worth a base amount. A cell that can still
//! split is worth more, the more power it can send and the more empty room
//! its six rays see; room that another seat can reach in one move counts
//! less than room that none can.

use vstd::prelude::*;
use crate::gamemap::{lemma_step_rank, ray_rank, GameMap};
use crate::hexgrid::{dir_at, move_dir, move_dir_spec, MapDirection, MapSpaceContents, INVALID};
use crate::snapshot::GameSnapshot;

verus! {

/// The fixed-point unit: what a cell that holds power is worth by itself.
pub const EVAL_UNIT: i64 = 10000;

/// The numerator of the harmonic blend of sendable power and room.
pub const EVAL_BLEND: i64 = 1000000000;

/// No seat's strength is above this: a cell is worth no more than a unit
/// for each unit of its power, a cell holds no more than 255 units, and
/// there are a hundred cells.
pub const EVAL_MAX: i64 = 255000000;

/// The bit that stands for seat `p` in an access mask.
pub open spec fn seat_bit(p: int) -> u8 {
    if p == 0 {
        1
    } else if p == 1 {
        2
    } else if p == 2 {
        4
    } else {
        8
    }
}

/// Setting one seat's bit in a mask of four seats sets that bit and leaves
/// the other three as they were.
pub proof fn lemma_mask_set(m: u8, b: u8)
    requires
        m < 16,
        b == 1 || b == 2 || b == 4 || b == 8,
    ensures
        (m | b) < 16,
        ((m | b) & 1 != 0) == (m & 1 != 0 || b == 1),
        ((m | b) & 2 != 0) == (m & 2 != 0 || b == 2),
        ((m | b) & 4 != 0) == (m & 4 != 0 || b == 4),
        ((m | b) & 8 != 0) == (m & 8 != 0 || b == 8),
{
    assert(m < 16 && (b == 1 || b == 2 || b == 4 || b == 8) ==> (m | b) < 16 && (((m | b) & 1 != 0)
        == (m & 1 != 0 || b == 1)) && (((m | b) & 2 != 0) == (m & 2 != 0 || b == 2)) && (((m | b)
        & 4 != 0) == (m & 4 != 0 || b == 4)) && (((m | b) & 8 != 0) == (m & 8 != 0 || b == 8)))
        by (bit_vector);
}

/// A mask of four seats with one seat's bit masked out is zero exactly when
/// none of the other three bits is set.
pub proof fn lemma_mask_others(m: u8, b: u8)
    requires
        m < 16,
        b == 1 || b == 2 || b == 4 || b == 8,
    ensures
        ((m & !b) == 0) == ((b == 1 || m & 1 == 0) && (b == 2 || m & 2 == 0) && (b == 4 || m & 4
            == 0) && (b == 8 || m & 8 == 0)),
{
    assert(m < 16 && (b == 1 || b == 2 || b == 4 || b == 8) ==> (((m & !b) == 0) == ((b == 1 || m
        & 1 == 0) && (b == 2 || m & 2 == 0) && (b == 4 || m & 4 == 0) && (b == 8 || m & 8 == 0))))
        by (bit_vector);
}

/// The bit of a seat is one shifted left by the seat's number.
pub proof fn lemma_seat_bit_shift(p: u8)
    requires
        p < 4,
    ensures
        1u8 << p == seat_bit(p as int),
{
    assert(p < 4 ==> (1u8 << p) == (if p == 0 {
        1u8
    } else if p == 1 {
        2u8
    } else if p == 2 {
        4u8
    } else {
        8u8
    })) by (bit_vector);
}

impl GameMap {
    /// Ray number `n` (cell `n / 6`, the direction with number `n % 6`)
    /// lets seat `p` split onto `t`.
    pub open spec fn ray_hits(&self, p: int, t: int, n: int) -> bool {
        self.can_split(p, n / 6, dir_at(n % 6)) && self.ray_end(n / 6, dir_at(n % 6)) == t
    }

    /// One of the first `n` rays lets seat `p` split onto `t`.
    pub open spec fn threatens_before(&self, p: int, t: int, n: int) -> bool {
        exists|m: int| 0 <= m < n && #[trigger] self.ray_hits(p, t, m)
    }

    /// Seat `p` can reach `t` with one move: one of its cells that holds
    /// more than one unit of power has a ray that ends on `t`.
    pub open spec fn threatens(&self, p: int, t: int) -> bool {
        self.threatens_before(p, t, 600)
    }

    /// A seat other than `seat` can reach `t` with one move.
    pub open spec fn contested(&self, seat: int, t: int) -> bool {
        (seat != 0 && self.threatens(0, t)) || (seat != 1 && self.threatens(1, t)) || (seat != 2
            && self.threatens(2, t)) || (seat != 3 && self.threatens(3, t))
    }

    /// The worth of the room along the ray from `ndx` in direction `dir`
    /// for `seat`: each open cell counts for the worth that is left when it
    /// is reached. The worth starts at `factor` and falls with each step, to
    /// nine tenths over a cell that no other seat can reach and to one half
    /// over one that another seat can; fractions are dropped.
    pub open spec fn ray_value(&self, seat: int, ndx: int, dir: MapDirection, factor: int) -> int
        decreases ray_rank(ndx, dir),
    {
        let next = move_dir_spec(ndx, dir);
        if self.open_at(next) {
            proof {
                lemma_step_rank(ndx, dir);
            }
            let left = if self.contested(seat, next) {
                factor * 5 / 10
            } else {
                factor * 9 / 10
            };
            left + self.ray_value(seat, next, dir, left)
        } else {
            0
        }
    }

    /// The worth of the room that `seat` sees from cell `c` along the first
    /// `k` rays.
    pub open spec fn room_upto(&self, seat: int, c: int, k: nat) -> int
        decreases k,
    {
        if k == 0 {
            0
        } else {
            self.room_upto(seat, c, (k - 1) as nat) + self.ray_value(
                seat,
                c,
                dir_at(k - 1),
                EVAL_UNIT as int,
            )
        }
    }

    /// The worth of the room that `seat` sees from cell `c` along all six
    /// rays.
    pub open spec fn opportunity(&self, seat: int, c: int) -> int {
        self.room_upto(seat, c, 6)
    }

    /// What cell `c` is worth to its owner: nothing when it is empty, else a
    /// base unit, and for a cell that can split and sees room the harmonic
    /// blend of the power it can send and the room it sees.
    pub open spec fn cell_value(&self, c: int) -> int {
        let cell = self.spaces[c];
        if cell.power == 0 {
            0
        } else if cell.power == 1 {
            EVAL_UNIT as int
        } else {
            let unit = EVAL_UNIT as int;
            let blend = EVAL_BLEND as int;
            let movable = (cell.power - 1) * unit;
            let room = self.opportunity(cell.player - 1, c);
            if room > 0 {
                unit + blend / (blend / movable + blend / room)
            } else {
                EVAL_UNIT as int
            }
        }
    }

    /// What cell `c` adds to the strength of seat `p`: its worth when the
    /// seat owns it, and nothing otherwise.
    pub open spec fn cell_share(&self, p: int, c: int) -> int {
        if self.spaces[c].player == p + 1 {
            self.cell_value(c)
        } else {
            0
        }
    }

    /// The worth of the first `n` cells to seat `p`.
    pub open spec fn seat_value_upto(&self, p: int, n: nat) -> int
        decreases n,
    {
        if n == 0 {
            0
        } else {
            self.seat_value_upto(p, (n - 1) as nat) + self.cell_share(p, n - 1)
        }
    }

    /// The worth to seat `p` of the cells listed in `order`, added up in
    /// that order.
    pub open spec fn seat_value_over(&self, p: int, order: Seq<int>) -> int
        decreases order.len(),
    {
        if order.len() == 0 {
            0
        } else {
            self.seat_value_over(p, order.drop_last()) + self.cell_share(p, order.last())
        }
    }

    /// The strength of seat `p`: the worth of all the cells that it owns.
    pub open spec fn seat_value(&self, p: int) -> int {
        self.seat_value_upto(p, 100)
    }

    /// Taking one cell out of a list takes its share out of the sum.
    pub proof fn lemma_value_over_remove(&self, p: int, order: Seq<int>, j: int)
        requires
            0 <= j < order.len(),
        ensures
            self.seat_value_over(p, order) == self.seat_value_over(p, order.remove(j))
                + self.cell_share(p, order[j]),
        decreases order.len(),
    {
        if j == order.len() - 1 {
            assert(order.remove(j) =~= order.drop_last());
        } else {
            self.lemma_value_over_remove(p, order.drop_last(), j);
            assert(order.remove(j).drop_last() =~= order.drop_last().remove(j));
            assert(order.remove(j).last() == order.last());
        }
    }

    /// Two lists that hold the same cells equally often give the same sum,
    /// whatever their order.
    pub proof fn lemma_value_over_permuted(&self, p: int, a: Seq<int>, b: Seq<int>)
        requires
            a.to_multiset() == b.to_multiset(),
        ensures
            self.seat_value_over(p, a) == self.seat_value_over(p, b),
        decreases a.len(),
    {
        a.to_multiset_ensures();
        b.to_multiset_ensures();
        if a.len() == 0 {
            assert(b.len() == 0);
        } else {
            let last = a.len() - 1;
            let x = a[last];
            assert(a.contains(x));
            assert(b.to_multiset().count(x) > 0);
            assert(b.contains(x));
            let j = choose|j: int| 0 <= j < b.len() && b[j] == x;
            assert(a.remove(last) =~= a.drop_last());
            assert(a.remove(last).to_multiset() =~= a.to_multiset().remove(a[last]));
            assert(b.remove(j).to_multiset() =~= b.to_multiset().remove(b[j]));
            self.lemma_value_over_permuted(p, a.drop_last(), b.remove(j));
            self.lemma_value_over_remove(p, b, j);
        }
    }

    /// Adding up the first `n` cells in index order is adding up the list of
    /// the first `n` indices.
    pub proof fn lemma_value_upto_is_over(&self, p: int, n: nat)
        ensures
            self.seat_value_upto(p, n) == self.seat_value_over(p, Seq::new(n, |i: int| i)),
        decreases n,
    {
        if n > 0 {
            self.lemma_value_upto_is_over(p, (n - 1) as nat);
            assert(Seq::new(n, |i: int| i).drop_last() =~= Seq::new((n - 1) as nat, |i: int| i));
        }
    }

    /// A seat's strength does not depend on the order in which the cells are
    /// gone through: whichever way the hundred cells are listed, each once,
    /// their shares add up to the same strength.
    pub proof fn lemma_evaluation_order_free(&self, p: int, order: Seq<int>)
        requires
            order.to_multiset() == Seq::new(100, |i: int| i).to_multiset(),
        ensures
            self.seat_value_over(p, order) == self.seat_value(p),
    {
        self.lemma_value_upto_is_over(p, 100);
        self.lemma_value_over_permuted(p, order, Seq::new(100, |i: int| i));
    }

    /// The mask `m` records for each of the four seats whether one of the
    /// first `n` rays lets it split onto `t`.
    pub open spec fn mask_matches(&self, m: u8, t: int, n: int) -> bool {
        &&& m < 16
        &&& (m & 1 != 0) == self.threatens_before(0, t, n)
        &&& (m & 2 != 0) == self.threatens_before(1, t, n)
        &&& (m & 4 != 0) == self.threatens_before(2, t, n)
        &&& (m & 8 != 0) == self.threatens_before(3, t, n)
    }

    /// One ray more threatens what the rays before it did, and what it hits
    /// itself.
    pub proof fn lemma_threat_step(&self, p: int, t: int, n: int)
        requires
            0 <= n,
        ensures
            self.threatens_before(p, t, n + 1) == (self.threatens_before(p, t, n) || self.ray_hits(
                p,
                t,
                n,
            )),
    {
        if self.threatens_before(p, t, n + 1) {
            let m = choose|m: int| 0 <= m < n + 1 && #[trigger] self.ray_hits(p, t, m);
            if m < n {
                assert(self.threatens_before(p, t, n));
            }
        }
        if self.threatens_before(p, t, n) {
            let m = choose|m: int| 0 <= m < n && #[trigger] self.ray_hits(p, t, m);
            assert(0 <= m < n + 1 && self.ray_hits(p, t, m));
        }
        if self.ray_hits(p, t, n) {
            assert(0 <= n < n + 1 && self.ray_hits(p, t, n));
        }
    }

    /// How the mask of `t` changes with ray `n`: the bit of the ray's owner
    /// is set when the ray ends on `t`, and nothing changes otherwise.
    pub proof fn lemma_mask_after_ray(&self, m: u8, t: int, n: int)
        requires
            self.wf(),
            0 <= n < 600,
            self.mask_matches(m, t, n),
        ensures
            ({
                let c = n / 6;
                let cell = self.spaces[c];
                if cell.power > 1 && self.ray_end(c, dir_at(n % 6)) == t && t != c {
                    self.mask_matches(m | seat_bit(cell.player - 1), t, n + 1)
                } else {
                    self.mask_matches(m, t, n + 1)
                }
            }),
    {
        let c = n / 6;
        let cell = self.spaces[c];
        assert(cell.wf_at(c));
        self.lemma_threat_step(0, t, n);
        self.lemma_threat_step(1, t, n);
        self.lemma_threat_step(2, t, n);
        self.lemma_threat_step(3, t, n);
        if cell.power > 1 && self.ray_end(c, dir_at(n % 6)) == t && t != c {
            lemma_mask_set(m, seat_bit(cell.player - 1));
        }
    }

    /// What the finished masks say: whether a seat other than `seat` can
    /// reach `t`.
    pub proof fn lemma_mask_contested(&self, m: u8, t: int, seat: int)
        requires
            0 <= seat < 4,
            self.mask_matches(m, t, 600),
        ensures
            ((m & !seat_bit(seat)) == 0) == !self.contested(seat, t),
    {
        lemma_mask_others(m, seat_bit(seat));
    }
}

/// Evaluation is a function of the cells: snapshots with the same cells are
/// of the same strength for every seat, whatever their scores say.
pub proof fn lemma_evaluation_repeatable(a: GameSnapshot, b: GameSnapshot, p: int)
    requires
        a.map.spaces@ == b.map.spaces@,
    ensures
        a.map.seat_value(p) == b.map.seat_value(p),
{
    assert(a.map.spaces =~= b.map.spaces);
}

/// A quotient of a number that is not negative by a positive one lies
/// between zero and the dividend, and is at least one when the divisor is no
/// larger than the dividend.
pub proof fn lemma_quotient_bounds(a: int, x: int)
    requires
        0 <= a,
        0 < x,
    ensures
        0 <= a / x <= a,
        x <= a ==> 1 <= a / x,
{
    assert(0 <= a / x <= a && (x <= a ==> 1 <= a / x)) by (nonlinear_arith)
        requires
            0 <= a,
            0 < x,
    ;
}

/// The harmonic blend of two amounts is no larger than the first of them.
pub proof fn lemma_blend_bound(b: int, m: int, r: int)
    requires
        0 < m,
        0 < r <= b,
    ensures
        b / m + b / r > 0,
        0 <= b / (b / m + b / r) <= m,
{
    let q = b / m;
    let s = b / r;
    lemma_quotient_bounds(b, m);
    lemma_quotient_bounds(b, r);
    let d = q + s;
    assert(b < (q + 1) * m) by (nonlinear_arith)
        requires
            q == b / m,
            m > 0,
    ;
    assert(d * m > b) by (nonlinear_arith)
        requires
            d >= q + 1,
            m > 0,
            b < (q + 1) * m,
    ;
    assert(0 <= b / d <= m) by (nonlinear_arith)
        requires
            d > 0,
            d * m > b,
            b >= 0,
            m > 0,
    ;
}

/// The strength of each of the four seats in `snap`. A first pass records
/// for every cell which seats can reach it with one move; a second values
/// every cell that holds power and adds it to its owner's strength.
pub fn evaluate_position(snap: GameSnapshot) -> (r: [i64; 4])
    requires
        snap.wf(),
    ensures
        forall|p: int| 0 <= p < 4 ==> r[p] == snap.map.seat_value(p),
        forall|p: int| 0 <= p < 4 ==> 0 <= #[trigger] r[p] <= EVAL_MAX,
{
    let mut access_map: [u8; 100] = [0;100];
    let mut eval_score: [i64; 4] = [0;4];
    let dirs = MapDirection::iterator();
    let mut i: usize = 0;
    proof {
        assert(0u8 & 1 == 0 && 0u8 & 2 == 0 && 0u8 & 4 == 0 && 0u8 & 8 == 0) by (bit_vector);
    }
    while i < 100
        invariant
            i <= 100,
            snap.wf(),
            forall|j: int| 0 <= j < 6 ==> dirs[j] == dir_at(j),
            forall|t: int| 0 <= t < 100 ==> snap.map.mask_matches(#[trigger] access_map[t], t, 6 * i),
        decreases 100 - i,
    {
        let hex = snap.map.spaces[i];
        assert(hex.wf_at(i as int));
        let mut k: usize = 0;
        if hex.power > 1 {
            let player: u8 = 1u8 << (hex.player - 1);
            let index = hex.ndx;
            proof {
                lemma_seat_bit_shift((hex.player - 1) as u8);
            }
            while k < 6
                invariant
                    i < 100,
                    k <= 6,
                    snap.wf(),
                    hex == snap.map.spaces[i as int],
                    hex.power > 1,
                    index == i,
                    1 <= hex.player <= 4,
                    player == seat_bit(hex.player - 1),
                    forall|j: int| 0 <= j < 6 ==> dirs[j] == dir_at(j),
                    forall|t: int|
                        0 <= t < 100 ==> snap.map.mask_matches(#[trigger] access_map[t], t, 6 * i + k),
                decreases 6 - k,
            {
                let target_index = snap.map.search_dir(index, dirs[k]);
                let ghost n = 6 * i + k;
                let ghost before = access_map;
                proof {
                    assert(n / 6 == i && n % 6 == k);
                }
                if index != target_index {
                    access_map[target_index as usize] |= player;
                }
                proof {
                    assert forall|t: int| 0 <= t < 100 implies snap.map.mask_matches(
                        #[trigger] access_map[t],
                        t,
                        n + 1,
                    ) by {
                        assert(snap.map.mask_matches(before[t], t, n));
                        snap.map.lemma_mask_after_ray(before[t], t, n);
                    }
                }
                k += 1;
            }
        } else {
            proof {
                assert forall|t: int| 0 <= t < 100 implies snap.map.mask_matches(
                    #[trigger] access_map[t],
                    t,
                    6 * i + 6,
                ) by {
                    let m = access_map[t];
                    assert(snap.map.mask_matches(m, t, 6 * i));
                    assert((6 * i) / 6 == i && (6 * i + 1) / 6 == i && (6 * i + 2) / 6 == i && (6
                        * i + 3) / 6 == i && (6 * i + 4) / 6 == i && (6 * i + 5) / 6 == i);
                    snap.map.lemma_mask_after_ray(m, t, 6 * i);
                    snap.map.lemma_mask_after_ray(m, t, 6 * i + 1);
                    snap.map.lemma_mask_after_ray(m, t, 6 * i + 2);
                    snap.map.lemma_mask_after_ray(m, t, 6 * i + 3);
                    snap.map.lemma_mask_after_ray(m, t, 6 * i + 4);
                    snap.map.lemma_mask_after_ray(m, t, 6 * i + 5);
                }
            }
        }
        i += 1;
    }
    let mut i: usize = 0;
    while i < 100
        invariant
            i <= 100,
            snap.wf(),
            forall|j: int| 0 <= j < 6 ==> dirs[j] == dir_at(j),
            forall|t: int| 0 <= t < 100 ==> snap.map.mask_matches(#[trigger] access_map[t], t, 600),
            forall|p: int| 0 <= p < 4 ==> eval_score[p] == snap.map.seat_value_upto(p, i as nat),
            forall|p: int| 0 <= p < 4 ==> 0 <= #[trigger] eval_score[p] <= i * 2550000,
        decreases 100 - i,
    {
        let hex = snap.map.spaces[i];
        assert(hex.wf_at(i as int));
        if hex.power > 0 {
            let mut weight: i64 = EVAL_UNIT;
            let ghost seat = hex.player - 1;
            if hex.power > 1 {
                let player: u8 = 1u8 << (hex.player - 1);
                let not_player: u8 = !player;
                let movepower: i64 = ((hex.power - 1) as i64) * EVAL_UNIT;
                let mut opportunity: i64 = 0;
                let mut k: usize = 0;
                proof {
                    lemma_seat_bit_shift((hex.player - 1) as u8);
                }
                while k < 6
                    invariant
                        i < 100,
                        k <= 6,
                        snap.wf(),
                        hex == snap.map.spaces[i as int],
                        hex.ndx == i,
                        seat == hex.player - 1,
                        0 <= seat < 4,
                        player == seat_bit(seat),
                        not_player == !player,
                        forall|j: int| 0 <= j < 6 ==> dirs[j] == dir_at(j),
                        forall|t: int|
                            0 <= t < 100 ==> snap.map.mask_matches(#[trigger] access_map[t], t, 600),
                        opportunity == snap.map.room_upto(seat, i as int, k as nat),
                        0 <= opportunity <= 100000 * k,
                    decreases 6 - k,
                {
                    let mut curr_hex = hex.ndx;
                    let mut distancefactor: i64 = EVAL_UNIT;
                    let ghost dir = dir_at(k as int);
                    let ghost opp_before = opportunity as int;
                    proof {
                        lemma_step_rank(curr_hex as int, dir);
                    }
                    loop
                        invariant_except_break
                            opportunity - opp_before + snap.map.ray_value(
                                seat,
                                curr_hex as int,
                                dir,
                                distancefactor as int,
                            ) == snap.map.ray_value(seat, i as int, dir, EVAL_UNIT as int),
                            opportunity + 10000 * ray_rank(curr_hex as int, dir) <= 100000 * (k
                                + 1),
                        invariant
                            i < 100,
                            k < 6,
                            dir == dir_at(k as int),
                            dirs[k as int] == dir,
                            0 <= seat < 4,
                            player == seat_bit(seat),
                            not_player == !player,
                            0 <= distancefactor <= 10000,
                            0 <= opp_before <= opportunity,
                            forall|t: int|
                                0 <= t < 100 ==> snap.map.mask_matches(
                                    #[trigger] access_map[t],
                                    t,
                                    600,
                                ),
                        ensures
                            opportunity - opp_before == snap.map.ray_value(
                                seat,
                                i as int,
                                dir,
                                EVAL_UNIT as int,
                            ),
                            opportunity <= 100000 * (k + 1),
                        decreases ray_rank(curr_hex as int, dir),
                    {
                        let ghost prev = curr_hex as int;
                        curr_hex = move_dir(curr_hex, dirs[k]);
                        proof {
                            lemma_step_rank(prev, dir);
                            lemma_step_rank(curr_hex as int, dir);
                        }
                        if (curr_hex == INVALID as i32) || (snap.map.spaces[curr_hex as usize].contents
                            != MapSpaceContents::Playable) || (snap.map.spaces[curr_hex as usize].power
                            != 0) {
                            break ;
                        }
                        proof {
                            snap.map.lemma_mask_contested(
                                access_map[curr_hex as int],
                                curr_hex as int,
                                seat,
                            );
                        }
                        if (access_map[curr_hex as usize] & not_player) == 0 {
                            distancefactor *= 9;
                        } else {
                            distancefactor *= 5;
                        }
                        distancefactor = distancefactor / 10;
                        opportunity += distancefactor;
                    }
                    k += 1;
                }
                if opportunity > 0 {
                    proof {
                        lemma_quotient_bounds(EVAL_BLEND as int, movepower as int);
                        lemma_quotient_bounds(EVAL_BLEND as int, opportunity as int);
                        lemma_quotient_bounds(
                            EVAL_BLEND as int,
                            EVAL_BLEND / movepower + EVAL_BLEND / opportunity,
                        );
                        lemma_blend_bound(
                            EVAL_BLEND as int,
                            movepower as int,
                            opportunity as int,
                        );
                    }
                    weight += EVAL_BLEND / ((EVAL_BLEND / movepower) + (EVAL_BLEND / opportunity));
                }
            }
            proof {
                assert(weight == snap.map.cell_value(i as int));
                assert(0 <= weight <= hex.power * 10000);
            }
            eval_score[(hex.player - 1) as usize] += weight;
        }
        i += 1;
    }
    eval_score
}

} // verus!
