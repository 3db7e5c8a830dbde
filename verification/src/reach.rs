//! Connectivity of the playable cells, and the flood fill that decides it.

use vstd::prelude::*;
use crate::gamemap::GameMap;
use crate::hexgrid::{
    adjacent, lemma_adjacent_symmetric, move_dir_spec, MapDirection, MapSpaceContents,
};

verus! {

/// The number of entries of `s` that are set.
pub open spec fn count_set(s: Seq<bool>) -> nat
    decreases s.len(),
{
    if s.len() == 0 {
        0
    } else {
        count_set(s.drop_last()) + if s.last() {
            1nat
        } else {
            0nat
        }
    }
}

/// No more entries are set than there are.
pub proof fn lemma_count_set_bound(s: Seq<bool>)
    ensures
        count_set(s) <= s.len(),
    decreases s.len(),
{
    if s.len() > 0 {
        lemma_count_set_bound(s.drop_last());
    }
}

/// Setting an entry that was clear raises the count by one.
pub proof fn lemma_count_set_update(s: Seq<bool>, i: int)
    requires
        0 <= i < s.len(),
        !s[i],
    ensures
        count_set(s.update(i, true)) == count_set(s) + 1,
    decreases s.len(),
{
    let t = s.update(i, true);
    if i == s.len() - 1 {
        assert(t.drop_last() =~= s.drop_last());
    } else {
        lemma_count_set_update(s.drop_last(), i);
        assert(t.drop_last() =~= s.drop_last().update(i, true));
    }
}

impl GameMap {
    /// A path of at most `n` steps leads from `from` to `to` over playable
    /// cells only, both ends included.
    pub open spec fn linked_within(&self, from: int, to: int, n: nat) -> bool
        decreases n,
    {
        self.playable_at(from) && (from == to || (n > 0 && (self.linked_within(
            move_dir_spec(from, MapDirection::North),
            to,
            (n - 1) as nat,
        ) || self.linked_within(move_dir_spec(from, MapDirection::NorthEast), to, (n - 1) as nat)
            || self.linked_within(move_dir_spec(from, MapDirection::SouthEast), to, (n - 1) as nat)
            || self.linked_within(move_dir_spec(from, MapDirection::South), to, (n - 1) as nat)
            || self.linked_within(move_dir_spec(from, MapDirection::SouthWest), to, (n - 1) as nat)
            || self.linked_within(
            move_dir_spec(from, MapDirection::NorthWest),
            to,
            (n - 1) as nat,
        ))))
    }

    /// Some path over playable cells leads from `from` to `to`.
    pub open spec fn linked(&self, from: int, to: int) -> bool {
        exists|n: nat| self.linked_within(from, to, n)
    }

    /// Every playable cell can be reached from every other one over
    /// playable cells.
    pub open spec fn connected(&self) -> bool {
        forall|a: int, b: int|
            self.playable_at(a) && self.playable_at(b) ==> #[trigger] self.linked(a, b)
    }

    /// Where a path of at most `k + 1` steps from `from` to `to` goes first:
    /// the first of the six neighbours of `from`, clockwise from north, from
    /// which a path of at most `k` steps leads on to `to`.
    pub open spec fn path_next(&self, from: int, to: int, k: nat) -> int {
        if self.linked_within(move_dir_spec(from, MapDirection::North), to, k) {
            move_dir_spec(from, MapDirection::North)
        } else if self.linked_within(move_dir_spec(from, MapDirection::NorthEast), to, k) {
            move_dir_spec(from, MapDirection::NorthEast)
        } else if self.linked_within(move_dir_spec(from, MapDirection::SouthEast), to, k) {
            move_dir_spec(from, MapDirection::SouthEast)
        } else if self.linked_within(move_dir_spec(from, MapDirection::South), to, k) {
            move_dir_spec(from, MapDirection::South)
        } else if self.linked_within(move_dir_spec(from, MapDirection::SouthWest), to, k) {
            move_dir_spec(from, MapDirection::SouthWest)
        } else {
            move_dir_spec(from, MapDirection::NorthWest)
        }
    }

    /// A path between two different cells has a first step: to a playable
    /// neighbour from which a path one step shorter leads on.
    pub proof fn lemma_path_next(&self, from: int, to: int, n: nat)
        requires
            self.linked_within(from, to, n),
            from != to,
        ensures
            n > 0,
            self.playable_at(from),
            adjacent(from, self.path_next(from, to, (n - 1) as nat)),
            self.linked_within(self.path_next(from, to, (n - 1) as nat), to, (n - 1) as nat),
    {
    }

    /// A path from a neighbour of a playable cell makes a path from the
    /// cell, one step longer.
    pub proof fn lemma_path_extend(&self, from: int, next: int, to: int, n: nat)
        requires
            self.playable_at(from),
            adjacent(from, next),
            self.linked_within(next, to, n),
        ensures
            self.linked_within(from, to, n + 1),
    {
    }

    /// A path may always be given more steps than it needs.
    pub proof fn lemma_linked_within_more(&self, from: int, to: int, n: nat, m: nat)
        requires
            self.linked_within(from, to, n),
            n <= m,
        ensures
            self.linked_within(from, to, m),
        decreases n,
    {
        if from != to {
            let next = self.path_next(from, to, (n - 1) as nat);
            self.lemma_path_next(from, to, n);
            self.lemma_linked_within_more(next, to, (n - 1) as nat, (m - 1) as nat);
            self.lemma_path_extend(from, next, to, (m - 1) as nat);
        }
    }

    /// A playable cell is linked to whatever one of its neighbours is linked
    /// to.
    pub proof fn lemma_linked_step(&self, from: int, next: int, to: int)
        requires
            self.playable_at(from),
            adjacent(from, next),
            self.linked(next, to),
        ensures
            self.linked(from, to),
    {
        let n = choose|n: nat| self.linked_within(next, to, n);
        self.lemma_path_extend(from, next, to, n);
    }

    /// Every playable cell is linked to itself.
    pub proof fn lemma_linked_reflexive(&self, a: int)
        requires
            self.playable_at(a),
        ensures
            self.linked(a, a),
    {
        assert(self.linked_within(a, a, 0));
    }

    /// Both ends of a path are playable cells.
    pub proof fn lemma_linked_ends(&self, from: int, to: int, n: nat)
        requires
            self.linked_within(from, to, n),
        ensures
            self.playable_at(from),
            self.playable_at(to),
        decreases n,
    {
        if from != to {
            self.lemma_path_next(from, to, n);
            self.lemma_linked_ends(self.path_next(from, to, (n - 1) as nat), to, (n - 1) as nat);
        }
    }

    /// Two paths that meet make one.
    pub proof fn lemma_linked_within_join(&self, a: int, b: int, c: int, n: nat, m: nat)
        requires
            self.linked_within(a, b, n),
            self.linked_within(b, c, m),
        ensures
            self.linked_within(a, c, n + m),
        decreases n,
    {
        if a == b {
            self.lemma_linked_within_more(b, c, m, n + m);
        } else {
            let next = self.path_next(a, b, (n - 1) as nat);
            self.lemma_path_next(a, b, n);
            self.lemma_linked_within_join(next, b, c, (n - 1) as nat, m);
            self.lemma_path_extend(a, next, c, (n - 1 + m) as nat);
        }
    }

    /// Being linked carries over a cell in between.
    pub proof fn lemma_linked_transitive(&self, a: int, b: int, c: int)
        requires
            self.linked(a, b),
            self.linked(b, c),
        ensures
            self.linked(a, c),
    {
        let n = choose|n: nat| self.linked_within(a, b, n);
        let m = choose|m: nat| self.linked_within(b, c, m);
        self.lemma_linked_within_join(a, b, c, n, m);
    }

    /// A path can be walked backwards.
    pub proof fn lemma_linked_within_back(&self, a: int, b: int, n: nat)
        requires
            self.linked_within(a, b, n),
        ensures
            self.linked(b, a),
        decreases n,
    {
        if a == b {
            self.lemma_linked_reflexive(a);
        } else {
            let next = self.path_next(a, b, (n - 1) as nat);
            self.lemma_path_next(a, b, n);
            self.lemma_linked_within_back(next, b, (n - 1) as nat);
            self.lemma_linked_ends(next, b, (n - 1) as nat);
            lemma_adjacent_symmetric(a, next);
            self.lemma_linked_reflexive(a);
            self.lemma_linked_step(next, a, a);
            self.lemma_linked_transitive(b, next, a);
        }
    }

    /// Being linked is mutual.
    pub proof fn lemma_linked_symmetric(&self, a: int, b: int)
        requires
            self.linked(a, b),
        ensures
            self.linked(b, a),
    {
        let n = choose|n: nat| self.linked_within(a, b, n);
        self.lemma_linked_within_back(a, b, n);
    }

    /// What an attempt to erode the cell at `ndx` leaves: the map without
    /// the cell when that is a connected board, and the map as it is
    /// otherwise.
    pub open spec fn eroded_at(&self, ndx: int) -> GameMap {
        if self.cut(ndx).connected() {
            self.cut(ndx)
        } else {
            *self
        }
    }

    /// The same positions are playable in this map and in `other`.
    pub open spec fn same_playable(&self, other: GameMap) -> bool {
        forall|i: int| 0 <= i < 100 ==> self.playable_at(i) == other.playable_at(i)
    }

    /// A path in one map is a path in every map with the same playable
    /// cells.
    pub proof fn lemma_linked_within_same(&self, other: GameMap, from: int, to: int, n: nat)
        requires
            self.same_playable(other),
            self.linked_within(from, to, n),
        ensures
            other.linked_within(from, to, n),
        decreases n,
    {
        self.lemma_linked_ends(from, to, n);
        if from != to {
            let next = self.path_next(from, to, (n - 1) as nat);
            self.lemma_path_next(from, to, n);
            self.lemma_linked_within_same(other, next, to, (n - 1) as nat);
            other.lemma_path_extend(from, next, to, (n - 1) as nat);
        }
    }

    /// Whether a board is connected depends on which of its cells are
    /// playable, and on nothing else.
    pub proof fn lemma_connected_same(&self, other: GameMap)
        requires
            self.same_playable(other),
            self.connected(),
        ensures
            other.connected(),
    {
        assert forall|a: int, b: int|
            other.playable_at(a) && other.playable_at(b) implies #[trigger] other.linked(a, b) by {
            assert(self.linked(a, b));
            let n = choose|n: nat| self.linked_within(a, b, n);
            self.lemma_linked_within_same(other, a, b, n);
        }
    }

    /// Some playable neighbour of `i` is marked in `marks`.
    pub open spec fn touches_marked(&self, marks: Seq<bool>, i: int) -> bool {
        exists|b: int| adjacent(i, b) && self.playable_at(b) && #[trigger] marks[b]
    }

    /// Nothing can be added to `marks`: every playable cell beside a marked
    /// playable cell is marked itself.
    pub open spec fn marks_closed(&self, marks: Seq<bool>) -> bool {
        forall|i: int|
            self.playable_at(i) && !marks[i] ==> !#[trigger] self.touches_marked(marks, i)
    }

    /// Marks that contain `start` and cannot grow contain every cell that is
    /// linked to `start`.
    pub proof fn lemma_closed_marks_hold_linked(
        &self,
        marks: Seq<bool>,
        start: int,
        i: int,
        n: nat,
    )
        requires
            marks.len() == 100,
            self.marks_closed(marks),
            marks[start],
            self.linked_within(i, start, n),
        ensures
            marks[i],
        decreases n,
    {
        if i != start {
            let next = self.path_next(i, start, (n - 1) as nat);
            self.lemma_path_next(i, start, n);
            self.lemma_closed_marks_hold_linked(marks, start, next, (n - 1) as nat);
            self.lemma_linked_ends(next, start, (n - 1) as nat);
            assert(adjacent(i, next) && self.playable_at(next) && marks[next]);
            if !marks[i] {
                assert(self.touches_marked(marks, i));
            }
        }
    }

    /// Whether the playable cells form one connected region. A flood fill
    /// from the first playable cell is repeated until it marks nothing new;
    /// the board is connected when no playable cell is left unmarked.
    pub fn check_reachability(&self) -> (r: bool)
        ensures
            r == self.connected(),
    {
        let mut reachable: [bool; 100] = [false;100];
        let ghost mut start: int = 0;
        let mut seeded = false;
        let mut i: usize = 0;
        while i < 100 && !seeded
            invariant
                i <= 100,
                seeded ==> self.playable_at(start) && reachable[start],
                !seeded ==> forall|j: int| 0 <= j < i ==> !self.playable_at(j),
                forall|j: int| 0 <= j < 100 && reachable[j] ==> j == start && seeded,
            decreases 100 - i + (if seeded { 0int } else { 1int }),
        {
            if self.spaces[i].contents == MapSpaceContents::Playable {
                reachable[i] = true;
                seeded = true;
                proof {
                    start = i as int;
                }
            } else {
                i += 1;
            }
        }
        proof {
            if seeded {
                self.lemma_linked_reflexive(start);
            }
        }
        let mut changed = true;
        while changed
            invariant
                seeded ==> self.playable_at(start) && reachable[start],
                !seeded ==> forall|j: int| 0 <= j < 100 ==> !self.playable_at(j),
                forall|j: int| 0 <= j < 100 && reachable[j] ==> #[trigger] self.linked(j, start),
                !changed ==> self.marks_closed(reachable@),
            decreases 100 - count_set(reachable@) + (if changed { 1int } else { 0int }),
        {
            changed = false;
            let ghost before = reachable@;
            proof {
                lemma_count_set_bound(before);
            }
            let mut i: usize = 0;
            while i < 100
                invariant
                    i <= 100,
                    before.len() == 100,
                    seeded ==> self.playable_at(start) && reachable[start],
                    forall|j: int|
                        0 <= j < 100 && reachable[j] ==> #[trigger] self.linked(j, start),
                    !changed ==> reachable@ == before,
                    !changed ==> forall|j: int|
                        0 <= j < i && self.playable_at(j) && !reachable[j]
                            ==> !#[trigger] self.touches_marked(reachable@, j),
                    changed ==> count_set(reachable@) > count_set(before),
                    count_set(reachable@) <= 100,
                decreases 100 - i,
            {
                if self.spaces[i].contents == MapSpaceContents::Playable && !reachable[i] {
                    let nbrs = self.neighbors(i as i32, true);
                    let mut hit = false;
                    let mut k: usize = 0;
                    proof {
                        self.lemma_valid_neighbors(i as int);
                    }
                    while k < nbrs.len() && !hit
                        invariant
                            i < 100,
                            k <= nbrs.len(),
                            nbrs@ == self.neighbors_spec(i as int, true),
                            forall|j: int|
                                0 <= j < nbrs.len() ==> {
                                    &&& self.playable_at((#[trigger] nbrs[j]) as int)
                                    &&& adjacent(i as int, nbrs[j] as int)
                                },
                            !hit ==> forall|j: int|
                                0 <= j < k ==> !reachable[(#[trigger] nbrs[j]) as int],
                            hit ==> k < nbrs.len() && reachable[nbrs[k as int] as int],
                        decreases nbrs.len() - k + (if hit { 0int } else { 1int }),
                    {
                        let nbr = nbrs[k];
                        if reachable[nbr as usize] {
                            hit = true;
                        } else {
                            k += 1;
                        }
                    }
                    if hit {
                        proof {
                            let nbr = nbrs[k as int] as int;
                            self.lemma_linked_step(i as int, nbr, start);
                            lemma_count_set_update(reachable@, i as int);
                            lemma_count_set_bound(reachable@.update(i as int, true));
                        }
                        reachable[i] = true;
                        changed = true;
                    } else {
                        proof {
                            if self.touches_marked(reachable@, i as int) {
                                let b = choose|b: int|
                                    adjacent(i as int, b) && self.playable_at(b) && reachable@[b];
                                assert(nbrs@.contains(b as i32));
                                let j = choose|j: int| 0 <= j < nbrs@.len() && nbrs@[j] == b as i32;
                                assert(!reachable[nbrs[j] as int]);
                            }
                        }
                    }
                }
                i += 1;
            }
        }
        let mut i: usize = 0;
        while i < 100
            invariant
                i <= 100,
                seeded ==> self.playable_at(start) && reachable[start],
                !seeded ==> forall|j: int| 0 <= j < 100 ==> !self.playable_at(j),
                forall|j: int| 0 <= j < 100 && reachable[j] ==> #[trigger] self.linked(j, start),
                self.marks_closed(reachable@),
                forall|j: int| 0 <= j < i && self.playable_at(j) ==> reachable[j],
            decreases 100 - i,
        {
            if !reachable[i] && self.spaces[i].contents == MapSpaceContents::Playable {
                proof {
                    if self.linked(i as int, start) {
                        let n = choose|n: nat| self.linked_within(i as int, start, n);
                        self.lemma_closed_marks_hold_linked(reachable@, start, i as int, n);
                    }
                    assert(self.playable_at(i as int) && self.playable_at(start));
                }
                return false;
            }
            i += 1;
        }
        proof {
            assert forall|a: int, b: int|
                self.playable_at(a) && self.playable_at(b) implies #[trigger] self.linked(
                a,
                b,
            ) by {
                assert(self.linked(a, start));
                assert(self.linked(b, start));
                self.lemma_linked_symmetric(b, start);
                self.lemma_linked_transitive(a, start, b);
            }
        }
        true
    }
}

/// What a run of erosion attempts at the cells `picks`, one after the
/// other, makes of `map`.
pub open spec fn eroded(map: GameMap, picks: Seq<int>) -> GameMap
    decreases picks.len(),
{
    if picks.len() == 0 {
        map
    } else {
        eroded(map, picks.drop_last()).eroded_at(picks.last())
    }
}

/// Erosion never cuts the board in two: whatever cells are picked, every
/// attempt that changes the board leaves it connected, and a board that is
/// connected to begin with is connected after every attempt.
pub proof fn lemma_erosion_keeps_connected(map: GameMap, picks: Seq<int>, k: int)
    requires
        0 <= k <= picks.len(),
    ensures
        map.connected() ==> eroded(map, picks.take(k)).connected(),
        k > 0 ==> eroded(map, picks.take(k)) == eroded(map, picks.take(k - 1)) || eroded(
            map,
            picks.take(k),
        ).connected(),
    decreases k,
{
    if k > 0 {
        lemma_erosion_keeps_connected(map, picks, k - 1);
        assert(picks.take(k).drop_last() =~= picks.take(k - 1));
    }
}

} // verus!
