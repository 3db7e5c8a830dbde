//! The board: one hundred cells, ray search along a direction, neighbours,
//! and the cells on the board's rim.

use vstd::prelude::*;
use crate::hexgrid::{
    adjacent, dir_at, lemma_step_lands, move_dir, move_dir_spec, on_board, quot10, rem10,
    MapDirection, MapSpaceContents, INVALID,
};
use crate::seq_lemmas::lemma_filter_next;

verus! {

/// One board position.
#[derive(Copy, Clone, Debug)]
pub struct MapSpace {
    pub contents: MapSpaceContents,
    /// 0 when nobody owns the cell, else the owner's seat plus one.
    pub player: u8,
    /// Strength held at the cell; 0 when it is empty.
    pub power: u8,
    /// The cell's own flat index.
    pub ndx: i32,
}

impl Default for MapSpace {
    fn default() -> (r: Self)
        ensures
            r == (MapSpace { contents: MapSpaceContents::NotInMap, player: 0, power: 0, ndx: 0 }),
    {
        MapSpace { contents: MapSpaceContents::NotInMap, player: 0, power: 0, ndx: 0 }
    }
}

impl MapSpace {
    /// The invariant of a cell that sits at flat index `i`: it knows its
    /// index, its owner is a seat or nobody, an unowned cell holds no power,
    /// and only a playable cell is owned.
    pub open spec fn wf_at(self, i: int) -> bool {
        &&& self.ndx == i
        &&& self.player <= 4
        &&& (self.player == 0 ==> self.power == 0)
        &&& (self.contents != MapSpaceContents::Playable ==> self.player == 0)
    }
}

/// The hex grid, addressed by `row * 10 + col`.
#[derive(Copy, Clone, Debug)]
pub struct GameMap {
    pub spaces: [MapSpace; 100],
}

impl Default for GameMap {
    fn default() -> (r: GameMap)
        ensures
            r.spaces@ == GameMap::default_spaces(),
    {
        let r = GameMap { spaces: [MapSpace::default();100] };
        proof {
            assert(r.spaces@ =~= GameMap::default_spaces());
        }
        r
    }
}

/// How many more steps a ray from `ndx` in direction `dir` can take at most
/// before it leaves the board.
#[verifier::opaque]
pub open spec fn ray_rank(ndx: int, dir: MapDirection) -> nat {
    if !on_board(ndx) {
        10
    } else {
        match dir {
            MapDirection::North => (9 - ndx / 10) as nat,
            MapDirection::South => (ndx / 10) as nat,
            MapDirection::NorthEast | MapDirection::SouthEast => (9 - ndx % 10) as nat,
            MapDirection::NorthWest | MapDirection::SouthWest => (ndx % 10) as nat,
        }
    }
}

/// The six neighbours of `ndx`, clockwise from north; a neighbour that would
/// lie off the board is the sentinel.
pub open spec fn all_neighbors(ndx: int) -> Seq<i32> {
    Seq::new(6, |k: int| move_dir_spec(ndx, dir_at(k)) as i32)
}

/// A step that stays on the board brings a ray strictly nearer to the edge
/// that it is heading for.
pub proof fn lemma_step_rank(ndx: int, dir: MapDirection)
    ensures
        on_board(move_dir_spec(ndx, dir)) ==> ray_rank(move_dir_spec(ndx, dir), dir) < ray_rank(
            ndx,
            dir,
        ),
        ray_rank(ndx, dir) <= 10,
        on_board(ndx) ==> ray_rank(ndx, dir) <= 9,
{
    reveal(ray_rank);
    if on_board(ndx) {
        let row = ndx / 10;
        let col = ndx % 10;
        assert(quot10(ndx) == row && rem10(ndx) == col);
        assert(0 <= row < 10 && 0 <= col < 10);
        let next = move_dir_spec(ndx, dir);
        if on_board(next) {
            assert(next / 10 == row - 1 || next / 10 == row || next / 10 == row + 1);
        }
    }
}

/// The cell `n` steps from `ndx` in direction `dir`.
pub open spec fn walk(ndx: int, dir: MapDirection, n: nat) -> int
    decreases n,
{
    if n == 0 {
        ndx
    } else {
        walk(move_dir_spec(ndx, dir), dir, (n - 1) as nat)
    }
}

impl GameMap {
    /// The cells of an empty map: none is part of the board, none is owned,
    /// and none has its index set yet.
    pub open spec fn default_spaces() -> Seq<MapSpace> {
        Seq::new(
            100,
            |i: int| MapSpace { contents: MapSpaceContents::NotInMap, player: 0, power: 0, ndx: 0 },
        )
    }

    /// Every cell satisfies its invariant.
    pub open spec fn wf(&self) -> bool {
        forall|i: int| 0 <= i < 100 ==> (#[trigger] self.spaces[i]).wf_at(i)
    }

    /// The cell at `ndx`, or nothing when `ndx` is off the board.
    pub fn space_at(&self, ndx: i32) -> (r: Option<MapSpace>)
        ensures
            r == if on_board(ndx as int) {
                Some(self.spaces[ndx as int])
            } else {
                None
            },
    {
        if 0 <= ndx && ndx < 100 {
            Some(self.spaces[ndx as usize])
        } else {
            None
        }
    }

    /// Tests whether every cell satisfies its invariant.
    pub fn well_formed(&self) -> (r: bool)
        ensures
            r == self.wf(),
    {
        let mut i: usize = 0;
        while i < 100
            invariant
                i <= 100,
                forall|j: int| 0 <= j < i ==> (#[trigger] self.spaces[j]).wf_at(j),
            decreases 100 - i,
        {
            let cell = self.spaces[i];
            if !(cell.ndx == i as i32 && cell.player <= 4 && (cell.player != 0 || cell.power == 0)
                && (cell.contents == MapSpaceContents::Playable || cell.player == 0)) {
                assert(!self.spaces[i as int].wf_at(i as int));
                return false;
            }
            i += 1;
        }
        true
    }

    /// The board is well formed and nobody owns a cell yet.
    pub open spec fn fresh(&self) -> bool {
        &&& self.wf()
        &&& forall|i: int| 0 <= i < 100 ==> (#[trigger] self.spaces[i]).player == 0
    }

    /// This map came from `from` by taking playable cells out of the map:
    /// every cell is as it is in `from`, or was playable there and is no
    /// longer part of the map.
    pub open spec fn carved_from(&self, from: GameMap) -> bool {
        forall|i: int|
            0 <= i < 100 ==> (#[trigger] self.spaces[i]) == from.spaces[i] || (
            from.spaces[i].contents == MapSpaceContents::Playable && self.spaces[i] == (MapSpace {
                contents: MapSpaceContents::NotInMap,
                ..from.spaces[i]
            }))
    }

    /// Maps that agree on the contents of every cell have as many playable
    /// cells among their first `n`.
    pub proof fn lemma_playable_count_same(&self, other: GameMap, n: int)
        requires
            0 <= n <= 100,
            forall|i: int|
                0 <= i < 100 ==> (#[trigger] self.spaces[i]).contents == other.spaces[i].contents,
        ensures
            self.spaces@.take(n).filter(|c: MapSpace| c.contents == MapSpaceContents::Playable).len()
                == other.spaces@.take(n).filter(
                |c: MapSpace| c.contents == MapSpaceContents::Playable,
            ).len(),
            n == 100 ==> self.playable_count() == other.playable_count(),
        decreases n,
    {
        let open = |c: MapSpace| c.contents == MapSpaceContents::Playable;
        if n == 0 {
            reveal(Seq::filter);
            assert(self.spaces@.take(0) =~= Seq::<MapSpace>::empty());
            assert(other.spaces@.take(0) =~= Seq::<MapSpace>::empty());
        } else {
            self.lemma_playable_count_same(other, n - 1);
            lemma_filter_next(self.spaces@, open, n - 1);
            lemma_filter_next(other.spaces@, open, n - 1);
            assert(self.spaces[n - 1].contents == other.spaces[n - 1].contents);
        }
        if n == 100 {
            assert(self.spaces@.take(100) =~= self.spaces@);
            assert(other.spaces@.take(100) =~= other.spaces@);
        }
    }

    /// The number of playable cells.
    pub open spec fn playable_count(&self) -> int {
        self.spaces@.filter(|c: MapSpace| c.contents == MapSpaceContents::Playable).len() as int
    }

    /// This map with the cell at `ndx` taken out of the map. What the cell
    /// holds besides stays.
    pub open spec fn cut(&self, ndx: int) -> GameMap {
        GameMap {
            spaces: vstd::array::spec_array_update(
                self.spaces,
                ndx,
                MapSpace { contents: MapSpaceContents::NotInMap, ..self.spaces[ndx] },
            ),
        }
    }

    /// `ndx` is a cell of the board that can be played on.
    pub open spec fn playable_at(&self, ndx: int) -> bool {
        on_board(ndx) && self.spaces[ndx].contents == MapSpaceContents::Playable
    }

    /// `ndx` is a playable cell that holds no power: a ray may pass through
    /// it or end on it.
    pub open spec fn open_at(&self, ndx: int) -> bool {
        self.playable_at(ndx) && self.spaces[ndx].power == 0
    }

    /// The farthest cell that a ray from `ndx` in direction `dir` reaches
    /// over open cells only; `ndx` itself when the first step is not open.
    pub open spec fn ray_end(&self, ndx: int, dir: MapDirection) -> int
        decreases ray_rank(ndx, dir),
    {
        let next = move_dir_spec(ndx, dir);
        if self.open_at(next) {
            proof {
                lemma_step_rank(ndx, dir);
            }
            self.ray_end(next, dir)
        } else {
            ndx
        }
    }

    /// The number of steps that the ray from `ndx` in direction `dir` takes.
    pub open spec fn ray_len(&self, ndx: int, dir: MapDirection) -> nat
        decreases ray_rank(ndx, dir),
    {
        let next = move_dir_spec(ndx, dir);
        if self.open_at(next) {
            proof {
                lemma_step_rank(ndx, dir);
            }
            1 + self.ray_len(next, dir)
        } else {
            0
        }
    }

    /// One step of a ray: an open next cell lies strictly nearer to the
    /// board's edge and the ray goes on from it; otherwise the ray ends.
    pub proof fn lemma_ray_step(&self, ndx: int, dir: MapDirection)
        ensures
            self.open_at(move_dir_spec(ndx, dir)) ==> {
                &&& ray_rank(move_dir_spec(ndx, dir), dir) < ray_rank(ndx, dir)
                &&& self.ray_end(ndx, dir) == self.ray_end(move_dir_spec(ndx, dir), dir)
                &&& self.ray_len(ndx, dir) == 1 + self.ray_len(move_dir_spec(ndx, dir), dir)
            },
            !self.open_at(move_dir_spec(ndx, dir)) ==> {
                &&& self.ray_end(ndx, dir) == ndx
                &&& self.ray_len(ndx, dir) == 0
            },
    {
        lemma_step_rank(ndx, dir);
    }

    /// Walks from `ndx` in direction `dir` while the next cell is on the
    /// board, playable and empty, and returns the last cell reached: `ndx`
    /// itself when the first step is already closed.
    pub fn search_dir(&self, ndx: i32, dir: MapDirection) -> (r: i32)
        ensures
            r == self.ray_end(ndx as int, dir),
            r == ndx || self.open_at(r as int),
            !self.open_at(move_dir_spec(r as int, dir)),
            r == walk(ndx as int, dir, self.ray_len(ndx as int, dir)),
            self.ray_len(ndx as int, dir) <= 10,
    {
        let mut curr = ndx;
        loop
            invariant
                self.ray_end(curr as int, dir) == self.ray_end(ndx as int, dir),
                curr == ndx || self.open_at(curr as int),
            decreases ray_rank(curr as int, dir),
        {
            let last = curr;
            curr = move_dir(curr, dir);
            proof {
                self.lemma_ray_step(last as int, dir);
            }
            if (curr == INVALID as i32) || (self.spaces[curr as usize].contents
                != MapSpaceContents::Playable) || (self.spaces[curr as usize].power != 0) {
                proof {
                    self.lemma_ray_search(ndx as int, dir);
                }
                return last;
            }
        }
    }

    /// What a ray search finds: the ray takes at most as many steps as the
    /// board is wide, passes over open cells only, ends on the cell it
    /// started from or on an open cell, and the step behind its end is
    /// closed.
    pub proof fn lemma_ray_search(&self, ndx: int, dir: MapDirection)
        ensures
            self.ray_len(ndx, dir) <= ray_rank(ndx, dir) <= 10,
            on_board(ndx) ==> self.ray_len(ndx, dir) <= 9,
            self.ray_end(ndx, dir) == walk(ndx, dir, self.ray_len(ndx, dir)),
            self.ray_end(ndx, dir) == ndx || self.open_at(self.ray_end(ndx, dir)),
            self.ray_end(ndx, dir) == ndx <==> self.ray_len(ndx, dir) == 0,
            !self.open_at(move_dir_spec(self.ray_end(ndx, dir), dir)),
            forall|k: nat|
                1 <= k <= self.ray_len(ndx, dir) ==> self.open_at(#[trigger] walk(ndx, dir, k)),
        decreases ray_rank(ndx, dir),
    {
        let next = move_dir_spec(ndx, dir);
        self.lemma_ray_step(ndx, dir);
        lemma_step_rank(ndx, dir);
        if self.open_at(next) {
            self.lemma_ray_search(next, dir);
            self.lemma_ray_leaves(next, dir);
            assert forall|k: nat| 1 <= k <= self.ray_len(ndx, dir) implies self.open_at(
                #[trigger] walk(ndx, dir, k),
            ) by {
                assert(walk(ndx, dir, k) == walk(next, dir, (k - 1) as nat));
                if k > 1 {
                    assert(self.open_at(walk(next, dir, (k - 1) as nat)));
                }
            }
        }
    }

    /// A ray ends no farther from the edge that it heads for than it began.
    pub proof fn lemma_ray_leaves(&self, ndx: int, dir: MapDirection)
        ensures
            ray_rank(self.ray_end(ndx, dir), dir) <= ray_rank(ndx, dir),
        decreases ray_rank(ndx, dir),
    {
        let next = move_dir_spec(ndx, dir);
        self.lemma_ray_step(ndx, dir);
        if self.open_at(next) {
            self.lemma_ray_leaves(next, dir);
        }
    }

    /// The neighbours of `ndx`: all six, or with `valid_only` those that are
    /// playable cells of the board.
    pub open spec fn neighbors_spec(&self, ndx: int, valid_only: bool) -> Seq<i32> {
        if valid_only {
            all_neighbors(ndx).filter(|n: i32| self.playable_at(n as int))
        } else {
            all_neighbors(ndx)
        }
    }

    /// The playable neighbours are exactly the cells one step away that are
    /// playable.
    pub proof fn lemma_valid_neighbors(&self, ndx: int)
        ensures
            forall|j: int|
                0 <= j < self.neighbors_spec(ndx, true).len() ==> {
                    &&& self.playable_at((#[trigger] self.neighbors_spec(ndx, true)[j]) as int)
                    &&& adjacent(ndx, self.neighbors_spec(ndx, true)[j] as int)
                },
            forall|b: int|
                adjacent(ndx, b) && self.playable_at(b) ==> self.neighbors_spec(
                    ndx,
                    true,
                ).contains(b as i32),
    {
        let all = all_neighbors(ndx);
        let keep = |n: i32| self.playable_at(n as int);
        let kept = all.filter(keep);
        assert forall|k: int| 0 <= k < 6 implies all[k] == move_dir_spec(ndx, dir_at(k)) by {
            lemma_step_lands(ndx, dir_at(k));
        }
        assert forall|j: int| 0 <= j < kept.len() implies self.playable_at(
            (#[trigger] kept[j]) as int,
        ) && adjacent(ndx, kept[j] as int) by {
            all.lemma_filter_pred(keep, j);
            assert(kept.contains(kept[j]));
            all.lemma_filter_contains_rev(keep, kept[j]);
            let k = choose|k: int| 0 <= k < all.len() && all[k] == kept[j];
            assert(all[k] == move_dir_spec(ndx, dir_at(k)));
        }
        assert forall|b: int| adjacent(ndx, b) && self.playable_at(b) implies kept.contains(
            b as i32,
        ) by {
            let k: int = if b == move_dir_spec(ndx, dir_at(0)) {
                0
            } else if b == move_dir_spec(ndx, dir_at(1)) {
                1
            } else if b == move_dir_spec(ndx, dir_at(2)) {
                2
            } else if b == move_dir_spec(ndx, dir_at(3)) {
                3
            } else if b == move_dir_spec(ndx, dir_at(4)) {
                4
            } else {
                5
            };
            assert(all[k] == b);
            all.lemma_filter_contains(keep, k);
        }
    }

    /// The neighbours of `ndx`, clockwise from north. Without `valid_only`
    /// all six are listed, the sentinel standing for one that is off the
    /// board; with it, only the playable cells.
    pub fn neighbors(&self, ndx: i32, valid_only: bool) -> (r: Vec<i32>)
        ensures
            r@ == self.neighbors_spec(ndx as int, valid_only),
            r.len() <= 6,
    {
        let mut result: Vec<i32> = Vec::new();
        let dirs = MapDirection::iterator();
        let ghost all = all_neighbors(ndx as int);
        let ghost keep = |n: i32| self.playable_at(n as int);
        let mut k: usize = 0;
        proof {
            reveal(Seq::filter);
            assert(all.take(0) =~= Seq::<i32>::empty());
        }
        while k < 6
            invariant
                k <= 6,
                all == all_neighbors(ndx as int),
                keep == (|n: i32| self.playable_at(n as int)),
                forall|j: int| 0 <= j < 6 ==> dirs[j] == dir_at(j),
                valid_only ==> result@ == all.take(k as int).filter(keep),
                !valid_only ==> result@ == all.take(k as int),
                result.len() <= k,
            decreases 6 - k,
        {
            let nbr_ndx = move_dir(ndx, dirs[k]);
            proof {
                lemma_filter_next(all, keep, k as int);
                assert(all[k as int] == nbr_ndx);
                assert(all.take(k as int + 1) =~= all.take(k as int).push(nbr_ndx));
            }
            if !valid_only || (nbr_ndx != INVALID as i32 && self.spaces[nbr_ndx as usize].contents
                == MapSpaceContents::Playable) {
                result.push(nbr_ndx);
            }
            k += 1;
        }
        proof {
            assert(all.take(6) =~= all);
        }
        result
    }

    /// `n` lies outside the playing area: off the board, or a position that
    /// is not part of the map.
    pub open spec fn outside_at(&self, n: int) -> bool {
        n == INVALID || (on_board(n) && self.spaces[n].contents == MapSpaceContents::NotInMap)
    }

    /// Cell `i` is playable and touches the outside in at least one
    /// direction.
    pub open spec fn is_edge(&self, i: int) -> bool {
        self.playable_at(i) && (self.outside_at(move_dir_spec(i, MapDirection::North))
            || self.outside_at(move_dir_spec(i, MapDirection::NorthEast)) || self.outside_at(
            move_dir_spec(i, MapDirection::SouthEast),
        ) || self.outside_at(move_dir_spec(i, MapDirection::South)) || self.outside_at(
            move_dir_spec(i, MapDirection::SouthWest),
        ) || self.outside_at(move_dir_spec(i, MapDirection::NorthWest)))
    }

    /// The cached indices of the edge cells, in the order of their positions.
    pub open spec fn edge_spaces_spec(&self) -> Seq<i32> {
        Seq::new(100, |i: int| i).filter(|i: int| self.is_edge(i)).map_values(
            |i: int| self.spaces[i].ndx,
        )
    }

    /// How many neighbours of `ndx` are playable cells.
    pub open spec fn valid_neighbor_count(&self, ndx: int) -> nat {
        self.neighbors_spec(ndx, true).len()
    }

    /// The edge cells with at most `t` playable neighbours.
    pub open spec fn corners_at(&self, t: int) -> Seq<i32> {
        self.edge_spaces_spec().filter(|e: i32| self.valid_neighbor_count(e as int) <= t)
    }

    /// The sharpest corners: the edge cells with at most `t` playable
    /// neighbours for the least `t` from `from` to 5 for which there are any;
    /// empty when there are none up to 5.
    pub open spec fn corners_from(&self, from: int) -> Seq<i32>
        decreases 6 - from,
    {
        if from >= 6 {
            Seq::empty()
        } else if self.corners_at(from).len() > 0 {
            self.corners_at(from)
        } else {
            self.corners_from(from + 1)
        }
    }

    /// Every cell carries its own index.
    pub open spec fn indexed(&self) -> bool {
        forall|i: int| 0 <= i < 100 ==> (#[trigger] self.spaces[i]).ndx == i
    }

    /// Among the first `n` positions, the edge cells are listed in rising
    /// order, each once, and none is left out.
    pub proof fn lemma_edge_prefix(&self, n: int)
        requires
            0 <= n <= 100,
        ensures
            ({
                let found = Seq::new(100, |i: int| i).take(n).filter(|i: int| self.is_edge(i));
                &&& forall|j: int|
                    0 <= j < found.len() ==> 0 <= #[trigger] found[j] < n && self.is_edge(found[j])
                &&& forall|j: int, k: int| 0 <= j < k < found.len() ==> found[j] < found[k]
                &&& forall|i: int| 0 <= i < n && self.is_edge(i) ==> found.contains(i)
            }),
        decreases n,
    {
        let cells = Seq::new(100, |i: int| i);
        let touches = |i: int| self.is_edge(i);
        let found = cells.take(n).filter(touches);
        if n == 0 {
            reveal(Seq::filter);
            assert(cells.take(0) =~= Seq::<int>::empty());
        } else {
            self.lemma_edge_prefix(n - 1);
            lemma_filter_next(cells, touches, n - 1);
            let before = cells.take(n - 1).filter(touches);
            assert forall|i: int| 0 <= i < n && self.is_edge(i) implies found.contains(i) by {
                if i < n - 1 {
                    assert(before.contains(i));
                    let j = choose|j: int| 0 <= j < before.len() && before[j] == i;
                    assert(found[j] == i);
                } else {
                    assert(found[found.len() - 1] == i);
                }
            }
        }
    }

    /// On a board whose cells carry their own indices, the list of edge
    /// cells holds exactly the edge cells, each once.
    pub proof fn lemma_edge_cells(&self)
        requires
            self.indexed(),
        ensures
            self.edge_spaces_spec().len() <= 100,
            self.edge_spaces_spec().no_duplicates(),
            forall|j: int|
                0 <= j < self.edge_spaces_spec().len() ==> self.is_edge(
                    (#[trigger] self.edge_spaces_spec()[j]) as int,
                ),
            forall|i: int| self.is_edge(i) ==> self.edge_spaces_spec().contains(i as i32),
    {
        let cells = Seq::new(100, |i: int| i);
        let found = cells.filter(|i: int| self.is_edge(i));
        let edges = self.edge_spaces_spec();
        self.lemma_edge_prefix(100);
        assert(cells.take(100) =~= cells);
        cells.lemma_filter_len(|i: int| self.is_edge(i));
        assert forall|j: int| 0 <= j < edges.len() implies edges[j] == found[j] by {
            assert(0 <= found[j] < 100);
        }
        assert forall|i: int| self.is_edge(i) implies edges.contains(i as i32) by {
            assert(found.contains(i));
            let j = choose|j: int| 0 <= j < found.len() && found[j] == i;
            assert(edges[j] == i as i32);
        }
        assert forall|j: int, k: int| 0 <= j < edges.len() && 0 <= k < edges.len() && j != k implies edges[j]
            != edges[k] by {
            if j < k {
                assert(found[j] < found[k]);
            } else {
                assert(found[k] < found[j]);
            }
        }
    }

    /// Every corner is an edge cell.
    pub proof fn lemma_corners_are_edges(&self, from: int)
        ensures
            forall|j: int|
                0 <= j < self.corners_from(from).len() ==> self.edge_spaces_spec().contains(
                    #[trigger] self.corners_from(from)[j],
                ),
        decreases 6 - from,
    {
        if from < 6 {
            if self.corners_at(from).len() > 0 {
                let edges = self.edge_spaces_spec();
                let sharp = |e: i32| self.valid_neighbor_count(e as int) <= from;
                let picked = self.corners_at(from);
                assert(self.corners_from(from) == picked);
                assert(picked == edges.filter(sharp));
                assert forall|j: int| 0 <= j < picked.len() implies edges.contains(
                    #[trigger] picked[j],
                ) by {
                    assert(picked.contains(picked[j]));
                    edges.lemma_filter_contains_rev(sharp, picked[j]);
                }
            } else {
                self.lemma_corners_are_edges(from + 1);
                assert(self.corners_from(from) == self.corners_from(from + 1));
            }
        } else {
            assert(self.corners_from(from).len() == 0);
        }
    }

    /// The cell at `c` is one of the sharpest corners of the board.
    pub open spec fn is_corner(&self, c: int) -> bool {
        on_board(c) && self.corners_from(1).contains(c as i32)
    }

    /// The playable cells that touch the outside of the board, in index
    /// order.
    pub fn edge_spaces(&self) -> (r: Vec<i32>)
        ensures
            r@ == self.edge_spaces_spec(),
            r.len() <= 100,
    {
        let mut edge_spaces: Vec<i32> = Vec::new();
        let ghost cells = Seq::new(100, |i: int| i);
        let ghost touches = |i: int| self.is_edge(i);
        let ghost cached = |i: int| self.spaces[i].ndx;
        let mut i: usize = 0;
        proof {
            reveal(Seq::filter);
            assert(cells.take(0) =~= Seq::<int>::empty());
            assert(cells.take(0).filter(touches).map_values(cached) =~= Seq::<i32>::empty());
        }
        while i < 100
            invariant
                i <= 100,
                cells == Seq::new(100, |i: int| i),
                touches == (|i: int| self.is_edge(i)),
                cached == (|i: int| self.spaces[i].ndx),
                edge_spaces@ == cells.take(i as int).filter(touches).map_values(cached),
                edge_spaces.len() <= i,
            decreases 100 - i,
        {
            let map_space = self.spaces[i];
            let mut found = false;
            if map_space.contents == MapSpaceContents::Playable {
                let nbrs = self.neighbors(i as i32, false);
                let mut k: usize = 0;
                while k < nbrs.len() && !found
                    invariant
                        i < 100,
                        k <= nbrs.len(),
                        nbrs@ == all_neighbors(i as int),
                        found ==> self.is_edge(i as int),
                        self.playable_at(i as int),
                        !found ==> forall|j: int|
                            0 <= j < k ==> !self.outside_at(
                                #[trigger] move_dir_spec(i as int, dir_at(j)),
                            ),
                    decreases nbrs.len() - k + (if found { 0int } else { 1int }),
                {
                    let nbr = nbrs[k];
                    proof {
                        lemma_step_lands(i as int, dir_at(k as int));
                        assert(nbr == move_dir_spec(i as int, dir_at(k as int)));
                    }
                    if (nbr == INVALID as i32) || (self.spaces[nbr as usize].contents
                        == MapSpaceContents::NotInMap) {
                        found = true;
                    } else {
                        k += 1;
                    }
                }
                proof {
                    if !found {
                        assert(!self.outside_at(move_dir_spec(i as int, dir_at(0))));
                        assert(!self.outside_at(move_dir_spec(i as int, dir_at(1))));
                        assert(!self.outside_at(move_dir_spec(i as int, dir_at(2))));
                        assert(!self.outside_at(move_dir_spec(i as int, dir_at(3))));
                        assert(!self.outside_at(move_dir_spec(i as int, dir_at(4))));
                        assert(!self.outside_at(move_dir_spec(i as int, dir_at(5))));
                    }
                }
            }
            proof {
                assert(found == self.is_edge(i as int));
                lemma_filter_next(cells, touches, i as int);
                assert(cells[i as int] == i);
                let before = cells.take(i as int).filter(touches);
                assert(before.push(i as int).map_values(cached) =~= before.map_values(cached).push(
                    map_space.ndx,
                ));
            }
            if found {
                edge_spaces.push(map_space.ndx);
            }
            i += 1;
        }
        proof {
            assert(cells.take(100) =~= cells);
        }
        edge_spaces
    }

    /// The edge cells best suited for erosion: those with the fewest
    /// playable neighbours. The thresholds 1 to 5 are tried in turn and the
    /// first that admits any edge cell decides.
    pub fn edge_spaces_corners(&self) -> (r: Vec<i32>)
        ensures
            r@ == self.corners_from(1),
            r.len() <= 100,
    {
        let edge_spaces = self.edge_spaces();
        let mut edge_corners: Vec<i32> = Vec::new();
        let mut max_count: usize = 1;
        while max_count < 6
            invariant
                1 <= max_count <= 6,
                edge_spaces@ == self.edge_spaces_spec(),
                edge_spaces.len() <= 100,
                edge_corners@.len() == 0,
                self.corners_from(max_count as int) == self.corners_from(1),
            decreases 6 - max_count,
        {
            let ghost sharp = |e: i32| self.valid_neighbor_count(e as int) <= max_count as int;
            let mut endx: usize = 0;
            proof {
                reveal(Seq::filter);
                assert(edge_spaces@.take(0) =~= Seq::<i32>::empty());
                assert(edge_corners@ =~= Seq::<i32>::empty());
            }
            while endx < edge_spaces.len()
                invariant
                    endx <= edge_spaces.len(),
                    edge_spaces.len() <= 100,
                    sharp == (|e: i32| self.valid_neighbor_count(e as int) <= max_count as int),
                    edge_corners@ == edge_spaces@.take(endx as int).filter(sharp),
                    edge_corners.len() <= endx,
                decreases edge_spaces.len() - endx,
            {
                let e = edge_spaces[endx];
                proof {
                    lemma_filter_next(edge_spaces@, sharp, endx as int);
                }
                if self.neighbors(e, true).len() <= max_count {
                    edge_corners.push(e);
                }
                endx += 1;
            }
            proof {
                assert(edge_spaces@.take(edge_spaces.len() as int) =~= edge_spaces@);
                assert(edge_corners@ == self.corners_at(max_count as int));
            }
            if edge_corners.len() > 0 {
                return edge_corners;
            }
            max_count += 1;
        }
        edge_corners
    }
}

} // verus!
