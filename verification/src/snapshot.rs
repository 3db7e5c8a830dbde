//! A game state: the board and the score of each of the four seats.

use vstd::prelude::*;
use crate::gamemap::{GameMap, MapSpace};
use crate::seq_lemmas::lemma_filter_next;

verus! {

/// One self-contained state of a game. A move never changes a snapshot; it
/// makes a new one.
#[derive(Copy, Clone, Debug)]
pub struct GameSnapshot {
    pub map: GameMap,
    /// For each seat, the number of cells on which it holds power.
    pub score: [i32; 4],
}

impl Default for GameSnapshot {
    fn default() -> (r: GameSnapshot)
        ensures
            r.map.spaces@ == GameMap::default_spaces(),
            forall|p: int| 0 <= p < 4 ==> r.score[p] == 0,
    {
        let map = GameMap::default();
        proof {
            assert(map.spaces@ =~= GameMap::default_spaces());
        }
        GameSnapshot { map, score: [0;4] }
    }
}

impl GameSnapshot {
    /// The board is well formed.
    pub open spec fn wf(&self) -> bool {
        self.map.wf()
    }

    /// The number of cells on which `player` (a seat, counted from 0) holds
    /// power.
    pub open spec fn simple_score(&self, player: int) -> int {
        self.map.spaces@.filter(|c: MapSpace| c.power > 0 && c.player == player + 1).len() as int
    }

    /// The score that the snapshot holds for seat `player`.
    pub fn score_of(&self, player: usize) -> (r: i32)
        requires
            player < 4,
        ensures
            r == self.score[player as int],
    {
        self.score[player]
    }

    /// Counts the cells on which seat `player` holds power.
    pub fn calc_simple_score(&self, player: i32) -> (r: i32)
        requires
            0 <= player < 4,
        ensures
            r == self.simple_score(player as int),
            0 <= r <= 100,
    {
        let mut score: i32 = 0;
        let ghost held = |c: MapSpace| c.power > 0 && c.player == player + 1;
        let mut i: usize = 0;
        proof {
            reveal(Seq::filter);
            assert(self.map.spaces@.take(0) =~= Seq::<MapSpace>::empty());
        }
        while i < 100
            invariant
                i <= 100,
                0 <= player < 4,
                held == (|c: MapSpace| c.power > 0 && c.player == player + 1),
                score == self.map.spaces@.take(i as int).filter(held).len(),
                score <= i,
            decreases 100 - i,
        {
            let mapsq = self.map.spaces[i];
            proof {
                lemma_filter_next(self.map.spaces@, held, i as int);
            }
            if mapsq.power > 0 && mapsq.player == (player + 1) as u8 {
                score += 1;
            }
            i += 1;
        }
        proof {
            assert(self.map.spaces@.take(100) =~= self.map.spaces@);
        }
        score
    }

    /// Recomputes every seat's score from the board, which stays as it is.
    pub fn update_scores(&mut self)
        ensures
            final(self).map == old(self).map,
            forall|p: int| 0 <= p < 4 ==> final(self).score[p] == old(self).simple_score(p),
    {
        let mut i: usize = 0;
        while i < 4
            invariant
                i <= 4,
                self.map == old(self).map,
                forall|p: int| 0 <= p < i ==> self.score[p] == old(self).simple_score(p),
            decreases 4 - i,
        {
            self.score[i] = self.calc_simple_score(i as i32);
            i += 1;
        }
    }
}

} // verus!
