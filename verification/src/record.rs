//! The record of one finished game.

use vstd::prelude::*;

verus! {

/// What the search found at one ply of a game.
#[derive(Clone, Debug)]
pub struct PlyResult {
    /// The sum of the visit counts of the root's children.
    pub sum_n: u64,
    /// The mean value of the root, in fixed point.
    pub q: u64,
    /// The moves considered, in SFEN, each with its visit count.
    pub visits: Vec<(String, u32)>,
}

/// A game: its moves, what the search found at each ply, who won, and the
/// plies from which training positions are drawn.
#[derive(Clone, Debug)]
pub struct Record {
    /// The moves of the game, in SFEN.
    pub sfen_kif: Vec<String>,
    pub mcts_result: Vec<PlyResult>,
    /// 0 or 1 for the side that won, 2 for a draw.
    pub winner: u8,
    pub learning_target_plys: Vec<usize>,
}

impl Record {
    /// Every learning target names a ply of the game for which a search
    /// result is on record, and the winner is a side or a draw.
    pub open spec fn valid(&self) -> bool {
        &&& self.winner <= 2
        &&& forall|k: int|
            0 <= k < self.learning_target_plys@.len() ==> (#[trigger] self.learning_target_plys@[k])
                < self.mcts_result@.len() && self.learning_target_plys@[k] <= self.sfen_kif@.len()
    }

    /// Returns whether the record is valid.
    pub fn is_valid(&self) -> (r: bool)
        ensures
            r == self.valid(),
    {
        if self.winner > 2 {
            return false;
        }
        let mut k: usize = 0;
        while k < self.learning_target_plys.len()
            invariant
                k <= self.learning_target_plys@.len(),
                self.winner <= 2,
                forall|a: int|
                    0 <= a < k ==> (#[trigger] self.learning_target_plys@[a])
                        < self.mcts_result@.len() && self.learning_target_plys@[a]
                        <= self.sfen_kif@.len(),
            decreases self.learning_target_plys@.len() - k,
        {
            let ply = self.learning_target_plys[k];
            if ply >= self.mcts_result.len() || ply > self.sfen_kif.len() {
                return false;
            }
            k += 1;
        }
        true
    }

    /// Returns a copy of the learning targets.
    pub fn targets(&self) -> (r: Vec<usize>)
        ensures
            r@ == self.learning_target_plys@,
    {
        let mut out: Vec<usize> = Vec::new();
        let mut k: usize = 0;
        while k < self.learning_target_plys.len()
            invariant
                k <= self.learning_target_plys@.len(),
                out@ == self.learning_target_plys@.subrange(0, k as int),
            decreases self.learning_target_plys@.len() - k,
        {
            out.push(self.learning_target_plys[k]);
            assert(self.learning_target_plys@.subrange(0, k as int).push(
                self.learning_target_plys@[k as int],
            ) =~= self.learning_target_plys@.subrange(0, k as int + 1));
            k += 1;
        }
        assert(self.learning_target_plys@.subrange(0, self.learning_target_plys@.len() as int)
            =~= self.learning_target_plys@);
        out
    }
}

} // verus!
