//! Evaluating a leaf: the rules of the game decide whether it ends the game,
//! and a leaf that does not is given its children.

use vstd::prelude::*;
use crate::fixed::{HALF, UNIT};
use crate::moves::Move;
use crate::node::Node;
use crate::tree::{
    MCTS, lemma_used_count_full, lemma_used_count_sentinel, lemma_used_count_update,
    lemma_used_count_zero, used_count,
};
use crate::types::Color;

verus! {

/// What the rules of the game say about the position at a leaf.
#[derive(Clone, Copy, Debug)]
pub struct LeafFacts {
    /// The position has occurred before.
    pub is_repetition: bool,
    /// The repetition came about by checks of the side to move.
    pub my_check_repetition: bool,
    /// The repetition came about by checks of the other side.
    pub op_check_repetition: bool,
    /// The game has reached its greatest length.
    pub ply_cap_reached: bool,
    pub side_to_move: Color,
    /// The side that loses by a repetition without checks.
    pub repetition_loser: Color,
    /// The move that led to the position, if any.
    pub last_move: Option<Move>,
}

/// Why a leaf could not be evaluated.
#[derive(Clone, Copy, PartialEq, Eq, Structural, Debug)]
pub enum MctsError {
    /// The arena has fewer free slots than the leaf has legal moves.
    ArenaExhausted,
}

impl LeafFacts {
    /// The game ends at a position with `move_count` legal moves.
    pub open spec fn terminal(&self, move_count: nat) -> bool {
        self.is_repetition || move_count == 0 || self.ply_cap_reached
    }

    /// The last move dropped a pawn.
    pub open spec fn pawn_dropped(&self) -> bool {
        self.last_move matches Some(m) && m.is_hand && m.piece.kind()
            == crate::types::PieceType::PAWN
    }

    /// The value of the position for the side to move.
    ///
    /// Without a legal move the side to move is mated and has lost, unless
    /// the mate was given by dropping a pawn, which loses for the side that
    /// dropped it. A repetition by checks is lost by the side that gave them.
    /// Any other repetition is lost by the side that the game names as its
    /// loser. A game that has reached its greatest length is drawn. Where the
    /// game goes on, the value is `estimate`.
    pub open spec fn value(&self, move_count: nat, estimate: u64) -> u64 {
        if move_count == 0 {
            if self.pawn_dropped() {
                UNIT
            } else {
                0
            }
        } else if !self.terminal(move_count) {
            estimate
        } else if self.my_check_repetition {
            0
        } else if self.op_check_repetition {
            UNIT
        } else if self.is_repetition {
            if self.side_to_move == self.repetition_loser {
                0
            } else {
                UNIT
            }
        } else {
            HALF
        }
    }

    /// Returns whether the game ends at a position with `move_count` legal moves.
    pub fn is_terminal(&self, move_count: usize) -> (r: bool)
        ensures
            r == self.terminal(move_count as nat),
    {
        self.is_repetition || move_count == 0 || self.ply_cap_reached
    }

    /// Returns the value of the position for the side to move.
    pub fn settle(&self, move_count: usize, estimate: u64) -> (r: u64)
        ensures
            r == self.value(move_count as nat, estimate),
            estimate <= UNIT ==> r <= UNIT,
    {
        if move_count == 0 {
            let dropped = match self.last_move {
                Some(m) => m.is_pawn_drop(),
                None => false,
            };
            if dropped {
                UNIT
            } else {
                0
            }
        } else if !self.is_terminal(move_count) {
            estimate
        } else if self.my_check_repetition {
            0
        } else if self.op_check_repetition {
            UNIT
        } else if self.is_repetition {
            if self.side_to_move == self.repetition_loser {
                0
            } else {
                UNIT
            }
        } else {
            HALF
        }
    }
}

/// The heights after a new leaf has been put into slot `index`: the leaf has
/// height 0 and every other node stands one higher than before.
pub open spec fn raised(heights: Seq<nat>, index: int) -> Seq<nat> {
    Seq::new(
        heights.len(),
        |i: int|
            if i == index {
                0nat
            } else {
                heights[i] + 1
            },
    )
}

impl MCTS {
    /// Slot `i` is used, or has been taken.
    pub open spec fn occupied(&self, taken: Seq<usize>, i: int) -> bool {
        self.game_tree@[i].is_used || taken.contains(i as usize)
    }

    /// Where the search for a free slot starts: at the cursor, and at slot 1
    /// where the cursor stands on slot 0 or outside the arena.
    pub open spec fn probe_start(&self, cursor: int) -> int {
        if 0 < cursor < self.size {
            cursor
        } else {
            1
        }
    }

    /// `c` is the first slot, going up from the cursor and on from slot 1 at
    /// the end of the arena, that is neither used nor among `taken`.
    pub open spec fn first_free(&self, taken: Seq<usize>, cursor: int, c: int) -> bool {
        let start = self.probe_start(cursor);
        &&& 0 < c < self.size
        &&& !self.occupied(taken, c)
        &&& if c >= start {
            forall|i: int| start <= i < c ==> #[trigger] self.occupied(taken, i)
        } else {
            &&& forall|i: int| start <= i < self.size ==> #[trigger] self.occupied(taken, i)
            &&& forall|i: int| 1 <= i < c ==> #[trigger] self.occupied(taken, i)
        }
    }

    /// The slot after `c`, which is slot 0 after the last one.
    pub open spec fn next_slot(&self, c: int) -> int {
        if c + 1 == self.size {
            0
        } else {
            c + 1
        }
    }

    /// Where the cursor stands before the `j`-th of `kids` is allocated.
    pub open spec fn cursor_at(&self, kids: Seq<usize>, j: int) -> int {
        if j == 0 {
            self.node_index as int
        } else {
            self.next_slot(kids[j - 1] as int)
        }
    }

    /// The node has been evaluated before: it is terminal or has children.
    pub open spec fn evaluated(&self, node: int) -> bool {
        self.game_tree@[node].is_terminal || self.game_tree@[node].children@.len() > 0
    }

    /// This tree is `before` with `node` marked as terminal, with the value
    /// `value`.
    pub open spec fn settled(&self, before: MCTS, node: int, value: u64) -> bool {
        &&& self.size == before.size
        &&& self.game_tree@.len() == before.game_tree@.len()
        &&& self.node_index == before.node_index
        &&& self.node_used_count == before.node_used_count
        &&& self.prev_root == before.prev_root
        &&& self.depth == before.depth
        &&& self.height == before.height
        &&& self.game_tree@[node] == (Node { is_terminal: true, v: value, ..before.game_tree@[node]
            })
        &&& forall|i: int|
            0 <= i < self.game_tree@.len() && i != node ==> #[trigger] self.game_tree@[i]
                == before.game_tree@[i]
    }

    /// This tree is `before` with the first `count` of `moves` given a child
    /// of `node` each: the children are fresh nodes in slots that were free,
    /// each in the first free slot from the cursor, they stand in the order
    /// of the moves and carry the priors, and the cursor stands behind the
    /// last of them. The nodes of `before` lie as deep as they did.
    pub open spec fn grown(
        &self,
        before: MCTS,
        node: int,
        moves: Seq<Move>,
        priors: Seq<u64>,
        count: int,
    ) -> bool {
        let kids = self.game_tree@[node].children@;
        &&& self.size == before.size
        &&& self.game_tree@.len() == before.game_tree@.len()
        &&& self.prev_root == before.prev_root
        &&& self.node_used_count == before.node_used_count + count
        &&& kids.len() == count
        &&& self.game_tree@[node].n == before.game_tree@[node].n
        &&& self.game_tree@[node].p == before.game_tree@[node].p
        &&& self.game_tree@[node].w == before.game_tree@[node].w
        &&& self.game_tree@[node].m == before.game_tree@[node].m
        &&& self.game_tree@[node].parent == before.game_tree@[node].parent
        &&& self.game_tree@[node].is_terminal == before.game_tree@[node].is_terminal
        &&& self.game_tree@[node].virtual_loss == before.game_tree@[node].virtual_loss
        &&& self.game_tree@[node].is_used == before.game_tree@[node].is_used
        &&& forall|j: int|
            0 <= j < count ==> {
                &&& 0 < #[trigger] kids[j] < self.size
                &&& !before.game_tree@[kids[j] as int].is_used
                &&& self.game_tree@[kids[j] as int].fresh(node as usize, moves[j], priors[j], true)
                &&& before.first_free(kids.subrange(0, j), before.cursor_at(kids, j), kids[j] as
                    int)
            }
        &&& forall|i: int|
            0 <= i < self.game_tree@.len() && i != node && !kids.contains(i as usize)
                ==> #[trigger] self.game_tree@[i] == before.game_tree@[i]
        &&& forall|i: int|
            0 <= i < self.game_tree@.len() && before.game_tree@[i].is_used ==> #[trigger]
                self.depth@[i]
                == before.depth@[i]
        &&& self.node_index == before.cursor_at(kids, count)
    }

    /// This tree is `before` with `node` expanded: it has a child for each of
    /// `moves` and the value `value`.
    pub open spec fn expanded_from(
        &self,
        before: MCTS,
        node: int,
        moves: Seq<Move>,
        priors: Seq<u64>,
        value: u64,
    ) -> bool {
        &&& self.grown(before, node, moves, priors, moves.len() as int)
        &&& self.game_tree@[node].v == value
    }

    /// The arena has room for `count` more nodes.
    pub open spec fn has_room(&self, count: nat) -> bool {
        self.node_used_count + count <= self.size
    }

    /// Returns the first free slot from the cursor on.
    #[verifier::rlimit(60)]
    fn find_free(&self) -> (c: usize)
        requires
            self.wf(),
            self.node_used_count < self.size,
            self.node_used_count == used_count(self.game_tree@) + 1,
        ensures
            self.first_free(Seq::<usize>::empty(), self.node_index as int, c as int),
            !self.game_tree@[c as int].is_used,
            0 < c < self.size,
    {
        let ghost none = Seq::<usize>::empty();
        let mut index: usize = self.node_index;
        if index >= self.size {
            index = 0;
        }
        if index == 0 {
            index = 1;
        }
        let ghost start = index as int;
        let ghost mut wrapped = false;
        proof {
            if self.size < 2 {
                lemma_used_count_zero(self.game_tree@);
            }
        }
        while self.game_tree[index].is_used
            invariant
                self.wf(),
                self.node_used_count < self.size,
                self.node_used_count == used_count(self.game_tree@) + 1,
                none == Seq::<usize>::empty(),
                start == self.probe_start(self.node_index as int),
                0 < index < self.size,
                !wrapped ==> start <= index && forall|i: int|
                    start <= i < index ==> #[trigger] self.occupied(none, i),
                wrapped ==> index < start && (forall|i: int|
                    start <= i < self.size ==> #[trigger] self.occupied(none, i)) && (forall|i: int|
                    1 <= i < index ==> #[trigger] self.occupied(none, i)),
            decreases
                    (if wrapped {
                        0int
                    } else {
                        1int
                    }),
                    self.size - index,
        {
            assert(self.occupied(none, index as int));
            index = index + 1;
            proof {
                if wrapped && index == start {
                    assert forall|i: int| 1 <= i < self.game_tree@.len() implies (#[trigger]
                        self.game_tree@[i]).is_used by {
                        assert(self.occupied(none, i));
                    }
                    lemma_used_count_full(self.game_tree@, 1);
                    assert(false);
                }
            }
            if index == self.size {
                proof {
                    if wrapped {
                        assert forall|i: int| 1 <= i < self.game_tree@.len() implies (#[trigger]
                            self.game_tree@[i]).is_used by {
                            assert(self.occupied(none, i));
                        }
                        lemma_used_count_full(self.game_tree@, 1);
                        assert(false);
                    }
                    if start == 1 {
                        assert forall|i: int| 1 <= i < self.game_tree@.len() implies (#[trigger]
                            self.game_tree@[i]).is_used by {
                            assert(self.occupied(none, i));
                        }
                        lemma_used_count_full(self.game_tree@, 1);
                        assert(false);
                    }
                    wrapped = true;
                }
                index = 1;
            }
        }
        index
    }

    #[verifier::rlimit(60)]
    proof fn lemma_settle(&self, before: MCTS, node: int, value: u64)
        requires
            before.wf(),
            before.live(node),
            !before.evaluated(node),
            self.settled(before, node, value),
            self.depth == before.depth,
            self.height == before.height,
        ensures
            self.wf(),
            before.bounded() && value <= UNIT ==> self.bounded(),
    {
        assert(self.game_tree@ =~= before.game_tree@.update(node, self.game_tree@[node]));
        lemma_used_count_update(before.game_tree@, node, self.game_tree@[node]);
        assert forall|i: int| self.live(i) == before.live(i) by {
            if 0 < i < self.game_tree@.len() && i != node {
                assert(self.game_tree@[i] == before.game_tree@[i]);
            }
        }
        assert forall|i: int| 0 <= i < self.game_tree@.len() implies (#[trigger]
            self.game_tree@[i]).parent
            == before.game_tree@[i].parent && self.game_tree@[i].children
            == before.game_tree@[i].children && self.game_tree@[i].is_used
            == before.game_tree@[i].is_used by {
            if i != node {
                assert(self.game_tree@[i] == before.game_tree@[i]);
            }
        }
        assert(self.wf_free()) by {
            assert forall|i: int|
                0 <= i < self.size && !(#[trigger] self.game_tree@[i]).is_used
                implies self.game_tree@[i].cleared() by {
                assert(self.game_tree@[i] == before.game_tree@[i]);
            }
        }
        assert(self.wf_root()) by {
            if self.prev_root == 0 {
                assert(!before.game_tree@[node].is_used);
            }
            assert(before.live(self.prev_root as int));
        }
        assert(self.wf_parents()) by {
            assert forall|i: int| #[trigger] self.live(i) && i != self.prev_root implies {
                &&& self.live(self.game_tree@[i].parent as int)
                &&& self.depth@[i] == self.depth@[self.game_tree@[i].parent as int] + 1
                &&& self.game_tree@[self.game_tree@[i].parent as int].children@.contains(i as usize)
            } by {
                assert(before.live(i));
                let p = before.game_tree@[i].parent as int;
                assert(before.live(p));
            }
        }
        assert(self.wf_children()) by {
            assert forall|i: int, k: int|
                self.live(i) && 0 <= k < self.game_tree@[i].children@.len() implies {
                &&& self.live(#[trigger] self.game_tree@[i].children@[k] as int)
                &&& self.game_tree@[self.game_tree@[i].children@[k] as int].parent == i
                &&& self.height@[self.game_tree@[i].children@[k] as int] < self.height@[i]
            } by {
                assert(before.live(i));
                let kid = before.game_tree@[i].children@[k] as int;
                assert(before.live(kid));
            }
            assert forall|i: int, k1: int, k2: int|
                self.live(i) && 0 <= k1 < k2 < self.game_tree@[i].children@.len()
                implies #[trigger] self.game_tree@[i].children@[k1]
                != #[trigger] self.game_tree@[i].children@[k2] by {
                assert(before.live(i));
                assert(before.game_tree@[i].children@[k1] != before.game_tree@[i].children@[k2]);
            }
            assert forall|i: int| #[trigger]
                self.live(i) && self.game_tree@[i].is_terminal
                implies self.game_tree@[i].children@.len() == 0 by {
                assert(before.live(i));
                if i != node {
                    assert(self.game_tree@[i] == before.game_tree@[i]);
                }
            }
        }
        if before.bounded() && value <= UNIT {
            assert forall|i: int| #[trigger] self.live(i) implies {
                &&& self.game_tree@[i].v <= UNIT
                &&& self.game_tree@[i].p <= UNIT
                &&& self.game_tree@[i].w <= self.game_tree@[i].n * UNIT
            } by {
                assert(before.live(i));
                if i != node {
                    assert(self.game_tree@[i] == before.game_tree@[i]);
                }
            }
        }
    }

    /// The relation between a tree and the tree after one more child of
    /// `node` has been put into the free slot `index`.
    spec fn one_more(&self, before: MCTS, node: int, index: int, m: Move, p: u64) -> bool {
        &&& self.size == before.size
        &&& self.game_tree@.len() == before.game_tree@.len()
        &&& self.prev_root == before.prev_root
        &&& self.node_used_count == before.node_used_count + 1
        &&& self.node_index == before.next_slot(index)
        &&& 0 < index < before.size
        &&& index != node
        &&& !before.game_tree@[index].is_used
        &&& self.game_tree@[index].fresh(node as usize, m, p, true)
        &&& self.game_tree@[node].children@ == before.game_tree@[node].children@.push(index as
            usize)
        &&& self.game_tree@[node].n == before.game_tree@[node].n
        &&& self.game_tree@[node].v == before.game_tree@[node].v
        &&& self.game_tree@[node].p == before.game_tree@[node].p
        &&& self.game_tree@[node].w == before.game_tree@[node].w
        &&& self.game_tree@[node].m == before.game_tree@[node].m
        &&& self.game_tree@[node].parent == before.game_tree@[node].parent
        &&& self.game_tree@[node].is_terminal == before.game_tree@[node].is_terminal
        &&& self.game_tree@[node].virtual_loss == before.game_tree@[node].virtual_loss
        &&& self.game_tree@[node].is_used == before.game_tree@[node].is_used
        &&& forall|i: int|
            0 <= i < self.game_tree@.len() && i != node && i != index ==> #[trigger]
                self.game_tree@[i]
                == before.game_tree@[i]
        &&& self.depth@ == before.depth@.update(index, before.depth@[node] + 1)
        &&& self.height@ == raised(before.height@, index)
    }

    #[verifier::rlimit(60)]
    proof fn lemma_one_more_wf(&self, before: MCTS, node: int, index: int, m: Move, p: u64)
        requires
            before.wf(),
            before.live(node),
            !before.game_tree@[node].is_terminal,
            before.node_used_count == used_count(before.game_tree@) + 1,
            self.one_more(before, node, index, m, p),
        ensures
            self.wf(),
            self.node_used_count == used_count(self.game_tree@) + 1,
            self.live(node),
            before.bounded() && p <= UNIT ==> self.bounded(),
    {
        let kids = before.game_tree@[node].children@;
        let mid = before.game_tree@.update(index, self.game_tree@[index]);
        assert(self.game_tree@ =~= mid.update(node, self.game_tree@[node]));
        lemma_used_count_update(before.game_tree@, index, self.game_tree@[index]);
        lemma_used_count_update(mid, node, self.game_tree@[node]);
        assert forall|i: int| self.live(i) == (before.live(i) || i == index) by {
            if 0 < i < self.game_tree@.len() && i != node && i != index {
                assert(self.game_tree@[i] == before.game_tree@[i]);
            }
        }
        assert forall|i: int| 0 <= i < self.game_tree@.len() && i != index implies (#[trigger]
            self.game_tree@[i]).parent
            == before.game_tree@[i].parent && self.game_tree@[i].is_used
            == before.game_tree@[i].is_used && self.game_tree@[i].is_terminal
            == before.game_tree@[i].is_terminal && (i != node ==> self.game_tree@[i].children
            == before.game_tree@[i].children) by {
            if i != node {
                assert(self.game_tree@[i] == before.game_tree@[i]);
            }
        }
        if before.prev_root == 0 {
            assert(!before.game_tree@[node].is_used);
        }
        assert(self.wf_free()) by {
            assert forall|i: int|
                0 <= i < self.size && !(#[trigger] self.game_tree@[i]).is_used
                implies self.game_tree@[i].cleared() by {
                assert(self.game_tree@[i] == before.game_tree@[i]);
            }
        }
        assert(self.wf_root()) by {
            assert(before.live(self.prev_root as int));
            assert(self.prev_root != index);
        }
        assert(self.wf_parents()) by {
            assert forall|i: int| #[trigger] self.live(i) && i != self.prev_root implies {
                &&& self.live(self.game_tree@[i].parent as int)
                &&& self.depth@[i] == self.depth@[self.game_tree@[i].parent as int] + 1
                &&& self.game_tree@[self.game_tree@[i].parent as int].children@.contains(i as usize)
            } by {
                if i == index {
                    assert(self.game_tree@[node].children@[kids.len() as int] == index as usize);
                } else {
                    assert(before.live(i));
                    let q = before.game_tree@[i].parent as int;
                    assert(before.live(q));
                    assert(before.game_tree@[q].children@.contains(i as usize));
                    let k = choose|k: int|
                        0 <= k < before.game_tree@[q].children@.len()
                            && before.game_tree@[q].children@[k] == i as usize;
                    if q == node {
                        assert(self.game_tree@[node].children@[k] == i as usize);
                    } else {
                        assert(self.game_tree@[q].children@[k] == i as usize);
                    }
                }
            }
        }
        assert(self.wf_children()) by {
            assert forall|i: int, k: int|
                self.live(i) && 0 <= k < self.game_tree@[i].children@.len() implies {
                &&& self.live(#[trigger] self.game_tree@[i].children@[k] as int)
                &&& self.game_tree@[self.game_tree@[i].children@[k] as int].parent == i
                &&& self.height@[self.game_tree@[i].children@[k] as int] < self.height@[i]
            } by {
                if i == node && k == kids.len() {
                } else {
                    assert(i != index);
                    assert(before.live(i));
                    let kid = before.game_tree@[i].children@[k] as int;
                    assert(self.game_tree@[i].children@[k] == kid);
                    assert(before.live(kid));
                    assert(kid != index);
                }
            }
            assert forall|i: int, k1: int, k2: int|
                self.live(i) && 0 <= k1 < k2 < self.game_tree@[i].children@.len()
                implies #[trigger] self.game_tree@[i].children@[k1]
                != #[trigger] self.game_tree@[i].children@[k2] by {
                assert(i != index);
                assert(before.live(i));
                if i == node && k2 == kids.len() {
                    let kid = before.game_tree@[i].children@[k1] as int;
                    assert(before.live(kid));
                } else {
                    assert(before.game_tree@[i].children@[k1] !=
                        before.game_tree@[i].children@[k2]);
                }
            }
            assert forall|i: int| #[trigger]
                self.live(i) && self.game_tree@[i].is_terminal
                implies self.game_tree@[i].children@.len() == 0 by {
                if i != index {
                    assert(before.live(i));
                }
            }
        }
        if before.bounded() && p <= UNIT {
            assert forall|i: int| #[trigger] self.live(i) implies {
                &&& self.game_tree@[i].v <= UNIT
                &&& self.game_tree@[i].p <= UNIT
                &&& self.game_tree@[i].w <= self.game_tree@[i].n * UNIT
            } by {
                if i != index {
                    assert(before.live(i));
                    if i != node {
                        assert(self.game_tree@[i] == before.game_tree@[i]);
                    }
                }
            }
        }
    }

    #[verifier::rlimit(60)]
    proof fn lemma_one_more_grown(
        &self,
        t0: MCTS,
        before: MCTS,
        node: int,
        index: int,
        moves: Seq<Move>,
        priors: Seq<u64>,
        j: int,
    )
        requires
            t0.wf(),
            t0.live(node),
            before.wf_shape(),
            before.grown(t0, node, moves, priors, j),
            0 <= j < moves.len(),
            moves.len() == priors.len(),
            before.first_free(Seq::<usize>::empty(), before.node_index as int, index),
            self.one_more(before, node, index, moves[j], priors[j]),
        ensures
            self.grown(t0, node, moves, priors, j + 1),
    {
        let kids = before.game_tree@[node].children@;
        let more = self.game_tree@[node].children@;
        let none = Seq::<usize>::empty();
        assert(more == kids.push(index as usize));
        assert forall|a: int| 0 <= a < j implies kids[a] != index && kids[a] != node && more[a]
            == kids[a] by {
            assert(before.game_tree@[kids[a] as int].is_used);
            assert(before.game_tree@[kids[a] as int].parent == node);
            if kids[a] == node {
                assert(t0.game_tree@[node].parent == node);
                if node != t0.prev_root {
                    assert(t0.depth@[node] == t0.depth@[t0.parent_of(node)] + 1);
                }
            }
        }
        assert(!kids.contains(index as usize)) by {
            if kids.contains(index as usize) {
                let a = choose|a: int| 0 <= a < kids.len() && kids[a] == index as usize;
                assert(kids[a] != index);
            }
        }
        assert(before.game_tree@[index] == t0.game_tree@[index]);
        assert forall|i: int| 0 <= i < t0.size implies before.occupied(none, i) == t0.occupied(
            kids,
            i,
        ) by {
            if i == node {
            } else if kids.contains(i as usize) {
                let a = choose|a: int| 0 <= a < kids.len() && kids[a] == i as usize;
                assert(before.game_tree@[kids[a] as int].is_used);
            } else {
                assert(before.game_tree@[i] == t0.game_tree@[i]);
            }
        }
        assert(more.subrange(0, j) =~= kids);
        assert(t0.cursor_at(more, j) == before.node_index) by {
            if j > 0 {
                assert(more[j - 1] == kids[j - 1]);
            }
        }
        assert(t0.first_free(more.subrange(0, j), t0.cursor_at(more, j), index)) by {
            let start = t0.probe_start(before.node_index as int);
            assert(start == before.probe_start(before.node_index as int));
            assert(!t0.occupied(kids, index));
            if index >= start {
                assert forall|i: int| start <= i < index implies #[trigger] t0.occupied(kids, i) by
                    {
                    assert(before.occupied(none, i));
                }
            } else {
                assert forall|i: int| start <= i < t0.size implies #[trigger] t0.occupied(
                    kids,
                    i,
                ) by {
                    assert(before.occupied(none, i));
                }
                assert forall|i: int| 1 <= i < index implies #[trigger] t0.occupied(kids, i) by {
                    assert(before.occupied(none, i));
                }
            }
        }
        assert forall|a: int| 0 <= a < j + 1 implies {
            &&& 0 < #[trigger] more[a] < self.size
            &&& !t0.game_tree@[more[a] as int].is_used
            &&& self.game_tree@[more[a] as int].fresh(node as usize, moves[a], priors[a], true)
            &&& t0.first_free(more.subrange(0, a), t0.cursor_at(more, a), more[a] as int)
        } by {
            if a < j {
                assert(more[a] == kids[a]);
                assert(0 < kids[a] < before.size);
                assert(self.game_tree@[kids[a] as int] == before.game_tree@[kids[a] as int]);
                assert(more.subrange(0, a) =~= kids.subrange(0, a));
                if a > 0 {
                    assert(more[a - 1] == kids[a - 1]);
                }
            } else {
                assert(more[a] == index as usize);
            }
        }
        assert forall|i: int|
            0 <= i < self.game_tree@.len() && i != node && !more.contains(i as usize)
            implies #[trigger] self.game_tree@[i] == t0.game_tree@[i] by {
            assert(more[j] == index as usize);
            assert(i != index);
            if kids.contains(i as usize) {
                let a = choose|a: int| 0 <= a < kids.len() && kids[a] == i as usize;
                assert(more[a] == i as usize);
            }
            assert(self.game_tree@[i] == before.game_tree@[i]);
        }
        assert(more[j] == index as usize);
        assert forall|i: int|
            0 <= i < self.game_tree@.len() && t0.game_tree@[i].is_used implies #[trigger]
                self.depth@[i]
            == t0.depth@[i] by {
            assert(i != index);
            assert(before.depth@[i] == t0.depth@[i]);
        }
    }

    /// Evaluate a node.
    ///
    /// Nothing happens to a node that has been evaluated before. Where the
    /// rules end the game at the node, it becomes terminal and takes the
    /// value that the rules give. Otherwise it takes the value `value` and
    /// gets one child for each of `moves`, in their order, with the prior at
    /// the same place of `priors`. Each child goes into the first free slot
    /// from the cursor on.
    ///
    /// Fails, and changes nothing, where the arena has fewer free slots than
    /// there are moves.
    #[verifier::rlimit(60)]
    pub fn evaluate(
        &mut self,
        node: usize,
        facts: &LeafFacts,
        moves: &Vec<Move>,
        priors: &Vec<u64>,
        value: u64,
    ) -> (r: Result<(), MctsError>)
        requires
            old(self).wf(),
            old(self).live(node as int),
            moves@.len() == priors@.len(),
        ensures
            final(self).wf(),
            old(self).bounded() && value <= UNIT && (forall|j: int|
                0 <= j < priors@.len() ==> #[trigger] priors@[j] <= UNIT) ==> final(self).bounded(),
            if old(self).evaluated(node as int) {
                r is Ok && *final(self) == *old(self)
            } else if facts.terminal(moves@.len()) {
                r is Ok && final(self).settled(
                    *old(self),
                    node as int,
                    facts.value(moves@.len(), value),
                )
            } else if !old(self).has_room(moves@.len()) {
                r == Err::<(), MctsError>(MctsError::ArenaExhausted) && *final(self) == *old(self)
            } else {
                r is Ok && final(self).expanded_from(*old(self), node as int, moves@, priors@,
                    value)
            },
    {
        let ghost t0 = *self;
        if self.game_tree[node].children.len() > 0 || self.game_tree[node].is_terminal {
            return Ok(());
        }
        if facts.is_terminal(moves.len()) {
            let settled = facts.settle(moves.len(), value);
            self.game_tree[node].is_terminal = true;
            self.game_tree[node].v = settled;
            proof {
                self.lemma_settle(t0, node as int, settled);
            }
            return Ok(());
        }
        proof {
            lemma_used_count_sentinel(self.game_tree@);
            lemma_used_count_zero(self.game_tree@);
            assert(self.game_tree@[node as int].is_used);
        }
        if moves.len() > self.size - self.node_used_count {
            return Err(MctsError::ArenaExhausted);
        }
        let mut j: usize = 0;
        assert(self.grown(t0, node as int, moves@, priors@, 0)) by {
            assert forall|i: int|
                0 <= i < self.game_tree@.len() && i != node
                    && !self.game_tree@[node as int].children@.contains(i as usize)
                implies #[trigger] self.game_tree@[i] == t0.game_tree@[i] by {}
        }
        while j < moves.len()
            invariant
                t0.wf(),
                t0.live(node as int),
                !t0.evaluated(node as int),
                t0.has_room(moves@.len()),
                moves@.len() == priors@.len(),
                j <= moves@.len(),
                self.wf(),
                self.live(node as int),
                self.node_used_count == used_count(self.game_tree@) + 1,
                self.grown(t0, node as int, moves@, priors@, j as int),
                t0.bounded() && (forall|a: int|
                    0 <= a < priors@.len() ==> #[trigger] priors@[a] <= UNIT) ==> self.bounded(),
            decreases moves@.len() - j,
        {
            let index = self.find_free();
            let ghost before = *self;
            let child = Node::new(node, moves[j], priors[j], true);
            assert(index != node);
            self.game_tree[index] = child;
            let ghost mid = *self;
            assert(mid.game_tree@[node as int] == before.game_tree@[node as int]);
            self.game_tree[node].children.push(index);
            assert(self.game_tree@[index as int] == mid.game_tree@[index as int]);
            assert(self.game_tree@[node as int].children@ == before.game_tree@[node as
                int].children@.push(index));
            assert(self.game_tree@[node as int].n == before.game_tree@[node as int].n);
            assert(forall|i: int|
                0 <= i < self.game_tree@.len() && i != node && i != index ==> #[trigger]
                    self.game_tree@[i]
                    == before.game_tree@[i]);
            self.node_index = if index + 1 == self.size { 0 } else { index + 1 };
            self.node_used_count = self.node_used_count + 1;
            proof {
                self.depth@ = before.depth@.update(index as int, before.depth@[node as int] + 1);
                self.height@ = raised(before.height@, index as int);
                assert(self.one_more(before, node as int, index as int, moves@[j as int], priors@[j
                    as int]));
                self.lemma_one_more_wf(before, node as int, index as int, moves@[j as int],
                    priors@[j as int]);
                self.lemma_one_more_grown(t0, before, node as int, index as int, moves@, priors@, j
                    as int);
            }
            j += 1;
        }
        let ghost before = *self;
        self.game_tree[node].v = value;
        proof {
            assert(self.same_shape(before)) by {
                assert forall|i: int| 0 <= i < self.game_tree@.len() implies {
                    &&& (#[trigger] self.game_tree@[i]).is_used == before.game_tree@[i].is_used
                    &&& self.game_tree@[i].parent == before.game_tree@[i].parent
                    &&& self.game_tree@[i].children == before.game_tree@[i].children
                    &&& self.game_tree@[i].is_terminal == before.game_tree@[i].is_terminal
                    &&& self.game_tree@[i].m == before.game_tree@[i].m
                    &&& !self.game_tree@[i].is_used ==> self.game_tree@[i] == before.game_tree@[i]
                } by {
                    if i != node {
                        assert(self.game_tree@[i] == before.game_tree@[i]);
                    }
                }
            }
            self.lemma_same_shape_wf(before);
            let kids = self.game_tree@[node as int].children@;
            assert forall|a: int| 0 <= a < kids.len() implies kids[a] != node by {
                assert(before.live(node as int));
                assert(before.live(before.game_tree@[node as int].children@[a] as int));
                assert(before.height@[before.game_tree@[node as int].children@[a] as int] <
                    before.height@[node as int]);
            }
            assert(self.grown(t0, node as int, moves@, priors@, moves@.len() as int)) by {
                assert forall|a: int| 0 <= a < moves@.len() implies {
                    &&& 0 < #[trigger] kids[a] < self.size
                    &&& !t0.game_tree@[kids[a] as int].is_used
                    &&& self.game_tree@[kids[a] as int].fresh(node, moves@[a], priors@[a], true)
                    &&& t0.first_free(kids.subrange(0, a), t0.cursor_at(kids, a), kids[a] as int)
                } by {
                    assert(self.game_tree@[kids[a] as int] == before.game_tree@[kids[a] as int]);
                }
                assert forall|i: int|
                    0 <= i < self.game_tree@.len() && i != node && !kids.contains(i as usize)
                    implies #[trigger] self.game_tree@[i] == t0.game_tree@[i] by {
                    assert(self.game_tree@[i] == before.game_tree@[i]);
                }
            }
            if t0.bounded() && value <= UNIT && (forall|a: int|
                0 <= a < priors@.len() ==> #[trigger] priors@[a] <= UNIT) {
                assert forall|i: int| #[trigger] self.live(i) implies {
                    &&& self.game_tree@[i].v <= UNIT
                    &&& self.game_tree@[i].p <= UNIT
                    &&& self.game_tree@[i].w <= self.game_tree@[i].n * UNIT
                } by {
                    assert(before.live(i));
                    if i != node {
                        assert(self.game_tree@[i] == before.game_tree@[i]);
                    }
                }
            }
        }
        Ok(())
    }
}

} // verus!
