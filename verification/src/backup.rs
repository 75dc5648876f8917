//! Carrying the value of a leaf back to the root.

use vstd::prelude::*;
use crate::fixed::UNIT;
use crate::node::Node;
use crate::tree::MCTS;

verus! {

impl MCTS {
    /// The value that a playout ending at `leaf` adds to its ancestor `i`: the
    /// value of the leaf where `i` lies an even number of moves above the
    /// leaf, else one minus that value.
    pub open spec fn share(&self, leaf: int, i: int) -> int {
        if (self.depth@[leaf] - self.depth@[i]) % 2 == 0 {
            self.game_tree@[leaf].v as int
        } else {
            UNIT - self.game_tree@[leaf].v
        }
    }

    /// The node `i` of this tree after a playout that ended at `leaf` has
    /// been counted at it.
    pub open spec fn credited(&self, leaf: int, i: int) -> Node {
        Node {
            n: (self.game_tree@[i].n + 1) as u32,
            virtual_loss: (self.game_tree@[i].virtual_loss - 1) as u32,
            w: (self.game_tree@[i].w + self.share(leaf, i)) as u64,
            ..self.game_tree@[i]
        }
    }

    /// This tree is `before` with one playout counted at `leaf` and at each
    /// of its ancestors up to the root.
    pub open spec fn backed_up(&self, before: MCTS, leaf: int) -> bool {
        &&& self.same_shape(before)
        &&& forall|i: int|
            0 <= i < self.game_tree@.len() ==> (#[trigger] self.game_tree@[i]) == if
                before.descends(
                leaf,
                i,
            ) {
                before.credited(leaf, i)
            } else {
                before.game_tree@[i]
            }
    }

    /// A playout that ended at `leaf` can be counted: each node from `leaf`
    /// up to the root carries a virtual loss, and no counter is at its limit.
    pub open spec fn can_back_up(&self, leaf: int) -> bool {
        &&& self.live(leaf)
        &&& self.game_tree@[leaf].v <= UNIT
        &&& forall|i: int| #[trigger]
            self.descends(leaf, i) ==> {
                &&& self.game_tree@[i].virtual_loss >= 1
                &&& self.game_tree@[i].n < u32::MAX
                &&& self.game_tree@[i].w + UNIT <= u64::MAX
            }
    }

    /// The state of a walk from `leaf` to the root that has come to `node`:
    /// the nodes below `node` on the way have been credited, the others are as
    /// they were in `t0`.
    #[verifier::opaque]
    spec fn backing(&self, t0: MCTS, leaf: int, node: int) -> bool {
        &&& self.same_shape(t0)
        &&& node == 0 || t0.descends(leaf, node)
        &&& forall|i: int|
            0 <= i < self.game_tree@.len() ==> (#[trigger] self.game_tree@[i]) == if t0.descends(
                leaf,
                i,
            ) && (node == 0 || t0.depth@[i] > t0.depth@[node]) {
                t0.credited(leaf, i)
            } else {
                t0.game_tree@[i]
            }
    }

    proof fn lemma_back_entry(&self, t0: MCTS, leaf: int, node: int)
        requires
            t0.wf(),
            t0.can_back_up(leaf),
            self.backing(t0, leaf, node),
            node != 0,
        ensures
            0 < node < self.game_tree@.len(),
            self.game_tree@[node] == t0.game_tree@[node],
            self.game_tree@[node].virtual_loss >= 1,
            self.game_tree@[node].n < u32::MAX,
            self.game_tree@[node].w + UNIT <= u64::MAX,
            0 <= t0.share(leaf, node) <= UNIT,
            self.size == t0.size,
            self.game_tree@.len() == t0.game_tree@.len(),
    {
        reveal(MCTS::backing);
        assert(t0.descends(leaf, node));
        assert(t0.live(node));
    }

    #[verifier::rlimit(60)]
    proof fn lemma_back_step(&self, t0: MCTS, before: MCTS, leaf: int, cur: int)
        requires
            t0.wf(),
            t0.can_back_up(leaf),
            before.backing(t0, leaf, cur),
            cur != 0,
            self.size == before.size,
            self.game_tree@.len() == before.game_tree@.len(),
            self.node_index == before.node_index,
            self.node_used_count == before.node_used_count,
            self.prev_root == before.prev_root,
            self.depth == before.depth,
            self.height == before.height,
            self.game_tree@[cur] == t0.credited(leaf, cur),
            forall|i: int|
                0 <= i < self.game_tree@.len() && i != cur ==> #[trigger] self.game_tree@[i]
                    == before.game_tree@[i],
        ensures
            self.backing(t0, leaf, t0.parent_of(cur)),
            t0.parent_of(cur) != 0 ==> t0.depth@[cur] == t0.depth@[t0.parent_of(cur)] + 1,
    {
        reveal(MCTS::backing);
        let next = t0.parent_of(cur);
        assert(t0.descends(leaf, cur));
        assert(t0.live(cur));
        if cur != t0.prev_root {
            t0.lemma_descends_up(leaf, cur);
            assert(t0.live(next));
            assert(t0.depth@[cur] == t0.depth@[next] + 1);
        } else {
            assert(next == 0);
            assert(t0.depth@[cur] == 0);
        }
        assert forall|i: int| 0 <= i < self.game_tree@.len() implies (#[trigger] self.game_tree@[i])
            == if t0.descends(leaf, i) && (next == 0 || t0.depth@[i] > t0.depth@[next]) {
            t0.credited(leaf, i)
        } else {
            t0.game_tree@[i]
        } by {
            if i != cur {
                assert(self.game_tree@[i] == before.game_tree@[i]);
                if t0.descends(leaf, i) && t0.depth@[i] == t0.depth@[cur] {
                    t0.lemma_ancestor_unique(leaf, i, cur);
                }
            }
        }
        assert forall|i: int| 0 <= i < self.game_tree@.len() implies {
            &&& (#[trigger] self.game_tree@[i]).is_used == t0.game_tree@[i].is_used
            &&& self.game_tree@[i].parent == t0.game_tree@[i].parent
            &&& self.game_tree@[i].children == t0.game_tree@[i].children
            &&& self.game_tree@[i].is_terminal == t0.game_tree@[i].is_terminal
            &&& self.game_tree@[i].m == t0.game_tree@[i].m
            &&& !self.game_tree@[i].is_used ==> self.game_tree@[i] == t0.game_tree@[i]
        } by {
            if i != cur {
                assert(self.game_tree@[i] == before.game_tree@[i]);
            }
        }
    }

    proof fn lemma_back_done(&self, t0: MCTS, leaf: int)
        requires
            t0.wf(),
            t0.can_back_up(leaf),
            self.backing(t0, leaf, 0),
        ensures
            self.wf(),
            self.backed_up(t0, leaf),
            t0.bounded() ==> self.bounded(),
    {
        reveal(MCTS::backing);
        self.lemma_same_shape_wf(t0);
        if t0.bounded() {
            assert forall|i: int| #[trigger] self.live(i) implies {
                &&& self.game_tree@[i].v <= UNIT
                &&& self.game_tree@[i].p <= UNIT
                &&& self.game_tree@[i].w <= self.game_tree@[i].n * UNIT
            } by {
                assert(t0.live(i));
                if t0.descends(leaf, i) {
                    assert(self.game_tree@[i] == t0.credited(leaf, i));
                    assert(t0.share(leaf, i) <= UNIT);
                }
            }
        }
    }

    /// Returns whether a playout that ended at `leaf_node` can be counted.
    #[verifier::rlimit(60)]
    pub fn check_back_up(&self, leaf_node: usize) -> (r: bool)
        requires
            self.wf(),
        ensures
            r == self.can_back_up(leaf_node as int),
    {
        if leaf_node == 0 || leaf_node >= self.game_tree.len() {
            return false;
        }
        if !self.game_tree[leaf_node].is_used || self.game_tree[leaf_node].v > UNIT {
            return false;
        }
        let ghost leaf = leaf_node as int;
        let mut node: usize = leaf_node;
        proof {
            self.lemma_descends_self(leaf);
        }
        while node != 0
            invariant
                self.wf(),
                leaf == leaf_node,
                self.live(leaf),
                self.game_tree@[leaf].v <= UNIT,
                node == 0 || self.descends(leaf, node as int),
                forall|i: int|
                    self.descends(leaf, i) && (node == 0 || self.depth@[i] > self.depth@[node as
                        int])
                        ==> {
                        &&& (#[trigger] self.game_tree@[i]).virtual_loss >= 1
                        &&& self.game_tree@[i].n < u32::MAX
                        &&& self.game_tree@[i].w + UNIT <= u64::MAX
                    },
            decreases
                    if node == 0 {
                        0
                    } else {
                        self.depth@[node as int] + 1
                    },
        {
            assert(self.live(node as int));
            let ghost cur = node as int;
            let vl: u32 = self.game_tree[node].virtual_loss;
            let n: u32 = self.game_tree[node].n;
            let w: u64 = self.game_tree[node].w;
            if vl < 1 || n == u32::MAX || w > u64::MAX - UNIT {
                proof {
                    assert(self.descends(leaf, cur));
                    if self.can_back_up(leaf) {
                        assert(self.game_tree@[cur].virtual_loss >= 1);
                        assert(self.game_tree@[cur].n < u32::MAX);
                        assert(self.game_tree@[cur].w + UNIT <= u64::MAX);
                        assert(false);
                    }
                }
                return false;
            }
            node = self.game_tree[node].parent;
            proof {
                if cur != self.prev_root {
                    self.lemma_descends_up(leaf, cur);
                    assert(self.depth@[cur] == self.depth@[node as int] + 1);
                } else {
                    assert(self.depth@[cur] == 0);
                }
                assert forall|i: int|
                    self.descends(leaf, i) && (node == 0 || self.depth@[i] > self.depth@[node as
                        int])
                    implies {
                    &&& (#[trigger] self.game_tree@[i]).virtual_loss >= 1
                    &&& self.game_tree@[i].n < u32::MAX
                    &&& self.game_tree@[i].w + UNIT <= u64::MAX
                } by {
                    if self.depth@[i] == self.depth@[cur] {
                        self.lemma_ancestor_unique(leaf, i, cur);
                    }
                }
            }
        }
        true
    }

    /// Backpropagate the value of a leaf node from the leaf to the root node.
    ///
    /// Each node on the way gets one more visit and one virtual loss less.
    /// The leaf and every second node above it add the value of the leaf to
    /// their accumulated value, the nodes in between add one minus that value.
    #[verifier::rlimit(60)]
    pub fn backpropagate(&mut self, leaf_node: usize)
        requires
            old(self).wf(),
            old(self).can_back_up(leaf_node as int),
        ensures
            final(self).wf(),
            final(self).backed_up(*old(self), leaf_node as int),
            old(self).bounded() ==> final(self).bounded(),
    {
        let ghost t0 = *self;
        let ghost leaf = leaf_node as int;
        let mut node: usize = leaf_node;
        let mut flip: bool = false;
        let value: u64 = self.game_tree[node].v;
        proof {
            t0.lemma_descends_self(leaf);
            reveal(MCTS::backing);
        }
        while node != 0
            invariant
                t0.wf(),
                t0.can_back_up(leaf),
                self.backing(t0, leaf, node as int),
                node != 0 ==> flip == ((t0.depth@[leaf] - t0.depth@[node as int]) % 2 == 1),
                value == t0.game_tree@[leaf].v,
            decreases
                    if node == 0 {
                        0
                    } else {
                        t0.depth@[node as int] + 1
                    },
        {
            let ghost before = *self;
            let ghost cur = node as int;
            proof {
                self.lemma_back_entry(t0, leaf, cur);
            }
            let gain: u64 = if !flip { value } else { UNIT - value };
            let next: usize = self.game_tree[node].parent;
            self.game_tree[node].credit(gain);
            proof {
                self.lemma_back_step(t0, before, leaf, cur);
            }
            node = next;
            flip = !flip;
        }
        proof {
            self.lemma_back_done(t0, leaf);
        }
    }
}

impl Node {
    /// Counts one playout at the node: one more visit, one virtual loss less,
    /// and `gain` more accumulated value.
    pub fn credit(&mut self, gain: u64)
        requires
            old(self).n < u32::MAX,
            old(self).virtual_loss >= 1,
            old(self).w + gain <= u64::MAX,
        ensures
            *final(self) == (Node {
                n: (old(self).n + 1) as u32,
                virtual_loss: (old(self).virtual_loss - 1) as u32,
                w: (old(self).w + gain) as u64,
                ..*old(self)
            }),
    {
        self.w += gain;
        self.n += 1;
        self.virtual_loss -= 1;
    }
}

} // verus!
