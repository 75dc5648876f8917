//! What holds of the tree over whole playouts.
//!
//! A playout is a descent to a leaf, the evaluation of the leaf and the way
//! back to the root. The laws of this module relate the tree before a playout
//! to the tree after it.

use vstd::prelude::*;
use crate::fixed::UNIT;
use crate::moves::Move;
use crate::node::{Node, Puct, below_forced};
use crate::select::{argmax, lemma_argmax, ranks_of};
use crate::tree::MCTS;

verus! {

/// Of two numbers that follow each other one is even.
pub proof fn lemma_parity(d: int)
    requires
        d >= 0,
    ensures
        (d % 2 == 0) != ((d + 1) % 2 == 0),
{
}

impl MCTS {
    /// Every node that has children has one visit more than its children
    /// together, the visit at which it was given them; and a node that has
    /// not been evaluated has no visit.
    pub open spec fn consistent(&self) -> bool {
        forall|i: int| #[trigger]
            self.live(i) ==> if self.game_tree@[i].children@.len() > 0 {
                self.game_tree@[i].n == 1 + self.visit_sum(self.game_tree@[i].children@)
            } else {
                self.game_tree@[i].is_terminal || self.game_tree@[i].n == 0
            }
    }

    /// `path` leads from the root down to its last node, from parent to child.
    pub open spec fn from_root(&self, path: Seq<usize>) -> bool {
        &&& path.len() > 0
        &&& path[0] == self.prev_root
        &&& forall|k: int| 0 <= k < path.len() ==> self.live(#[trigger] path[k] as int)
        &&& forall|k: int|
            1 <= k < path.len() ==> self.game_tree@[#[trigger] path[k] as int].parent == path[k
                - 1]
    }

    /// This tree is what `evaluate` makes of `before` where it succeeds at
    /// `leaf`: the same tree where the leaf had been evaluated, else the tree
    /// with the leaf marked as terminal, or with the leaf given its children.
    pub open spec fn evaluated_from(
        &self,
        before: MCTS,
        leaf: int,
        moves: Seq<Move>,
        priors: Seq<u64>,
        value: u64,
    ) -> bool {
        if before.evaluated(leaf) {
            *self == before
        } else {
            ||| exists|settled: u64| self.settled(before, leaf, settled)
            ||| (moves.len() > 0 && self.expanded_from(before, leaf, moves, priors, value))
        }
    }

    /// A tree that has just been given a fresh root is consistent, and no
    /// playout is in flight in it.
    pub proof fn lemma_fresh_root_consistent(&self)
        requires
            self.wf(),
            self.fresh_root(),
        ensures
            self.consistent(),
            self.quiescent(),
            self.game_tree@[self.prev_root as int].n == 0,
    {
        assert forall|i: int| #[trigger] self.live(i) implies if self.game_tree@[i].children@.len()
            > 0 {
            self.game_tree@[i].n == 1 + self.visit_sum(self.game_tree@[i].children@)
        } else {
            self.game_tree@[i].is_terminal || self.game_tree@[i].n == 0
        } by {
            if i != 1 {
                assert(self.game_tree@[i].cleared());
            }
        }
        assert forall|i: int| 0 <= i < self.game_tree@.len() implies (#[trigger]
            self.game_tree@[i]).virtual_loss
            == 0 by {
            if i != 1 {
                assert(self.game_tree@[i].cleared());
            }
        }
    }

    /// Nodes with the same visit counts in two trees have the same sum of them.
    pub proof fn lemma_visit_sum_same(&self, other: MCTS, kids: Seq<usize>)
        requires
            forall|k: int|
                0 <= k < kids.len() ==> self.game_tree@[#[trigger] kids[k] as int].n
                    == other.game_tree@[kids[k] as int].n,
        ensures
            self.visit_sum(kids) == other.visit_sum(kids),
        decreases kids.len(),
    {
        if kids.len() > 0 {
            let rest = kids.drop_last();
            assert forall|k: int| 0 <= k < rest.len() implies self.game_tree@[#[trigger] rest[k] as
                int].n
                == other.game_tree@[rest[k] as int].n by {
                assert(rest[k] == kids[k]);
            }
            self.lemma_visit_sum_same(other, rest);
            assert(kids.last() == kids[kids.len() - 1]);
        }
    }

    /// One more visit at one of the nodes makes their sum one greater.
    pub proof fn lemma_visit_sum_bump(&self, other: MCTS, kids: Seq<usize>, j: int)
        requires
            0 <= j < kids.len(),
            self.game_tree@[kids[j] as int].n == other.game_tree@[kids[j] as int].n + 1,
            forall|k: int|
                0 <= k < kids.len() && k != j ==> self.game_tree@[#[trigger] kids[k] as int].n
                    == other.game_tree@[kids[k] as int].n,
        ensures
            self.visit_sum(kids) == other.visit_sum(kids) + 1,
        decreases kids.len(),
    {
        let rest = kids.drop_last();
        assert(kids.last() == kids[kids.len() - 1]);
        if j == kids.len() - 1 {
            assert forall|k: int| 0 <= k < rest.len() implies self.game_tree@[#[trigger] rest[k] as
                int].n
                == other.game_tree@[rest[k] as int].n by {
                assert(rest[k] == kids[k]);
            }
            self.lemma_visit_sum_same(other, rest);
        } else {
            assert(rest[j] == kids[j]);
            assert forall|k: int| 0 <= k < rest.len() && k != j implies self.game_tree@[#[trigger]
                rest[k] as int].n
                == other.game_tree@[rest[k] as int].n by {
                assert(rest[k] == kids[k]);
            }
            self.lemma_visit_sum_bump(other, rest, j);
        }
    }

    /// Nodes without visits have the sum zero.
    pub proof fn lemma_visit_sum_zero(&self, kids: Seq<usize>)
        requires
            forall|k: int| 0 <= k < kids.len() ==> self.game_tree@[#[trigger] kids[k] as int].n ==
                0,
        ensures
            self.visit_sum(kids) == 0,
        decreases kids.len(),
    {
        if kids.len() > 0 {
            let rest = kids.drop_last();
            assert forall|k: int| 0 <= k < rest.len() implies self.game_tree@[#[trigger] rest[k] as
                int].n
                == 0 by {
                assert(rest[k] == kids[k]);
            }
            self.lemma_visit_sum_zero(rest);
            assert(kids.last() == kids[kids.len() - 1]);
        }
    }

    /// On a path from the root the `k`-th node lies at depth `k` and is an
    /// ancestor of the last one.
    pub proof fn lemma_path_depth(&self, path: Seq<usize>, k: int)
        requires
            self.wf(),
            self.from_root(path),
            0 <= k < path.len(),
        ensures
            self.depth@[path[k] as int] == k,
        decreases k,
    {
        if k > 0 {
            self.lemma_path_depth(path, k - 1);
            assert(self.live(path[k] as int));
            assert(self.live(path[k - 1] as int));
            assert(self.game_tree@[path[k] as int].parent == path[k - 1]);
            assert(path[k] != self.prev_root);
        } else {
            assert(self.live(path[0] as int));
        }
    }

    /// The nodes of a path from the root are the ancestors of its last node.
    pub proof fn lemma_path_ancestors(&self, path: Seq<usize>, k: int)
        requires
            self.wf(),
            self.from_root(path),
            0 <= k < path.len(),
        ensures
            self.descends(path.last() as int, path[k] as int),
        decreases path.len() - k,
    {
        let last = path.last() as int;
        assert(self.live(path[path.len() - 1] as int));
        if k == path.len() - 1 {
            self.lemma_descends_self(last);
        } else {
            self.lemma_path_ancestors(path, k + 1);
            assert(self.game_tree@[path[k + 1] as int].parent == path[k]);
            assert(self.live(path[k] as int));
            assert(path[k + 1] != self.prev_root);
            self.lemma_descends_up(last, path[k + 1] as int);
        }
    }

    /// The ancestors of the last node of a path from the root are the nodes
    /// of the path.
    pub proof fn lemma_path_is_chain(&self, path: Seq<usize>, i: int)
        requires
            self.wf(),
            self.from_root(path),
        ensures
            path.contains(i as usize) && 0 <= i < self.size <==> self.descends(
                path.last() as int,
                i,
            ),
    {
        let last = path.last() as int;
        if path.contains(i as usize) && 0 <= i < self.size {
            let k = choose|k: int| 0 <= k < path.len() && path[k] == i as usize;
            self.lemma_path_ancestors(path, k);
        }
        if self.descends(last, i) {
            let d = self.depth@[i] as int;
            self.lemma_path_depth(path, path.len() - 1);
            self.lemma_path_depth(path, d);
            self.lemma_path_ancestors(path, d);
            self.lemma_ancestor_unique(last, i, path[d] as int);
        }
    }

    /// Arena integrity: every node of the tree but the root has a parent in
    /// the tree, and that parent lists it among its children exactly once.
    pub proof fn lemma_arena_integrity(&self, i: int)
        requires
            self.wf(),
            self.live(i),
            i != self.prev_root,
        ensures
            self.live(self.parent_of(i)),
            exists|k: int|
                0 <= k < self.game_tree@[self.parent_of(i)].children@.len()
                    && #[trigger] self.game_tree@[self.parent_of(i)].children@[k] == i && forall|
                    k2: int,
                |
                    0 <= k2 < self.game_tree@[self.parent_of(i)].children@.len() && k2 != k
                        ==> #[trigger] self.game_tree@[self.parent_of(i)].children@[k2] != i,
    {
        let p = self.parent_of(i);
        let kids = self.game_tree@[p].children@;
        assert(self.live(p));
        assert(kids.contains(i as usize));
        let k = choose|k: int| 0 <= k < kids.len() && kids[k] == i as usize;
        assert forall|k2: int| 0 <= k2 < kids.len() && k2 != k implies #[trigger]
            self.game_tree@[p].children@[k2]
            != i by {
            if k2 < k {
                assert(self.game_tree@[p].children@[k2] != self.game_tree@[p].children@[k]);
            } else {
                assert(self.game_tree@[p].children@[k] != self.game_tree@[p].children@[k2]);
            }
        }
        assert(self.game_tree@[p].children@[k] == i);
    }

    /// Backprop symmetry: a playout that ends at `leaf` with the value `v`
    /// adds `v` to the accumulated value of the leaf, and to that of each
    /// node above it the share that falls to it.
    pub proof fn lemma_backprop_symmetry(&self, before: MCTS, leaf: int, i: int)
        requires
            before.wf(),
            before.can_back_up(leaf),
            self.backed_up(before, leaf),
            before.descends(leaf, i),
        ensures
            before.share(leaf, leaf) == before.game_tree@[leaf].v,
            self.game_tree@[leaf].w == before.game_tree@[leaf].w + before.game_tree@[leaf].v,
            self.game_tree@[i].w == before.game_tree@[i].w + before.share(leaf, i),
    {
        before.lemma_descends_self(leaf);
        assert(before.live(i));
        assert(self.game_tree@[i] == before.credited(leaf, i));
        assert(self.game_tree@[leaf] == before.credited(leaf, leaf));
    }

    /// The shares of a playout alternate: where a node gets `v`, its parent
    /// gets `1 - v`.
    pub proof fn lemma_share_alternates(&self, leaf: int, i: int)
        requires
            self.wf_parents(),
            self.live(i),
            i != self.prev_root,
            self.depth@[leaf] >= self.depth@[i],
        ensures
            self.share(leaf, i) + self.share(leaf, self.parent_of(i)) == UNIT,
    {
        let up = self.parent_of(i);
        assert(self.depth@[i] == self.depth@[up] + 1);
        lemma_parity(self.depth@[leaf] - self.depth@[i]);
    }

    /// Forced playouts come first: where a child of `node` is below its
    /// forced number of visits and is not a terminal node of value 1, the
    /// selection with forced playouts picks a child that is below its forced
    /// number of visits, or a terminal child of value 0.
    pub proof fn lemma_forced_first<F: Fn(&Node, u64) -> u64>(
        &self,
        finite: F,
        node: int,
        parent_n: u64,
        parent_loss: u64,
        child: usize,
        k: int,
    )
        requires
            self.picks(finite, node, parent_n, parent_loss, true, child),
            0 <= k < self.game_tree@[node].children@.len(),
            below_forced(
                self.game_tree@[self.game_tree@[node].children@[k] as int].n as int,
                self.game_tree@[self.game_tree@[node].children@[k] as int].p as int,
                parent_n as int,
            ),
            !(self.game_tree@[self.game_tree@[node].children@[k] as int].is_terminal
                && self.game_tree@[self.game_tree@[node].children@[k] as int].v == UNIT),
        ensures
            (self.game_tree@[child as int].is_terminal && self.game_tree@[child as int].v == 0)
                || below_forced(
                self.game_tree@[child as int].n as int,
                self.game_tree@[child as int].p as int,
                parent_n as int,
            ),
    {
        let scores = choose|scores: Seq<Puct>|
            self.chosen(finite, node, parent_n, parent_loss, true, scores, child);
        let kids = self.game_tree@[node].children@;
        let ranks = ranks_of(scores);
        lemma_argmax(ranks);
        let j = argmax(ranks);
        assert(self.game_tree@[kids[k] as int].scored(finite, parent_n, parent_loss, true,
            scores[k]));
        assert(scores[k] == Puct::Infinite);
        assert(ranks[k] == scores[k].rank());
        assert(ranks[j] == scores[j].rank());
        assert(ranks[j] >= ranks[k]);
        assert(self.game_tree@[kids[j] as int].scored(finite, parent_n, parent_loss, true,
            scores[j]));
    }

    /// Target-pruning correctness: a child that target pruning has taken
    /// visits away from has, with its lowered count under a parent with as
    /// many visits less, a score that is not above the reference, the score
    /// of the most visited child before the pruning.
    pub proof fn lemma_pruned_stays_below<F: Fn(&Node, u64) -> u64>(
        child: Node,
        finite: F,
        parent_n: int,
        reference: Puct,
        k: int,
    )
        requires
            child.pruned_by(finite, parent_n, reference, k),
            k >= 1,
        ensures
            exists|s: Puct|
                child.with_fewer(k).scored(finite, (parent_n - k) as u64, 0, false, s) && s.rank()
                    <= reference.rank(),
    {
        assert(child.stays_below(finite, parent_n, reference, k));
    }

    /// Root-reuse preservation: the subtree that `set_root` keeps is as
    /// consistent as the tree was, and the new root has the visits, the
    /// values and the children that it had as a child.
    #[verifier::rlimit(60)]
    pub proof fn lemma_reroot_keeps(&self, before: MCTS, c: int)
        requires
            before.wf(),
            before.live(c),
            self.wf(),
            self.rerooted(before, c),
            forall|i: int| self.live(i) <==> before.descends(i, c),
        ensures
            self.game_tree@[c].n == before.game_tree@[c].n,
            self.game_tree@[c].w == before.game_tree@[c].w,
            self.game_tree@[c].v == before.game_tree@[c].v,
            self.game_tree@[c].p == before.game_tree@[c].p,
            self.game_tree@[c].children == before.game_tree@[c].children,
            before.consistent() ==> self.consistent(),
            before.consistent() && self.game_tree@[c].children@.len() > 0 ==> self.visit_sum(
                self.game_tree@[c].children@,
            ) + 1 == before.game_tree@[c].n,
            before.quiescent() ==> self.quiescent(),
    {
        before.lemma_descends_self(c);
        if before.consistent() {
            assert forall|i: int| #[trigger] self.live(i) implies if
                self.game_tree@[i].children@.len()
                > 0 {
                self.game_tree@[i].n == 1 + self.visit_sum(self.game_tree@[i].children@)
            } else {
                self.game_tree@[i].is_terminal || self.game_tree@[i].n == 0
            } by {
                assert(before.descends(i, c));
                assert(before.live(i));
                let kids = before.game_tree@[i].children@;
                assert(self.game_tree@[i].children@ == kids) by {
                    if i != c {
                        assert(self.game_tree@[i] == before.game_tree@[i]);
                    }
                }
                assert forall|k: int| 0 <= k < kids.len() implies self.game_tree@[#[trigger]
                    kids[k] as int].n
                    == before.game_tree@[kids[k] as int].n by {
                    let kid = before.game_tree@[i].children@[k] as int;
                    assert(before.live(kid));
                    assert(kid != c) by {
                        if kid == c {
                            assert(before.height@[kid] < before.height@[i]);
                            before.lemma_descends_root(i);
                            assert(before.game_tree@[kid].parent == i);
                            if i != c {
                                before.lemma_descends_parent(i, c);
                            }
                        }
                    }
                    before.lemma_descends_child(kid, c);
                    assert(self.game_tree@[kid] == before.game_tree@[kid]);
                }
                self.lemma_visit_sum_same(before, kids);
            }
        }
        if before.quiescent() {
            assert forall|i: int| 0 <= i < self.game_tree@.len() implies (#[trigger]
                self.game_tree@[i]).virtual_loss
                == 0 by {
                if i != c {
                    if before.descends(i, c) {
                        assert(self.game_tree@[i] == before.game_tree@[i]);
                    }
                }
            }
        }
    }

    /// The way of a descent that starts at the root is a path from the root.
    pub proof fn lemma_descent_from_root<F: Fn(&Node, u64) -> u64>(
        &self,
        finite: F,
        forced_playouts: bool,
        path: Seq<usize>,
    )
        requires
            self.wf(),
            self.descent(finite, forced_playouts, path),
            path[0] == self.prev_root,
        ensures
            self.from_root(path),
            forall|k: int|
                0 <= k < path.len() - 1 ==> self.game_tree@[#[trigger] path[k] as
                    int].children@.len()
                    > 0 && !self.game_tree@[path[k] as int].is_terminal,
    {
        assert forall|k: int| 1 <= k < path.len() implies self.game_tree@[#[trigger] path[k] as
            int].parent
            == path[k - 1] by {
            assert(self.descent_step(finite, forced_playouts, path[k - 1], path[k - 1 + 1]));
        }
        assert forall|k: int| 0 <= k < path.len() - 1 implies self.game_tree@[#[trigger] path[k] as
            int].children@.len()
            > 0 && !self.game_tree@[path[k] as int].is_terminal by {
            assert(self.descent_step(finite, forced_playouts, path[k], path[k + 1]));
        }
    }

    /// What a descent and an evaluation leave of a quiescent tree `t0`: the
    /// nodes of `t0` off the way are as they were, those on the way carry one
    /// virtual loss, and the slots that were free are free or hold fresh
    /// children of the leaf.
    pub open spec fn in_flight(&self, t0: MCTS, path: Seq<usize>) -> bool {
        let leaf = path.last() as int;
        &&& self.prev_root == t0.prev_root
        &&& self.game_tree@.len() == t0.game_tree@.len()
        &&& self.size == t0.size
        &&& forall|i: int|
            #![trigger self.game_tree@[i]]
            0 <= i < self.game_tree@.len() && t0.game_tree@[i].is_used ==> {
                &&& self.game_tree@[i].is_used
                &&& self.game_tree@[i].n == t0.game_tree@[i].n
                &&& self.game_tree@[i].parent == t0.game_tree@[i].parent
                &&& self.game_tree@[i].virtual_loss == (if path.contains(i as usize) {
                    1int
                } else {
                    0int
                })
                &&& i != leaf ==> self.game_tree@[i].children == t0.game_tree@[i].children
                    && self.game_tree@[i].is_terminal == t0.game_tree@[i].is_terminal
            }
        &&& forall|i: int|
            #![trigger self.game_tree@[i]]
            0 <= i < self.game_tree@.len() && !t0.game_tree@[i].is_used
                && self.game_tree@[i].is_used ==> {
                &&& self.game_tree@[i].n == 0
                &&& self.game_tree@[i].virtual_loss == 0
                &&& self.game_tree@[i].children@.len() == 0
                &&& !self.game_tree@[i].is_terminal
                &&& self.game_tree@[i].parent == leaf
            }
        &&& forall|i: int|
            #![trigger self.game_tree@[i]]
            0 <= i < self.game_tree@.len() && !self.game_tree@[i].is_used
                ==> self.game_tree@[i].virtual_loss == 0
        &&& (self.game_tree@[leaf].is_terminal || self.game_tree@[leaf].children@.len() > 0)
        &&& self.game_tree@[leaf].children@.len() > 0 ==> t0.game_tree@[leaf].n == 0 && forall|
            k: int,
        |
            0 <= k < self.game_tree@[leaf].children@.len()
                ==> !t0.game_tree@[#[trigger] self.game_tree@[leaf].children@[k] as int].is_used
    }

    #[verifier::rlimit(60)]
    proof fn lemma_in_flight<F: Fn(&Node, u64) -> u64>(
        &self,
        t0: MCTS,
        t1: MCTS,
        finite: F,
        forced_playouts: bool,
        path: Seq<usize>,
        moves: Seq<Move>,
        priors: Seq<u64>,
        value: u64,
    )
        requires
            t0.wf(),
            t0.consistent(),
            t0.quiescent(),
            t0.descent(finite, forced_playouts, path),
            path[0] == t0.prev_root,
            t1.visited(t0, path),
            self.wf(),
            self.evaluated_from(t1, path.last() as int, moves, priors, value),
        ensures
            self.in_flight(t0, path),
            self.from_root(path),
    {
        let leaf = path.last() as int;
        t0.lemma_descent_from_root(finite, forced_playouts, path);
        assert(t0.live(path[path.len() - 1] as int));
        assert(path.contains(leaf as usize)) by {
            assert(path[path.len() - 1] == leaf as usize);
        }
        assert(t1.game_tree@[leaf].children == t0.game_tree@[leaf].children);
        assert(t1.game_tree@[leaf].is_terminal == t0.game_tree@[leaf].is_terminal);
        assert forall|i: int| 0 <= i < t1.game_tree@.len() implies (#[trigger] t1.game_tree@[i]).n
            == t0.game_tree@[i].n && t1.game_tree@[i].virtual_loss == t0.game_tree@[i].virtual_loss
            + (if path.contains(i as usize) {
            1int
        } else {
            0int
        }) && t0.game_tree@[i].virtual_loss == 0 by {}
        if t1.evaluated(leaf) {
            assert(t0.game_tree@[leaf].is_terminal);
            assert(t0.game_tree@[leaf].children@.len() == 0);
            assert(self.in_flight(t0, path));
        } else if exists|settled: u64| self.settled(t1, leaf, settled) {
            let settled = choose|settled: u64| self.settled(t1, leaf, settled);
            assert forall|i: int| 0 <= i < self.game_tree@.len() && i != leaf implies #[trigger]
                self.game_tree@[i]
                == t1.game_tree@[i] by {}
            assert(self.in_flight(t0, path));
        } else {
            assert(self.expanded_from(t1, leaf, moves, priors, value));
            let kids = self.game_tree@[leaf].children@;
            assert(t0.game_tree@[leaf].n == 0);
            assert forall|k: int| 0 <= k < kids.len() implies !t0.game_tree@[#[trigger] kids[k] as
                int].is_used
                && !t1.game_tree@[kids[k] as int].is_used by {}
            assert forall|i: int|
                #![trigger self.game_tree@[i]]
                0 <= i < self.game_tree@.len() && t0.game_tree@[i].is_used implies {
                &&& self.game_tree@[i].is_used
                &&& self.game_tree@[i].n == t0.game_tree@[i].n
                &&& self.game_tree@[i].parent == t0.game_tree@[i].parent
                &&& self.game_tree@[i].virtual_loss == (if path.contains(i as usize) {
                    1int
                } else {
                    0int
                })
                &&& i != leaf ==> self.game_tree@[i].children == t0.game_tree@[i].children
                    && self.game_tree@[i].is_terminal == t0.game_tree@[i].is_terminal
            } by {
                if i != leaf {
                    if kids.contains(i as usize) {
                        let k = choose|k: int| 0 <= k < kids.len() && kids[k] == i as usize;
                        assert(!t1.game_tree@[kids[k] as int].is_used);
                        assert(t1.game_tree@[i].is_used == t0.game_tree@[i].is_used);
                    }
                    assert(self.game_tree@[i] == t1.game_tree@[i]);
                }
            }
            assert forall|i: int|
                #![trigger self.game_tree@[i]]
                0 <= i < self.game_tree@.len() && !t0.game_tree@[i].is_used
                    && self.game_tree@[i].is_used implies {
                &&& self.game_tree@[i].n == 0
                &&& self.game_tree@[i].virtual_loss == 0
                &&& self.game_tree@[i].children@.len() == 0
                &&& !self.game_tree@[i].is_terminal
                &&& self.game_tree@[i].parent == leaf
            } by {
                if kids.contains(i as usize) {
                    let k = choose|k: int| 0 <= k < kids.len() && kids[k] == i as usize;
                    assert(self.game_tree@[kids[k] as int].fresh(
                        leaf as usize,
                        moves[k],
                        priors[k],
                        true,
                    ));
                } else {
                    assert(self.game_tree@[i] == t1.game_tree@[i]);
                    assert(t1.game_tree@[i].is_used == t0.game_tree@[i].is_used);
                }
            }
            assert forall|i: int|
                #![trigger self.game_tree@[i]]
                0 <= i < self.game_tree@.len() && !self.game_tree@[i].is_used
                implies self.game_tree@[i].virtual_loss == 0 by {
                assert(self.game_tree@[i].cleared());
            }
            assert(self.in_flight(t0, path));
        }
        assert forall|k: int| 0 <= k < path.len() implies self.live(#[trigger] path[k] as int) by {
            assert(t0.live(path[k] as int));
            assert(self.game_tree@[path[k] as int].is_used);
        }
        assert forall|k: int| 1 <= k < path.len() implies self.game_tree@[#[trigger] path[k] as
            int].parent
            == path[k - 1] by {
            assert(t0.live(path[k] as int));
            assert(t0.game_tree@[path[k] as int].parent == path[k - 1]);
            assert(self.game_tree@[path[k] as int].parent == t0.game_tree@[path[k] as int].parent);
        }
    }

    /// Visit consistency and virtual-loss balance: a playout from the root of
    /// a consistent tree in which no playout is in flight leaves a consistent
    /// tree in which no playout is in flight, with one visit more at the
    /// root.
    ///
    /// `t1` is the tree after the descent along `path`, `t2` the tree after
    /// the evaluation of the leaf, which met what `backpropagate` asks for,
    /// and `self` the tree after the way back.
    #[verifier::rlimit(60)]
    pub proof fn lemma_playout<F: Fn(&Node, u64) -> u64>(
        &self,
        t0: MCTS,
        t1: MCTS,
        t2: MCTS,
        finite: F,
        forced_playouts: bool,
        path: Seq<usize>,
        moves: Seq<Move>,
        priors: Seq<u64>,
        value: u64,
    )
        requires
            t0.wf(),
            t0.consistent(),
            t0.quiescent(),
            t0.descent(finite, forced_playouts, path),
            path[0] == t0.prev_root,
            t1.visited(t0, path),
            t2.wf(),
            t2.evaluated_from(t1, path.last() as int, moves, priors, value),
            t2.can_back_up(path.last() as int),
            self.backed_up(t2, path.last() as int),
        ensures
            self.wf(),
            self.consistent(),
            self.quiescent(),
            self.prev_root == t0.prev_root,
            self.game_tree@[self.prev_root as int].n == t0.game_tree@[t0.prev_root as int].n + 1,
    {
        let leaf = path.last() as int;
        t2.lemma_in_flight(t0, t1, finite, forced_playouts, path, moves, priors, value);
        t0.lemma_descent_from_root(finite, forced_playouts, path);
        self.lemma_same_shape_wf(t2);
        self.lemma_tally(t0, t2, path);
    }

    /// The tree after a playout along `path`, told in terms of the tree `t0`
    /// before it: one visit more at each node of the path, no virtual loss
    /// anywhere, and the leaf terminal or with fresh children.
    spec fn counted(&self, t0: MCTS, path: Seq<usize>) -> bool {
        let leaf = path.last() as int;
        &&& self.prev_root == t0.prev_root
        &&& self.game_tree@.len() == t0.game_tree@.len()
        &&& forall|i: int|
            #![trigger self.game_tree@[i]]
            0 <= i < self.game_tree@.len() && t0.game_tree@[i].is_used ==> {
                &&& self.game_tree@[i].is_used
                &&& self.game_tree@[i].n == t0.game_tree@[i].n + (if path.contains(i as usize) {
                    1int
                } else {
                    0int
                })
                &&& i != leaf ==> self.game_tree@[i].children == t0.game_tree@[i].children
                    && self.game_tree@[i].is_terminal == t0.game_tree@[i].is_terminal
            }
        &&& forall|i: int|
            #![trigger self.game_tree@[i]]
            0 <= i < self.game_tree@.len() && !t0.game_tree@[i].is_used
                && self.game_tree@[i].is_used ==> {
                &&& self.game_tree@[i].n == 0
                &&& self.game_tree@[i].children@.len() == 0
                &&& !self.game_tree@[i].is_terminal
            }
        &&& forall|i: int|
            0 <= i < self.game_tree@.len() ==> (#[trigger] self.game_tree@[i]).virtual_loss == 0
        &&& (self.game_tree@[leaf].is_terminal || self.game_tree@[leaf].children@.len() > 0)
        &&& self.game_tree@[leaf].children@.len() > 0 ==> t0.game_tree@[leaf].n == 0 && forall|
            k: int,
        |
            0 <= k < self.game_tree@[leaf].children@.len()
                ==> !t0.game_tree@[#[trigger] self.game_tree@[leaf].children@[k] as int].is_used
    }

    #[verifier::rlimit(60)]
    proof fn lemma_tally(&self, t0: MCTS, t2: MCTS, path: Seq<usize>)
        requires
            t0.wf(),
            t0.consistent(),
            t0.from_root(path),
            forall|k: int|
                0 <= k < path.len() - 1 ==> t0.game_tree@[#[trigger] path[k] as int].children@.len()
                    > 0 && !t0.game_tree@[path[k] as int].is_terminal,
            t2.wf(),
            t2.in_flight(t0, path),
            t2.from_root(path),
            t2.can_back_up(path.last() as int),
            self.wf(),
            self.backed_up(t2, path.last() as int),
        ensures
            self.consistent(),
            self.quiescent(),
            self.prev_root == t0.prev_root,
            self.game_tree@[self.prev_root as int].n == t0.game_tree@[t0.prev_root as int].n + 1,
    {
        self.lemma_counted(t0, t2, path);
        assert forall|i: int| #[trigger] self.live(i) implies if self.game_tree@[i].children@.len()
            > 0 {
            self.game_tree@[i].n == 1 + self.visit_sum(self.game_tree@[i].children@)
        } else {
            self.game_tree@[i].is_terminal || self.game_tree@[i].n == 0
        } by {
            if i == path.last() {
                self.lemma_counted_leaf(t0, path);
            } else if !t0.game_tree@[i].is_used {
            } else if path.contains(i as usize) {
                self.lemma_counted_inner(t0, path, i);
            } else {
                self.lemma_counted_aside(t0, path, i);
            }
        }
        assert(path.contains(path[0]));
        assert(t0.live(path[0] as int));
    }

    #[verifier::rlimit(60)]
    proof fn lemma_counted(&self, t0: MCTS, t2: MCTS, path: Seq<usize>)
        requires
            t0.wf(),
            t0.from_root(path),
            t2.wf(),
            t2.in_flight(t0, path),
            t2.from_root(path),
            t2.can_back_up(path.last() as int),
            self.backed_up(t2, path.last() as int),
        ensures
            self.counted(t0, path),
    {
        let leaf = path.last() as int;
        assert forall|i: int| path.contains(i as usize) && 0 <= i < t2.size <==> t2.descends(
            leaf,
            i,
        ) by {
            t2.lemma_path_is_chain(path, i);
        }
        assert forall|i: int| 0 <= i < self.game_tree@.len() implies (#[trigger]
            self.game_tree@[i]).n
            == t2.game_tree@[i].n + (if path.contains(i as usize) {
            1int
        } else {
            0int
        }) && self.game_tree@[i].virtual_loss == 0 && self.game_tree@[i].children
            == t2.game_tree@[i].children && self.game_tree@[i].is_terminal
            == t2.game_tree@[i].is_terminal && self.game_tree@[i].is_used
            == t2.game_tree@[i].is_used by {
            if t2.descends(leaf, i) {
                assert(self.game_tree@[i] == t2.credited(leaf, i));
                assert(t2.live(i));
                assert(t0.game_tree@[i].is_used) by {
                    let k = choose|k: int| 0 <= k < path.len() && path[k] == i as usize;
                    assert(t0.live(path[k] as int));
                }
            } else {
                assert(self.game_tree@[i] == t2.game_tree@[i]);
            }
        }
        assert forall|i: int|
            #![trigger self.game_tree@[i]]
            0 <= i < self.game_tree@.len() && !t0.game_tree@[i].is_used
                && self.game_tree@[i].is_used implies {
            &&& self.game_tree@[i].n == 0
            &&& self.game_tree@[i].children@.len() == 0
            &&& !self.game_tree@[i].is_terminal
        } by {
            if path.contains(i as usize) {
                let k = choose|k: int| 0 <= k < path.len() && path[k] == i as usize;
                assert(t0.live(path[k] as int));
            }
            assert(t2.game_tree@[i].is_used);
        }
    }

    #[verifier::rlimit(60)]
    proof fn lemma_counted_leaf(&self, t0: MCTS, path: Seq<usize>)
        requires
            t0.wf(),
            t0.from_root(path),
            self.wf(),
            self.counted(t0, path),
        ensures
            if self.game_tree@[path.last() as int].children@.len() > 0 {
                self.game_tree@[path.last() as int].n == 1 + self.visit_sum(
                    self.game_tree@[path.last() as int].children@,
                )
            } else {
                self.game_tree@[path.last() as int].is_terminal
            },
    {
        let leaf = path.last() as int;
        let kids = self.game_tree@[leaf].children@;
        assert(t0.live(path[path.len() - 1] as int));
        assert(path.contains(leaf as usize)) by {
            assert(path[path.len() - 1] == leaf as usize);
        }
        if kids.len() > 0 {
            assert(self.live(leaf));
            assert forall|k: int| 0 <= k < kids.len() implies self.game_tree@[#[trigger] kids[k] as
                int].n
                == 0 by {
                let c = self.game_tree@[leaf].children@[k] as int;
                assert(self.live(c));
                assert(!t0.game_tree@[c].is_used);
            }
            self.lemma_visit_sum_zero(kids);
        }
    }

    #[verifier::rlimit(60)]
    proof fn lemma_counted_inner(&self, t0: MCTS, path: Seq<usize>, i: int)
        requires
            t0.wf(),
            t0.consistent(),
            t0.from_root(path),
            forall|k: int|
                0 <= k < path.len() - 1 ==> t0.game_tree@[#[trigger] path[k] as int].children@.len()
                    > 0 && !t0.game_tree@[path[k] as int].is_terminal,
            self.counted(t0, path),
            path.contains(i as usize),
            0 <= i < t0.size,
            i != path.last(),
        ensures
            self.game_tree@[i].children@.len() > 0,
            self.game_tree@[i].n == 1 + self.visit_sum(self.game_tree@[i].children@),
    {
        let a = choose|a: int| 0 <= a < path.len() && path[a] == i as usize;
        assert(t0.live(path[a] as int));
        let kids = t0.game_tree@[i].children@;
        assert(self.game_tree@[i].children == t0.game_tree@[i].children);
        let next = path[a + 1];
        assert(t0.live(next as int));
        assert(t0.game_tree@[next as int].parent == path[a]);
        t0.lemma_path_depth(path, a + 1);
        t0.lemma_path_depth(path, a);
        t0.lemma_path_depth(path, 0);
        assert(next != t0.prev_root);
        assert(t0.game_tree@[i].children@.contains(next));
        let j = choose|j: int| 0 <= j < kids.len() && kids[j] == next;
        assert(path.contains(next));
        assert forall|k: int| 0 <= k < kids.len() && k != j implies self.game_tree@[#[trigger]
            kids[k] as int].n
            == t0.game_tree@[kids[k] as int].n by {
            let c = t0.game_tree@[i].children@[k] as int;
            assert(t0.live(c));
            if path.contains(c as usize) {
                let b = choose|b: int| 0 <= b < path.len() && path[b] == c as usize;
                t0.lemma_path_depth(path, b);
                assert(t0.game_tree@[c].parent == i);
                assert(c != t0.prev_root);
                assert(b == a + 1);
                if k < j {
                    assert(t0.game_tree@[i].children@[k] != t0.game_tree@[i].children@[j]);
                } else {
                    assert(t0.game_tree@[i].children@[j] != t0.game_tree@[i].children@[k]);
                }
            }
            assert(self.game_tree@[c].n == t0.game_tree@[c].n);
        }
        assert(self.game_tree@[kids[j] as int].n == t0.game_tree@[kids[j] as int].n + 1) by {
            assert(self.game_tree@[next as int].n == t0.game_tree@[next as int].n + 1);
        }
        self.lemma_visit_sum_bump(t0, kids, j);
        assert(self.game_tree@[i].n == t0.game_tree@[i].n + 1);
    }

    #[verifier::rlimit(60)]
    proof fn lemma_counted_aside(&self, t0: MCTS, path: Seq<usize>, i: int)
        requires
            t0.wf(),
            t0.consistent(),
            t0.from_root(path),
            self.counted(t0, path),
            t0.live(i),
            !path.contains(i as usize),
        ensures
            if self.game_tree@[i].children@.len() > 0 {
                self.game_tree@[i].n == 1 + self.visit_sum(self.game_tree@[i].children@)
            } else {
                self.game_tree@[i].is_terminal || self.game_tree@[i].n == 0
            },
    {
        let kids = t0.game_tree@[i].children@;
        assert(path.contains(path.last())) by {
            assert(path[path.len() - 1] == path.last());
        }
        assert(self.game_tree@[i].children == t0.game_tree@[i].children);
        assert forall|k: int| 0 <= k < kids.len() implies self.game_tree@[#[trigger] kids[k] as
            int].n
            == t0.game_tree@[kids[k] as int].n by {
            let c = t0.game_tree@[i].children@[k] as int;
            assert(t0.live(c));
            assert(t0.game_tree@[c].parent == i);
            if path.contains(c as usize) {
                let b = choose|b: int| 0 <= b < path.len() && path[b] == c as usize;
                if b == 0 {
                    assert(false);
                } else {
                    assert(t0.game_tree@[path[b] as int].parent == path[b - 1]);
                    assert(path.contains(path[b - 1]));
                    assert(false);
                }
            }
            assert(self.game_tree@[c].n == t0.game_tree@[c].n);
        }
        self.lemma_visit_sum_same(t0, kids);
        assert(self.game_tree@[i].n == t0.game_tree@[i].n);
    }

    /// The number of descents, among those that have come to `leaves`, that
    /// have passed through node `i`.
    pub open spec fn flights_through(&self, leaves: Seq<usize>, i: int) -> nat
        decreases leaves.len(),
    {
        if leaves.len() == 0 {
            0
        } else {
            self.flights_through(leaves.drop_last(), i) + if self.descends(
                leaves.last() as int,
                i,
            ) {
                1nat
            } else {
                0nat
            }
        }
    }

    /// The playouts in flight are those that have come to `leaves`: every
    /// node carries one virtual loss for each of them that has passed
    /// through it.
    pub open spec fn balanced(&self, leaves: Seq<usize>) -> bool {
        &&& forall|k: int| 0 <= k < leaves.len() ==> self.live(#[trigger] leaves[k] as int)
        &&& forall|i: int|
            0 <= i < self.game_tree@.len() ==> (#[trigger] self.game_tree@[i]).virtual_loss
                == self.flights_through(leaves, i)
    }

    /// This tree holds the nodes of `before` where they were: each with the
    /// parent and at the depth that it had.
    pub open spec fn extends(&self, before: MCTS) -> bool {
        &&& self.game_tree@.len() == before.game_tree@.len()
        &&& self.prev_root == before.prev_root
        &&& forall|i: int|
            0 <= i < self.game_tree@.len() && before.game_tree@[i].is_used ==> {
                &&& (#[trigger] self.game_tree@[i]).is_used
                &&& self.game_tree@[i].parent == before.game_tree@[i].parent
                &&& self.depth@[i] == before.depth@[i]
            }
    }

    proof fn lemma_extends_ancestor(&self, before: MCTS, l: int, steps: nat)
        requires
            before.wf(),
            self.extends(before),
            before.live(l),
            steps <= before.depth@[l],
        ensures
            self.ancestor(l, steps) == before.ancestor(l, steps),
            before.live(before.ancestor(l, steps)),
            before.depth@[before.ancestor(l, steps)] == before.depth@[l] - steps,
        decreases steps,
    {
        if steps > 0 {
            assert(self.game_tree@[l].parent == before.game_tree@[l].parent);
            if l == before.prev_root {
                assert(before.depth@[l] == 0);
            }
            self.lemma_extends_ancestor(before, before.parent_of(l), (steps - 1) as nat);
        }
    }

    /// A node of `before` has in this tree the ancestors that it had.
    proof fn lemma_extends_descends(&self, before: MCTS, l: int, i: int)
        requires
            before.wf(),
            self.extends(before),
            before.live(l),
        ensures
            self.descends(l, i) == before.descends(l, i),
    {
        assert(self.game_tree@[l].is_used);
        if before.descends(l, i) {
            let steps = (before.depth@[l] - before.depth@[i]) as nat;
            self.lemma_extends_ancestor(before, l, steps);
            assert(self.game_tree@[i].is_used);
        }
        if self.descends(l, i) {
            let steps = (self.depth@[l] - self.depth@[i]) as nat;
            assert(self.depth@[l] == before.depth@[l]);
            self.lemma_extends_ancestor(before, l, steps);
            assert(before.live(i));
            assert(self.depth@[i] == before.depth@[i]);
        }
    }

    proof fn lemma_flights_same(&self, other: MCTS, leaves: Seq<usize>, i: int)
        requires
            forall|k: int|
                0 <= k < leaves.len() ==> self.descends(#[trigger] leaves[k] as int, i)
                    == other.descends(leaves[k] as int, i),
        ensures
            self.flights_through(leaves, i) == other.flights_through(leaves, i),
        decreases leaves.len(),
    {
        if leaves.len() > 0 {
            let rest = leaves.drop_last();
            assert forall|k: int| 0 <= k < rest.len() implies self.descends(
                #[trigger] rest[k] as int,
                i,
            ) == other.descends(rest[k] as int, i) by {
                assert(rest[k] == leaves[k]);
            }
            self.lemma_flights_same(other, rest, i);
            assert(leaves.last() == leaves[leaves.len() - 1]);
        }
    }

    proof fn lemma_flights_remove(&self, leaves: Seq<usize>, idx: int, i: int)
        requires
            0 <= idx < leaves.len(),
        ensures
            self.flights_through(leaves.remove(idx), i) + (if self.descends(
                leaves[idx] as int,
                i,
            ) {
                1nat
            } else {
                0nat
            }) == self.flights_through(leaves, i),
        decreases leaves.len(),
    {
        let rest = leaves.drop_last();
        if idx == leaves.len() - 1 {
            assert(leaves.remove(idx) =~= rest);
        } else {
            self.lemma_flights_remove(rest, idx, i);
            assert(leaves.remove(idx).drop_last() =~= rest.remove(idx));
            assert(leaves.remove(idx).last() == leaves.last());
            assert(rest[idx] == leaves[idx]);
        }
    }

    /// No more descents pass through a node than there are.
    pub proof fn lemma_flights_bound(&self, leaves: Seq<usize>, i: int)
        ensures
            self.flights_through(leaves, i) <= leaves.len(),
        decreases leaves.len(),
    {
        if leaves.len() > 0 {
            self.lemma_flights_bound(leaves.drop_last(), i);
        }
    }

    /// A descent passes through each ancestor of its leaf.
    pub proof fn lemma_flights_at_least(&self, leaves: Seq<usize>, at: int, i: int)
        requires
            0 <= at < leaves.len(),
            self.descends(leaves[at] as int, i),
        ensures
            self.flights_through(leaves, i) >= 1,
        decreases leaves.len(),
    {
        if at < leaves.len() - 1 {
            self.lemma_flights_at_least(leaves.drop_last(), at, i);
        }
    }

    /// While fewer playouts are in flight than a virtual loss can count,
    /// every node can take one more.
    pub proof fn lemma_balanced_headroom(&self, leaves: Seq<usize>)
        requires
            self.balanced(leaves),
            leaves.len() < u32::MAX,
        ensures
            self.has_headroom(),
    {
        assert forall|i: int| #[trigger] self.live(i) implies self.game_tree@[i].virtual_loss
            < u32::MAX by {
            self.lemma_flights_bound(leaves, i);
            assert(self.game_tree@[i].virtual_loss == self.flights_through(leaves, i));
        }
    }

    /// A playout in flight can be counted once its leaf has a value, as long
    /// as the values of the tree are in their bounds and no visit count on
    /// the way is at its limit.
    pub proof fn lemma_in_flight_can_back_up(&self, leaves: Seq<usize>, at: int)
        requires
            self.wf(),
            self.bounded(),
            self.balanced(leaves),
            0 <= at < leaves.len(),
            forall|i: int| #[trigger]
                self.descends(leaves[at] as int, i) ==> self.game_tree@[i].n < u32::MAX,
        ensures
            self.can_back_up(leaves[at] as int),
    {
        let leaf = leaves[at] as int;
        assert(self.live(leaves[at] as int));
        assert forall|i: int| #[trigger] self.descends(leaf, i) implies {
            &&& self.game_tree@[i].virtual_loss >= 1
            &&& self.game_tree@[i].n < u32::MAX
            &&& self.game_tree@[i].w + UNIT <= u64::MAX
        } by {
            self.lemma_flights_at_least(leaves, at, i);
            assert(self.live(i));
            assert(self.game_tree@[i].virtual_loss == self.flights_through(leaves, i));
            assert(self.game_tree@[i].w <= self.game_tree@[i].n * UNIT);
        }
    }

    /// No playout is in flight exactly where no node carries a virtual loss.
    pub proof fn lemma_balanced_quiescent(&self)
        ensures
            self.balanced(Seq::empty()) <==> self.quiescent(),
    {
        let none = Seq::<usize>::empty();
        assert forall|i: int| self.flights_through(none, i) == 0 by {}
        if self.quiescent() {
            assert forall|i: int| 0 <= i < self.game_tree@.len() implies (#[trigger]
                self.game_tree@[i]).virtual_loss
                == self.flights_through(none, i) by {}
        }
        if self.balanced(none) {
            assert forall|i: int| 0 <= i < self.game_tree@.len() implies (#[trigger]
                self.game_tree@[i]).virtual_loss
                == 0 by {
                assert(self.game_tree@[i].virtual_loss == self.flights_through(none, i));
            }
        }
    }

    /// Virtual-loss balance, on the way down: a descent from the root adds
    /// the playout to those in flight. `self` is the tree after the descent
    /// along `path`.
    #[verifier::rlimit(60)]
    pub proof fn lemma_descent_takes_off<F: Fn(&Node, u64) -> u64>(
        &self,
        t0: MCTS,
        finite: F,
        forced_playouts: bool,
        path: Seq<usize>,
        leaves: Seq<usize>,
    )
        requires
            t0.wf(),
            t0.has_headroom(),
            t0.balanced(leaves),
            t0.descent(finite, forced_playouts, path),
            path[0] == t0.prev_root,
            self.visited(t0, path),
        ensures
            self.wf(),
            self.balanced(leaves.push(path.last())),
    {
        t0.lemma_descent_from_root(finite, forced_playouts, path);
        self.lemma_same_shape_wf(t0);
        self.lemma_takes_off(t0, path, leaves);
    }

    #[verifier::rlimit(60)]
    proof fn lemma_takes_off(&self, t0: MCTS, path: Seq<usize>, leaves: Seq<usize>)
        requires
            t0.wf(),
            t0.has_headroom(),
            t0.balanced(leaves),
            t0.from_root(path),
            self.visited(t0, path),
            forall|i: int| self.live(i) == t0.live(i),
            forall|i: int, k: int| self.descends(i, k) == t0.descends(i, k),
        ensures
            self.balanced(leaves.push(path.last())),
    {
        let leaf = path.last();
        let more = leaves.push(leaf);
        assert(t0.live(path[path.len() - 1] as int));
        assert forall|k: int| 0 <= k < more.len() implies self.live(#[trigger] more[k] as int) by {
            if k < leaves.len() {
                assert(more[k] == leaves[k]);
                assert(t0.live(leaves[k] as int));
            }
        }
        assert(more.drop_last() =~= leaves);
        assert(more.last() == leaf);
        assert forall|i: int| 0 <= i < self.game_tree@.len() implies (#[trigger]
            self.game_tree@[i]).virtual_loss
            == self.flights_through(more, i) by {
            self.lemma_takes_off_at(t0, path, leaves, i);
        }
    }

    #[verifier::rlimit(60)]
    proof fn lemma_takes_off_at(&self, t0: MCTS, path: Seq<usize>, leaves: Seq<usize>, i: int)
        requires
            t0.wf(),
            t0.has_headroom(),
            t0.from_root(path),
            self.visited(t0, path),
            0 <= i < t0.game_tree@.len(),
            t0.game_tree@[i].virtual_loss == t0.flights_through(leaves, i),
            forall|l: int, k: int| self.descends(l, k) == t0.descends(l, k),
        ensures
            self.game_tree@[i].virtual_loss == self.flights_through(leaves, i) + (if self.descends(
                path.last() as int,
                i,
            ) {
                1nat
            } else {
                0nat
            }),
    {
        t0.lemma_path_is_chain(path, i);
        self.lemma_flights_same(t0, leaves, i);
        assert(self.game_tree@[i] == if path.contains(i as usize) {
            Node { virtual_loss: (t0.game_tree@[i].virtual_loss + 1) as u32, ..t0.game_tree@[i] }
        } else {
            t0.game_tree@[i]
        });
        if path.contains(i as usize) {
            assert(t0.descends(path.last() as int, i));
            assert(t0.live(i));
        }
    }

    /// Virtual-loss balance, at the leaf: an evaluation leaves the playouts
    /// in flight as they are. `self` is the tree after the evaluation of
    /// `leaf` in the tree `t1`.
    #[verifier::rlimit(60)]
    pub proof fn lemma_evaluation_keeps_flights(
        &self,
        t1: MCTS,
        leaf: int,
        moves: Seq<Move>,
        priors: Seq<u64>,
        value: u64,
        leaves: Seq<usize>,
    )
        requires
            t1.wf(),
            t1.live(leaf),
            t1.balanced(leaves),
            self.wf(),
            self.evaluated_from(t1, leaf, moves, priors, value),
        ensures
            self.balanced(leaves),
    {
        self.lemma_evaluated_extends(t1, leaf, moves, priors, value);
        assert forall|k: int| 0 <= k < leaves.len() implies self.live(#[trigger] leaves[k] as int)
            by {
            assert(t1.live(leaves[k] as int));
            assert(self.game_tree@[leaves[k] as int].is_used);
        }
        assert forall|i: int| 0 <= i < self.game_tree@.len() implies (#[trigger]
            self.game_tree@[i]).virtual_loss
            == self.flights_through(leaves, i) by {
            assert forall|k: int| 0 <= k < leaves.len() implies self.descends(
                #[trigger] leaves[k] as int,
                i,
            ) == t1.descends(leaves[k] as int, i) by {
                assert(t1.live(leaves[k] as int));
                self.lemma_extends_descends(t1, leaves[k] as int, i);
            }
            self.lemma_flights_same(t1, leaves, i);
            assert(t1.game_tree@[i].virtual_loss == t1.flights_through(leaves, i));
        }
    }

    #[verifier::rlimit(60)]
    proof fn lemma_evaluated_extends(
        &self,
        t1: MCTS,
        leaf: int,
        moves: Seq<Move>,
        priors: Seq<u64>,
        value: u64,
    )
        requires
            t1.wf(),
            t1.live(leaf),
            self.wf(),
            self.evaluated_from(t1, leaf, moves, priors, value),
        ensures
            self.extends(t1),
            forall|i: int|
                0 <= i < self.game_tree@.len() ==> (#[trigger] self.game_tree@[i]).virtual_loss
                    == t1.game_tree@[i].virtual_loss,
    {
        if t1.evaluated(leaf) {
        } else if exists|settled: u64| self.settled(t1, leaf, settled) {
            let settled = choose|settled: u64| self.settled(t1, leaf, settled);
            assert forall|i: int| 0 <= i < self.game_tree@.len() implies (#[trigger]
                self.game_tree@[i]).virtual_loss
                == t1.game_tree@[i].virtual_loss && (t1.game_tree@[i].is_used ==>
                    self.game_tree@[i].is_used
                && self.game_tree@[i].parent == t1.game_tree@[i].parent) by {
                if i != leaf {
                    assert(self.game_tree@[i] == t1.game_tree@[i]);
                }
            }
        } else {
            let kids = self.game_tree@[leaf].children@;
            assert forall|i: int| 0 <= i < self.game_tree@.len() implies (#[trigger]
                self.game_tree@[i]).virtual_loss
                == t1.game_tree@[i].virtual_loss && (t1.game_tree@[i].is_used ==>
                    self.game_tree@[i].is_used
                && self.game_tree@[i].parent == t1.game_tree@[i].parent) by {
                if i == leaf {
                } else if kids.contains(i as usize) {
                    let k = choose|k: int| 0 <= k < kids.len() && kids[k] == i as usize;
                    assert(!t1.game_tree@[kids[k] as int].is_used);
                    assert(self.game_tree@[kids[k] as int].fresh(
                        leaf as usize,
                        moves[k],
                        priors[k],
                        true,
                    ));
                    assert(t1.game_tree@[i].cleared());
                } else {
                    assert(self.game_tree@[i] == t1.game_tree@[i]);
                }
            }
            assert forall|i: int|
                0 <= i < self.game_tree@.len() && t1.game_tree@[i].is_used implies #[trigger]
                    self.depth@[i]
                == t1.depth@[i] by {}
        }
    }

    /// Virtual-loss balance, on the way back: the way back from a leaf
    /// takes the playout out of those in flight. `self` is the tree after
    /// the way back from the leaf at the place `at` of `leaves`. When every
    /// playout in flight has come back, no node carries a virtual loss.
    #[verifier::rlimit(60)]
    pub proof fn lemma_backup_lands(&self, t2: MCTS, leaves: Seq<usize>, at: int)
        requires
            t2.wf(),
            t2.balanced(leaves),
            0 <= at < leaves.len(),
            t2.can_back_up(leaves[at] as int),
            self.backed_up(t2, leaves[at] as int),
        ensures
            self.wf(),
            self.balanced(leaves.remove(at)),
            leaves.len() == 1 ==> self.quiescent(),
    {
        let leaf = leaves[at] as int;
        let fewer = leaves.remove(at);
        self.lemma_same_shape_wf(t2);
        assert forall|k: int| 0 <= k < fewer.len() implies self.live(#[trigger] fewer[k] as int) by
            {
            if k < at {
                assert(fewer[k] == leaves[k]);
                assert(t2.live(leaves[k] as int));
            } else {
                assert(fewer[k] == leaves[k + 1]);
                assert(t2.live(leaves[k + 1] as int));
            }
        }
        assert forall|i: int| 0 <= i < self.game_tree@.len() implies (#[trigger]
            self.game_tree@[i]).virtual_loss
            == self.flights_through(fewer, i) by {
            self.lemma_flights_same(t2, fewer, i);
            t2.lemma_flights_remove(leaves, at, i);
            assert(t2.game_tree@[i].virtual_loss == t2.flights_through(leaves, i));
            if t2.descends(leaf, i) {
                assert(self.game_tree@[i] == t2.credited(leaf, i));
            } else {
                assert(self.game_tree@[i] == t2.game_tree@[i]);
            }
        }
        if leaves.len() == 1 {
            assert(fewer =~= Seq::<usize>::empty());
            self.lemma_balanced_quiescent();
        }
    }
}

} // verus!
