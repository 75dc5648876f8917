//! The visit counts of a node's children, as they are handed to training.

use vstd::prelude::*;
use crate::fixed::UNIT;
use crate::moves::Move;
use crate::node::{Node, Puct, below_forced, is_below_forced, lemma_forced_bound};
use crate::tree::MCTS;

verus! {

impl Node {
    /// This node with `k` of its visits taken away.
    pub open spec fn with_fewer(&self, k: int) -> Node {
        Node { n: (self.n - k) as u32, ..*self }
    }

    /// The `r`-th visit can be taken away: `r` is less than the number of
    /// visits that forced playouts can have caused,
    /// `sqrt(2 * p * parent_n)`, and with `r` visits taken away from the node
    /// and from its parent the node has a score that is not above
    /// `reference`.
    pub open spec fn stays_below<F: Fn(&Node, u64) -> u64>(
        &self,
        finite: F,
        parent_n: int,
        reference: Puct,
        r: int,
    ) -> bool {
        &&& below_forced(r, self.p as int, parent_n)
        &&& exists|s: Puct|
            self.with_fewer(r).scored(finite, (parent_n - r) as u64, 0, false, s) && s.rank()
                <= reference.rank()
    }

    /// With `r` visits taken away from the node and from its parent, the node
    /// has a score above `reference`.
    pub open spec fn rises_above<F: Fn(&Node, u64) -> u64>(
        &self,
        finite: F,
        parent_n: int,
        reference: Puct,
        r: int,
    ) -> bool {
        exists|s: Puct|
            self.with_fewer(r).scored(finite, (parent_n - r) as u64, 0, false, s) && s.rank()
                > reference.rank()
    }

    /// Target pruning takes exactly `k` visits away from this node.
    ///
    /// Visits are taken away one by one. The `r`-th is taken only while `r`
    /// is less than `sqrt(2 * p * parent_n)`, the number of visits that
    /// forced playouts can have caused, and while a visit is left. It is
    /// given back, and no more are taken, where it lifts the score of the
    /// node above `reference`. So each visit that stays away left the score
    /// at or below `reference`.
    pub open spec fn pruned_by<F: Fn(&Node, u64) -> u64>(
        &self,
        finite: F,
        parent_n: int,
        reference: Puct,
        k: int,
    ) -> bool {
        &&& 0 <= k <= self.n
        &&& forall|r: int|
            1 <= r <= k ==> #[trigger] self.stays_below(finite, parent_n, reference, r)
        &&& (!below_forced(k + 1, self.p as int, parent_n) || self.n == k || self.rises_above(
            finite,
            parent_n,
            reference,
            k + 1,
        ))
    }

    /// Takes away the visits that forced playouts may have caused and that
    /// the score of the node does not account for.
    #[verifier::rlimit(60)]
    pub fn prune<F: Fn(&Node, u64) -> u64>(&mut self, parent_n: u32, reference: Puct, finite: &F)
        requires
            old(self).p <= UNIT,
            forall|nd: &Node, total: u64| call_requires(*finite, (nd, total)),
        ensures
            exists|k: int|
                old(self).pruned_by(*finite, parent_n as int, reference, k) && *final(self) ==
                    old(self).with_fewer(k),
    {
        let ghost start = *self;
        let mut remove: u64 = 1;
        let mut done: bool = false;
        assert(*self == start.with_fewer(0));
        while !done && is_below_forced(remove, self.p, parent_n as u64)
            invariant
                start.p <= UNIT,
                forall|nd: &Node, total: u64| call_requires(*finite, (nd, total)),
                1 <= remove <= start.n + 1,
                *self == start.with_fewer(remove - 1),
                forall|r: int|
                    1 <= r <= remove - 1 ==> #[trigger] start.stays_below(
                        *finite,
                        parent_n as int,
                        reference,
                        r,
                    ),
                done ==> start.n == remove - 1 || start.rises_above(
                    *finite,
                    parent_n as int,
                    reference,
                    remove as int,
                ),
            decreases
                    (if done {
                        0int
                    } else {
                        1int
                    }) + self.n,
        {
            assert(below_forced(remove as int, start.p as int, parent_n as int));
            if self.n == 0 {
                done = true;
            } else {
                proof {
                    lemma_forced_bound(remove as int, start.p as int, parent_n as int);
                }
                self.n -= 1;
                assert(*self == start.with_fewer(remove as int));
                let s = self.get_puct(parent_n as u64 - remove, 0, false, finite);
                if s.exceeds(reference) {
                    self.n += 1;
                    done = true;
                    assert(start.rises_above(*finite, parent_n as int, reference, remove as int));
                } else {
                    assert(start.stays_below(*finite, parent_n as int, reference, remove as int));
                    remove += 1;
                }
            }
        }
        assert(start.pruned_by(*finite, parent_n as int, reference, remove - 1));
    }
}

impl MCTS {
    /// The sum of the visit counts of `kids`.
    pub open spec fn visit_sum(&self, kids: Seq<usize>) -> int
        decreases kids.len(),
    {
        if kids.len() == 0 {
            0
        } else {
            self.visit_sum(kids.drop_last()) + self.game_tree@[kids.last() as int].n
        }
    }

    /// The moves that enter `kids` with the visit counts of `kids`, in their
    /// order; with `remove_zeros`, without those that have no visits.
    pub open spec fn visit_list(&self, kids: Seq<usize>, remove_zeros: bool) -> Seq<(Move, u32)>
        decreases kids.len(),
    {
        if kids.len() == 0 {
            Seq::empty()
        } else {
            let rest = self.visit_list(kids.drop_last(), remove_zeros);
            let last = self.game_tree@[kids.last() as int];
            if remove_zeros && last.n == 0 {
                rest
            } else {
                rest.push((last.m, last.n))
            }
        }
    }

    /// This tree is `before` after target pruning at `node`, where
    /// `reference` is the score of the most visited child of `node`: that
    /// child and all nodes that are not children of `node` are as they were,
    /// and every other child of `node` has lost the visits that target
    /// pruning takes away from it.
    pub open spec fn pruned<F: Fn(&Node, u64) -> u64>(
        &self,
        before: MCTS,
        finite: F,
        node: int,
        reference: Puct,
        count: int,
    ) -> bool {
        let kids = before.game_tree@[node].children@;
        let best = before.most_visited(node);
        let parent_n = before.game_tree@[node].n as int;
        &&& self.same_shape(before)
        &&& before.game_tree@[best as int].scored(finite, parent_n as u64, 0, false, reference)
        &&& forall|j: int|
            0 <= j < count && kids[j] != best ==> exists|k: int|
                before.game_tree@[#[trigger] kids[j] as int].pruned_by(
                    finite,
                    parent_n,
                    reference,
                    k,
                ) && self.game_tree@[kids[j] as int] == before.game_tree@[kids[j] as
                    int].with_fewer(
                    k,
                )
        &&& forall|i: int|
            0 <= i < self.game_tree@.len() && (i == best || !kids.subrange(0, count).contains(
                i as usize,
            )) ==> #[trigger] self.game_tree@[i] == before.game_tree@[i]
    }

    /// Get the number of playouts of `node`: its own visit count or, with
    /// `child_sum`, the sum of the visit counts of its children. The two
    /// differ after target pruning.
    pub fn get_playouts(&self, node: usize, child_sum: bool) -> (r: u64)
        requires
            self.wf(),
            self.live(node as int),
            self.game_tree@[node as int].children@.len() <= u32::MAX,
        ensures
            r == if child_sum {
                self.visit_sum(self.game_tree@[node as int].children@)
            } else {
                self.game_tree@[node as int].n as int
            },
    {
        if child_sum {
            let len = self.game_tree[node].children.len();
            let ghost kids = self.game_tree@[node as int].children@;
            let mut sum: u64 = 0;
            let mut k: usize = 0;
            while k < len
                invariant
                    self.wf(),
                    self.live(node as int),
                    kids == self.game_tree@[node as int].children@,
                    len == kids.len(),
                    len <= u32::MAX,
                    k <= len,
                    sum == self.visit_sum(kids.subrange(0, k as int)),
                    sum <= k * 0xffff_ffff,
                decreases len - k,
            {
                let child = self.game_tree[node].children[k];
                assert(self.live(self.game_tree@[node as int].children@[k as int] as int));
                assert(kids.subrange(0, k as int + 1).drop_last() =~= kids.subrange(0, k as int));
                sum = sum + self.game_tree[child].n as u64;
                k += 1;
            }
            assert(kids.subrange(0, len as int) =~= kids);
            sum
        } else {
            self.game_tree[node].n as u64
        }
    }

    /// Return the sum of the visit counts of the children of `node`, the
    /// mean value of `node`, and the list of its children's moves with their
    /// visit counts.
    ///
    /// With `target_pruning`, the children other than the most visited one
    /// first lose the visits that only forced playouts account for; the tree
    /// keeps the lowered counts. With `remove_zeros`, the list leaves out the
    /// children without visits.
    #[verifier::rlimit(60)]
    pub fn dump<F: Fn(&Node, u64) -> u64>(
        &mut self,
        node: usize,
        target_pruning: bool,
        remove_zeros: bool,
        finite: &F,
    ) -> (r: (u64, u64, Vec<(Move, u32)>))
        requires
            old(self).wf(),
            old(self).live(node as int),
            old(self).game_tree@[node as int].children@.len() <= u32::MAX,
            forall|nd: &Node, total: u64| call_requires(*finite, (nd, total)),
            target_pruning ==> forall|j: int|
                0 <= j < old(self).game_tree@[node as int].children@.len() ==>
                    old(self).game_tree@[#[trigger] old(self).game_tree@[node as int].children@[j]
                    as int].p
                    <= UNIT,
        ensures
            final(self).wf(),
            final(self).same_shape(*old(self)),
            !target_pruning || old(self).game_tree@[node as int].children@.len() == 0 ==>
                *final(self) == *old(self),
            target_pruning && old(self).game_tree@[node as int].children@.len() > 0
                ==> exists|reference: Puct|
                final(self).pruned(
                    *old(self),
                    *finite,
                    node as int,
                    reference,
                    old(self).game_tree@[node as int].children@.len() as int,
                ),
            r.0 == final(self).visit_sum(final(self).game_tree@[node as int].children@),
            r.1 == final(self).game_tree@[node as int].mean_value(),
            r.2@ == final(self).visit_list(
                final(self).game_tree@[node as int].children@,
                remove_zeros,
            ),
    {
        let ghost t0 = *self;
        let len = self.game_tree[node].children.len();
        let ghost kids = self.game_tree@[node as int].children@;
        let ghost reference = Puct::MinusOne;
        if target_pruning && len > 0 {
            let best = self.select_n_max_child(node);
            let parent_n: u32 = self.game_tree[node].n;
            let score = self.game_tree[best].get_puct(parent_n as u64, 0, false, finite);
            proof {
                reference = score;
                assert(kids.subrange(0, 0) =~= Seq::<usize>::empty());
            }
            let mut j: usize = 0;
            while j < len
                invariant
                    t0.wf(),
                    t0.live(node as int),
                    forall|nd: &Node, total: u64| call_requires(*finite, (nd, total)),
                    forall|a: int|
                        0 <= a < kids.len() ==> t0.game_tree@[#[trigger] kids[a] as int].p <= UNIT,
                    kids == t0.game_tree@[node as int].children@,
                    len == kids.len(),
                    j <= len,
                    best == t0.most_visited(node as int),
                    parent_n == t0.game_tree@[node as int].n,
                    score == reference,
                    self.pruned(t0, *finite, node as int, reference, j as int),
                decreases len - j,
            {
                let ghost before = *self;
                assert(self.game_tree@[node as int].children == t0.game_tree@[node as
                    int].children);
                let child = self.game_tree[node].children[j];
                proof {
                    assert(t0.live(kids[j as int] as int));
                    assert(child != node) by {
                        assert(t0.height@[kids[j as int] as int] < t0.height@[node as int]);
                    }
                    assert(!kids.subrange(0, j as int).contains(child)) by {
                        if kids.subrange(0, j as int).contains(child) {
                            let a = choose|a: int|
                                0 <= a < j && kids.subrange(0, j as int)[a] == child;
                            assert(kids[a] != kids[j as int]);
                        }
                    }
                    assert(self.game_tree@[child as int] == t0.game_tree@[child as int]);
                }
                if child != best {
                    self.game_tree[child].prune(parent_n, score, finite);
                }
                proof {
                    self.lemma_pruned_step(t0, before, *finite, node as int, reference, j as int);
                }
                j += 1;
            }
        }
        proof {
            self.lemma_same_shape_wf(t0);
            assert(self.game_tree@[node as int].children == t0.game_tree@[node as int].children);
        }
        let q: u64 = self.game_tree[node].mean();
        let mut sum_n: u64 = 0;
        let mut distribution: Vec<(Move, u32)> = Vec::new();
        let mut k: usize = 0;
        while k < len
            invariant
                self.wf(),
                self.live(node as int),
                kids == self.game_tree@[node as int].children@,
                len == kids.len(),
                len <= u32::MAX,
                k <= len,
                sum_n == self.visit_sum(kids.subrange(0, k as int)),
                sum_n <= k * 0xffff_ffff,
                distribution@ == self.visit_list(kids.subrange(0, k as int), remove_zeros),
            decreases len - k,
        {
            let child = self.game_tree[node].children[k];
            assert(self.live(self.game_tree@[node as int].children@[k as int] as int));
            assert(kids.subrange(0, k as int + 1).drop_last() =~= kids.subrange(0, k as int));
            if !(remove_zeros && self.game_tree[child].n == 0) {
                distribution.push((self.game_tree[child].m, self.game_tree[child].n));
            }
            sum_n = sum_n + self.game_tree[child].n as u64;
            k += 1;
        }
        assert(kids.subrange(0, len as int) =~= kids);
        (sum_n, q, distribution)
    }

    #[verifier::rlimit(60)]
    proof fn lemma_pruned_step<F: Fn(&Node, u64) -> u64>(
        &self,
        t0: MCTS,
        before: MCTS,
        finite: F,
        node: int,
        reference: Puct,
        j: int,
    )
        requires
            t0.wf(),
            t0.live(node),
            0 <= j < t0.game_tree@[node].children@.len(),
            before.pruned(t0, finite, node, reference, j),
            self.size == before.size,
            self.game_tree@.len() == before.game_tree@.len(),
            self.node_index == before.node_index,
            self.node_used_count == before.node_used_count,
            self.prev_root == before.prev_root,
            self.depth == before.depth,
            self.height == before.height,
            forall|i: int|
                0 <= i < self.game_tree@.len() && i != t0.game_tree@[node].children@[j]
                    ==> #[trigger] self.game_tree@[i] == before.game_tree@[i],
            before.game_tree@[t0.game_tree@[node].children@[j] as int]
                == t0.game_tree@[t0.game_tree@[node].children@[j] as int],
            if t0.game_tree@[node].children@[j] == t0.most_visited(node) {
                self.game_tree@[t0.game_tree@[node].children@[j] as int]
                    == t0.game_tree@[t0.game_tree@[node].children@[j] as int]
            } else {
                exists|k: int|
                    t0.game_tree@[t0.game_tree@[node].children@[j] as int].pruned_by(
                        finite,
                        t0.game_tree@[node].n as int,
                        reference,
                        k,
                    ) && self.game_tree@[t0.game_tree@[node].children@[j] as int]
                        == t0.game_tree@[t0.game_tree@[node].children@[j] as int].with_fewer(k)
            },
        ensures
            self.pruned(t0, finite, node, reference, j + 1),
    {
        let kids = t0.game_tree@[node].children@;
        let best = t0.most_visited(node);
        let child = kids[j];
        let parent_n = t0.game_tree@[node].n as int;
        assert(t0.live(kids[j] as int));
        assert forall|i: int| 0 <= i < self.game_tree@.len() implies {
            &&& (#[trigger] self.game_tree@[i]).is_used == t0.game_tree@[i].is_used
            &&& self.game_tree@[i].parent == t0.game_tree@[i].parent
            &&& self.game_tree@[i].children == t0.game_tree@[i].children
            &&& self.game_tree@[i].is_terminal == t0.game_tree@[i].is_terminal
            &&& self.game_tree@[i].m == t0.game_tree@[i].m
            &&& !self.game_tree@[i].is_used ==> self.game_tree@[i] == t0.game_tree@[i]
        } by {
            if i != child {
                assert(self.game_tree@[i] == before.game_tree@[i]);
            }
        }
        assert forall|a: int| 0 <= a < j + 1 && kids[a] != best implies exists|k: int|
            t0.game_tree@[#[trigger] kids[a] as int].pruned_by(finite, parent_n, reference, k)
                && self.game_tree@[kids[a] as int] == t0.game_tree@[kids[a] as int].with_fewer(
                k,
            ) by {
            if a < j {
                assert(kids[a] != kids[j]);
                assert(self.game_tree@[kids[a] as int] == before.game_tree@[kids[a] as int]);
                let k = choose|k: int|
                    t0.game_tree@[kids[a] as int].pruned_by(finite, parent_n, reference, k)
                        && before.game_tree@[kids[a] as int] == t0.game_tree@[kids[a] as
                            int].with_fewer(
                        k,
                    );
                assert(t0.game_tree@[kids[a] as int].pruned_by(finite, parent_n, reference, k)
                    && self.game_tree@[kids[a] as int] == t0.game_tree@[kids[a] as int].with_fewer(
                    k,
                ));
            }
        }
        assert forall|i: int|
            0 <= i < self.game_tree@.len() && (i == best || !kids.subrange(0, j + 1).contains(
                i as usize,
            )) implies #[trigger] self.game_tree@[i] == t0.game_tree@[i] by {
            if i == child {
                if i != best {
                    assert(kids.subrange(0, j + 1)[j] == child);
                }
            } else {
                assert(self.game_tree@[i] == before.game_tree@[i]);
                if kids.subrange(0, j).contains(i as usize) {
                    let a = choose|a: int| 0 <= a < j && kids.subrange(0, j)[a] == i as usize;
                    assert(kids.subrange(0, j + 1)[a] == i as usize);
                }
            }
        }
    }
}

} // verus!
