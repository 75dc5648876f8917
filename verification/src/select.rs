//! Choosing among the children of a node, and the descent to a leaf.

use vstd::prelude::*;
use crate::moves::Move;
use crate::node::{Node, Puct};
use crate::tree::MCTS;

verus! {

/// The index of the first greatest element of `ranks`; 0 for the empty sequence.
pub open spec fn argmax(ranks: Seq<int>) -> int
    decreases ranks.len(),
{
    if ranks.len() <= 1 {
        0
    } else {
        let j = argmax(ranks.drop_last());
        if ranks.last() > ranks[j] {
            ranks.len() - 1
        } else {
            j
        }
    }
}

/// `j` is the place of the first greatest element of `ranks`: every element
/// before it is smaller, no element after it is greater.
pub open spec fn is_first_max(ranks: Seq<int>, j: int) -> bool {
    &&& 0 <= j < ranks.len()
    &&& forall|i: int| 0 <= i < j ==> ranks[i] < ranks[j]
    &&& forall|i: int| j < i < ranks.len() ==> ranks[i] <= ranks[j]
}

/// `argmax` finds the first greatest element.
pub proof fn lemma_argmax(ranks: Seq<int>)
    requires
        ranks.len() > 0,
    ensures
        is_first_max(ranks, argmax(ranks)),
    decreases ranks.len(),
{
    if ranks.len() > 1 {
        let rest = ranks.drop_last();
        lemma_argmax(rest);
        let j = argmax(rest);
        assert(rest[j] == ranks[j]);
        if ranks.last() > ranks[j] {
            let top = ranks.last();
            assert forall|i: int| 0 <= i < ranks.len() - 1 implies #[trigger] ranks[i] < top by {
                assert(rest[i] == ranks[i]);
            }
        } else {
            assert forall|i: int| 0 <= i < j implies ranks[i] < ranks[j] by {
                assert(rest[i] == ranks[i]);
            }
            assert forall|i: int| j < i < ranks.len() implies ranks[i] <= ranks[j] by {
                if i < rest.len() {
                    assert(rest[i] == ranks[i]);
                }
            }
        }
    }
}

/// There is one first greatest element only.
pub proof fn lemma_first_max_unique(ranks: Seq<int>, j: int)
    requires
        is_first_max(ranks, j),
    ensures
        j == argmax(ranks),
{
    lemma_argmax(ranks);
    let a = argmax(ranks);
    if a < j {
        assert(ranks[a] < ranks[j]);
    } else if j < a {
        assert(ranks[j] < ranks[a]);
    }
}

/// The ranks of a sequence of scores.
pub open spec fn ranks_of(scores: Seq<Puct>) -> Seq<int> {
    Seq::new(scores.len(), |j: int| scores[j].rank())
}

impl MCTS {
    /// The visit counts of the children of `node`, in their order.
    pub open spec fn child_visits(&self, node: int) -> Seq<int> {
        Seq::new(
            self.game_tree@[node].children@.len(),
            |k: int| self.game_tree@[self.game_tree@[node].children@[k] as int].n as int,
        )
    }

    /// The child of `node` with the most visits, the first of them where
    /// several have as many; 0 for a node without children.
    pub open spec fn most_visited(&self, node: int) -> usize {
        if self.game_tree@[node].children@.len() == 0 {
            0
        } else {
            self.game_tree@[node].children@[argmax(self.child_visits(node))]
        }
    }

    /// `child` is the child of `node` with the first greatest score, where
    /// `scores` holds a score of each child under a parent with `parent_n`
    /// visits and `parent_loss` virtual losses.
    pub open spec fn chosen<F: Fn(&Node, u64) -> u64>(
        &self,
        finite: F,
        node: int,
        parent_n: u64,
        parent_loss: u64,
        forced_playouts: bool,
        scores: Seq<Puct>,
        child: usize,
    ) -> bool {
        let kids = self.game_tree@[node].children@;
        &&& kids.len() > 0
        &&& scores.len() == kids.len()
        &&& forall|j: int|
            0 <= j < kids.len() ==> self.game_tree@[kids[j] as int].scored(
                finite,
                parent_n,
                parent_loss,
                forced_playouts,
                #[trigger] scores[j],
            )
        &&& child == kids[argmax(ranks_of(scores))]
    }

    /// `child` is the child of `node` that the selection rule picks: the one
    /// with the first greatest score among the scores that the rules and
    /// `finite` give the children.
    pub open spec fn picks<F: Fn(&Node, u64) -> u64>(
        &self,
        finite: F,
        node: int,
        parent_n: u64,
        parent_loss: u64,
        forced_playouts: bool,
        child: usize,
    ) -> bool {
        exists|scores: Seq<Puct>|
            self.chosen(finite, node, parent_n, parent_loss, forced_playouts, scores, child)
    }

    /// One step of a descent: `from` has been evaluated and is not terminal,
    /// and `to` is the child that the selection rule picks once the descent
    /// has been counted at `from`.
    pub open spec fn descent_step<F: Fn(&Node, u64) -> u64>(
        &self,
        finite: F,
        forced_playouts: bool,
        from: usize,
        to: usize,
    ) -> bool {
        &&& !self.game_tree@[from as int].is_terminal
        &&& self.game_tree@[to as int].parent == from
        &&& self.picks(
            finite,
            from as int,
            self.game_tree@[from as int].n as u64,
            (self.game_tree@[from as int].virtual_loss + 1) as u64,
            forced_playouts,
            to,
        )
    }

    /// `path` is the way that the selection rule takes through this tree: it
    /// goes from child to chosen child and ends at the first node that is
    /// terminal or has no children.
    pub open spec fn descent<F: Fn(&Node, u64) -> u64>(
        &self,
        finite: F,
        forced_playouts: bool,
        path: Seq<usize>,
    ) -> bool {
        &&& path.len() > 0
        &&& forall|k: int| 0 <= k < path.len() ==> self.live(#[trigger] path[k] as int)
        &&& forall|k: int|
            0 <= k < path.len() - 1 ==> #[trigger] self.descent_step(
                finite,
                forced_playouts,
                path[k],
                path[k + 1],
            )
        &&& (self.game_tree@[path.last() as int].is_terminal
            || self.game_tree@[path.last() as int].children@.len() == 0)
    }

    /// This tree is `before` with one more virtual loss at each node of `path`.
    pub open spec fn visited(&self, before: MCTS, path: Seq<usize>) -> bool {
        &&& self.same_shape(before)
        &&& forall|i: int|
            0 <= i < self.game_tree@.len() ==> (#[trigger] self.game_tree@[i]) == if path.contains(
                i as usize,
            ) {
                Node {
                    virtual_loss: (before.game_tree@[i].virtual_loss + 1) as u32,
                    ..before.game_tree@[i]
                }
            } else {
                before.game_tree@[i]
            }
    }

    /// Select the child node that has the largest N value.
    pub fn select_n_max_child(&self, node: usize) -> (r: usize)
        requires
            self.wf(),
            self.live(node as int),
        ensures
            r == self.most_visited(node as int),
            self.game_tree@[node as int].children@.len() > 0 ==> self.live(r as int)
                && self.game_tree@[node as int].children@.contains(r),
    {
        let mut n_max: u32 = 0;
        let mut n_max_child: usize = 0;
        let len = self.game_tree[node].children.len();
        let ghost kids = self.game_tree@[node as int].children@;
        let ghost ranks = self.child_visits(node as int);
        let mut k: usize = 0;
        while k < len
            invariant
                self.wf(),
                self.live(node as int),
                kids == self.game_tree@[node as int].children@,
                ranks == self.child_visits(node as int),
                len == kids.len(),
                k <= len,
                k == 0 ==> n_max_child == 0,
                k > 0 ==> {
                    let j = argmax(ranks.subrange(0, k as int));
                    &&& 0 <= j < k
                    &&& n_max_child == kids[j]
                    &&& n_max == ranks[j]
                },
            decreases len - k,
        {
            let child = self.game_tree[node].children[k];
            assert(self.live(self.game_tree@[node as int].children@[k as int] as int));
            proof {
                let prefix = ranks.subrange(0, k as int + 1);
                assert(prefix.drop_last() =~= ranks.subrange(0, k as int));
                if k > 0 {
                    lemma_argmax(ranks.subrange(0, k as int));
                }
            }
            if n_max_child == 0 || self.game_tree[child].n > n_max {
                n_max = self.game_tree[child].n;
                n_max_child = child;
            }
            k += 1;
        }
        proof {
            assert(ranks.subrange(0, len as int) =~= ranks);
        }
        n_max_child
    }

    /// Select the child node that has the largest PUCT value.
    #[verifier::rlimit(60)]
    pub fn select_puct_max_child<F: Fn(&Node, u64) -> u64>(
        &self,
        node: usize,
        forced_playouts: bool,
        finite: &F,
    ) -> (r: usize)
        requires
            self.wf(),
            self.live(node as int),
            forall|nd: &Node, total: u64| call_requires(*finite, (nd, total)),
        ensures
            self.game_tree@[node as int].children@.len() == 0 ==> r == 0,
            self.game_tree@[node as int].children@.len() > 0 ==> self.picks(
                *finite,
                node as int,
                self.game_tree@[node as int].n as u64,
                self.game_tree@[node as int].virtual_loss as u64,
                forced_playouts,
                r,
            ),
    {
        let mut puct_max: Puct = Puct::MinusOne;
        let mut puct_max_child: usize = 0;
        let parent_n: u64 = self.game_tree[node].n as u64;
        let parent_loss: u64 = self.game_tree[node].virtual_loss as u64;
        let len = self.game_tree[node].children.len();
        let ghost kids = self.game_tree@[node as int].children@;
        let ghost scores: Seq<Puct> = Seq::empty();
        let mut k: usize = 0;
        while k < len
            invariant
                self.wf(),
                self.live(node as int),
                forall|nd: &Node, total: u64| call_requires(*finite, (nd, total)),
                kids == self.game_tree@[node as int].children@,
                len == kids.len(),
                k <= len,
                parent_n <= u32::MAX,
                parent_loss <= u32::MAX,
                scores.len() == k,
                forall|j: int|
                    0 <= j < k ==> self.game_tree@[kids[j] as int].scored(
                        *finite,
                        parent_n,
                        parent_loss,
                        forced_playouts,
                        #[trigger] scores[j],
                    ),
                k == 0 ==> puct_max_child == 0,
                k > 0 ==> {
                    let j = argmax(ranks_of(scores));
                    &&& 0 <= j < k
                    &&& puct_max_child == kids[j]
                    &&& puct_max == scores[j]
                },
            decreases len - k,
        {
            let child = self.game_tree[node].children[k];
            assert(self.live(self.game_tree@[node as int].children@[k as int] as int));
            let puct = self.game_tree[child].get_puct(parent_n, parent_loss, forced_playouts,
                finite);
            proof {
                let ghost longer = scores.push(puct);
                assert(ranks_of(longer).drop_last() =~= ranks_of(scores));
                if k > 0 {
                    lemma_argmax(ranks_of(scores));
                }
                assert(ranks_of(longer).last() == puct.rank());
                scores = longer;
            }
            if puct_max_child == 0 || puct.exceeds(puct_max) {
                puct_max = puct;
                puct_max_child = child;
            }
            k += 1;
        }
        proof {
            if len > 0 {
                assert(self.chosen(
                    *finite,
                    node as int,
                    parent_n,
                    parent_loss,
                    forced_playouts,
                    scores,
                    puct_max_child,
                ));
            }
        }
        puct_max_child
    }

    /// No node carries so many virtual losses that one more would not fit.
    pub open spec fn has_headroom(&self) -> bool {
        forall|i: int| #[trigger] self.live(i) ==> self.game_tree@[i].virtual_loss < u32::MAX
    }

    /// Returns whether every node can take one more virtual loss.
    pub fn check_headroom(&self) -> (r: bool)
        ensures
            r == self.has_headroom(),
    {
        let mut i: usize = 0;
        while i < self.game_tree.len()
            invariant
                i <= self.game_tree@.len(),
                forall|a: int|
                    0 <= a < i && #[trigger] self.live(a) ==> self.game_tree@[a].virtual_loss
                        < u32::MAX,
            decreases self.game_tree@.len() - i,
        {
            if i > 0 && self.game_tree[i].is_used && self.game_tree[i].virtual_loss == u32::MAX {
                assert(self.live(i as int));
                return false;
            }
            i += 1;
        }
        true
    }

    /// The state of a descent that started in the tree `t0` and has come
    /// along `path`: every node of the path carries its virtual loss, and
    /// each step of the path was the choice of the selection rule.
    spec fn descending<F: Fn(&Node, u64) -> u64>(
        &self,
        t0: MCTS,
        finite: F,
        forced_playouts: bool,
        path: Seq<usize>,
    ) -> bool {
        &&& self.visited(t0, path)
        &&& path.len() > 0
        &&& forall|k: int| 0 <= k < path.len() ==> t0.live(#[trigger] path[k] as int)
        &&& forall|k: int|
            0 <= k < path.len() - 1 ==> t0.height@[#[trigger] path[k] as int]
                > t0.height@[path.last() as int]
        &&& forall|k: int|
            0 <= k < path.len() - 1 ==> #[trigger] t0.descent_step(
                finite,
                forced_playouts,
                path[k],
                path[k + 1],
            )
    }

    #[verifier::rlimit(60)]
    proof fn lemma_descending_start<F: Fn(&Node, u64) -> u64>(
        &self,
        t0: MCTS,
        finite: F,
        forced_playouts: bool,
        root_node: usize,
    )
        requires
            t0.wf(),
            t0.live(root_node as int),
            t0.has_headroom(),
            self.size == t0.size,
            self.game_tree@.len() == t0.game_tree@.len(),
            self.node_index == t0.node_index,
            self.node_used_count == t0.node_used_count,
            self.prev_root == t0.prev_root,
            self.depth == t0.depth,
            self.height == t0.height,
            self.game_tree@[root_node as int] == (Node {
                virtual_loss: (t0.game_tree@[root_node as int].virtual_loss + 1) as u32,
                ..t0.game_tree@[root_node as int]
            }),
            forall|i: int|
                0 <= i < self.game_tree@.len() && i != root_node ==> #[trigger] self.game_tree@[i]
                    == t0.game_tree@[i],
        ensures
            self.descending(t0, finite, forced_playouts, seq![root_node]),
            self.wf(),
    {
        let path = seq![root_node];
        assert(path[0] == root_node);
        assert forall|i: int| 0 <= i < self.game_tree@.len() implies (#[trigger] self.game_tree@[i])
            == if path.contains(i as usize) {
            Node { virtual_loss: (t0.game_tree@[i].virtual_loss + 1) as u32, ..t0.game_tree@[i] }
        } else {
            t0.game_tree@[i]
        } by {
            if path.contains(i as usize) {
                let a = choose|a: int| 0 <= a < path.len() && path[a] == i as usize;
                assert(i == root_node);
            }
        }
        self.lemma_same_shape_wf(t0);
    }

    #[verifier::rlimit(60)]
    proof fn lemma_descending_choice<F: Fn(&Node, u64) -> u64>(
        &self,
        t0: MCTS,
        finite: F,
        forced_playouts: bool,
        path: Seq<usize>,
        child: usize,
    )
        requires
            t0.wf(),
            t0.has_headroom(),
            self.descending(t0, finite, forced_playouts, path),
            !self.game_tree@[path.last() as int].is_terminal,
            self.game_tree@[path.last() as int].children@.len() > 0,
            self.picks(
                finite,
                path.last() as int,
                self.game_tree@[path.last() as int].n as u64,
                self.game_tree@[path.last() as int].virtual_loss as u64,
                forced_playouts,
                child,
            ),
        ensures
            t0.descent_step(finite, forced_playouts, path.last(), child),
            t0.live(child as int),
            t0.height@[child as int] < t0.height@[path.last() as int],
            !path.contains(child),
            self.game_tree@[child as int] == t0.game_tree@[child as int],
            t0.game_tree@[child as int].virtual_loss < u32::MAX,
            child < self.game_tree@.len(),
    {
        let node = path.last();
        let parent_n = self.game_tree@[node as int].n as u64;
        let parent_loss = self.game_tree@[node as int].virtual_loss as u64;
        let scores = choose|scores: Seq<Puct>|
            self.chosen(finite, node as int, parent_n, parent_loss, forced_playouts, scores, child);
        let kids = t0.game_tree@[node as int].children@;
        assert(t0.live(path[path.len() - 1] as int));
        assert(self.game_tree@[node as int].children == t0.game_tree@[node as int].children);
        assert(path.contains(node)) by {
            assert(path[path.len() - 1] == node);
        }
        assert forall|j: int| 0 <= j < kids.len() implies t0.game_tree@[kids[j] as int].scored(
            finite,
            parent_n,
            parent_loss,
            forced_playouts,
            #[trigger] scores[j],
        ) && !path.contains(kids[j]) by {
            let c = t0.game_tree@[node as int].children@[j];
            assert(t0.live(c as int));
            assert(t0.height@[c as int] < t0.height@[node as int]);
            if path.contains(c) {
                let a = choose|a: int| 0 <= a < path.len() && path[a] == c;
                if a < path.len() - 1 {
                    assert(t0.height@[path[a] as int] > t0.height@[node as int]);
                }
                assert(false);
            }
            assert(self.game_tree@[c as int] == t0.game_tree@[c as int]);
        }
        assert(t0.chosen(finite, node as int, parent_n, parent_loss, forced_playouts, scores,
            child));
        assert(t0.live(node as int));
        assert(parent_n == t0.game_tree@[node as int].n);
        assert(parent_loss == t0.game_tree@[node as int].virtual_loss + 1);
        let j = argmax(ranks_of(scores));
        lemma_argmax(ranks_of(scores));
        assert(child == t0.game_tree@[node as int].children@[j]);
        assert(t0.live(child as int));
        assert(!path.contains(kids[j]));
        assert(self.game_tree@[child as int] == t0.game_tree@[child as int]);
    }

    #[verifier::rlimit(60)]
    proof fn lemma_descending_step<F: Fn(&Node, u64) -> u64>(
        &self,
        t0: MCTS,
        before: MCTS,
        finite: F,
        forced_playouts: bool,
        path: Seq<usize>,
        child: usize,
    )
        requires
            t0.wf(),
            before.descending(t0, finite, forced_playouts, path),
            t0.descent_step(finite, forced_playouts, path.last(), child),
            t0.live(child as int),
            t0.height@[child as int] < t0.height@[path.last() as int],
            !path.contains(child),
            self.size == before.size,
            self.game_tree@.len() == before.game_tree@.len(),
            self.node_index == before.node_index,
            self.node_used_count == before.node_used_count,
            self.prev_root == before.prev_root,
            self.depth == before.depth,
            self.height == before.height,
            self.game_tree@[child as int] == (Node {
                virtual_loss: (t0.game_tree@[child as int].virtual_loss + 1) as u32,
                ..t0.game_tree@[child as int]
            }),
            forall|i: int|
                0 <= i < self.game_tree@.len() && i != child ==> #[trigger] self.game_tree@[i]
                    == before.game_tree@[i],
        ensures
            self.descending(t0, finite, forced_playouts, path.push(child)),
            self.wf(),
    {
        let longer = path.push(child);
        assert forall|i: int| 0 <= i < self.game_tree@.len() implies (#[trigger] self.game_tree@[i])
            == if longer.contains(i as usize) {
            Node { virtual_loss: (t0.game_tree@[i].virtual_loss + 1) as u32, ..t0.game_tree@[i] }
        } else {
            t0.game_tree@[i]
        } by {
            if i == child {
                assert(longer[longer.len() - 1] == child);
            } else {
                assert(self.game_tree@[i] == before.game_tree@[i]);
                if longer.contains(i as usize) {
                    let a = choose|a: int| 0 <= a < longer.len() && longer[a] == i as usize;
                    assert(path[a] == i as usize);
                }
                if path.contains(i as usize) {
                    let a = choose|a: int| 0 <= a < path.len() && path[a] == i as usize;
                    assert(longer[a] == i as usize);
                }
            }
        }
        assert(self.same_shape(t0));
        self.lemma_same_shape_wf(t0);
        assert forall|k: int| 0 <= k < longer.len() implies t0.live(#[trigger] longer[k] as int) by
            {
            if k < path.len() {
                assert(longer[k] == path[k]);
            }
        }
        assert forall|k: int| 0 <= k < longer.len() - 1 implies t0.height@[#[trigger] longer[k] as
            int]
            > t0.height@[longer.last() as int] by {
            assert(longer[k] == path[k]);
            if k < path.len() - 1 {
                assert(t0.height@[path[k] as int] > t0.height@[path.last() as int]);
            }
        }
        assert forall|k: int| 0 <= k < longer.len() - 1 implies #[trigger] t0.descent_step(
            finite,
            forced_playouts,
            longer[k],
            longer[k + 1],
        ) by {
            assert(longer[k] == path[k]);
            if k < path.len() - 1 {
                assert(longer[k + 1] == path[k + 1]);
                assert(t0.descent_step(finite, forced_playouts, path[k], path[k + 1]));
            }
        }
    }

    /// Select a leaf node with PUCT value.
    ///
    /// Descends from `root_node` while the node at hand has been evaluated and
    /// is not terminal, each time to the child with the first greatest score.
    /// Every node on the way, the leaf included, gets one more virtual loss.
    /// Returns the nodes on the way, from `root_node` to the leaf: the moves
    /// that enter them lead from the position of `root_node` to the position
    /// of the leaf.
    #[verifier::rlimit(60)]
    pub fn select_leaf<F: Fn(&Node, u64) -> u64>(
        &mut self,
        root_node: usize,
        forced_playouts: bool,
        finite: &F,
    ) -> (path: Vec<usize>)
        requires
            old(self).wf(),
            old(self).live(root_node as int),
            old(self).has_headroom(),
            forall|nd: &Node, total: u64| call_requires(*finite, (nd, total)),
        ensures
            final(self).wf(),
            path@[0] == root_node,
            old(self).descent(*finite, forced_playouts, path@),
            final(self).visited(*old(self), path@),
            old(self).bounded() ==> final(self).bounded(),
    {
        let ghost t0 = *self;
        let mut path: Vec<usize> = Vec::new();
        let mut node: usize = root_node;
        path.push(node);
        self.game_tree[node].virtual_loss += 1;
        proof {
            assert(path@ =~= seq![root_node]);
            self.lemma_descending_start(t0, *finite, forced_playouts, root_node);
        }
        while !self.game_tree[node].is_terminal && self.game_tree[node].expanded()
            invariant
                t0.wf(),
                t0.has_headroom(),
                self.wf(),
                self.descending(t0, *finite, forced_playouts, path@),
                path@[0] == root_node,
                path@.last() == node,
                self.live(node as int),
                forall|nd: &Node, total: u64| call_requires(*finite, (nd, total)),
            decreases t0.height@[node as int],
        {
            let ghost before = *self;
            let ghost old_path = path@;
            let child = self.select_puct_max_child(node, forced_playouts, finite);
            proof {
                self.lemma_descending_choice(t0, *finite, forced_playouts, old_path, child);
            }
            path.push(child);
            self.game_tree[child].virtual_loss += 1;
            proof {
                self.lemma_descending_step(t0, before, *finite, forced_playouts, old_path, child);
                assert(path@[0] == old_path[0]);
                assert(self.game_tree@[child as int].is_used);
            }
            node = child;
        }
        proof {
            assert(t0.live(path@[path@.len() - 1] as int));
            assert(self.game_tree@[node as int].children == t0.game_tree@[node as int].children);
            assert(self.game_tree@[node as int].is_terminal == t0.game_tree@[node as
                int].is_terminal);
            if t0.bounded() {
                assert forall|i: int| #[trigger] self.live(i) implies {
                    &&& self.game_tree@[i].v <= crate::fixed::UNIT
                    &&& self.game_tree@[i].p <= crate::fixed::UNIT
                    &&& self.game_tree@[i].w <= self.game_tree@[i].n * crate::fixed::UNIT
                } by {
                    assert(self.game_tree@[i].is_used == t0.game_tree@[i].is_used);
                    assert(t0.live(i));
                }
            }
        }
        path
    }

    /// Get the move to the most visited node; the null move for a node without
    /// children.
    pub fn best_move(&self, node: usize) -> (m: Move)
        requires
            self.wf(),
            self.live(node as int),
        ensures
            m == self.game_tree@[self.most_visited(node as int) as int].m,
    {
        let best_child: usize = self.select_n_max_child(node);
        self.game_tree[best_child].m
    }
}

} // verus!
