//! The arena that holds the search tree.
//!
//! All nodes live in one vector that is allocated once. Slot 0 is never used and
//! stands for "no node". The tree is a set of index relations between the used
//! slots: each node names its parent and its children.

use vstd::prelude::*;
use crate::fixed::UNIT;
use crate::moves::Move;
use crate::node::Node;

verus! {

/// The search tree.
///
/// `depth` and `height` are ghost measures: the depth of a node grows by one
/// from parent to child, the height of a node is greater than that of each of
/// its children. They exist to show that walks up and down the tree end.
pub struct MCTS {
    pub size: usize,
    pub game_tree: Vec<Node>,
    pub node_index: usize,
    pub node_used_count: usize,
    pub prev_root: usize,
    pub depth: Ghost<Seq<nat>>,
    pub height: Ghost<Seq<nat>>,
}

/// Number of used slots in `nodes`.
pub open spec fn used_count(nodes: Seq<Node>) -> nat
    decreases nodes.len(),
{
    if nodes.len() == 0 {
        0
    } else {
        used_count(nodes.drop_last()) + if nodes.last().is_used {
            1nat
        } else {
            0nat
        }
    }
}

/// Replacing one slot changes the number of used slots by that slot alone.
pub proof fn lemma_used_count_update(nodes: Seq<Node>, i: int, x: Node)
    requires
        0 <= i < nodes.len(),
    ensures
        used_count(nodes.update(i, x)) + (if nodes[i].is_used {
            1nat
        } else {
            0nat
        }) == used_count(nodes) + (if x.is_used {
            1nat
        } else {
            0nat
        }),
    decreases nodes.len(),
{
    let updated = nodes.update(i, x);
    if i == nodes.len() - 1 {
        assert(updated.drop_last() =~= nodes.drop_last());
    } else {
        lemma_used_count_update(nodes.drop_last(), i, x);
        assert(updated.drop_last() =~= nodes.drop_last().update(i, x));
    }
}

/// Where every slot from `lo` on is used, at least that many slots are used.
pub proof fn lemma_used_count_full(nodes: Seq<Node>, lo: int)
    requires
        0 <= lo <= nodes.len(),
        forall|i: int| lo <= i < nodes.len() ==> (#[trigger] nodes[i]).is_used,
    ensures
        used_count(nodes) >= nodes.len() - lo,
    decreases nodes.len(),
{
    if nodes.len() > lo {
        let rest = nodes.drop_last();
        assert forall|i: int| lo <= i < rest.len() implies (#[trigger] rest[i]).is_used by {
            assert(rest[i] == nodes[i]);
        }
        lemma_used_count_full(rest, lo);
    }
}

/// No slot is used exactly if the number of used slots is zero; and no more
/// slots are used than there are.
pub proof fn lemma_used_count_zero(nodes: Seq<Node>)
    ensures
        used_count(nodes) <= nodes.len(),
        used_count(nodes) == 0 <==> (forall|i: int|
            0 <= i < nodes.len() ==> !(#[trigger] nodes[i]).is_used),
    decreases nodes.len(),
{
    if nodes.len() > 0 {
        let rest = nodes.drop_last();
        lemma_used_count_zero(rest);
        if used_count(nodes) == 0 {
            assert forall|i: int| 0 <= i < nodes.len() implies !(#[trigger] nodes[i]).is_used by {
                if i < rest.len() {
                    assert(rest[i] == nodes[i]);
                }
            }
        }
        if forall|i: int| 0 <= i < nodes.len() ==> !(#[trigger] nodes[i]).is_used {
            assert forall|i: int| 0 <= i < rest.len() implies !(#[trigger] rest[i]).is_used by {
                assert(rest[i] == nodes[i]);
            }
        }
    }
}

/// With slot 0 free, at least one slot is not used.
pub proof fn lemma_used_count_sentinel(nodes: Seq<Node>)
    requires
        nodes.len() > 0,
        !nodes[0].is_used,
    ensures
        used_count(nodes) + 1 <= nodes.len(),
    decreases nodes.len(),
{
    if nodes.len() > 1 {
        lemma_used_count_sentinel(nodes.drop_last());
    } else {
        assert(used_count(nodes.drop_last()) == 0);
    }
}

/// Two arenas with the same used slots have the same number of them.
pub proof fn lemma_used_count_same(a: Seq<Node>, b: Seq<Node>)
    requires
        a.len() == b.len(),
        forall|i: int| 0 <= i < a.len() ==> (#[trigger] a[i]).is_used == b[i].is_used,
    ensures
        used_count(a) == used_count(b),
    decreases a.len(),
{
    if a.len() > 0 {
        let ra = a.drop_last();
        let rb = b.drop_last();
        assert forall|i: int| 0 <= i < ra.len() implies (#[trigger] ra[i]).is_used == rb[i].is_used
            by {
            assert(ra[i] == a[i] && rb[i] == b[i]);
        }
        lemma_used_count_same(ra, rb);
        assert(a.last() == a[a.len() - 1]);
    }
}

impl MCTS {
    /// Slot `i` holds a node of the tree.
    pub open spec fn live(&self, i: int) -> bool {
        0 < i < self.game_tree@.len() && self.game_tree@[i].is_used
    }

    /// The parent of node `i`.
    #[verifier::inline]
    pub open spec fn parent_of(&self, i: int) -> int {
        self.game_tree@[i].parent as int
    }

    /// The `steps`-th ancestor of node `i`.
    pub open spec fn ancestor(&self, i: int, steps: nat) -> int
        decreases steps,
    {
        if steps == 0 {
            i
        } else {
            self.ancestor(self.game_tree@[i].parent as int, (steps - 1) as nat)
        }
    }

    /// Node `i` lies in the subtree of node `k`, which holds `k` itself.
    pub open spec fn descends(&self, i: int, k: int) -> bool {
        &&& self.live(i)
        &&& self.live(k)
        &&& self.depth@[i] >= self.depth@[k]
        &&& self.ancestor(i, (self.depth@[i] - self.depth@[k]) as nat) == k
    }

    /// The sizes of the arena and of its ghost measures agree.
    pub open spec fn wf_shape(&self) -> bool {
        &&& self.size == self.game_tree@.len()
        &&& self.depth@.len() == self.size
        &&& self.height@.len() == self.size
        &&& self.prev_root == 0 || self.prev_root < self.size
    }

    /// Slot 0 is free and every free slot is cleared.
    pub open spec fn wf_free(&self) -> bool {
        &&& self.size > 0 ==> !self.game_tree@[0].is_used
        &&& forall|i: int|
            0 <= i < self.size && !(#[trigger] self.game_tree@[i]).is_used
                ==> self.game_tree@[i].cleared()
    }

    /// The root is a used slot without a parent; without a root no slot is used.
    pub open spec fn wf_root(&self) -> bool {
        &&& self.prev_root != 0 ==> self.live(self.prev_root as int) &&
            self.game_tree@[self.prev_root as int].parent
            == 0 && self.depth@[self.prev_root as int] == 0
        &&& self.prev_root == 0 ==> forall|i: int|
            0 <= i < self.size ==> !(#[trigger] self.game_tree@[i]).is_used
    }

    /// Every node but the root has a parent in the tree, one level above it,
    /// that lists it among its children.
    pub open spec fn wf_parents(&self) -> bool {
        forall|i: int| #[trigger]
            self.live(i) && i != self.prev_root ==> {
                &&& self.live(self.game_tree@[i].parent as int)
                &&& self.depth@[i] == self.depth@[self.game_tree@[i].parent as int] + 1
                &&& self.game_tree@[self.game_tree@[i].parent as int].children@.contains(i as usize)
            }
    }

    /// Every child that a node lists is a node of the tree, names that node as
    /// its parent and is listed once.
    pub open spec fn wf_children(&self) -> bool {
        &&& forall|i: int, k: int|
            self.live(i) && 0 <= k < self.game_tree@[i].children@.len() ==> {
                &&& self.live(#[trigger] self.game_tree@[i].children@[k] as int)
                &&& self.game_tree@[self.game_tree@[i].children@[k] as int].parent == i
                &&& self.height@[self.game_tree@[i].children@[k] as int] < self.height@[i]
            }
        &&& forall|i: int, k1: int, k2: int|
            self.live(i) && 0 <= k1 < k2 < self.game_tree@[i].children@.len()
                ==> #[trigger] self.game_tree@[i].children@[k1]
                != #[trigger] self.game_tree@[i].children@[k2]
        &&& forall|i: int| #[trigger]
            self.live(i) && self.game_tree@[i].is_terminal ==> self.game_tree@[i].children@.len()
                == 0
    }

    /// `node_used_count` is the number of nodes in the tree, plus one for slot 0;
    /// it is zero until the tree is cleared for the first time.
    pub open spec fn wf_count(&self) -> bool {
        ||| self.node_used_count == used_count(self.game_tree@) + 1
        ||| (self.node_used_count == 0 && used_count(self.game_tree@) == 0)
    }

    /// The arena holds a tree: the invariant of the type.
    pub open spec fn wf(&self) -> bool {
        &&& self.wf_shape()
        &&& self.wf_free()
        &&& self.wf_root()
        &&& self.wf_parents()
        &&& self.wf_children()
        &&& self.wf_count()
    }

    /// Values and priors lie between 0 and 1, and the accumulated value of a
    /// node is at most its number of visits.
    pub open spec fn bounded(&self) -> bool {
        forall|i: int| #[trigger]
            self.live(i) ==> {
                &&& self.game_tree@[i].v <= UNIT
                &&& self.game_tree@[i].p <= UNIT
                &&& self.game_tree@[i].w <= self.game_tree@[i].n * UNIT
            }
    }

    /// No playout is in flight.
    pub open spec fn quiescent(&self) -> bool {
        forall|i: int| 0 <= i < self.game_tree@.len() ==> (#[trigger]
            self.game_tree@[i]).virtual_loss == 0
    }

    /// The two arenas hold the same tree: they differ at most in the visit
    /// counts, the virtual losses, the values and the priors of their nodes.
    pub open spec fn same_shape(&self, other: MCTS) -> bool {
        &&& self.size == other.size
        &&& self.game_tree@.len() == other.game_tree@.len()
        &&& self.node_index == other.node_index
        &&& self.node_used_count == other.node_used_count
        &&& self.prev_root == other.prev_root
        &&& self.depth == other.depth
        &&& self.height == other.height
        &&& forall|i: int|
            0 <= i < self.game_tree@.len() ==> {
                &&& (#[trigger] self.game_tree@[i]).is_used == other.game_tree@[i].is_used
                &&& self.game_tree@[i].parent == other.game_tree@[i].parent
                &&& self.game_tree@[i].children == other.game_tree@[i].children
                &&& self.game_tree@[i].is_terminal == other.game_tree@[i].is_terminal
                &&& self.game_tree@[i].m == other.game_tree@[i].m
                &&& !self.game_tree@[i].is_used ==> self.game_tree@[i] == other.game_tree@[i]
            }
    }

    /// An arena that holds the same tree as a well-formed one is well-formed.
    #[verifier::rlimit(60)]
    pub proof fn lemma_same_shape_wf(&self, other: MCTS)
        requires
            other.wf(),
            self.same_shape(other),
        ensures
            self.wf(),
            forall|i: int| self.live(i) == other.live(i),
            forall|i: int, k: int| self.descends(i, k) == other.descends(i, k),
    {
        lemma_used_count_same(self.game_tree@, other.game_tree@);
        assert forall|i: int| self.live(i) == other.live(i) by {
            if 0 < i < self.game_tree@.len() {
                assert(self.game_tree@[i].is_used == other.game_tree@[i].is_used);
            }
        }
        assert(self.wf_free()) by {
            assert forall|i: int|
                0 <= i < self.size && !(#[trigger] self.game_tree@[i]).is_used
                implies self.game_tree@[i].cleared() by {
                assert(other.game_tree@[i].cleared());
            }
            if self.size > 0 {
                assert(self.game_tree@[0].is_used == other.game_tree@[0].is_used);
            }
        }
        assert(self.wf_root()) by {
            if self.prev_root != 0 {
                assert(other.live(self.prev_root as int));
                assert(self.game_tree@[self.prev_root as int].parent ==
                    other.game_tree@[self.prev_root as int].parent);
            } else {
                assert forall|i: int| 0 <= i < self.size implies !(#[trigger]
                    self.game_tree@[i]).is_used by {
                    assert(!other.game_tree@[i].is_used);
                }
            }
        }
        assert(self.wf_parents()) by {
            assert forall|i: int| #[trigger] self.live(i) && i != self.prev_root implies {
                &&& self.live(self.game_tree@[i].parent as int)
                &&& self.depth@[i] == self.depth@[self.game_tree@[i].parent as int] + 1
                &&& self.game_tree@[self.game_tree@[i].parent as int].children@.contains(i as usize)
            } by {
                assert(other.live(i));
                assert(self.game_tree@[i].parent == other.game_tree@[i].parent);
                let p = other.game_tree@[i].parent as int;
                assert(other.live(p));
                assert(self.game_tree@[p].children == other.game_tree@[p].children);
            }
        }
        assert(self.wf_children()) by {
            assert forall|i: int, k: int|
                self.live(i) && 0 <= k < self.game_tree@[i].children@.len() implies {
                &&& self.live(#[trigger] self.game_tree@[i].children@[k] as int)
                &&& self.game_tree@[self.game_tree@[i].children@[k] as int].parent == i
                &&& self.height@[self.game_tree@[i].children@[k] as int] < self.height@[i]
            } by {
                assert(other.live(i));
                assert(self.game_tree@[i].children == other.game_tree@[i].children);
                let kid = other.game_tree@[i].children@[k] as int;
                assert(other.live(kid));
                assert(self.game_tree@[kid].parent == other.game_tree@[kid].parent);
            }
            assert forall|i: int, k1: int, k2: int|
                self.live(i) && 0 <= k1 < k2 < self.game_tree@[i].children@.len()
                implies #[trigger] self.game_tree@[i].children@[k1]
                != #[trigger] self.game_tree@[i].children@[k2] by {
                assert(other.live(i));
                assert(self.game_tree@[i].children == other.game_tree@[i].children);
                assert(other.game_tree@[i].children@[k1] != other.game_tree@[i].children@[k2]);
            }
            assert forall|i: int| #[trigger]
                self.live(i) && self.game_tree@[i].is_terminal
                implies self.game_tree@[i].children@.len() == 0 by {
                assert(other.live(i));
                assert(self.game_tree@[i].children == other.game_tree@[i].children);
            }
        }
        assert forall|i: int, k: int| self.descends(i, k) == other.descends(i, k) by {
            if self.live(i) && self.live(k) && self.depth@[i] >= self.depth@[k] {
                self.lemma_same_shape_ancestor(other, i, (self.depth@[i] - self.depth@[k]) as nat);
            }
        }
    }

    /// In two arenas that hold the same tree a node has the same ancestors.
    pub proof fn lemma_same_shape_ancestor(&self, other: MCTS, i: int, steps: nat)
        requires
            other.wf(),
            self.same_shape(other),
            other.live(i),
            steps <= other.depth@[i],
        ensures
            self.ancestor(i, steps) == other.ancestor(i, steps),
            other.live(other.ancestor(i, steps)),
        decreases steps,
    {
        if steps > 0 {
            assert(self.game_tree@[i].parent == other.game_tree@[i].parent);
            if i == other.prev_root {
                assert(other.depth@[i] == 0);
            }
            self.lemma_same_shape_ancestor(other, other.parent_of(i), (steps - 1) as nat);
        }
    }

    /// The ancestor one step further up is the parent of the ancestor.
    pub proof fn lemma_ancestor_step(&self, i: int, steps: nat)
        ensures
            self.ancestor(i, steps + 1) == self.parent_of(self.ancestor(i, steps)),
        decreases steps,
    {
        if steps > 0 {
            self.lemma_ancestor_step(self.parent_of(i), (steps - 1) as nat);
            assert(self.ancestor(i, steps) == self.ancestor(self.parent_of(i), (steps - 1) as nat));
        } else {
            assert(self.ancestor(i, 1) == self.ancestor(self.parent_of(i), 0));
        }
    }

    /// The parent of an ancestor of `i` is an ancestor of `i`.
    pub proof fn lemma_descends_up(&self, i: int, k: int)
        requires
            self.wf(),
            self.descends(i, k),
            k != self.prev_root,
        ensures
            self.descends(i, self.parent_of(k)),
    {
        let steps = (self.depth@[i] - self.depth@[k]) as nat;
        self.lemma_ancestor_step(i, steps);
        assert(self.live(k));
    }

    /// The ancestors of a node lie at different depths.
    pub proof fn lemma_ancestor_unique(&self, i: int, k1: int, k2: int)
        requires
            self.descends(i, k1),
            self.descends(i, k2),
            self.depth@[k1] == self.depth@[k2],
        ensures
            k1 == k2,
    {
    }

    /// A node below `k` other than `k` has its parent below `k` too, and is
    /// not the root.
    pub proof fn lemma_descends_parent(&self, i: int, k: int)
        requires
            self.wf(),
            self.descends(i, k),
            i != k,
        ensures
            i != self.prev_root,
            self.descends(self.parent_of(i), k),
            self.depth@[i] > self.depth@[k],
    {
        let steps = (self.depth@[i] - self.depth@[k]) as nat;
        if steps == 0 {
            assert(self.ancestor(i, 0) == i);
        }
        assert(self.ancestor(i, steps) == self.ancestor(self.parent_of(i), (steps - 1) as nat));
        assert(self.live(i));
        if i == self.prev_root {
            assert(self.depth@[i] == 0);
        }
    }

    /// A node whose parent lies below `k` lies below `k`.
    pub proof fn lemma_descends_child(&self, i: int, k: int)
        requires
            self.wf(),
            self.live(i),
            i != self.prev_root,
            self.descends(self.parent_of(i), k),
        ensures
            self.descends(i, k),
    {
        let steps = (self.depth@[i] - self.depth@[k]) as nat;
        assert(self.depth@[i] == self.depth@[self.parent_of(i)] + 1);
        assert(self.ancestor(i, steps) == self.ancestor(self.parent_of(i), (steps - 1) as nat));
    }

    /// Every node lies below itself.
    pub proof fn lemma_descends_self(&self, k: int)
        requires
            self.live(k),
        ensures
            self.descends(k, k),
    {
        assert(self.ancestor(k, 0) == k);
    }

    /// Every node of the tree lies below the root.
    pub proof fn lemma_descends_root(&self, i: int)
        requires
            self.wf(),
            self.live(i),
        ensures
            self.prev_root != 0,
            self.descends(i, self.prev_root as int),
        decreases self.depth@[i],
    {
        if self.prev_root == 0 {
            assert(!self.game_tree@[i].is_used);
        }
        if i == self.prev_root {
            self.lemma_descends_self(i);
        } else {
            self.lemma_descends_root(self.parent_of(i));
            self.lemma_descends_child(i, self.prev_root as int);
        }
    }

    /// Makes an arena of `capacity` free slots, without a tree in it.
    pub fn new(capacity: usize) -> (tree: MCTS)
        ensures
            tree.wf(),
            tree.size == capacity,
            tree.node_index == 0,
            tree.node_used_count == 0,
            tree.prev_root == 0,
            forall|i: int| 0 <= i < capacity ==> (#[trigger] tree.game_tree@[i]).cleared(),
    {
        let mut game_tree: Vec<Node> = Vec::new();
        let mut i: usize = 0;
        while i < capacity
            invariant
                i <= capacity,
                game_tree@.len() == i,
                forall|j: int| 0 <= j < i ==> (#[trigger] game_tree@[j]).cleared(),
            decreases capacity - i,
        {
            game_tree.push(Node::new(0, Move::null(), 0, false));
            i += 1;
        }
        let tree = MCTS {
            size: capacity,
            game_tree: game_tree,
            node_index: 0,
            node_used_count: 0,
            prev_root: 0,
            depth: Ghost(Seq::new(capacity as nat, |j: int| 0nat)),
            height: Ghost(Seq::new(capacity as nat, |j: int| 0nat)),
        };
        proof {
            lemma_used_count_zero(tree.game_tree@);
        }
        tree
    }

    /// Returns the number of used slots, slot 0 counted as one.
    pub fn get_nodes(&self) -> (r: usize)
        ensures
            r == self.node_used_count,
    {
        self.node_used_count
    }

    /// Returns the share of the arena that is in use, in fixed point and
    /// rounded down.
    pub fn get_usage(&self) -> (r: u64)
        requires
            self.wf(),
            self.size > 0,
        ensures
            r == (self.node_used_count as int * UNIT as int) / (self.size as int),
            r <= UNIT,
    {
        proof {
            lemma_used_count_sentinel(self.game_tree@);
        }
        let count: u64 = self.node_used_count as u64;
        let size: u64 = self.size as u64;
        assert(0 <= (count as int) * (UNIT as int) <= (size as int) * (UNIT as int) <=
            0xffff_ffff_ffff_ffff
            * 0x1_0000_0000) by (nonlinear_arith)
            requires
                0 <= count <= size <= 0xffff_ffff_ffff_ffff,
                UNIT == 0x1_0000_0000,
        ;
        let scaled: u128 = (count as u128) * (UNIT as u128);
        let share: u128 = scaled / (size as u128);
        assert(share <= UNIT) by (nonlinear_arith)
            requires
                share == scaled as int / size as int,
                size >= 1,
                0 <= scaled <= (size as int) * (UNIT as int),
        ;
        share as u64
    }

    /// Returns whether the node has been evaluated: it is terminal or has
    /// children.
    pub fn expanded(&self, node: usize) -> (r: bool)
        requires
            node < self.game_tree@.len(),
        ensures
            r == (self.game_tree@[node as int].is_terminal || self.game_tree@[node as
                int].children@.len()
                > 0),
    {
        self.game_tree[node].is_terminal || self.game_tree[node].expanded()
    }
}

} // verus!
