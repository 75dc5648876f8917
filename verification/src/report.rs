//! What a search has found: the principal variation and the most visited part
//! of the tree.

use vstd::prelude::*;
use crate::moves::Move;
use crate::select::{argmax, lemma_argmax};
use crate::tree::MCTS;

verus! {

impl MCTS {
    /// The nodes of the principal variation below `node`: from each node on
    /// to its most visited child, until a node has no children. `fuel` bounds
    /// the number of steps.
    pub open spec fn pv(&self, node: int, fuel: nat) -> Seq<usize>
        decreases fuel,
    {
        if fuel == 0 || self.game_tree@[node].children@.len() == 0 {
            Seq::empty()
        } else {
            seq![self.most_visited(node)] + self.pv(
                self.most_visited(node) as int,
                (fuel - 1) as nat,
            )
        }
    }

    /// The principal variation below `node`, to its end.
    pub open spec fn principal_variation(&self, node: int) -> Seq<usize> {
        self.pv(node, self.height@[node])
    }

    /// The principal variation ends within as many steps as the node is high.
    pub proof fn lemma_pv_fuel(&self, node: int, fuel: nat)
        requires
            self.wf(),
            self.live(node),
            fuel >= self.height@[node],
        ensures
            self.pv(node, fuel) == self.pv(node, self.height@[node]),
        decreases fuel,
    {
        let kids = self.game_tree@[node].children@;
        if kids.len() > 0 {
            lemma_argmax(self.child_visits(node));
            let c = self.most_visited(node);
            let j = argmax(self.child_visits(node));
            assert(c == self.game_tree@[node].children@[j]);
            assert(self.live(c as int));
            assert(self.height@[c as int] < self.height@[node]);
            self.lemma_pv_fuel(c as int, (fuel - 1) as nat);
            self.lemma_pv_fuel(c as int, (self.height@[node] - 1) as nat);
        }
    }

    /// Return pv information: the moves of the principal variation below
    /// `node`, and the mean value of its first move for the side to move at
    /// `node`; 0 where `node` has no children.
    #[verifier::rlimit(60)]
    pub fn info(&self, node: usize) -> (r: (Vec<Move>, i128))
        requires
            self.wf(),
            self.live(node as int),
        ensures
            r.0@.len() == self.principal_variation(node as int).len(),
            forall|k: int|
                0 <= k < r.0@.len() ==> #[trigger] r.0@[k] ==
                    self.game_tree@[self.principal_variation(
                    node as int,
                )[k] as int].m,
            r.1 == if self.principal_variation(node as int).len() == 0 {
                0
            } else {
                self.game_tree@[self.principal_variation(node as int)[0] as int].q_value()
            },
    {
        let mut pv_moves: Vec<Move> = Vec::new();
        let mut q: i128 = 0;
        let mut pn: usize = node;
        let ghost line: Seq<usize> = Seq::empty();
        let ghost whole = self.principal_variation(node as int);
        assert(line + self.pv(pn as int, self.height@[pn as int]) =~= whole);
        while self.game_tree[pn].expanded()
            invariant
                self.wf(),
                self.live(pn as int),
                whole == self.principal_variation(node as int),
                line + self.pv(pn as int, self.height@[pn as int]) == whole,
                pv_moves@.len() == line.len(),
                forall|k: int|
                    0 <= k < line.len() ==> #[trigger] pv_moves@[k] == self.game_tree@[line[k] as
                        int].m,
                q == if line.len() == 0 {
                    0
                } else {
                    self.game_tree@[line[0] as int].q_value()
                },
            decreases self.height@[pn as int],
        {
            let ghost upper = pn as int;
            pn = self.select_n_max_child(pn);
            proof {
                self.lemma_pv_fuel(pn as int, (self.height@[upper] - 1) as nat);
                let k = choose|k: int|
                    0 <= k < self.game_tree@[upper].children@.len()
                        && self.game_tree@[upper].children@[k] == pn;
                assert(self.height@[self.game_tree@[upper].children@[k] as int] <
                    self.height@[upper]);
                assert(self.pv(upper, self.height@[upper]) == seq![pn] + self.pv(
                    pn as int,
                    (self.height@[upper] - 1) as nat,
                ));
                assert(line.push(pn) + self.pv(pn as int, self.height@[pn as int]) =~= line +
                    (seq![pn]
                    + self.pv(pn as int, self.height@[pn as int])));
            }
            pv_moves.push(self.game_tree[pn].m);
            if pv_moves.len() == 1 {
                q = self.game_tree[pn].q();
            }
            proof {
                line = line.push(pn);
            }
        }
        proof {
            assert(line =~= whole);
        }
        (pv_moves, q)
    }

    /// The visit counts of the nodes in `frontier`.
    pub open spec fn frontier_visits(&self, frontier: Seq<usize>) -> Seq<int> {
        Seq::new(frontier.len(), |k: int| self.game_tree@[frontier[k] as int].n as int)
    }

    /// The nodes that a best-first walk takes, in the order in which it takes
    /// them. The walk takes the most visited node of `frontier`, the first of
    /// them where several have as many visits; the last node of the frontier
    /// moves into its place and its children join the end of the frontier. It
    /// goes on until it has taken `budget` nodes or the frontier is empty.
    pub open spec fn best_first(&self, frontier: Seq<usize>, budget: nat) -> Seq<usize>
        decreases budget,
    {
        if budget == 0 || frontier.len() == 0 {
            Seq::empty()
        } else {
            let i = argmax(self.frontier_visits(frontier));
            seq![frontier[i]] + self.best_first(
                frontier.update(i, frontier.last()).drop_last()
                    + self.game_tree@[frontier[i] as int].children@,
                (budget - 1) as nat,
            )
        }
    }

    /// Returns the place in `nodes` of the most visited node, the first of
    /// them where several have as many visits.
    fn most_visited_of(&self, nodes: &Vec<usize>) -> (r: usize)
        requires
            nodes@.len() > 0,
            forall|k: int| 0 <= k < nodes@.len() ==> #[trigger] nodes@[k] < self.game_tree@.len(),
        ensures
            r == argmax(self.frontier_visits(nodes@)),
            r < nodes@.len(),
    {
        let ghost ranks = self.frontier_visits(nodes@);
        let mut best: usize = 0;
        let mut n_max: u32 = self.game_tree[nodes[0]].n;
        let mut k: usize = 1;
        assert(ranks.subrange(0, 1).len() == 1);
        while k < nodes.len()
            invariant
                forall|a: int| 0 <= a < nodes@.len() ==> #[trigger] nodes@[a] <
                    self.game_tree@.len(),
                ranks == self.frontier_visits(nodes@),
                1 <= k <= nodes@.len(),
                best == argmax(ranks.subrange(0, k as int)),
                best < k,
                n_max == ranks[best as int],
            decreases nodes@.len() - k,
        {
            proof {
                let prefix = ranks.subrange(0, k as int + 1);
                assert(prefix.drop_last() =~= ranks.subrange(0, k as int));
            }
            if self.game_tree[nodes[k]].n > n_max {
                n_max = self.game_tree[nodes[k]].n;
                best = k;
            }
            k += 1;
        }
        proof {
            assert(ranks.subrange(0, nodes@.len() as int) =~= ranks);
        }
        best
    }

    /// Return the nodes to draw for a picture of the search tree: up to
    /// `node_num` nodes below `node`, `node` included, taken best-first by
    /// their visit counts. Every node but `node` is drawn with the edge from
    /// its parent.
    #[verifier::rlimit(60)]
    pub fn visualize(&self, node: usize, node_num: usize) -> (r: Vec<usize>)
        requires
            self.wf(),
            self.live(node as int),
        ensures
            r@ == self.best_first(seq![node], node_num as nat),
            forall|k: int| 0 <= k < r@.len() ==> self.live(#[trigger] r@[k] as int),
    {
        let mut drawn: Vec<usize> = Vec::new();
        let mut nodes: Vec<usize> = Vec::new();
        let mut counter: usize = 0;
        nodes.push(node);
        assert(nodes@ =~= seq![node]);
        assert(drawn@ + self.best_first(nodes@, node_num as nat) =~= self.best_first(
            seq![node],
            node_num as nat,
        ));
        while counter < node_num && nodes.len() > 0
            invariant
                self.wf(),
                counter <= node_num,
                forall|k: int| 0 <= k < nodes@.len() ==> self.live(#[trigger] nodes@[k] as int),
                forall|k: int| 0 <= k < drawn@.len() ==> self.live(#[trigger] drawn@[k] as int),
                drawn@ + self.best_first(nodes@, (node_num - counter) as nat) == self.best_first(
                    seq![node],
                    node_num as nat,
                ),
            decreases node_num - counter,
        {
            let ghost frontier = nodes@;
            let ghost before = drawn@;
            assert forall|k: int| 0 <= k < nodes@.len() implies #[trigger] nodes@[k]
                < self.game_tree@.len() by {
                assert(self.live(nodes@[k] as int));
            }
            let index = self.most_visited_of(&nodes);
            let top = nodes.swap_remove(index);
            assert(self.live(frontier[index as int] as int));
            let ghost shrunk = nodes@;
            assert forall|k: int| 0 <= k < shrunk.len() implies self.live(
                #[trigger] shrunk[k] as int,
            ) by {
                if k == index {
                    assert(self.live(frontier[frontier.len() - 1] as int));
                } else {
                    assert(self.live(frontier[k] as int));
                }
            }
            drawn.push(top);
            counter += 1;
            let len = self.game_tree[top].children.len();
            let mut k: usize = 0;
            while k < len
                invariant
                    self.wf(),
                    self.live(top as int),
                    len == self.game_tree@[top as int].children@.len(),
                    k <= len,
                    nodes@ == shrunk + self.game_tree@[top as int].children@.subrange(0, k as int),
                decreases len - k,
            {
                let child = self.game_tree[top].children[k];
                nodes.push(child);
                assert(self.game_tree@[top as int].children@.subrange(0, k as int).push(child)
                    =~= self.game_tree@[top as int].children@.subrange(0, k as int + 1));
                k += 1;
            }
            proof {
                let kids = self.game_tree@[top as int].children@;
                assert(kids.subrange(0, len as int) =~= kids);
                assert forall|a: int| 0 <= a < nodes@.len() implies self.live(
                    #[trigger] nodes@[a] as int,
                ) by {
                    if a < shrunk.len() {
                        assert(nodes@[a] == shrunk[a]);
                    } else {
                        assert(nodes@[a] == kids[a - shrunk.len()]);
                        assert(self.live(self.game_tree@[top as int].children@[a - shrunk.len()] as
                            int));
                    }
                }
                assert forall|a: int| 0 <= a < drawn@.len() implies self.live(
                    #[trigger] drawn@[a] as int,
                ) by {
                    if a < before.len() {
                        assert(drawn@[a] == before[a]);
                    }
                }
                assert(drawn@ + self.best_first(nodes@, (node_num - counter) as nat) =~= before +
                    (seq![top]
                    + self.best_first(nodes@, (node_num - counter) as nat)));
            }
        }
        proof {
            assert(self.best_first(nodes@, (node_num - counter) as nat) =~= Seq::<usize>::empty());
            assert(drawn@ + Seq::<usize>::empty() =~= drawn@);
        }
        drawn
    }
}

} // verus!
