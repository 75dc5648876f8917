//! Drawing the move to play from the visit counts of the root's children.

use vstd::prelude::*;
use rand::Rng;
use crate::moves::Move;
use crate::tree::MCTS;

verus! {

/// The sum of `weights`.
pub open spec fn total_weight(weights: Seq<u32>) -> int
    decreases weights.len(),
{
    if weights.len() == 0 {
        0
    } else {
        total_weight(weights.drop_last()) + weights.last()
    }
}

/// The sum of the first `count` of `weights`.
pub open spec fn weight_before(weights: Seq<u32>, count: int) -> int {
    total_weight(weights.subrange(0, count))
}

/// `draw` falls on the `j`-th weight: the weights before it sum to at most
/// `draw`, and together with it they sum to more. A `draw` that is not below
/// the sum of all weights falls behind the last of them.
pub open spec fn lands_on(weights: Seq<u32>, draw: int, j: int) -> bool {
    &&& 0 <= j <= weights.len()
    &&& weight_before(weights, j) <= draw
    &&& j < weights.len() ==> draw < weight_before(weights, j + 1)
}

/// A longer run of the weights does not sum to less.
pub proof fn lemma_weight_monotone(weights: Seq<u32>, i: int, j: int)
    requires
        0 <= i <= j <= weights.len(),
    ensures
        weight_before(weights, i) <= weight_before(weights, j),
    decreases j - i,
{
    if i < j {
        lemma_weight_monotone(weights, i, j - 1);
        assert(weights.subrange(0, j).drop_last() =~= weights.subrange(0, j - 1));
    }
}

/// A draw falls on one weight only.
pub proof fn lemma_lands_once(weights: Seq<u32>, draw: int, i: int, j: int)
    requires
        lands_on(weights, draw, i),
        lands_on(weights, draw, j),
    ensures
        i == j,
{
    if i < j {
        lemma_weight_monotone(weights, i + 1, j);
    } else if j < i {
        lemma_weight_monotone(weights, j + 1, i);
    }
}

/// A draw below the sum of all weights falls on a weight that is not zero.
pub proof fn lemma_lands_inside(weights: Seq<u32>, draw: int, j: int)
    requires
        lands_on(weights, draw, j),
        draw < total_weight(weights),
    ensures
        j < weights.len(),
        weights[j] > 0,
{
    assert(weights.subrange(0, weights.len() as int) =~= weights);
    if j < weights.len() {
        assert(weights.subrange(0, j + 1).drop_last() =~= weights.subrange(0, j));
    }
}

/// Returns the place of the weight that `draw` falls on, or the number of
/// weights where `draw` is not below their sum.
pub fn pick_by_weight(weights: &Vec<u32>, draw: u64) -> (j: usize)
    requires
        weights@.len() <= u32::MAX,
    ensures
        lands_on(weights@, draw as int, j as int),
{
    let mut cum: u64 = 0;
    let mut j: usize = 0;
    while j < weights.len()
        invariant
            weights@.len() <= u32::MAX,
            j <= weights@.len(),
            cum == weight_before(weights@, j as int),
            cum <= j * 0xffff_ffff,
            cum <= draw,
        decreases weights@.len() - j,
    {
        assert(weights@.subrange(0, j as int + 1).drop_last() =~= weights@.subrange(0, j as int));
        let next: u64 = cum + weights[j] as u64;
        if draw < next {
            return j;
        }
        cum = next;
        j += 1;
    }
    j
}

/// Returns the sum of `weights`.
pub fn sum_weights(weights: &Vec<u32>) -> (total: u64)
    requires
        weights@.len() <= u32::MAX,
    ensures
        total == total_weight(weights@),
{
    let mut total: u64 = 0;
    let mut j: usize = 0;
    while j < weights.len()
        invariant
            weights@.len() <= u32::MAX,
            j <= weights@.len(),
            total == weight_before(weights@, j as int),
            total <= j * 0xffff_ffff,
        decreases weights@.len() - j,
    {
        assert(weights@.subrange(0, j as int + 1).drop_last() =~= weights@.subrange(0, j as int));
        total = total + weights[j] as u64;
        j += 1;
    }
    assert(weights@.subrange(0, weights@.len() as int) =~= weights@);
    total
}

/// Draws a number below `bound` with `rand::Rng::gen_range` on the generator
/// of the thread. The contract claims the range of the result, `0 <= r <
/// bound`, and nothing about its distribution. It leaves out `bound == 0`, on
/// which `gen_range` panics.
#[verifier::external_body]
pub(crate) fn uniform_below(bound: u64) -> (r: u64)
    requires
        bound > 0,
    ensures
        r < bound,
{
    rand::thread_rng().gen_range(0u64, bound)
}

impl MCTS {
    /// `m` is the move that a draw among the children of `node` gives, where
    /// the `j`-th child has the weight `weights[j]`: the move of the child on
    /// whose weight `draw` falls, and the move of the first child where all
    /// weights are zero.
    pub open spec fn drawn(&self, node: int, weights: Seq<u32>, draw: int, m: Move) -> bool {
        let kids = self.game_tree@[node].children@;
        &&& weights.len() == kids.len()
        &&& if total_weight(weights) == 0 {
            m == self.game_tree@[kids[0] as int].m
        } else {
            exists|j: int|
                0 <= j < kids.len() && lands_on(weights, draw, j) && 0 <= draw < total_weight(
                    weights,
                ) && m == self.game_tree@[#[trigger] kids[j] as int].m
        }
    }

    /// Returns the move of the child of `node` on whose weight `draw` falls.
    pub fn move_at(&self, node: usize, weights: &Vec<u32>, draw: u64) -> (m: Move)
        requires
            self.wf(),
            self.live(node as int),
            weights@.len() == self.game_tree@[node as int].children@.len(),
            0 < weights@.len() <= u32::MAX,
            draw < total_weight(weights@) || total_weight(weights@) == 0,
        ensures
            self.drawn(node as int, weights@, draw as int, m),
    {
        let total = sum_weights(weights);
        let j: usize = if total == 0 {
            0
        } else {
            let j = pick_by_weight(weights, draw);
            proof {
                lemma_lands_inside(weights@, draw as int, j as int);
            }
            j
        };
        let child = self.game_tree[node].children[j];
        assert(self.live(self.game_tree@[node as int].children@[j as int] as int));
        self.game_tree[child].m
    }

    /// The weights with which `softmax_sample` draws: each child has the
    /// weight that `weigh` gives its visit count.
    pub open spec fn visit_weights<W: Fn(u32) -> u32>(
        &self,
        weigh: W,
        node: int,
        weights: Seq<u32>,
    ) -> bool {
        let kids = self.game_tree@[node].children@;
        &&& weights.len() == kids.len()
        &&& forall|j: int|
            0 <= j < kids.len() ==> call_ensures(
                weigh,
                (self.game_tree@[kids[j] as int].n,),
                #[trigger] weights[j],
            )
    }

    /// The weights with which `softmax_sample_among_top_moves` draws: a
    /// child whose mean value lies more than `away` below that of the most
    /// visited child has the weight zero, every other child the weight that
    /// `weigh` gives its visit count.
    pub open spec fn top_weights<W: Fn(u32) -> u32>(
        &self,
        weigh: W,
        node: int,
        away: u64,
        weights: Seq<u32>,
    ) -> bool {
        let kids = self.game_tree@[node].children@;
        let best_q = self.game_tree@[self.most_visited(node) as int].q_value();
        &&& weights.len() == kids.len()
        &&& forall|j: int|
            0 <= j < kids.len() ==> if self.game_tree@[kids[j] as int].q_value() < best_q - away {
                #[trigger] weights[j] == 0
            } else {
                call_ensures(weigh, (self.game_tree@[kids[j] as int].n,), weights[j])
            }
    }

    /// Draws a child of `node` with the given weights and returns its move.
    fn sample_weighted(&self, node: usize, weights: &Vec<u32>) -> (m: Move)
        requires
            self.wf(),
            self.live(node as int),
            weights@.len() == self.game_tree@[node as int].children@.len(),
            0 < weights@.len() <= u32::MAX,
        ensures
            exists|draw: int| self.drawn(node as int, weights@, draw, m),
    {
        let total = sum_weights(weights);
        let draw: u64 = if total == 0 {
            0
        } else {
            uniform_below(total)
        };
        let m = self.move_at(node, weights, draw);
        assert(self.drawn(node as int, weights@, draw as int, m));
        m
    }

    /// Sample a move to play along the number of visitations for each node.
    ///
    /// A child is drawn with a probability proportional to the weight that
    /// `weigh` gives its visit count: the visit count to the power of one
    /// over the temperature. Where all weights are zero the move of the
    /// first child is returned.
    pub fn softmax_sample<W: Fn(u32) -> u32>(&self, node: usize, weigh: &W) -> (m: Move)
        requires
            self.wf(),
            self.live(node as int),
            0 < self.game_tree@[node as int].children@.len() <= u32::MAX,
            forall|n: u32| call_requires(*weigh, (n,)),
        ensures
            exists|weights: Seq<u32>, draw: int|
                self.visit_weights(*weigh, node as int, weights) && #[trigger] self.drawn(
                    node as int,
                    weights,
                    draw,
                    m,
                ),
    {
        let len = self.game_tree[node].children.len();
        let mut weights: Vec<u32> = Vec::new();
        let mut j: usize = 0;
        while j < len
            invariant
                self.wf(),
                self.live(node as int),
                len == self.game_tree@[node as int].children@.len(),
                forall|n: u32| call_requires(*weigh, (n,)),
                j <= len,
                weights@.len() == j,
                forall|a: int|
                    0 <= a < j ==> call_ensures(
                        *weigh,
                        (self.game_tree@[self.game_tree@[node as int].children@[a] as int].n,),
                        #[trigger] weights@[a],
                    ),
            decreases len - j,
        {
            let child = self.game_tree[node].children[j];
            assert(self.live(self.game_tree@[node as int].children@[j as int] as int));
            let w = weigh(self.game_tree[child].n);
            weights.push(w);
            j += 1;
        }
        let m = self.sample_weighted(node, &weights);
        proof {
            let draw = choose|draw: int| self.drawn(node as int, weights@, draw, m);
            assert(self.visit_weights(*weigh, node as int, weights@) && self.drawn(
                node as int,
                weights@,
                draw,
                m,
            ));
        }
        m
    }

    /// Sample a move to play among top moves.
    ///
    /// Works as `softmax_sample` does, but a child whose mean value lies more
    /// than `away` below that of the most visited child is never drawn.
    pub fn softmax_sample_among_top_moves<W: Fn(u32) -> u32>(
        &self,
        node: usize,
        away: u64,
        weigh: &W,
    ) -> (m: Move)
        requires
            self.wf(),
            self.live(node as int),
            0 < self.game_tree@[node as int].children@.len() <= u32::MAX,
            forall|n: u32| call_requires(*weigh, (n,)),
        ensures
            exists|weights: Seq<u32>, draw: int|
                self.top_weights(*weigh, node as int, away, weights) && #[trigger] self.drawn(
                    node as int,
                    weights,
                    draw,
                    m,
                ),
    {
        let best_child: usize = self.select_n_max_child(node);
        let best_q: i128 = self.game_tree[best_child].q();
        let len = self.game_tree[node].children.len();
        let mut weights: Vec<u32> = Vec::new();
        let mut j: usize = 0;
        proof {
            let nd = self.game_tree@[best_child as int];
            assert(-0x1_0000_0000_0000_0000 <= best_q <= 0x1_0000_0000) by (nonlinear_arith)
                requires
                    best_q == nd.q_value(),
                    nd.q_value() == if nd.n + nd.virtual_loss == 0 {
                        0
                    } else {
                        0x1_0000_0000 - (nd.w + nd.virtual_loss * 0x1_0000_0000) / (nd.n
                            + nd.virtual_loss)
                    },
                    0 <= nd.w <= 0xffff_ffff_ffff_ffff,
                    0 <= nd.virtual_loss <= 0xffff_ffff,
                    0 <= nd.n <= 0xffff_ffff,
            ;
        }
        let floor: i128 = best_q - away as i128;
        while j < len
            invariant
                self.wf(),
                self.live(node as int),
                len == self.game_tree@[node as int].children@.len(),
                forall|n: u32| call_requires(*weigh, (n,)),
                j <= len,
                weights@.len() == j,
                floor == self.game_tree@[self.most_visited(node as int) as int].q_value() - away,
                forall|a: int|
                    0 <= a < j ==> if self.game_tree@[self.game_tree@[node as int].children@[a] as
                        int].q_value()
                        < floor {
                        #[trigger] weights@[a] == 0
                    } else {
                        call_ensures(
                            *weigh,
                            (self.game_tree@[self.game_tree@[node as int].children@[a] as int].n,),
                            weights@[a],
                        )
                    },
            decreases len - j,
        {
            let child = self.game_tree[node].children[j];
            assert(self.live(self.game_tree@[node as int].children@[j as int] as int));
            let q = self.game_tree[child].q();
            let w: u32 = if q < floor {
                0
            } else {
                weigh(self.game_tree[child].n)
            };
            weights.push(w);
            j += 1;
        }
        let m = self.sample_weighted(node, &weights);
        proof {
            let draw = choose|draw: int| self.drawn(node as int, weights@, draw, m);
            assert(self.top_weights(*weigh, node as int, away, weights@) && self.drawn(
                node as int,
                weights@,
                draw,
                m,
            ));
        }
        m
    }
}

} // verus!
