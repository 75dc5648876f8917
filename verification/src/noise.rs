//! Mixing exploration noise into the priors of the root's children.

use vstd::prelude::*;
use crate::fixed::UNIT;
use crate::node::Node;
use crate::tree::MCTS;

verus! {

/// The prior `p` after noise has been mixed in: three quarters of the prior
/// and one quarter of the noise, rounded down.
pub open spec fn mixed(p: u64, noise: u64) -> int {
    (3 * p + noise) / 4
}

/// Returns `mixed(p, noise)`.
pub fn mix(p: u64, noise: u64) -> (r: u64)
    ensures
        r == mixed(p, noise),
        p <= UNIT && noise <= UNIT ==> r <= UNIT,
{
    ((3 * (p as u128) + noise as u128) / 4) as u64
}

impl MCTS {
    /// This tree is `before` with the first `count` children of `node`
    /// given their share of `noise`.
    pub open spec fn noised(&self, before: MCTS, node: int, noise: Seq<u64>, count: int) -> bool {
        let kids = before.game_tree@[node].children@;
        &&& self.same_shape(before)
        &&& forall|j: int|
            0 <= j < count ==> self.game_tree@[#[trigger] kids[j] as int] == (Node {
                p: mixed(before.game_tree@[kids[j] as int].p, noise[j]) as u64,
                ..before.game_tree@[kids[j] as int]
            })
        &&& forall|i: int|
            0 <= i < self.game_tree@.len() && !kids.subrange(0, count).contains(i as usize)
                ==> #[trigger] self.game_tree@[i] == before.game_tree@[i]
    }

    /// Add noise to the priors of the children of `node`: the `i`-th child
    /// gets the prior `0.75 * p + 0.25 * noise[i]`.
    ///
    /// `noise` is a sample of a Dirichlet distribution: independent draws from
    /// a Gamma distribution of shape 0.34, divided by their sum.
    #[verifier::rlimit(60)]
    pub fn add_noise(&mut self, node: usize, noise: &Vec<u64>)
        requires
            old(self).wf(),
            old(self).live(node as int),
            noise@.len() == old(self).game_tree@[node as int].children@.len(),
        ensures
            final(self).wf(),
            final(self).noised(*old(self), node as int, noise@, noise@.len() as int),
            old(self).bounded() && (forall|j: int|
                0 <= j < noise@.len() ==> #[trigger] noise@[j] <= UNIT) ==> final(self).bounded(),
    {
        let ghost t0 = *self;
        let ghost kids = self.game_tree@[node as int].children@;
        let len = self.game_tree[node].children.len();
        let mut j: usize = 0;
        assert(kids.subrange(0, 0) =~= Seq::<usize>::empty());
        while j < len
            invariant
                t0.wf(),
                t0.live(node as int),
                kids == t0.game_tree@[node as int].children@,
                len == kids.len(),
                noise@.len() == len,
                j <= len,
                self.noised(t0, node as int, noise@, j as int),
            decreases len - j,
        {
            let ghost before = *self;
            assert(self.game_tree@[node as int].children == t0.game_tree@[node as int].children);
            let child = self.game_tree[node].children[j];
            proof {
                assert(t0.live(kids[j as int] as int));
                assert(!kids.subrange(0, j as int).contains(child)) by {
                    if kids.subrange(0, j as int).contains(child) {
                        let a = choose|a: int|
                            0 <= a < j && kids.subrange(0, j as int)[a] == child;
                        assert(kids[a] != kids[j as int]);
                    }
                }
                assert(self.game_tree@[child as int] == t0.game_tree@[child as int]);
            }
            let p = mix(self.game_tree[child].p, noise[j]);
            self.game_tree[child].p = p;
            proof {
                assert forall|i: int| 0 <= i < self.game_tree@.len() implies {
                    &&& (#[trigger] self.game_tree@[i]).is_used == t0.game_tree@[i].is_used
                    &&& self.game_tree@[i].parent == t0.game_tree@[i].parent
                    &&& self.game_tree@[i].children == t0.game_tree@[i].children
                    &&& self.game_tree@[i].is_terminal == t0.game_tree@[i].is_terminal
                    &&& self.game_tree@[i].m == t0.game_tree@[i].m
                    &&& !self.game_tree@[i].is_used ==> self.game_tree@[i] == t0.game_tree@[i]
                } by {
                    if i != child {
                        assert(self.game_tree@[i] == before.game_tree@[i]);
                    }
                }
                assert forall|a: int| 0 <= a < j + 1 implies self.game_tree@[#[trigger] kids[a] as
                    int]
                    == (Node {
                    p: mixed(t0.game_tree@[kids[a] as int].p, noise@[a]) as u64,
                    ..t0.game_tree@[kids[a] as int]
                }) by {
                    if a < j {
                        assert(kids[a] != kids[j as int]);
                        assert(self.game_tree@[kids[a] as int] == before.game_tree@[kids[a] as
                            int]);
                    }
                }
                assert forall|i: int|
                    0 <= i < self.game_tree@.len() && !kids.subrange(0, j + 1).contains(
                        i as usize,
                    ) implies #[trigger] self.game_tree@[i] == t0.game_tree@[i] by {
                    if i == child {
                        assert(kids.subrange(0, j + 1)[j as int] == child);
                    } else {
                        assert(self.game_tree@[i] == before.game_tree@[i]);
                        if kids.subrange(0, j as int).contains(i as usize) {
                            let a = choose|a: int|
                                0 <= a < j && kids.subrange(0, j as int)[a] == i as usize;
                            assert(kids.subrange(0, j + 1)[a] == i as usize);
                        }
                    }
                }
            }
            j += 1;
        }
        proof {
            self.lemma_same_shape_wf(t0);
            if t0.bounded() && (forall|a: int| 0 <= a < noise@.len() ==> #[trigger] noise@[a] <=
                UNIT) {
                assert forall|i: int| #[trigger] self.live(i) implies {
                    &&& self.game_tree@[i].v <= UNIT
                    &&& self.game_tree@[i].p <= UNIT
                    &&& self.game_tree@[i].w <= self.game_tree@[i].n * UNIT
                } by {
                    assert(t0.live(i));
                    if kids.contains(i as usize) {
                        let a = choose|a: int| 0 <= a < kids.len() && kids[a] == i as usize;
                        assert(self.game_tree@[kids[a] as int].n == t0.game_tree@[kids[a] as
                            int].n);
                        assert(noise@[a] <= UNIT);
                        assert(mixed(t0.game_tree@[kids[a] as int].p, noise@[a]) <= UNIT);
                    } else {
                        assert(kids.subrange(0, len as int) =~= kids);
                        assert(self.game_tree@[i] == t0.game_tree@[i]);
                    }
                }
            }
        }
    }
}

} // verus!
