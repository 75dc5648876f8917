//! Clearing the tree and moving its root.

use vstd::prelude::*;
use crate::moves::{Move, null_move};
use crate::node::Node;
use crate::tree::{MCTS, lemma_used_count_update, lemma_used_count_zero, used_count};

verus! {

impl MCTS {
    /// The first of `kids` that is entered by the move `m`.
    pub open spec fn find_move(&self, kids: Seq<usize>, m: Move) -> Option<usize>
        decreases kids.len(),
    {
        if kids.len() == 0 {
            None
        } else if self.game_tree@[kids[0] as int].m == m {
            Some(kids[0])
        } else {
            self.find_move(kids.drop_first(), m)
        }
    }

    /// The child of the root that becomes the new root when the tree is kept:
    /// the first child entered by the last move played.
    pub open spec fn reusable(&self, last_move: Option<Move>, reuse: bool) -> Option<usize> {
        if reuse && self.prev_root != 0 && last_move is Some {
            self.find_move(self.game_tree@[self.prev_root as int].children@, last_move->0)
        } else {
            None
        }
    }

    /// The state in the middle of a sweep that started from the tree `t0` and
    /// spares the subtree of `except`: what is cleared, what is untouched, and
    /// what the stack of nodes still to visit holds.
    spec fn sweeping(&self, t0: MCTS, except: int, stack: Seq<usize>) -> bool {
        &&& self.size == t0.size
        &&& self.game_tree@.len() == t0.game_tree@.len()
        &&& self.node_index == t0.node_index
        &&& self.prev_root == t0.prev_root
        &&& self.depth == t0.depth
        &&& self.height == t0.height
        &&& self.node_used_count == used_count(self.game_tree@) + 1
        &&& t0.node_used_count - self.node_used_count == used_count(t0.game_tree@) - used_count(
            self.game_tree@,
        )
        &&& forall|i: int|
            0 <= i < self.size ==> (#[trigger] self.game_tree@[i]) == t0.game_tree@[i]
                || self.game_tree@[i].cleared()
        &&& forall|i: int| #[trigger]
            t0.descends(i, except) ==> self.game_tree@[i] == t0.game_tree@[i]
        &&& forall|a: int|
            0 <= a < stack.len() ==> {
                &&& t0.live(#[trigger] stack[a] as int)
                &&& self.game_tree@[stack[a] as int] == t0.game_tree@[stack[a] as int]
                &&& (stack[a] == except || !t0.descends(stack[a] as int, except))
                &&& (stack[a] == t0.prev_root || !self.game_tree@[t0.parent_of(
                    stack[a] as int,
                )].is_used)
            }
        &&& forall|a: int, b: int|
            0 <= a < b < stack.len() ==> #[trigger] stack[a] != #[trigger] stack[b]
        &&& forall|i: int|
            #[trigger] t0.live(i) && self.game_tree@[i].is_used && !t0.descends(i, except)
                && !stack.contains(i as usize) ==> i != t0.prev_root &&
                    self.game_tree@[t0.parent_of(
                i,
            )].is_used
        &&& forall|i: int|
            #[trigger] t0.live(i) && i != t0.prev_root && self.game_tree@[t0.parent_of(i)].is_used
                ==> self.game_tree@[i] == t0.game_tree@[i]
    }

    #[verifier::rlimit(60)]
    proof fn lemma_sweep_start(&self, except: int)
        requires
            self.wf(),
            self.prev_root != 0,
            except == 0 || (self.live(except) && self.parent_of(except) == self.prev_root),
        ensures
            self.sweeping(*self, except, seq![self.prev_root]),
    {
        let stack = seq![self.prev_root];
        let root = self.prev_root as int;
        lemma_used_count_zero(self.game_tree@);
        assert(self.game_tree@[root].is_used);
        assert(used_count(self.game_tree@) > 0);
        if except != 0 && self.descends(root, except) {
            if root != except {
                self.lemma_descends_parent(root, except);
            }
            assert(self.live(except));
            assert(false);
        }
        assert forall|i: int|
            #[trigger] self.live(i) && self.game_tree@[i].is_used && !self.descends(i, except)
                && !stack.contains(i as usize) implies i != self.prev_root &&
                    self.game_tree@[self.parent_of(
            i,
        )].is_used by {
            if self.live(i) && !stack.contains(i as usize) {
                assert(stack[0] == self.prev_root);
                assert(i != self.prev_root);
            }
        }
    }

    #[verifier::rlimit(60)]
    proof fn lemma_sweep_skip(&self, t0: MCTS, except: int, stack: Seq<usize>)
        requires
            t0.wf(),
            self.sweeping(t0, except, stack),
            stack.len() > 0,
            stack.last() == except,
        ensures
            self.sweeping(t0, except, stack.drop_last()),
    {
        let rest = stack.drop_last();
        assert(t0.live(stack[stack.len() - 1] as int));
        t0.lemma_descends_self(except);
        assert forall|a: int| 0 <= a < rest.len() implies {
            &&& t0.live(#[trigger] rest[a] as int)
            &&& self.game_tree@[rest[a] as int] == t0.game_tree@[rest[a] as int]
            &&& (rest[a] == except || !t0.descends(rest[a] as int, except))
            &&& (rest[a] == t0.prev_root || !self.game_tree@[t0.parent_of(rest[a] as int)].is_used)
        } by {
            assert(rest[a] == stack[a]);
        }
        assert forall|a: int, b: int| 0 <= a < b < rest.len() implies #[trigger] rest[a]
            != #[trigger] rest[b] by {
            assert(rest[a] == stack[a] && rest[b] == stack[b]);
        }
        assert forall|i: int|
            #[trigger] t0.live(i) && self.game_tree@[i].is_used && !t0.descends(i, except)
                && !rest.contains(i as usize) implies i != t0.prev_root &&
                    self.game_tree@[t0.parent_of(
            i,
        )].is_used by {
            if t0.live(i) && !t0.descends(i, except) && !rest.contains(i as usize) {
                if stack.contains(i as usize) {
                    let a = choose|a: int| 0 <= a < stack.len() && stack[a] == i as usize;
                    if a < rest.len() {
                        assert(rest[a] == i as usize);
                    }
                    assert(false);
                }
            }
        }
    }

    #[verifier::rlimit(60)]
    proof fn lemma_sweep_step(
        &self,
        t0: MCTS,
        before: MCTS,
        except: int,
        stack: Seq<usize>,
        next: Seq<usize>,
        n: int,
    )
        requires
            t0.wf(),
            before.sweeping(t0, except, stack),
            stack.len() > 0,
            n == stack.last(),
            n != except,
            next == stack.drop_last() + before.game_tree@[n].children@,
            self.size == before.size,
            self.game_tree@.len() == before.game_tree@.len(),
            self.node_index == before.node_index,
            self.prev_root == before.prev_root,
            self.depth == before.depth,
            self.height == before.height,
            self.node_used_count == before.node_used_count - 1,
            self.game_tree@[n].cleared(),
            forall|i: int|
                0 <= i < self.game_tree@.len() && i != n ==> #[trigger] self.game_tree@[i]
                    == before.game_tree@[i],
        ensures
            self.sweeping(t0, except, next),
    {
        let rest = stack.drop_last();
        let kids = before.game_tree@[n].children@;
        let last = stack.len() - 1;
        assert(stack[last] == n);
        assert(t0.live(n));
        assert(before.game_tree@[n] == t0.game_tree@[n]);
        assert(!t0.descends(n, except));
        assert(self.game_tree@ =~= before.game_tree@.update(n, self.game_tree@[n]));
        lemma_used_count_update(before.game_tree@, n, self.game_tree@[n]);
        // A child of n is not on the rest of the stack: its parent is still used.
        assert forall|k: int| 0 <= k < kids.len() implies {
            &&& t0.live(#[trigger] kids[k] as int)
            &&& t0.parent_of(kids[k] as int) == n
            &&& kids[k] != n
            &&& kids[k] != t0.prev_root
            &&& before.game_tree@[kids[k] as int] == t0.game_tree@[kids[k] as int]
            &&& (kids[k] == except || !t0.descends(kids[k] as int, except))
            &&& !rest.contains(kids[k])
        } by {
            let c = kids[k] as int;
            assert(t0.game_tree@[n].children@[k] == kids[k]);
            assert(t0.live(c));
            assert(t0.parent_of(c) == n);
            if c == t0.prev_root as int {
                assert(false);
            }
            assert(t0.depth@[c] == t0.depth@[n] + 1);
            if c != except && t0.descends(c, except) {
                t0.lemma_descends_parent(c, except);
            }
            if rest.contains(kids[k]) {
                let a = choose|a: int| 0 <= a < rest.len() && rest[a] == kids[k];
                assert(stack[a] == kids[k]);
            }
        }
        assert forall|i: int| 0 <= i < self.size implies (#[trigger] self.game_tree@[i])
            == t0.game_tree@[i] || self.game_tree@[i].cleared() by {
            if i != n {
                assert(self.game_tree@[i] == before.game_tree@[i]);
            }
        }
        assert forall|i: int| #[trigger] t0.descends(i, except) implies self.game_tree@[i]
            == t0.game_tree@[i] by {
            assert(i != n);
        }
        assert forall|a: int| 0 <= a < next.len() implies {
            &&& t0.live(#[trigger] next[a] as int)
            &&& self.game_tree@[next[a] as int] == t0.game_tree@[next[a] as int]
            &&& (next[a] == except || !t0.descends(next[a] as int, except))
            &&& (next[a] == t0.prev_root || !self.game_tree@[t0.parent_of(next[a] as int)].is_used)
        } by {
            if a < rest.len() {
                assert(next[a] == stack[a]);
                assert(stack[a] != stack[last]);
            } else {
                assert(next[a] == kids[a - rest.len()]);
            }
        }
        assert forall|a: int, b: int| 0 <= a < b < next.len() implies #[trigger] next[a]
            != #[trigger] next[b] by {
            if b < rest.len() {
                assert(next[a] == stack[a] && next[b] == stack[b]);
            } else if a < rest.len() {
                assert(next[a] == rest[a]);
                assert(next[b] == kids[b - rest.len()]);
                assert(rest.contains(rest[a]));
            } else {
                assert(next[a] == t0.game_tree@[n].children@[a - rest.len()]);
                assert(next[b] == t0.game_tree@[n].children@[b - rest.len()]);
            }
        }
        assert forall|i: int|
            #[trigger] t0.live(i) && self.game_tree@[i].is_used && !t0.descends(i, except)
                && !next.contains(i as usize) implies i != t0.prev_root &&
                    self.game_tree@[t0.parent_of(
            i,
        )].is_used by {
            if t0.live(i) && self.game_tree@[i].is_used && !t0.descends(i, except)
                && !next.contains(i as usize) {
                assert(i != n);
                if stack.contains(i as usize) {
                    let a = choose|a: int| 0 <= a < stack.len() && stack[a] == i as usize;
                    assert(a < rest.len());
                    assert(next[a] == i as usize);
                    assert(false);
                }
                assert(i != t0.prev_root && before.game_tree@[t0.parent_of(i)].is_used);
                if t0.parent_of(i) == n {
                    assert(t0.game_tree@[n].children@.contains(i as usize));
                    let k = choose|k: int| 0 <= k < kids.len() && kids[k] == i as usize;
                    assert(next[rest.len() + k] == i as usize);
                    assert(false);
                }
            }
        }
        assert forall|i: int|
            #[trigger] t0.live(i) && i != t0.prev_root && self.game_tree@[t0.parent_of(i)].is_used
            implies self.game_tree@[i] == t0.game_tree@[i] by {
            if t0.live(i) && i != t0.prev_root && self.game_tree@[t0.parent_of(i)].is_used {
                assert(t0.live(t0.parent_of(i)));
                assert(t0.parent_of(i) != n);
                assert(before.game_tree@[t0.parent_of(i)].is_used);
                assert(i != n);
            }
        }
    }

    /// At the end of a sweep every node outside the spared subtree is free.
    proof fn lemma_sweep_done(&self, t0: MCTS, except: int, i: int)
        requires
            t0.wf(),
            self.sweeping(t0, except, Seq::<usize>::empty()),
            t0.live(i),
            !t0.descends(i, except),
        ensures
            !self.game_tree@[i].is_used,
        decreases t0.depth@[i],
    {
        if self.game_tree@[i].is_used {
            assert(!Seq::<usize>::empty().contains(i as usize));
            assert(i != t0.prev_root);
            let p = t0.parent_of(i);
            assert(t0.live(p));
            if t0.descends(p, except) {
                t0.lemma_descends_child(i, except);
            }
            self.lemma_sweep_done(t0, except, p);
        }
    }

    /// Frees every node of the tree but those in the subtree of `except_node`,
    /// which is a child of the root, or 0 to free them all.
    #[verifier::rlimit(60)]
    fn eliminate_except(&mut self, root: usize, except_node: usize)
        requires
            old(self).wf(),
            root == old(self).prev_root,
            root != 0,
            except_node == 0 || (old(self).live(except_node as int) && old(self).parent_of(
                except_node as int,
            ) == root),
        ensures
            final(self).size == old(self).size,
            final(self).game_tree@.len() == old(self).game_tree@.len(),
            final(self).node_index == old(self).node_index,
            final(self).prev_root == old(self).prev_root,
            final(self).depth == old(self).depth,
            final(self).height == old(self).height,
            final(self).node_used_count == used_count(final(self).game_tree@) + 1,
            old(self).node_used_count - final(self).node_used_count == used_count(
                old(self).game_tree@,
            ) - used_count(final(self).game_tree@),
            forall|i: int|
                0 <= i < old(self).size ==> if old(self).descends(i, except_node as int) {
                    (#[trigger] final(self).game_tree@[i]) == old(self).game_tree@[i]
                } else {
                    final(self).game_tree@[i].cleared()
                },
    {
        let ghost t0 = *self;
        let ghost except = except_node as int;
        let mut nodes: Vec<usize> = Vec::new();
        nodes.push(root);
        proof {
            self.lemma_sweep_start(except);
            assert(nodes@ =~= seq![self.prev_root]);
        }
        while nodes.len() > 0
            invariant
                t0.wf(),
                self.sweeping(t0, except, nodes@),
                except == except_node,
            decreases self.node_used_count, nodes.len(),
        {
            let ghost stack = nodes@;
            let n = nodes.pop().unwrap();
            assert(nodes@ =~= stack.drop_last());
            assert(stack[stack.len() - 1] == n);
            assert(t0.live(n as int));
            if n != except_node {
                let kids_len = self.game_tree[n].children.len();
                let ghost rest = nodes@;
                let mut k: usize = 0;
                while k < kids_len
                    invariant
                        k <= kids_len,
                        n < self.game_tree@.len(),
                        kids_len == self.game_tree@[n as int].children@.len(),
                        nodes@ == rest + self.game_tree@[n as int].children@.subrange(0, k as int),
                    decreases kids_len - k,
                {
                    let c = self.game_tree[n].children[k];
                    nodes.push(c);
                    assert(self.game_tree@[n as int].children@.subrange(0, k as int).push(c)
                        =~= self.game_tree@[n as int].children@.subrange(0, k as int + 1));
                    k += 1;
                }
                assert(self.game_tree@[n as int].children@.subrange(0, kids_len as int)
                    =~= self.game_tree@[n as int].children@);
                let ghost before = *self;
                proof {
                    lemma_used_count_zero(self.game_tree@);
                    assert(self.game_tree@[n as int].is_used);
                }
                self.game_tree[n].clear();
                self.node_used_count -= 1;
                proof {
                    self.lemma_sweep_step(t0, before, except, stack, nodes@, n as int);
                }
            } else {
                proof {
                    self.lemma_sweep_skip(t0, except, stack);
                }
            }
        }
        proof {
            assert(nodes@ =~= Seq::<usize>::empty());
            assert forall|i: int| 0 <= i < t0.size implies if t0.descends(i, except) {
                (#[trigger] self.game_tree@[i]) == t0.game_tree@[i]
            } else {
                self.game_tree@[i].cleared()
            } by {
                if !t0.descends(i, except) {
                    if t0.live(i) {
                        self.lemma_sweep_done(t0, except, i);
                    } else {
                        assert(!t0.game_tree@[i].is_used);
                        assert(t0.game_tree@[i].cleared());
                    }
                }
            }
        }
    }

    /// Clear the search tree: every slot becomes free.
    pub fn clear(&mut self)
        requires
            old(self).wf(),
        ensures
            final(self).wf(),
            final(self).size == old(self).size,
            final(self).node_index == 1,
            final(self).node_used_count == 1,
            final(self).prev_root == 0,
            forall|i: int| 0 <= i < final(self).size ==> (#[trigger]
                final(self).game_tree@[i]).cleared(),
    {
        if self.prev_root != 0 {
            let ghost t0 = *self;
            self.eliminate_except(self.prev_root, 0);
            proof {
                assert forall|i: int| 0 <= i < self.size implies (#[trigger]
                    self.game_tree@[i]).cleared() by {
                    assert(!t0.descends(i, 0));
                }
            }
        }
        self.node_index = 1;
        self.node_used_count = 1;
        self.prev_root = 0;
        proof {
            lemma_used_count_zero(self.game_tree@);
        }
    }

    /// What `set_root` leaves when it keeps the subtree of `c`, a child of the
    /// root of `t0`: the nodes below `c` as they were, `c` without a parent,
    /// and every other slot free.
    pub open spec fn rerooted(&self, t0: MCTS, c: int) -> bool {
        &&& self.size == t0.size
        &&& self.game_tree@.len() == t0.game_tree@.len()
        &&& self.node_index == t0.node_index
        &&& self.prev_root == c
        &&& self.game_tree@[c] == (Node { parent: 0, ..t0.game_tree@[c] })
        &&& forall|i: int|
            0 <= i < t0.size && i != c ==> if t0.descends(i, c) {
                (#[trigger] self.game_tree@[i]) == t0.game_tree@[i]
            } else {
                self.game_tree@[i].cleared()
            }
        &&& t0.node_used_count - self.node_used_count == used_count(t0.game_tree@) - used_count(
            self.game_tree@,
        )
    }

    /// What `set_root` leaves when it starts a new tree: slot 1 holds a fresh
    /// root and every other slot is free.
    pub open spec fn fresh_root(&self) -> bool {
        &&& self.prev_root == 1
        &&& self.node_index == 2
        &&& self.node_used_count == 2
        &&& self.game_tree@[1].fresh(0, null_move(), 0, true)
        &&& forall|i: int|
            0 <= i < self.size && i != 1 ==> (#[trigger] self.game_tree@[i]).cleared()
    }

    #[verifier::rlimit(60)]
    proof fn lemma_reroot(&self, t0: MCTS, c: int)
        requires
            t0.wf(),
            t0.prev_root != 0,
            t0.live(c),
            t0.parent_of(c) == t0.prev_root,
            self.rerooted(t0, c),
            self.node_used_count == used_count(self.game_tree@) + 1,
            self.height == t0.height,
            self.depth@ == Seq::new(
                t0.size as nat,
                |i: int|
                    if t0.depth@[i] >= 1 {
                        (t0.depth@[i] - 1) as nat
                    } else {
                        0nat
                    },
            ),
        ensures
            self.wf(),
            t0.bounded() ==> self.bounded(),
            forall|i: int| self.live(i) <==> t0.descends(i, c),
    {
        t0.lemma_descends_self(c);
        assert(t0.depth@[c] == 1);
        assert(!t0.descends(t0.prev_root as int, c));
        assert forall|i: int| self.live(i) <==> t0.descends(i, c) by {
            if self.live(i) && i != c {
                assert(self.game_tree@[i].is_used);
            }
            if t0.descends(i, c) && i != c {
                assert(self.game_tree@[i] == t0.game_tree@[i]);
            }
        }
        assert forall|i: int| t0.descends(i, c) implies t0.depth@[i] >= 1
            && self.game_tree@[i].children@ == t0.game_tree@[i].children@ && self.depth@[i]
            == t0.depth@[i] - 1 && self.game_tree@[i].is_terminal == t0.game_tree@[i].is_terminal
                by {
            if i != c {
                assert(self.game_tree@[i] == t0.game_tree@[i]);
            }
        }
        assert(self.wf_free()) by {
            assert forall|i: int|
                0 <= i < self.size && !(#[trigger] self.game_tree@[i]).is_used
                implies self.game_tree@[i].cleared() by {
                if i != c {
                    if t0.descends(i, c) {
                        assert(self.live(i));
                    }
                }
            }
            assert(!t0.descends(0, c));
        }
        assert(self.wf_parents()) by {
            assert forall|i: int| #[trigger] self.live(i) && i != self.prev_root implies {
                &&& self.live(self.game_tree@[i].parent as int)
                &&& self.depth@[i] == self.depth@[self.game_tree@[i].parent as int] + 1
                &&& self.game_tree@[self.game_tree@[i].parent as int].children@.contains(i as usize)
            } by {
                assert(t0.descends(i, c));
                t0.lemma_descends_parent(i, c);
                assert(self.game_tree@[i] == t0.game_tree@[i]);
                let p = t0.parent_of(i);
                assert(t0.descends(p, c));
                assert(t0.live(i));
            }
        }
        assert(self.wf_children()) by {
            assert forall|i: int, k: int|
                self.live(i) && 0 <= k < self.game_tree@[i].children@.len() implies {
                &&& self.live(#[trigger] self.game_tree@[i].children@[k] as int)
                &&& self.game_tree@[self.game_tree@[i].children@[k] as int].parent == i
                &&& self.height@[self.game_tree@[i].children@[k] as int] < self.height@[i]
            } by {
                assert(t0.descends(i, c));
                let kid = t0.game_tree@[i].children@[k] as int;
                assert(t0.live(kid));
                assert(t0.parent_of(kid) == i);
                assert(kid != t0.prev_root);
                t0.lemma_descends_child(kid, c);
                if kid == c {
                    assert(i == t0.prev_root);
                }
                assert(self.game_tree@[kid] == t0.game_tree@[kid]);
            }
            assert forall|i: int, k1: int, k2: int|
                self.live(i) && 0 <= k1 < k2 < self.game_tree@[i].children@.len()
                implies #[trigger] self.game_tree@[i].children@[k1]
                != #[trigger] self.game_tree@[i].children@[k2] by {
                assert(t0.descends(i, c));
                assert(t0.game_tree@[i].children@[k1] != t0.game_tree@[i].children@[k2]);
            }
            assert forall|i: int| #[trigger]
                self.live(i) && self.game_tree@[i].is_terminal
                implies self.game_tree@[i].children@.len() == 0 by {
                assert(t0.descends(i, c));
                assert(t0.live(i));
            }
        }
        if t0.bounded() {
            assert forall|i: int| #[trigger] self.live(i) implies {
                &&& self.game_tree@[i].v <= crate::fixed::UNIT
                &&& self.game_tree@[i].p <= crate::fixed::UNIT
                &&& self.game_tree@[i].w <= self.game_tree@[i].n * crate::fixed::UNIT
            } by {
                assert(t0.descends(i, c));
                assert(t0.live(i));
                if i != c {
                    assert(self.game_tree@[i] == t0.game_tree@[i]);
                }
            }
        }
    }

    proof fn lemma_find_move(&self, kids: Seq<usize>, m: Move, k: int)
        requires
            0 <= k < kids.len(),
        ensures
            self.find_move(kids.subrange(k, kids.len() as int), m) == if self.game_tree@[kids[k] as
                int].m
                == m {
                Some(kids[k])
            } else {
                self.find_move(kids.subrange(k + 1, kids.len() as int), m)
            },
    {
        let sub = kids.subrange(k, kids.len() as int);
        assert(sub[0] == kids[k]);
        assert(sub.drop_first() =~= kids.subrange(k + 1, kids.len() as int));
    }

    /// What `find_move` finds is one of `kids`.
    pub proof fn lemma_find_move_member(&self, kids: Seq<usize>, m: Move)
        ensures
            self.find_move(kids, m) matches Some(c) ==> kids.contains(c) && self.game_tree@[c as
                int].m
                == m,
            self.find_move(kids, m) is None ==> forall|k: int|
                0 <= k < kids.len() ==> self.game_tree@[#[trigger] kids[k] as int].m != m,
        decreases kids.len(),
    {
        if kids.len() > 0 {
            let rest = kids.drop_first();
            self.lemma_find_move_member(rest, m);
            if self.game_tree@[kids[0] as int].m != m {
                if self.find_move(kids, m) is Some {
                    let c = self.find_move(kids, m)->0;
                    let k = choose|k: int| 0 <= k < rest.len() && rest[k] == c;
                    assert(kids[k + 1] == c);
                } else {
                    assert forall|k: int| 0 <= k < kids.len() implies self.game_tree@[#[trigger]
                        kids[k] as int].m
                        != m by {
                        if k > 0 {
                            assert(rest[k - 1] == kids[k]);
                        }
                    }
                }
            } else {
                assert(kids[0] == kids[0]);
            }
        }
    }

    /// Set the root node of the search tree to the position that the last move
    /// played leads to, and return it.
    ///
    /// With `reuse`, where the root has a child entered by `last_move`, that
    /// child becomes the root: its subtree stays as it is and the rest of the
    /// tree is freed. Otherwise the whole tree is freed and a fresh root is
    /// put into slot 1. `last_move` is `None` before the first move of a game.
    #[verifier::rlimit(60)]
    pub fn set_root(&mut self, last_move: Option<Move>, reuse: bool) -> (r: usize)
        requires
            old(self).wf(),
            old(self).size >= 2,
        ensures
            final(self).wf(),
            final(self).size == old(self).size,
            final(self).prev_root == r,
            r != 0,
            old(self).bounded() ==> final(self).bounded(),
            match old(self).reusable(last_move, reuse) {
                Some(c) => r == c && final(self).rerooted(*old(self), c as int) && (forall|i: int|
                    final(self).live(i) <==> old(self).descends(i, c as int)),
                None => r == 1 && final(self).fresh_root(),
            },
    {
        let ghost t0 = *self;
        if reuse && self.game_tree[self.prev_root].is_used && last_move.is_some() {
            let m = last_move.unwrap();
            let root = self.prev_root;
            let mut next_root: usize = 0;
            let len = self.game_tree[root].children.len();
            let mut k: usize = 0;
            let ghost kids = self.game_tree@[root as int].children@;
            assert(kids.subrange(0, len as int) =~= kids);
            while k < len && next_root == 0
                invariant
                    self.wf(),
                    *self == t0,
                    root == self.prev_root,
                    root != 0,
                    k <= len,
                    len == kids.len(),
                    kids == self.game_tree@[root as int].children@,
                    next_root == 0 ==> self.find_move(kids, m) == self.find_move(
                        kids.subrange(k as int, len as int),
                        m,
                    ),
                    next_root != 0 ==> self.find_move(kids, m) == Some(next_root),
                    next_root != 0 ==> self.live(next_root as int) && self.parent_of(
                        next_root as int,
                    ) == root,
                decreases (len - k) + (if next_root == 0 { 1int } else { 0int }),
            {
                let child = self.game_tree[root].children[k];
                assert(self.live(root as int));
                assert(self.live(self.game_tree@[root as int].children@[k as int] as int));
                proof {
                    self.lemma_find_move(kids, m, k as int);
                }
                if self.game_tree[child].m == m {
                    next_root = child;
                } else {
                    k += 1;
                }
            }
            if next_root != 0 {
                proof {
                    t0.lemma_descends_self(next_root as int);
                }
                self.eliminate_except(root, next_root);
                let ghost swept = *self;
                assert(swept.game_tree@[next_root as int] == t0.game_tree@[next_root as int]);
                self.prev_root = next_root;
                self.game_tree[next_root].parent = 0;
                proof {
                    assert(self.game_tree@ =~= swept.game_tree@.update(
                        next_root as int,
                        self.game_tree@[next_root as int],
                    ));
                    lemma_used_count_update(
                        swept.game_tree@,
                        next_root as int,
                        self.game_tree@[next_root as int],
                    );
                    assert forall|i: int| 0 <= i < t0.size && i != next_root implies if t0.descends(
                        i,
                        next_root as int,
                    ) {
                        (#[trigger] self.game_tree@[i]) == t0.game_tree@[i]
                    } else {
                        self.game_tree@[i].cleared()
                    } by {
                        assert(self.game_tree@[i] == swept.game_tree@[i]);
                    }
                    self.depth@ = Seq::new(
                        t0.size as nat,
                        |i: int|
                            if t0.depth@[i] >= 1 {
                                (t0.depth@[i] - 1) as nat
                            } else {
                                0nat
                            },
                    );
                    t0.lemma_descends_self(next_root as int);
                    self.lemma_reroot(t0, next_root as int);
                }
                return next_root;
            }
            assert(k == len);
            assert(kids.subrange(len as int, len as int) =~= Seq::<usize>::empty());
        }
        assert(t0.reusable(last_move, reuse) is None);
        self.clear();
        let ghost before = *self;
        self.game_tree[1].is_used = true;
        self.node_index = 2;
        self.node_used_count = 2;
        self.prev_root = 1;
        proof {
            self.depth@ = self.depth@.update(1, 0nat);
            lemma_used_count_zero(before.game_tree@);
            assert(self.game_tree@ =~= before.game_tree@.update(1, self.game_tree@[1]));
            lemma_used_count_update(before.game_tree@, 1, self.game_tree@[1]);
            assert forall|i: int| self.live(i) implies i == 1 by {
                if i != 1 {
                    assert(self.game_tree@[i] == before.game_tree@[i]);
                }
            }
            assert(self.live(1));
            assert(self.wf_free());
            assert(self.wf_children());
            assert(self.wf_parents());
        }
        1
    }
}

} // verus!
