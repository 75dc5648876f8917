//! A node of the search tree and its selection score.

use vstd::prelude::*;
use crate::fixed::{HALF, UNIT};
use crate::moves::{Move, null_move};

verus! {

/// One slot of the arena.
///
/// `v`, `p` and `w` are fixed-point numbers in multiples of `1 / UNIT`: the
/// value written when the node was evaluated, the prior probability of the move
/// that leads here, and the value accumulated over all visits.
#[derive(Clone, Debug)]
pub struct Node {
    pub n: u32,
    pub v: u64,
    pub p: u64,
    pub w: u64,
    pub m: Move,
    pub parent: usize,
    pub children: Vec<usize>,
    pub is_terminal: bool,
    pub virtual_loss: u32,
    pub is_used: bool,
}

/// The selection score of a child.
///
/// `MinusOne` is the score of a terminal child at which the side to move has
/// won: it ranks below every other score. `Infinite` ranks above every other
/// score. `Finite` carries a key supplied by the caller's scoring function;
/// greater keys are better.
#[derive(Clone, Copy, PartialEq, Eq, Structural, Debug)]
pub enum Puct {
    MinusOne,
    Finite(u64),
    Infinite,
}

impl Puct {
    /// The place of the score in the order of all scores.
    pub open spec fn rank(self) -> int {
        match self {
            Puct::MinusOne => -1,
            Puct::Finite(k) => k as int,
            Puct::Infinite => u64::MAX + 1,
        }
    }

    /// Whether `self` is strictly greater than `other`.
    pub fn exceeds(self, other: Puct) -> (r: bool)
        ensures
            r == (self.rank() > other.rank()),
    {
        match (self, other) {
            (Puct::MinusOne, _) => false,
            (Puct::Finite(_), Puct::MinusOne) => true,
            (Puct::Finite(a), Puct::Finite(b)) => a > b,
            (Puct::Finite(_), Puct::Infinite) => false,
            (Puct::Infinite, Puct::Infinite) => false,
            (Puct::Infinite, _) => true,
        }
    }
}

/// A child with `n` visits and prior `p` under a parent with `parent_n` visits
/// has not had its forced playouts yet: `n < sqrt(2 * p * parent_n)`.
pub open spec fn below_forced(n: int, p: int, parent_n: int) -> bool {
    n * n * UNIT < 2 * p * parent_n
}

/// Decides `below_forced` without rounding.
pub fn is_below_forced(n: u64, p: u64, parent_n: u64) -> (r: bool)
    requires
        n <= 0x1_0000_0000,
    ensures
        r == below_forced(n as int, p as int, parent_n as int),
{
    assert(0 <= (n as int) * (n as int) <= 0x1_0000_0000 * 0x1_0000_0000) by (nonlinear_arith)
        requires
            0 <= n <= 0x1_0000_0000,
    ;
    let n2: u128 = (n as u128) * (n as u128);
    assert(0 <= (n2 as int) * (HALF as int) <= 0x1_0000_0000 * 0x1_0000_0000 * 0x8000_0000)
        by (nonlinear_arith)
        requires
            0 <= n2 <= 0x1_0000_0000 * 0x1_0000_0000,
            HALF == 0x8000_0000,
    ;
    let lhs: u128 = n2 * (HALF as u128);
    assert(0 <= (p as int) * (parent_n as int) <= 0xffff_ffff_ffff_ffff * 0xffff_ffff_ffff_ffff)
        by (nonlinear_arith)
        requires
            0 <= p <= 0xffff_ffff_ffff_ffff,
            0 <= parent_n <= 0xffff_ffff_ffff_ffff,
    ;
    let rhs: u128 = (p as u128) * (parent_n as u128);
    assert(lhs * 2 == (n as int) * (n as int) * UNIT) by (nonlinear_arith)
        requires
            lhs == (n as int) * (n as int) * HALF,
            UNIT == 2 * HALF,
    ;
    assert(rhs * 2 == 2 * (p as int) * (parent_n as int)) by (nonlinear_arith)
        requires
            rhs == (p as int) * (parent_n as int),
    ;
    lhs < rhs
}

/// A child with a prior of at most 1 is below its forced number of visits only
/// while it has fewer visits than its parent.
pub proof fn lemma_forced_bound(n: int, p: int, parent_n: int)
    requires
        n >= 1,
        0 <= p <= UNIT,
        parent_n >= 0,
        below_forced(n, p, parent_n),
    ensures
        n <= parent_n,
{
    assert(2 * p * parent_n <= 2 * UNIT * parent_n) by (nonlinear_arith)
        requires
            0 <= p <= UNIT,
            parent_n >= 0,
    ;
    assert(n * n < 2 * parent_n) by (nonlinear_arith)
        requires
            n * n * UNIT < 2 * UNIT * parent_n,
            UNIT > 0,
    ;
    assert(n <= parent_n) by (nonlinear_arith)
        requires
            n * n < 2 * parent_n,
            n >= 1,
            parent_n >= 0,
    ;
}

impl Node {
    /// The state of a free slot: every field at its default.
    pub open spec fn cleared(&self) -> bool {
        &&& self.n == 0
        &&& self.v == 0
        &&& self.p == 0
        &&& self.w == 0
        &&& self.m == null_move()
        &&& self.parent == 0
        &&& self.children@.len() == 0
        &&& !self.is_terminal
        &&& self.virtual_loss == 0
        &&& !self.is_used
    }

    /// The node is a fresh one: no visits, no value, no children.
    pub open spec fn fresh(&self, parent: usize, m: Move, policy: u64, is_used: bool) -> bool {
        &&& self.n == 0
        &&& self.v == 0
        &&& self.p == policy
        &&& self.w == 0
        &&& self.m == m
        &&& self.parent == parent
        &&& self.children@.len() == 0
        &&& !self.is_terminal
        &&& self.virtual_loss == 0
        &&& self.is_used == is_used
    }

    pub fn new(parent: usize, m: Move, policy: u64, is_used: bool) -> (node: Node)
        ensures
            node.fresh(parent, m, policy, is_used),
    {
        Node {
            n: 0,
            v: 0,
            p: policy,
            w: 0,
            m: m,
            parent: parent,
            children: Vec::new(),
            is_terminal: false,
            virtual_loss: 0,
            is_used: is_used,
        }
    }

    /// Puts the slot back into the state of a free slot.
    pub fn clear(&mut self)
        ensures
            final(self).cleared(),
    {
        self.n = 0;
        self.v = 0;
        self.p = 0;
        self.w = 0;
        self.m = Move::null();
        self.parent = 0;
        self.children = Vec::new();
        self.is_terminal = false;
        self.virtual_loss = 0;
        self.is_used = false;
    }

    pub fn expanded(&self) -> (r: bool)
        ensures
            r == (self.children@.len() > 0),
    {
        self.children.len() > 0
    }

    /// The mean value of the move that leads to the node, for the side that
    /// makes it: `0` where nothing has passed through the node, else
    /// `1 - (w + virtual_loss) / (n + virtual_loss)`, with the quotient
    /// rounded down. Every playout in flight counts as a loss.
    pub open spec fn q_value(&self) -> int {
        if self.n + self.virtual_loss == 0 {
            0
        } else {
            UNIT - (self.w + self.virtual_loss * UNIT) / (self.n + self.virtual_loss)
        }
    }

    /// Returns `q_value`.
    pub fn q(&self) -> (r: i128)
        ensures
            r == self.q_value(),
    {
        let visits: u64 = self.n as u64 + self.virtual_loss as u64;
        if visits == 0 {
            0
        } else {
            assert(0 <= (self.virtual_loss as int) * (UNIT as int) <= 0xffff_ffff * 0x1_0000_0000)
                by (nonlinear_arith)
                requires
                    UNIT == 0x1_0000_0000,
                    0 <= self.virtual_loss <= 0xffff_ffff,
            ;
            let lost: u128 = (self.virtual_loss as u128) * (UNIT as u128);
            let total: u128 = self.w as u128 + lost;
            let mean: u128 = total / (visits as u128);
            assert(mean <= total) by (nonlinear_arith)
                requires
                    mean == total as int / visits as int,
                    visits >= 1,
                    total >= 0,
            ;
            (UNIT as i128) - (mean as i128)
        }
    }

    /// The mean of the values accumulated at the node, rounded down: `w / n`,
    /// and `0` for a node without visits.
    pub open spec fn mean_value(&self) -> int {
        if self.n == 0 {
            0
        } else {
            self.w as int / self.n as int
        }
    }

    /// Returns `mean_value`.
    pub fn mean(&self) -> (r: u64)
        ensures
            r == self.mean_value(),
    {
        if self.n == 0 {
            0
        } else {
            self.w / (self.n as u64)
        }
    }

    /// `s` is a selection score of this node under a parent with `parent_n`
    /// visits and `parent_loss` virtual losses.
    ///
    /// A terminal node of value 0 scores `Infinite` and a terminal node of value
    /// 1 scores `MinusOne`. With forced playouts, a node below its forced number
    /// of visits, `sqrt(2 * p * parent_n)`, scores `Infinite`. Every other node
    /// gets the finite score that `finite` returns for it and for the sum of
    /// the parent's visits and virtual losses.
    pub open spec fn scored<F: Fn(&Node, u64) -> u64>(
        &self,
        finite: F,
        parent_n: u64,
        parent_loss: u64,
        forced_playouts: bool,
        s: Puct,
    ) -> bool {
        if self.is_terminal && self.v == 0 {
            s == Puct::Infinite
        } else if self.is_terminal && self.v == UNIT {
            s == Puct::MinusOne
        } else if forced_playouts && below_forced(
            self.n as int,
            self.p as int,
            parent_n as int,
        ) {
            s == Puct::Infinite
        } else {
            s matches Puct::Finite(k) && call_ensures(
                finite,
                (self, (parent_n + parent_loss) as u64),
                k,
            )
        }
    }

    /// Returns the selection score of the node. `finite` computes
    /// `Q + c * p * sqrt(total) / (1 + n + virtual_loss)` as an ordered key,
    /// where `total` is the sum of the parent's visits and virtual losses;
    /// it is asked only where no rule decides the score.
    pub fn get_puct<F: Fn(&Node, u64) -> u64>(
        &self,
        parent_n: u64,
        parent_loss: u64,
        forced_playouts: bool,
        finite: &F,
    ) -> (r: Puct)
        requires
            parent_n + parent_loss <= u64::MAX,
            call_requires(*finite, (self, (parent_n + parent_loss) as u64)),
        ensures
            self.scored(*finite, parent_n, parent_loss, forced_playouts, r),
    {
        if self.is_terminal {
            if self.v == 0 {
                return Puct::Infinite;
            } else if self.v == UNIT {
                return Puct::MinusOne;
            }
        }
        if forced_playouts {
            if is_below_forced(self.n as u64, self.p, parent_n) {
                return Puct::Infinite;
            }
        }
        Puct::Finite(finite(self, parent_n + parent_loss))
    }
}

} // verus!
