//! The targets that a sampled position is trained towards.

use vstd::prelude::*;
use crate::moves::{Move, POLICY_SIZE};
use crate::types::Color;

verus! {

/// The value target of a position: 0 for a drawn game, 1 where the side to
/// move has won and -1 where it has lost. `winner` is 0 or 1 for the side
/// that won, and 2 for a draw.
pub open spec fn value_of(winner: u8, side_to_move: Color) -> int {
    if winner == 2 {
        0
    } else if winner == side_to_move.code() {
        1
    } else {
        -1
    }
}

/// Returns the value target of a position.
pub fn value_target(winner: u8, side_to_move: Color) -> (r: i8)
    ensures
        r == value_of(winner, side_to_move),
{
    if winner == 2 {
        0
    } else if winner as usize == side_to_move.as_usize() {
        1
    } else {
        -1
    }
}

/// The visit counts of `playouts` laid out as a policy vector: each count
/// stands at the index of its move, a later one in place of an earlier one
/// with the same index, and every other entry is zero.
pub open spec fn scattered(playouts: Seq<(Move, u32)>) -> Seq<u32>
    decreases playouts.len(),
{
    if playouts.len() == 0 {
        Seq::new(POLICY_SIZE as nat, |i: int| 0u32)
    } else {
        scattered(playouts.drop_last()).update(
            playouts.last().0.policy_index(),
            playouts.last().1,
        )
    }
}

/// Returns the visit counts of `playouts` laid out as a policy vector. The
/// policy target is this vector divided by the sum of the visits.
pub fn policy_counts(playouts: &Vec<(Move, u32)>) -> (r: Vec<u32>)
    requires
        forall|k: int| 0 <= k < playouts@.len() ==> (#[trigger] playouts@[k]).0.encodable(),
    ensures
        r@ == scattered(playouts@),
        r@.len() == POLICY_SIZE,
{
    let mut policy: Vec<u32> = Vec::new();
    let mut i: usize = 0;
    while i < POLICY_SIZE
        invariant
            i <= POLICY_SIZE,
            policy@.len() == i,
            forall|a: int| 0 <= a < i ==> #[trigger] policy@[a] == 0,
        decreases POLICY_SIZE - i,
    {
        policy.push(0);
        i += 1;
    }
    assert(policy@ =~= scattered(playouts@.subrange(0, 0)));
    let mut k: usize = 0;
    while k < playouts.len()
        invariant
            forall|a: int| 0 <= a < playouts@.len() ==> (#[trigger] playouts@[a]).0.encodable(),
            k <= playouts@.len(),
            policy@.len() == POLICY_SIZE,
            policy@ == scattered(playouts@.subrange(0, k as int)),
        decreases playouts@.len() - k,
    {
        let (m, n) = playouts[k];
        assert(playouts@[k as int].0.encodable());
        let index = m.to_policy_index();
        policy[index] = n;
        assert(playouts@.subrange(0, k as int + 1).drop_last() =~= playouts@.subrange(0, k as int));
        k += 1;
    }
    assert(playouts@.subrange(0, playouts@.len() as int) =~= playouts@);
    policy
}

} // verus!
