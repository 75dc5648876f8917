use minishogilib::expand::{LeafFacts, MctsError};
use minishogilib::fixed::{flip, HALF, UNIT};
use minishogilib::moves::Move;
use minishogilib::node::{is_below_forced, Node, Puct};
use minishogilib::noise::mix;
use minishogilib::sample::{pick_by_weight, sum_weights};
use minishogilib::tree::MCTS;
use minishogilib::types::{Color, Piece};

fn to_fixed(x: f64) -> u64 {
    (x * UNIT as f64).round() as u64
}

fn to_real(x: u64) -> f64 {
    x as f64 / UNIT as f64
}

fn puct_value(node: &Node, parent_n: u64) -> f64 {
    const C_BASE: f64 = 19652.0;
    const C_INIT: f64 = 1.25;
    let n = node.n as f64;
    let vl = node.virtual_loss as f64;
    let c = ((1.0 + n + C_BASE) / C_BASE).log2() + C_INIT;
    let q = if n + vl == 0.0 { 0.0 } else { 1.0 - (to_real(node.w) + vl) / (n + vl) };
    let u = c * to_real(node.p) * (parent_n as f64).sqrt() / (1.0 + n + vl);
    q + u
}

/// The finite score as an ordered key: the bits of a float that is not
/// negative grow with the float.
fn puct_key(node: &Node, parent_n: u64) -> u64 {
    (puct_value(node, parent_n).max(0.0) as f32).to_bits() as u64
}

fn power_weight(n: u32) -> u32 {
    n
}

fn start_moves() -> Vec<Move> {
    let none = Piece::NO_PIECE;
    vec![
        Move::board_move(Piece::W_PAWN, 15, 10, false, none),
        Move::board_move(Piece::W_KING, 20, 16, false, none),
        Move::board_move(Piece::W_GOLD, 21, 16, false, none),
        Move::board_move(Piece::W_GOLD, 21, 17, false, none),
        Move::board_move(Piece::W_SILVER, 22, 16, false, none),
        Move::board_move(Piece::W_SILVER, 22, 17, false, none),
        Move::board_move(Piece::W_SILVER, 22, 18, false, none),
        Move::board_move(Piece::W_BISHOP, 23, 17, false, none),
        Move::board_move(Piece::W_BISHOP, 23, 11, false, none),
        Move::board_move(Piece::W_BISHOP, 23, 5, false, none),
        Move::board_move(Piece::W_BISHOP, 23, 19, false, none),
        Move::board_move(Piece::W_ROOK, 24, 19, false, none),
        Move::board_move(Piece::W_ROOK, 24, 14, false, none),
        Move::board_move(Piece::W_ROOK, 24, 9, false, Piece::B_PAWN),
    ]
}

fn three_moves() -> Vec<Move> {
    vec![
        Move::board_move(Piece::W_PAWN, 15, 10, false, Piece::NO_PIECE),
        Move::board_move(Piece::W_KING, 20, 16, false, Piece::NO_PIECE),
        Move::hand_move(Piece::W_GOLD, 12),
    ]
}

fn quiet() -> LeafFacts {
    LeafFacts {
        is_repetition: false,
        my_check_repetition: false,
        op_check_repetition: false,
        ply_cap_reached: false,
        side_to_move: Color::WHITE,
        repetition_loser: Color::WHITE,
        last_move: None,
    }
}

fn uniform(count: usize) -> Vec<u64> {
    vec![UNIT / count as u64; count]
}

fn playout(tree: &mut MCTS, root: usize, moves: &Vec<Move>, value: u64, forced: bool) -> usize {
    let path = tree.select_leaf(root, forced, &puct_key);
    let leaf = *path.last().unwrap();
    tree.evaluate(leaf, &quiet(), moves, &uniform(moves.len()), value).unwrap();
    tree.backpropagate(leaf);
    leaf
}

fn live_nodes(tree: &MCTS) -> Vec<usize> {
    (0..tree.size).filter(|&i| tree.game_tree[i].is_used).collect()
}

fn assert_arena_integrity(tree: &MCTS, root: usize) {
    assert!(!tree.game_tree[0].is_used);
    for i in live_nodes(tree) {
        let node = &tree.game_tree[i];
        if i != root {
            let parent = &tree.game_tree[node.parent];
            assert!(parent.is_used);
            assert_eq!(parent.children.iter().filter(|&&c| c == i).count(), 1);
        } else {
            assert_eq!(node.parent, 0);
        }
        for &c in &node.children {
            assert!(tree.game_tree[c].is_used);
            assert_eq!(tree.game_tree[c].parent, i);
        }
        if node.is_terminal {
            assert!(node.children.is_empty());
        }
    }
    assert_eq!(tree.get_nodes(), live_nodes(tree).len() + 1);
}

fn assert_consistent(tree: &MCTS) {
    for i in live_nodes(tree) {
        let node = &tree.game_tree[i];
        assert_eq!(node.virtual_loss, 0);
        assert!(node.w <= node.n as u64 * UNIT);
        if !node.children.is_empty() {
            let sum: u32 = node.children.iter().map(|&c| tree.game_tree[c].n).sum();
            assert_eq!(node.n, 1 + sum);
        } else {
            assert!(node.is_terminal || node.n == 0);
        }
    }
}

#[test]
fn new_arena_is_empty() {
    let tree = MCTS::new(64);
    assert_eq!(tree.size, 64);
    assert_eq!(tree.game_tree.len(), 64);
    assert_eq!(tree.get_nodes(), 0);
    assert_eq!(tree.node_index, 0);
    assert!(tree.game_tree.iter().all(|n| !n.is_used && n.children.is_empty() && n.n == 0));
}

#[test]
fn fresh_root_sits_in_slot_one() {
    let mut tree = MCTS::new(64);
    let root = tree.set_root(None, true);
    assert_eq!(root, 1);
    assert!(tree.game_tree[1].is_used);
    assert_eq!(tree.game_tree[1].parent, 0);
    assert_eq!(tree.game_tree[1].m, Move::null());
    assert_eq!(tree.node_index, 2);
    assert_eq!(tree.get_nodes(), 2);
    assert_eq!(tree.get_usage(), 2 * UNIT / 64);
    assert!(!tree.expanded(root));
    assert_arena_integrity(&tree, root);
}

#[test]
fn fresh_tree_one_playout() {
    let mut tree = MCTS::new(64);
    let root = tree.set_root(None, false);
    let moves = start_moves();
    let value = to_fixed(0.4);

    let path = tree.select_leaf(root, false, &puct_key);
    assert_eq!(path, vec![root]);
    assert_eq!(tree.game_tree[root].virtual_loss, 1);
    assert_eq!(tree.evaluate(root, &quiet(), &moves, &uniform(moves.len()), value), Ok(()));
    tree.backpropagate(root);

    let node = &tree.game_tree[root];
    assert_eq!(node.n, 1);
    assert_eq!(node.w, value);
    assert_eq!(node.v, value);
    assert_eq!(node.virtual_loss, 0);
    assert_eq!(node.children.len(), 14);
    for (j, &c) in node.children.iter().enumerate() {
        let child = &tree.game_tree[c];
        assert_eq!(child.n, 0);
        assert_eq!(child.w, 0);
        assert_eq!(child.m, moves[j]);
        assert_eq!(child.parent, root);
        assert!((to_real(child.p) - 1.0 / 14.0).abs() < 1e-9);
    }
    // The children take the slots after the root, in the order of the moves.
    assert_eq!(node.children, (2..16).collect::<Vec<usize>>());
    assert_eq!(tree.node_index, 16);
    assert_eq!(tree.get_nodes(), 16);
    assert!(tree.expanded(root));
    assert_arena_integrity(&tree, root);
    assert_consistent(&tree);
}

#[test]
fn terminal_detection() {
    let mut tree = MCTS::new(64);
    let root = tree.set_root(None, false);
    let facts = LeafFacts { last_move: Some(Move::hand_move(Piece::B_PAWN, 17)), ..quiet() };
    let path = tree.select_leaf(root, false, &puct_key);
    assert_eq!(tree.evaluate(root, &facts, &Vec::new(), &Vec::new(), to_fixed(0.3)), Ok(()));
    tree.backpropagate(path[path.len() - 1]);

    assert!(tree.game_tree[root].is_terminal);
    assert_eq!(tree.game_tree[root].v, UNIT);
    assert!(tree.game_tree[root].children.is_empty());
    assert_eq!(tree.get_nodes(), 2);
    assert!(tree.expanded(root));
    assert_eq!(tree.game_tree[root].w, UNIT);
}

#[test]
fn values_that_the_rules_give() {
    let facts = quiet();
    let estimate = to_fixed(0.3);
    // The game goes on.
    assert!(!facts.is_terminal(3));
    assert_eq!(facts.settle(3, estimate), estimate);
    // Mate, and mate by a dropped pawn.
    assert!(facts.is_terminal(0));
    assert_eq!(facts.settle(0, estimate), 0);
    let dropped = LeafFacts { last_move: Some(Move::hand_move(Piece::W_PAWN, 7)), ..quiet() };
    assert_eq!(dropped.settle(0, estimate), UNIT);
    let gold = LeafFacts { last_move: Some(Move::hand_move(Piece::W_GOLD, 7)), ..quiet() };
    assert_eq!(gold.settle(0, estimate), 0);
    // Repetitions.
    let mine = LeafFacts { is_repetition: true, my_check_repetition: true, ..quiet() };
    assert_eq!(mine.settle(3, estimate), 0);
    let theirs = LeafFacts { is_repetition: true, op_check_repetition: true, ..quiet() };
    assert_eq!(theirs.settle(3, estimate), UNIT);
    let white = LeafFacts { is_repetition: true, ..quiet() };
    assert_eq!(white.settle(3, estimate), 0);
    let black = LeafFacts { is_repetition: true, side_to_move: Color::BLACK, ..quiet() };
    assert_eq!(black.settle(3, estimate), UNIT);
    let other = LeafFacts { is_repetition: true, repetition_loser: Color::BLACK, ..quiet() };
    assert_eq!(other.settle(3, estimate), UNIT);
    // The greatest length.
    let capped = LeafFacts { ply_cap_reached: true, ..quiet() };
    assert!(capped.is_terminal(3));
    assert_eq!(capped.settle(3, estimate), HALF);
}

#[test]
fn evaluate_leaves_an_evaluated_node_alone() {
    let mut tree = MCTS::new(64);
    let root = tree.set_root(None, false);
    playout(&mut tree, root, &three_moves(), to_fixed(0.4), false);
    let children = tree.game_tree[root].children.clone();
    let count = tree.get_nodes();
    assert_eq!(tree.evaluate(root, &quiet(), &start_moves(), &uniform(14), to_fixed(0.9)), Ok(()));
    assert_eq!(tree.game_tree[root].children, children);
    assert_eq!(tree.game_tree[root].v, to_fixed(0.4));
    assert_eq!(tree.get_nodes(), count);
}

#[test]
fn arena_exhaustion_is_an_error() {
    let mut tree = MCTS::new(4);
    let root = tree.set_root(None, false);
    // Slots 2 and 3 are free: three moves do not fit.
    assert_eq!(
        tree.evaluate(root, &quiet(), &three_moves(), &uniform(3), to_fixed(0.4)),
        Err(MctsError::ArenaExhausted)
    );
    assert!(tree.game_tree[root].children.is_empty());
    assert_eq!(tree.get_nodes(), 2);
    assert!(!tree.game_tree[2].is_used && !tree.game_tree[3].is_used);
    // Two moves do.
    let two: Vec<Move> = three_moves().into_iter().take(2).collect();
    assert_eq!(tree.evaluate(root, &quiet(), &two, &uniform(2), to_fixed(0.4)), Ok(()));
    assert_eq!(tree.game_tree[root].children, vec![2, 3]);
    assert_eq!(tree.node_index, 0);
    assert_eq!(tree.get_nodes(), 4);
    assert_eq!(tree.get_usage(), UNIT);
}

#[test]
fn allocation_wraps_around_and_skips_used_slots() {
    let mut tree = MCTS::new(8);
    let root = tree.set_root(None, false);
    playout(&mut tree, root, &three_moves(), to_fixed(0.4), false);
    assert_eq!(tree.game_tree[root].children, vec![2, 3, 4]);
    // Keep the subtree of the second child: slots 1, 2 and 4 become free.
    let kept = tree.set_root(Some(three_moves()[1]), true);
    assert_eq!(kept, 3);
    assert_eq!(live_nodes(&tree), vec![3]);
    assert_eq!(tree.node_index, 5);
    let path = tree.select_leaf(kept, false, &puct_key);
    assert_eq!(path, vec![3]);
    let moves = start_moves().into_iter().take(5).collect::<Vec<Move>>();
    assert_eq!(tree.evaluate(kept, &quiet(), &moves, &uniform(5), to_fixed(0.4)), Ok(()));
    tree.backpropagate(kept);
    // From the cursor up to the end, then on from slot 1, past the used slot 3.
    assert_eq!(tree.game_tree[kept].children, vec![5, 6, 7, 1, 2]);
    assert_eq!(tree.node_index, 3);
    assert_arena_integrity(&tree, kept);
}

#[test]
fn playouts_keep_the_tree_consistent() {
    let mut tree = MCTS::new(1024);
    let root = tree.set_root(None, false);
    let moves = three_moves();
    for k in 0..200u32 {
        playout(&mut tree, root, &moves, to_fixed(0.1 + 0.004 * k as f64), false);
        assert_eq!(tree.game_tree[root].n, k + 1);
        assert_eq!(tree.get_playouts(root, false), k as u64 + 1);
        assert_eq!(tree.get_playouts(root, true), k as u64);
    }
    assert_arena_integrity(&tree, root);
    assert_consistent(&tree);
}

#[test]
fn virtual_loss_rises_on_the_way_down_and_falls_on_the_way_back() {
    let mut tree = MCTS::new(1024);
    let root = tree.set_root(None, false);
    let moves = three_moves();
    for _ in 0..20 {
        playout(&mut tree, root, &moves, to_fixed(0.4), false);
    }
    // Two descents in flight at once.
    let first = tree.select_leaf(root, false, &puct_key);
    let second = tree.select_leaf(root, false, &puct_key);
    assert_eq!(tree.game_tree[root].virtual_loss, 2);
    for &i in &first {
        assert!(tree.game_tree[i].virtual_loss >= 1);
    }
    // The virtual loss of the first descent turns the second one away from its leaf.
    assert_ne!(first.last(), second.last());
    for path in [&first, &second] {
        let leaf = *path.last().unwrap();
        tree.evaluate(leaf, &quiet(), &moves, &uniform(3), to_fixed(0.4)).unwrap();
        tree.backpropagate(leaf);
    }
    assert!(tree.game_tree.iter().all(|n| n.virtual_loss == 0));
    assert_eq!(tree.game_tree[root].n, 22);
}

#[test]
fn backpropagation_flips_the_value_at_each_step() {
    let mut tree = MCTS::new(64);
    let root = tree.set_root(None, false);
    let moves = three_moves();
    let first = to_fixed(0.4);
    playout(&mut tree, root, &moves, first, false);
    assert_eq!(tree.game_tree[root].w, first);

    let second = to_fixed(0.25);
    let path = tree.select_leaf(root, false, &puct_key);
    assert_eq!(path.len(), 2);
    let leaf = path[1];
    tree.evaluate(leaf, &quiet(), &moves, &uniform(3), second).unwrap();
    tree.backpropagate(leaf);
    // The leaf gets the value, the root above it one minus the value.
    assert_eq!(tree.game_tree[leaf].w, second);
    assert_eq!(tree.game_tree[leaf].n, 1);
    assert_eq!(tree.game_tree[root].w, first + (UNIT - second));
    assert_eq!(tree.game_tree[root].n, 2);
    assert_eq!(flip(second), UNIT - second);
    // A sibling that was not on the way is untouched.
    let sibling = tree.game_tree[root].children.iter().copied().find(|&c| c != leaf).unwrap();
    assert_eq!(tree.game_tree[sibling].w, 0);
    assert_eq!(tree.game_tree[sibling].n, 0);
}

#[test]
fn selection_takes_the_first_of_equal_scores() {
    let mut tree = MCTS::new(64);
    let root = tree.set_root(None, false);
    playout(&mut tree, root, &three_moves(), to_fixed(0.4), false);
    // All children are alike: the first one is chosen.
    assert_eq!(tree.select_puct_max_child(root, false, &puct_key), 2);
    assert_eq!(tree.select_n_max_child(root), 2);
    // A greater prior wins.
    tree.game_tree[3].p = UNIT;
    assert_eq!(tree.select_puct_max_child(root, false, &puct_key), 3);
    // A terminal child that is lost for the side to move there is taken at once.
    tree.game_tree[4].is_terminal = true;
    tree.game_tree[4].v = 0;
    assert_eq!(tree.select_puct_max_child(root, false, &puct_key), 4);
    // A terminal child that is won for the side to move there comes last.
    tree.game_tree[4].v = UNIT;
    tree.game_tree[3].p = 0;
    tree.game_tree[2].p = 0;
    assert_eq!(tree.select_puct_max_child(root, false, &puct_key), 2);
    // More visits win in the count of visits.
    tree.game_tree[4].n = 5;
    tree.game_tree[3].n = 5;
    assert_eq!(tree.select_n_max_child(root), 3);
    assert_eq!(tree.best_move(root), three_moves()[1]);
    // A node without children has no best child.
    assert_eq!(tree.select_n_max_child(2), 0);
    assert_eq!(tree.select_puct_max_child(2, false, &puct_key), 0);
    assert_eq!(tree.best_move(2), Move::null());
}

#[test]
fn scores_follow_the_rules() {
    let m = Move::null();
    let mut node = Node::new(1, m, to_fixed(0.5), true);
    node.n = 3;
    node.w = to_fixed(1.2);
    let key = puct_key(&node, 10);
    assert_eq!(node.get_puct(10, 0, false, &puct_key), Puct::Finite(key));
    // With forced playouts: 3 * 3 < 2 * 0.5 * 10.
    assert_eq!(node.get_puct(10, 0, true, &puct_key), Puct::Infinite);
    // 3 * 3 = 2 * 0.5 * 9: no longer below.
    assert_eq!(node.get_puct(9, 0, true, &puct_key), Puct::Finite(puct_key(&node, 9)));
    // The virtual losses of the parent count for the finite score, not for the forcing.
    assert_eq!(node.get_puct(9, 1, true, &puct_key), Puct::Finite(puct_key(&node, 10)));
    assert_eq!(node.get_puct(10, 5, true, &puct_key), Puct::Infinite);
    assert!(is_below_forced(3, to_fixed(0.5), 10));
    assert!(!is_below_forced(3, to_fixed(0.5), 9));
    assert!(!is_below_forced(0, to_fixed(0.5), 0));
    assert!(is_below_forced(0, to_fixed(0.5), 1));
    node.is_terminal = true;
    node.v = 0;
    assert_eq!(node.get_puct(9, 0, false, &puct_key), Puct::Infinite);
    node.v = UNIT;
    assert_eq!(node.get_puct(10, 0, true, &puct_key), Puct::MinusOne);
    node.v = HALF;
    assert_eq!(node.get_puct(9, 0, false, &puct_key), Puct::Finite(puct_key(&node, 9)));
    assert!(Puct::Infinite.exceeds(Puct::Finite(u64::MAX)));
    assert!(Puct::Finite(0).exceeds(Puct::MinusOne));
    assert!(Puct::Finite(2).exceeds(Puct::Finite(1)));
    assert!(!Puct::Finite(1).exceeds(Puct::Finite(1)));
    assert!(!Puct::MinusOne.exceeds(Puct::MinusOne));
}

#[test]
fn mean_values() {
    let mut node = Node::new(1, Move::null(), 0, true);
    assert_eq!(node.q(), 0);
    assert_eq!(node.mean(), 0);
    node.n = 4;
    node.w = UNIT;
    assert_eq!(node.mean(), UNIT / 4);
    assert_eq!(node.q(), (UNIT - UNIT / 4) as i128);
    // A playout in flight counts as a loss: 1 - (1 + 1) / (4 + 1).
    node.virtual_loss = 1;
    assert_eq!(node.q(), (UNIT - 2 * UNIT / 5) as i128);
    assert!(node.expanded() == false);
    node.clear();
    assert!(!node.is_used);
    assert_eq!(node.n, 0);
    assert_eq!(node.w, 0);
}

#[test]
fn forced_playouts_reach_every_child() {
    let mut tree = MCTS::new(4096);
    let root = tree.set_root(None, false);
    let moves = three_moves();
    // Uneven priors and a poor value for every child but the first.
    let priors = vec![to_fixed(0.9), to_fixed(0.05), to_fixed(0.05)];
    let path = tree.select_leaf(root, true, &puct_key);
    tree.evaluate(path[0], &quiet(), &moves, &priors, to_fixed(0.5)).unwrap();
    tree.backpropagate(path[0]);
    for _ in 0..400 {
        let path = tree.select_leaf(root, true, &puct_key);
        let leaf = *path.last().unwrap();
        let on_first = path.len() > 1 && path[1] == tree.game_tree[root].children[0];
        let value = if (path.len() % 2 == 0) == on_first { to_fixed(0.1) } else { to_fixed(0.9) };
        tree.evaluate(leaf, &quiet(), &moves, &uniform(3), value).unwrap();
        tree.backpropagate(leaf);
    }
    let parent_n = tree.game_tree[root].n as f64;
    for &c in &tree.game_tree[root].children {
        let child = &tree.game_tree[c];
        let forced = (2.0 * to_real(child.p) * parent_n).sqrt().floor();
        assert!(child.n as f64 >= forced);
    }
    assert_consistent(&tree);
}

#[test]
fn subtree_reuse() {
    let mut tree = MCTS::new(1024);
    let root = tree.set_root(None, false);
    let moves = three_moves();
    for k in 0..100u32 {
        playout(&mut tree, root, &moves, to_fixed(0.3 + 0.002 * k as f64), false);
    }
    let m = tree.best_move(root);
    let chosen = tree.select_n_max_child(root);
    assert_eq!(tree.game_tree[chosen].m, m);
    let before_count = tree.get_nodes();
    let before: Vec<(bool, u32, u64, u64, u64, Vec<usize>)> = tree
        .game_tree
        .iter()
        .map(|n| (n.is_used, n.n, n.w, n.v, n.p, n.children.clone()))
        .collect();
    // The nodes below the chosen child.
    let mut kept = vec![chosen];
    let mut k = 0;
    while k < kept.len() {
        kept.extend(tree.game_tree[kept[k]].children.iter().copied());
        k += 1;
    }
    let live_before = live_nodes(&tree).len();

    let new_root = tree.set_root(Some(m), true);

    assert_eq!(new_root, chosen);
    assert_eq!(tree.game_tree[new_root].parent, 0);
    for i in 0..tree.size {
        let node = &tree.game_tree[i];
        if kept.contains(&i) {
            assert_eq!((node.is_used, node.n, node.w, node.v, node.p, node.children.clone()), before[i]);
        } else {
            assert!(!node.is_used);
            assert_eq!((node.n, node.w, node.v, node.p), (0, 0, 0, 0));
            assert!(node.children.is_empty());
        }
    }
    let freed = live_before - kept.len();
    assert!(freed > 0);
    assert_eq!(tree.get_nodes(), before_count - freed);
    let sum: u32 = tree.game_tree[new_root].children.iter().map(|&c| tree.game_tree[c].n).sum();
    assert_eq!(sum + 1, before[chosen].1);
    assert_arena_integrity(&tree, new_root);
    assert_consistent(&tree);
    // The search goes on below the new root.
    playout(&mut tree, new_root, &moves, to_fixed(0.4), false);
    assert_eq!(tree.game_tree[new_root].n, before[chosen].1 + 1);
    assert_consistent(&tree);
}

#[test]
fn set_root_starts_afresh_without_a_match() {
    let mut tree = MCTS::new(64);
    let root = tree.set_root(None, false);
    playout(&mut tree, root, &three_moves(), to_fixed(0.4), false);
    // A move that no child has.
    let other = Move::hand_move(Piece::W_ROOK, 0);
    assert_eq!(tree.set_root(Some(other), true), 1);
    assert_eq!(live_nodes(&tree), vec![1]);
    assert_eq!(tree.get_nodes(), 2);
    assert_eq!(tree.game_tree[1].n, 0);
    // No reuse asked for.
    playout(&mut tree, 1, &three_moves(), to_fixed(0.4), false);
    assert_eq!(tree.set_root(Some(three_moves()[0]), false), 1);
    assert_eq!(live_nodes(&tree), vec![1]);
    // No move played yet.
    playout(&mut tree, 1, &three_moves(), to_fixed(0.4), false);
    assert_eq!(tree.set_root(None, true), 1);
    assert_eq!(live_nodes(&tree), vec![1]);
}

#[test]
fn clear_frees_every_slot() {
    let mut tree = MCTS::new(256);
    let root = tree.set_root(None, false);
    for _ in 0..30 {
        playout(&mut tree, root, &three_moves(), to_fixed(0.4), false);
    }
    assert!(tree.get_nodes() > 30);
    tree.clear();
    assert!(live_nodes(&tree).is_empty());
    assert_eq!(tree.get_nodes(), 1);
    assert_eq!(tree.node_index, 1);
    assert!(tree.game_tree.iter().all(|n| n.n == 0 && n.w == 0 && n.children.is_empty() && n.parent == 0));
}

#[test]
fn dirichlet_noise() {
    let mut tree = MCTS::new(64);
    let root = tree.set_root(None, false);
    let moves: Vec<Move> = start_moves().into_iter().take(10).collect();
    let path = tree.select_leaf(root, false, &puct_key);
    tree.evaluate(path[0], &quiet(), &moves, &vec![to_fixed(0.1); 10], to_fixed(0.5)).unwrap();
    tree.backpropagate(path[0]);
    // A point of the simplex: positive numbers divided by their sum.
    let raw = [0.02, 1.3, 0.0004, 0.7, 0.11, 2.5, 0.0, 0.31, 0.05, 0.9];
    let sum: f64 = raw.iter().sum();
    let noise: Vec<u64> = raw.iter().map(|x| to_fixed(x / sum)).collect();
    tree.add_noise(root, &noise);
    let mut total = 0.0;
    for (j, &c) in tree.game_tree[root].children.iter().enumerate() {
        let p = to_real(tree.game_tree[c].p);
        assert!(p >= 0.075 - 1e-9 && p <= 0.325 + 1e-9);
        assert_eq!(tree.game_tree[c].p, (3 * to_fixed(0.1) + noise[j]) / 4);
        total += p;
    }
    assert!((total - 1.0).abs() < 1e-6);
    assert_eq!(mix(UNIT, 0), 3 * UNIT / 4);
    assert_eq!(mix(0, UNIT), UNIT / 4);
    assert_eq!(mix(7, 2), 5);
    assert_arena_integrity(&tree, root);
}

fn two_children() -> (MCTS, usize, usize, usize) {
    let mut tree = MCTS::new(64);
    let root = tree.set_root(None, false);
    let moves: Vec<Move> = three_moves().into_iter().take(2).collect();
    let path = tree.select_leaf(root, false, &puct_key);
    tree.evaluate(path[0], &quiet(), &moves, &vec![to_fixed(0.5), to_fixed(0.01)], to_fixed(0.5))
        .unwrap();
    tree.backpropagate(path[0]);
    let a = tree.game_tree[root].children[0];
    let b = tree.game_tree[root].children[1];
    tree.game_tree[root].n = 1000;
    tree.game_tree[root].w = to_fixed(500.0);
    tree.game_tree[a].n = 900;
    tree.game_tree[a].w = to_fixed(400.0);
    tree.game_tree[b].n = 100;
    tree.game_tree[b].w = to_fixed(60.0);
    (tree, root, a, b)
}

#[test]
fn target_pruning() {
    let (mut tree, root, a, b) = two_children();
    let moves = three_moves();
    let reference = puct_value(&tree.game_tree[a], 1000);
    let (sum_n, q, visits) = tree.dump(root, true, false, &puct_key);
    assert_eq!(visits.len(), 2);
    assert_eq!(visits[0], (moves[0], 900));
    assert_eq!(visits[1].0, moves[1]);
    assert!(visits[1].1 < 100);
    // sqrt(2 * 0.01 * 1000) is about 4.47: four visits can have been forced.
    assert_eq!(visits[1].1, 96);
    assert_eq!(tree.game_tree[a].n, 900);
    assert_eq!(tree.game_tree[b].n, 96);
    assert_eq!(sum_n, 996);
    assert_eq!(q, to_fixed(500.0) / 1000);
    let removed = 100 - visits[1].1 as u64;
    assert!(puct_value(&tree.game_tree[b], 1000 - removed) <= reference);
    // The counts of the node and of its children now differ.
    assert_eq!(tree.get_playouts(root, false), 1000);
    assert_eq!(tree.get_playouts(root, true), 996);
}

#[test]
fn target_pruning_stops_where_the_score_would_rise_above_the_best() {
    let (mut tree, root, a, b) = two_children();
    // A child that has done well on few visits: its score lies above that of
    // the best child, and no visit is taken from it.
    tree.game_tree[b].p = to_fixed(0.5);
    tree.game_tree[b].n = 3;
    tree.game_tree[b].w = 0;
    let reference = puct_value(&tree.game_tree[a], 1000);
    let (sum_n, _, visits) = tree.dump(root, true, false, &puct_key);
    assert_eq!(visits[0].1, 900);
    assert_eq!(visits[1].1, 3);
    assert_eq!(sum_n, 903);
    assert_eq!(tree.game_tree[a].n, 900);
    assert!(puct_value(&tree.game_tree[b], 1000) > reference);
}

#[test]
fn target_pruning_takes_no_more_than_forced_playouts_account_for() {
    let (mut tree, root, _, b) = two_children();
    // sqrt(2 * 0.5 * 1000) is about 31.6: 31 visits can have been forced.
    tree.game_tree[b].p = to_fixed(0.5);
    tree.game_tree[b].n = 850;
    tree.game_tree[b].w = to_fixed(400.0);
    let (_, _, visits) = tree.dump(root, true, false, &puct_key);
    assert_eq!(visits[1].1, 850 - 31);
}

#[test]
fn target_pruning_stops_at_zero_visits() {
    let (mut tree, root, _, b) = two_children();
    // sqrt(2 * 0.003 * 1000) is about 2.4: two visits can have been forced.
    tree.game_tree[b].p = to_fixed(0.003);
    tree.game_tree[b].n = 2;
    tree.game_tree[b].w = UNIT;
    let (sum_n, _, visits) = tree.dump(root, true, true, &puct_key);
    // Both visits go, and the child leaves the list.
    assert_eq!(tree.game_tree[b].n, 0);
    assert_eq!(visits, vec![(three_moves()[0], 900)]);
    assert_eq!(sum_n, 900);
    // With one visit only, that one goes and the pruning ends.
    let (mut tree, root, _, b) = two_children();
    tree.game_tree[b].p = to_fixed(0.5);
    tree.game_tree[b].n = 1;
    tree.game_tree[b].w = UNIT;
    tree.game_tree[b].p = to_fixed(0.003);
    let (_, _, visits) = tree.dump(root, true, false, &puct_key);
    assert_eq!(visits[1].1, 0);
}

#[test]
fn dump_without_pruning_reads_the_counts() {
    let (mut tree, root, _, b) = two_children();
    tree.game_tree[b].n = 0;
    let moves = three_moves();
    let (sum_n, q, visits) = tree.dump(root, false, false, &puct_key);
    assert_eq!(sum_n, 900);
    assert_eq!(q, to_fixed(500.0) / 1000);
    assert_eq!(visits, vec![(moves[0], 900), (moves[1], 0)]);
    let (sum_n, _, visits) = tree.dump(root, false, true, &puct_key);
    assert_eq!(sum_n, 900);
    assert_eq!(visits, vec![(moves[0], 900)]);
    // A node without children.
    let (sum_n, q, visits) = tree.dump(b, true, false, &puct_key);
    assert_eq!((sum_n, q), (0, 0));
    assert!(visits.is_empty());
}

#[test]
fn principal_variation() {
    let mut tree = MCTS::new(1024);
    let root = tree.set_root(None, false);
    let (moves, q) = tree.info(root);
    assert!(moves.is_empty());
    assert_eq!(q, 0);
    for _ in 0..50 {
        playout(&mut tree, root, &three_moves(), to_fixed(0.4), false);
    }
    let (moves, q) = tree.info(root);
    let mut node = root;
    let mut expected = Vec::new();
    while !tree.game_tree[node].children.is_empty() {
        node = tree.select_n_max_child(node);
        expected.push(tree.game_tree[node].m);
    }
    assert!(!moves.is_empty());
    assert_eq!(moves, expected);
    let first = &tree.game_tree[tree.select_n_max_child(root)];
    assert_eq!(q, UNIT as i128 - (first.w / first.n as u64) as i128);
}

#[test]
fn picture_of_the_tree_is_drawn_best_first() {
    let (mut tree, root, a, b) = two_children();
    // Give the first child two children of its own.
    let moves: Vec<Move> = three_moves().into_iter().take(2).collect();
    tree.evaluate(a, &quiet(), &moves, &uniform(2), to_fixed(0.5)).unwrap();
    let grandchildren = tree.game_tree[a].children.clone();
    tree.game_tree[grandchildren[0]].n = 50;
    tree.game_tree[grandchildren[1]].n = 300;
    assert_eq!(tree.visualize(root, 0), Vec::<usize>::new());
    assert_eq!(tree.visualize(root, 1), vec![root]);
    assert_eq!(tree.visualize(root, 2), vec![root, a]);
    assert_eq!(tree.visualize(root, 3), vec![root, a, grandchildren[1]]);
    assert_eq!(tree.visualize(root, 100), vec![root, a, grandchildren[1], b, grandchildren[0]]);
    assert_eq!(tree.visualize(b, 100), vec![b]);
}

#[test]
fn a_draw_falls_on_one_weight() {
    let weights = vec![2, 0, 3, 1];
    assert_eq!(sum_weights(&weights), 6);
    assert_eq!(pick_by_weight(&weights, 0), 0);
    assert_eq!(pick_by_weight(&weights, 1), 0);
    assert_eq!(pick_by_weight(&weights, 2), 2);
    assert_eq!(pick_by_weight(&weights, 4), 2);
    assert_eq!(pick_by_weight(&weights, 5), 3);
    assert_eq!(pick_by_weight(&weights, 6), 4);
    assert_eq!(pick_by_weight(&Vec::new(), 0), 0);
    let (tree, root, _, _) = two_children();
    let moves = three_moves();
    assert_eq!(tree.move_at(root, &vec![3, 5], 2), moves[0]);
    assert_eq!(tree.move_at(root, &vec![3, 5], 3), moves[1]);
    assert_eq!(tree.move_at(root, &vec![0, 0], 0), moves[0]);
}

#[test]
fn sampling_follows_the_visit_counts() {
    let (mut tree, root, _, b) = two_children();
    let moves = three_moves();
    tree.game_tree[b].n = 300;
    let mut second = 0;
    for _ in 0..4000 {
        let m = tree.softmax_sample(root, &power_weight);
        assert!(m == moves[0] || m == moves[1]);
        if m == moves[1] {
            second += 1;
        }
    }
    // A quarter of the draws, give or take.
    assert!(second > 800 && second < 1200);
    // A child without visits is never drawn.
    tree.game_tree[b].n = 0;
    for _ in 0..200 {
        assert_eq!(tree.softmax_sample(root, &power_weight), moves[0]);
    }
    // Without any visits the first child is returned.
    let first = tree.game_tree[root].children[0];
    tree.game_tree[first].n = 0;
    assert_eq!(tree.softmax_sample(root, &power_weight), moves[0]);
}

#[test]
fn sampling_among_top_moves_leaves_out_poor_children() {
    let (mut tree, root, a, b) = two_children();
    let moves = three_moves();
    // The mean value of a is 1 - 400 / 900, that of b is 1 - 60 / 100.
    tree.game_tree[b].n = 900;
    tree.game_tree[b].w = to_fixed(540.0);
    assert_eq!(tree.select_n_max_child(root), a);
    for _ in 0..200 {
        assert_eq!(tree.softmax_sample_among_top_moves(root, to_fixed(0.1), &power_weight), moves[0]);
    }
    let mut second = 0;
    for _ in 0..2000 {
        if tree.softmax_sample_among_top_moves(root, to_fixed(0.2), &power_weight) == moves[1] {
            second += 1;
        }
    }
    assert!(second > 800 && second < 1200);
}

#[test]
fn a_playout_can_be_counted_only_while_it_is_in_flight() {
    let mut tree = MCTS::new(64);
    let root = tree.set_root(None, false);
    assert!(!tree.check_back_up(root));
    assert!(!tree.check_back_up(0));
    assert!(!tree.check_back_up(2));
    assert!(!tree.check_back_up(64));
    let path = tree.select_leaf(root, false, &puct_key);
    assert!(tree.check_back_up(root));
    tree.evaluate(path[0], &quiet(), &three_moves(), &uniform(3), to_fixed(0.4)).unwrap();
    tree.backpropagate(root);
    assert!(!tree.check_back_up(root));
    // In flight to a child: the root and the child carry the loss, its siblings do not.
    let path = tree.select_leaf(root, false, &puct_key);
    assert_eq!(path.len(), 2);
    assert!(tree.check_back_up(path[1]));
    let sibling = tree.game_tree[root].children.iter().copied().find(|&c| c != path[1]).unwrap();
    assert!(!tree.check_back_up(sibling));
    // A visit count at its limit.
    tree.game_tree[root].n = u32::MAX;
    assert!(!tree.check_back_up(path[1]));
}

#[test]
fn headroom_for_one_more_virtual_loss() {
    let mut tree = MCTS::new(64);
    let root = tree.set_root(None, false);
    assert!(tree.check_headroom());
    tree.game_tree[root].virtual_loss = u32::MAX - 1;
    assert!(tree.check_headroom());
    tree.game_tree[root].virtual_loss = u32::MAX;
    assert!(!tree.check_headroom());
}

#[test]
fn moves_with_a_place_in_the_policy_vector() {
    assert!(Move::board_move(Piece::W_ROOK, 0, 24, false, Piece::NO_PIECE).is_encodable());
    assert!(!Move::board_move(Piece::W_ROOK, 0, 7, false, Piece::NO_PIECE).is_encodable());
    assert!(!Move::board_move(Piece::W_ROOK, 3, 3, false, Piece::NO_PIECE).is_encodable());
    assert!(!Move::board_move(Piece::W_ROOK, 0, 25, false, Piece::NO_PIECE).is_encodable());
    assert!(Move::hand_move(Piece::B_PAWN, 24).is_encodable());
    assert!(!Move::hand_move(Piece::B_PAWN, 25).is_encodable());
    assert!(!Move::hand_move(Piece::B_KING, 3).is_encodable());
    assert!(!Move::hand_move(Piece::W_PAWN_X, 3).is_encodable());
    assert!(!Move::null().is_encodable());
}
