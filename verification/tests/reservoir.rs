use minishogilib::moves::{Move, POLICY_SIZE};
use minishogilib::planes::{Position, Snapshot, CHANNEL_NUM, HISTORY, INPUT_SIZE};
use minishogilib::record::{PlyResult, Record};
use minishogilib::reservoir::{log_line, Reservoir};
use minishogilib::training::{policy_counts, value_target};
use minishogilib::types::{Color, Piece};
use std::collections::VecDeque;

fn record(tag: usize, plies: usize, targets: Vec<usize>) -> Record {
    Record {
        sfen_kif: (0..plies).map(|k| format!("{}-{}", tag, k)).collect(),
        mcts_result: (0..plies)
            .map(|k| PlyResult { sum_n: 10, q: 0, visits: vec![(format!("{}-{}", tag, k), 10)] })
            .collect(),
        winner: (tag % 3) as u8,
        learning_target_plys: targets,
    }
}

fn tags(reservoir: &Reservoir) -> Vec<String> {
    reservoir.records.iter().map(|r| r.sfen_kif[0].clone()).collect()
}

fn start_position() -> Position {
    let mut board = [Piece::NO_PIECE; 25];
    board[0] = Piece::B_ROOK;
    board[1] = Piece::B_BISHOP;
    board[2] = Piece::B_SILVER;
    board[3] = Piece::B_GOLD;
    board[4] = Piece::B_KING;
    board[9] = Piece::B_PAWN;
    board[15] = Piece::W_PAWN;
    board[20] = Piece::W_KING;
    board[21] = Piece::W_GOLD;
    board[22] = Piece::W_SILVER;
    board[23] = Piece::W_BISHOP;
    board[24] = Piece::W_ROOK;
    Position {
        side_to_move: Color::WHITE,
        ply: 0,
        history: vec![Snapshot { board, hand: [[0; 5]; 2], repetition: 0 }],
    }
}

#[test]
fn reservoir_sampling_shape() {
    let mut reservoir = Reservoir::new("records.json", 8);
    assert!(reservoir.push(record(0, 9, vec![0, 4, 8]), "{}").is_some());
    assert!(reservoir.push(record(1, 9, vec![1, 2, 3, 5, 7]), "{}").is_some());
    assert!(reservoir.push(record(2, 9, vec![6, 8]), "{}").is_some());
    assert!(reservoir.push(record(3, 9, vec![0, 1, 2, 3]), "{}").is_some());
    assert_eq!(reservoir.cumulative_plys(), Some(vec![0, 3, 8, 10, 14]));

    let found = reservoir.sample(7).unwrap();
    assert_eq!(found.len(), 7);
    let mut inputs = Vec::new();
    let mut policies = Vec::new();
    let mut values = Vec::new();
    for &(index, ply) in &found {
        let record = &reservoir.records[index];
        assert!(record.learning_target_plys.contains(&ply));
        let side = if ply % 2 == 0 { Color::WHITE } else { Color::BLACK };
        inputs.extend(start_position().to_alphazero_input_array(false));
        let playouts: Vec<(Move, u32)> = record.mcts_result[ply]
            .visits
            .iter()
            .map(|(_, n)| (Move::hand_move(Piece::W_GOLD, ply), *n))
            .collect();
        let sum_n = record.mcts_result[ply].sum_n;
        let policy: Vec<f32> =
            policy_counts(&playouts).iter().map(|&n| n as f32 / sum_n as f32).collect();
        assert!((policy.iter().sum::<f32>() - 1.0).abs() < 1e-6);
        policies.extend(policy);
        values.push(value_target(record.winner, side));
    }
    assert_eq!(inputs.len(), 7 * 6650);
    assert_eq!(policies.len(), 7 * 1725);
    assert_eq!(values.len(), 7);
    assert!(values.iter().all(|v| [-1, 0, 1].contains(v)));
}

#[test]
fn samples_come_in_the_order_of_the_records() {
    let mut reservoir = Reservoir::new("records.json", 8);
    reservoir.push(record(0, 9, vec![0, 4, 8]), "{}");
    reservoir.push(record(1, 9, vec![]), "{}");
    reservoir.push(record(2, 9, vec![6, 8]), "{}");
    for _ in 0..50 {
        let found = reservoir.sample(40).unwrap();
        assert_eq!(found.len(), 40);
        for pair in found.windows(2) {
            assert!(pair[0].0 <= pair[1].0);
        }
        for &(index, ply) in &found {
            assert!(index == 0 || index == 2);
            assert!(reservoir.records[index].learning_target_plys.contains(&ply));
        }
    }
}

#[test]
fn every_learning_target_is_drawn_as_often() {
    let mut reservoir = Reservoir::new("records.json", 8);
    reservoir.push(record(0, 9, vec![0, 4, 8]), "{}");
    reservoir.push(record(1, 9, vec![1, 2, 3, 5, 7]), "{}");
    reservoir.push(record(2, 9, vec![6]), "{}");
    let mut counts = std::collections::BTreeMap::new();
    let draws = 200;
    for _ in 0..draws {
        for target in reservoir.sample(90).unwrap() {
            *counts.entry(target).or_insert(0u32) += 1;
        }
    }
    assert_eq!(counts.len(), 9);
    let expected = (draws * 90 / 9) as f64;
    for (_, &count) in &counts {
        assert!((count as f64 - expected).abs() < 0.15 * expected);
    }
}

#[test]
fn locate_finds_the_record_and_the_ply_of_each_draw() {
    let mut reservoir = Reservoir::new("records.json", 8);
    reservoir.push(record(0, 9, vec![0, 4, 8]), "{}");
    reservoir.push(record(1, 9, vec![]), "{}");
    reservoir.push(record(2, 9, vec![6, 7]), "{}");
    let draws: Vec<u64> = vec![0, 1, 1, 2, 3, 4];
    assert_eq!(reservoir.locate(&draws), vec![(0, 0), (0, 4), (0, 4), (0, 8), (2, 6), (2, 7)]);
    assert_eq!(reservoir.locate(&Vec::new()), Vec::new());
}

#[test]
fn nothing_to_sample_from() {
    let mut reservoir = Reservoir::new("records.json", 8);
    assert_eq!(reservoir.sample(4), None);
    assert_eq!(reservoir.sample(0), None);
    reservoir.push(record(0, 9, vec![]), "{}");
    assert_eq!(reservoir.sample(4), None);
    reservoir.push(record(1, 9, vec![3]), "{}");
    assert_eq!(reservoir.sample(3), Some(vec![(1, 3), (1, 3), (1, 3)]));
    assert_eq!(reservoir.sample(0), Some(Vec::new()));
}

#[test]
fn fifo_eviction() {
    let mut reservoir = Reservoir::new("records.json", 3);
    assert_eq!(reservoir.len(), 0);
    assert_eq!(reservoir.json_path, "records.json");
    assert_eq!(reservoir.max_size, 3);
    for tag in 0..7 {
        reservoir.push(record(tag, 2, vec![tag]), "{}");
        assert_eq!(reservoir.len(), (tag + 1).min(3));
    }
    assert_eq!(tags(&reservoir), vec!["4-0", "5-0", "6-0"]);
    let targets: Vec<Vec<usize>> = reservoir.learning_targets.iter().cloned().collect();
    assert_eq!(targets, vec![vec![4], vec![5], vec![6]]);
}

#[test]
fn push_returns_the_line_for_the_log() {
    let mut reservoir = Reservoir::new("records.json", 3);
    assert_eq!(reservoir.push(record(0, 2, vec![0]), "{\"winner\":0}"), Some("{\"winner\":0}\n".to_string()));
    assert_eq!(reservoir.push_with_option(record(1, 2, vec![0]), "{}", true), Some("{}\n".to_string()));
    assert_eq!(reservoir.push_with_option(record(2, 2, vec![0]), "{}", false), None);
    assert_eq!(tags(&reservoir), vec!["0-0", "1-0", "2-0"]);
    assert_eq!(log_line(""), "\n");
}

#[test]
fn load_pushes_in_order() {
    let mut reservoir = Reservoir::new("records.json", 3);
    reservoir.push(record(9, 2, vec![1]), "{}");
    let log: VecDeque<Record> = (0..5).map(|tag| record(tag, 2, vec![0])).collect();
    reservoir.load(log);
    assert_eq!(tags(&reservoir), vec!["2-0", "3-0", "4-0"]);
    reservoir.load(VecDeque::new());
    assert_eq!(tags(&reservoir), vec!["2-0", "3-0", "4-0"]);
}

#[test]
fn a_reservoir_for_no_record_never_evicts() {
    let mut reservoir = Reservoir::new("records.json", 0);
    for tag in 0..4 {
        reservoir.push(record(tag, 2, vec![0]), "{}");
    }
    assert_eq!(reservoir.len(), 4);
}

#[test]
fn valid_records() {
    assert!(record(0, 9, vec![0, 8]).is_valid());
    assert!(!record(0, 9, vec![0, 9]).is_valid());
    let mut wrong = record(0, 9, vec![0]);
    wrong.winner = 3;
    assert!(!wrong.is_valid());
    assert_eq!(record(0, 9, vec![5, 2]).targets(), vec![5, 2]);
}

#[test]
fn value_targets() {
    assert_eq!(value_target(2, Color::WHITE), 0);
    assert_eq!(value_target(2, Color::BLACK), 0);
    assert_eq!(value_target(0, Color::WHITE), 1);
    assert_eq!(value_target(0, Color::BLACK), -1);
    assert_eq!(value_target(1, Color::BLACK), 1);
    assert_eq!(value_target(1, Color::WHITE), -1);
}

#[test]
fn policy_counts_stand_at_the_index_of_their_move() {
    let first = Move::board_move(Piece::W_PAWN, 12, 7, false, Piece::NO_PIECE);
    let second = Move::hand_move(Piece::W_PAWN, 3);
    let counts = policy_counts(&vec![(first, 30), (second, 70), (first, 45)]);
    assert_eq!(counts.len(), POLICY_SIZE);
    assert_eq!(counts[12], 45);
    assert_eq!(counts[68 * 25 + 3], 70);
    assert_eq!(counts.iter().map(|&n| n as u64).sum::<u64>(), 115);
    assert!(policy_counts(&Vec::new()).iter().all(|&n| n == 0));
}

#[test]
fn input_planes_of_the_start_position() {
    let position = start_position();
    let planes = position.to_alphazero_input_array(false);
    assert_eq!(planes.len(), INPUT_SIZE);
    assert_eq!(CHANNEL_NUM * 25, INPUT_SIZE);
    assert_eq!(HISTORY * 33 + 2, CHANNEL_NUM);
    let at = |channel: usize, square: usize| planes[channel * 25 + square];
    // White to move, no ply played.
    assert!((0..50).all(|i| planes[i] == 0));
    // The white king is piece 0 of the side to move, on square 20.
    assert_eq!(at(2, 20), 1);
    assert_eq!((0..25).map(|s| at(2, s)).sum::<u16>(), 1);
    // The white pawn is piece 5, the black pawn piece 15.
    assert_eq!(at(2 + 5, 15), 1);
    assert_eq!(at(2 + 15, 9), 1);
    // The position has not occurred before: the first repetition plane is full.
    assert!((0..25).all(|s| at(2 + 20, s) == 1));
    assert!((0..25).all(|s| at(2 + 21, s) == 0 && at(2 + 22, s) == 0));
    // Twelve pieces and one full plane.
    assert_eq!(planes.iter().map(|&v| v as u32).sum::<u32>(), 12 + 25);
    // Nothing is shown of positions that have not been.
    assert!(planes[(2 + 33) * 25..].iter().all(|&v| v == 0));
    for index in [0, 49, 50, 2 * 25 + 20, 6649] {
        assert_eq!(position.plane_at(false, index), planes[index]);
    }
}

#[test]
fn input_planes_are_seen_from_the_side_to_move() {
    let mut position = start_position();
    position.side_to_move = Color::BLACK;
    position.ply = 3;
    position.history[0].hand = [[0, 0, 0, 0, 1], [2, 0, 0, 0, 0]];
    position.history[0].repetition = 2;
    let older = start_position().history.remove(0);
    position.history.push(older);
    let planes = position.to_alphazero_input_array(false);
    let at = |channel: usize, square: usize| planes[channel * 25 + square];
    // Black to move, three plies played.
    assert!((0..25).all(|s| at(0, s) == 1));
    assert!((0..25).all(|s| at(1, s) == 3));
    // The black king on square 4 is piece 0 of the side to move, seen on square 20.
    assert_eq!(at(2, 20), 1);
    // The white king on square 20 is piece 10, seen on square 4.
    assert_eq!(at(2 + 10, 4), 1);
    // The third repetition plane.
    assert!((0..25).all(|s| at(2 + 22, s) == 1 && at(2 + 20, s) == 0));
    // Black holds two golds, White one pawn.
    assert!((0..25).all(|s| at(2 + 23, s) == 2));
    assert!((0..25).all(|s| at(2 + 28 + 4, s) == 1));
    assert!((0..25).all(|s| at(2 + 23 + 4, s) == 0 && at(2 + 28, s) == 0));
    // The position before, in the second group of planes.
    assert_eq!(at(2 + 33, 20), 1);
    assert!((0..25).all(|s| at(2 + 33 + 20, s) == 1));
    assert!((0..25).all(|s| at(2 + 33 + 23, s) == 0));
    // Mirrored left to right: the black king is seen on square 24.
    let flipped = position.to_alphazero_input_array(true);
    assert_eq!(flipped[2 * 25 + 24], 1);
    assert_eq!(flipped[2 * 25 + 20], 0);
}
