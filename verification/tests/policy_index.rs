use minishogilib::moves::{get_relation, index_to_move, Direction, Move, POLICY_SIZE};
use minishogilib::planes::piece_to_sequential_index;
use minishogilib::types::{hand_piece_type, Color, Piece, PieceType};

fn aligned_pairs() -> Vec<(usize, usize)> {
    let mut pairs = Vec::new();
    for from in 0..25usize {
        for to in 0..25usize {
            let (_, amount) = get_relation(from, to);
            if amount > 0 {
                pairs.push((from, to));
            }
        }
    }
    pairs
}

fn all_moves(side: Color) -> Vec<Move> {
    let mut moves = Vec::new();
    let slider = PieceType::ROOK.get_piece(side);
    for (from, to) in aligned_pairs() {
        for promotion in [false, true] {
            moves.push(Move::board_move(slider, from, to, promotion, Piece::NO_PIECE));
        }
    }
    for slot in 0..5usize {
        for to in 0..25usize {
            moves.push(Move::hand_move(hand_piece_type(slot).get_piece(side), to));
        }
    }
    moves
}

#[test]
fn to_policy_index_test() {
    const LOOP_NUM: i32 = 10000;

    let mut checked: i32 = 0;
    while checked < LOOP_NUM {
        for side in [Color::WHITE, Color::BLACK] {
            for m in &all_moves(side) {
                let index = m.to_policy_index();
                let move_from_index = index_to_move(side, index).unwrap();

                if m.is_hand {
                    assert_eq!(m.to, move_from_index.to);
                } else {
                    assert_eq!(m.from, move_from_index.from);
                    assert_eq!(m.promotion, move_from_index.promotion);
                }
                checked += 1;
            }
        }
    }
}

#[test]
fn piece_to_sequential_index_test() {
    assert_eq!(piece_to_sequential_index(Piece::W_KING), 0);
    assert_eq!(piece_to_sequential_index(Piece::W_GOLD), 1);
    assert_eq!(piece_to_sequential_index(Piece::W_SILVER), 2);
    assert_eq!(piece_to_sequential_index(Piece::W_BISHOP), 3);
    assert_eq!(piece_to_sequential_index(Piece::W_ROOK), 4);
    assert_eq!(piece_to_sequential_index(Piece::W_PAWN), 5);
    assert_eq!(piece_to_sequential_index(Piece::W_SILVER_X), 6);
    assert_eq!(piece_to_sequential_index(Piece::W_BISHOP_X), 7);
    assert_eq!(piece_to_sequential_index(Piece::W_ROOK_X), 8);
    assert_eq!(piece_to_sequential_index(Piece::W_PAWN_X), 9);

    assert_eq!(piece_to_sequential_index(Piece::B_KING), 10);
    assert_eq!(piece_to_sequential_index(Piece::B_GOLD), 11);
    assert_eq!(piece_to_sequential_index(Piece::B_SILVER), 12);
    assert_eq!(piece_to_sequential_index(Piece::B_BISHOP), 13);
    assert_eq!(piece_to_sequential_index(Piece::B_ROOK), 14);
    assert_eq!(piece_to_sequential_index(Piece::B_PAWN), 15);
    assert_eq!(piece_to_sequential_index(Piece::B_SILVER_X), 16);
    assert_eq!(piece_to_sequential_index(Piece::B_BISHOP_X), 17);
    assert_eq!(piece_to_sequential_index(Piece::B_ROOK_X), 18);
    assert_eq!(piece_to_sequential_index(Piece::B_PAWN_X), 19);
}

#[test]
fn piece_codes_are_kind_plus_colour() {
    assert_eq!(Piece::W_KING.as_usize(), 1);
    assert_eq!(Piece::W_PAWN.as_usize(), 6);
    assert_eq!(Piece::W_SILVER_X.as_usize(), 11);
    assert_eq!(Piece::B_KING.as_usize(), 17);
    assert_eq!(Piece::B_PAWN_X.as_usize(), 30);
    assert_eq!(Piece::NO_PIECE.as_usize(), 0);
    assert_eq!(Piece::W_ROOK.get_op_piece(), Piece::B_ROOK);
    assert_eq!(Piece::B_BISHOP_X.get_op_piece(), Piece::W_BISHOP_X);
    assert!(Piece::W_GOLD.is_raw());
    assert!(!Piece::B_ROOK_X.is_raw());
}

#[test]
fn relation_of_squares() {
    // Square 12 is the middle of the board.
    assert_eq!(get_relation(12, 7), (Direction::N, 1));
    assert_eq!(get_relation(12, 2), (Direction::N, 2));
    assert_eq!(get_relation(12, 4), (Direction::NE, 2));
    assert_eq!(get_relation(12, 14), (Direction::E, 2));
    assert_eq!(get_relation(12, 24), (Direction::SE, 2));
    assert_eq!(get_relation(12, 22), (Direction::S, 2));
    assert_eq!(get_relation(12, 20), (Direction::SW, 2));
    assert_eq!(get_relation(12, 10), (Direction::W, 2));
    assert_eq!(get_relation(12, 0), (Direction::NW, 2));
    assert_eq!(get_relation(0, 24), (Direction::SE, 4));
    // The same square, and squares that share no line.
    assert_eq!(get_relation(12, 12).1, 0);
    assert_eq!(get_relation(0, 7).1, 0);
    assert_eq!(get_relation(4, 5).1, 0);
}

#[test]
fn policy_index_exact_values() {
    // White slides one step North from square 12: channel 0, square 12.
    let m = Move::board_move(Piece::W_PAWN, 12, 7, false, Piece::NO_PIECE);
    assert_eq!(m.to_policy_index(), 12);
    // The same with promotion: channel 32.
    let m = Move::board_move(Piece::W_PAWN, 12, 7, true, Piece::NO_PIECE);
    assert_eq!(m.to_policy_index(), 32 * 25 + 12);
    // White slides two steps East: direction 2, amount 2, channel 4 * 2 + 1.
    let m = Move::board_move(Piece::W_ROOK, 10, 12, false, Piece::NO_PIECE);
    assert_eq!(m.to_policy_index(), 9 * 25 + 10);
    // Black slides one step South: seen from Black it is North, from square 24 - 7.
    let m = Move::board_move(Piece::B_PAWN, 7, 12, false, Piece::NO_PIECE);
    assert_eq!(m.to_policy_index(), 17);
    // Drops: gold is slot 0, pawn is slot 4.
    let m = Move::hand_move(Piece::W_GOLD, 3);
    assert_eq!(m.to_policy_index(), 64 * 25 + 3);
    let m = Move::hand_move(Piece::B_PAWN, 3);
    assert_eq!(m.to_policy_index(), 68 * 25 + 21);
}

#[test]
fn policy_index_stays_in_the_vector_and_is_injective() {
    for side in [Color::WHITE, Color::BLACK] {
        let mut seen = vec![false; POLICY_SIZE];
        for m in &all_moves(side) {
            let index = m.to_policy_index();
            assert!(index < POLICY_SIZE);
            assert!(!seen[index]);
            seen[index] = true;
        }
    }
}

#[test]
fn index_to_move_inverts_to_policy_index() {
    for side in [Color::WHITE, Color::BLACK] {
        for m in &all_moves(side) {
            let back = index_to_move(side, m.to_policy_index()).unwrap();
            assert_eq!(back.is_hand, m.is_hand);
            assert_eq!(back.to, m.to);
            if m.is_hand {
                assert_eq!(back.piece, m.piece);
            } else {
                assert_eq!(back.from, m.from);
                assert_eq!(back.promotion, m.promotion);
            }
        }
    }
}

#[test]
fn index_to_move_rejects_what_no_move_has() {
    assert_eq!(index_to_move(Color::WHITE, POLICY_SIZE), None);
    // One step North from square 0 leaves the board.
    assert_eq!(index_to_move(Color::WHITE, 0), None);
    // Every index either decodes to a move with that index or to nothing.
    let mut decoded = 0;
    for index in 0..POLICY_SIZE {
        if let Some(m) = index_to_move(Color::WHITE, index) {
            let piece = if m.is_hand { m.piece } else { Piece::W_ROOK };
            let again = Move { piece, ..m };
            assert_eq!(again.to_policy_index(), index);
            decoded += 1;
        }
    }
    assert_eq!(decoded, all_moves(Color::WHITE).len());
}

#[test]
fn null_move_and_pawn_drop() {
    let null = Move::null();
    assert_eq!(null.piece, Piece::NO_PIECE);
    assert!(!null.is_hand);
    assert!(Move::hand_move(Piece::W_PAWN, 7).is_pawn_drop());
    assert!(!Move::hand_move(Piece::W_GOLD, 7).is_pawn_drop());
    assert!(!Move::board_move(Piece::W_PAWN, 12, 7, false, Piece::NO_PIECE).is_pawn_drop());
    assert_eq!(Move::hand_move(Piece::B_ROOK, 7).get_hand_index(), 3);
}
