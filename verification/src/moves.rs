//! Moves and their place in the policy vector.
//!
//! The policy vector has 69 channels of 25 squares each. Channels 0 to 31 hold
//! the slides that do not promote, ordered by direction and then by distance;
//! channels 32 to 63 hold the promoting slides in the same order; channels 64 to
//! 68 hold the drops, one per kind of piece in hand. When Black is to move, the
//! board is turned by half a turn first: squares are mirrored and directions are
//! reversed.

use vstd::prelude::*;
use crate::types::{Color, Piece, PieceType, SQUARE_NB, hand_kind, hand_piece_type};

verus! {

/// Number of channels of the policy vector.
pub const POLICY_CHANNEL_NB: usize = 69;

/// Length of the policy vector.
pub const POLICY_SIZE: usize = 1725;

/// The eight directions of a slide, clockwise from North. North points to row 0,
/// East to the higher columns.
#[allow(non_camel_case_types)]
#[derive(Clone, Copy, PartialEq, Eq, Structural, Debug)]
pub enum Direction {
    N,
    NE,
    E,
    SE,
    S,
    SW,
    W,
    NW,
}

impl Direction {
    pub open spec fn code(self) -> int {
        match self {
            Direction::N => 0,
            Direction::NE => 1,
            Direction::E => 2,
            Direction::SE => 3,
            Direction::S => 4,
            Direction::SW => 5,
            Direction::W => 6,
            Direction::NW => 7,
        }
    }

    pub fn as_usize(self) -> (r: usize)
        ensures
            r == self.code(),
    {
        match self {
            Direction::N => 0,
            Direction::NE => 1,
            Direction::E => 2,
            Direction::SE => 3,
            Direction::S => 4,
            Direction::SW => 5,
            Direction::W => 6,
            Direction::NW => 7,
        }
    }
}

/// Change of column after `a` steps in direction `d`.
pub open spec fn shift_x(d: int, a: int) -> int {
    if d == 1 || d == 2 || d == 3 {
        a
    } else if d == 5 || d == 6 || d == 7 {
        -a
    } else {
        0
    }
}

/// Change of row after `a` steps in direction `d`.
pub open spec fn shift_y(d: int, a: int) -> int {
    if d == 3 || d == 4 || d == 5 {
        a
    } else if d == 7 || d == 0 || d == 1 {
        -a
    } else {
        0
    }
}

/// `to` is reached from `from` by `a` steps in direction `d`.
pub open spec fn reaches(from: int, to: int, d: int, a: int) -> bool {
    &&& 0 <= from < 25
    &&& 0 <= to < 25
    &&& 0 <= d < 8
    &&& 1 <= a <= 4
    &&& to % 5 == from % 5 + shift_x(d, a)
    &&& to / 5 == from / 5 + shift_y(d, a)
}

/// The two squares differ and lie on one row, column or diagonal.
pub open spec fn aligned(from: int, to: int) -> bool {
    exists|d: int, a: int| reaches(from, to, d, a)
}

/// The direction of the slide from `from` to `to`; North where they are not aligned.
pub open spec fn direction_of(from: int, to: int) -> int {
    let dx = to % 5 - from % 5;
    let dy = to / 5 - from / 5;
    if dx > 0 && dy < 0 {
        1
    } else if dx > 0 && dy == 0 {
        2
    } else if dx > 0 && dy > 0 {
        3
    } else if dx == 0 && dy > 0 {
        4
    } else if dx < 0 && dy > 0 {
        5
    } else if dx < 0 && dy == 0 {
        6
    } else if dx < 0 && dy < 0 {
        7
    } else {
        0
    }
}

/// The length of the slide from `from` to `to`; zero where they are not aligned.
pub open spec fn amount_of(from: int, to: int) -> int {
    let dx = to % 5 - from % 5;
    let dy = to / 5 - from / 5;
    let ax = if dx < 0 { -dx } else { dx };
    let ay = if dy < 0 { -dy } else { dy };
    if !(0 <= from < 25 && 0 <= to < 25) {
        0
    } else if ax == 0 {
        ay
    } else if ay == 0 || ax == ay {
        ax
    } else {
        0
    }
}

/// A slide is determined by its two squares: `direction_of` and `amount_of`
/// give the only direction and distance that lead from one to the other.
pub proof fn lemma_relation_unique(from: int, to: int, d: int, a: int)
    requires
        reaches(from, to, d, a),
    ensures
        d == direction_of(from, to),
        a == amount_of(from, to),
{
}

/// Aligned squares are exactly those with a positive distance.
pub proof fn lemma_aligned_amount(from: int, to: int)
    ensures
        aligned(from, to) <==> amount_of(from, to) > 0,
        amount_of(from, to) > 0 ==> reaches(from, to, direction_of(from, to), amount_of(from, to)),
        0 <= amount_of(from, to) <= 4,
        0 <= direction_of(from, to) < 8,
{
    if amount_of(from, to) > 0 {
        assert(reaches(from, to, direction_of(from, to), amount_of(from, to)));
    }
    if aligned(from, to) {
        let (d, a) = choose|d: int, a: int| reaches(from, to, d, a);
        lemma_relation_unique(from, to, d, a);
    }
}

/// Returns the direction and the distance of the slide from `from` to `to`.
/// The distance is zero where the squares are equal or not aligned.
pub fn get_relation(from: usize, to: usize) -> (r: (Direction, usize))
    requires
        from < SQUARE_NB,
        to < SQUARE_NB,
    ensures
        r.0.code() == direction_of(from as int, to as int),
        r.1 == amount_of(from as int, to as int),
        r.1 > 0 <==> aligned(from as int, to as int),
{
    proof {
        lemma_aligned_amount(from as int, to as int);
    }
    let fx: usize = from % 5;
    let fy: usize = from / 5;
    let tx: usize = to % 5;
    let ty: usize = to / 5;
    let ax: usize = if tx < fx { fx - tx } else { tx - fx };
    let ay: usize = if ty < fy { fy - ty } else { ty - fy };
    let amount: usize = if ax == 0 {
        ay
    } else if ay == 0 || ax == ay {
        ax
    } else {
        0
    };
    let direction = if tx > fx && ty < fy {
        Direction::NE
    } else if tx > fx && ty == fy {
        Direction::E
    } else if tx > fx && ty > fy {
        Direction::SE
    } else if tx == fx && ty > fy {
        Direction::S
    } else if tx < fx && ty > fy {
        Direction::SW
    } else if tx < fx && ty == fy {
        Direction::W
    } else if tx < fx && ty < fy {
        Direction::NW
    } else {
        Direction::N
    };
    (direction, amount)
}

/// A move: a slide of a piece on the board, or the drop of a piece from hand.
#[derive(Clone, Copy, PartialEq, Eq, Structural, Debug)]
pub struct Move {
    pub piece: Piece,
    pub from: usize,
    pub to: usize,
    pub is_hand: bool,
    pub promotion: bool,
    pub capture_piece: Piece,
}

/// The move that stands for "no move": it marks the root of a tree and every
/// free slot.
pub open spec fn null_move() -> Move {
    Move {
        piece: Piece::NO_PIECE,
        from: 0,
        to: 0,
        is_hand: false,
        promotion: false,
        capture_piece: Piece::NO_PIECE,
    }
}

/// The slot in hand of a droppable kind.
pub open spec fn hand_slot(kind: PieceType) -> int {
    kind.code() - 2
}

/// The index in the policy vector of a move made by `side`.
pub open spec fn policy_index_for(side: Color, m: Move) -> int {
    let turned = side == Color::BLACK;
    if m.is_hand {
        (64 + hand_slot(m.piece.kind())) * 25 + (if turned {
            24 - m.to
        } else {
            m.to as int
        })
    } else {
        let d = direction_of(m.from as int, m.to as int);
        let a = amount_of(m.from as int, m.to as int);
        let channel = (if m.promotion {
            32int
        } else {
            0int
        }) + 4 * (if turned {
            (d + 4) % 8
        } else {
            d
        }) + a - 1;
        channel * 25 + (if turned {
            24 - m.from
        } else {
            m.from as int
        })
    }
}

/// The move of `side` that stands at `index` in the policy vector, if there is
/// one. A slide comes back without its piece and without a capture, a drop with
/// its piece.
pub open spec fn decode(side: Color, index: int) -> Option<Move> {
    let turned = side == Color::BLACK;
    let channel = index / 25;
    let square = if turned {
        24 - index % 25
    } else {
        index % 25
    };
    if index < 0 || index >= 1725 {
        None
    } else if channel >= 64 {
        Some(
            Move {
                piece: hand_kind(channel - 64).piece_of(side),
                from: 0,
                to: square as usize,
                is_hand: true,
                promotion: false,
                capture_piece: Piece::NO_PIECE,
            },
        )
    } else {
        let slide = channel % 32;
        let d = if turned {
            (slide / 4 + 4) % 8
        } else {
            slide / 4
        };
        let a = slide % 4 + 1;
        let x = square % 5 + shift_x(d, a);
        let y = square / 5 + shift_y(d, a);
        if 0 <= x < 5 && 0 <= y < 5 {
            Some(
                Move {
                    piece: Piece::NO_PIECE,
                    from: square as usize,
                    to: (y * 5 + x) as usize,
                    is_hand: false,
                    promotion: channel >= 32,
                    capture_piece: Piece::NO_PIECE,
                },
            )
        } else {
            None
        }
    }
}

impl Move {
    /// A move that the policy vector has a place for: a drop of a droppable
    /// piece on a square of the board, or a slide between two aligned squares.
    pub open spec fn encodable(self) -> bool {
        if self.is_hand {
            self.to < 25 && self.piece.kind().droppable()
        } else {
            aligned(self.from as int, self.to as int)
        }
    }

    /// The index of the move in the policy vector, from the mover's side.
    pub open spec fn policy_index(self) -> int {
        policy_index_for(self.piece.color(), self)
    }

    pub fn null() -> (m: Move)
        ensures
            m == null_move(),
    {
        Move {
            piece: Piece::NO_PIECE,
            from: 0,
            to: 0,
            is_hand: false,
            promotion: false,
            capture_piece: Piece::NO_PIECE,
        }
    }

    pub fn board_move(
        piece: Piece,
        from: usize,
        to: usize,
        promotion: bool,
        capture_piece: Piece,
    ) -> (m: Move)
        ensures
            m == (Move { piece, from, to, is_hand: false, promotion, capture_piece }),
    {
        Move { piece, from, to, is_hand: false, promotion, capture_piece }
    }

    pub fn hand_move(piece: Piece, to: usize) -> (m: Move)
        ensures
            m == (Move {
                piece,
                from: 0,
                to,
                is_hand: true,
                promotion: false,
                capture_piece: Piece::NO_PIECE,
            }),
    {
        Move { piece, from: 0, to, is_hand: true, promotion: false, capture_piece: Piece::NO_PIECE }
    }

    /// Returns whether the policy vector has a place for the move.
    pub fn is_encodable(&self) -> (r: bool)
        ensures
            r == self.encodable(),
    {
        if self.is_hand {
            let kind: usize = self.piece.get_piece_type().as_usize();
            self.to < SQUARE_NB && 2 <= kind && kind <= 6
        } else if self.from < SQUARE_NB && self.to < SQUARE_NB {
            get_relation(self.from, self.to).1 > 0
        } else {
            false
        }
    }

    pub fn get_promotion(&self) -> (r: bool)
        ensures
            r == self.promotion,
    {
        self.promotion
    }

    /// Returns the hand slot of the dropped piece.
    pub fn get_hand_index(&self) -> (r: usize)
        requires
            self.piece.kind().droppable(),
        ensures
            r == hand_slot(self.piece.kind()),
            r < 5,
    {
        self.piece.get_piece_type().as_usize() - 2
    }

    /// Whether the move drops a pawn.
    pub fn is_pawn_drop(&self) -> (r: bool)
        ensures
            r == (self.is_hand && self.piece.kind() == PieceType::PAWN),
    {
        self.is_hand && self.piece.get_piece_type() == PieceType::PAWN
    }

    /// Returns the index of the move in the policy vector.
    pub fn to_policy_index(&self) -> (r: usize)
        requires
            self.encodable(),
        ensures
            r == self.policy_index(),
            r < POLICY_SIZE,
    {
        let turned: bool = self.piece.get_color() == Color::BLACK;
        if self.is_hand {
            let channel: usize = 64 + self.get_hand_index();
            let square: usize = if turned { SQUARE_NB - 1 - self.to } else { self.to };
            channel * SQUARE_NB + square
        } else {
            proof {
                lemma_aligned_amount(self.from as int, self.to as int);
            }
            let (direction, amount) = get_relation(self.from, self.to);
            let d: usize = if turned {
                (direction.as_usize() + 4) % 8
            } else {
                direction.as_usize()
            };
            let base: usize = if self.get_promotion() { 32 } else { 0 };
            let channel: usize = base + 4 * d + amount - 1;
            let square: usize = if turned { SQUARE_NB - 1 - self.from } else { self.from };
            channel * SQUARE_NB + square
        }
    }
}

/// Returns the move of `side` that stands at `index` in the policy vector:
/// `None` where the index lies outside the vector or names a slide that leaves
/// the board.
#[verifier::rlimit(60)]
pub fn index_to_move(side: Color, index: usize) -> (r: Option<Move>)
    ensures
        r == decode(side, index as int),
        r is Some ==> r->0.encodable() && policy_index_for(side, r->0) == index,
        r is None ==> forall|m: Move| #[trigger] m.encodable() ==> policy_index_for(side, m) !=
            index,
{
    proof {
        lemma_decode_inverts(side, index as int);
    }
    if index >= POLICY_SIZE {
        return None;
    }
    let turned: bool = side == Color::BLACK;
    let channel: usize = index / SQUARE_NB;
    let square: usize = if turned { SQUARE_NB - 1 - index % SQUARE_NB } else { index % SQUARE_NB };
    if channel >= 64 {
        let piece = hand_piece_type(channel - 64).get_piece(side);
        Some(Move::hand_move(piece, square))
    } else {
        let slide: usize = channel % 32;
        let d: usize = if turned { (slide / 4 + 4) % 8 } else { slide / 4 };
        let a: usize = slide % 4 + 1;
        let ai: i32 = a as i32;
        let mx: i32 = if d == 1 || d == 2 || d == 3 {
            ai
        } else if d == 5 || d == 6 || d == 7 {
            -ai
        } else {
            0
        };
        let my: i32 = if d == 3 || d == 4 || d == 5 {
            ai
        } else if d == 7 || d == 0 || d == 1 {
            -ai
        } else {
            0
        };
        let x: i32 = (square % 5) as i32 + mx;
        let y: i32 = (square / 5) as i32 + my;
        if 0 <= x && x < 5 && 0 <= y && y < 5 {
            let to: usize = (y * 5 + x) as usize;
            Some(Move::board_move(Piece::NO_PIECE, square, to, channel >= 32, Piece::NO_PIECE))
        } else {
            None
        }
    }
}

/// What `decode` returns is a move with the asked index, and where it returns
/// nothing no encodable move has that index.
#[verifier::rlimit(60)]
pub proof fn lemma_decode_inverts(side: Color, index: int)
    ensures
        decode(side, index) is Some ==> decode(side, index)->0.encodable() && policy_index_for(
            side,
            decode(side, index)->0,
        ) == index,
        decode(side, index) is None ==> forall|m: Move| #[trigger]
            m.encodable() ==> policy_index_for(side, m) != index,
{
    let r = decode(side, index);
    if r is Some {
        let m = r->0;
        if !m.is_hand {
            let turned = side == Color::BLACK;
            let channel = index / 25;
            let slide = channel % 32;
            let d = if turned {
                (slide / 4 + 4) % 8
            } else {
                slide / 4
            };
            let a = slide % 4 + 1;
            assert(reaches(m.from as int, m.to as int, d, a));
            lemma_relation_unique(m.from as int, m.to as int, d, a);
        }
    } else {
        assert forall|m: Move| #[trigger] m.encodable() implies policy_index_for(side, m)
            != index by {
            if policy_index_for(side, m) == index {
                lemma_round_trip_for(side, m);
            }
        }
    }
}

/// Decoding the index of an encodable move gives back its squares, its
/// promotion flag and whether it is a drop; for a drop also the kind of piece.
pub proof fn lemma_round_trip_for(side: Color, m: Move)
    requires
        m.encodable(),
    ensures
        0 <= policy_index_for(side, m) < 1725,
        decode(side, policy_index_for(side, m)) is Some,
        decode(side, policy_index_for(side, m))->0.is_hand == m.is_hand,
        decode(side, policy_index_for(side, m))->0.to == m.to,
        !m.is_hand ==> decode(side, policy_index_for(side, m))->0.from == m.from,
        !m.is_hand ==> decode(side, policy_index_for(side, m))->0.promotion == m.promotion,
        m.is_hand ==> decode(side, policy_index_for(side, m))->0.piece.kind() == m.piece.kind(),
        m.is_hand ==> decode(side, policy_index_for(side, m))->0.piece.color() == side,
{
    if m.is_hand {
        lemma_round_trip_drop(side, m);
    } else {
        lemma_round_trip_slide(side, m);
    }
}

proof fn lemma_index_split(channel: int, sq: int)
    requires
        0 <= channel,
        0 <= sq < 25,
    ensures
        (channel * 25 + sq) / 25 == channel,
        (channel * 25 + sq) % 25 == sq,
{
}

proof fn lemma_channel_split(base: int, dr: int, a: int)
    requires
        base == 0 || base == 32,
        0 <= dr < 8,
        1 <= a <= 4,
    ensures
        0 <= base + 4 * dr + a - 1 < 64,
        (base + 4 * dr + a - 1 >= 32) == (base == 32),
        ((base + 4 * dr + a - 1) % 32) / 4 == dr,
        ((base + 4 * dr + a - 1) % 32) % 4 == a - 1,
{
}

proof fn lemma_half_turn(d: int)
    requires
        0 <= d < 8,
    ensures
        0 <= (d + 4) % 8 < 8,
        ((d + 4) % 8 + 4) % 8 == d,
{
}

#[verifier::rlimit(60)]
proof fn lemma_round_trip_drop(side: Color, m: Move)
    requires
        m.encodable(),
        m.is_hand,
    ensures
        0 <= policy_index_for(side, m) < 1725,
        decode(side, policy_index_for(side, m)) == Some(
            Move {
                piece: m.piece.kind().piece_of(side),
                from: 0,
                to: m.to,
                is_hand: true,
                promotion: false,
                capture_piece: Piece::NO_PIECE,
            },
        ),
{
    let turned = side == Color::BLACK;
    let slot = hand_slot(m.piece.kind());
    let sq = if turned {
        24 - m.to
    } else {
        m.to as int
    };
    assert(0 <= slot < 5);
    lemma_index_split(64 + slot, sq);
    assert(hand_kind(slot) == m.piece.kind());
}

#[verifier::rlimit(60)]
proof fn lemma_round_trip_slide(side: Color, m: Move)
    requires
        m.encodable(),
        !m.is_hand,
    ensures
        0 <= policy_index_for(side, m) < 1725,
        decode(side, policy_index_for(side, m)) == Some(
            Move {
                piece: Piece::NO_PIECE,
                from: m.from,
                to: m.to,
                is_hand: false,
                promotion: m.promotion,
                capture_piece: Piece::NO_PIECE,
            },
        ),
{
    let turned = side == Color::BLACK;
    let index = policy_index_for(side, m);
    lemma_aligned_amount(m.from as int, m.to as int);
    let from = m.from as int;
    let to = m.to as int;
    let d = direction_of(from, to);
    let a = amount_of(from, to);
    assert(reaches(from, to, d, a));
    let dr = if turned {
        (d + 4) % 8
    } else {
        d
    };
    let base = if m.promotion {
        32int
    } else {
        0int
    };
    let channel = base + 4 * dr + a - 1;
    let sq = if turned {
        24 - from
    } else {
        from
    };
    lemma_half_turn(d);
    lemma_channel_split(base, dr, a);
    lemma_index_split(channel, sq);
    assert(index == channel * 25 + sq);
    assert(index / 25 == channel);
    assert(index % 25 == sq);
    let slide = channel % 32;
    let back = if turned {
        (slide / 4 + 4) % 8
    } else {
        slide / 4
    };
    assert(back == d);
    assert(slide % 4 + 1 == a);
    let square = if turned {
        24 - index % 25
    } else {
        index % 25
    };
    assert(square == from);
    let x = square % 5 + shift_x(d, a);
    let y = square / 5 + shift_y(d, a);
    assert(x == to % 5 && y == to / 5);
    assert(y * 5 + x == to);
}

/// Every legal move finds itself again: an encodable move, encoded from its
/// mover's side and decoded for that side, keeps its destination; a slide keeps
/// its origin and its promotion flag, a drop its piece.
pub proof fn lemma_policy_round_trip(m: Move)
    requires
        m.encodable(),
    ensures
        0 <= m.policy_index() < 1725,
        decode(m.piece.color(), m.policy_index()) is Some,
        decode(m.piece.color(), m.policy_index())->0.is_hand == m.is_hand,
        decode(m.piece.color(), m.policy_index())->0.to == m.to,
        !m.is_hand ==> decode(m.piece.color(), m.policy_index())->0.from == m.from,
        !m.is_hand ==> decode(m.piece.color(), m.policy_index())->0.promotion == m.promotion,
        m.is_hand ==> decode(m.piece.color(), m.policy_index())->0.piece == m.piece,
{
    lemma_round_trip_for(m.piece.color(), m);
}

/// Two encodable moves of one side share an index only if they agree on
/// everything the index encodes.
pub proof fn lemma_policy_index_injective(side: Color, m1: Move, m2: Move)
    requires
        m1.encodable(),
        m2.encodable(),
        policy_index_for(side, m1) == policy_index_for(side, m2),
    ensures
        m1.is_hand == m2.is_hand,
        m1.to == m2.to,
        !m1.is_hand ==> m1.from == m2.from && m1.promotion == m2.promotion,
        m1.is_hand ==> m1.piece.kind() == m2.piece.kind(),
{
    lemma_round_trip_for(side, m1);
    lemma_round_trip_for(side, m2);
}

} // verus!
