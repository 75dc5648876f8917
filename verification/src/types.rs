//! Colours, pieces and squares of the 5x5 board.
//!
//! Squares are numbered row by row, `0` to `24`; square `i` lies in row `i / 5`
//! and column `i % 5`.

use vstd::prelude::*;

verus! {

/// Number of squares on the board.
pub const SQUARE_NB: usize = 25;

/// Side length of the board.
pub const BOARD_SIZE: usize = 5;

/// Number of piece kinds that can be held in hand.
pub const HAND_PIECE_NB: usize = 5;

#[allow(non_camel_case_types)]
#[derive(Clone, Copy, PartialEq, Eq, Structural, Debug)]
pub enum Color {
    WHITE,
    BLACK,
}

impl Color {
    pub open spec fn code(self) -> int {
        match self {
            Color::WHITE => 0,
            Color::BLACK => 1,
        }
    }

    pub fn as_usize(self) -> (r: usize)
        ensures
            r == self.code(),
    {
        match self {
            Color::WHITE => 0,
            Color::BLACK => 1,
        }
    }

    pub open spec fn opponent(self) -> Color {
        match self {
            Color::WHITE => Color::BLACK,
            Color::BLACK => Color::WHITE,
        }
    }

    pub fn get_op_color(self) -> (r: Color)
        ensures
            r == self.opponent(),
    {
        match self {
            Color::WHITE => Color::BLACK,
            Color::BLACK => Color::WHITE,
        }
    }
}

/// The kind of a piece, without its colour. Promoted kinds carry the suffix `_X`.
#[allow(non_camel_case_types)]
#[derive(Clone, Copy, PartialEq, Eq, Structural, Debug)]
pub enum PieceType {
    NO_PIECE_TYPE,
    KING,
    GOLD,
    SILVER,
    BISHOP,
    ROOK,
    PAWN,
    SILVER_X,
    BISHOP_X,
    ROOK_X,
    PAWN_X,
}

impl PieceType {
    /// Numeric code of the kind: unpromoted kinds are 1 to 6, a promoted kind is
    /// its unpromoted code plus 8.
    pub open spec fn code(self) -> int {
        match self {
            PieceType::NO_PIECE_TYPE => 0,
            PieceType::KING => 1,
            PieceType::GOLD => 2,
            PieceType::SILVER => 3,
            PieceType::BISHOP => 4,
            PieceType::ROOK => 5,
            PieceType::PAWN => 6,
            PieceType::SILVER_X => 11,
            PieceType::BISHOP_X => 12,
            PieceType::ROOK_X => 13,
            PieceType::PAWN_X => 14,
        }
    }

    pub fn as_usize(self) -> (r: usize)
        ensures
            r == self.code(),
    {
        match self {
            PieceType::NO_PIECE_TYPE => 0,
            PieceType::KING => 1,
            PieceType::GOLD => 2,
            PieceType::SILVER => 3,
            PieceType::BISHOP => 4,
            PieceType::ROOK => 5,
            PieceType::PAWN => 6,
            PieceType::SILVER_X => 11,
            PieceType::BISHOP_X => 12,
            PieceType::ROOK_X => 13,
            PieceType::PAWN_X => 14,
        }
    }

    /// Whether a piece of this kind can be held in hand and dropped.
    pub open spec fn droppable(self) -> bool {
        2 <= self.code() <= 6
    }

    /// The piece of this kind and the given colour.
    pub open spec fn piece_of(self, c: Color) -> Piece {
        match (c, self) {
            (_, PieceType::NO_PIECE_TYPE) => Piece::NO_PIECE,
            (Color::WHITE, PieceType::KING) => Piece::W_KING,
            (Color::WHITE, PieceType::GOLD) => Piece::W_GOLD,
            (Color::WHITE, PieceType::SILVER) => Piece::W_SILVER,
            (Color::WHITE, PieceType::BISHOP) => Piece::W_BISHOP,
            (Color::WHITE, PieceType::ROOK) => Piece::W_ROOK,
            (Color::WHITE, PieceType::PAWN) => Piece::W_PAWN,
            (Color::WHITE, PieceType::SILVER_X) => Piece::W_SILVER_X,
            (Color::WHITE, PieceType::BISHOP_X) => Piece::W_BISHOP_X,
            (Color::WHITE, PieceType::ROOK_X) => Piece::W_ROOK_X,
            (Color::WHITE, PieceType::PAWN_X) => Piece::W_PAWN_X,
            (Color::BLACK, PieceType::KING) => Piece::B_KING,
            (Color::BLACK, PieceType::GOLD) => Piece::B_GOLD,
            (Color::BLACK, PieceType::SILVER) => Piece::B_SILVER,
            (Color::BLACK, PieceType::BISHOP) => Piece::B_BISHOP,
            (Color::BLACK, PieceType::ROOK) => Piece::B_ROOK,
            (Color::BLACK, PieceType::PAWN) => Piece::B_PAWN,
            (Color::BLACK, PieceType::SILVER_X) => Piece::B_SILVER_X,
            (Color::BLACK, PieceType::BISHOP_X) => Piece::B_BISHOP_X,
            (Color::BLACK, PieceType::ROOK_X) => Piece::B_ROOK_X,
            (Color::BLACK, PieceType::PAWN_X) => Piece::B_PAWN_X,
        }
    }

    pub fn get_piece(self, c: Color) -> (r: Piece)
        ensures
            r == self.piece_of(c),
            self != PieceType::NO_PIECE_TYPE ==> r.color() == c && r.kind() == self,
    {
        match (c, self) {
            (_, PieceType::NO_PIECE_TYPE) => Piece::NO_PIECE,
            (Color::WHITE, PieceType::KING) => Piece::W_KING,
            (Color::WHITE, PieceType::GOLD) => Piece::W_GOLD,
            (Color::WHITE, PieceType::SILVER) => Piece::W_SILVER,
            (Color::WHITE, PieceType::BISHOP) => Piece::W_BISHOP,
            (Color::WHITE, PieceType::ROOK) => Piece::W_ROOK,
            (Color::WHITE, PieceType::PAWN) => Piece::W_PAWN,
            (Color::WHITE, PieceType::SILVER_X) => Piece::W_SILVER_X,
            (Color::WHITE, PieceType::BISHOP_X) => Piece::W_BISHOP_X,
            (Color::WHITE, PieceType::ROOK_X) => Piece::W_ROOK_X,
            (Color::WHITE, PieceType::PAWN_X) => Piece::W_PAWN_X,
            (Color::BLACK, PieceType::KING) => Piece::B_KING,
            (Color::BLACK, PieceType::GOLD) => Piece::B_GOLD,
            (Color::BLACK, PieceType::SILVER) => Piece::B_SILVER,
            (Color::BLACK, PieceType::BISHOP) => Piece::B_BISHOP,
            (Color::BLACK, PieceType::ROOK) => Piece::B_ROOK,
            (Color::BLACK, PieceType::PAWN) => Piece::B_PAWN,
            (Color::BLACK, PieceType::SILVER_X) => Piece::B_SILVER_X,
            (Color::BLACK, PieceType::BISHOP_X) => Piece::B_BISHOP_X,
            (Color::BLACK, PieceType::ROOK_X) => Piece::B_ROOK_X,
            (Color::BLACK, PieceType::PAWN_X) => Piece::B_PAWN_X,
        }
    }
}

/// A piece with its colour. `W_` is White, `B_` is Black, `_X` is promoted.
#[allow(non_camel_case_types)]
#[derive(Clone, Copy, PartialEq, Eq, Structural, Debug)]
pub enum Piece {
    NO_PIECE,
    W_KING,
    W_GOLD,
    W_SILVER,
    W_BISHOP,
    W_ROOK,
    W_PAWN,
    W_SILVER_X,
    W_BISHOP_X,
    W_ROOK_X,
    W_PAWN_X,
    B_KING,
    B_GOLD,
    B_SILVER,
    B_BISHOP,
    B_ROOK,
    B_PAWN,
    B_SILVER_X,
    B_BISHOP_X,
    B_ROOK_X,
    B_PAWN_X,
}

impl Piece {
    /// The colour of the piece; the empty square counts as White.
    pub open spec fn color(self) -> Color {
        match self {
            Piece::B_KING
            | Piece::B_GOLD
            | Piece::B_SILVER
            | Piece::B_BISHOP
            | Piece::B_ROOK
            | Piece::B_PAWN
            | Piece::B_SILVER_X
            | Piece::B_BISHOP_X
            | Piece::B_ROOK_X
            | Piece::B_PAWN_X => Color::BLACK,
            _ => Color::WHITE,
        }
    }

    /// The kind of the piece, promotion included.
    pub open spec fn kind(self) -> PieceType {
        match self {
            Piece::NO_PIECE => PieceType::NO_PIECE_TYPE,
            Piece::W_KING | Piece::B_KING => PieceType::KING,
            Piece::W_GOLD | Piece::B_GOLD => PieceType::GOLD,
            Piece::W_SILVER | Piece::B_SILVER => PieceType::SILVER,
            Piece::W_BISHOP | Piece::B_BISHOP => PieceType::BISHOP,
            Piece::W_ROOK | Piece::B_ROOK => PieceType::ROOK,
            Piece::W_PAWN | Piece::B_PAWN => PieceType::PAWN,
            Piece::W_SILVER_X | Piece::B_SILVER_X => PieceType::SILVER_X,
            Piece::W_BISHOP_X | Piece::B_BISHOP_X => PieceType::BISHOP_X,
            Piece::W_ROOK_X | Piece::B_ROOK_X => PieceType::ROOK_X,
            Piece::W_PAWN_X | Piece::B_PAWN_X => PieceType::PAWN_X,
        }
    }

    /// Numeric code of the piece: the code of its kind, plus 16 for Black.
    pub open spec fn code(self) -> int {
        self.kind().code() + 16 * self.color().code()
    }

    /// Whether the piece is unpromoted.
    pub open spec fn raw(self) -> bool {
        self.kind().code() < 8
    }

    /// The same kind of piece in the other colour.
    pub open spec fn flipped(self) -> Piece {
        self.kind().piece_of(self.color().opponent())
    }

    pub fn get_color(self) -> (r: Color)
        ensures
            r == self.color(),
    {
        match self {
            Piece::B_KING
            | Piece::B_GOLD
            | Piece::B_SILVER
            | Piece::B_BISHOP
            | Piece::B_ROOK
            | Piece::B_PAWN
            | Piece::B_SILVER_X
            | Piece::B_BISHOP_X
            | Piece::B_ROOK_X
            | Piece::B_PAWN_X => Color::BLACK,
            _ => Color::WHITE,
        }
    }

    pub fn get_piece_type(self) -> (r: PieceType)
        ensures
            r == self.kind(),
    {
        match self {
            Piece::NO_PIECE => PieceType::NO_PIECE_TYPE,
            Piece::W_KING | Piece::B_KING => PieceType::KING,
            Piece::W_GOLD | Piece::B_GOLD => PieceType::GOLD,
            Piece::W_SILVER | Piece::B_SILVER => PieceType::SILVER,
            Piece::W_BISHOP | Piece::B_BISHOP => PieceType::BISHOP,
            Piece::W_ROOK | Piece::B_ROOK => PieceType::ROOK,
            Piece::W_PAWN | Piece::B_PAWN => PieceType::PAWN,
            Piece::W_SILVER_X | Piece::B_SILVER_X => PieceType::SILVER_X,
            Piece::W_BISHOP_X | Piece::B_BISHOP_X => PieceType::BISHOP_X,
            Piece::W_ROOK_X | Piece::B_ROOK_X => PieceType::ROOK_X,
            Piece::W_PAWN_X | Piece::B_PAWN_X => PieceType::PAWN_X,
        }
    }

    pub fn as_usize(self) -> (r: usize)
        ensures
            r == self.code(),
            self != Piece::NO_PIECE ==> 1 <= r <= 30,
    {
        let k: usize = self.get_piece_type().as_usize();
        match self.get_color() {
            Color::WHITE => k,
            Color::BLACK => k + 16,
        }
    }

    pub fn is_raw(self) -> (r: bool)
        ensures
            r == self.raw(),
    {
        self.get_piece_type().as_usize() < 8
    }

    pub fn get_op_piece(self) -> (r: Piece)
        ensures
            r == self.flipped(),
            self != Piece::NO_PIECE ==> r.kind() == self.kind() && r.color() ==
                self.color().opponent(),
    {
        self.get_piece_type().get_piece(self.get_color().get_op_color())
    }
}

/// The kinds that can be held in hand, in the order of their hand slots.
pub open spec fn hand_kind(slot: int) -> PieceType {
    if slot == 0 {
        PieceType::GOLD
    } else if slot == 1 {
        PieceType::SILVER
    } else if slot == 2 {
        PieceType::BISHOP
    } else if slot == 3 {
        PieceType::ROOK
    } else {
        PieceType::PAWN
    }
}

/// Returns the kind held in hand slot `slot`.
pub fn hand_piece_type(slot: usize) -> (r: PieceType)
    requires
        slot < HAND_PIECE_NB,
    ensures
        r == hand_kind(slot as int),
        r.droppable(),
        r.code() == slot + 2,
{
    if slot == 0 {
        PieceType::GOLD
    } else if slot == 1 {
        PieceType::SILVER
    } else if slot == 2 {
        PieceType::BISHOP
    } else if slot == 3 {
        PieceType::ROOK
    } else {
        PieceType::PAWN
    }
}

} // verus!
