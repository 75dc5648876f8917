//! The input planes of the neural network.
//!
//! The input has 266 planes of 25 squares each. Plane 0 is filled with ones
//! where Black is to move, plane 1 holds the number of plies played. After
//! them come eight groups of 33 planes, one for the position now and one for
//! each of the seven positions before it: 10 planes for the pieces of the side
//! to move, 10 for the pieces of the other side, 3 for the number of times the
//! position has occurred, and 5 each for the pieces in hand of the side to move
//! and of the other side. The board is shown from the side to move.
//!
//! Every entry is a whole number. The network is fed the entries of plane 1
//! divided by the greatest number of plies, those of the planes of pieces in
//! hand divided by 2, and the others as they are.

use vstd::prelude::*;
use crate::types::{Color, Piece, SQUARE_NB};

verus! {

/// Number of positions that the input shows.
pub const HISTORY: usize = 8;

/// Number of planes for each position shown.
pub const CHANNEL_NUM_PER_HISTORY: usize = 33;

/// Number of planes.
pub const CHANNEL_NUM: usize = 266;

/// Number of entries of the input.
pub const INPUT_SIZE: usize = 6650;

/// The board, the hands and the repetition count of one position.
#[derive(Clone, Debug)]
pub struct Snapshot {
    pub board: [Piece; 25],
    /// The pieces in hand, first of White and then of Black, by hand slot.
    pub hand: [[u8; 5]; 2],
    /// How many times the position has occurred before.
    pub repetition: usize,
}

/// What the input planes are built from: the side to move, the number of
/// plies played, and the position now followed by the positions before it,
/// the latest first.
#[derive(Clone, Debug)]
pub struct Position {
    pub side_to_move: Color,
    pub ply: u16,
    pub history: Vec<Snapshot>,
}

/// The place of a piece among the planes of one side: king, gold, silver,
/// bishop, rook, pawn, then promoted silver, bishop, rook and pawn; the
/// pieces of Black come ten places after those of White.
pub open spec fn sequential_index(piece: Piece) -> int {
    if piece.color() == Color::WHITE {
        if piece.raw() {
            piece.code() - 1
        } else {
            piece.code() - 5
        }
    } else {
        if piece.raw() {
            piece.code() - 7
        } else {
            piece.code() - 11
        }
    }
}

/// Returns the place of a piece among the planes of the pieces.
pub fn piece_to_sequential_index(piece: Piece) -> (r: usize)
    requires
        piece != Piece::NO_PIECE,
    ensures
        r == sequential_index(piece),
        r < 20,
        (piece.color() == Color::WHITE) == (r < 10),
{
    if piece.get_color() == Color::WHITE {
        if piece.is_raw() {
            piece.as_usize() - 1
        } else {
            piece.as_usize() - 5
        }
    } else {
        if piece.is_raw() {
            piece.as_usize() - 7
        } else {
            piece.as_usize() - 11
        }
    }
}

/// The square of the board that is shown at the place `square` of a plane:
/// the board is turned by half a turn where Black is to move, and mirrored
/// left to right where `flip` is set.
pub open spec fn source_square(side_to_move: Color, flip: bool, square: int) -> int {
    let turned = if side_to_move == Color::WHITE {
        square
    } else {
        24 - square
    };
    if flip {
        (turned / 5) * 5 + (4 - turned % 5)
    } else {
        turned
    }
}

impl Position {
    /// The entry `index` of the input.
    pub open spec fn plane_value(&self, flip: bool, index: int) -> int {
        let channel = index / 25;
        let square = index % 25;
        if channel == 0 {
            if self.side_to_move == Color::BLACK {
                1
            } else {
                0
            }
        } else if channel == 1 {
            self.ply as int
        } else {
            let h = (channel - 2) / 33;
            let c = (channel - 2) % 33;
            if h >= self.history@.len() || h >= 8 {
                0
            } else if c < 20 {
                let piece = self.history@[h].board@[source_square(self.side_to_move, flip, square)];
                let shown = if self.side_to_move == Color::WHITE {
                    piece
                } else {
                    piece.flipped()
                };
                if piece != Piece::NO_PIECE && sequential_index(shown) == c {
                    1
                } else {
                    0
                }
            } else if c < 23 {
                if self.history@[h].repetition == c - 20 {
                    1
                } else {
                    0
                }
            } else if c < 28 {
                self.history@[h].hand@[self.side_to_move.code()]@[c - 23] as int
            } else {
                self.history@[h].hand@[self.side_to_move.opponent().code()]@[c - 28] as int
            }
        }
    }

    /// Returns the entry `index` of the input.
    pub fn plane_at(&self, flip: bool, index: usize) -> (r: u16)
        requires
            index < INPUT_SIZE,
        ensures
            r == self.plane_value(flip, index as int),
    {
        let channel: usize = index / SQUARE_NB;
        let square: usize = index % SQUARE_NB;
        if channel == 0 {
            if self.side_to_move == Color::BLACK {
                1
            } else {
                0
            }
        } else if channel == 1 {
            self.ply
        } else {
            let h: usize = (channel - 2) / CHANNEL_NUM_PER_HISTORY;
            let c: usize = (channel - 2) % CHANNEL_NUM_PER_HISTORY;
            if h >= self.history.len() || h >= HISTORY {
                0
            } else if c < 20 {
                let turned: usize = if self.side_to_move == Color::WHITE {
                    square
                } else {
                    SQUARE_NB - 1 - square
                };
                let source: usize = if flip {
                    (turned / 5) * 5 + (4 - turned % 5)
                } else {
                    turned
                };
                let piece: Piece = self.history[h].board[source];
                if piece == Piece::NO_PIECE {
                    0
                } else {
                    let shown: Piece = if self.side_to_move == Color::WHITE {
                        piece
                    } else {
                        piece.get_op_piece()
                    };
                    if piece_to_sequential_index(shown) == c {
                        1
                    } else {
                        0
                    }
                }
            } else if c < 23 {
                if self.history[h].repetition == c - 20 {
                    1
                } else {
                    0
                }
            } else if c < 28 {
                self.history[h].hand[self.side_to_move.as_usize()][c - 23] as u16
            } else {
                self.history[h].hand[self.side_to_move.get_op_color().as_usize()][c - 28] as u16
            }
        }
    }

    /// Return [Channel * Height * Width] formatted array: the input planes of
    /// the position, plane after plane and square after square.
    pub fn to_alphazero_input_array(&self, flip: bool) -> (r: Vec<u16>)
        ensures
            r@.len() == INPUT_SIZE,
            forall|index: int|
                0 <= index < INPUT_SIZE ==> #[trigger] r@[index] == self.plane_value(flip, index),
    {
        let mut input_layer: Vec<u16> = Vec::new();
        let mut index: usize = 0;
        while index < INPUT_SIZE
            invariant
                index <= INPUT_SIZE,
                input_layer@.len() == index,
                forall|i: int|
                    0 <= i < index ==> #[trigger] input_layer@[i] == self.plane_value(flip, i),
            decreases INPUT_SIZE - index,
        {
            input_layer.push(self.plane_at(flip, index));
            index += 1;
        }
        input_layer
    }
}

} // verus!
