use vstd::prelude::*;

use crate::board::Board;
use crate::history::{ContinuationHistory, NoisyHistory, QuietHistory};
use crate::types::{Bitboard, Color, Move, PieceType};

verus! {

/// How many plies before the root have a continuation history.
pub const PLIES_BEFORE_ROOT: usize = 6;

/// Values that are tuned for the engine as a whole.
pub struct Params {
    /// The value of each type of piece, and of none.
    pub piece_values: [i16; 7],
    /// For each side, the squares on which its king counts as being at home.
    pub home_rows: [Bitboard; 2],
}

impl Params {
    pub open spec fn spec_value(self, pt: PieceType) -> int {
        self.piece_values[pt.ordinal()] as int
    }

    pub open spec fn spec_home_row(self, side: Color) -> Bitboard {
        self.home_rows[side.ordinal()]
    }

    pub fn value(&self, pt: PieceType) -> (value: i32)
        ensures
            value == self.spec_value(pt),
            i16::MIN <= value <= i16::MAX,
    {
        self.piece_values[pt.index()] as i32
    }

    pub fn home_row(&self, side: Color) -> (bb: Bitboard)
        ensures
            bb == self.spec_home_row(side),
    {
        self.home_rows[side.index()]
    }
}

/// The position a search thread looks at and what it has learned of moves.
pub struct ThreadData {
    pub board: Board,
    pub noisy_history: NoisyHistory,
    pub quiet_history: QuietHistory,
    /// The continuation histories of the moves on the path, from `PLIES_BEFORE_ROOT` plies
    /// before the root on.
    pub continuations: Vec<ContinuationHistory>,
    pub params: Params,
}

impl ThreadData {
    /// How well a move did as an answer to the move played `distance` plies before `ply`, `0`
    /// where that ply has no history.
    pub open spec fn spec_conthist(self, ply: int, distance: int, mv: Move) -> int {
        let slot = ply - distance + PLIES_BEFORE_ROOT;
        if 0 <= slot < self.continuations@.len() {
            self.continuations@[slot].spec_get(self.board.spec_moved_piece(mv), mv.spec_to())
        } else {
            0
        }
    }

    pub fn conthist(&self, ply: isize, distance: isize, mv: Move) -> (score: i32)
        ensures
            score == self.spec_conthist(ply as int, distance as int, mv),
            i16::MIN <= score <= i16::MAX,
    {
        let slot: i128 = ply as i128 - distance as i128 + PLIES_BEFORE_ROOT as i128;
        if 0 <= slot && slot < self.continuations.len() as i128 {
            self.continuations[slot as usize].get(self.board.moved_piece(mv), mv.to())
        } else {
            0
        }
    }
}

/// What a continuation history is read at depends only on the ply that the move is an answer to:
/// one ply further on, the same history is one ply further back. The histories are kept in the
/// order of the plies, the first for the ply that lies `PLIES_BEFORE_ROOT` before the root.
pub proof fn law_conthist(td: ThreadData, ply: int, distance: int, mv: Move)
    ensures
        td.spec_conthist(ply, distance, mv) == td.spec_conthist(ply + 1, distance + 1, mv),
        forall|i: int|
            0 <= i < td.continuations@.len() && ply - distance == i - PLIES_BEFORE_ROOT
                ==> td.spec_conthist(ply, distance, mv) == (#[trigger] td.continuations@[i]).spec_get(
                td.board.mailbox[mv.spec_from().0 as int],
                mv.spec_to(),
            ),
        ply - distance < -PLIES_BEFORE_ROOT || ply - distance >= td.continuations@.len()
            - PLIES_BEFORE_ROOT ==> td.spec_conthist(ply, distance, mv) == 0,
{
}

} // verus!
