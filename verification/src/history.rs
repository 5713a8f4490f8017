use vstd::prelude::*;

use crate::types::{Bitboard, Color, Move, Piece, PieceType, Square};

verus! {

/// What a table holds at an index, `0` beyond its end: nothing was recorded there.
pub open spec fn recorded(entries: Seq<i16>, index: int) -> int {
    if 0 <= index < entries.len() {
        entries[index] as int
    } else {
        0
    }
}

fn read(entries: &Vec<i16>, index: usize) -> (score: i32)
    ensures
        score == recorded(entries@, index as int),
        i16::MIN <= score <= i16::MAX,
{
    if index < entries.len() {
        entries[index] as i32
    } else {
        0
    }
}

/// How well captures and promotions did, by the piece moved, its destination, the piece taken
/// and whether the opponent attacks the destination.
pub struct NoisyHistory {
    pub entries: Vec<i16>,
}

impl NoisyHistory {
    /// Where the table keeps the score.
    pub open spec fn spec_index(threats: Bitboard, piece: Piece, to: Square, captured: PieceType) -> int {
        ((piece.ordinal() * 64 + to.0) * 7 + captured.ordinal()) * 2 + (if threats.has(to.0 as int) {
            1int
        } else {
            0
        })
    }

    pub open spec fn spec_get(self, threats: Bitboard, piece: Piece, to: Square, captured: PieceType) -> int {
        recorded(self.entries@, Self::spec_index(threats, piece, to, captured))
    }

    pub fn index(threats: Bitboard, piece: Piece, to: Square, captured: PieceType) -> (i: usize)
        requires
            to.wf(),
        ensures
            i == Self::spec_index(threats, piece, to, captured),
    {
        ((piece.index() * 64 + to.0 as usize) * 7 + captured.index()) * 2 + (if threats.contains(to) {
            1usize
        } else {
            0usize
        })
    }

    pub fn get(&self, threats: Bitboard, piece: Piece, to: Square, captured: PieceType) -> (score: i32)
        requires
            to.wf(),
        ensures
            score == self.spec_get(threats, piece, to, captured),
            i16::MIN <= score <= i16::MAX,
    {
        read(&self.entries, Self::index(threats, piece, to, captured))
    }
}

/// How well quiet moves did, by the side, the squares of the move and whether the opponent
/// attacks them.
pub struct QuietHistory {
    pub entries: Vec<i16>,
}

impl QuietHistory {
    /// Where the table keeps the score.
    pub open spec fn spec_index(threats: Bitboard, side: Color, mv: Move) -> int {
        ((side.ordinal() * 64 + mv.spec_from().0) * 64 + mv.spec_to().0) * 4 + (if threats.has(
            mv.spec_from().0 as int,
        ) {
            2int
        } else {
            0
        }) + (if threats.has(mv.spec_to().0 as int) {
            1int
        } else {
            0
        })
    }

    pub open spec fn spec_get(self, threats: Bitboard, side: Color, mv: Move) -> int {
        recorded(self.entries@, Self::spec_index(threats, side, mv))
    }

    pub fn index(threats: Bitboard, side: Color, mv: Move) -> (i: usize)
        ensures
            i == Self::spec_index(threats, side, mv),
    {
        let from = mv.from();
        let to = mv.to();
        ((side.index() * 64 + from.0 as usize) * 64 + to.0 as usize) * 4 + (if threats.contains(from) {
            2usize
        } else {
            0usize
        }) + (if threats.contains(to) {
            1usize
        } else {
            0usize
        })
    }

    pub fn get(&self, threats: Bitboard, side: Color, mv: Move) -> (score: i32)
        ensures
            score == self.spec_get(threats, side, mv),
            i16::MIN <= score <= i16::MAX,
    {
        read(&self.entries, Self::index(threats, side, mv))
    }
}

/// How well moves did as a continuation of one earlier move, by the piece moved and its
/// destination.
pub struct ContinuationHistory {
    pub entries: Vec<i16>,
}

impl ContinuationHistory {
    /// Where the table keeps the score.
    pub open spec fn spec_index(piece: Piece, to: Square) -> int {
        piece.ordinal() * 64 + to.0
    }

    pub open spec fn spec_get(self, piece: Piece, to: Square) -> int {
        recorded(self.entries@, Self::spec_index(piece, to))
    }

    pub fn index(piece: Piece, to: Square) -> (i: usize)
        requires
            to.wf(),
        ensures
            i == Self::spec_index(piece, to),
    {
        piece.index() * 64 + to.0 as usize
    }

    pub fn get(&self, piece: Piece, to: Square) -> (score: i32)
        requires
            to.wf(),
        ensures
            score == self.spec_get(piece, to),
            i16::MIN <= score <= i16::MAX,
    {
        read(&self.entries, Self::index(piece, to))
    }
}

/// Noisy moves share an entry exactly where the piece moved, its destination, the piece taken and
/// whether the opponent attacks the destination are the same.
pub proof fn law_noisy_entries(
    threats: Bitboard,
    piece: Piece,
    to: Square,
    captured: PieceType,
    other_threats: Bitboard,
    other_piece: Piece,
    other_to: Square,
    other_captured: PieceType,
)
    requires
        to.wf(),
        other_to.wf(),
    ensures
        NoisyHistory::spec_index(threats, piece, to, captured) >= 0,
        NoisyHistory::spec_index(threats, piece, to, captured) == NoisyHistory::spec_index(
            other_threats,
            other_piece,
            other_to,
            other_captured,
        ) <==> {
            &&& piece == other_piece
            &&& to == other_to
            &&& captured == other_captured
            &&& threats.has(to.0 as int) == other_threats.has(to.0 as int)
        },
{
    crate::types::piece::law_piece_places(piece, other_piece);
}

/// Quiet moves share an entry exactly where the side, both squares and whether the opponent attacks
/// each of them are the same. The kind of the move makes no difference.
pub proof fn law_quiet_entries(
    threats: Bitboard,
    side: Color,
    mv: Move,
    other_threats: Bitboard,
    other_side: Color,
    other: Move,
)
    ensures
        QuietHistory::spec_index(threats, side, mv) >= 0,
        QuietHistory::spec_index(threats, side, mv) == QuietHistory::spec_index(
            other_threats,
            other_side,
            other,
        ) <==> {
            &&& side == other_side
            &&& mv.spec_from() == other.spec_from()
            &&& mv.spec_to() == other.spec_to()
            &&& threats.has(mv.spec_from().0 as int) == other_threats.has(mv.spec_from().0 as int)
            &&& threats.has(mv.spec_to().0 as int) == other_threats.has(mv.spec_to().0 as int)
        },
{
}

/// Continuations share an entry exactly where the piece moved and its destination are the same.
pub proof fn law_continuation_entries(piece: Piece, to: Square, other_piece: Piece, other_to: Square)
    requires
        to.wf(),
        other_to.wf(),
    ensures
        ContinuationHistory::spec_index(piece, to) >= 0,
        ContinuationHistory::spec_index(piece, to) == ContinuationHistory::spec_index(
            other_piece,
            other_to,
        ) <==> piece == other_piece && to == other_to,
{
    crate::types::piece::law_piece_places(piece, other_piece);
}

/// What is written in an entry is what is read of it, no other entry changes by that, and what was
/// never recorded reads as `0`.
pub proof fn law_recorded(entries: Seq<i16>, index: int, value: i16, other: int)
    requires
        0 <= index < entries.len(),
    ensures
        recorded(entries.update(index, value), index) == value,
        other != index ==> recorded(entries.update(index, value), other) == recorded(entries, other),
        recorded(entries, index) == entries[index],
        other < 0 || other >= entries.len() ==> recorded(entries, other) == 0,
{
}

/// A table reads, for a move, what the entry of that move holds.
pub proof fn law_tables_read_their_entries(
    noisy: NoisyHistory,
    quiet: QuietHistory,
    continuation: ContinuationHistory,
    threats: Bitboard,
    side: Color,
    piece: Piece,
    mv: Move,
    captured: PieceType,
)
    ensures
        ({
            let n = NoisyHistory::spec_index(threats, piece, mv.spec_to(), captured);
            let q = QuietHistory::spec_index(threats, side, mv);
            let c = ContinuationHistory::spec_index(piece, mv.spec_to());
            &&& noisy.spec_get(threats, piece, mv.spec_to(), captured) == if n < noisy.entries@.len() {
                noisy.entries@[n] as int
            } else {
                0
            }
            &&& quiet.spec_get(threats, side, mv) == if q < quiet.entries@.len() {
                quiet.entries@[q] as int
            } else {
                0
            }
            &&& continuation.spec_get(piece, mv.spec_to()) == if c < continuation.entries@.len() {
                continuation.entries@[c] as int
            } else {
                0
            }
        }),
{
}

} // verus!
