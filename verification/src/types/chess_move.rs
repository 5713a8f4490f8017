use vstd::prelude::*;

use super::piece::PieceType;
use super::square::Square;

verus! {

/// What a move does besides going from one square to another.
#[derive(Copy, Clone, Debug, PartialEq, Eq, Structural)]
pub enum MoveKind {
    Normal,
    DoublePush,
    Castling,
    Capture,
    EnPassant,
    PromotionN,
    PromotionB,
    PromotionR,
    PromotionQ,
    PromotionCaptureN,
    PromotionCaptureB,
    PromotionCaptureR,
    PromotionCaptureQ,
}

impl MoveKind {
    /// The four bits that stand for the kind in a move: bit 3 marks a promotion, bit 2 a
    /// capture, and the low two bits of a promotion give the piece.
    pub open spec fn spec_code(self) -> int {
        match self {
            MoveKind::Normal => 0,
            MoveKind::DoublePush => 1,
            MoveKind::Castling => 2,
            MoveKind::Capture => 4,
            MoveKind::EnPassant => 5,
            MoveKind::PromotionN => 8,
            MoveKind::PromotionB => 9,
            MoveKind::PromotionR => 10,
            MoveKind::PromotionQ => 11,
            MoveKind::PromotionCaptureN => 12,
            MoveKind::PromotionCaptureB => 13,
            MoveKind::PromotionCaptureR => 14,
            MoveKind::PromotionCaptureQ => 15,
        }
    }

    pub fn code(self) -> (code: u16)
        ensures
            code == self.spec_code(),
            code < 16,
    {
        match self {
            MoveKind::Normal => 0,
            MoveKind::DoublePush => 1,
            MoveKind::Castling => 2,
            MoveKind::Capture => 4,
            MoveKind::EnPassant => 5,
            MoveKind::PromotionN => 8,
            MoveKind::PromotionB => 9,
            MoveKind::PromotionR => 10,
            MoveKind::PromotionQ => 11,
            MoveKind::PromotionCaptureN => 12,
            MoveKind::PromotionCaptureB => 13,
            MoveKind::PromotionCaptureR => 14,
            MoveKind::PromotionCaptureQ => 15,
        }
    }
}

/// A move in sixteen bits: the origin in the low six, the destination in the next six, the
/// code of the kind in the high four.
#[derive(Copy, Clone, Debug, PartialEq, Eq, Structural)]
pub struct Move(pub u16);

impl Move {
    /// The move that stands for "no move".
    pub open spec fn spec_null() -> Move {
        Move(0)
    }

    #[verifier::when_used_as_spec(spec_null)]
    pub fn null() -> (mv: Move)
        ensures
            mv == Move::spec_null(),
    {
        Move(0)
    }

    /// The move with the given squares and kind.
    pub open spec fn spec_new(from: Square, to: Square, kind: MoveKind) -> Move {
        Move((from.0 + 64 * to.0 + 4096 * kind.spec_code()) as u16)
    }

    pub open spec fn spec_from(self) -> Square {
        Square((self.0 % 64) as u8)
    }

    pub open spec fn spec_to(self) -> Square {
        Square((self.0 / 64 % 64) as u8)
    }

    /// The four bits of the kind.
    pub open spec fn kind_code(self) -> u16 {
        self.0 / 4096
    }

    pub open spec fn spec_is_promotion(self) -> bool {
        self.kind_code() >= 8
    }

    /// The piece a promotion makes.
    pub open spec fn spec_promo_piece_type(self) -> PieceType {
        match self.kind_code() % 4 {
            0 => PieceType::Knight,
            1 => PieceType::Bishop,
            2 => PieceType::Rook,
            _ => PieceType::Queen,
        }
    }

    /// The square of the piece that a capture takes: the destination, but for a capture en
    /// passant, whose pawn stands on the neighbouring rank of the same file.
    pub open spec fn spec_capture_sq(self) -> Square {
        let to = self.spec_to();
        if self.kind_code() == MoveKind::EnPassant.spec_code() {
            if to.0 / 8 % 2 == 0 {
                Square((to.0 + 8) as u8)
            } else {
                Square((to.0 - 8) as u8)
            }
        } else {
            to
        }
    }

    pub fn new(from: Square, to: Square, kind: MoveKind) -> (mv: Move)
        requires
            from.wf(),
            to.wf(),
        ensures
            mv == Move::spec_new(from, to, kind),
    {
        Move(from.0 as u16 + 64 * to.0 as u16 + 4096 * kind.code())
    }

    pub fn from(self) -> (sq: Square)
        ensures
            sq == self.spec_from(),
            sq.wf(),
    {
        Square((self.0 % 64) as u8)
    }

    pub fn to(self) -> (sq: Square)
        ensures
            sq == self.spec_to(),
            sq.wf(),
    {
        Square((self.0 / 64 % 64) as u8)
    }

    /// Whether this is a move at all.
    pub fn is_present(self) -> (b: bool)
        ensures
            b == (self != Move::null()),
    {
        self.0 != 0
    }

    pub fn is_promotion(self) -> (b: bool)
        ensures
            b == self.spec_is_promotion(),
    {
        self.0 / 4096 >= 8
    }

    pub fn promo_piece_type(self) -> (pt: PieceType)
        ensures
            pt == self.spec_promo_piece_type(),
    {
        match self.0 / 4096 % 4 {
            0 => PieceType::Knight,
            1 => PieceType::Bishop,
            2 => PieceType::Rook,
            _ => PieceType::Queen,
        }
    }

    pub fn capture_sq(self) -> (sq: Square)
        ensures
            sq == self.spec_capture_sq(),
            sq.wf(),
    {
        let to = self.to();
        if self.0 / 4096 == 5 {
            if to.0 / 8 % 2 == 0 {
                Square(to.0 + 8)
            } else {
                Square(to.0 - 8)
            }
        } else {
            to
        }
    }
}

/// The codes of the kinds are four bits, different for different kinds. The bit of value `8` marks
/// the promotions, that of value `4` the captures, and a promotion with a capture differs from the
/// one without by that bit alone. The promotions are counted from the knight to the queen.
pub proof fn law_kind_codes(a: MoveKind, b: MoveKind)
    ensures
        0 <= a.spec_code() < 16,
        a.spec_code() == b.spec_code() ==> a == b,
        a.spec_code() / 8 == 1 <==> {
            ||| a == MoveKind::PromotionN || a == MoveKind::PromotionCaptureN
            ||| a == MoveKind::PromotionB || a == MoveKind::PromotionCaptureB
            ||| a == MoveKind::PromotionR || a == MoveKind::PromotionCaptureR
            ||| a == MoveKind::PromotionQ || a == MoveKind::PromotionCaptureQ
        },
        a.spec_code() / 4 % 2 == 1 <==> {
            ||| a == MoveKind::Capture || a == MoveKind::EnPassant
            ||| a == MoveKind::PromotionCaptureN || a == MoveKind::PromotionCaptureB
            ||| a == MoveKind::PromotionCaptureR || a == MoveKind::PromotionCaptureQ
        },
        MoveKind::PromotionCaptureN.spec_code() == MoveKind::PromotionN.spec_code() + 4,
        MoveKind::PromotionCaptureB.spec_code() == MoveKind::PromotionB.spec_code() + 4,
        MoveKind::PromotionCaptureR.spec_code() == MoveKind::PromotionR.spec_code() + 4,
        MoveKind::PromotionCaptureQ.spec_code() == MoveKind::PromotionQ.spec_code() + 4,
        MoveKind::PromotionN.spec_code() < MoveKind::PromotionB.spec_code()
            < MoveKind::PromotionR.spec_code() < MoveKind::PromotionQ.spec_code(),
        0 == MoveKind::Normal.spec_code() < MoveKind::DoublePush.spec_code()
            < MoveKind::Castling.spec_code() <= 2,
        MoveKind::Capture.spec_code() < MoveKind::EnPassant.spec_code() <= 5,
{
}

/// A move made of a kind is a promotion exactly where the kind is one, and then makes the piece of
/// that kind.
pub proof fn law_promotions(from: Square, to: Square, kind: MoveKind)
    requires
        from.wf(),
        to.wf(),
    ensures
        ({
            let mv = Move::spec_new(from, to, kind);
            match kind {
                MoveKind::PromotionN | MoveKind::PromotionCaptureN => mv.spec_is_promotion()
                    && mv.spec_promo_piece_type() == PieceType::Knight,
                MoveKind::PromotionB | MoveKind::PromotionCaptureB => mv.spec_is_promotion()
                    && mv.spec_promo_piece_type() == PieceType::Bishop,
                MoveKind::PromotionR | MoveKind::PromotionCaptureR => mv.spec_is_promotion()
                    && mv.spec_promo_piece_type() == PieceType::Rook,
                MoveKind::PromotionQ | MoveKind::PromotionCaptureQ => mv.spec_is_promotion()
                    && mv.spec_promo_piece_type() == PieceType::Queen,
                _ => !mv.spec_is_promotion(),
            }
        }),
{
    law_move_round_trip(from, to, kind);
}

/// A move takes what stands on its destination. Only a capture en passant does not: the pawn it
/// takes stands on the file where it ends and on the rank where it began.
pub proof fn law_capture_square(from: Square, to: Square, kind: MoveKind)
    requires
        from.wf(),
        to.wf(),
    ensures
        ({
            let taken = Move::spec_new(from, to, kind).spec_capture_sq();
            let (start, end) = (Square::rank_of(from.0 as int), Square::rank_of(to.0 as int));
            &&& kind != MoveKind::EnPassant ==> taken == to
            &&& kind == MoveKind::EnPassant && (start == 4 && end == 5 || start == 3 && end == 2) ==> {
                &&& Square::rank_of(taken.0 as int) == start
                &&& Square::file_of(taken.0 as int) == Square::file_of(to.0 as int)
            }
        }),
{
    law_move_round_trip(from, to, kind);
}

/// What a move takes is on the board, on the file of the destination, and for a capture en passant
/// on the other rank of two that belong together: seen from there it would take the destination.
pub proof fn law_capture_square_pairs(mv: Move, back: Move)
    requires
        mv.kind_code() == MoveKind::EnPassant.spec_code(),
        back.kind_code() == MoveKind::EnPassant.spec_code(),
        back.spec_to() == mv.spec_capture_sq(),
    ensures
        mv.spec_capture_sq().wf(),
        mv.spec_capture_sq() != mv.spec_to(),
        Square::file_of(mv.spec_capture_sq().0 as int) == Square::file_of(mv.spec_to().0 as int),
        back.spec_capture_sq() == mv.spec_to(),
{
}

/// The squares and the code of the kind make the move: two moves that agree in them are the same,
/// and each is within its bounds. The move that is none goes nowhere.
pub proof fn law_move_parts(a: Move, b: Move)
    ensures
        a.spec_from().wf() && a.spec_to().wf() && a.kind_code() < 16,
        a.spec_from() == b.spec_from() && a.spec_to() == b.spec_to() && a.kind_code() == b.kind_code()
            ==> a == b,
        a.0 == a.spec_from().0 + 64 * a.spec_to().0 + 4096 * a.kind_code(),
        Move::null() == Move::spec_new(Square(0), Square(0), MoveKind::Normal),
{
}

/// A move gives back the squares and the kind it was made of.
pub proof fn law_move_round_trip(from: Square, to: Square, kind: MoveKind)
    requires
        from.wf(),
        to.wf(),
    ensures
        Move::spec_new(from, to, kind).spec_from() == from,
        Move::spec_new(from, to, kind).spec_to() == to,
        Move::spec_new(from, to, kind).kind_code() == kind.spec_code(),
{
}

} // verus!
