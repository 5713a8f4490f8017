use vstd::prelude::*;

verus! {

/// The two sides.
#[derive(Copy, Clone, Debug, PartialEq, Eq, Structural)]
pub enum Color {
    White,
    Black,
}

impl Color {
    /// Index of the side in tables that have one entry for each.
    pub open spec fn ordinal(self) -> int {
        match self {
            Color::White => 0,
            Color::Black => 1,
        }
    }

    pub fn index(self) -> (i: usize)
        ensures
            i == self.ordinal(),
            i < 2,
    {
        match self {
            Color::White => 0,
            Color::Black => 1,
        }
    }

    /// The other side.
    pub open spec fn spec_opponent(self) -> Color {
        match self {
            Color::White => Color::Black,
            Color::Black => Color::White,
        }
    }

    #[verifier::when_used_as_spec(spec_opponent)]
    pub fn opponent(self) -> (other: Color)
        ensures
            other == self.spec_opponent(),
    {
        match self {
            Color::White => Color::Black,
            Color::Black => Color::White,
        }
    }
}

/// What stands on a square, whichever side owns it.
#[derive(Copy, Clone, Debug, PartialEq, Eq, Structural)]
pub enum PieceType {
    Pawn,
    Knight,
    Bishop,
    Rook,
    Queen,
    King,
    Empty,
}

impl PieceType {
    /// Index of the type in tables: pawn `0` to king `5`, and `6` where no piece stands.
    pub open spec fn ordinal(self) -> int {
        match self {
            PieceType::Pawn => 0,
            PieceType::Knight => 1,
            PieceType::Bishop => 2,
            PieceType::Rook => 3,
            PieceType::Queen => 4,
            PieceType::King => 5,
            PieceType::Empty => 6,
        }
    }

    pub fn index(self) -> (i: usize)
        ensures
            i == self.ordinal(),
            i < 7,
            i < 6 <==> self != PieceType::Empty,
    {
        match self {
            PieceType::Pawn => 0,
            PieceType::Knight => 1,
            PieceType::Bishop => 2,
            PieceType::Rook => 3,
            PieceType::Queen => 4,
            PieceType::King => 5,
            PieceType::Empty => 6,
        }
    }
}

/// A piece of one side, or an empty square, where the color says nothing.
#[derive(Copy, Clone, Debug, PartialEq, Eq, Structural)]
pub struct Piece {
    pub color: Color,
    pub piece_type: PieceType,
}

impl Piece {
    /// Index of the piece in tables that have an entry for each color and type.
    pub open spec fn ordinal(self) -> int {
        7 * self.color.ordinal() + self.piece_type.ordinal()
    }

    pub fn index(self) -> (i: usize)
        ensures
            i == self.ordinal(),
            i < 14,
    {
        7 * self.color.index() + self.piece_type.index()
    }
}

/// There are two sides, White before Black, and each is the opponent of the other.
pub proof fn law_colors(color: Color)
    ensures
        0 <= Color::White.ordinal() < Color::Black.ordinal() < 2,
        color.opponent() != color,
        color.opponent().opponent() == color,
        color.ordinal() + color.opponent().ordinal() == 1,
{
}

/// The types of pieces are counted from the least to the king, and after it comes the empty square.
pub proof fn law_piece_type_order()
    ensures
        0 <= PieceType::Pawn.ordinal() < PieceType::Knight.ordinal() < PieceType::Bishop.ordinal()
            < PieceType::Rook.ordinal() < PieceType::Queen.ordinal() < PieceType::King.ordinal()
            < PieceType::Empty.ordinal() < 7,
{
}

/// Two pieces have the same place in a table only where they are the same.
pub proof fn law_piece_places(a: Piece, b: Piece)
    ensures
        0 <= a.ordinal() < 14,
        a.ordinal() == b.ordinal() ==> a == b,
{
}

} // verus!
