use vstd::prelude::*;

verus! {

/// A square of the board, counted from a1 along the ranks: a1 is `0`, h1 is `7`, a2 is `8`,
/// h8 is `63`.
#[derive(Copy, Clone, Debug, PartialEq, Eq, Structural)]
pub struct Square(pub u8);

impl Square {
    /// The file of a square, `0` for the a-file up to `7` for the h-file.
    pub open spec fn file_of(sq: int) -> int {
        sq % 8
    }

    /// The rank of a square, `0` for the first rank up to `7` for the eighth.
    pub open spec fn rank_of(sq: int) -> int {
        sq / 8
    }

    /// Whether a pair of coordinates names a square of the board.
    pub open spec fn on_board(file: int, rank: int) -> bool {
        0 <= file < 8 && 0 <= rank < 8
    }

    /// The square with the given coordinates.
    pub open spec fn at(file: int, rank: int) -> int {
        8 * rank + file
    }

    /// Whether the index names a square.
    pub open spec fn wf(self) -> bool {
        self.0 < 64
    }

    pub fn new(index: u8) -> (sq: Square)
        requires
            index < 64,
        ensures
            sq == Square(index),
            sq.wf(),
    {
        Square(index)
    }

    /// The file, `0` to `7`.
    pub fn file(self) -> (file: u8)
        requires
            self.wf(),
        ensures
            file == Square::file_of(self.0 as int),
            file < 8,
    {
        self.0 % 8
    }

    /// The square `offset` places further on; a rank is eight places.
    pub fn shift(self, offset: i8) -> (sq: Square)
        requires
            0 <= self.0 + offset < 64,
        ensures
            sq.0 == self.0 + offset,
            sq.wf(),
    {
        Square((self.0 as i16 + offset as i16) as u8)
    }
}

/// The squares are counted along the ranks: the count begins in the corner of the a-file and the
/// first rank, the next square lies one file further on, or on the a-file of the next rank, and
/// eight squares on lies the square of the same file on the next rank. Coordinates and counts
/// determine each other.
pub proof fn law_counting(sq: int)
    requires
        0 <= sq < 64,
    ensures
        Square::on_board(Square::file_of(sq), Square::rank_of(sq)),
        Square::at(Square::file_of(sq), Square::rank_of(sq)) == sq,
        sq == 0 ==> Square::file_of(sq) == 0 && Square::rank_of(sq) == 0,
        Square::file_of(sq) < 7 ==> Square::at(Square::file_of(sq) + 1, Square::rank_of(sq)) == sq + 1,
        Square::rank_of(sq) < 7 ==> Square::at(Square::file_of(sq), Square::rank_of(sq) + 1) == sq + 8,
        Square::file_of(sq) == 7 && sq < 63 ==> Square::file_of(sq + 1) == 0 && Square::rank_of(sq + 1)
            == Square::rank_of(sq) + 1,
        Square::file_of(sq) < 7 ==> Square::file_of(sq + 1) == Square::file_of(sq) + 1
            && Square::rank_of(sq + 1) == Square::rank_of(sq),
{
}

/// Every pair of coordinates on the board names one square, which has these coordinates.
pub proof fn law_coordinates(file: int, rank: int)
    requires
        0 <= file <= 7,
        0 <= rank <= 7,
    ensures
        Square::on_board(file, rank),
        0 <= Square::at(file, rank) < 64,
        Square::file_of(Square::at(file, rank)) == file,
        Square::rank_of(Square::at(file, rank)) == rank,
{
}

} // verus!
