use vstd::prelude::*;

use crate::types::{Bitboard, Color, Move, MoveEntry, MoveList, Piece, PieceType, Square, MAX_MOVES};

verus! {

/// What the choice of moves reads of a position.
pub struct Board {
    /// The piece on each square.
    pub mailbox: [Piece; 64],
    /// The side to move.
    pub side: Color,
    /// The squares each side occupies.
    pub colors: [Bitboard; 2],
    /// The squares of each type of piece, of both sides.
    pub pieces: [Bitboard; 6],
    /// Where the kings stand.
    pub kings: [Square; 2],
    /// The squares the opponent attacks.
    pub threats: Bitboard,
    /// The squares the opponent attacks with each type of piece.
    pub piece_threats: [Bitboard; 6],
    /// The squares from which each type of piece would give check.
    pub checking_squares: [Bitboard; 6],
    /// Whether the side to move is in check.
    pub in_check: bool,
    /// The legal moves.
    pub legal: Vec<Move>,
    /// The captures and promotions, in the order of generation.
    pub noisy: Vec<Move>,
    /// The other moves, in the order of generation.
    pub quiet: Vec<Move>,
    /// What the exchange that a move starts is worth, for the moves for which it is not `0`.
    pub exchanges: Vec<MoveEntry>,
}

/// The score of the first entry for a move, `0` where there is none.
pub open spec fn first_score(entries: Seq<MoveEntry>, mv: Move) -> int
    decreases entries.len(),
{
    if entries.len() == 0 {
        0
    } else if entries[0].mv == mv {
        entries[0].score as int
    } else {
        first_score(entries.drop_first(), mv)
    }
}

impl Board {
    pub open spec fn spec_type_on(self, sq: Square) -> PieceType {
        self.mailbox[sq.0 as int].piece_type
    }

    pub open spec fn spec_moved_piece(self, mv: Move) -> Piece {
        self.mailbox[mv.spec_from().0 as int]
    }

    /// The square set of one type of piece.
    pub open spec fn spec_pieces(self, pt: PieceType) -> Bitboard {
        self.pieces[pt.ordinal()]
    }

    pub open spec fn spec_colors(self, color: Color) -> Bitboard {
        self.colors[color.ordinal()]
    }

    pub open spec fn spec_piece_threats(self, pt: PieceType) -> Bitboard {
        self.piece_threats[pt.ordinal()]
    }

    pub open spec fn spec_checking_squares(self, pt: PieceType) -> Bitboard {
        self.checking_squares[pt.ordinal()]
    }

    pub open spec fn spec_king_square(self, color: Color) -> Square {
        self.kings[color.ordinal()]
    }

    /// What the exchange that a move starts is worth to the side to move.
    pub open spec fn exchange_value(self, mv: Move) -> int {
        first_score(self.exchanges@, mv)
    }

    /// Whether a piece stands where each of the moves begins.
    pub open spec fn origins_occupied(self, moves: Seq<Move>) -> bool {
        forall|i: int|
            0 <= i < moves.len() ==> self.spec_type_on((#[trigger] moves[i]).spec_from())
                != PieceType::Empty
    }

    /// The kings are on the board.
    pub open spec fn wf(self) -> bool {
        self.kings[0].wf() && self.kings[1].wf()
    }

    pub fn type_on(&self, sq: Square) -> (pt: PieceType)
        requires
            sq.wf(),
        ensures
            pt == self.spec_type_on(sq),
    {
        self.mailbox[sq.0 as usize].piece_type
    }

    /// The piece that a move moves.
    pub fn moved_piece(&self, mv: Move) -> (piece: Piece)
        ensures
            piece == self.spec_moved_piece(mv),
    {
        self.mailbox[mv.from().0 as usize]
    }

    pub fn pieces(&self, pt: PieceType) -> (bb: Bitboard)
        requires
            pt != PieceType::Empty,
        ensures
            bb == self.spec_pieces(pt),
    {
        self.pieces[pt.index()]
    }

    pub fn colors(&self, color: Color) -> (bb: Bitboard)
        ensures
            bb == self.spec_colors(color),
    {
        self.colors[color.index()]
    }

    /// The squares of one side's pieces of one type.
    pub open spec fn spec_colored_pieces(self, color: Color, pt: PieceType) -> Bitboard {
        Bitboard(self.spec_colors(color).0 & self.spec_pieces(pt).0)
    }

    pub fn colored_pieces(&self, color: Color, pt: PieceType) -> (bb: Bitboard)
        requires
            pt != PieceType::Empty,
        ensures
            bb == self.spec_colored_pieces(color, pt),
            forall|s: int| #[trigger]
                bb.has(s) <==> self.spec_colors(color).has(s) && self.spec_pieces(pt).has(s),
    {
        self.colors(color).intersect(self.pieces(pt))
    }

    /// The occupied squares.
    pub open spec fn spec_occupancies(self) -> Bitboard {
        Bitboard(self.colors[0].0 | self.colors[1].0)
    }

    pub fn occupancies(&self) -> (bb: Bitboard)
        ensures
            bb == self.spec_occupancies(),
    {
        self.colors[0].union(self.colors[1])
    }

    pub fn piece_threats(&self, pt: PieceType) -> (bb: Bitboard)
        requires
            pt != PieceType::Empty,
        ensures
            bb == self.spec_piece_threats(pt),
    {
        self.piece_threats[pt.index()]
    }

    pub fn checking_squares(&self, pt: PieceType) -> (bb: Bitboard)
        requires
            pt != PieceType::Empty,
        ensures
            bb == self.spec_checking_squares(pt),
    {
        self.checking_squares[pt.index()]
    }

    pub fn king_square(&self, color: Color) -> (sq: Square)
        ensures
            sq == self.spec_king_square(color),
    {
        self.kings[color.index()]
    }

    /// Whether a move may be played.
    pub fn is_legal(&self, mv: Move) -> (b: bool)
        ensures
            b == self.legal@.contains(mv),
    {
        let mut i: usize = 0;
        while i < self.legal.len()
            invariant
                i <= self.legal@.len(),
                forall|j: int| 0 <= j < i ==> self.legal@[j] != mv,
            decreases self.legal@.len() - i,
        {
            if self.legal[i] == mv {
                return true;
            }
            i = i + 1;
        }
        false
    }

    /// Whether the exchange that a move starts is worth at least `threshold`.
    pub fn see(&self, mv: Move, threshold: i32) -> (b: bool)
        ensures
            b == (self.exchange_value(mv) >= threshold),
    {
        let mut i: usize = 0;
        assert(self.exchanges@.skip(0) =~= self.exchanges@);
        while i < self.exchanges.len()
            invariant
                i <= self.exchanges@.len(),
                first_score(self.exchanges@, mv) == first_score(self.exchanges@.skip(i as int), mv),
            decreases self.exchanges@.len() - i,
        {
            assert(self.exchanges@.skip(i as int).drop_first() =~= self.exchanges@.skip(i + 1));
            if self.exchanges[i].mv == mv {
                return self.exchanges[i].score >= threshold;
            }
            i = i + 1;
        }
        0 >= threshold
    }

    /// Adds the captures and promotions to a list.
    pub fn append_noisy_moves(&self, list: &mut MoveList)
        requires
            old(list).wf(),
            old(list).spec_moves().len() + self.noisy@.len() <= MAX_MOVES,
        ensures
            final(list).wf(),
            final(list).spec_moves() == old(list).spec_moves() + self.noisy@,
            final(list).spec_slots() == old(list).spec_slots(),
    {
        append(&self.noisy, list);
    }

    /// Adds the quiet moves to a list.
    pub fn append_quiet_moves(&self, list: &mut MoveList)
        requires
            old(list).wf(),
            old(list).spec_moves().len() + self.quiet@.len() <= MAX_MOVES,
        ensures
            final(list).wf(),
            final(list).spec_moves() == old(list).spec_moves() + self.quiet@,
            final(list).spec_slots() == old(list).spec_slots(),
    {
        append(&self.quiet, list);
    }
}

fn append(moves: &Vec<Move>, list: &mut MoveList)
    requires
        old(list).wf(),
        old(list).spec_moves().len() + moves@.len() <= MAX_MOVES,
    ensures
        final(list).wf(),
        final(list).spec_moves() == old(list).spec_moves() + moves@,
        final(list).spec_slots() == old(list).spec_slots(),
{
    let mut i: usize = 0;
    while i < moves.len()
        invariant
            i <= moves@.len(),
            list.wf(),
            old(list).spec_moves().len() + moves@.len() <= MAX_MOVES,
            list.spec_moves() == old(list).spec_moves() + moves@.take(i as int),
            list.spec_slots() == old(list).spec_slots(),
        decreases moves@.len() - i,
    {
        list.push_move(moves[i]);
        i = i + 1;
    }
    assert(moves@.take(i as int) =~= moves@);
}

/// What an exchange is worth is what the first entry for the move says, and `0` where there is
/// none. Entries for other moves make no difference.
pub proof fn law_exchange_value(board: Board, mv: Move)
    ensures
        (forall|i: int| 0 <= i < board.exchanges@.len() ==> #[trigger] board.exchanges@[i].mv != mv)
            ==> board.exchange_value(mv) == 0,
        forall|i: int|
            0 <= i < board.exchanges@.len() && #[trigger] board.exchanges@[i].mv == mv && (forall|j: int|
                0 <= j < i ==> #[trigger] board.exchanges@[j].mv != mv) ==> board.exchange_value(mv)
                == board.exchanges@[i].score,
{
    assert forall|i: int|
        0 <= i < board.exchanges@.len() && #[trigger] board.exchanges@[i].mv == mv && (forall|j: int|
            0 <= j < i ==> #[trigger] board.exchanges@[j].mv != mv) implies board.exchange_value(mv)
        == board.exchanges@[i].score by {
        lemma_first_score(board.exchanges@, mv, i);
    }
    if forall|i: int| 0 <= i < board.exchanges@.len() ==> #[trigger] board.exchanges@[i].mv != mv {
        lemma_no_score(board.exchanges@, mv);
    }
}

proof fn lemma_first_score(entries: Seq<MoveEntry>, mv: Move, i: int)
    requires
        0 <= i < entries.len(),
        entries[i].mv == mv,
        forall|j: int| 0 <= j < i ==> #[trigger] entries[j].mv != mv,
    ensures
        first_score(entries, mv) == entries[i].score,
    decreases i,
{
    if i > 0 {
        let rest = entries.drop_first();
        assert(entries[0].mv != mv);
        assert forall|j: int| 0 <= j < i - 1 implies #[trigger] rest[j].mv != mv by {
            assert(rest[j] == entries[j + 1]);
        }
        lemma_first_score(rest, mv, i - 1);
    }
}

proof fn lemma_no_score(entries: Seq<MoveEntry>, mv: Move)
    requires
        forall|j: int| 0 <= j < entries.len() ==> #[trigger] entries[j].mv != mv,
    ensures
        first_score(entries, mv) == 0,
    decreases entries.len(),
{
    if entries.len() > 0 {
        let rest = entries.drop_first();
        assert(entries[0].mv != mv);
        assert forall|j: int| 0 <= j < rest.len() implies #[trigger] rest[j].mv != mv by {
            assert(rest[j] == entries[j + 1]);
        }
        lemma_no_score(rest, mv);
    }
}

/// The pieces of a side and type, and the occupied squares, are those that the sets of the position
/// hold, square by square.
pub proof fn law_piece_sets(board: Board, color: Color, pt: PieceType, sq: int)
    requires
        pt != PieceType::Empty,
    ensures
        board.spec_colored_pieces(color, pt).has(sq) <==> board.colors[color.ordinal()].has(sq)
            && board.pieces[pt.ordinal()].has(sq),
        board.spec_occupancies().has(sq) <==> board.colors[0].has(sq) || board.colors[1].has(sq),
{
    if 0 <= sq < 64 {
        crate::types::bitboard::lemma_bit_ops(
            board.colors[color.ordinal()].0,
            board.pieces[pt.ordinal()].0,
            sq as u64,
        );
        crate::types::bitboard::lemma_bit_ops(board.colors[0].0, board.colors[1].0, sq as u64);
    }
}

} // verus!
