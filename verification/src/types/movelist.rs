use vstd::prelude::*;

use super::bitboard::Bitboard;
use super::chess_move::{Move, MoveKind};
use super::square::Square;

verus! {

/// The most moves a list holds: no position has more, and an index fits in eight bits.
pub const MAX_MOVES: usize = 256;

/// A move with the score it is ordered by.
#[derive(Copy, Clone, Debug, PartialEq, Eq, Structural)]
pub struct MoveEntry {
    pub mv: Move,
    pub score: i32,
}

/// The moves a push of a whole set of destinations adds, one for each, in the order of the
/// squares.
pub open spec fn moves_to(from: Square, to_bb: Bitboard, kind: MoveKind) -> Seq<Move> {
    to_bb.squares().map_values(|to: Square| Move::spec_new(from, to, kind))
}

/// The pawn moves that end on the given squares, each of which came `offset` squares far.
pub open spec fn pawn_moves_to(offset: int, to_bb: Bitboard, kind: MoveKind) -> Seq<Move> {
    to_bb.squares().map_values(
        |to: Square| Move::spec_new(Square((to.0 - offset) as u8), to, kind),
    )
}

/// Whether every square of the set, taken back by `offset`, is on the board.
pub open spec fn origins_on_board(offset: int, to_bb: Bitboard) -> bool {
    forall|to: int| #[trigger] to_bb.has(to) ==> 0 <= to - offset < 64
}

/// A sequence without its element at `index`, whose place the last element takes.
pub open spec fn swap_removed<T>(s: Seq<T>, index: int) -> Seq<T> {
    Seq::new(
        (s.len() - 1) as nat,
        |i: int|
            if i == index {
                s.last()
            } else {
                s[i]
            },
    )
}

/// A list of moves, each with a score. The scores stand in slots, one for each place of the list.
/// A move that enters the list takes over what its slot holds, until the list is scored.
pub struct MoveList {
    moves: Vec<Move>,
    slots: Vec<i32>,
}

impl MoveList {
    /// The moves, in the order of the list.
    pub closed spec fn spec_moves(self) -> Seq<Move> {
        self.moves@
    }

    /// What the slots for the scores hold, those beyond the end of the list too.
    pub closed spec fn spec_slots(self) -> Seq<i32> {
        self.slots@
    }

    /// The scores, in the order of the list.
    pub open spec fn spec_scores(self) -> Seq<i32> {
        self.spec_slots().take(self.spec_moves().len() as int)
    }

    /// There is a slot for each place, and the list is within its bound.
    pub open spec fn wf(self) -> bool {
        &&& self.spec_slots().len() == MAX_MOVES
        &&& self.spec_moves().len() <= MAX_MOVES
    }

    /// A list without moves, every slot of which holds `0`.
    pub fn new() -> (list: Self)
        ensures
            list.wf(),
            list.spec_moves() == Seq::<Move>::empty(),
            list.spec_scores() == Seq::<i32>::empty(),
            list.spec_slots() == Seq::new(MAX_MOVES as nat, |i: int| 0i32),
    {
        MoveList { moves: Vec::with_capacity(MAX_MOVES), slots: vec![0i32; MAX_MOVES] }
    }

    pub fn len(&self) -> (n: usize)
        ensures
            n == self.spec_moves().len(),
    {
        self.moves.len()
    }

    pub fn is_empty(&self) -> (b: bool)
        ensures
            b == (self.spec_moves().len() == 0),
    {
        self.moves.len() == 0
    }

    /// Adds a move at the end. The slots keep what they hold.
    pub fn push_move(&mut self, mv: Move)
        requires
            old(self).wf(),
            old(self).spec_moves().len() < MAX_MOVES,
        ensures
            final(self).wf(),
            final(self).spec_moves() == old(self).spec_moves().push(mv),
            final(self).spec_slots() == old(self).spec_slots(),
    {
        self.moves.push(mv);
    }

    /// Adds the move with the given squares and kind.
    pub fn push(&mut self, from: Square, to: Square, kind: MoveKind)
        requires
            old(self).wf(),
            old(self).spec_moves().len() < MAX_MOVES,
            from.wf(),
            to.wf(),
        ensures
            final(self).wf(),
            final(self).spec_moves() == old(self).spec_moves().push(Move::spec_new(from, to, kind)),
            final(self).spec_moves().last().spec_from() == from,
            final(self).spec_moves().last().spec_to() == to,
            final(self).spec_moves().last().kind_code() == kind.spec_code(),
            final(self).spec_slots() == old(self).spec_slots(),
    {
        proof {
            super::chess_move::law_move_round_trip(from, to, kind);
        }
        self.push_move(Move::new(from, to, kind));
    }

    /// Adds a move from one square to each square of a set, in ascending order.
    pub fn push_setwise(&mut self, from: Square, to_bb: Bitboard, kind: MoveKind)
        requires
            old(self).wf(),
            old(self).spec_moves().len() + to_bb.squares().len() <= MAX_MOVES,
            from.wf(),
        ensures
            final(self).wf(),
            final(self).spec_moves() == old(self).spec_moves() + moves_to(from, to_bb, kind),
            final(self).spec_moves().len() == old(self).spec_moves().len() + to_bb.squares().len(),
            forall|i: int|
                0 <= i < old(self).spec_moves().len() ==> #[trigger] final(self).spec_moves()[i]
                    == old(self).spec_moves()[i],
            forall|i: int|
                old(self).spec_moves().len() <= i < final(self).spec_moves().len() ==> {
                    let mv = #[trigger] final(self).spec_moves()[i];
                    &&& mv.spec_from() == from
                    &&& mv.spec_to() == to_bb.squares()[i - old(self).spec_moves().len()]
                    &&& mv.kind_code() == kind.spec_code()
                },
            final(self).spec_slots() == old(self).spec_slots(),
    {
        proof {
            law_setwise(from, to_bb, kind);
        }
        let ghost make = |to: Square| Move::spec_new(from, to, kind);
        let mut rest: Bitboard = to_bb;
        let ghost mut done: nat = 0;
        while !rest.is_empty()
            invariant
                self.wf(),
                from.wf(),
                done <= 64,
                make == (|to: Square| Move::spec_new(from, to, kind)),
                forall|s: int| #[trigger] rest.has(s) <==> to_bb.has(s) && s >= done,
                self.spec_moves() == old(self).spec_moves() + to_bb.squares_below(done).map_values(make),
                self.spec_slots() == old(self).spec_slots(),
                old(self).spec_moves().len() + to_bb.squares().len() <= MAX_MOVES,
            decreases 64 - done,
        {
            let ghost before = rest;
            let to = rest.pop_lsb();
            proof {
                assert forall|s: int| done <= s < to.0 implies !#[trigger] to_bb.has(s) by {
                    assert(!before.has(s));
                }
                super::bitboard::lemma_next_square(to_bb, done, to);
            }
            self.push(from, to, kind);
            proof {
                assert(to_bb.squares_below(done).push(to).map_values(make) =~= to_bb.squares_below(done).map_values(
                    make,
                ).push(make(to)));
                done = (to.0 + 1) as nat;
            }
        }
        proof {
            assert forall|s: int| done <= s < 64 implies !#[trigger] to_bb.has(s) by {
                assert(!rest.has(s));
            }
            super::bitboard::lemma_squares_gap(to_bb, done, 64);
        }
    }

    /// Adds a pawn move to each square of a set, in ascending order; each pawn comes from the
    /// square `offset` places before.
    pub fn push_pawns_setwise(&mut self, offset: i8, to_bb: Bitboard, kind: MoveKind)
        requires
            old(self).wf(),
            old(self).spec_moves().len() + to_bb.squares().len() <= MAX_MOVES,
            origins_on_board(offset as int, to_bb),
        ensures
            final(self).wf(),
            final(self).spec_moves() == old(self).spec_moves() + pawn_moves_to(offset as int, to_bb, kind),
            final(self).spec_moves().len() == old(self).spec_moves().len() + to_bb.squares().len(),
            forall|i: int|
                0 <= i < old(self).spec_moves().len() ==> #[trigger] final(self).spec_moves()[i]
                    == old(self).spec_moves()[i],
            forall|i: int|
                old(self).spec_moves().len() <= i < final(self).spec_moves().len() ==> {
                    let mv = #[trigger] final(self).spec_moves()[i];
                    &&& mv.spec_from().0 + offset == mv.spec_to().0
                    &&& mv.spec_to() == to_bb.squares()[i - old(self).spec_moves().len()]
                    &&& mv.kind_code() == kind.spec_code()
                },
            final(self).spec_slots() == old(self).spec_slots(),
    {
        proof {
            law_pawns_setwise(offset as int, to_bb, kind);
        }
        let ghost make = |to: Square| Move::spec_new(Square((to.0 - offset) as u8), to, kind);
        let mut rest: Bitboard = to_bb;
        let ghost mut done: nat = 0;
        while !rest.is_empty()
            invariant
                self.wf(),
                done <= 64,
                make == (|to: Square| Move::spec_new(Square((to.0 - offset) as u8), to, kind)),
                origins_on_board(offset as int, to_bb),
                forall|s: int| #[trigger] rest.has(s) <==> to_bb.has(s) && s >= done,
                self.spec_moves() == old(self).spec_moves() + to_bb.squares_below(done).map_values(make),
                self.spec_slots() == old(self).spec_slots(),
                old(self).spec_moves().len() + to_bb.squares().len() <= MAX_MOVES,
            decreases 64 - done,
        {
            let ghost before = rest;
            let to = rest.pop_lsb();
            proof {
                assert(to_bb.has(to.0 as int));
                assert forall|s: int| done <= s < to.0 implies !#[trigger] to_bb.has(s) by {
                    assert(!before.has(s));
                }
                super::bitboard::lemma_next_square(to_bb, done, to);
            }
            self.push(to.shift(-offset), to, kind);
            proof {
                assert(to_bb.squares_below(done).push(to).map_values(make) =~= to_bb.squares_below(done).map_values(
                    make,
                ).push(make(to)));
                done = (to.0 + 1) as nat;
            }
        }
        proof {
            assert forall|s: int| done <= s < 64 implies !#[trigger] to_bb.has(s) by {
                assert(!rest.has(s));
            }
            super::bitboard::lemma_squares_gap(to_bb, done, 64);
        }
    }

    /// Adds the four promotions by capture for each destination: all queens first, then all
    /// rooks, bishops and knights.
    pub fn push_promotion_capture_setwise(&mut self, offset: i8, to_bb: Bitboard)
        requires
            old(self).wf(),
            old(self).spec_moves().len() + 4 * to_bb.squares().len() <= MAX_MOVES,
            origins_on_board(offset as int, to_bb),
        ensures
            final(self).wf(),
            final(self).spec_moves() == old(self).spec_moves()
                + pawn_moves_to(offset as int, to_bb, MoveKind::PromotionCaptureQ)
                + pawn_moves_to(offset as int, to_bb, MoveKind::PromotionCaptureR)
                + pawn_moves_to(offset as int, to_bb, MoveKind::PromotionCaptureB)
                + pawn_moves_to(offset as int, to_bb, MoveKind::PromotionCaptureN),
            ({
                let (before, all) = (old(self).spec_moves(), final(self).spec_moves());
                let n = to_bb.squares().len() as int;
                &&& all.len() == before.len() + 4 * n
                &&& forall|i: int| 0 <= i < before.len() ==> #[trigger] all[i] == before[i]
                &&& forall|i: int|
                    0 <= i - before.len() < 4 * n ==> {
                        let mv = #[trigger] all[i];
                        let k = i - before.len();
                        &&& mv.spec_from().0 + offset == mv.spec_to().0
                        &&& mv.kind_code() >= 12
                        &&& k < n ==> mv.spec_to() == to_bb.squares()[k] && mv.spec_promo_piece_type()
                            == super::piece::PieceType::Queen
                        &&& n <= k < 2 * n ==> mv.spec_to() == to_bb.squares()[k - n]
                            && mv.spec_promo_piece_type() == super::piece::PieceType::Rook
                        &&& 2 * n <= k < 3 * n ==> mv.spec_to() == to_bb.squares()[k - 2 * n]
                            && mv.spec_promo_piece_type() == super::piece::PieceType::Bishop
                        &&& 3 * n <= k ==> mv.spec_to() == to_bb.squares()[k - 3 * n]
                            && mv.spec_promo_piece_type() == super::piece::PieceType::Knight
                    }
            }),
            final(self).spec_slots() == old(self).spec_slots(),
    {
        if !to_bb.is_empty() {
            self.push_pawns_setwise(offset, to_bb, MoveKind::PromotionCaptureQ);
            self.push_pawns_setwise(offset, to_bb, MoveKind::PromotionCaptureR);
            self.push_pawns_setwise(offset, to_bb, MoveKind::PromotionCaptureB);
            self.push_pawns_setwise(offset, to_bb, MoveKind::PromotionCaptureN);
        } else {
            proof {
                super::bitboard::lemma_squares_gap(to_bb, 0, 64);
            }
        }
    }

    /// The moves, in the order of the list.
    pub fn moves(&self) -> (moves: &[Move])
        ensures
            moves@ == self.spec_moves(),
    {
        self.moves.as_slice()
    }

    /// The scores, in the order of the list.
    pub fn scores(&self) -> (scores: &[i32])
        requires
            self.wf(),
        ensures
            scores@ == self.spec_scores(),
    {
        self.slots.as_slice().split_at(self.moves.len()).0
    }

    /// The moves, and the scores to be written. What the borrower leaves in the scores is what
    /// the list then holds.
    pub fn moves_and_scores_mut(&mut self) -> (both: (&[Move], &mut [i32]))
        requires
            old(self).wf(),
        ensures
            both.0@ == old(self).spec_moves(),
            both.1@ == old(self).spec_scores(),
            final(self).spec_moves() == old(self).spec_moves(),
            final(self).spec_slots() == final(both.1)@ + old(self).spec_slots().skip(
                old(self).spec_moves().len() as int,
            ),
    {
        let n: usize = self.moves.len();
        (self.moves.as_slice(), self.slots.as_mut_slice().split_at_mut(n).0)
    }

    /// Takes out the entry at an index. The last entry of the list takes its place, and its score
    /// stays in its slot too.
    pub fn remove(&mut self, index: usize) -> (entry: MoveEntry)
        requires
            old(self).wf(),
            index < old(self).spec_moves().len(),
        ensures
            final(self).wf(),
            entry.mv == old(self).spec_moves()[index as int],
            entry.score == old(self).spec_scores()[index as int],
            final(self).spec_moves() == swap_removed(old(self).spec_moves(), index as int),
            final(self).spec_scores() == swap_removed(old(self).spec_scores(), index as int),
            final(self).spec_moves().len() == old(self).spec_moves().len() - 1,
            forall|i: int|
                0 <= i < final(self).spec_moves().len() ==> {
                    let from = if i == index {
                        old(self).spec_moves().len() - 1
                    } else {
                        i
                    };
                    &&& #[trigger] final(self).spec_moves()[i] == old(self).spec_moves()[from]
                    &&& final(self).spec_scores()[i] == old(self).spec_scores()[from]
                },
            final(self).spec_slots() == old(self).spec_slots().update(
                index as int,
                old(self).spec_scores().last(),
            ),
    {
        let mv = self.moves.swap_remove(index);
        let score: i32 = self.slots[index];
        let last: i32 = self.slots[self.moves.len()];
        self.slots[index] = last;
        MoveEntry { mv, score }
    }
}

/// The moves of a piece to a set of squares: as many as the set has squares, the next always to the
/// next square of the set in ascending order. Each leaves the given square, for a square of the
/// set, and is of the given kind.
pub proof fn law_setwise(from: Square, to_bb: Bitboard, kind: MoveKind)
    requires
        from.wf(),
    ensures
        moves_to(from, to_bb, kind).len() == to_bb.squares().len(),
        forall|i: int|
            0 <= i < to_bb.squares().len() ==> {
                let mv = #[trigger] moves_to(from, to_bb, kind)[i];
                &&& mv.spec_from() == from
                &&& mv.spec_to() == to_bb.squares()[i]
                &&& to_bb.has(mv.spec_to().0 as int)
                &&& mv.kind_code() == kind.spec_code()
            },
        forall|i: int, j: int|
            0 <= i < j < to_bb.squares().len() ==> (#[trigger] moves_to(from, to_bb, kind)[i]).spec_to().0
                < (#[trigger] moves_to(from, to_bb, kind)[j]).spec_to().0,
        forall|to: int| #[trigger]
            to_bb.has(to) ==> exists|i: int|
                0 <= i < to_bb.squares().len() && (#[trigger] moves_to(from, to_bb, kind)[i]).spec_to().0
                    == to,
{
    super::bitboard::law_squares(to_bb);
    super::bitboard::lemma_squares_below(to_bb, 64);
    let moves = moves_to(from, to_bb, kind);
    assert forall|i: int| 0 <= i < to_bb.squares().len() implies {
        let mv = #[trigger] moves[i];
        &&& mv.spec_from() == from
        &&& mv.spec_to() == to_bb.squares()[i]
        &&& to_bb.has(mv.spec_to().0 as int)
        &&& mv.kind_code() == kind.spec_code()
    } by {
        assert(to_bb.squares_below(64)[i].0 < 64);
        super::chess_move::law_move_round_trip(from, to_bb.squares()[i], kind);
    }
    assert forall|to: int| #[trigger] to_bb.has(to) implies exists|i: int|
        0 <= i < to_bb.squares().len() && (#[trigger] moves[i]).spec_to().0 == to by {
        assert(to_bb.squares().contains(Square(to as u8)));
        let i = to_bb.squares().index_of(Square(to as u8));
        assert(moves[i].spec_to().0 == to);
    }
}

/// The pawn moves to a set of squares: as many as the set has squares, the next always to the next
/// square of the set in ascending order. Each comes from the square that lies the offset before its
/// destination, and is of the given kind.
pub proof fn law_pawns_setwise(offset: int, to_bb: Bitboard, kind: MoveKind)
    requires
        forall|to: int| #[trigger] to_bb.has(to) ==> 0 <= to - offset < 64,
    ensures
        pawn_moves_to(offset, to_bb, kind).len() == to_bb.squares().len(),
        forall|i: int|
            0 <= i < to_bb.squares().len() ==> {
                let mv = #[trigger] pawn_moves_to(offset, to_bb, kind)[i];
                &&& mv.spec_from().0 + offset == mv.spec_to().0
                &&& mv.spec_to() == to_bb.squares()[i]
                &&& to_bb.has(mv.spec_to().0 as int)
                &&& mv.kind_code() == kind.spec_code()
            },
        forall|i: int, j: int|
            0 <= i < j < to_bb.squares().len() ==> (#[trigger] pawn_moves_to(
                offset,
                to_bb,
                kind,
            )[i]).spec_to().0 < (#[trigger] pawn_moves_to(offset, to_bb, kind)[j]).spec_to().0,
        forall|to: int| #[trigger]
            to_bb.has(to) ==> exists|i: int|
                0 <= i < to_bb.squares().len() && (#[trigger] pawn_moves_to(
                    offset,
                    to_bb,
                    kind,
                )[i]).spec_to().0 == to,
{
    super::bitboard::law_squares(to_bb);
    super::bitboard::lemma_squares_below(to_bb, 64);
    let moves = pawn_moves_to(offset, to_bb, kind);
    assert forall|i: int| 0 <= i < to_bb.squares().len() implies {
        let mv = #[trigger] moves[i];
        &&& mv.spec_from().0 + offset == mv.spec_to().0
        &&& mv.spec_to() == to_bb.squares()[i]
        &&& to_bb.has(mv.spec_to().0 as int)
        &&& mv.kind_code() == kind.spec_code()
    } by {
        let to = to_bb.squares_below(64)[i];
        assert(to_bb.has(to.0 as int));
        super::chess_move::law_move_round_trip(Square((to.0 - offset) as u8), to, kind);
    }
    assert forall|to: int| #[trigger] to_bb.has(to) implies exists|i: int|
        0 <= i < to_bb.squares().len() && (#[trigger] moves[i]).spec_to().0 == to by {
        assert(to_bb.squares().contains(Square(to as u8)));
        let i = to_bb.squares().index_of(Square(to as u8));
        assert(moves[i].spec_to().0 == to);
    }
}

/// A move may be put together from its destination and the rest: the bits of the two do not meet.
pub proof fn law_move_from_template(from: Square, to: Square, kind: MoveKind)
    requires
        from.wf(),
        to.wf(),
    ensures
        Move::spec_new(from, to, kind).0 == Move::spec_new(Square(0), to, MoveKind::Normal).0
            | Move::spec_new(from, Square(0), kind).0,
{
    let f = from.0 as u16;
    let t = to.0 as u16;
    let k = kind.spec_code() as u16;
    assert(((64 * t) as u16) | ((f + 4096 * k) as u16) == (f + 64 * t + 4096 * k) as u16) by (bit_vector)
        requires
            f < 64,
            t < 64,
            k < 16,
    ;
}

/// A pawn move may be put together by arithmetic on sixteen bits: from the move that stays on its
/// destination, add the kind and take the offset away.
pub proof fn law_pawn_move_from_template(offset: i8, to: Square, kind: MoveKind)
    requires
        to.wf(),
        0 <= to.0 - offset < 64,
    ensures
        Move::spec_new(Square((to.0 - offset) as u8), to, kind).0 == (Move::spec_new(
            to,
            to,
            MoveKind::Normal,
        ).0 + (4096 * kind.spec_code() - offset)) % 0x1_0000,
{
}

impl Default for MoveList {
    fn default() -> (list: Self)
        ensures
            list.wf(),
            list.spec_moves() == Seq::<Move>::empty(),
            list.spec_scores() == Seq::<i32>::empty(),
            list.spec_slots() == Seq::new(MAX_MOVES as nat, |i: int| 0i32),
    {
        Self::new()
    }
}

} // verus!
