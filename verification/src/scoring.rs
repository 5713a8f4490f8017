use vstd::prelude::*;

use crate::attacks::{
    bishop_attacks_setwise, king_attacks, knight_attacks_setwise, pawn_attacks_setwise,
    rook_attacks_setwise,
};
use crate::board::Board;
use crate::thread::ThreadData;
use crate::types::{Bitboard, Move, PieceType, Square};

verus! {

/// Division that rounds towards zero.
pub open spec fn div_trunc(a: int, b: int) -> int {
    if a >= 0 {
        a / b
    } else {
        -((-a) / b)
    }
}

/// `1` for true and `0` for false.
pub open spec fn flag(b: bool) -> int {
    if b {
        1
    } else {
        0
    }
}

fn as_flag(b: bool) -> (n: i32)
    ensures
        n == flag(b),
        0 <= n <= 1,
{
    if b {
        1
    } else {
        0
    }
}

/// The score of a capture or promotion: what it takes, what it has done before, whether it makes
/// a queen, and where the side to move is in check, how light the piece is that moves.
pub open spec fn spec_noisy_score(td: ThreadData, mv: Move) -> int {
    let captured = td.board.spec_type_on(mv.spec_capture_sq());
    let pt = td.board.spec_type_on(mv.spec_from());
    16 * td.params.spec_value(captured) + td.noisy_history.spec_get(
        td.board.threats,
        td.board.spec_moved_piece(mv),
        mv.spec_to(),
        captured,
    ) + 4000 * flag(mv.spec_is_promotion() && mv.spec_promo_piece_type() == PieceType::Queen) + (200000
        - 20000 * pt.ordinal()) * flag(td.board.in_check)
}

pub fn noisy_score(td: &ThreadData, mv: Move) -> (score: i32)
    ensures
        score == spec_noisy_score(*td, mv),
        -0x80_0000 <= score < 0x80_0000,
{
    let captured = td.board.type_on(mv.capture_sq());
    let pt = td.board.type_on(mv.from());
    let history: i32 = td.noisy_history.get(
        td.board.threats,
        td.board.moved_piece(mv),
        mv.to(),
        captured,
    );
    let evasion: i32 = if td.board.in_check {
        200000 - 20000 * pt.index() as i32
    } else {
        0
    };
    16 * td.params.value(captured) + history + 4000 * as_flag(
        mv.is_promotion() && mv.promo_piece_type() == PieceType::Queen,
    ) + evasion
}

/// Whether the opponent attacks a square with a piece that is worth less than `pt`.
pub open spec fn is_threatened(board: Board, pt: PieceType, sq: int) -> bool {
    let by_pawn = board.spec_piece_threats(PieceType::Pawn).has(sq);
    let by_minor = board.spec_piece_threats(PieceType::Knight).has(sq)
        || board.spec_piece_threats(PieceType::Bishop).has(sq);
    let by_rook = board.spec_piece_threats(PieceType::Rook).has(sq);
    match pt {
        PieceType::Knight | PieceType::Bishop => by_pawn,
        PieceType::Rook => by_pawn || by_minor,
        PieceType::Queen => by_pawn || by_minor || by_rook,
        _ => false,
    }
}

/// What it is worth to move a threatened piece away.
pub open spec fn escape_bonus(pt: PieceType) -> int {
    match pt {
        PieceType::Knight => 7768,
        PieceType::Bishop => 8218,
        PieceType::Rook => 13424,
        PieceType::Queen => 20208,
        _ => 0,
    }
}

/// The opponent's pieces of a type.
pub open spec fn enemies(board: Board, pt: PieceType) -> Bitboard {
    board.spec_colored_pieces(board.side.opponent(), pt)
}

/// The opponent's pieces of a type that the opponent does not defend.
pub open spec fn undefended(board: Board, pt: PieceType) -> Bitboard {
    Bitboard(enemies(board, pt).0 & !board.threats.0)
}

/// Whether a piece of type `pt` would attack, from `sq`, an opponent's piece that it gains by
/// attacking.
pub open spec fn attacks_target(board: Board, pt: PieceType, sq: int) -> bool {
    let enemy = board.side.opponent();
    let occupied = board.spec_occupancies();
    match pt {
        PieceType::Pawn => exists|s: int| #[trigger]
            board.spec_colors(enemy).has(s) && crate::attacks::pawn_step(enemy, s, sq),
        PieceType::Knight => exists|s: int| #[trigger]
            crate::attacks::knight_step(s, sq) && {
                ||| undefended(board, PieceType::Bishop).has(s)
                ||| enemies(board, PieceType::Rook).has(s)
                ||| enemies(board, PieceType::Queen).has(s)
            },
        PieceType::Bishop => crate::attacks::bishop_reaches(
            enemies(board, PieceType::Rook),
            occupied,
            sq,
        ),
        PieceType::Rook => Square::file_of(sq) == Square::file_of(
            board.spec_king_square(enemy).0 as int,
        ),
        PieceType::Queen => {
            ||| crate::attacks::rook_reaches(undefended(board, PieceType::Bishop), occupied, sq)
            ||| crate::attacks::bishop_reaches(undefended(board, PieceType::Rook), occupied, sq)
        },
        _ => false,
    }
}

/// Whether `sq` is a safe square from which a piece of type `pt` attacks an opponent's piece.
pub open spec fn is_offensive(board: Board, pt: PieceType, sq: int) -> bool {
    0 <= sq < 64 && !board.threats.has(sq) && attacks_target(board, pt, sq)
}

/// Whether a pawn next to the king of the side to move stands on `sq`, and that king is at home.
pub open spec fn is_wall_pawn(td: ThreadData, sq: int) -> bool {
    let king = td.board.spec_king_square(td.board.side).0 as int;
    &&& td.params.spec_home_row(td.board.side).has(king)
    &&& crate::attacks::king_step(king, sq)
    &&& td.board.spec_pieces(PieceType::Pawn).has(sq)
}

/// How a quiet move and its like have done before.
pub open spec fn spec_past_score(td: ThreadData, ply: int, mv: Move) -> int {
    div_trunc(2048 * td.quiet_history.spec_get(td.board.threats, td.board.side, mv), 1024)
        + div_trunc(1536 * td.spec_conthist(ply, 1, mv), 1024)
        + td.spec_conthist(ply, 2, mv)
        + td.spec_conthist(ply, 4, mv)
        + td.spec_conthist(ply, 6, mv)
}

/// What a quiet move does on the board: whether it takes a piece out of a threat or into one, gives
/// check, attacks something from a safe square, or opens up the king.
pub open spec fn spec_board_score(td: ThreadData, mv: Move) -> int {
    let from = mv.spec_from();
    let to = mv.spec_to();
    let pt = td.board.spec_type_on(from);
    escape_bonus(pt) * flag(is_threatened(td.board, pt, from.0 as int))
        + 9325 * flag(td.board.spec_checking_squares(pt).has(to.0 as int))
        - 7584 * flag(is_threatened(td.board, pt, to.0 as int))
        + 5000 * flag(is_offensive(td.board, pt, to.0 as int))
        - 4000 * flag(is_wall_pawn(td, from.0 as int))
}

/// The score of a quiet move.
pub open spec fn spec_quiet_score(td: ThreadData, ply: int, mv: Move) -> int {
    spec_past_score(td, ply, mv) + spec_board_score(td, mv)
}

fn past_score(td: &ThreadData, ply: isize, mv: Move) -> (score: i32)
    ensures
        score == spec_past_score(*td, ply as int, mv),
        -0x40_0000 <= score < 0x40_0000,
{
    let history: i32 = td.quiet_history.get(td.board.threats, td.board.side, mv);
    2048 * history / 1024 + 1536 * td.conthist(ply, 1, mv) / 1024 + td.conthist(ply, 2, mv)
        + td.conthist(ply, 4, mv) + td.conthist(ply, 6, mv)
}

/// What the scores of all quiet moves of a position have in common.
pub struct QuietContext {
    /// For each type of piece, the squares where a lesser piece attacks it.
    threatened: [Bitboard; 6],
    /// For each type of piece, the safe squares from which it attacks an opponent's piece.
    offense: [Bitboard; 6],
    /// The pawns before a king at home.
    wall_pawns: Bitboard,
}

impl QuietContext {
    /// Whether the sets are those of the given position.
    pub closed spec fn is_for(self, td: ThreadData) -> bool {
        &&& forall|pt: PieceType, s: int|
            pt != PieceType::Empty ==> (#[trigger] self.threatened[pt.ordinal()].has(s)
                <==> is_threatened(td.board, pt, s))
        &&& forall|pt: PieceType, s: int|
            pt != PieceType::Empty ==> (#[trigger] self.offense[pt.ordinal()].has(s)
                <==> is_offensive(td.board, pt, s))
        &&& forall|s: int| #[trigger] self.wall_pawns.has(s) <==> is_wall_pawn(td, s)
    }

    pub fn new(td: &ThreadData) -> (context: QuietContext)
        requires
            td.board.wf(),
        ensures
            context.is_for(*td),
    {
        let board = &td.board;
        let threats = board.threats;
        let side = board.side;
        let enemy = side.opponent();
        let occupancies = board.occupancies();

        let pawn_threats = board.piece_threats(PieceType::Pawn);
        let minor_threats = pawn_threats.union(board.piece_threats(PieceType::Knight)).union(
            board.piece_threats(PieceType::Bishop),
        );
        let rook_threats = minor_threats.union(board.piece_threats(PieceType::Rook));
        let none = Bitboard::empty();
        let threatened: [Bitboard; 6] = [
            none,
            pawn_threats,
            pawn_threats,
            minor_threats,
            rook_threats,
            none,
        ];

        let bishops = board.colored_pieces(enemy, PieceType::Bishop).without(threats);
        let rooks = board.colored_pieces(enemy, PieceType::Rook);
        let knight_vulnerable = bishops.union(rooks).union(
            board.colored_pieces(enemy, PieceType::Queen),
        );
        let p = pawn_attacks_setwise(board.colors(enemy), enemy).without(threats);
        let n = knight_attacks_setwise(knight_vulnerable).without(threats);
        let b = bishop_attacks_setwise(rooks, occupancies).without(threats);
        let r = Bitboard::file(board.king_square(enemy).file()).without(threats);
        let q = rook_attacks_setwise(bishops, occupancies).union(
            bishop_attacks_setwise(rooks.without(threats), occupancies),
        ).without(threats);
        let offense: [Bitboard; 6] = [p, n, b, r, q, none];

        let my_king = board.king_square(side);
        let wall_pawns = if td.params.home_row(side).contains(my_king) {
            king_attacks(my_king).intersect(board.pieces(PieceType::Pawn))
        } else {
            none
        };
        let context = QuietContext { threatened, offense, wall_pawns };
        proof {
            assert forall|pt: PieceType, s: int| pt != PieceType::Empty implies (
            #[trigger] context.threatened[pt.ordinal()].has(s) <==> is_threatened(td.board, pt, s)) by {
            }
            assert forall|pt: PieceType, s: int| pt != PieceType::Empty implies (
            #[trigger] context.offense[pt.ordinal()].has(s) <==> is_offensive(td.board, pt, s)) by {
                match pt {
                    PieceType::Pawn => {
                        assert(context.offense[0] == p);
                    },
                    PieceType::Knight => {
                        assert(context.offense[1] == n);
                        if is_offensive(td.board, pt, s) {
                            let t = choose|t: int| #[trigger]
                                crate::attacks::knight_step(t, s) && {
                                    ||| undefended(td.board, PieceType::Bishop).has(t)
                                    ||| enemies(td.board, PieceType::Rook).has(t)
                                    ||| enemies(td.board, PieceType::Queen).has(t)
                                };
                            assert(knight_vulnerable.has(t));
                        }
                    },
                    PieceType::Bishop => {
                        assert(context.offense[2] == b);
                    },
                    PieceType::Rook => {
                        assert(context.offense[3] == r);
                    },
                    PieceType::Queen => {
                        assert(context.offense[4] == q);
                    },
                    PieceType::King => {
                        assert(context.offense[5] == none);
                    },
                    PieceType::Empty => {},
                }
            }
        }
        context
    }

    /// What a quiet move does on the board.
    fn board_score(&self, td: &ThreadData, mv: Move) -> (score: i32)
        requires
            self.is_for(*td),
            td.board.spec_type_on(mv.spec_from()) != PieceType::Empty,
        ensures
            score == spec_board_score(*td, mv),
            -0x40_0000 <= score < 0x40_0000,
    {
        let from = mv.from();
        let to = mv.to();
        let pt = td.board.type_on(from);
        let escape: [i32; 6] = [0, 7768, 8218, 13424, 20208, 0];
        let i: usize = pt.index();
        let threatened = self.threatened[i];
        let escaping: i32 = if threatened.contains(from) {
            escape[i]
        } else {
            0
        };
        escaping + 9325 * as_flag(td.board.checking_squares(pt).contains(to)) - 7584 * as_flag(
            threatened.contains(to),
        ) + 5000 * as_flag(self.offense[i].contains(to)) - 4000 * as_flag(
            self.wall_pawns.contains(from),
        )
    }

    /// The score of a quiet move in the position the context was made for.
    pub fn score(&self, td: &ThreadData, ply: isize, mv: Move) -> (score: i32)
        requires
            self.is_for(*td),
            td.board.spec_type_on(mv.spec_from()) != PieceType::Empty,
        ensures
            score == spec_quiet_score(*td, ply as int, mv),
            -0x80_0000 <= score < 0x80_0000,
    {
        past_score(td, ply, mv) + self.board_score(td, mv)
    }
}

/// Every noisy score fits in twenty-four bits.
pub proof fn law_noisy_score_range(td: ThreadData, mv: Move)
    ensures
        -0x80_0000 <= spec_noisy_score(td, mv) < 0x80_0000,
{
    let pt = td.board.spec_type_on(mv.spec_from());
    let weight = 200000 - 20000 * pt.ordinal();
    assert(weight * 0 == 0 && weight * 1 == weight);
}

/// Every quiet score fits in twenty-four bits.
pub proof fn law_quiet_score_range(td: ThreadData, ply: int, mv: Move)
    ensures
        -0x80_0000 <= spec_quiet_score(td, ply, mv) < 0x80_0000,
{
    let pt = td.board.spec_type_on(mv.spec_from());
    let bonus = escape_bonus(pt);
    assert(bonus * 0 == 0 && bonus * 1 == bonus);
}

/// Of two captures, in positions that are both check or both not, with equal histories, that both
/// make a queen or both do not and move the same type of piece, the one that takes the more
/// valuable piece has the greater score, by sixteen times the difference of the values. Which side
/// moves makes no difference.
pub proof fn law_noisy_victims(td: ThreadData, mv: Move, other: ThreadData, other_mv: Move)
    requires
        td.board.in_check == other.board.in_check,
        td.board.mailbox[mv.spec_from().0 as int].piece_type
            == other.board.mailbox[other_mv.spec_from().0 as int].piece_type,
        mv.spec_is_promotion() && mv.spec_promo_piece_type() == PieceType::Queen
            <==> other_mv.spec_is_promotion() && other_mv.spec_promo_piece_type() == PieceType::Queen,
        td.noisy_history.spec_get(
            td.board.threats,
            td.board.mailbox[mv.spec_from().0 as int],
            mv.spec_to(),
            td.board.mailbox[mv.spec_capture_sq().0 as int].piece_type,
        ) == other.noisy_history.spec_get(
            other.board.threats,
            other.board.mailbox[other_mv.spec_from().0 as int],
            other_mv.spec_to(),
            other.board.mailbox[other_mv.spec_capture_sq().0 as int].piece_type,
        ),
    ensures
        ({
            let victim = td.board.mailbox[mv.spec_capture_sq().0 as int].piece_type;
            let other_victim = other.board.mailbox[other_mv.spec_capture_sq().0 as int].piece_type;
            let value = td.params.piece_values[victim.ordinal()] as int;
            let other_value = other.params.piece_values[other_victim.ordinal()] as int;
            let gap = spec_noisy_score(td, mv) - spec_noisy_score(other, other_mv);
            &&& gap == 16 * (value - other_value)
            &&& value > other_value ==> gap > 0
        }),
{
}

/// The score of a capture rises one for one with what is recorded of it, and depends on nothing
/// else of the history.
pub proof fn law_noisy_history_counts_once(td: ThreadData, other: ThreadData, mv: Move)
    requires
        other == (ThreadData { noisy_history: other.noisy_history, ..td }),
    ensures
        ({
            let piece = td.board.mailbox[mv.spec_from().0 as int];
            let victim = td.board.mailbox[mv.spec_capture_sq().0 as int].piece_type;
            let threats = td.board.threats;
            spec_noisy_score(td, mv) - spec_noisy_score(other, mv) == td.noisy_history.spec_get(
                threats,
                piece,
                mv.spec_to(),
                victim,
            ) - other.noisy_history.spec_get(threats, piece, mv.spec_to(), victim)
        }),
{
}

/// A promotion to a queen scores `4000` more than the same move with any other kind that takes the
/// same piece, and all other kinds score the same.
pub proof fn law_queen_promotion_counts(td: ThreadData, from: Square, to: Square, queen: crate::types::MoveKind, kind: crate::types::MoveKind)
    requires
        from.wf(),
        to.wf(),
        queen == crate::types::MoveKind::PromotionQ || queen == crate::types::MoveKind::PromotionCaptureQ,
        kind != crate::types::MoveKind::EnPassant,
    ensures
        spec_noisy_score(td, Move::spec_new(from, to, queen)) == spec_noisy_score(
            td,
            Move::spec_new(from, to, kind),
        ) + if kind == crate::types::MoveKind::PromotionQ || kind == crate::types::MoveKind::PromotionCaptureQ {
            0int
        } else {
            4000
        },
{
    let (a, b) = (Move::spec_new(from, to, queen), Move::spec_new(from, to, kind));
    crate::types::chess_move::law_move_round_trip(from, to, queen);
    crate::types::chess_move::law_move_round_trip(from, to, kind);
    crate::types::chess_move::law_promotions(from, to, queen);
    crate::types::chess_move::law_promotions(from, to, kind);
    crate::types::chess_move::law_capture_square(from, to, queen);
    crate::types::chess_move::law_capture_square(from, to, kind);
    assert(a.spec_is_promotion() && a.spec_promo_piece_type() == PieceType::Queen);
    assert(flag(b.spec_is_promotion() && b.spec_promo_piece_type() == PieceType::Queen) == 1 <==> kind
        == crate::types::MoveKind::PromotionQ || kind == crate::types::MoveKind::PromotionCaptureQ);
}

/// In check, a capture scores more than it does in the same position without check: most with a
/// pawn, and `20000` less with each next type of piece.
pub proof fn law_noisy_evasions(td: ThreadData, other: ThreadData, mv: Move)
    requires
        other == (ThreadData { board: Board { in_check: false, ..td.board }, ..td }),
        td.board.in_check,
    ensures
        spec_noisy_score(td, mv) - spec_noisy_score(other, mv) == match td.board.mailbox[mv.spec_from().0 as int].piece_type {
            PieceType::Pawn => 200000int,
            PieceType::Knight => 180000,
            PieceType::Bishop => 160000,
            PieceType::Rook => 140000,
            PieceType::Queen => 120000,
            PieceType::King => 100000,
            PieceType::Empty => 80000,
        },
{
    let weight = 200000 - 20000 * td.board.spec_type_on(mv.spec_from()).ordinal();
    assert(weight * 0 == 0 && weight * 1 == weight);
}

/// The score of a capture reads of a position only what stands on the squares of the move, which
/// squares are attacked and whether there is check. So the side to move makes no difference, nor
/// does anything else of the position.
pub proof fn law_noisy_score_reads(td: ThreadData, other: ThreadData, mv: Move)
    requires
        td.board.mailbox[mv.spec_from().0 as int] == other.board.mailbox[mv.spec_from().0 as int],
        td.board.mailbox[mv.spec_capture_sq().0 as int].piece_type
            == other.board.mailbox[mv.spec_capture_sq().0 as int].piece_type,
        td.board.in_check == other.board.in_check,
        td.board.threats.has(mv.spec_to().0 as int) == other.board.threats.has(mv.spec_to().0 as int),
        td.noisy_history == other.noisy_history,
        td.params.piece_values == other.params.piece_values,
    ensures
        spec_noisy_score(td, mv) == spec_noisy_score(other, mv),
{
}

/// A move that takes nothing of value, has no history, makes no queen and is made without check
/// scores nothing.
pub proof fn law_noisy_zero(td: ThreadData, mv: Move)
    requires
        td.params.piece_values[td.board.mailbox[mv.spec_capture_sq().0 as int].piece_type.ordinal()] == 0,
        td.noisy_history.spec_get(
            td.board.threats,
            td.board.mailbox[mv.spec_from().0 as int],
            mv.spec_to(),
            td.board.mailbox[mv.spec_capture_sq().0 as int].piece_type,
        ) == 0,
        !(mv.spec_is_promotion() && mv.spec_promo_piece_type() == PieceType::Queen),
        !td.board.in_check,
    ensures
        spec_noisy_score(td, mv) == 0,
{
    let weight = 200000 - 20000 * td.board.spec_type_on(mv.spec_from()).ordinal();
    assert(weight * 0 == 0);
}

/// Of two positions that differ only in what the opponent attacks with which type of piece, and
/// not on the square where the move begins: where a piece that is worth less than the one moved
/// attacks the destination in one of them alone, the move scores `7584` less there. For a knight
/// or a bishop that is a pawn, for a rook a pawn, knight or bishop, for a queen a pawn, knight,
/// bishop or rook. To pawns and kings, and otherwise, attacks make no difference.
pub proof fn law_moving_into_threats(td: ThreadData, other: ThreadData, ply: int, mv: Move)
    requires
        other == (ThreadData {
            board: Board { piece_threats: other.board.piece_threats, ..td.board },
            ..td
        }),
        forall|i: int|
            0 <= i < 6 ==> (#[trigger] td.board.piece_threats[i]).has(mv.spec_from().0 as int)
                == other.board.piece_threats[i].has(mv.spec_from().0 as int),
    ensures
        ({
            let to = mv.spec_to().0 as int;
            let (a, b) = (td.board.piece_threats, other.board.piece_threats);
            let minor = a[0].has(to) || a[1].has(to) || a[2].has(to);
            let other_minor = b[0].has(to) || b[1].has(to) || b[2].has(to);
            let gap = spec_quiet_score(td, ply, mv) - spec_quiet_score(other, ply, mv);
            match td.board.mailbox[mv.spec_from().0 as int].piece_type {
                PieceType::Knight | PieceType::Bishop => {
                    &&& a[0].has(to) && !b[0].has(to) ==> gap == -7584
                    &&& a[0].has(to) == b[0].has(to) ==> gap == 0
                },
                PieceType::Rook => {
                    &&& minor && !other_minor ==> gap == -7584
                    &&& minor == other_minor ==> gap == 0
                },
                PieceType::Queen => {
                    &&& (minor || a[3].has(to)) && !(other_minor || b[3].has(to)) ==> gap == -7584
                    &&& (minor || a[3].has(to)) == (other_minor || b[3].has(to)) ==> gap == 0
                },
                _ => gap == 0,
            }
        }),
{
    assert(td.board.piece_threats[0].has(mv.spec_from().0 as int)
        == other.board.piece_threats[0].has(mv.spec_from().0 as int));
    assert(td.board.piece_threats[1].has(mv.spec_from().0 as int)
        == other.board.piece_threats[1].has(mv.spec_from().0 as int));
    assert(td.board.piece_threats[2].has(mv.spec_from().0 as int)
        == other.board.piece_threats[2].has(mv.spec_from().0 as int));
    assert(td.board.piece_threats[3].has(mv.spec_from().0 as int)
        == other.board.piece_threats[3].has(mv.spec_from().0 as int));
    lemma_same_position(td, other, mv);
}

/// Of two positions that differ only in what the opponent attacks with which type of piece, and
/// not on the destination: where a piece that is worth less than the one moved attacks the square
/// it leaves in one of them alone, the move scores more there, by what the type is worth saving.
/// Pawns and kings are not saved so.
pub proof fn law_moving_out_of_threats(td: ThreadData, other: ThreadData, ply: int, mv: Move)
    requires
        other == (ThreadData {
            board: Board { piece_threats: other.board.piece_threats, ..td.board },
            ..td
        }),
        forall|i: int|
            0 <= i < 6 ==> (#[trigger] td.board.piece_threats[i]).has(mv.spec_to().0 as int)
                == other.board.piece_threats[i].has(mv.spec_to().0 as int),
    ensures
        ({
            let from = mv.spec_from().0 as int;
            let (a, b) = (td.board.piece_threats, other.board.piece_threats);
            let minor = a[0].has(from) || a[1].has(from) || a[2].has(from);
            let other_minor = b[0].has(from) || b[1].has(from) || b[2].has(from);
            let gap = spec_quiet_score(td, ply, mv) - spec_quiet_score(other, ply, mv);
            match td.board.mailbox[from].piece_type {
                PieceType::Knight => {
                    &&& a[0].has(from) && !b[0].has(from) ==> gap == 7768
                    &&& a[0].has(from) == b[0].has(from) ==> gap == 0
                },
                PieceType::Bishop => {
                    &&& a[0].has(from) && !b[0].has(from) ==> gap == 8218
                    &&& a[0].has(from) == b[0].has(from) ==> gap == 0
                },
                PieceType::Rook => {
                    &&& minor && !other_minor ==> gap == 13424
                    &&& minor == other_minor ==> gap == 0
                },
                PieceType::Queen => {
                    &&& (minor || a[3].has(from)) && !(other_minor || b[3].has(from)) ==> gap == 20208
                    &&& (minor || a[3].has(from)) == (other_minor || b[3].has(from)) ==> gap == 0
                },
                _ => gap == 0,
            }
        }),
{
    assert(td.board.piece_threats[0].has(mv.spec_to().0 as int)
        == other.board.piece_threats[0].has(mv.spec_to().0 as int));
    assert(td.board.piece_threats[1].has(mv.spec_to().0 as int)
        == other.board.piece_threats[1].has(mv.spec_to().0 as int));
    assert(td.board.piece_threats[2].has(mv.spec_to().0 as int)
        == other.board.piece_threats[2].has(mv.spec_to().0 as int));
    assert(td.board.piece_threats[3].has(mv.spec_to().0 as int)
        == other.board.piece_threats[3].has(mv.spec_to().0 as int));
    lemma_same_position(td, other, mv);
    let bonus = escape_bonus(td.board.spec_type_on(mv.spec_from()));
    assert(bonus * 0 == 0 && bonus * 1 == bonus);
}

/// Of two positions that differ only in where a piece would give check, a move scores `9325` more
/// where its destination is such a square for the type of piece moved.
pub proof fn law_checks_count(td: ThreadData, other: ThreadData, ply: int, mv: Move)
    requires
        other == (ThreadData {
            board: Board { checking_squares: other.board.checking_squares, ..td.board },
            ..td
        }),
        td.board.mailbox[mv.spec_from().0 as int].piece_type != PieceType::Empty,
    ensures
        ({
            let to = mv.spec_to().0 as int;
            let i = td.board.mailbox[mv.spec_from().0 as int].piece_type.ordinal();
            let checks = td.board.checking_squares[i].has(to);
            let other_checks = other.board.checking_squares[i].has(to);
            let gap = spec_quiet_score(td, ply, mv) - spec_quiet_score(other, ply, mv);
            &&& checks && !other_checks ==> gap == 9325
            &&& checks == other_checks ==> gap == 0
        }),
{
    lemma_same_position(td, other, mv);
}

/// Whether a move attacks something depends on the pieces, the kings and the attacked squares
/// alone.
proof fn lemma_same_position(td: ThreadData, other: ThreadData, mv: Move)
    requires
        td.board.mailbox == other.board.mailbox,
        td.board.side == other.board.side,
        td.board.colors == other.board.colors,
        td.board.pieces == other.board.pieces,
        td.board.kings == other.board.kings,
        td.board.threats == other.board.threats,
    ensures
        is_offensive(td.board, td.board.spec_type_on(mv.spec_from()), mv.spec_to().0 as int)
            == is_offensive(other.board, td.board.spec_type_on(mv.spec_from()), mv.spec_to().0 as int),
        td.params.home_rows == other.params.home_rows ==> is_wall_pawn(td, mv.spec_from().0 as int)
            == is_wall_pawn(other, mv.spec_from().0 as int),
{
    let pt = td.board.spec_type_on(mv.spec_from());
    let to = mv.spec_to().0 as int;
    assert(enemies(td.board, PieceType::Rook) == enemies(other.board, PieceType::Rook));
    assert(enemies(td.board, PieceType::Queen) == enemies(other.board, PieceType::Queen));
    assert(undefended(td.board, PieceType::Bishop) == undefended(other.board, PieceType::Bishop));
    assert(undefended(td.board, PieceType::Rook) == undefended(other.board, PieceType::Rook));
    assert(td.board.spec_occupancies() == other.board.spec_occupancies());
    if pt == PieceType::Knight {
        if attacks_target(td.board, pt, to) {
            let s = choose|s: int| #[trigger]
                crate::attacks::knight_step(s, to) && {
                    ||| undefended(td.board, PieceType::Bishop).has(s)
                    ||| enemies(td.board, PieceType::Rook).has(s)
                    ||| enemies(td.board, PieceType::Queen).has(s)
                };
            assert(crate::attacks::knight_step(s, to));
        }
        if attacks_target(other.board, pt, to) {
            let s = choose|s: int| #[trigger]
                crate::attacks::knight_step(s, to) && {
                    ||| undefended(other.board, PieceType::Bishop).has(s)
                    ||| enemies(other.board, PieceType::Rook).has(s)
                    ||| enemies(other.board, PieceType::Queen).has(s)
                };
            assert(crate::attacks::knight_step(s, to));
        }
    }
    assert(attacks_target(td.board, pt, to) == attacks_target(other.board, pt, to));
}

/// Of two threads that differ only in the squares where a king counts as being at home: where the
/// king of the side to move is at home in one of them alone, a move scores `4000` less there if it
/// begins where a pawn stands next to that king, and the same if not.
pub proof fn law_wall_pawns_stay(td: ThreadData, other: ThreadData, ply: int, mv: Move)
    requires
        other == (ThreadData {
            params: crate::thread::Params { home_rows: other.params.home_rows, ..td.params },
            ..td
        }),
    ensures
        ({
            let from = mv.spec_from().0 as int;
            let side = td.board.side.ordinal();
            let king = td.board.kings[side].0 as int;
            let home = td.params.home_rows[side].has(king);
            let other_home = other.params.home_rows[side].has(king);
            let before_king = td.board.pieces[0].has(from) && crate::attacks::king_step(king, from);
            let gap = spec_quiet_score(td, ply, mv) - spec_quiet_score(other, ply, mv);
            &&& home && !other_home && before_king ==> gap == -4000
            &&& home == other_home || !before_king ==> gap == 0
        }),
{
    lemma_same_position(td, other, mv);
}

/// The score of a quiet move rises by two for each point of its history, and depends on nothing
/// else of the history.
pub proof fn law_quiet_history_counts_twice(td: ThreadData, other: ThreadData, ply: int, mv: Move)
    requires
        other == (ThreadData { quiet_history: other.quiet_history, ..td }),
    ensures
        ({
            let recorded = td.quiet_history.spec_get(td.board.threats, td.board.side, mv);
            let other_recorded = other.quiet_history.spec_get(td.board.threats, td.board.side, mv);
            spec_quiet_score(td, ply, mv) - spec_quiet_score(other, ply, mv) == 2 * (recorded
                - other_recorded)
        }),
{
    lemma_same_position(td, other, mv);
}

/// How a quiet move did as an answer to earlier moves counts one for one where the move lies two,
/// four or six plies back, and one and a half times, rounded towards zero, where it lies one ply
/// back. Other plies do not count.
pub proof fn law_continuations_count(td: ThreadData, other: ThreadData, ply: int, mv: Move)
    requires
        other == (ThreadData { continuations: other.continuations, ..td }),
    ensures
        ({
            let last = td.spec_conthist(ply, 1, mv);
            let other_last = other.spec_conthist(ply, 1, mv);
            let earlier = td.spec_conthist(ply, 2, mv) + td.spec_conthist(ply, 4, mv) + td.spec_conthist(
                ply,
                6,
                mv,
            );
            let other_earlier = other.spec_conthist(ply, 2, mv) + other.spec_conthist(ply, 4, mv)
                + other.spec_conthist(ply, 6, mv);
            let gap = spec_quiet_score(td, ply, mv) - spec_quiet_score(other, ply, mv) - (earlier
                - other_earlier);
            &&& last == other_last ==> gap == 0
            &&& other_last == 0 && last >= 0 ==> 2 * gap <= 3 * last < 2 * gap + 2
            &&& other_last == 0 && last <= 0 ==> 2 * gap - 2 < 3 * last <= 2 * gap
        }),
{
    lemma_same_position(td, other, mv);
}

/// A quiet move without history, that begins and ends where no lesser piece attacks, gives no check
/// and is made while the own king is not at home, scores `5000` where it ends on a square that the
/// opponent does not attack and attacks a target from there, and nothing otherwise. Targets are to
/// a pawn all pieces of the opponent, to a knight rooks, queens and bishops that are not defended,
/// to a bishop rooks, to a queen bishops along its files and ranks and rooks along its diagonals
/// that are not defended. A rook need only come to the file of the king of the opponent.
pub proof fn law_attacking_from_safety(td: ThreadData, ply: int, mv: Move)
    requires
        td.quiet_history.spec_get(td.board.threats, td.board.side, mv) == 0,
        td.spec_conthist(ply, 1, mv) == 0,
        td.spec_conthist(ply, 2, mv) == 0,
        td.spec_conthist(ply, 4, mv) == 0,
        td.spec_conthist(ply, 6, mv) == 0,
        td.board.mailbox[mv.spec_from().0 as int].piece_type != PieceType::Empty,
        !td.board.checking_squares[td.board.mailbox[mv.spec_from().0 as int].piece_type.ordinal()].has(
            mv.spec_to().0 as int,
        ),
        !td.params.home_rows[td.board.side.ordinal()].has(
            td.board.kings[td.board.side.ordinal()].0 as int,
        ),
        forall|i: int|
            0 <= i < 4 ==> !(#[trigger] td.board.piece_threats[i]).has(mv.spec_from().0 as int)
                && !td.board.piece_threats[i].has(mv.spec_to().0 as int),
    ensures
        ({
            let board = td.board;
            let to = mv.spec_to().0 as int;
            let enemy = 1 - board.side.ordinal();
            let theirs = board.colors[enemy];
            let occupied = Bitboard(board.colors[0].0 | board.colors[1].0);
            let rooks = Bitboard(theirs.0 & board.pieces[3].0);
            let loose_rooks = Bitboard(rooks.0 & !board.threats.0);
            let loose_bishops = Bitboard((theirs.0 & board.pieces[2].0) & !board.threats.0);
            let attacks = match board.mailbox[mv.spec_from().0 as int].piece_type {
                PieceType::Pawn => exists|s: int| #[trigger]
                    theirs.has(s) && crate::attacks::pawn_step(board.side, to, s),
                PieceType::Knight => exists|s: int| #[trigger]
                    theirs.has(s) && crate::attacks::knight_step(to, s) && {
                        ||| board.pieces[4].has(s)
                        ||| board.pieces[3].has(s)
                        ||| board.pieces[2].has(s) && !board.threats.has(s)
                    },
                PieceType::Bishop => crate::attacks::bishop_reaches(rooks, occupied, to),
                PieceType::Rook => board.kings[enemy].0 % 8 == to % 8,
                PieceType::Queen => {
                    ||| crate::attacks::rook_reaches(loose_bishops, occupied, to)
                    ||| crate::attacks::bishop_reaches(loose_rooks, occupied, to)
                },
                _ => false,
            };
            spec_quiet_score(td, ply, mv) == if attacks && !board.threats.has(to) {
                5000int
            } else {
                0
            }
        }),
{
    let board = td.board;
    let from = mv.spec_from().0 as int;
    let to = mv.spec_to().0 as int;
    let pt = board.mailbox[from].piece_type;
    let enemy = board.side.opponent();
    let theirs = board.spec_colors(enemy);
    assert(theirs == board.colors[1 - board.side.ordinal()]);
    assert(!board.piece_threats[0].has(from) && !board.piece_threats[1].has(from)
        && !board.piece_threats[2].has(from) && !board.piece_threats[3].has(from));
    assert(!board.piece_threats[0].has(to) && !board.piece_threats[1].has(to)
        && !board.piece_threats[2].has(to) && !board.piece_threats[3].has(to));
    assert(spec_quiet_score(td, ply, mv) == 5000 * flag(is_offensive(board, pt, to))) by {
        assert(escape_bonus(pt) * 0 == 0);
    }
    match pt {
        PieceType::Pawn => {
            assert forall|s: int| #[trigger] theirs.has(s) implies crate::attacks::pawn_step(enemy, s, to)
                == crate::attacks::pawn_step(board.side, to, s) by {
                crate::attacks::law_pawn_step(s, to);
                crate::attacks::law_pawn_step(to, s);
            }
            if attacks_target(board, pt, to) {
                let s = choose|s: int| #[trigger]
                    theirs.has(s) && crate::attacks::pawn_step(enemy, s, to);
                assert(theirs.has(s) && crate::attacks::pawn_step(board.side, to, s));
            }
            if exists|s: int| #[trigger] theirs.has(s) && crate::attacks::pawn_step(board.side, to, s) {
                let s = choose|s: int| #[trigger]
                    theirs.has(s) && crate::attacks::pawn_step(board.side, to, s);
                assert(theirs.has(s) && crate::attacks::pawn_step(enemy, s, to));
            }
        },
        PieceType::Knight => {
            assert forall|s: int| #[trigger] crate::attacks::knight_step(s, to)
                == crate::attacks::knight_step(to, s) by {
                crate::attacks::law_knight_step(s, to);
            }
            assert forall|s: int|
                #![trigger theirs.has(s)]
                #![trigger crate::attacks::knight_step(s, to)]
                {
                    ||| undefended(board, PieceType::Bishop).has(s)
                    ||| enemies(board, PieceType::Rook).has(s)
                    ||| enemies(board, PieceType::Queen).has(s)
                } <==> theirs.has(s) && {
                    ||| board.pieces[4].has(s)
                    ||| board.pieces[3].has(s)
                    ||| board.pieces[2].has(s) && !board.threats.has(s)
                } by {
                crate::board::law_piece_sets(board, enemy, PieceType::Queen, s);
                crate::board::law_piece_sets(board, enemy, PieceType::Rook, s);
                crate::board::law_piece_sets(board, enemy, PieceType::Bishop, s);
                if 0 <= s < 64 {
                    crate::types::bitboard::lemma_bit_ops(
                        enemies(board, PieceType::Bishop).0,
                        board.threats.0,
                        s as u64,
                    );
                }
            }
            if attacks_target(board, pt, to) {
                let s = choose|s: int| #[trigger]
                    crate::attacks::knight_step(s, to) && {
                        ||| undefended(board, PieceType::Bishop).has(s)
                        ||| enemies(board, PieceType::Rook).has(s)
                        ||| enemies(board, PieceType::Queen).has(s)
                    };
                assert(theirs.has(s) && crate::attacks::knight_step(to, s));
            }
            if exists|s: int| #[trigger]
                theirs.has(s) && crate::attacks::knight_step(to, s) && {
                    ||| board.pieces[4].has(s)
                    ||| board.pieces[3].has(s)
                    ||| board.pieces[2].has(s) && !board.threats.has(s)
                } {
                let s = choose|s: int| #[trigger]
                    theirs.has(s) && crate::attacks::knight_step(to, s) && {
                        ||| board.pieces[4].has(s)
                        ||| board.pieces[3].has(s)
                        ||| board.pieces[2].has(s) && !board.threats.has(s)
                    };
                assert(crate::attacks::knight_step(s, to));
            }
        },
        _ => {},
    }
}

} // verus!
