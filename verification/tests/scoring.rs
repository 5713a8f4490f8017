use move_picker::history::{ContinuationHistory, NoisyHistory, QuietHistory};
use move_picker::scoring::{noisy_score, QuietContext};
use move_picker::types::{Bitboard, Color, Move, MoveKind, Piece, PieceType, Square};
use move_picker::{Board, Params, ThreadData};

fn sq(name: &str) -> Square {
    let bytes = name.as_bytes();
    Square::new((bytes[1] - b'1') * 8 + (bytes[0] - b'a'))
}

fn set(names: &[&str]) -> Bitboard {
    let mut bb = Bitboard::empty();
    for name in names {
        bb = bb.union(Bitboard::of(sq(name)));
    }
    bb
}

fn mv(from: &str, to: &str, kind: MoveKind) -> Move {
    Move::new(sq(from), sq(to), kind)
}

fn piece(color: Color, piece_type: PieceType) -> Piece {
    Piece { color, piece_type }
}

fn place(td: &mut ThreadData, name: &str, color: Color, pt: PieceType) {
    let s = sq(name);
    td.board.mailbox[s.0 as usize] = piece(color, pt);
    td.board.colors[color.index()] = td.board.colors[color.index()].union(Bitboard::of(s));
    td.board.pieces[pt.index()] = td.board.pieces[pt.index()].union(Bitboard::of(s));
    if pt == PieceType::King {
        td.board.kings[color.index()] = s;
    }
}

fn kings_only() -> ThreadData {
    let none = Bitboard::empty();
    let mut td = ThreadData {
        board: Board {
            mailbox: [piece(Color::White, PieceType::Empty); 64],
            side: Color::White,
            colors: [none; 2],
            pieces: [none; 6],
            kings: [sq("e1"); 2],
            threats: none,
            piece_threats: [none; 6],
            checking_squares: [none; 6],
            in_check: false,
            legal: Vec::new(),
            noisy: Vec::new(),
            quiet: Vec::new(),
            exchanges: Vec::new(),
        },
        noisy_history: NoisyHistory { entries: Vec::new() },
        quiet_history: QuietHistory { entries: Vec::new() },
        continuations: Vec::new(),
        params: Params {
            piece_values: [100, 300, 310, 500, 900, 0, 0],
            home_rows: [Bitboard(0xffff), Bitboard(0xffff_0000_0000_0000)],
        },
    };
    place(&mut td, "g1", Color::White, PieceType::King);
    place(&mut td, "a8", Color::Black, PieceType::King);
    td
}

fn quiet_score(td: &ThreadData, ply: isize, m: Move) -> i32 {
    QuietContext::new(td).score(td, ply, m)
}

#[test]
fn a_capture_scores_what_it_takes() {
    let mut td = kings_only();
    place(&mut td, "d4", Color::White, PieceType::Knight);
    place(&mut td, "e6", Color::Black, PieceType::Rook);
    assert_eq!(noisy_score(&td, mv("d4", "e6", MoveKind::Capture)), 16 * 500);
}

#[test]
fn en_passant_scores_the_pawn_it_takes() {
    let mut td = kings_only();
    place(&mut td, "e5", Color::White, PieceType::Pawn);
    place(&mut td, "d5", Color::Black, PieceType::Pawn);
    assert_eq!(noisy_score(&td, mv("e5", "d6", MoveKind::EnPassant)), 1600);
}

#[test]
fn only_a_queen_promotion_scores_extra() {
    let mut td = kings_only();
    place(&mut td, "e7", Color::White, PieceType::Pawn);
    assert_eq!(noisy_score(&td, mv("e7", "e8", MoveKind::PromotionQ)), 4000);
    assert_eq!(noisy_score(&td, mv("e7", "e8", MoveKind::PromotionR)), 0);
    place(&mut td, "d8", Color::Black, PieceType::Queen);
    assert_eq!(noisy_score(&td, mv("e7", "d8", MoveKind::PromotionCaptureQ)), 14400 + 4000);
    assert_eq!(noisy_score(&td, mv("e7", "d8", MoveKind::PromotionCaptureN)), 14400);
}

#[test]
fn out_of_check_the_lighter_piece_goes_first() {
    let mut td = kings_only();
    td.board.in_check = true;
    place(&mut td, "d4", Color::White, PieceType::Knight);
    place(&mut td, "h3", Color::White, PieceType::Queen);
    place(&mut td, "e6", Color::Black, PieceType::Pawn);
    assert_eq!(noisy_score(&td, mv("d4", "e6", MoveKind::Capture)), 1600 + 180000);
    assert_eq!(noisy_score(&td, mv("h3", "e6", MoveKind::Capture)), 1600 + 120000);
    assert_eq!(noisy_score(&td, mv("g1", "f2", MoveKind::Capture)), 100000);
}

#[test]
fn noisy_history_depends_on_every_argument() {
    let mut td = kings_only();
    place(&mut td, "d4", Color::White, PieceType::Knight);
    place(&mut td, "e6", Color::Black, PieceType::Rook);
    let m = mv("d4", "e6", MoveKind::Capture);
    let knight = piece(Color::White, PieceType::Knight);
    let index = NoisyHistory::index(set(&["e6"]), knight, sq("e6"), PieceType::Rook);
    let mut entries: Vec<i16> = vec![0; index + 1];
    entries[index] = -777;
    td.noisy_history = NoisyHistory { entries };
    assert_eq!(noisy_score(&td, m), 8000);
    td.board.threats = set(&["e6"]);
    assert_eq!(noisy_score(&td, m), 8000 - 777);
    td.board.threats = set(&["d4"]);
    assert_eq!(noisy_score(&td, m), 8000);
    assert_eq!(td.noisy_history.get(set(&["e6"]), knight, sq("e6"), PieceType::Queen), 0);
    assert_eq!(td.noisy_history.get(set(&["e6"]), knight, sq("e5"), PieceType::Rook), 0);
    let black = piece(Color::Black, PieceType::Knight);
    assert_eq!(td.noisy_history.get(set(&["e6"]), black, sq("e6"), PieceType::Rook), 0);
}

#[test]
fn a_plain_quiet_move_scores_nothing() {
    let mut td = kings_only();
    place(&mut td, "d2", Color::White, PieceType::Knight);
    assert_eq!(quiet_score(&td, 0, mv("d2", "b3", MoveKind::Normal)), 0);
}

#[test]
fn quiet_history_counts_twice() {
    let mut td = kings_only();
    place(&mut td, "d2", Color::White, PieceType::Knight);
    let m = mv("d2", "b3", MoveKind::Normal);
    let index = QuietHistory::index(set(&["b3"]), Color::White, m);
    let mut entries: Vec<i16> = vec![0; index + 1];
    entries[index] = -555;
    td.quiet_history = QuietHistory { entries };
    assert_eq!(quiet_score(&td, 0, m), 0);
    td.board.threats = set(&["b3"]);
    assert_eq!(quiet_score(&td, 0, m), -1110);
    td.board.side = Color::Black;
    assert_eq!(td.quiet_history.get(td.board.threats, Color::Black, m), 0);
}

#[test]
fn continuations_are_weighed_and_rounded_towards_zero() {
    let mut td = kings_only();
    place(&mut td, "d2", Color::White, PieceType::Knight);
    let m = mv("d2", "b3", MoveKind::Normal);
    let index = ContinuationHistory::index(piece(Color::White, PieceType::Knight), sq("b3"));
    // The table of ply `p` stands at `p + 6`.
    for value in [1i16, 10, 100, 1000, 5, 50, 3, 30, 300] {
        let mut entries: Vec<i16> = vec![0; index + 1];
        entries[index] = value;
        td.continuations.push(ContinuationHistory { entries });
    }
    // Ply 3 reads the plies 2, 1, -1 and -3, at 8, 7, 5 and 3.
    assert_eq!(quiet_score(&td, 3, m), 450 + 30 + 50 + 1000);
    // Ply 0 reads the plies -1, -2, -4 and -6: 1.5 times 50 is 75.
    assert_eq!(quiet_score(&td, 0, m), 75 + 5 + 100 + 1);
    // Ply 1 reads the plies 0, -1, -3 and -5: 1.5 times 3 is cut to 4.
    assert_eq!(quiet_score(&td, 1, m), 4 + 50 + 1000 + 10);
    td.continuations[6].entries[index] = -3;
    assert_eq!(quiet_score(&td, 1, m), -4 + 50 + 1000 + 10);
    // Beyond the recorded plies there is nothing.
    assert_eq!(quiet_score(&td, 100, m), 0);
    assert_eq!(quiet_score(&td, -100, m), 0);
}

#[test]
fn a_threatened_piece_escapes() {
    let mut td = kings_only();
    place(&mut td, "d4", Color::White, PieceType::Knight);
    place(&mut td, "e4", Color::White, PieceType::Bishop);
    place(&mut td, "f4", Color::White, PieceType::Rook);
    place(&mut td, "g4", Color::White, PieceType::Queen);
    place(&mut td, "h4", Color::White, PieceType::Pawn);
    td.board.piece_threats[PieceType::Pawn.index()] = set(&["d4", "e4", "f4", "g4", "h4", "g1"]);
    assert_eq!(quiet_score(&td, 0, mv("d4", "b3", MoveKind::Normal)), 7768);
    assert_eq!(quiet_score(&td, 0, mv("e4", "b1", MoveKind::Normal)), 8218);
    assert_eq!(quiet_score(&td, 0, mv("f4", "f1", MoveKind::Normal)), 13424);
    assert_eq!(quiet_score(&td, 0, mv("g4", "g7", MoveKind::Normal)), 20208);
    assert_eq!(quiet_score(&td, 0, mv("h4", "h5", MoveKind::Normal)), 0);
    assert_eq!(quiet_score(&td, 0, mv("g1", "h1", MoveKind::Normal)), 0);
}

#[test]
fn only_lesser_pieces_threaten() {
    let mut td = kings_only();
    place(&mut td, "d4", Color::White, PieceType::Knight);
    place(&mut td, "f4", Color::White, PieceType::Rook);
    place(&mut td, "g4", Color::White, PieceType::Queen);
    td.board.piece_threats[PieceType::Knight.index()] = set(&["d4", "f4", "g4"]);
    assert_eq!(quiet_score(&td, 0, mv("d4", "b3", MoveKind::Normal)), 0);
    assert_eq!(quiet_score(&td, 0, mv("f4", "f1", MoveKind::Normal)), 13424);
    assert_eq!(quiet_score(&td, 0, mv("g4", "g7", MoveKind::Normal)), 20208);
    td.board.piece_threats[PieceType::Knight.index()] = Bitboard::empty();
    td.board.piece_threats[PieceType::Bishop.index()] = set(&["f4"]);
    assert_eq!(quiet_score(&td, 0, mv("f4", "f1", MoveKind::Normal)), 13424);
    td.board.piece_threats[PieceType::Bishop.index()] = Bitboard::empty();
    td.board.piece_threats[PieceType::Rook.index()] = set(&["f4", "g4"]);
    assert_eq!(quiet_score(&td, 0, mv("f4", "f1", MoveKind::Normal)), 0);
    assert_eq!(quiet_score(&td, 0, mv("g4", "g7", MoveKind::Normal)), 20208);
}

#[test]
fn a_move_into_a_threat_is_punished() {
    let mut td = kings_only();
    place(&mut td, "d4", Color::White, PieceType::Knight);
    td.board.piece_threats[PieceType::Pawn.index()] = set(&["b3", "b5"]);
    assert_eq!(quiet_score(&td, 0, mv("d4", "b3", MoveKind::Normal)), -7584);
    td.board.piece_threats[PieceType::Pawn.index()] = set(&["b3", "d4"]);
    assert_eq!(quiet_score(&td, 0, mv("d4", "b3", MoveKind::Normal)), 7768 - 7584);
}

#[test]
fn a_check_is_rewarded() {
    let mut td = kings_only();
    place(&mut td, "d4", Color::White, PieceType::Knight);
    td.board.checking_squares[PieceType::Knight.index()] = set(&["b3"]);
    td.board.checking_squares[PieceType::Bishop.index()] = set(&["b5"]);
    assert_eq!(quiet_score(&td, 0, mv("d4", "b3", MoveKind::Normal)), 9325);
    assert_eq!(quiet_score(&td, 0, mv("d4", "b5", MoveKind::Normal)), 0);
}

#[test]
fn pawns_attack_any_piece_from_a_safe_square() {
    let mut td = kings_only();
    place(&mut td, "d3", Color::White, PieceType::Pawn);
    place(&mut td, "e5", Color::Black, PieceType::Knight);
    assert_eq!(quiet_score(&td, 0, mv("d3", "d4", MoveKind::Normal)), 5000);
    td.board.threats = set(&["d4"]);
    assert_eq!(quiet_score(&td, 0, mv("d3", "d4", MoveKind::Normal)), 0);
}

#[test]
fn knights_attack_rooks_queens_and_loose_bishops() {
    let mut td = kings_only();
    place(&mut td, "b1", Color::White, PieceType::Knight);
    place(&mut td, "e4", Color::Black, PieceType::Bishop);
    assert_eq!(quiet_score(&td, 0, mv("b1", "c3", MoveKind::Normal)), 5000);
    td.board.threats = set(&["e4"]);
    assert_eq!(quiet_score(&td, 0, mv("b1", "c3", MoveKind::Normal)), 0);
    place(&mut td, "d5", Color::Black, PieceType::Rook);
    assert_eq!(quiet_score(&td, 0, mv("b1", "c3", MoveKind::Normal)), 5000);
    td.board.threats = set(&["e4", "d5"]);
    assert_eq!(quiet_score(&td, 0, mv("b1", "c3", MoveKind::Normal)), 5000);
}

#[test]
fn bishops_attack_rooks_in_sight() {
    let mut td = kings_only();
    place(&mut td, "c1", Color::White, PieceType::Bishop);
    place(&mut td, "h7", Color::Black, PieceType::Rook);
    assert_eq!(quiet_score(&td, 0, mv("c1", "e4", MoveKind::Normal)), 5000);
    place(&mut td, "f5", Color::Black, PieceType::Pawn);
    assert_eq!(quiet_score(&td, 0, mv("c1", "e4", MoveKind::Normal)), 0);
}

#[test]
fn rooks_go_to_the_file_of_the_king() {
    let mut td = kings_only();
    place(&mut td, "d1", Color::White, PieceType::Rook);
    assert_eq!(quiet_score(&td, 0, mv("d1", "a1", MoveKind::Normal)), 5000);
    assert_eq!(quiet_score(&td, 0, mv("d1", "b1", MoveKind::Normal)), 0);
}

#[test]
fn queens_attack_loose_bishops_and_rooks_across() {
    let mut td = kings_only();
    place(&mut td, "h1", Color::White, PieceType::Queen);
    place(&mut td, "h5", Color::Black, PieceType::Rook);
    // Along the diagonal, but not along the file.
    assert_eq!(quiet_score(&td, 0, mv("h1", "e2", MoveKind::Normal)), 5000);
    assert_eq!(quiet_score(&td, 0, mv("h1", "h2", MoveKind::Normal)), 0);
    td.board.threats = set(&["h5"]);
    assert_eq!(quiet_score(&td, 0, mv("h1", "e2", MoveKind::Normal)), 0);
    place(&mut td, "b7", Color::Black, PieceType::Bishop);
    assert_eq!(quiet_score(&td, 0, mv("h1", "b1", MoveKind::Normal)), 5000);
    // Not along the diagonal.
    assert_eq!(quiet_score(&td, 0, mv("h1", "g2", MoveKind::Normal)), 0);
}

#[test]
fn the_pawns_before_a_king_at_home_stay() {
    let mut td = kings_only();
    place(&mut td, "g2", Color::White, PieceType::Pawn);
    place(&mut td, "d2", Color::White, PieceType::Pawn);
    assert_eq!(quiet_score(&td, 0, mv("g2", "g3", MoveKind::Normal)), -4000);
    assert_eq!(quiet_score(&td, 0, mv("d2", "d3", MoveKind::Normal)), 0);
    td.params.home_rows[0] = Bitboard::empty();
    assert_eq!(quiet_score(&td, 0, mv("g2", "g3", MoveKind::Normal)), 0);
}

#[test]
fn the_tables_of_black_are_its_own() {
    let mut td = kings_only();
    td.board.side = Color::Black;
    place(&mut td, "b7", Color::Black, PieceType::Pawn);
    place(&mut td, "e6", Color::Black, PieceType::Pawn);
    place(&mut td, "d4", Color::White, PieceType::Knight);
    assert_eq!(quiet_score(&td, 0, mv("b7", "b6", MoveKind::Normal)), -4000);
    assert_eq!(quiet_score(&td, 0, mv("e6", "e5", MoveKind::Normal)), 5000);
}

#[test]
fn the_greatest_and_least_scores_fit_in_twenty_four_bits() {
    let mut td = kings_only();
    place(&mut td, "e7", Color::White, PieceType::Pawn);
    place(&mut td, "d8", Color::Black, PieceType::Queen);
    let m = mv("e7", "d8", MoveKind::PromotionCaptureQ);
    td.board.in_check = true;
    td.params.piece_values = [i16::MAX; 7];
    td.noisy_history.entries = vec![i16::MAX; 20000];
    assert_eq!(noisy_score(&td, m), 17 * 32767 + 4000 + 200000);
    td.params.piece_values = [i16::MIN; 7];
    td.noisy_history.entries = vec![i16::MIN; 20000];
    td.board.in_check = false;
    let m = mv("e7", "d8", MoveKind::PromotionCaptureN);
    assert_eq!(noisy_score(&td, m), -17 * 32768);

    place(&mut td, "d2", Color::White, PieceType::Knight);
    let m = mv("d2", "b3", MoveKind::Normal);
    td.quiet_history.entries = vec![i16::MIN; 40000];
    for _ in 0..7 {
        td.continuations.push(ContinuationHistory { entries: vec![i16::MIN; 1000] });
    }
    // Ply 0 reads four of the tables; 1.5 times the least value is exact.
    assert_eq!(quiet_score(&td, 0, m), -65536 - 49152 - 3 * 32768);
}
