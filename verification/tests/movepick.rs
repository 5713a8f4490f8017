use move_picker::history::{ContinuationHistory, NoisyHistory, QuietHistory};
use move_picker::scoring::{noisy_score, QuietContext};
use move_picker::types::{Bitboard, Color, Move, MoveEntry, MoveKind, Piece, PieceType, Square};
use move_picker::{best_index, Board, MovePicker, NonRoot, Params, Root, Stage, ThreadData};

fn sq(name: &str) -> Square {
    let bytes = name.as_bytes();
    Square::new((bytes[1] - b'1') * 8 + (bytes[0] - b'a'))
}

fn capture(to: &str) -> Move {
    Move::new(sq("d4"), sq(to), MoveKind::Capture)
}

fn quiet(to: &str) -> Move {
    Move::new(sq("d4"), sq(to), MoveKind::Normal)
}

fn exchange(mv: Move, score: i32) -> MoveEntry {
    MoveEntry { mv, score }
}

/// A queen on d4 that may take a pawn on d6, a knight on f6, a rook on f4 and a queen on b4, and
/// go to e3, c3 and b2, of which e3 has done best and b2 worst. The rook and the pawn are defended.
fn position() -> ThreadData {
    let none = Bitboard::empty();
    let mut mailbox = [Piece { color: Color::White, piece_type: PieceType::Empty }; 64];
    let mut put = |name: &str, color: Color, piece_type: PieceType| {
        mailbox[sq(name).0 as usize] = Piece { color, piece_type };
    };
    put("d4", Color::White, PieceType::Queen);
    put("d6", Color::Black, PieceType::Pawn);
    put("f6", Color::Black, PieceType::Knight);
    put("f4", Color::Black, PieceType::Rook);
    put("b4", Color::Black, PieceType::Queen);
    let noisy = vec![capture("d6"), capture("f6"), capture("f4"), capture("b4")];
    let quiet_moves = vec![quiet("b2"), quiet("e3"), quiet("c3")];
    let mut td = ThreadData {
        board: Board {
            mailbox,
            side: Color::White,
            colors: [none; 2],
            pieces: [none; 6],
            kings: [sq("h1"), sq("h8")],
            threats: none,
            piece_threats: [none; 6],
            checking_squares: [none; 6],
            in_check: false,
            legal: noisy.iter().chain(quiet_moves.iter()).copied().collect(),
            noisy,
            quiet: quiet_moves,
            exchanges: vec![
                exchange(capture("d6"), -800),
                exchange(capture("f6"), 300),
                exchange(capture("f4"), -400),
                exchange(capture("b4"), 900),
            ],
        },
        noisy_history: NoisyHistory { entries: Vec::new() },
        quiet_history: QuietHistory { entries: Vec::new() },
        continuations: Vec::new(),
        params: Params {
            piece_values: [100, 300, 310, 500, 900, 0, 0],
            home_rows: [none; 2],
        },
    };
    set_quiet_history(&mut td, quiet("e3"), 50);
    set_quiet_history(&mut td, quiet("b2"), -50);
    td
}

fn set_quiet_history(td: &mut ThreadData, mv: Move, value: i16) {
    let index = QuietHistory::index(td.board.threats, td.board.side, mv);
    if td.quiet_history.entries.len() <= index {
        td.quiet_history.entries.resize(index + 1, 0);
    }
    td.quiet_history.entries[index] = value;
}

fn all_moves(picker: &mut MovePicker, td: &ThreadData, skip_quiets: bool) -> Vec<Move> {
    let mut moves = Vec::new();
    while let Some(mv) = picker.next::<NonRoot>(td, skip_quiets, 0) {
        moves.push(mv);
    }
    moves
}

#[test]
fn best_index_takes_the_last_of_equals() {
    assert_eq!(best_index(&[]), 0);
    assert_eq!(best_index(&[7]), 0);
    assert_eq!(best_index(&[1, 5, 3]), 1);
    assert_eq!(best_index(&[5, 1, 5, 3]), 2);
    assert_eq!(best_index(&[-5, -1, -9]), 1);
    assert_eq!(best_index(&[i32::MIN, i32::MIN]), 1);
    assert_eq!(best_index(&[i32::MAX, 0, i32::MAX - 1]), 0);
}

#[test]
fn best_index_is_the_low_byte_of_the_greatest_key() {
    let scores: Vec<i32> = (0..256).map(|i: i32| (i * 37 % 11) * 70001 - 300000).collect();
    let keys = scores.iter().enumerate().map(|(i, s)| (s << 8) | i as i32);
    assert_eq!(best_index(&scores), (keys.max().unwrap() & 0xff) as usize);
}

#[test]
fn the_first_stage_depends_on_the_constructor() {
    assert!(MovePicker::new(capture("d6")).stage() == Stage::HashMove);
    assert!(MovePicker::new(Move::null()).stage() == Stage::GenerateNoisy);
    assert!(MovePicker::new_probcut(10).stage() == Stage::GenerateNoisy);
    assert!(MovePicker::new_qsearch().stage() == Stage::GenerateNoisy);
}

#[test]
fn stages_are_ordered() {
    assert!(Stage::HashMove < Stage::GenerateNoisy);
    assert!(Stage::GenerateNoisy < Stage::GoodNoisy);
    assert!(Stage::GoodNoisy < Stage::Quiet);
    assert!(Stage::Quiet < Stage::BadNoisy);
}

#[test]
fn every_move_comes_once_and_in_order() {
    let td = position();
    let mut picker = MovePicker::new(Move::null());
    assert_eq!(
        all_moves(&mut picker, &td, false),
        vec![
            capture("b4"),
            capture("f6"),
            quiet("e3"),
            quiet("c3"),
            quiet("b2"),
            capture("f4"),
            capture("d6"),
        ]
    );
}

#[test]
fn the_stage_follows_the_moves() {
    let td = position();
    let mut picker = MovePicker::new(quiet("c3"));
    let mut seen = Vec::new();
    while let Some(mv) = picker.next::<NonRoot>(&td, false, 0) {
        seen.push((mv, picker.stage()));
    }
    assert_eq!(
        seen,
        vec![
            (quiet("c3"), Stage::GenerateNoisy),
            (capture("b4"), Stage::GoodNoisy),
            (capture("f6"), Stage::GoodNoisy),
            (quiet("e3"), Stage::Quiet),
            (quiet("b2"), Stage::Quiet),
            (capture("f4"), Stage::BadNoisy),
            (capture("d6"), Stage::BadNoisy),
        ]
    );
}

#[test]
fn the_hash_move_comes_first_and_once() {
    let td = position();
    let mut picker = MovePicker::new(capture("f4"));
    assert_eq!(
        all_moves(&mut picker, &td, false),
        vec![
            capture("f4"),
            capture("b4"),
            capture("f6"),
            quiet("e3"),
            quiet("c3"),
            quiet("b2"),
            capture("d6"),
        ]
    );
}

#[test]
fn an_illegal_hash_move_does_not_come() {
    let mut td = position();
    td.board.legal.clear();
    let mut picker = MovePicker::new(quiet("e3"));
    assert_eq!(
        all_moves(&mut picker, &td, false),
        vec![capture("b4"), capture("f6"), quiet("c3"), quiet("b2"), capture("f4"), capture("d6")]
    );
}

#[test]
fn quiets_can_be_skipped_from_the_start() {
    let td = position();
    let mut picker = MovePicker::new_qsearch();
    assert_eq!(
        all_moves(&mut picker, &td, true),
        vec![capture("b4"), capture("f6"), capture("f4"), capture("d6")]
    );
}

#[test]
fn quiets_can_be_skipped_on_the_way() {
    let td = position();
    let mut picker = MovePicker::new_qsearch();
    assert_eq!(picker.next::<NonRoot>(&td, false, 0), Some(capture("b4")));
    assert_eq!(picker.next::<NonRoot>(&td, false, 0), Some(capture("f6")));
    assert_eq!(picker.next::<NonRoot>(&td, false, 0), Some(quiet("e3")));
    assert_eq!(picker.next::<NonRoot>(&td, true, 0), Some(capture("f4")));
    assert_eq!(picker.next::<NonRoot>(&td, false, 0), Some(capture("d6")));
    assert_eq!(picker.next::<NonRoot>(&td, false, 0), None);
}

#[test]
fn the_end_is_final() {
    let mut td = position();
    let mut picker = MovePicker::new_qsearch();
    assert_eq!(all_moves(&mut picker, &td, false).len(), 7);
    td.board.noisy.push(capture("a7"));
    assert_eq!(picker.next::<NonRoot>(&td, false, 0), None);
    assert_eq!(picker.next::<Root>(&td, true, 5), None);
    assert!(picker.stage() == Stage::BadNoisy);
}

#[test]
fn a_position_without_moves_ends_at_once() {
    let mut td = position();
    td.board.noisy.clear();
    td.board.quiet.clear();
    let mut picker = MovePicker::new(Move::null());
    assert_eq!(picker.next::<NonRoot>(&td, false, 0), None);
}

#[test]
fn a_threshold_parts_the_noisy_moves() {
    let td = position();
    let mut picker = MovePicker::new_probcut(301);
    assert_eq!(picker.next::<NonRoot>(&td, true, 0), Some(capture("b4")));
    assert!(picker.stage() == Stage::GoodNoisy);
    assert_eq!(picker.next::<NonRoot>(&td, true, 0), Some(capture("f4")));
    assert!(picker.stage() == Stage::BadNoisy);
    let mut picker = MovePicker::new_probcut(-400);
    assert_eq!(
        all_moves(&mut picker, &td, true),
        vec![capture("b4"), capture("f4"), capture("f6"), capture("d6")]
    );
}

#[test]
fn without_a_threshold_the_score_sets_it() {
    // The rook scores 8000: 8000 / 45 is 177, so that the exchange may lose 66.
    let mut td = position();
    td.board.exchanges[2].score = -66;
    let mut picker = MovePicker::new_qsearch();
    assert_eq!(picker.next::<NonRoot>(&td, true, 0), Some(capture("b4")));
    assert_eq!(picker.next::<NonRoot>(&td, true, 0), Some(capture("f4")));
    td.board.exchanges[2].score = -67;
    let mut picker = MovePicker::new_qsearch();
    assert_eq!(picker.next::<NonRoot>(&td, true, 0), Some(capture("b4")));
    assert_eq!(picker.next::<NonRoot>(&td, true, 0), Some(capture("f6")));
}

#[test]
fn a_low_score_asks_for_a_gain() {
    // A score of -89 is cut to a gain of 1 more than the base of 111.
    let mut td = position();
    td.board.noisy = vec![capture("a1")];
    let queen = Piece { color: Color::White, piece_type: PieceType::Queen };
    let index = NoisyHistory::index(td.board.threats, queen, sq("a1"), PieceType::Empty);
    td.noisy_history.entries = vec![0; index + 1];
    td.noisy_history.entries[index] = -89;
    td.board.exchanges = vec![exchange(capture("a1"), 111)];
    let mut picker = MovePicker::new_qsearch();
    assert_eq!(picker.next::<NonRoot>(&td, true, 0), Some(capture("a1")));
    assert!(picker.stage() == Stage::BadNoisy);
    td.board.exchanges = vec![exchange(capture("a1"), 112)];
    let mut picker = MovePicker::new_qsearch();
    assert_eq!(picker.next::<NonRoot>(&td, true, 0), Some(capture("a1")));
    assert!(picker.stage() == Stage::GoodNoisy);
}

#[test]
fn below_the_root_scores_stay_as_they_were() {
    let mut td = position();
    td.board.noisy.clear();
    let mut picker = MovePicker::new_qsearch();
    assert_eq!(picker.next::<NonRoot>(&td, false, 0), Some(quiet("e3")));
    set_quiet_history(&mut td, quiet("b2"), 1000);
    assert_eq!(picker.next::<NonRoot>(&td, false, 0), Some(quiet("c3")));
    assert_eq!(picker.next::<NonRoot>(&td, false, 0), Some(quiet("b2")));
}

#[test]
fn at_the_root_quiets_are_scored_anew() {
    let mut td = position();
    td.board.noisy.clear();
    let mut picker = MovePicker::new_qsearch();
    set_quiet_history(&mut td, quiet("e3"), 500);
    assert_eq!(picker.next::<NonRoot>(&td, false, 0), Some(quiet("e3")));
    set_quiet_history(&mut td, quiet("b2"), 1000);
    // The best move was settled by the scores of before; the rest is scored anew.
    assert_eq!(picker.next::<Root>(&td, false, 0), Some(quiet("c3")));
    assert_eq!(picker.next::<Root>(&td, false, 0), Some(quiet("b2")));
    let mut picker = MovePicker::new_qsearch();
    set_quiet_history(&mut td, quiet("b2"), 2000);
    assert_eq!(picker.next::<Root>(&td, false, 0), Some(quiet("b2")));
    set_quiet_history(&mut td, quiet("c3"), 3000);
    assert_eq!(picker.next::<Root>(&td, false, 0), Some(quiet("e3")));
}

#[test]
fn at_the_root_noisy_moves_are_scored_anew() {
    let mut td = position();
    td.board.exchanges[0].score = 1000;
    td.board.exchanges[2].score = 1000;
    let queen = Piece { color: Color::White, piece_type: PieceType::Queen };
    let index = NoisyHistory::index(td.board.threats, queen, sq("d6"), PieceType::Pawn);
    let mut entries: Vec<i16> = vec![0; index + 1];
    entries[index] = 7000;
    let mut picker = MovePicker::new_qsearch();
    assert_eq!(picker.next::<Root>(&td, true, 0), Some(capture("b4")));
    td.noisy_history = NoisyHistory { entries };
    assert_eq!(picker.next::<Root>(&td, true, 0), Some(capture("f4")));
    // The pawn now scores 1600 + 7000, more than the knight with 4800.
    assert_eq!(picker.next::<Root>(&td, true, 0), Some(capture("d6")));
    assert_eq!(picker.next::<Root>(&td, true, 0), Some(capture("f6")));
}

#[test]
fn the_ply_chooses_the_continuations() {
    let mut td = position();
    td.board.noisy.clear();
    let queen = Piece { color: Color::White, piece_type: PieceType::Queen };
    let index = ContinuationHistory::index(queen, sq("b2"));
    for _ in 0..7 {
        td.continuations.push(ContinuationHistory { entries: Vec::new() });
    }
    td.continuations[6].entries = vec![0; index + 1];
    td.continuations[6].entries[index] = 5000;
    let mut picker = MovePicker::new_qsearch();
    assert_eq!(picker.next::<NonRoot>(&td, false, 0), Some(quiet("e3")));
    let mut picker = MovePicker::new_qsearch();
    assert_eq!(picker.next::<NonRoot>(&td, false, 1), Some(quiet("b2")));
}

#[test]
fn the_last_of_equal_scores_comes_first() {
    let mut td = position();
    td.quiet_history.entries.clear();
    td.board.noisy.clear();
    let mut picker = MovePicker::new_qsearch();
    assert_eq!(
        all_moves(&mut picker, &td, false),
        vec![quiet("c3"), quiet("e3"), quiet("b2")]
    );
}

#[test]
fn the_longest_list_is_given_in_full() {
    let mut td = position();
    td.board.noisy.clear();
    td.board.quiet = (0..256u16).map(|i| Move(27 + ((i % 64) << 6) + ((i / 64) << 12))).collect();
    let mut picker = MovePicker::new_qsearch();
    let mut given = all_moves(&mut picker, &td, false);
    given.sort_by_key(|mv| mv.0);
    let mut expected = td.board.quiet.clone();
    expected.sort_by_key(|mv| mv.0);
    assert_eq!(given, expected);
}

#[test]
fn with_the_same_histories_the_root_makes_no_difference() {
    let td = position();
    let mut root = MovePicker::new(quiet("c3"));
    let mut below = MovePicker::new(quiet("c3"));
    for _ in 0..9 {
        let given = root.next::<Root>(&td, false, 0);
        assert_eq!(given, below.next::<NonRoot>(&td, false, 0));
        assert!(root.stage() == below.stage());
    }
    assert_eq!(root.next::<Root>(&td, false, 0), None);
}

#[test]
fn the_last_stage_gives_the_moves_that_fell_short() {
    let td = position();
    let mut picker = MovePicker::new_probcut(500);
    let mut late = Vec::new();
    while let Some(mv) = picker.next::<NonRoot>(&td, false, 0) {
        if picker.stage() == Stage::BadNoisy {
            assert!(!td.board.see(mv, 500));
            late.push(mv);
        }
    }
    assert_eq!(late, vec![capture("f4"), capture("f6"), capture("d6")]);
}

#[test]
fn every_noisy_move_comes_whichever_calls_skip_quiets() {
    let td = position();
    for pattern in 0..256u32 {
        let mut picker = MovePicker::new(capture("f4"));
        let mut moves = Vec::new();
        let mut calls = 0;
        while let Some(mv) = picker.next::<NonRoot>(&td, pattern >> calls & 1 == 1, 0) {
            moves.push(mv);
            calls += 1;
        }
        for mv in &td.board.noisy {
            assert_eq!(moves.iter().filter(|given| *given == mv).count(), 1);
        }
    }
}

#[test]
fn below_the_root_good_noisy_moves_descend_by_the_first_scores() {
    let start = position();
    let mut td = position();
    td.board.exchanges[0].score = 1000;
    td.board.exchanges[2].score = 1000;
    let queen = Piece { color: Color::White, piece_type: PieceType::Queen };
    let index = NoisyHistory::index(td.board.threats, queen, sq("d6"), PieceType::Pawn);
    let mut picker = MovePicker::new_qsearch();
    let mut moves = Vec::new();
    for value in [7000, -7000, 30000, 0] {
        moves.push(picker.next::<NonRoot>(&td, true, 0).unwrap());
        assert!(picker.stage() == Stage::GoodNoisy);
        let mut entries: Vec<i16> = vec![0; index + 1];
        entries[index] = value;
        td.noisy_history = NoisyHistory { entries };
    }
    assert_eq!(moves, vec![capture("b4"), capture("f4"), capture("f6"), capture("d6")]);
    let scores: Vec<i32> = moves.iter().map(|mv| noisy_score(&start, *mv)).collect();
    assert_eq!(scores, vec![14400, 8000, 4800, 1600]);
}

/// The position without captures, with a continuation history of b2 that counts at ply 1 but not
/// at ply 0.
fn position_with_continuations() -> ThreadData {
    let mut td = position();
    td.board.noisy.clear();
    let queen = Piece { color: Color::White, piece_type: PieceType::Queen };
    let index = ContinuationHistory::index(queen, sq("b2"));
    for _ in 0..7 {
        td.continuations.push(ContinuationHistory { entries: Vec::new() });
    }
    td.continuations[6].entries = vec![0; index + 1];
    td.continuations[6].entries[index] = 5000;
    td
}

#[test]
fn below_the_root_quiets_descend_by_the_first_scores_and_ply() {
    let start = position_with_continuations();
    let mut td = position_with_continuations();
    let mut picker = MovePicker::new_qsearch();
    let mut moves = Vec::new();
    for ply in [1, 0, 2] {
        moves.push(picker.next::<NonRoot>(&td, false, ply).unwrap());
        assert!(picker.stage() == Stage::Quiet);
        set_quiet_history(&mut td, quiet("c3"), 9000);
    }
    assert_eq!(moves, vec![quiet("b2"), quiet("e3"), quiet("c3")]);
    let context = QuietContext::new(&start);
    let scores: Vec<i32> = moves.iter().map(|mv| context.score(&start, 1, *mv)).collect();
    assert!(scores[0] > scores[1] && scores[1] > scores[2]);
}
