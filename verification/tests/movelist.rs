use move_picker::types::{Bitboard, Move, MoveKind, MoveList, PieceType, Square, MAX_MOVES};

fn sq(name: &str) -> Square {
    let bytes = name.as_bytes();
    Square::new((bytes[1] - b'1') * 8 + (bytes[0] - b'a'))
}

fn set(names: &[&str]) -> Bitboard {
    let mut bb = Bitboard::empty();
    for name in names {
        bb = bb.union(Bitboard::of(sq(name)));
    }
    bb
}

fn mv(from: &str, to: &str, kind: MoveKind) -> Move {
    Move::new(sq(from), sq(to), kind)
}

#[test]
fn a_move_gives_back_what_it_was_made_of() {
    let m = mv("e7", "d8", MoveKind::PromotionCaptureQ);
    assert_eq!(m.from(), sq("e7"));
    assert_eq!(m.to(), sq("d8"));
    assert!(m.is_promotion());
    assert_eq!(m.promo_piece_type(), PieceType::Queen);
    assert_eq!(m.capture_sq(), sq("d8"));
    assert_eq!(m, Move(52 | 59 << 6 | 15 << 12));
    assert_eq!(mv("e7", "e8", MoveKind::PromotionN).promo_piece_type(), PieceType::Knight);
    assert_eq!(mv("e7", "e8", MoveKind::PromotionB).promo_piece_type(), PieceType::Bishop);
    assert_eq!(mv("e7", "e8", MoveKind::PromotionR).promo_piece_type(), PieceType::Rook);
    assert!(!mv("e2", "e4", MoveKind::DoublePush).is_promotion());
}

#[test]
fn en_passant_takes_the_pawn_beside() {
    assert_eq!(mv("e5", "d6", MoveKind::EnPassant).capture_sq(), sq("d5"));
    assert_eq!(mv("e4", "d3", MoveKind::EnPassant).capture_sq(), sq("d4"));
    assert_eq!(mv("e4", "d3", MoveKind::Capture).capture_sq(), sq("d3"));
}

#[test]
fn only_the_null_move_is_absent() {
    assert!(!Move::null().is_present());
    assert!(mv("a1", "a2", MoveKind::Normal).is_present());
    assert_eq!(Move::null(), Move(0));
}

#[test]
fn a_new_list_is_empty() {
    let list = MoveList::new();
    assert!(list.is_empty());
    assert_eq!(list.len(), 0);
    assert_eq!(list.moves(), &[] as &[Move]);
    assert_eq!(list.scores(), &[] as &[i32]);
    let list = MoveList::default();
    assert!(list.is_empty());
}

#[test]
fn push_adds_at_the_end() {
    let mut list = MoveList::new();
    list.push(sq("e2"), sq("e4"), MoveKind::DoublePush);
    list.push(sq("g1"), sq("f3"), MoveKind::Normal);
    assert_eq!(list.len(), 2);
    assert!(!list.is_empty());
    assert_eq!(
        list.moves(),
        &[mv("e2", "e4", MoveKind::DoublePush), mv("g1", "f3", MoveKind::Normal)]
    );
    assert_eq!(list.scores(), &[0, 0]);
}

#[test]
fn a_list_can_be_filled() {
    let mut list = MoveList::new();
    for _ in 0..MAX_MOVES {
        list.push(sq("a1"), sq("a2"), MoveKind::Normal);
    }
    assert_eq!(list.len(), 256);
}

#[test]
fn push_setwise_goes_up_the_board() {
    let mut list = MoveList::new();
    list.push(sq("a2"), sq("a3"), MoveKind::Normal);
    list.push_setwise(sq("d4"), set(&["h8", "a1", "e5", "c3"]), MoveKind::Capture);
    assert_eq!(
        list.moves(),
        &[
            mv("a2", "a3", MoveKind::Normal),
            mv("d4", "a1", MoveKind::Capture),
            mv("d4", "c3", MoveKind::Capture),
            mv("d4", "e5", MoveKind::Capture),
            mv("d4", "h8", MoveKind::Capture),
        ]
    );
    list.push_setwise(sq("d4"), Bitboard::empty(), MoveKind::Capture);
    assert_eq!(list.len(), 5);
}

#[test]
fn push_pawns_setwise_finds_the_origins() {
    let mut list = MoveList::new();
    list.push_pawns_setwise(8, set(&["e3", "a3"]), MoveKind::Normal);
    list.push_pawns_setwise(-16, set(&["d5"]), MoveKind::DoublePush);
    list.push_pawns_setwise(9, set(&["d6"]), MoveKind::EnPassant);
    assert_eq!(
        list.moves(),
        &[
            mv("a2", "a3", MoveKind::Normal),
            mv("e2", "e3", MoveKind::Normal),
            mv("d7", "d5", MoveKind::DoublePush),
            mv("c5", "d6", MoveKind::EnPassant),
        ]
    );
}

#[test]
fn promotions_by_capture_come_queens_first() {
    let mut list = MoveList::new();
    list.push_promotion_capture_setwise(7, set(&["a8", "c8"]));
    assert_eq!(
        list.moves(),
        &[
            mv("b7", "a8", MoveKind::PromotionCaptureQ),
            mv("d7", "c8", MoveKind::PromotionCaptureQ),
            mv("b7", "a8", MoveKind::PromotionCaptureR),
            mv("d7", "c8", MoveKind::PromotionCaptureR),
            mv("b7", "a8", MoveKind::PromotionCaptureB),
            mv("d7", "c8", MoveKind::PromotionCaptureB),
            mv("b7", "a8", MoveKind::PromotionCaptureN),
            mv("d7", "c8", MoveKind::PromotionCaptureN),
        ]
    );
    let mut list = MoveList::new();
    list.push_promotion_capture_setwise(7, Bitboard::empty());
    assert!(list.is_empty());
}

#[test]
fn scores_are_written_in_place() {
    let mut list = MoveList::new();
    list.push_setwise(sq("d4"), set(&["e5", "c3"]), MoveKind::Normal);
    {
        let (moves, scores) = list.moves_and_scores_mut();
        for (m, score) in moves.iter().zip(scores.iter_mut()) {
            *score = m.to().0 as i32 - 20;
        }
    }
    assert_eq!(list.scores(), &[-2, 16]);
}

#[test]
fn the_last_entry_takes_the_place_of_a_removed_one() {
    let mut list = MoveList::new();
    list.push_setwise(sq("a1"), set(&["b1", "c1", "d1", "e1"]), MoveKind::Normal);
    {
        let (_, scores) = list.moves_and_scores_mut();
        for (i, score) in scores.iter_mut().enumerate() {
            *score = 10 * (i as i32 + 1);
        }
    }
    let entry = list.remove(1);
    assert_eq!(entry.mv, mv("a1", "c1", MoveKind::Normal));
    assert_eq!(entry.score, 20);
    assert_eq!(
        list.moves(),
        &[
            mv("a1", "b1", MoveKind::Normal),
            mv("a1", "e1", MoveKind::Normal),
            mv("a1", "d1", MoveKind::Normal),
        ]
    );
    assert_eq!(list.scores(), &[10, 40, 30]);
    let entry = list.remove(2);
    assert_eq!(entry.score, 30);
    assert_eq!(list.scores(), &[10, 40]);
    list.remove(0);
    list.remove(0);
    assert!(list.is_empty());
}

#[test]
fn moves_from_templates() {
    for to in 0..64u16 {
        let target = Square::new(to as u8);
        let whole = Move::new(sq("g1"), target, MoveKind::Capture);
        let template = Move::new(Square::new(0), target, MoveKind::Normal);
        let rest = Move::new(sq("g1"), Square::new(0), MoveKind::Capture);
        assert_eq!(whole.0, template.0 | rest.0);
    }
    let template = Move::new(sq("c8"), sq("c8"), MoveKind::Normal);
    let whole = mv("d7", "c8", MoveKind::PromotionCaptureR);
    assert_eq!(whole.0, template.0.wrapping_add((14u16 << 12).wrapping_sub(7)));
}

#[test]
fn squares_pop_in_ascending_order() {
    let mut bb = set(&["h8", "a1", "e4"]);
    assert_eq!(bb.pop_lsb(), sq("a1"));
    assert_eq!(bb.pop_lsb(), sq("e4"));
    assert_eq!(bb.pop_lsb(), sq("h8"));
    assert!(bb.is_empty());
    assert_eq!(Bitboard::file(3), set(&["d1", "d2", "d3", "d4", "d5", "d6", "d7", "d8"]));
    assert_eq!(set(&["d1", "d2"]).without(set(&["d2"])), set(&["d1"]));
    assert_eq!(set(&["d1", "d2"]).intersect(set(&["d2", "d3"])), set(&["d2"]));
    assert!(set(&["d1"]).contains(sq("d1")));
    assert!(!set(&["d1"]).contains(sq("d2")));
}

#[test]
fn a_set_may_be_pushed_by_halves() {
    let targets = set(&["a1", "h4", "a5", "d4", "e5", "h8"]);
    let mut whole = MoveList::new();
    whole.push_setwise(sq("c3"), targets, MoveKind::Normal);
    let mut halves = MoveList::new();
    halves.push_setwise(sq("c3"), Bitboard(targets.0 & 0xffff_ffff), MoveKind::Normal);
    assert_eq!(halves.len(), 3);
    halves.push_setwise(sq("c3"), Bitboard(targets.0 & !0xffff_ffff), MoveKind::Normal);
    assert_eq!(whole.moves(), halves.moves());
}

#[test]
fn a_pushed_move_takes_over_the_score_of_its_slot() {
    let mut list = MoveList::new();
    list.push_setwise(sq("a1"), set(&["b1", "c1", "d1"]), MoveKind::Normal);
    {
        let (_, scores) = list.moves_and_scores_mut();
        scores.copy_from_slice(&[10, 20, 30]);
    }
    list.remove(0);
    assert_eq!(list.scores(), &[30, 20]);
    list.push(sq("e2"), sq("e4"), MoveKind::DoublePush);
    assert_eq!(list.scores(), &[30, 20, 30]);
    assert_eq!(list.moves()[2], mv("e2", "e4", MoveKind::DoublePush));
    list.remove(2);
    list.remove(1);
    list.push_setwise(sq("a1"), set(&["a2", "a3"]), MoveKind::Normal);
    assert_eq!(list.scores(), &[30, 20, 30]);
    {
        let (_, scores) = list.moves_and_scores_mut();
        scores.copy_from_slice(&[1, 2, 3]);
    }
    list.remove(0);
    list.remove(0);
    list.push_pawns_setwise(8, set(&["h3"]), MoveKind::Normal);
    assert_eq!(list.scores(), &[2, 2]);
}
