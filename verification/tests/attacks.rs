use move_picker::attacks::{
    bishop_attacks_setwise, king_attacks, knight_attacks_setwise, pawn_attacks_setwise,
    rook_attacks_setwise, shifted, Direction,
};
use move_picker::types::{Bitboard, Color, Square};

fn sq(name: &str) -> Square {
    let bytes = name.as_bytes();
    Square::new((bytes[1] - b'1') * 8 + (bytes[0] - b'a'))
}

fn set(names: &[&str]) -> Bitboard {
    let mut bb = Bitboard::empty();
    for name in names {
        bb = bb.union(Bitboard::of(sq(name)));
    }
    bb
}

#[test]
fn shifts_do_not_wrap_around_the_board() {
    assert_eq!(shifted(set(&["h4"]), Direction::East), Bitboard::empty());
    assert_eq!(shifted(set(&["a4"]), Direction::West), Bitboard::empty());
    assert_eq!(shifted(set(&["h4"]), Direction::NorthEast), Bitboard::empty());
    assert_eq!(shifted(set(&["a4"]), Direction::SouthWest), Bitboard::empty());
    assert_eq!(shifted(set(&["d8"]), Direction::North), Bitboard::empty());
    assert_eq!(shifted(set(&["d1"]), Direction::South), Bitboard::empty());
    assert_eq!(shifted(set(&["d4"]), Direction::NorthWest), set(&["c5"]));
    assert_eq!(shifted(set(&["d4"]), Direction::SouthEast), set(&["e3"]));
}

#[test]
fn knights_in_the_corner_and_the_middle() {
    assert_eq!(knight_attacks_setwise(set(&["a1"])), set(&["b3", "c2"]));
    assert_eq!(knight_attacks_setwise(set(&["h8"])), set(&["g6", "f7"]));
    assert_eq!(
        knight_attacks_setwise(set(&["d4"])),
        set(&["b3", "b5", "c2", "c6", "e2", "e6", "f3", "f5"])
    );
    assert_eq!(
        knight_attacks_setwise(set(&["a1", "h1"])),
        set(&["b3", "c2", "g3", "f2"])
    );
}

#[test]
fn kings_in_the_corner_and_the_middle() {
    assert_eq!(king_attacks(sq("a1")), set(&["a2", "b1", "b2"]));
    assert_eq!(king_attacks(sq("h8")), set(&["h7", "g8", "g7"]));
    assert_eq!(
        king_attacks(sq("e4")),
        set(&["d3", "d4", "d5", "e3", "e5", "f3", "f4", "f5"])
    );
}

#[test]
fn pawns_attack_forwards() {
    assert_eq!(pawn_attacks_setwise(set(&["e4"]), Color::White), set(&["d5", "f5"]));
    assert_eq!(pawn_attacks_setwise(set(&["e4"]), Color::Black), set(&["d3", "f3"]));
    assert_eq!(pawn_attacks_setwise(set(&["a2", "h2"]), Color::White), set(&["b3", "g3"]));
    assert_eq!(pawn_attacks_setwise(set(&["c8"]), Color::White), Bitboard::empty());
}

#[test]
fn rooks_stop_at_the_first_piece() {
    let occupied = set(&["d4", "d6", "f4"]);
    assert_eq!(
        rook_attacks_setwise(set(&["d4"]), occupied),
        set(&["d5", "d6", "d3", "d2", "d1", "e4", "f4", "c4", "b4", "a4"])
    );
    assert_eq!(rook_attacks_setwise(Bitboard::empty(), occupied), Bitboard::empty());
    assert_eq!(
        rook_attacks_setwise(set(&["a1"]), Bitboard::empty()),
        set(&[
            "a2", "a3", "a4", "a5", "a6", "a7", "a8", "b1", "c1", "d1", "e1", "f1", "g1", "h1"
        ])
    );
}

#[test]
fn bishops_stop_at_the_first_piece() {
    let occupied = set(&["c1", "e3", "a3"]);
    assert_eq!(
        bishop_attacks_setwise(set(&["c1"]), occupied),
        set(&["b2", "a3", "d2", "e3"])
    );
    assert_eq!(
        bishop_attacks_setwise(set(&["a1"]), Bitboard::empty()),
        set(&["b2", "c3", "d4", "e5", "f6", "g7", "h8"])
    );
}
