use vstd::prelude::*;

use crate::types::{Bitboard, Color, Square};

verus! {

/// The eight directions in which pieces move along a line.
#[derive(Copy, Clone, Debug, PartialEq, Eq, Structural)]
pub enum Direction {
    North,
    South,
    East,
    West,
    NorthEast,
    NorthWest,
    SouthEast,
    SouthWest,
}

impl Direction {
    /// How many files a step in this direction goes towards the h-file.
    pub open spec fn files(self) -> int {
        match self {
            Direction::North | Direction::South => 0,
            Direction::East | Direction::NorthEast | Direction::SouthEast => 1,
            Direction::West | Direction::NorthWest | Direction::SouthWest => -1,
        }
    }

    /// How many ranks a step in this direction goes towards the eighth rank.
    pub open spec fn ranks(self) -> int {
        match self {
            Direction::East | Direction::West => 0,
            Direction::North | Direction::NorthEast | Direction::NorthWest => 1,
            Direction::South | Direction::SouthEast | Direction::SouthWest => -1,
        }
    }
}

/// Whether the square that lies `files` files and `ranks` ranks before `sq` is in the set.
pub open spec fn comes_from(bb: Bitboard, sq: int, files: int, ranks: int) -> bool {
    let file = Square::file_of(sq) - files;
    let rank = Square::rank_of(sq) - ranks;
    &&& 0 <= sq < 64
    &&& Square::on_board(file, rank)
    &&& bb.has(Square::at(file, rank))
}

/// The squares one step in a direction from a square of the set.
pub fn shifted(bb: Bitboard, d: Direction) -> (out: Bitboard)
    ensures
        forall|t: int| #[trigger] out.has(t) <==> comes_from(bb, t, d.files(), d.ranks()),
{
    let x: u64 = bb.0;
    let out = Bitboard(
        match d {
            Direction::North => x << 8,
            Direction::South => x >> 8,
            Direction::East => (x & 0x7f7f_7f7f_7f7f_7f7f) << 1,
            Direction::West => (x & 0xfefe_fefe_fefe_fefe) >> 1,
            Direction::NorthEast => (x & 0x7f7f_7f7f_7f7f_7f7f) << 9,
            Direction::NorthWest => (x & 0xfefe_fefe_fefe_fefe) << 7,
            Direction::SouthEast => (x & 0x7f7f_7f7f_7f7f_7f7f) >> 7,
            Direction::SouthWest => (x & 0xfefe_fefe_fefe_fefe) >> 9,
        },
    );
    assert forall|t: int| #[trigger] out.has(t) <==> comes_from(bb, t, d.files(), d.ranks()) by {
        if 0 <= t < 64 {
            lemma_shifted_bit(x, d, t as u64);
            let file = t % 8 - d.files();
            let rank = t / 8 - d.ranks();
            assert(Square::at(file, rank) == t - 8 * d.ranks() - d.files());
        }
    }
    out
}

/// What a shift of the bits moves to bit `t`.
proof fn lemma_shifted_bit(x: u64, d: Direction, t: u64)
    requires
        t < 64,
    ensures
        ({
            let s = t - 8 * d.ranks() - d.files();
            let inside = 0 <= t % 8 - d.files() < 8 && 0 <= t / 8 - d.ranks() < 8;
            let out = match d {
                Direction::North => x << 8,
                Direction::South => x >> 8,
                Direction::East => (x & 0x7f7f_7f7f_7f7f_7f7f) << 1,
                Direction::West => (x & 0xfefe_fefe_fefe_fefe) >> 1,
                Direction::NorthEast => (x & 0x7f7f_7f7f_7f7f_7f7f) << 9,
                Direction::NorthWest => (x & 0xfefe_fefe_fefe_fefe) << 7,
                Direction::SouthEast => (x & 0x7f7f_7f7f_7f7f_7f7f) >> 7,
                Direction::SouthWest => (x & 0xfefe_fefe_fefe_fefe) >> 9,
            };
            (out >> t) & 1 == 1 <==> inside && (x >> (s as u64)) & 1 == 1
        }),
{
    let s = (t - 8 * d.ranks() - d.files()) as u64;
    match d {
        Direction::North => {
            assert(((x << 8) >> t) & 1 == 1 <==> t >= 8 && (x >> s) & 1 == 1) by (bit_vector)
                requires
                    t < 64,
                    t >= 8 ==> s + 8 == t,
            ;
        },
        Direction::South => {
            assert(((x >> 8) >> t) & 1 == 1 <==> t < 56 && (x >> s) & 1 == 1) by (bit_vector)
                requires
                    t < 64,
                    t < 56 ==> s == t + 8,
            ;
        },
        Direction::East => {
            assert((((x & 0x7f7f_7f7f_7f7f_7f7f) << 1) >> t) & 1 == 1 <==> t % 8 != 0 && (x >> s) & 1
                == 1) by (bit_vector)
                requires
                    t < 64,
                    t % 8 != 0 ==> s + 1 == t,
            ;
        },
        Direction::West => {
            assert((((x & 0xfefe_fefe_fefe_fefe) >> 1) >> t) & 1 == 1 <==> t % 8 != 7 && (x >> s) & 1
                == 1) by (bit_vector)
                requires
                    t < 64,
                    t % 8 != 7 ==> s == t + 1,
            ;
        },
        Direction::NorthEast => {
            assert((((x & 0x7f7f_7f7f_7f7f_7f7f) << 9) >> t) & 1 == 1 <==> t % 8 != 0 && t >= 8 && (x
                >> s) & 1 == 1) by (bit_vector)
                requires
                    t < 64,
                    t % 8 != 0 && t >= 8 ==> s + 9 == t,
            ;
        },
        Direction::NorthWest => {
            assert((((x & 0xfefe_fefe_fefe_fefe) << 7) >> t) & 1 == 1 <==> t % 8 != 7 && t >= 8 && (x
                >> s) & 1 == 1) by (bit_vector)
                requires
                    t < 64,
                    t % 8 != 7 && t >= 8 ==> s + 7 == t,
            ;
        },
        Direction::SouthEast => {
            assert((((x & 0x7f7f_7f7f_7f7f_7f7f) >> 7) >> t) & 1 == 1 <==> t % 8 != 0 && t < 56 && (x
                >> s) & 1 == 1) by (bit_vector)
                requires
                    t < 64,
                    t % 8 != 0 && t < 56 ==> s == t + 7,
            ;
        },
        Direction::SouthWest => {
            assert((((x & 0xfefe_fefe_fefe_fefe) >> 9) >> t) & 1 == 1 <==> t % 8 != 7 && t < 56 && (x
                >> s) & 1 == 1) by (bit_vector)
                requires
                    t < 64,
                    t % 8 != 7 && t < 56 ==> s == t + 9,
            ;
        },
    }
}

/// Whether a knight goes from one square to the other.
pub open spec fn knight_step(from: int, to: int) -> bool {
    let files = Square::file_of(to) - Square::file_of(from);
    let ranks = Square::rank_of(to) - Square::rank_of(from);
    ||| (files == 1 || files == -1) && (ranks == 2 || ranks == -2)
    ||| (files == 2 || files == -2) && (ranks == 1 || ranks == -1)
}

/// Whether a king goes from one square to the other.
pub open spec fn king_step(from: int, to: int) -> bool {
    let files = Square::file_of(to) - Square::file_of(from);
    let ranks = Square::rank_of(to) - Square::rank_of(from);
    from != to && -1 <= files <= 1 && -1 <= ranks <= 1
}

/// Whether a pawn of the given side captures from one square to the other.
pub open spec fn pawn_step(color: Color, from: int, to: int) -> bool {
    let files = Square::file_of(to) - Square::file_of(from);
    let ranks = Square::rank_of(to) - Square::rank_of(from);
    (files == 1 || files == -1) && ranks == (match color {
        Color::White => 1int,
        Color::Black => -1int,
    })
}

/// The square that lies `k` steps before `sq` on a line in the given direction.
pub open spec fn back(sq: int, d: Direction, k: int) -> int {
    Square::at(
        Square::file_of(sq) - k * d.files(),
        Square::rank_of(sq) - k * d.ranks(),
    )
}

/// Whether a piece on a square of the set reaches `sq` in exactly `k` steps in the given
/// direction, with no occupied square in between.
pub open spec fn ray_hit(bb: Bitboard, occupied: Bitboard, d: Direction, sq: int, k: int) -> bool {
    &&& comes_from(bb, sq, k * d.files(), k * d.ranks())
    &&& forall|j: int| 0 < j < k ==> !occupied.has(#[trigger] back(sq, d, j))
}

/// Whether a piece on a square of the set, moving in the given direction, reaches `sq`.
pub open spec fn slides_to(bb: Bitboard, occupied: Bitboard, d: Direction, sq: int) -> bool {
    exists|k: int| 1 <= k <= 7 && #[trigger] ray_hit(bb, occupied, d, sq, k)
}

/// Whether a rook on a square of the set reaches `sq`.
pub open spec fn rook_reaches(bb: Bitboard, occupied: Bitboard, sq: int) -> bool {
    ||| slides_to(bb, occupied, Direction::North, sq)
    ||| slides_to(bb, occupied, Direction::South, sq)
    ||| slides_to(bb, occupied, Direction::East, sq)
    ||| slides_to(bb, occupied, Direction::West, sq)
}

/// Whether a bishop on a square of the set reaches `sq`.
pub open spec fn bishop_reaches(bb: Bitboard, occupied: Bitboard, sq: int) -> bool {
    ||| slides_to(bb, occupied, Direction::NorthEast, sq)
    ||| slides_to(bb, occupied, Direction::NorthWest, sq)
    ||| slides_to(bb, occupied, Direction::SouthEast, sq)
    ||| slides_to(bb, occupied, Direction::SouthWest, sq)
}

proof fn lemma_scaled(k: int, unit: int)
    requires
        -1 <= unit <= 1,
    ensures
        k * unit == (if unit == 1 {
            k
        } else if unit == -1 {
            -k
        } else {
            0
        }),
{
    assert(k * 1 == k && k * -1 == -k && k * 0 == 0) by (nonlinear_arith);
}

/// One step more: a piece reaches `sq` in `k + 1` steps where it reaches the square before in
/// `k` and that square is free.
proof fn lemma_ray_step(bb: Bitboard, occupied: Bitboard, d: Direction, sq: int, k: int)
    requires
        0 <= sq < 64,
        1 <= k,
    ensures
        ray_hit(bb, occupied, d, sq, k + 1) <==> {
            &&& Square::on_board(
                Square::file_of(sq) - d.files(),
                Square::rank_of(sq) - d.ranks(),
            )
            &&& ray_hit(bb, occupied, d, back(sq, d, 1), k)
            &&& !occupied.has(back(sq, d, 1))
        },
{
    let prev = back(sq, d, 1);
    let inside = Square::on_board(
        Square::file_of(sq) - d.files(),
        Square::rank_of(sq) - d.ranks(),
    );
    if comes_from(bb, sq, (k + 1) * d.files(), (k + 1) * d.ranks()) {
        lemma_scaled(k + 1, d.files());
        lemma_scaled(k + 1, d.ranks());
        assert(inside);
    }
    if inside {
        assert(Square::file_of(prev) == Square::file_of(sq) - d.files());
        assert(Square::rank_of(prev) == Square::rank_of(sq) - d.ranks());
        assert forall|j: int| back(prev, d, j) == #[trigger] back(sq, d, j + 1) by {
            assert((j + 1) * d.files() == j * d.files() + d.files()) by (nonlinear_arith);
            assert((j + 1) * d.ranks() == j * d.ranks() + d.ranks()) by (nonlinear_arith);
        }
        assert((k + 1) * d.files() == k * d.files() + d.files()) by (nonlinear_arith);
        assert((k + 1) * d.ranks() == k * d.ranks() + d.ranks()) by (nonlinear_arith);
        if ray_hit(bb, occupied, d, sq, k + 1) {
            assert forall|j: int| 0 < j < k implies !occupied.has(#[trigger] back(prev, d, j)) by {
                assert(back(prev, d, j) == back(sq, d, j + 1));
            }
        }
        if ray_hit(bb, occupied, d, prev, k) && !occupied.has(prev) {
            assert forall|j: int| 0 < j < k + 1 implies !occupied.has(#[trigger] back(sq, d, j)) by {
                if j > 1 {
                    assert(back(prev, d, j - 1) == back(sq, d, (j - 1) + 1));
                }
            }
        }
    }
}

/// The squares that pieces on the set reach in one direction, up to and with the first occupied
/// square.
pub fn slide(bb: Bitboard, occupied: Bitboard, d: Direction) -> (out: Bitboard)
    ensures
        forall|t: int| #[trigger] out.has(t) <==> slides_to(bb, occupied, d, t),
{
    let mut front: Bitboard = shifted(bb, d);
    let mut out: Bitboard = front;
    let mut k: u8 = 1;
    assert forall|t: int| #[trigger] front.has(t) <==> ray_hit(bb, occupied, d, t, 1) by {
        assert(1 * d.files() == d.files() && 1 * d.ranks() == d.ranks());
    }
    while k < 7
        invariant
            1 <= k <= 7,
            forall|t: int| #[trigger] front.has(t) <==> ray_hit(bb, occupied, d, t, k as int),
            forall|t: int|
                #[trigger] out.has(t) <==> exists|i: int|
                    1 <= i <= k && #[trigger] ray_hit(bb, occupied, d, t, i),
        decreases 7 - k,
    {
        let ghost last = front;
        let free = front.without(occupied);
        front = shifted(free, d);
        proof {
            assert forall|t: int| #[trigger] front.has(t) <==> ray_hit(bb, occupied, d, t, k + 1) by {
                if 0 <= t < 64 {
                    lemma_ray_step(bb, occupied, d, t, k as int);
                    assert(1 * d.files() == d.files() && 1 * d.ranks() == d.ranks());
                    assert(free.has(back(t, d, 1)) <==> last.has(back(t, d, 1)) && !occupied.has(
                        back(t, d, 1),
                    ));
                }
            }
        }
        let ghost before = out;
        out = out.union(front);
        proof {
            assert forall|t: int|
                #[trigger] out.has(t) <==> exists|i: int|
                    1 <= i <= k + 1 && #[trigger] ray_hit(bb, occupied, d, t, i) by {
                assert(front.has(t) <==> ray_hit(bb, occupied, d, t, k + 1));
                assert(before.has(t) <==> exists|i: int|
                    1 <= i <= k && #[trigger] ray_hit(bb, occupied, d, t, i));
                if exists|i: int| 1 <= i <= k + 1 && #[trigger] ray_hit(bb, occupied, d, t, i) {
                    let i = choose|i: int| 1 <= i <= k + 1 && #[trigger] ray_hit(bb, occupied, d, t, i);
                    assert(i <= k || i == k + 1);
                }
            }
        }
        k = k + 1;
    }
    out
}

/// The squares that rooks on the set attack.
pub fn rook_attacks_setwise(bb: Bitboard, occupied: Bitboard) -> (out: Bitboard)
    ensures
        forall|t: int| #[trigger] out.has(t) <==> rook_reaches(bb, occupied, t),
{
    let north = slide(bb, occupied, Direction::North);
    let south = slide(bb, occupied, Direction::South);
    let east = slide(bb, occupied, Direction::East);
    let west = slide(bb, occupied, Direction::West);
    north.union(south).union(east).union(west)
}

/// The squares that bishops on the set attack.
pub fn bishop_attacks_setwise(bb: Bitboard, occupied: Bitboard) -> (out: Bitboard)
    ensures
        forall|t: int| #[trigger] out.has(t) <==> bishop_reaches(bb, occupied, t),
{
    let north_east = slide(bb, occupied, Direction::NorthEast);
    let north_west = slide(bb, occupied, Direction::NorthWest);
    let south_east = slide(bb, occupied, Direction::SouthEast);
    let south_west = slide(bb, occupied, Direction::SouthWest);
    north_east.union(north_west).union(south_east).union(south_west)
}

/// The squares that pawns of the given side on the set attack.
pub fn pawn_attacks_setwise(bb: Bitboard, color: Color) -> (out: Bitboard)
    ensures
        forall|t: int| #[trigger]
            out.has(t) <==> 0 <= t < 64 && exists|s: int| #[trigger] bb.has(s) && pawn_step(color, s, t),
{
    let (east, west) = match color {
        Color::White => (shifted(bb, Direction::NorthEast), shifted(bb, Direction::NorthWest)),
        Color::Black => (shifted(bb, Direction::SouthEast), shifted(bb, Direction::SouthWest)),
    };
    let out = east.union(west);
    assert forall|t: int| #[trigger]
        out.has(t) <==> 0 <= t < 64 && exists|s: int| #[trigger] bb.has(s) && pawn_step(color, s, t) by {
        let up: int = if color == Color::White {
            1
        } else {
            -1
        };
        lemma_comes_from(bb, t, 1, up);
        lemma_comes_from(bb, t, -1, up);
    }
    out
}

/// A set holds the square before `t` exactly when it holds a square that lies so from `t`.
proof fn lemma_comes_from(bb: Bitboard, t: int, files: int, ranks: int)
    ensures
        comes_from(bb, t, files, ranks) <==> 0 <= t < 64 && exists|s: int| #[trigger]
            bb.has(s) && Square::file_of(t) - Square::file_of(s) == files && Square::rank_of(t)
                - Square::rank_of(s) == ranks,
{
    if comes_from(bb, t, files, ranks) {
        let s = Square::at(Square::file_of(t) - files, Square::rank_of(t) - ranks);
        assert(bb.has(s));
    }
}

/// The squares two steps up or down and one to the side, or one up or down and two to the side.
fn hops(bb: Bitboard, along: Direction, across: Direction) -> (out: Bitboard)
    requires
        along == Direction::North || along == Direction::South,
        across == Direction::East || across == Direction::West,
    ensures
        forall|t: int| #[trigger]
            out.has(t) <==> comes_from(bb, t, across.files(), 2 * along.ranks()) || comes_from(
                bb,
                t,
                2 * across.files(),
                along.ranks(),
            ),
{
    let one = shifted(bb, across);
    let two = shifted(one, across);
    let up = shifted(one, along);
    let both = up.union(two);
    let out = shifted(both, along);
    assert forall|t: int| #[trigger]
        out.has(t) <==> comes_from(bb, t, across.files(), 2 * along.ranks()) || comes_from(
            bb,
            t,
            2 * across.files(),
            along.ranks(),
        ) by {
        let below = Square::at(Square::file_of(t), Square::rank_of(t) - along.ranks());
        assert(both.has(below) <==> up.has(below) || two.has(below));
        let lower = Square::at(Square::file_of(t), Square::rank_of(t) - 2 * along.ranks());
        let side = Square::at(
            Square::file_of(t) - across.files(),
            Square::rank_of(t) - along.ranks(),
        );
        assert(one.has(lower) <==> comes_from(bb, lower, across.files(), 0));
        assert(one.has(side) <==> comes_from(bb, side, across.files(), 0));
    }
    out
}

/// The squares that knights on the set attack.
pub fn knight_attacks_setwise(bb: Bitboard) -> (out: Bitboard)
    ensures
        forall|t: int| #[trigger]
            out.has(t) <==> 0 <= t < 64 && exists|s: int| #[trigger] bb.has(s) && knight_step(s, t),
{
    let north = hops(bb, Direction::North, Direction::East).union(
        hops(bb, Direction::North, Direction::West),
    );
    let south = hops(bb, Direction::South, Direction::East).union(
        hops(bb, Direction::South, Direction::West),
    );
    let out = north.union(south);
    assert forall|t: int| #[trigger]
        out.has(t) <==> 0 <= t < 64 && exists|s: int| #[trigger] bb.has(s) && knight_step(s, t) by {
        lemma_comes_from(bb, t, 1, 2);
        lemma_comes_from(bb, t, -1, 2);
        lemma_comes_from(bb, t, 2, 1);
        lemma_comes_from(bb, t, -2, 1);
        lemma_comes_from(bb, t, 1, -2);
        lemma_comes_from(bb, t, -1, -2);
        lemma_comes_from(bb, t, 2, -1);
        lemma_comes_from(bb, t, -2, -1);
    }
    out
}

/// The set of one square holds the square before `t` exactly when that square lies so from `t`.
proof fn lemma_comes_from_one(bb: Bitboard, sq: int, t: int, files: int, ranks: int)
    requires
        0 <= sq < 64,
        forall|s: int| #[trigger] bb.has(s) <==> s == sq,
    ensures
        comes_from(bb, t, files, ranks) <==> 0 <= t < 64 && Square::file_of(t) - Square::file_of(sq)
            == files && Square::rank_of(t) - Square::rank_of(sq) == ranks,
{
    lemma_comes_from(bb, t, files, ranks);
    assert(bb.has(sq));
}

/// The squares that a king attacks.
pub fn king_attacks(sq: Square) -> (out: Bitboard)
    requires
        sq.wf(),
    ensures
        forall|t: int| #[trigger] out.has(t) <==> 0 <= t < 64 && king_step(sq.0 as int, t),
{
    let bb = Bitboard::of(sq);
    let straight = shifted(bb, Direction::North).union(shifted(bb, Direction::South)).union(
        shifted(bb, Direction::East),
    ).union(shifted(bb, Direction::West));
    let diagonal = shifted(bb, Direction::NorthEast).union(shifted(bb, Direction::NorthWest)).union(
        shifted(bb, Direction::SouthEast),
    ).union(shifted(bb, Direction::SouthWest));
    let out = straight.union(diagonal);
    assert forall|t: int| #[trigger] out.has(t) <==> 0 <= t < 64 && king_step(sq.0 as int, t) by {
        let s = sq.0 as int;
        lemma_comes_from_one(bb, s, t, 0, 1);
        lemma_comes_from_one(bb, s, t, 0, -1);
        lemma_comes_from_one(bb, s, t, 1, 0);
        lemma_comes_from_one(bb, s, t, -1, 0);
        lemma_comes_from_one(bb, s, t, 1, 1);
        lemma_comes_from_one(bb, s, t, -1, 1);
        lemma_comes_from_one(bb, s, t, 1, -1);
        lemma_comes_from_one(bb, s, t, -1, -1);
    }
    out
}

/// How many steps lie between two squares of a line in the given direction.
spec fn steps(d: Direction, s: int, t: int) -> int {
    let files = Square::file_of(t) - Square::file_of(s);
    let ranks = Square::rank_of(t) - Square::rank_of(s);
    match d {
        Direction::North => ranks,
        Direction::South => -ranks,
        Direction::East | Direction::NorthEast | Direction::SouthEast => files,
        Direction::West | Direction::NorthWest | Direction::SouthWest => -files,
    }
}

/// Whether `t` lies in the given direction from `s`.
spec fn ahead(d: Direction, s: int, t: int) -> bool {
    let files = Square::file_of(t) - Square::file_of(s);
    let ranks = Square::rank_of(t) - Square::rank_of(s);
    match d {
        Direction::North => files == 0 && ranks > 0,
        Direction::South => files == 0 && ranks < 0,
        Direction::East => ranks == 0 && files > 0,
        Direction::West => ranks == 0 && files < 0,
        Direction::NorthEast => files == ranks && files > 0,
        Direction::NorthWest => files == -ranks && files < 0,
        Direction::SouthEast => files == -ranks && files > 0,
        Direction::SouthWest => files == ranks && files < 0,
    }
}

/// Whether `t` lies in the given direction from `s`, with no occupied square in between.
spec fn in_sight(occupied: Bitboard, d: Direction, s: int, t: int) -> bool {
    &&& ahead(d, s, t)
    &&& forall|m: int| #[trigger] occupied.has(m) ==> !(ahead(d, s, m) && ahead(d, m, t))
}

proof fn lemma_steps(d: Direction, s: int, t: int)
    requires
        0 <= s < 64,
        0 <= t < 64,
        ahead(d, s, t),
    ensures
        1 <= steps(d, s, t) <= 7,
        back(t, d, steps(d, s, t)) == s,
        Square::file_of(t) - steps(d, s, t) * d.files() == Square::file_of(s),
        Square::rank_of(t) - steps(d, s, t) * d.ranks() == Square::rank_of(s),
{
    lemma_scaled(steps(d, s, t), d.files());
    lemma_scaled(steps(d, s, t), d.ranks());
}

proof fn lemma_steps_back(d: Direction, t: int, k: int)
    requires
        0 <= t < 64,
        k >= 1,
        Square::on_board(
            Square::file_of(t) - k * d.files(),
            Square::rank_of(t) - k * d.ranks(),
        ),
    ensures
        0 <= back(t, d, k) < 64,
        ahead(d, back(t, d, k), t),
        steps(d, back(t, d, k), t) == k,
{
    lemma_scaled(k, d.files());
    lemma_scaled(k, d.ranks());
}

/// A step before the end of a line that begins on the board is on the board.
proof fn lemma_line_inside(d: Direction, t: int, j: int, k: int)
    requires
        0 <= t < 64,
        0 <= j <= k,
        Square::on_board(
            Square::file_of(t) - k * d.files(),
            Square::rank_of(t) - k * d.ranks(),
        ),
    ensures
        Square::on_board(
            Square::file_of(t) - j * d.files(),
            Square::rank_of(t) - j * d.ranks(),
        ),
{
    lemma_scaled(j, d.files());
    lemma_scaled(j, d.ranks());
    lemma_scaled(k, d.files());
    lemma_scaled(k, d.ranks());
}

/// A piece of the set slides to a square where it has it in sight.
proof fn lemma_sight(bb: Bitboard, occupied: Bitboard, d: Direction, t: int)
    requires
        0 <= t < 64,
    ensures
        slides_to(bb, occupied, d, t) <==> exists|s: int| #[trigger]
            bb.has(s) && in_sight(occupied, d, s, t),
{
    if slides_to(bb, occupied, d, t) {
        let k = choose|k: int| 1 <= k <= 7 && #[trigger] ray_hit(bb, occupied, d, t, k);
        let s = back(t, d, k);
        assert(bb.has(s));
        lemma_steps_back(d, t, k);
        assert forall|m: int| #[trigger] occupied.has(m) implies !(ahead(d, s, m) && ahead(d, m, t)) by {
            if ahead(d, s, m) && ahead(d, m, t) {
                lemma_steps(d, m, t);
                lemma_steps(d, s, m);
                assert(steps(d, s, t) == steps(d, s, m) + steps(d, m, t));
                assert(!occupied.has(back(t, d, steps(d, m, t))));
            }
        }
        assert(in_sight(occupied, d, s, t));
    }
    if exists|s: int| #[trigger] bb.has(s) && in_sight(occupied, d, s, t) {
        let s = choose|s: int| #[trigger] bb.has(s) && in_sight(occupied, d, s, t);
        let k = steps(d, s, t);
        lemma_steps(d, s, t);
        assert forall|j: int| 0 < j < k implies !occupied.has(#[trigger] back(t, d, j)) by {
            lemma_line_inside(d, t, j, k);
            lemma_steps_back(d, t, j);
            let m = back(t, d, j);
            lemma_scaled(j, d.files());
            lemma_scaled(j, d.ranks());
            lemma_scaled(k, d.files());
            lemma_scaled(k, d.ranks());
            assert(ahead(d, s, m));
        }
        assert(ray_hit(bb, occupied, d, t, k));
    }
}

/// A rook attacks a square of its file or rank where no occupied square lies between.
pub proof fn law_rook_attacks(bb: Bitboard, occupied: Bitboard, t: int)
    requires
        0 <= t < 64,
    ensures
        rook_reaches(bb, occupied, t) <==> exists|s: int| #[trigger]
            bb.has(s) && s != t && {
                ||| {
                    &&& s % 8 == t % 8
                    &&& forall|m: int| #[trigger]
                        occupied.has(m) && m % 8 == t % 8 ==> !(s / 8 < m / 8 < t / 8) && !(t / 8 < m
                            / 8 < s / 8)
                }
                ||| {
                    &&& s / 8 == t / 8
                    &&& forall|m: int| #[trigger]
                        occupied.has(m) && m / 8 == t / 8 ==> !(s % 8 < m % 8 < t % 8) && !(t % 8 < m
                            % 8 < s % 8)
                }
            },
{
    lemma_sight(bb, occupied, Direction::North, t);
    lemma_sight(bb, occupied, Direction::South, t);
    lemma_sight(bb, occupied, Direction::East, t);
    lemma_sight(bb, occupied, Direction::West, t);
    assert forall|s: int| #[trigger] bb.has(s) && s != t implies ({
        &&& s % 8 == t % 8
        &&& forall|m: int| #[trigger]
            occupied.has(m) && m % 8 == t % 8 ==> !(s / 8 < m / 8 < t / 8) && !(t / 8 < m / 8 < s / 8)
    } <==> in_sight(occupied, Direction::North, s, t) || in_sight(
        occupied,
        Direction::South,
        s,
        t,
    )) by {}
    assert forall|s: int| #[trigger] bb.has(s) && s != t implies ({
        &&& s / 8 == t / 8
        &&& forall|m: int| #[trigger]
            occupied.has(m) && m / 8 == t / 8 ==> !(s % 8 < m % 8 < t % 8) && !(t % 8 < m % 8 < s % 8)
    } <==> in_sight(occupied, Direction::East, s, t) || in_sight(
        occupied,
        Direction::West,
        s,
        t,
    )) by {}
}

/// A bishop attacks a square of one of its diagonals where no occupied square lies between.
pub proof fn law_bishop_attacks(bb: Bitboard, occupied: Bitboard, t: int)
    requires
        0 <= t < 64,
    ensures
        bishop_reaches(bb, occupied, t) <==> exists|s: int| #[trigger]
            bb.has(s) && s != t && {
                ||| {
                    &&& s / 8 - s % 8 == t / 8 - t % 8
                    &&& forall|m: int| #[trigger]
                        occupied.has(m) && m / 8 - m % 8 == t / 8 - t % 8 ==> !(s / 8 < m / 8 < t / 8)
                            && !(t / 8 < m / 8 < s / 8)
                }
                ||| {
                    &&& s / 8 + s % 8 == t / 8 + t % 8
                    &&& forall|m: int| #[trigger]
                        occupied.has(m) && m / 8 + m % 8 == t / 8 + t % 8 ==> !(s / 8 < m / 8 < t / 8)
                            && !(t / 8 < m / 8 < s / 8)
                }
            },
{
    lemma_sight(bb, occupied, Direction::NorthEast, t);
    lemma_sight(bb, occupied, Direction::NorthWest, t);
    lemma_sight(bb, occupied, Direction::SouthEast, t);
    lemma_sight(bb, occupied, Direction::SouthWest, t);
    assert forall|s: int| #[trigger] bb.has(s) && s != t implies ({
        &&& s / 8 - s % 8 == t / 8 - t % 8
        &&& forall|m: int| #[trigger]
            occupied.has(m) && m / 8 - m % 8 == t / 8 - t % 8 ==> !(s / 8 < m / 8 < t / 8) && !(t / 8
                < m / 8 < s / 8)
    } <==> in_sight(occupied, Direction::NorthEast, s, t) || in_sight(
        occupied,
        Direction::SouthWest,
        s,
        t,
    )) by {}
    assert forall|s: int| #[trigger] bb.has(s) && s != t implies ({
        &&& s / 8 + s % 8 == t / 8 + t % 8
        &&& forall|m: int| #[trigger]
            occupied.has(m) && m / 8 + m % 8 == t / 8 + t % 8 ==> !(s / 8 < m / 8 < t / 8) && !(t / 8
                < m / 8 < s / 8)
    } <==> in_sight(occupied, Direction::NorthWest, s, t) || in_sight(
        occupied,
        Direction::SouthEast,
        s,
        t,
    )) by {}
}

/// A piece attacks nothing off the board.
pub proof fn law_attacks_on_board(bb: Bitboard, occupied: Bitboard, t: int)
    requires
        t < 0 || t >= 64,
    ensures
        !rook_reaches(bb, occupied, t),
        !bishop_reaches(bb, occupied, t),
{
}

/// A knight goes from a square to another where the squares of the distances in files and ranks
/// add up to five, and can go back.
pub proof fn law_knight_step(s: int, t: int)
    ensures
        knight_step(s, t) <==> (t % 8 - s % 8) * (t % 8 - s % 8) + (t / 8 - s / 8) * (t / 8 - s / 8) == 5,
        knight_step(s, t) <==> knight_step(t, s),
{
    lemma_square(t % 8 - s % 8);
    lemma_square(t / 8 - s / 8);
}

proof fn lemma_square(x: int)
    ensures
        x * x == 0 <==> x == 0,
        x * x == 1 <==> x == 1 || x == -1,
        x * x == 4 <==> x == 2 || x == -2,
        x * x >= 0,
        x == 0 || x == 1 || x == -1 || x == 2 || x == -2 || x * x >= 9,
{
    assert(x == 0 || x == 1 || x == -1 || x == 2 || x == -2 || x * x >= 9) by (nonlinear_arith);
    assert(x * x >= 0) by (nonlinear_arith);
    assert(1 * 1 == 1 && -1 * -1 == 1 && 2 * 2 == 4 && -2 * -2 == 4 && 0 * 0 == 0) by (nonlinear_arith);
}

/// A king goes from a square to the squares that touch it: the number of a square that touches
/// another on the same rank is one more or less, and on the next rank seven, eight or nine more. It
/// can go back.
pub proof fn law_king_step(s: int, t: int)
    requires
        0 <= s < 64,
        0 <= t < 64,
    ensures
        king_step(s, t) <==> {
            let (low, high) = if s < t {
                (s, t)
            } else {
                (t, s)
            };
            ||| high - low == 1 && high % 8 != 0
            ||| high - low == 7 && low % 8 != 0
            ||| high - low == 8
            ||| high - low == 9 && low % 8 != 7
        },
        king_step(s, t) <==> king_step(t, s),
{
}

/// A pawn takes on a neighbouring file. A white pawn takes seven or nine squares further on, on the
/// next rank, and a black pawn goes the ways that white pawns go back.
pub proof fn law_pawn_step(s: int, t: int)
    requires
        0 <= s < 64,
        0 <= t < 64,
    ensures
        pawn_step(Color::White, s, t) <==> t - s == 7 && s % 8 != 0 || t - s == 9 && s % 8 != 7,
        pawn_step(Color::Black, s, t) <==> pawn_step(Color::White, t, s),
{
}

/// One step in a direction, from a square where it stays on the board, changes the number of the
/// square by eight for each rank and by one for each file.
pub proof fn law_directions(sq: int)
    ensures
        back(sq, Direction::North, 1) == sq - 8,
        back(sq, Direction::South, 1) == sq + 8,
        back(sq, Direction::East, 1) == sq - 1,
        back(sq, Direction::West, 1) == sq + 1,
        back(sq, Direction::NorthEast, 1) == sq - 9,
        back(sq, Direction::NorthWest, 1) == sq - 7,
        back(sq, Direction::SouthEast, 1) == sq + 7,
        back(sq, Direction::SouthWest, 1) == sq + 9,
{
}

} // verus!
