use vstd::prelude::*;

use super::square::Square;

verus! {

/// A set of squares, one bit for each.
#[derive(Copy, Clone, Debug, PartialEq, Eq, Structural)]
pub struct Bitboard(pub u64);

impl Bitboard {
    /// Whether a square is in the set.
    pub open spec fn has(self, sq: int) -> bool {
        0 <= sq < 64 && (self.0 >> (sq as u64)) & 1 == 1
    }

    /// The squares of the set that lie below `n`, in ascending order.
    pub open spec fn squares_below(self, n: nat) -> Seq<Square>
        decreases n,
    {
        if n == 0 {
            seq![]
        } else if self.has(n - 1) {
            self.squares_below((n - 1) as nat).push(Square((n - 1) as u8))
        } else {
            self.squares_below((n - 1) as nat)
        }
    }

    /// All squares of the set, in ascending order.
    pub open spec fn squares(self) -> Seq<Square> {
        self.squares_below(64)
    }

    /// The set without squares.
    pub fn empty() -> (bb: Bitboard)
        ensures
            bb == Bitboard(0),
            forall|sq: int| !#[trigger] bb.has(sq),
    {
        proof {
            lemma_zero_has_none();
        }
        Bitboard(0)
    }

    /// The set of one square.
    pub fn of(sq: Square) -> (bb: Bitboard)
        requires
            sq.wf(),
        ensures
            forall|s: int| #[trigger] bb.has(s) <==> s == sq.0,
    {
        let bb = Bitboard(1u64 << sq.0);
        assert forall|s: int| #[trigger] bb.has(s) <==> s == sq.0 by {
            if 0 <= s < 64 {
                lemma_single_bit(sq.0 as u64, s as u64);
            }
        }
        bb
    }

    /// The squares of one file.
    pub fn file(file: u8) -> (bb: Bitboard)
        requires
            file < 8,
        ensures
            forall|s: int| #[trigger] bb.has(s) <==> 0 <= s < 64 && Square::file_of(s) == file,
    {
        let bb = Bitboard(0x0101_0101_0101_0101u64 << file);
        assert forall|s: int| #[trigger] bb.has(s) <==> 0 <= s < 64 && Square::file_of(s) == file by {
            if 0 <= s < 64 {
                lemma_file_bits(file as u64, s as u64);
            }
        }
        bb
    }

    pub fn is_empty(self) -> (b: bool)
        ensures
            b == (self.0 == 0),
            b <==> forall|sq: int| !#[trigger] self.has(sq),
    {
        proof {
            if self.0 == 0 {
                lemma_zero_has_none();
            } else {
                vstd::std_specs::bits::axiom_u64_trailing_zeros(self.0);
                assert(self.has(self.0.trailing_zeros() as int));
            }
        }
        self.0 == 0
    }

    pub fn contains(self, sq: Square) -> (b: bool)
        requires
            sq.wf(),
        ensures
            b == self.has(sq.0 as int),
    {
        (self.0 >> sq.0) & 1 == 1
    }

    /// The squares in either set.
    pub fn union(self, other: Bitboard) -> (bb: Bitboard)
        ensures
            bb == Bitboard(self.0 | other.0),
            forall|s: int| #[trigger] bb.has(s) <==> self.has(s) || other.has(s),
    {
        let bb = Bitboard(self.0 | other.0);
        assert forall|s: int| #[trigger] bb.has(s) <==> self.has(s) || other.has(s) by {
            if 0 <= s < 64 {
                lemma_bit_ops(self.0, other.0, s as u64);
            }
        }
        bb
    }

    /// The squares in both sets.
    pub fn intersect(self, other: Bitboard) -> (bb: Bitboard)
        ensures
            bb == Bitboard(self.0 & other.0),
            forall|s: int| #[trigger] bb.has(s) <==> self.has(s) && other.has(s),
    {
        let bb = Bitboard(self.0 & other.0);
        assert forall|s: int| #[trigger] bb.has(s) <==> self.has(s) && other.has(s) by {
            if 0 <= s < 64 {
                lemma_bit_ops(self.0, other.0, s as u64);
            }
        }
        bb
    }

    /// The squares of this set that are not in the other.
    pub fn without(self, other: Bitboard) -> (bb: Bitboard)
        ensures
            bb == Bitboard(self.0 & !other.0),
            forall|s: int| #[trigger] bb.has(s) <==> self.has(s) && !other.has(s),
    {
        let bb = Bitboard(self.0 & !other.0);
        assert forall|s: int| #[trigger] bb.has(s) <==> self.has(s) && !other.has(s) by {
            if 0 <= s < 64 {
                lemma_bit_ops(self.0, other.0, s as u64);
            }
        }
        bb
    }

    /// Takes the lowest square out of the set.
    pub fn pop_lsb(&mut self) -> (sq: Square)
        requires
            old(self).0 != 0,
        ensures
            sq.wf(),
            old(self).has(sq.0 as int),
            forall|s: int| s < sq.0 ==> !#[trigger] old(self).has(s),
            forall|s: int| #[trigger] final(self).has(s) <==> old(self).has(s) && s != sq.0,
    {
        let low: u32 = self.0.trailing_zeros();
        proof {
            vstd::std_specs::bits::axiom_u64_trailing_zeros(self.0);
        }
        let bits: u64 = self.0;
        self.0 = bits & !(1u64 << low);
        proof {
            assert forall|s: int| s < low implies !#[trigger] old(self).has(s) by {
                if 0 <= s {
                    assert((bits >> (s as u64)) & 1 == 0);
                }
            }
            assert forall|s: int| #[trigger] self.has(s) <==> old(self).has(s) && s != low by {
                if 0 <= s < 64 {
                    lemma_bit_ops(bits, 1u64 << low, s as u64);
                    lemma_single_bit(low as u64, s as u64);
                }
            }
        }
        Square(low as u8)
    }
}

proof fn lemma_zero_has_none()
    ensures
        forall|sq: int| !#[trigger] Bitboard(0).has(sq),
{
    assert forall|sq: int| !#[trigger] Bitboard(0).has(sq) by {
        let s = sq as u64;
        assert((0u64 >> s) & 1 == 0) by (bit_vector);
    }
}

proof fn lemma_single_bit(n: u64, s: u64)
    requires
        n < 64,
        s < 64,
    ensures
        ((1u64 << n) >> s) & 1 == (if s == n { 1u64 } else { 0u64 }),
{
    assert(((1u64 << n) >> s) & 1 == (if s == n { 1u64 } else { 0u64 })) by (bit_vector)
        requires
            n < 64,
            s < 64,
    ;
}

proof fn lemma_file_bits(file: u64, s: u64)
    requires
        file < 8,
        s < 64,
    ensures
        ((0x0101_0101_0101_0101u64 << file) >> s) & 1 == (if s % 8 == file { 1u64 } else { 0u64 }),
{
    assert(((0x0101_0101_0101_0101u64 << file) >> s) & 1 == (if s % 8 == file { 1u64 } else { 0u64 }))
        by (bit_vector)
        requires
            file < 8,
            s < 64,
    ;
}

/// What the operations on two sets do to one bit.
pub proof fn lemma_bit_ops(a: u64, b: u64, s: u64)
    requires
        s < 64,
    ensures
        ((a | b) >> s) & 1 == 1 <==> (a >> s) & 1 == 1 || (b >> s) & 1 == 1,
        ((a & b) >> s) & 1 == 1 <==> (a >> s) & 1 == 1 && (b >> s) & 1 == 1,
        ((a & !b) >> s) & 1 == 1 <==> (a >> s) & 1 == 1 && (b >> s) & 1 != 1,
{
    assert(((a | b) >> s) & 1 == 1 <==> (a >> s) & 1 == 1 || (b >> s) & 1 == 1) by (bit_vector);
    assert(((a & b) >> s) & 1 == 1 <==> (a >> s) & 1 == 1 && (b >> s) & 1 == 1) by (bit_vector);
    assert(((a & !b) >> s) & 1 == 1 <==> (a >> s) & 1 == 1 && (b >> s) & 1 != 1) by (bit_vector)
        requires
            s < 64,
    ;
}

/// Squares between `m` and `n` that are not in the set add nothing to the list.
pub proof fn lemma_squares_gap(bb: Bitboard, m: nat, n: nat)
    requires
        m <= n,
        forall|s: int| m <= s < n ==> !#[trigger] bb.has(s),
    ensures
        bb.squares_below(n) == bb.squares_below(m),
    decreases n,
{
    if m < n {
        assert(!bb.has(n - 1));
        lemma_squares_gap(bb, m, (n - 1) as nat);
    }
}

/// Where `to` is the lowest square of the set from `m` on, it is the next one in the list.
pub proof fn lemma_next_square(bb: Bitboard, m: nat, to: Square)
    requires
        m <= to.0 < 64,
        bb.has(to.0 as int),
        forall|s: int| m <= s < to.0 ==> !#[trigger] bb.has(s),
    ensures
        bb.squares_below((to.0 + 1) as nat) == bb.squares_below(m).push(to),
        bb.squares_below(m).len() < bb.squares().len(),
{
    lemma_squares_gap(bb, m, to.0 as nat);
    lemma_squares_len_grows(bb, (to.0 + 1) as nat, 64);
}

proof fn lemma_squares_len_grows(bb: Bitboard, m: nat, n: nat)
    requires
        m <= n,
    ensures
        bb.squares_below(m).len() <= bb.squares_below(n).len(),
    decreases n,
{
    if m < n {
        lemma_squares_len_grows(bb, m, (n - 1) as nat);
    }
}

/// A set holds a square exactly where the bit of that number is set, and nothing off the board.
pub proof fn law_bits(bb: Bitboard, sq: u64)
    requires
        sq < 64,
    ensures
        bb.has(sq as int) <==> bb.0 & (1u64 << sq) == 1u64 << sq,
        !bb.has(-1) && !bb.has(64),
{
    let x = bb.0;
    assert((x >> sq) & 1 == 1 <==> x & (1u64 << sq) == 1u64 << sq) by (bit_vector)
        requires
            sq < 64,
    ;
}

/// The list of squares holds each square of the set, and no other, in strictly ascending order.
pub proof fn law_squares(bb: Bitboard)
    ensures
        forall|s: int| 0 <= s < 64 ==> (#[trigger] bb.has(s) <==> bb.squares().contains(Square(s as u8))),
        forall|i: int, j: int|
            0 <= i < j < bb.squares().len() ==> #[trigger] bb.squares()[i].0 < #[trigger] bb.squares()[j].0,
        bb.squares().len() <= 64,
{
    lemma_squares_below(bb, 64);
}

/// The listed squares below `n` are the squares of the set below `n`, ascending.
pub proof fn lemma_squares_below(bb: Bitboard, n: nat)
    requires
        n <= 64,
    ensures
        bb.squares_below(n).len() <= n,
        forall|s: int|
            0 <= s < 64 ==> (#[trigger] bb.squares_below(n).contains(Square(s as u8)) <==> s < n && bb.has(s)),
        forall|i: int|
            0 <= i < bb.squares_below(n).len() ==> (#[trigger] bb.squares_below(n)[i]).0 < n && bb.has(
                bb.squares_below(n)[i].0 as int,
            ),
        forall|i: int, j: int|
            0 <= i < j < bb.squares_below(n).len() ==> #[trigger] bb.squares_below(n)[i].0
                < #[trigger] bb.squares_below(n)[j].0,
    decreases n,
{
    if n > 0 {
        let prev = bb.squares_below((n - 1) as nat);
        lemma_squares_below(bb, (n - 1) as nat);
        let cur = bb.squares_below(n);
        assert forall|s: int| 0 <= s < 64 implies (#[trigger] cur.contains(Square(s as u8)) <==> s < n
            && bb.has(s)) by {
            let sq = Square(s as u8);
            if bb.has(n - 1) {
                assert(cur == prev.push(Square((n - 1) as u8)));
                if s == n - 1 {
                    assert(cur[prev.len() as int] == sq);
                } else {
                    if prev.contains(sq) {
                        let i = prev.index_of(sq);
                        assert(cur[i] == sq);
                    }
                    if cur.contains(sq) {
                        let i = cur.index_of(sq);
                        assert(prev[i] == sq);
                    }
                }
            } else {
                assert(prev.contains(sq) <==> s < n - 1 && bb.has(s));
            }
        }
    }
}

/// The squares of a set are those of its lower half followed by those of its upper half.
pub proof fn law_squares_by_halves(bb: Bitboard)
    ensures
        bb.squares() == Bitboard(bb.0 & 0xffff_ffff).squares() + Bitboard(bb.0 & !0xffff_ffff).squares(),
{
    let low = Bitboard(bb.0 & 0xffff_ffff);
    let high = Bitboard(bb.0 & !0xffff_ffff);
    assert forall|s: int| #[trigger] low.has(s) <==> bb.has(s) && s < 32 by {
        if 0 <= s < 64 {
            let n = s as u64;
            lemma_bit_ops(bb.0, 0xffff_ffff, n);
            assert((0xffff_ffffu64 >> n) & 1 == 1 <==> n < 32) by (bit_vector)
                requires
                    n < 64,
            ;
        }
    }
    assert forall|s: int| #[trigger] high.has(s) <==> bb.has(s) && s >= 32 by {
        if 0 <= s < 64 {
            let n = s as u64;
            lemma_bit_ops(bb.0, 0xffff_ffff, n);
            assert((0xffff_ffffu64 >> n) & 1 == 1 <==> n < 32) by (bit_vector)
                requires
                    n < 64,
            ;
        }
    }
    lemma_halves_below(bb, low, high, 64);
}

proof fn lemma_halves_below(bb: Bitboard, low: Bitboard, high: Bitboard, n: nat)
    requires
        forall|s: int| #[trigger] low.has(s) <==> bb.has(s) && s < 32,
        forall|s: int| #[trigger] high.has(s) <==> bb.has(s) && s >= 32,
    ensures
        bb.squares_below(n) == low.squares_below(n) + high.squares_below(n),
        n <= 32 ==> high.squares_below(n) == Seq::<Square>::empty(),
    decreases n,
{
    if n > 0 {
        lemma_halves_below(bb, low, high, (n - 1) as nat);
        assert(low.has(n - 1) <==> bb.has(n - 1) && n - 1 < 32);
        assert(high.has(n - 1) <==> bb.has(n - 1) && n - 1 >= 32);
    }
    assert(bb.squares_below(n) =~= low.squares_below(n) + high.squares_below(n));
}

} // verus!
