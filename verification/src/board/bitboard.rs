//! u64 bitboard, bit 0 = a1 (LERF).
use vstd::prelude::*;
use vstd::std_specs::bits::{u64_trailing_zeros, axiom_u64_trailing_zeros};

use crate::board::types::{Square, file_of, rank_of};

verus! {

/// Bit `i` (0..64) of `x` is set.
pub open spec fn bit(x: u64, i: int) -> bool {
    0 <= i < 64 && (x >> (i as u64)) & 1u64 == 1u64
}

/// Number of set bits among bits `0..n` of `x`.
pub open spec fn bits_below(x: u64, n: int) -> nat
    decreases n,
{
    if n <= 0 {
        0
    } else {
        bits_below(x, n - 1) + if bit(x, n - 1) {
            1nat
        } else {
            0nat
        }
    }
}

/// Number of set bits of `x`.
pub open spec fn popcount(x: u64) -> nat {
    bits_below(x, 64)
}

pub const FILE_A: u64 = 0x0101010101010101u64;

pub const FILE_H: u64 = 0x8080808080808080u64;

pub const RANK_1: u64 = 0x00000000000000FFu64;

pub const RANK_2: u64 = 0x000000000000FF00u64;

pub const RANK_4: u64 = 0x00000000FF000000u64;

pub const RANK_5: u64 = 0x000000FF00000000u64;

pub const RANK_7: u64 = 0x00FF000000000000u64;

pub const RANK_8: u64 = 0xFF00000000000000u64;

// ---- bit-level lemmas ----

/// Bit `j` of `a & b`, `a | b`, `a ^ b` and `!a`.
proof fn lemma_bit_ops_at(a: u64, b: u64, j: u64)
    by (bit_vector)
    ensures
        ((a & b) >> j) & 1u64 == 1u64 <==> ((a >> j) & 1u64 == 1u64 && (b >> j) & 1u64 == 1u64),
        ((a | b) >> j) & 1u64 == 1u64 <==> ((a >> j) & 1u64 == 1u64 || (b >> j) & 1u64 == 1u64),
        ((a ^ b) >> j) & 1u64 == 1u64 <==> (((a >> j) & 1u64 == 1u64) != ((b >> j) & 1u64 == 1u64)),
        j < 64 ==> (((!a) >> j) & 1u64 == 1u64 <==> !((a >> j) & 1u64 == 1u64)),
{
}

pub proof fn lemma_bit_and(a: u64, b: u64)
    ensures
        forall|i: int| #[trigger] bit(a & b, i) == (bit(a, i) && bit(b, i)),
{
    assert forall|i: int| #[trigger] bit(a & b, i) == (bit(a, i) && bit(b, i)) by {
        if 0 <= i < 64 {
            lemma_bit_ops_at(a, b, i as u64);
        }
    }
}

pub proof fn lemma_bit_or(a: u64, b: u64)
    ensures
        forall|i: int| #[trigger] bit(a | b, i) == (bit(a, i) || bit(b, i)),
{
    assert forall|i: int| #[trigger] bit(a | b, i) == (bit(a, i) || bit(b, i)) by {
        if 0 <= i < 64 {
            lemma_bit_ops_at(a, b, i as u64);
        }
    }
}

pub proof fn lemma_bit_xor(a: u64, b: u64)
    ensures
        forall|i: int| #[trigger] bit(a ^ b, i) == (bit(a, i) != bit(b, i)),
{
    assert forall|i: int| #[trigger] bit(a ^ b, i) == (bit(a, i) != bit(b, i)) by {
        if 0 <= i < 64 {
            lemma_bit_ops_at(a, b, i as u64);
        }
    }
}

pub proof fn lemma_bit_not(a: u64)
    ensures
        forall|i: int| 0 <= i < 64 ==> #[trigger] bit(!a, i) == !bit(a, i),
{
    assert forall|i: int| 0 <= i < 64 implies #[trigger] bit(!a, i) == !bit(a, i) by {
        lemma_bit_ops_at(a, a, i as u64);
    }
}

pub proof fn lemma_bit_single(s: u64)
    requires
        s < 64,
    ensures
        forall|i: int| #[trigger] bit(1u64 << s, i) == (i == s),
{
    assert forall|i: int| #[trigger] bit(1u64 << s, i) == (i == s) by {
        if 0 <= i < 64 {
            let j = i as u64;
            assert(s < 64 && j < 64 ==> ((((1u64 << s) >> j) & 1u64 == 1u64) <==> j == s))
                by (bit_vector);
        }
    }
}

pub proof fn lemma_zero_iff_no_bits(x: u64)
    ensures
        x == 0 <==> forall|i: int| 0 <= i < 64 ==> !#[trigger] bit(x, i),
{
    if x != 0 {
        let t = u64_trailing_zeros(x);
        axiom_u64_trailing_zeros(x);
        assert(bit(x, t as int));
    } else {
        assert forall|i: int| 0 <= i < 64 implies !#[trigger] bit(x, i) by {
            let j = i as u64;
            assert(x == 0 ==> (x >> j) & 1u64 == 0) by (bit_vector);
        }
    }
}

/// Two words with the same 64 bits are equal.
pub proof fn lemma_bits_ext(a: u64, b: u64)
    requires
        forall|i: int| 0 <= i < 64 ==> #[trigger] bit(a, i) == bit(b, i),
    ensures
        a == b,
{
    lemma_bit_xor(a, b);
    lemma_zero_iff_no_bits(a ^ b);
    assert((a ^ b) == 0u64);
    assert(a ^ b == 0u64 ==> a == b) by (bit_vector);
}

pub proof fn lemma_bits_below_bounded(x: u64, n: int)
    ensures
        bits_below(x, n) <= if n < 0 {
            0
        } else {
            n
        },
    decreases n,
{
    if n > 0 {
        lemma_bits_below_bounded(x, n - 1);
    }
}

/// The lowest set bit of a non-zero word: its index is `u64_trailing_zeros`.
pub proof fn lemma_lowest_bit(x: u64)
    requires
        x != 0,
    ensures
        u64_trailing_zeros(x) < 64,
        bit(x, u64_trailing_zeros(x) as int),
        forall|j: int| 0 <= j < u64_trailing_zeros(x) ==> !#[trigger] bit(x, j),
{
    axiom_u64_trailing_zeros(x);
    let t = u64_trailing_zeros(x);
    assert forall|j: int| 0 <= j < t implies !#[trigger] bit(x, j) by {
        let jj = j as u64;
        assert((x >> jj) & 1u64 == 0u64);
    }
}

/// Clearing the lowest set bit with `x & (x - 1)`.
pub proof fn lemma_clear_lowest(x: u64)
    requires
        x != 0,
    ensures
        forall|i: int| #[trigger]
            bit(x & ((x - 1) as u64), i) == (bit(x, i) && i != u64_trailing_zeros(x)),
{
    axiom_u64_trailing_zeros(x);
    let t = u64_trailing_zeros(x) as u64;
    assert(x << ((64 - t) as u64) == 0u64);
    assert forall|i: int| #[trigger] bit(x & ((x - 1) as u64), i) == (bit(x, i) && i != t) by {
        if 0 <= i < 64 {
            let j = i as u64;
            assert(x != 0 && t < 64 && (x >> t) & 1u64 == 1u64 && x << ((64 - t) as u64) == 0u64
                && j < 64 ==> (((x & ((x - 1) as u64)) >> j) & 1u64 == 1u64 <==> ((x >> j) & 1u64
                == 1u64 && j != t))) by (bit_vector);
        }
    }
}

pub proof fn lemma_bits_below_step(x: u64, n: int)
    requires
        0 < n,
    ensures
        bits_below(x, n) == bits_below(x, n - 1) + if bit(x, n - 1) {
            1nat
        } else {
            0nat
        },
{
}

/// Words that agree on bits below n have equal partial counts.
pub proof fn lemma_bits_below_congruent(x: u64, y: u64, n: int)
    requires
        forall|i: int| 0 <= i < n ==> #[trigger] bit(x, i) == bit(y, i),
    ensures
        bits_below(x, n) == bits_below(y, n),
    decreases n,
{
    if n > 0 {
        lemma_bits_below_congruent(x, y, n - 1);
    }
}

pub proof fn lemma_bits_below_zero(n: int)
    ensures
        bits_below(0, n) == 0,
    decreases n,
{
    lemma_zero_iff_no_bits(0);
    if n > 0 {
        lemma_bits_below_zero(n - 1);
    }
}

/// Removing one set bit lowers the count by one.
pub proof fn lemma_bits_below_remove(x: u64, y: u64, k: int, n: int)
    requires
        0 <= k < n <= 64,
        bit(x, k),
        !bit(y, k),
        forall|i: int| 0 <= i < 64 && i != k ==> #[trigger] bit(x, i) == bit(y, i),
    ensures
        bits_below(x, n) == bits_below(y, n) + 1,
    decreases n,
{
    if n - 1 == k {
        lemma_bits_below_congruent(x, y, n - 1);
    } else {
        lemma_bits_below_remove(x, y, k, n - 1);
    }
}

/// Number of set bits (std `u64::count_ones`).
#[verifier::external_body]
fn count_ones(x: u64) -> (r: u32)
    ensures
        r == popcount(x),
{
    x.count_ones()
}

#[derive(Clone, Copy, PartialEq, Eq, Debug, Hash, Default, Structural)]
pub struct Bitboard(pub u64);

impl Bitboard {
    /// Square `i` is in the set.
    pub open spec fn has(self, i: int) -> bool {
        bit(self.0, i)
    }

    pub fn empty() -> (r: Bitboard)
        ensures
            r.0 == 0,
            forall|i: int| !#[trigger] r.has(i),
    {
        proof {
            lemma_zero_iff_no_bits(0);
        }
        Bitboard(0)
    }

    pub fn is_empty(self) -> (r: bool)
        ensures
            r == (self.0 == 0),
            r == (forall|i: int| 0 <= i < 64 ==> !#[trigger] self.has(i)),
    {
        proof {
            lemma_zero_iff_no_bits(self.0);
            if self.0 != 0 {
                let i = choose|i: int| 0 <= i < 64 && #[trigger] bit(self.0, i);
                assert(self.has(i));
            } else {
                assert forall|i: int| 0 <= i < 64 implies !#[trigger] self.has(i) by {
                    assert(!bit(self.0, i));
                }
            }
        }
        self.0 == 0
    }

    pub fn any(self) -> (r: bool)
        ensures
            r == (self.0 != 0),
            r == (exists|i: int| 0 <= i < 64 && #[trigger] self.has(i)),
    {
        proof {
            lemma_zero_iff_no_bits(self.0);
            if self.0 != 0 {
                let i = choose|i: int| 0 <= i < 64 && #[trigger] bit(self.0, i);
                assert(self.has(i));
            }
        }
        self.0 != 0
    }

    pub fn count(self) -> (r: u32)
        ensures
            r == popcount(self.0),
            r <= 64,
    {
        proof {
            lemma_bits_below_bounded(self.0, 64);
        }
        count_ones(self.0)
    }

    pub fn contains(self, sq: Square) -> (r: bool)
        ensures
            r == self.has(sq@),
    {
        let i = sq.index() as u64;
        let x = self.0;
        assert((x & (1u64 << i) != 0) <==> ((x >> i) & 1u64 == 1u64)) by (bit_vector)
            requires i < 64;
        self.0 & (1u64 << i) != 0
    }

    pub fn set(&mut self, sq: Square)
        ensures
            final(self).0 == old(self).0 | (1u64 << (sq@ as u64)),
            forall|i: int| #[trigger] final(self).has(i) == (old(self).has(i) || i == sq@),
    {
        let i = sq.index() as u64;
        proof {
            lemma_bit_or(self.0, 1u64 << i);
            lemma_bit_single(i);
        }
        self.0 = self.0 | (1u64 << i);
    }

    pub fn clear(&mut self, sq: Square)
        ensures
            final(self).0 == old(self).0 & !(1u64 << (sq@ as u64)),
            forall|i: int| #[trigger] final(self).has(i) == (old(self).has(i) && i != sq@),
    {
        let i = sq.index() as u64;
        proof {
            lemma_bit_and(self.0, !(1u64 << i));
            lemma_bit_not(1u64 << i);
            lemma_bit_single(i);
        }
        self.0 = self.0 & !(1u64 << i);
    }

    /// Lowest set square. The set must be non-empty.
    pub fn lsb(self) -> (sq: Square)
        requires
            self.0 != 0,
        ensures
            self.has(sq@),
            forall|j: int| 0 <= j < sq@ ==> !#[trigger] self.has(j),
            sq@ == u64_trailing_zeros(self.0),
    {
        proof {
            lemma_lowest_bit(self.0);
        }
        Square::new(self.0.trailing_zeros() as u8)
    }

    /// Removes and returns the lowest set square. The set must be non-empty.
    pub fn pop_lsb(&mut self) -> (sq: Square)
        requires
            old(self).0 != 0,
        ensures
            old(self).has(sq@),
            forall|j: int| 0 <= j < sq@ ==> !#[trigger] old(self).has(j),
            forall|i: int| #[trigger] final(self).has(i) == (old(self).has(i) && i != sq@),
            popcount(final(self).0) + 1 == popcount(old(self).0),
    {
        let sq = self.lsb();
        proof {
            lemma_lowest_bit(self.0);
            lemma_clear_lowest(self.0);
            let x = self.0;
            let y = x & ((x - 1) as u64);
            assert forall|i: int| 0 <= i < 64 && i != sq@ implies #[trigger] bit(x, i) == bit(
                y,
                i,
            ) by {}
            lemma_bits_below_remove(x, y, sq@, 64);
        }
        self.0 = self.0 & (self.0 - 1);
        sq
    }

    // Directional shifts; file masks stop horizontal wrap-around.
    pub fn north(self) -> (r: Bitboard)
        ensures
            r.0 == self.0 << 8u64,
            forall|i: int| #[trigger] r.has(i) == (8 <= i < 64 && self.has(i - 8)),
    {
        let x = self.0;
        proof {
            assert forall|i: int| #[trigger] bit(x << 8u64, i) == (8 <= i < 64 && bit(x, i - 8)) by {
                if 0 <= i < 64 {
                    let j = i as u64;
                    assert(j < 64 ==> ((((x << 8u64) >> j) & 1u64 == 1u64) <==> (8 <= j && (x >> ((
                    j - 8) as u64)) & 1u64 == 1u64))) by (bit_vector);
                }
            }
        }
        Bitboard(x << 8u64)
    }

    pub fn south(self) -> (r: Bitboard)
        ensures
            r.0 == self.0 >> 8u64,
            forall|i: int| #[trigger] r.has(i) == (0 <= i < 56 && self.has(i + 8)),
    {
        let x = self.0;
        proof {
            assert forall|i: int| #[trigger] bit(x >> 8u64, i) == (0 <= i < 56 && bit(x, i + 8)) by {
                if 0 <= i < 64 {
                    let j = i as u64;
                    assert(j < 64 ==> ((((x >> 8u64) >> j) & 1u64 == 1u64) <==> (j < 56 && (x >> ((
                    j + 8) as u64)) & 1u64 == 1u64))) by (bit_vector);
                }
            }
        }
        Bitboard(x >> 8u64)
    }

    pub fn east(self) -> (r: Bitboard)
        ensures
            r.0 == (self.0 & !FILE_H) << 1u64,
            forall|i: int| #[trigger]
                r.has(i) == (0 <= i < 64 && file_of(i) != 0 && self.has(i - 1)),
    {
        let x = self.0;
        proof {
            assert forall|i: int| #[trigger] bit((x & !FILE_H) << 1u64, i) == (0 <= i < 64
                && file_of(i) != 0 && bit(x, i - 1)) by {
                if 0 <= i < 64 {
                    let j = i as u64;
                    assert(j < 64 ==> (((((x & !0x8080808080808080u64) << 1u64) >> j) & 1u64
                        == 1u64) <==> (j % 8 != 0 && (x >> ((j - 1) as u64)) & 1u64 == 1u64)))
                        by (bit_vector);
                }
            }
        }
        Bitboard((x & !FILE_H) << 1u64)
    }

    pub fn west(self) -> (r: Bitboard)
        ensures
            r.0 == (self.0 & !FILE_A) >> 1u64,
            forall|i: int| #[trigger]
                r.has(i) == (0 <= i < 64 && file_of(i) != 7 && self.has(i + 1)),
    {
        let x = self.0;
        proof {
            assert forall|i: int| #[trigger] bit((x & !FILE_A) >> 1u64, i) == (0 <= i < 64
                && file_of(i) != 7 && bit(x, i + 1)) by {
                if 0 <= i < 64 {
                    let j = i as u64;
                    assert(j < 64 ==> (((((x & !0x0101010101010101u64) >> 1u64) >> j) & 1u64
                        == 1u64) <==> (j % 8 != 7 && (x >> ((j + 1) as u64)) & 1u64 == 1u64)))
                        by (bit_vector);
                }
            }
        }
        Bitboard((x & !FILE_A) >> 1u64)
    }

    pub fn north_east(self) -> (r: Bitboard)
        ensures
            r.0 == (self.0 & !FILE_H) << 9u64,
            forall|i: int| #[trigger]
                r.has(i) == (9 <= i < 64 && file_of(i) != 0 && self.has(i - 9)),
    {
        let x = self.0;
        proof {
            assert forall|i: int| #[trigger] bit((x & !FILE_H) << 9u64, i) == (9 <= i < 64
                && file_of(i) != 0 && bit(x, i - 9)) by {
                if 0 <= i < 64 {
                    let j = i as u64;
                    assert(j < 64 ==> (((((x & !0x8080808080808080u64) << 9u64) >> j) & 1u64
                        == 1u64) <==> (9 <= j && j % 8 != 0 && (x >> ((j - 9) as u64)) & 1u64
                        == 1u64))) by (bit_vector);
                }
            }
        }
        Bitboard((x & !FILE_H) << 9u64)
    }

    pub fn north_west(self) -> (r: Bitboard)
        ensures
            r.0 == (self.0 & !FILE_A) << 7u64,
            forall|i: int| #[trigger]
                r.has(i) == (7 <= i < 64 && file_of(i) != 7 && self.has(i - 7)),
    {
        let x = self.0;
        proof {
            assert forall|i: int| #[trigger] bit((x & !FILE_A) << 7u64, i) == (7 <= i < 64
                && file_of(i) != 7 && bit(x, i - 7)) by {
                if 0 <= i < 64 {
                    let j = i as u64;
                    assert(j < 64 ==> (((((x & !0x0101010101010101u64) << 7u64) >> j) & 1u64
                        == 1u64) <==> (7 <= j && j % 8 != 7 && (x >> ((j - 7) as u64)) & 1u64
                        == 1u64))) by (bit_vector);
                }
            }
        }
        Bitboard((x & !FILE_A) << 7u64)
    }

    pub fn south_east(self) -> (r: Bitboard)
        ensures
            r.0 == (self.0 & !FILE_H) >> 7u64,
            forall|i: int| #[trigger]
                r.has(i) == (0 <= i < 57 && file_of(i) != 0 && self.has(i + 7)),
    {
        let x = self.0;
        proof {
            assert forall|i: int| #[trigger] bit((x & !FILE_H) >> 7u64, i) == (0 <= i < 57
                && file_of(i) != 0 && bit(x, i + 7)) by {
                if 0 <= i < 64 {
                    let j = i as u64;
                    assert(j < 64 ==> (((((x & !0x8080808080808080u64) >> 7u64) >> j) & 1u64
                        == 1u64) <==> (j < 57 && j % 8 != 0 && (x >> ((j + 7) as u64)) & 1u64
                        == 1u64))) by (bit_vector);
                }
            }
        }
        Bitboard((x & !FILE_H) >> 7u64)
    }

    pub fn south_west(self) -> (r: Bitboard)
        ensures
            r.0 == (self.0 & !FILE_A) >> 9u64,
            forall|i: int| #[trigger]
                r.has(i) == (0 <= i < 55 && file_of(i) != 7 && self.has(i + 9)),
    {
        let x = self.0;
        proof {
            assert forall|i: int| #[trigger] bit((x & !FILE_A) >> 9u64, i) == (0 <= i < 55
                && file_of(i) != 7 && bit(x, i + 9)) by {
                if 0 <= i < 64 {
                    let j = i as u64;
                    assert(j < 64 ==> (((((x & !0x0101010101010101u64) >> 9u64) >> j) & 1u64
                        == 1u64) <==> (j < 55 && j % 8 != 7 && (x >> ((j + 9) as u64)) & 1u64
                        == 1u64))) by (bit_vector);
                }
            }
        }
        Bitboard((x & !FILE_A) >> 9u64)
    }

    /// Set intersection.
    pub fn and(self, other: Bitboard) -> (r: Bitboard)
        ensures
            r.0 == self.0 & other.0,
            forall|i: int| #[trigger] r.has(i) == (self.has(i) && other.has(i)),
    {
        proof {
            lemma_bit_and(self.0, other.0);
        }
        Bitboard(self.0 & other.0)
    }

    /// Set union.
    pub fn or(self, other: Bitboard) -> (r: Bitboard)
        ensures
            r.0 == self.0 | other.0,
            forall|i: int| #[trigger] r.has(i) == (self.has(i) || other.has(i)),
    {
        proof {
            lemma_bit_or(self.0, other.0);
        }
        Bitboard(self.0 | other.0)
    }

    /// Symmetric difference.
    pub fn xor(self, other: Bitboard) -> (r: Bitboard)
        ensures
            r.0 == self.0 ^ other.0,
            forall|i: int| #[trigger] r.has(i) == (self.has(i) != other.has(i)),
    {
        proof {
            lemma_bit_xor(self.0, other.0);
        }
        Bitboard(self.0 ^ other.0)
    }

    /// Complement (all 64 squares not in the set).
    pub fn complement(self) -> (r: Bitboard)
        ensures
            r.0 == !self.0,
            forall|i: int| 0 <= i < 64 ==> #[trigger] r.has(i) == !self.has(i),
    {
        proof {
            lemma_bit_not(self.0);
        }
        Bitboard(!self.0)
    }

    /// The squares of the set in ascending order.
    pub fn squares(self) -> (v: Vec<Square>)
        ensures
            forall|k: int| 0 <= k < v.len() ==> self.has(#[trigger] v@[k]@),
            forall|i: int| #[trigger] self.has(i) ==> exists|k: int| 0 <= k < v.len() && #[trigger] v@[k]@ == i,
            forall|a: int, b: int| 0 <= a < b < v.len() ==> v@[a]@ < v@[b]@,
            v.len() == popcount(self.0),
    {
        let mut v: Vec<Square> = Vec::new();
        let mut rest = self;
        while rest.any()
            invariant
                forall|i: int| #[trigger] rest.has(i) ==> self.has(i),
                forall|k: int| 0 <= k < v.len() ==> self.has(#[trigger] v@[k]@),
                forall|k: int| 0 <= k < v.len() ==> !rest.has(#[trigger] v@[k]@),
                forall|i: int| #[trigger] self.has(i) ==> rest.has(i) || exists|k: int|
                    0 <= k < v.len() && #[trigger] v@[k]@ == i,
                forall|a: int, b: int| 0 <= a < b < v.len() ==> v@[a]@ < v@[b]@,
                forall|k: int, i: int| 0 <= k < v.len() && rest.has(i) ==> v@[k]@ < i,
                v.len() + popcount(rest.0) == popcount(self.0),
            decreases popcount(rest.0),
        {
            let sq = rest.pop_lsb();
            proof {
                assert forall|i: int| #[trigger] self.has(i) implies rest.has(i) || exists|k: int|
                    0 <= k < v.len() + 1 && #[trigger] v@.push(sq)[k]@ == i by {
                    if !rest.has(i) && i == sq@ {
                        assert(v@.push(sq)[v.len() as int]@ == i);
                    }
                    if !rest.has(i) && i != sq@ && exists|k: int| 0 <= k < v.len() && #[trigger] v@[k]@ == i {
                        let k = choose|k: int| 0 <= k < v.len() && #[trigger] v@[k]@ == i;
                        assert(v@.push(sq)[k]@ == i);
                    }
                }
            }
            v.push(sq);
        }
        proof {
            lemma_zero_iff_no_bits(rest.0);
            lemma_bits_below_zero(64);
        }
        v
    }
}

impl Square {
    /// The singleton set holding this square.
    pub fn bb(self) -> (r: Bitboard)
        ensures
            r.0 == 1u64 << (self@ as u64),
            forall|i: int| #[trigger] r.has(i) == (i == self@),
    {
        let i = self.index() as u64;
        proof {
            lemma_bit_single(i);
        }
        Bitboard(1u64 << i)
    }
}

impl core::ops::BitAnd for Bitboard {
    type Output = Bitboard;

    fn bitand(self, rhs: Bitboard) -> (r: Bitboard) {
        Bitboard(self.0 & rhs.0)
    }
}

impl vstd::std_specs::ops::BitAndSpecImpl for Bitboard {
    open spec fn obeys_bitand_spec() -> bool {
        true
    }

    open spec fn bitand_req(self, rhs: Bitboard) -> bool {
        true
    }

    open spec fn bitand_spec(self, rhs: Bitboard) -> Bitboard {
        Bitboard(self.0 & rhs.0)
    }
}

impl core::ops::BitOr for Bitboard {
    type Output = Bitboard;

    fn bitor(self, rhs: Bitboard) -> (r: Bitboard) {
        Bitboard(self.0 | rhs.0)
    }
}

impl vstd::std_specs::ops::BitOrSpecImpl for Bitboard {
    open spec fn obeys_bitor_spec() -> bool {
        true
    }

    open spec fn bitor_req(self, rhs: Bitboard) -> bool {
        true
    }

    open spec fn bitor_spec(self, rhs: Bitboard) -> Bitboard {
        Bitboard(self.0 | rhs.0)
    }
}

impl core::ops::BitXor for Bitboard {
    type Output = Bitboard;

    fn bitxor(self, rhs: Bitboard) -> (r: Bitboard) {
        Bitboard(self.0 ^ rhs.0)
    }
}

impl vstd::std_specs::ops::BitXorSpecImpl for Bitboard {
    open spec fn obeys_bitxor_spec() -> bool {
        true
    }

    open spec fn bitxor_req(self, rhs: Bitboard) -> bool {
        true
    }

    open spec fn bitxor_spec(self, rhs: Bitboard) -> Bitboard {
        Bitboard(self.0 ^ rhs.0)
    }
}

impl core::ops::Not for Bitboard {
    type Output = Bitboard;

    fn not(self) -> (r: Bitboard) {
        Bitboard(!self.0)
    }
}

impl vstd::std_specs::ops::NotSpecImpl for Bitboard {
    open spec fn obeys_not_spec() -> bool {
        true
    }

    open spec fn not_req(self) -> bool {
        true
    }

    open spec fn not_spec(self) -> Bitboard {
        Bitboard(!self.0)
    }
}

} // verus!
