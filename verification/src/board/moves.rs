//! 16-bit move encoding: bits 0-5 to, 6-11 from, 12-15 flag.
use vstd::prelude::*;

use crate::board::types::{PieceType, Square, square_name};
use crate::text::push_char;

verus! {

#[derive(Clone, Copy, PartialEq, Eq, Debug, Hash, Structural)]
pub struct Move(pub(crate) u16);

pub open spec fn code_to(c: u16) -> int {
    (c & 0x3Fu16) as int
}

pub open spec fn code_from(c: u16) -> int {
    ((c >> 6u16) & 0x3Fu16) as int
}

pub open spec fn code_flag(c: u16) -> int {
    (c >> 12u16) as int
}

/// Promotion piece type encoded by a promotion flag.
pub open spec fn promo_type_of_flag(flag: int) -> PieceType {
    if flag % 4 == 0 {
        PieceType::Knight
    } else if flag % 4 == 1 {
        PieceType::Bishop
    } else if flag % 4 == 2 {
        PieceType::Rook
    } else {
        PieceType::Queen
    }
}

/// UCI letter of a promotion piece type.
pub open spec fn promo_letter(pt: PieceType) -> char {
    match pt {
        PieceType::Knight => 'n',
        PieceType::Bishop => 'b',
        PieceType::Rook => 'r',
        _ => 'q',
    }
}

pub proof fn lemma_code_parts(c: u16)
    ensures
        0 <= code_to(c) < 64,
        0 <= code_from(c) < 64,
        0 <= code_flag(c) < 16,
{
    assert(c & 0x3Fu16 < 64 && (c >> 6u16) & 0x3Fu16 < 64 && c >> 12u16 < 16) by (bit_vector);
}

/// A move is determined by its origin, target and flag.
pub proof fn lemma_move_eq(a: Move, b: Move)
    requires
        a.spec_from() == b.spec_from(),
        a.spec_to() == b.spec_to(),
        a.spec_flag() == b.spec_flag(),
    ensures
        a == b,
{
    let x = a.0;
    let y = b.0;
    assert(x & 0x3Fu16 == y & 0x3Fu16 && (x >> 6u16) & 0x3Fu16 == (y >> 6u16) & 0x3Fu16 && x
        >> 12u16 == y >> 12u16 ==> x == y) by (bit_vector);
}

impl Move {
    pub const QUIET: u16 = 0;

    pub const DOUBLE_PUSH: u16 = 1;

    pub const KING_CASTLE: u16 = 2;

    pub const QUEEN_CASTLE: u16 = 3;

    pub const CAPTURE: u16 = 4;

    pub const EN_PASSANT: u16 = 5;

    pub const PROMO_N: u16 = 8;

    pub const PROMO_B: u16 = 9;

    pub const PROMO_R: u16 = 10;

    pub const PROMO_Q: u16 = 11;

    pub const PROMO_CAP_N: u16 = 12;

    pub const PROMO_CAP_B: u16 = 13;

    pub const PROMO_CAP_R: u16 = 14;

    pub const PROMO_CAP_Q: u16 = 15;

    pub open(crate) spec fn view(self) -> u16 {
        self.0
    }

    pub open(crate) spec fn spec_to(self) -> int {
        code_to(self.0)
    }

    pub open(crate) spec fn spec_from(self) -> int {
        code_from(self.0)
    }

    pub open(crate) spec fn spec_flag(self) -> int {
        code_flag(self.0)
    }

    pub open(crate) spec fn spec_is_capture(self) -> bool {
        self.spec_flag() >= 4 && (self.spec_flag() - 4) % 8 < 4
    }

    pub open(crate) spec fn spec_is_promotion(self) -> bool {
        self.spec_flag() >= 8
    }

    /// All-zero move; never a legal chess move (a1->a1). Used as a sentinel.
    pub fn null() -> (m: Move)
        ensures
            m@ == 0,
    {
        Move(0)
    }

    pub fn new(from: Square, to: Square, flag: u16) -> (m: Move)
        requires
            flag < 16,
        ensures
            m.spec_to() == to@,
            m.spec_from() == from@,
            m.spec_flag() == flag,
            m@ == to@ + 64 * from@ + 4096 * flag,
    {
        let t = to.index() as u16;
        let f = from.index() as u16;
        let c = t | (f << 6u16) | (flag << 12u16);
        assert(c & 0x3Fu16 == t && (c >> 6u16) & 0x3Fu16 == f && c >> 12u16 == flag && c == t + 64
            * f + 4096 * flag) by (bit_vector)
            requires
                t < 64,
                f < 64,
                flag < 16,
                c == t | (f << 6u16) | (flag << 12u16),
        ;
        Move(c)
    }

    pub fn to(self) -> (s: Square)
        ensures
            s@ == self.spec_to(),
    {
        proof {
            lemma_code_parts(self.0);
        }
        Square::new((self.0 & 0x3Fu16) as u8)
    }

    /// The move's origin square.
    pub fn from(self) -> (s: Square)
        ensures
            s@ == self.spec_from(),
    {
        proof {
            lemma_code_parts(self.0);
        }
        Square::new(((self.0 >> 6u16) & 0x3Fu16) as u8)
    }

    pub fn flag(self) -> (f: u16)
        ensures
            f == self.spec_flag(),
            f < 16,
    {
        proof {
            lemma_code_parts(self.0);
        }
        self.0 >> 12u16
    }

    pub fn is_capture(self) -> (r: bool)
        ensures
            r == self.spec_is_capture(),
    {
        let f = self.flag();
        assert(f < 16 ==> ((f & 4u16 != 0) <==> (f >= 4 && (f - 4) % 8 < 4))) by (bit_vector);
        f & 4 != 0
    }

    pub fn is_promotion(self) -> (r: bool)
        ensures
            r == self.spec_is_promotion(),
    {
        let f = self.flag();
        assert(f < 16 ==> ((f & 8u16 != 0) <==> f >= 8)) by (bit_vector);
        f & 8 != 0
    }

    /// Raw 16-bit encoding (engine-internal: TT storage). Round-trips with
    /// `from_raw`; a raw value from a corrupted/collided TT entry decodes to
    /// SOME move — consumers must validate against generated moves.
    pub fn raw(self) -> (r: u16)
        ensures
            r == self@,
    {
        self.0
    }

    pub fn from_raw(raw: u16) -> (m: Move)
        ensures
            m@ == raw,
    {
        Move(raw)
    }

    /// The promotion piece of a promotion move (flag low bits: N, B, R, Q).
    pub fn promotion_piece_type(self) -> (pt: PieceType)
        ensures
            pt == promo_type_of_flag(self.spec_flag()),
    {
        let f = self.flag();
        assert(f & 3u16 == f % 4) by (bit_vector);
        match f & 3 {
            0 => PieceType::Knight,
            1 => PieceType::Bishop,
            2 => PieceType::Rook,
            _ => PieceType::Queen,
        }
    }

    /// UCI long algebraic: e2e4, e7e8q. Castling as king move (e1g1).
    pub fn to_string(&self) -> (s: String)
        ensures
            s@ == uci_text(*self),
    {
        let mut s = String::new();
        self.from().push_name(&mut s);
        self.to().push_name(&mut s);
        if self.is_promotion() {
            let c = match self.promotion_piece_type() {
                PieceType::Knight => 'n',
                PieceType::Bishop => 'b',
                PieceType::Rook => 'r',
                _ => 'q',
            };
            push_char(&mut s, c);
        }
        proof {
            assert(s@ =~= uci_text(*self));
        }
        s
    }
}

/// UCI text of a move.
pub open spec fn uci_text(m: Move) -> Seq<char> {
    let base = square_name(m.spec_from()) + square_name(m.spec_to());
    if m.spec_is_promotion() {
        base.push(promo_letter(promo_type_of_flag(m.spec_flag())))
    } else {
        base
    }
}

/// Growable move list.
pub struct MoveList {
    pub(crate) moves: Vec<Move>,
}

impl MoveList {
    pub open(crate) spec fn view(&self) -> Seq<Move> {
        self.moves@
    }

    pub fn new() -> (l: MoveList)
        ensures
            l@ == Seq::<Move>::empty(),
    {
        MoveList { moves: Vec::new() }
    }

    pub fn push(&mut self, mv: Move)
        ensures
            final(self)@ == old(self)@.push(mv),
    {
        self.moves.push(mv);
    }

    pub fn len(&self) -> (n: usize)
        ensures
            n == self@.len(),
    {
        self.moves.len()
    }

    pub fn is_empty(&self) -> (r: bool)
        ensures
            r == (self@.len() == 0),
    {
        self.moves.len() == 0
    }

    /// The move at position `i`.
    pub fn get(&self, i: usize) -> (m: Move)
        requires
            i < self@.len(),
        ensures
            m == self@[i as int],
    {
        self.moves[i]
    }

    pub fn as_slice(&self) -> (s: &[Move])
        ensures
            s@ == self@,
    {
        self.moves.as_slice()
    }

    /// Exchanges the moves at positions `i` and `j`.
    pub fn swap(&mut self, i: usize, j: usize)
        requires
            i < old(self)@.len(),
            j < old(self)@.len(),
        ensures
            final(self)@ == old(self)@.update(i as int, old(self)@[j as int]).update(
                j as int,
                old(self)@[i as int],
            ),
    {
        let a = self.moves[i];
        let b = self.moves[j];
        self.moves.set(i, b);
        self.moves.set(j, a);
    }
}

} // verus!
