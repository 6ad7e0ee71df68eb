//! Fundamental board types. Square indexing is LERF: a1=0 .. h8=63.
use vstd::prelude::*;

use crate::text::push_char;

verus! {

#[derive(Clone, Copy, PartialEq, Eq, Debug, Hash, Structural)]
pub enum Color {
    White,
    Black,
}

/// 0 for White, 1 for Black.
pub open spec fn color_index(c: Color) -> int {
    match c {
        Color::White => 0,
        Color::Black => 1,
    }
}

pub open spec fn opposite(c: Color) -> Color {
    match c {
        Color::White => Color::Black,
        Color::Black => Color::White,
    }
}

impl Color {
    pub fn flip(self) -> (r: Color)
        ensures
            r == opposite(self),
    {
        match self {
            Color::White => Color::Black,
            Color::Black => Color::White,
        }
    }

    pub fn index(self) -> (r: usize)
        ensures
            r == color_index(self),
    {
        match self {
            Color::White => 0,
            Color::Black => 1,
        }
    }
}

#[derive(Clone, Copy, PartialEq, Eq, Debug, Hash, PartialOrd, Ord, Structural)]
pub enum PieceType {
    Pawn,
    Knight,
    Bishop,
    Rook,
    Queen,
    King,
}

/// Pawn=0, Knight=1, Bishop=2, Rook=3, Queen=4, King=5.
pub open spec fn type_index(pt: PieceType) -> int {
    match pt {
        PieceType::Pawn => 0,
        PieceType::Knight => 1,
        PieceType::Bishop => 2,
        PieceType::Rook => 3,
        PieceType::Queen => 4,
        PieceType::King => 5,
    }
}

/// The piece type with the given index (0..=5; anything else is a king).
pub open spec fn type_of_index(i: int) -> PieceType {
    if i == 0 {
        PieceType::Pawn
    } else if i == 1 {
        PieceType::Knight
    } else if i == 2 {
        PieceType::Bishop
    } else if i == 3 {
        PieceType::Rook
    } else if i == 4 {
        PieceType::Queen
    } else {
        PieceType::King
    }
}

impl PieceType {
    pub fn index(self) -> (r: usize)
        ensures
            r == type_index(self),
            r < 6,
    {
        match self {
            PieceType::Pawn => 0,
            PieceType::Knight => 1,
            PieceType::Bishop => 2,
            PieceType::Rook => 3,
            PieceType::Queen => 4,
            PieceType::King => 5,
        }
    }

    /// All six piece types, in index order.
    pub fn all() -> (r: [PieceType; 6])
        ensures
            forall|i: int| 0 <= i < 6 ==> #[trigger] r@[i] == type_of_index(i),
    {
        [
            PieceType::Pawn,
            PieceType::Knight,
            PieceType::Bishop,
            PieceType::Rook,
            PieceType::Queen,
            PieceType::King,
        ]
    }
}

/// A colored piece. Index layout: white P,N,B,R,Q,K = 0..=5, black = 6..=11.
#[derive(Clone, Copy, PartialEq, Eq, Debug, Hash, Structural)]
pub struct Piece(pub(crate) u8);

/// Index of the piece of color `c` and type `pt`.
pub open spec fn piece_index(c: Color, pt: PieceType) -> int {
    color_index(c) * 6 + type_index(pt)
}

/// Color of the piece with index `i`.
pub open spec fn color_of_index(i: int) -> Color {
    if i < 6 {
        Color::White
    } else {
        Color::Black
    }
}

/// FEN letters of the twelve pieces, in index order.
pub open spec fn piece_chars() -> Seq<char> {
    seq!['P', 'N', 'B', 'R', 'Q', 'K', 'p', 'n', 'b', 'r', 'q', 'k']
}

impl Piece {
    pub open(crate) spec fn view(self) -> int {
        self.0 as int
    }

    #[verifier::type_invariant]
    pub(crate) open spec fn inv(self) -> bool {
        self.0 < 12
    }

    pub open(crate) spec fn spec_color(self) -> Color {
        color_of_index(self@)
    }

    pub open(crate) spec fn spec_type(self) -> PieceType {
        type_of_index(self@ % 6)
    }

    pub fn new(color: Color, pt: PieceType) -> (p: Piece)
        ensures
            p@ == piece_index(color, pt),
            p.spec_color() == color,
            p.spec_type() == pt,
    {
        Piece((color.index() as u8) * 6 + pt.index() as u8)
    }

    /// The piece with index `i` (0..=11).
    pub fn from_index(i: usize) -> (p: Piece)
        requires
            i < 12,
        ensures
            p@ == i,
    {
        Piece(i as u8)
    }

    pub fn color(self) -> (c: Color)
        ensures
            c == self.spec_color(),
    {
        if self.0 < 6 {
            Color::White
        } else {
            Color::Black
        }
    }

    pub fn piece_type(self) -> (pt: PieceType)
        ensures
            pt == self.spec_type(),
    {
        match self.0 % 6 {
            0 => PieceType::Pawn,
            1 => PieceType::Knight,
            2 => PieceType::Bishop,
            3 => PieceType::Rook,
            4 => PieceType::Queen,
            _ => PieceType::King,
        }
    }

    pub fn index(self) -> (r: usize)
        ensures
            r == self@,
            r < 12,
    {
        proof {
            use_type_invariant(&self);
        }
        self.0 as usize
    }

    /// FEN char: uppercase = white, lowercase = black.
    pub fn to_char(self) -> (c: char)
        ensures
            c == piece_chars()[self@],
    {
        proof {
            use_type_invariant(&self);
        }
        let chars = ['P', 'N', 'B', 'R', 'Q', 'K', 'p', 'n', 'b', 'r', 'q', 'k'];
        chars[self.0 as usize]
    }

    /// The piece whose FEN letter is `c`, if any.
    pub fn from_char(c: char) -> (r: Option<Piece>)
        ensures
            r matches Some(p) ==> piece_chars()[p@] == c && 0 <= p@ < 12,
            r is None <==> !piece_chars().contains(c),
    {
        let chars = ['P', 'N', 'B', 'R', 'Q', 'K', 'p', 'n', 'b', 'r', 'q', 'k'];
        let mut i: usize = 0;
        while i < 12
            invariant
                i <= 12,
                chars@ == piece_chars(),
                forall|j: int| 0 <= j < i ==> piece_chars()[j] != c,
            decreases 12 - i,
        {
            if chars[i] == c {
                return Some(Piece(i as u8));
            }
            i += 1;
        }
        proof {
            assert forall|j: int| 0 <= j < piece_chars().len() implies piece_chars()[j] != c by {}
        }
        None
    }
}

#[derive(Clone, Copy, PartialEq, Eq, Debug, Hash, PartialOrd, Ord, Structural)]
pub struct Square(pub(crate) u8);

pub open spec fn file_of(s: int) -> int {
    s % 8
}

pub open spec fn rank_of(s: int) -> int {
    s / 8
}

pub open spec fn square_at(file: int, rank: int) -> int {
    rank * 8 + file
}

pub open spec fn on_board(file: int, rank: int) -> bool {
    0 <= file < 8 && 0 <= rank < 8
}

/// The algebraic name of square `s` ("a1" .. "h8").
pub open spec fn square_name(s: int) -> Seq<char> {
    seq![('a' as int + file_of(s)) as char, ('1' as int + rank_of(s)) as char]
}

impl Square {
    pub open(crate) spec fn view(self) -> int {
        self.0 as int
    }

    #[verifier::type_invariant]
    pub(crate) open spec fn inv(self) -> bool {
        self.0 < 64
    }

    pub fn new(index: u8) -> (s: Square)
        requires
            index < 64,
        ensures
            s@ == index,
    {
        Square(index)
    }

    pub fn from_fr(file: u8, rank: u8) -> (s: Square)
        requires
            file < 8,
            rank < 8,
        ensures
            s@ == square_at(file as int, rank as int),
    {
        Square(rank * 8 + file)
    }

    pub fn index(self) -> (r: usize)
        ensures
            r == self@,
            r < 64,
    {
        proof {
            use_type_invariant(&self);
        }
        self.0 as usize
    }

    pub fn file(self) -> (f: u8)
        ensures
            f == file_of(self@),
            f < 8,
    {
        proof {
            use_type_invariant(&self);
        }
        let x = self.0;
        assert(x & 7 == x % 8) by (bit_vector);
        x & 7
    }

    pub fn rank(self) -> (r: u8)
        ensures
            r == rank_of(self@),
            r < 8,
    {
        proof {
            use_type_invariant(&self);
        }
        let x = self.0;
        assert(x >> 3 == x / 8) by (bit_vector);
        x >> 3
    }

    /// Parses an algebraic square name such as "e4" (lower-case file letter).
    pub fn from_name(name: &str) -> (r: Option<Square>)
        ensures
            r matches Some(s) ==> square_name(s@) == name@,
            r is None <==> !(exists|s: int| 0 <= s < 64 && square_name(s) == name@),
    {
        let b = crate::text::chars_of(name);
        Square::from_chars(&b)
    }

    /// Parses an algebraic square name given as characters.
    pub fn from_chars(b: &Vec<char>) -> (r: Option<Square>)
        ensures
            r matches Some(s) ==> square_name(s@) == b@,
            r is None <==> !(exists|s: int| 0 <= s < 64 && square_name(s) == b@),
    {
        if b.len() != 2 {
            proof {
                assert forall|s: int| 0 <= s < 64 implies square_name(s) != b@ by {
                    assert(square_name(s).len() == 2);
                }
            }
            return None;
        }
        let f = b[0];
        let r = b[1];
        if 'a' <= f && f <= 'h' && '1' <= r && r <= '8' {
            let fi = (f as u32 - 'a' as u32) as u8;
            let ri = (r as u32 - '1' as u32) as u8;
            let s = Square::from_fr(fi, ri);
            proof {
                assert(square_name(s@) =~= b@);
            }
            Some(s)
        } else {
            proof {
                assert forall|s: int| 0 <= s < 64 implies square_name(s) != b@ by {
                    if square_name(s) == b@ {
                        assert(square_name(s)[0] == f);
                        assert(square_name(s)[1] == r);
                    }
                }
            }
            None
        }
    }

    /// Appends the algebraic name of this square to `s`.
    pub fn push_name(&self, s: &mut String)
        ensures
            final(s)@ == old(s)@ + square_name(self@),
    {
        let f = self.file();
        let r = self.rank();
        push_char(s, (97u8 + f) as char);
        push_char(s, (49u8 + r) as char);
        proof {
            assert(s@ =~= old(s)@ + square_name(self@));
        }
    }

    /// Algebraic name, e.g. "e4".
    pub fn to_string(&self) -> (s: String)
        ensures
            s@ == square_name(self@),
    {
        let mut s = String::new();
        self.push_name(&mut s);
        proof {
            assert(s@ =~= square_name(self@));
        }
        s
    }
}

/// Squares used by castling and by the tests.
impl Square {
    pub fn a1() -> (s: Square) ensures s@ == 0 { Square(0) }
    pub fn c1() -> (s: Square) ensures s@ == 2 { Square(2) }
    pub fn d1() -> (s: Square) ensures s@ == 3 { Square(3) }
    pub fn e1() -> (s: Square) ensures s@ == 4 { Square(4) }
    pub fn f1() -> (s: Square) ensures s@ == 5 { Square(5) }
    pub fn g1() -> (s: Square) ensures s@ == 6 { Square(6) }
    pub fn h1() -> (s: Square) ensures s@ == 7 { Square(7) }
    pub fn a8() -> (s: Square) ensures s@ == 56 { Square(56) }
    pub fn c8() -> (s: Square) ensures s@ == 58 { Square(58) }
    pub fn d8() -> (s: Square) ensures s@ == 59 { Square(59) }
    pub fn e8() -> (s: Square) ensures s@ == 60 { Square(60) }
    pub fn f8() -> (s: Square) ensures s@ == 61 { Square(61) }
    pub fn g8() -> (s: Square) ensures s@ == 62 { Square(62) }
    pub fn h8() -> (s: Square) ensures s@ == 63 { Square(63) }
}

/// 4-bit castling rights mask.
#[derive(Clone, Copy, PartialEq, Eq, Debug, Hash, Structural)]
pub struct CastlingRights(pub(crate) u8);

impl CastlingRights {
    pub open(crate) spec fn view(self) -> u8 {
        self.0
    }

    pub fn none() -> (r: CastlingRights) ensures r@ == 0 { CastlingRights(0) }
    pub fn wk() -> (r: CastlingRights) ensures r@ == 1 { CastlingRights(1) }
    pub fn wq() -> (r: CastlingRights) ensures r@ == 2 { CastlingRights(2) }
    pub fn bk() -> (r: CastlingRights) ensures r@ == 4 { CastlingRights(4) }
    pub fn bq() -> (r: CastlingRights) ensures r@ == 8 { CastlingRights(8) }
    pub fn all() -> (r: CastlingRights) ensures r@ == 15 { CastlingRights(0b1111) }

    pub fn bits(self) -> (r: u8)
        ensures
            r == self@,
    {
        self.0
    }

    /// Returns `true` if *any* bit in `rights` is set in `self`.
    pub fn has(self, rights: CastlingRights) -> (r: bool)
        ensures
            r == (self@ & rights@ != 0),
    {
        self.0 & rights.0 != 0
    }

    pub fn remove(&mut self, rights: CastlingRights)
        ensures
            final(self)@ == old(self)@ & !rights@,
    {
        self.0 = self.0 & !rights.0;
    }

    /// rights &= mask (used with the per-square mask table in make()).
    pub fn mask(&mut self, keep: u8)
        ensures
            final(self)@ == old(self)@ & keep,
    {
        self.0 = self.0 & keep;
    }

    /// Union of two sets of rights.
    pub fn union(self, rhs: CastlingRights) -> (r: CastlingRights)
        ensures
            r@ == self@ | rhs@,
    {
        CastlingRights(self.0 | rhs.0)
    }
}

impl core::ops::BitOr for CastlingRights {
    type Output = CastlingRights;

    fn bitor(self, rhs: CastlingRights) -> (r: CastlingRights) {
        CastlingRights(self.0 | rhs.0)
    }
}

impl vstd::std_specs::ops::BitOrSpecImpl for CastlingRights {
    open spec fn obeys_bitor_spec() -> bool {
        true
    }

    open spec fn bitor_req(self, rhs: CastlingRights) -> bool {
        true
    }

    closed spec fn bitor_spec(self, rhs: CastlingRights) -> CastlingRights {
        CastlingRights(self.0 | rhs.0)
    }
}

} // verus!

