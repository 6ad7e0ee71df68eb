//! PolyGlot opening books: the PolyGlot key of a position, the 16-byte
//! big-endian entries `{ key: u64, move: u16, weight: u16, learn: u32 }`,
//! and the weighted pick among the book moves of a position.
//!
//! The 781 random numbers the keys are built from come with the book.
use vstd::prelude::*;

use crate::board::movegen::{
    castle_move, castle_right, consistent, find_uci_move, pawn_move, pawns_inside, piece_move,
    pseudo_legal,
};
use crate::board::makemove::{king_home, lemma_castle_squares};
use crate::board::attacks::king_step;
use crate::board::moves::{lemma_code_parts, promo_letter};
use crate::board::position::{holds, state_ok};
use crate::board::types::piece_index;
use crate::board::moves::{promo_type_of_flag, uci_text};
use crate::board::position::PosState;
use crate::board::types::{file_of, square_name, type_index};
use crate::board::{Color, Move, Piece, PieceType, Position, Square};
use crate::text::push_char;

verus! {

/// Size of the PolyGlot random table.
pub const RANDOM_LEN: usize = 781;

/// PolyGlot's piece kind: colours interleaved (Black even, White odd),
/// pawn to king.
pub open spec fn poly_kind(p: Piece) -> int {
    2 * type_index(p.spec_type()) + if p.spec_color() == Color::White {
        1int
    } else {
        0int
    }
}

/// The random number of the piece on square `i` (0 for an empty square).
pub open spec fn piece_term(b: Seq<Option<Piece>>, random: Seq<u64>, i: int) -> u64 {
    match b[i] {
        Some(p) => random[64 * poly_kind(p) + i],
        None => 0,
    }
}

/// XOR of the piece terms of squares `0..n`.
pub open spec fn pieces_key(b: Seq<Option<Piece>>, random: Seq<u64>, n: int) -> u64
    decreases n,
{
    if n <= 0 {
        0
    } else {
        pieces_key(b, random, n - 1) ^ piece_term(b, random, n - 1)
    }
}

/// The PolyGlot key: pieces, then castling rights (768..771), the
/// en-passant file (772..779) when an en-passant square is set, and
/// entry 780 when White is to move.
pub open spec fn poly_key(s: PosState, random: Seq<u64>) -> u64 {
    let k0 = pieces_key(s.board, random, 64);
    let k1 = if s.castling & 1 != 0 { k0 ^ random[768] } else { k0 };
    let k2 = if s.castling & 2 != 0 { k1 ^ random[769] } else { k1 };
    let k3 = if s.castling & 4 != 0 { k2 ^ random[770] } else { k2 };
    let k4 = if s.castling & 8 != 0 { k3 ^ random[771] } else { k3 };
    let k5 = match s.ep {
        Some(e) => k4 ^ random[772 + file_of(e@)],
        None => k4,
    };
    if s.stm == Color::White {
        k5 ^ random[780]
    } else {
        k5
    }
}

/// An optional XOR step commutes with XOR-ing `r` in first.
proof fn lemma_xor_step(x: u64, r: u64, t: u64, b: bool)
    ensures
        (if b { (x ^ r) ^ t } else { x ^ r }) == (if b { x ^ t } else { x }) ^ r,
{
    crate::board::position::lemma_xor(x, r, t, 0, 0);
}

/// The key built on the piece part `k0`: castling rights, en passant and
/// side to move added.
spec fn key_on(k0: u64, s: PosState, random: Seq<u64>) -> u64 {
    let k1 = if s.castling & 1 != 0 { k0 ^ random[768] } else { k0 };
    let k2 = if s.castling & 2 != 0 { k1 ^ random[769] } else { k1 };
    let k3 = if s.castling & 4 != 0 { k2 ^ random[770] } else { k2 };
    let k4 = if s.castling & 8 != 0 { k3 ^ random[771] } else { k3 };
    let k5 = match s.ep {
        Some(sq) => k4 ^ random[772 + file_of(sq@)],
        None => k4,
    };
    if s.stm == Color::White {
        k5 ^ random[780]
    } else {
        k5
    }
}

proof fn lemma_key_on_xor(k0: u64, r: u64, s: PosState, random: Seq<u64>)
    ensures
        key_on(k0 ^ r, s, random) == key_on(k0, s, random) ^ r,
{
    let k1 = if s.castling & 1 != 0 { k0 ^ random[768] } else { k0 };
    let k2 = if s.castling & 2 != 0 { k1 ^ random[769] } else { k1 };
    let k3 = if s.castling & 4 != 0 { k2 ^ random[770] } else { k2 };
    let k4 = if s.castling & 8 != 0 { k3 ^ random[771] } else { k3 };
    lemma_xor_step(k0, r, random[768], s.castling & 1 != 0);
    lemma_xor_step(k1, r, random[769], s.castling & 2 != 0);
    lemma_xor_step(k2, r, random[770], s.castling & 4 != 0);
    lemma_xor_step(k3, r, random[771], s.castling & 8 != 0);
    let k5 = match s.ep {
        Some(sq) => k4 ^ random[772 + file_of(sq@)],
        None => k4,
    };
    match s.ep {
        Some(e) => lemma_xor_step(k4, r, random[772 + file_of(e@)], true),
        None => {},
    }
    lemma_xor_step(k5, r, random[780], s.stm == Color::White);
}

/// Bits of a castling mask after toggling one right.
proof fn lemma_castle_toggle(c: u8)
    by (bit_vector)
    ensures
        (c ^ 1u8) & 1u8 != 0 <==> c & 1u8 == 0,
        (c ^ 1u8) & 2u8 == c & 2u8,
        (c ^ 1u8) & 4u8 == c & 4u8,
        (c ^ 1u8) & 8u8 == c & 8u8,
        (c ^ 2u8) & 2u8 != 0 <==> c & 2u8 == 0,
        (c ^ 2u8) & 1u8 == c & 1u8,
        (c ^ 2u8) & 4u8 == c & 4u8,
        (c ^ 2u8) & 8u8 == c & 8u8,
        (c ^ 4u8) & 4u8 != 0 <==> c & 4u8 == 0,
        (c ^ 4u8) & 1u8 == c & 1u8,
        (c ^ 4u8) & 2u8 == c & 2u8,
        (c ^ 4u8) & 8u8 == c & 8u8,
        (c ^ 8u8) & 8u8 != 0 <==> c & 8u8 == 0,
        (c ^ 8u8) & 1u8 == c & 1u8,
        (c ^ 8u8) & 2u8 == c & 2u8,
        (c ^ 8u8) & 4u8 == c & 4u8,
{
}

/// The piece part of the key after one square changes: the old square's
/// term leaves, the new one enters.
proof fn lemma_pieces_key_update(b: Seq<Option<Piece>>, random: Seq<u64>, i: int, p: Piece, n: int)
    requires
        0 <= i < b.len(),
        n <= b.len(),
    ensures
        pieces_key(b.update(i, Some(p)), random, n) == if i < n {
            pieces_key(b.update(i, None), random, n) ^ random[64 * poly_kind(p) + i]
        } else {
            pieces_key(b.update(i, None), random, n)
        },
    decreases n,
{
    let b1 = b.update(i, Some(p));
    let b0 = b.update(i, None);
    if n > 0 {
        lemma_pieces_key_update(b, random, i, p, n - 1);
        let a1 = pieces_key(b1, random, n - 1);
        let a0 = pieces_key(b0, random, n - 1);
        let t = random[64 * poly_kind(p) + i];
        if n - 1 == i {
            assert(piece_term(b0, random, i) == 0);
            crate::board::position::lemma_xor(a0, t, 0, 0, 0);
        } else {
            assert(piece_term(b1, random, n - 1) == piece_term(b0, random, n - 1));
            if i < n - 1 {
                crate::board::position::lemma_xor(a0, t, piece_term(b0, random, n - 1), 0, 0);
            }
        }
    }
}

/// The en-passant file is part of the key: with an en-passant square set,
/// the key is that of the same position without it, XOR the entry of the
/// square's file.
pub proof fn lemma_poly_key_ep(s: PosState, random: Seq<u64>, e: Square)
    requires
        s.ep == Some(e),
    ensures
        poly_key(s, random) == poly_key(PosState { ep: None, ..s }, random) ^ random[772 + file_of(e@)],
{
    let s0 = PosState { ep: None, ..s };
    let k0 = pieces_key(s.board, random, 64);
    let k1 = if s.castling & 1 != 0 { k0 ^ random[768] } else { k0 };
    let k2 = if s.castling & 2 != 0 { k1 ^ random[769] } else { k1 };
    let k3 = if s.castling & 4 != 0 { k2 ^ random[770] } else { k2 };
    let k4 = if s.castling & 8 != 0 { k3 ^ random[771] } else { k3 };
    lemma_xor_step(k4, random[772 + file_of(e@)], random[780], s.stm == Color::White);
}

/// The side to move is part of the key: White to move is the key of the
/// same position with Black to move, XOR entry 780.
pub proof fn lemma_poly_key_side(s: PosState, random: Seq<u64>)
    ensures
        poly_key(PosState { stm: Color::White, ..s }, random) == poly_key(PosState { stm: Color::Black, ..s }, random)
            ^ random[780],
{
}

/// Each castling right is part of the key: with the right `1 << j` held
/// (White king side, White queen side, Black king side, Black queen side),
/// the key is that of the same position without it, XOR entry `768 + j`.
pub proof fn lemma_poly_key_castling(s: PosState, random: Seq<u64>, j: int)
    requires
        0 <= j < 4,
        s.castling & (if j == 0 { 1u8 } else if j == 1 { 2u8 } else if j == 2 { 4u8 } else { 8u8 }) != 0,
    ensures
        poly_key(s, random) == poly_key(
            PosState {
                castling: s.castling ^ (if j == 0 { 1u8 } else if j == 1 { 2u8 } else if j == 2 { 4u8 } else { 8u8 }),
                ..s
            },
            random,
        ) ^ random[768 + j],
{
    let m: u8 = if j == 0 { 1u8 } else if j == 1 { 2u8 } else if j == 2 { 4u8 } else { 8u8 };
    let c = s.castling;
    let s2 = PosState { castling: c ^ m, ..s };
    lemma_castle_toggle(c);
    let k0 = pieces_key(s.board, random, 64);
    let r = random[768 + j];
    assert(poly_key(s, random) == key_on(k0, s, random));
    assert(poly_key(s2, random) == key_on(k0, s2, random));
    // the step of right j moves to the end of the chain
    let k1 = if c & 1 != 0 { k0 ^ random[768] } else { k0 };
    let k2 = if c & 2 != 0 { k1 ^ random[769] } else { k1 };
    let k3 = if c & 4 != 0 { k2 ^ random[770] } else { k2 };
    let k1b = if (c ^ m) & 1 != 0 { k0 ^ random[768] } else { k0 };
    let k2b = if (c ^ m) & 2 != 0 { k1b ^ random[769] } else { k1b };
    let k3b = if (c ^ m) & 4 != 0 { k2b ^ random[770] } else { k2b };
    if j == 0 {
        assert(k1 == k1b ^ r);
        lemma_xor_step(k1b, r, random[769], c & 2 != 0);
        lemma_xor_step(k2b, r, random[770], c & 4 != 0);
        lemma_xor_step(k3b, r, random[771], c & 8 != 0);
    } else if j == 1 {
        assert(k2 == k2b ^ r);
        lemma_xor_step(k2b, r, random[770], c & 4 != 0);
        lemma_xor_step(k3b, r, random[771], c & 8 != 0);
    } else if j == 2 {
        assert(k3 == k3b ^ r);
        lemma_xor_step(k3b, r, random[771], c & 8 != 0);
    }
    let k4 = if c & 8 != 0 { k3 ^ random[771] } else { k3 };
    let k4b = if (c ^ m) & 8 != 0 { k3b ^ random[771] } else { k3b };
    assert(k4 == k4b ^ r);
    let k5b = match s.ep {
        Some(sq) => k4b ^ random[772 + file_of(sq@)],
        None => k4b,
    };
    match s.ep {
        Some(e) => lemma_xor_step(k4b, r, random[772 + file_of(e@)], true),
        None => {},
    }
    lemma_xor_step(k5b, r, random[780], s.stm == Color::White);
}

/// Each piece is part of the key: a piece `p` on square `i` adds the entry
/// `64 * kind(p) + i` to the key of the same position with `i` empty.
pub proof fn lemma_poly_key_piece(s: PosState, random: Seq<u64>, i: int, p: Piece)
    requires
        0 <= i < 64,
        s.board.len() == 64,
    ensures
        poly_key(PosState { board: s.board.update(i, Some(p)), ..s }, random) == poly_key(
            PosState { board: s.board.update(i, None), ..s },
            random,
        ) ^ random[64 * poly_kind(p) + i],
{
    let s1 = PosState { board: s.board.update(i, Some(p)), ..s };
    let s0 = PosState { board: s.board.update(i, None), ..s };
    lemma_pieces_key_update(s.board, random, i, p, 64);
    let k0 = pieces_key(s0.board, random, 64);
    assert(poly_key(s1, random) == key_on(pieces_key(s1.board, random, 64), s, random));
    assert(poly_key(s0, random) == key_on(k0, s, random));
    lemma_key_on_xor(k0, random[64 * poly_kind(p) + i], s, random);
}

fn polyglot_kind(p: Piece) -> (r: usize)
    ensures
        r == poly_kind(p),
        r < 12,
{
    let base: usize = match p.piece_type() {
        PieceType::Pawn => 0,
        PieceType::Knight => 2,
        PieceType::Bishop => 4,
        PieceType::Rook => 6,
        PieceType::Queen => 8,
        PieceType::King => 10,
    };
    match p.color() {
        Color::White => base + 1,
        Color::Black => base,
    }
}

/// The PolyGlot key of `pos` under the table `random`.
pub fn polyglot_key(pos: &Position, random: &[u64; 781]) -> (k: u64)
    requires
        pos.wf(),
    ensures
        k == poly_key(pos.state(), random@),
{
    proof {
        pos.lemma_wf_boards();
    }
    let ghost b = pos.state().board;
    let mut key: u64 = 0;
    let mut i: u8 = 0;
    while i < 64
        invariant
            i <= 64,
            b == pos.state().board,
            b.len() == 64,
            random@.len() == 781,
            key == pieces_key(b, random@, i as int),
        decreases 64 - i,
    {
        let sq = Square::new(i);
        match pos.piece_on(sq) {
            Some(p) => {
                let kind = polyglot_kind(p);
                key = key ^ random[64 * kind + i as usize];
            },
            None => {
                key = key ^ 0;
            },
        }
        i += 1;
    }
    let c = pos.castling().bits();
    if c & 1 != 0 {
        key = key ^ random[768];
    }
    if c & 2 != 0 {
        key = key ^ random[769];
    }
    if c & 4 != 0 {
        key = key ^ random[770];
    }
    if c & 8 != 0 {
        key = key ^ random[771];
    }
    match pos.ep() {
        Some(e) => {
            key = key ^ random[772 + e.file() as usize];
        },
        None => {},
    }
    match pos.stm() {
        Color::White => {
            key = key ^ random[780];
        },
        Color::Black => {},
    }
    key
}

/// One book entry (the learn field is not kept).
#[derive(Clone, Copy)]
pub struct BookEntry {
    pub key: u64,
    pub mv: u16,
    pub weight: u16,
}

/// Why raw bytes are not a book.
#[derive(Clone, Copy, Debug, PartialEq, Eq, Structural)]
pub enum BookError {
    /// The size is not a multiple of 16 bytes.
    Truncated,
}

/// Big-endian value of `n` bytes of `s` starting at `o`.
pub open spec fn be_value(s: Seq<u8>, o: int, n: nat) -> nat
    decreases n,
{
    if n == 0 {
        0
    } else {
        be_value(s, o, (n - 1) as nat) * 256 + s[o + n - 1] as nat
    }
}

/// The entry stored at byte offset `o`.
pub open spec fn entry_at(s: Seq<u8>, o: int) -> BookEntry {
    BookEntry {
        key: be_value(s, o, 8) as u64,
        mv: be_value(s, o + 8, 2) as u16,
        weight: be_value(s, o + 10, 2) as u16,
    }
}

/// The entries of a book file, in file order.
pub open spec fn parse_entries(s: Seq<u8>) -> Seq<BookEntry> {
    Seq::new(s.len() / 16, |i: int| entry_at(s, 16 * i))
}

proof fn lemma_be_bound(s: Seq<u8>, o: int, n: nat)
    requires
        0 <= o,
        o + n <= s.len(),
    ensures
        be_value(s, o, n) < pow256(n),
    decreases n,
{
    if n > 0 {
        lemma_be_bound(s, o, (n - 1) as nat);
        let v = be_value(s, o, (n - 1) as nat);
        let p = pow256((n - 1) as nat);
        let x = s[o + n - 1] as nat;
        assert(v * 256 + x < p * 256) by (nonlinear_arith)
            requires
                v < p,
                x < 256,
        ;
    }
}

pub open spec fn pow256(n: nat) -> nat
    decreases n,
{
    if n == 0 {
        1
    } else {
        pow256((n - 1) as nat) * 256
    }
}

/// Big-endian unsigned value of `n` (at most 8) bytes.
fn read_be(bytes: &[u8], o: usize, n: usize) -> (r: u64)
    requires
        n <= 8,
        o + n <= bytes@.len(),
    ensures
        r == be_value(bytes@, o as int, n as nat),
{
    let len = bytes.len();
    let mut acc: u64 = 0;
    let mut k: usize = 0;
    while k < n
        invariant
            k <= n <= 8,
            len == bytes@.len(),
            o + n <= bytes@.len(),
            acc == be_value(bytes@, o as int, k as nat),
        decreases n - k,
    {
        proof {
            lemma_be_bound(bytes@, o as int, k as nat);
            assert(pow256(k as nat) <= pow256(7)) by {
                lemma_pow256_mono(k as nat, 7);
            }
            assert(pow256(7) == 0x100000000000000) by {
                reveal_with_fuel(pow256, 8);
            }
        }
        acc = acc * 256 + bytes[o + k] as u64;
        k += 1;
    }
    acc
}

proof fn lemma_pow256_mono(a: nat, b: nat)
    requires
        a <= b,
    ensures
        pow256(a) <= pow256(b),
    decreases b,
{
    if a < b {
        lemma_pow256_mono(a, (b - 1) as nat);
    }
}

/// A PolyGlot book: its entries in file order and its random table.
pub struct Book {
    entries: Vec<BookEntry>,
    random: [u64; 781],
}

impl Book {
    pub closed spec fn entries(&self) -> Seq<BookEntry> {
        self.entries@
    }

    pub closed spec fn table(&self) -> Seq<u64> {
        self.random@
    }

    /// Parses raw book bytes; a size that is not a multiple of 16 is
    /// refused.
    pub fn from_bytes(bytes: &[u8], random: [u64; 781]) -> (r: Result<Book, BookError>)
        ensures
            r is Err <==> bytes@.len() % 16 != 0,
            r matches Ok(b) ==> b.entries() == parse_entries(bytes@) && b.table() == random@,
    {
        if bytes.len() % 16 != 0 {
            return Err(BookError::Truncated);
        }
        let len = bytes.len();
        let n = len / 16;
        let mut entries: Vec<BookEntry> = Vec::new();
        let mut i: usize = 0;
        while i < n
            invariant
                i <= n,
                len == bytes@.len(),
                n == bytes@.len() / 16,
                bytes@.len() % 16 == 0,
                entries@.len() == i,
                forall|j: int| 0 <= j < i ==> #[trigger] entries@[j] == entry_at(bytes@, 16 * j),
            decreases n - i,
        {
            assert(16 * i + 16 <= bytes@.len()) by (nonlinear_arith)
                requires
                    i < n,
                    n == bytes@.len() / 16,
                    bytes@.len() % 16 == 0,
            ;
            let o = 16 * i;
            let key = read_be(bytes, o, 8);
            let mv = read_be(bytes, o + 8, 2);
            let weight = read_be(bytes, o + 10, 2);
            proof {
                lemma_be_bound(bytes@, o + 8, 2);
                lemma_be_bound(bytes@, o + 10, 2);
                assert(pow256(2) == 65536) by {
                    reveal_with_fuel(pow256, 3);
                }
            }
            entries.push(BookEntry { key, mv: mv as u16, weight: weight as u16 });
            i += 1;
        }
        proof {
            assert(entries@ =~= parse_entries(bytes@));
        }
        Ok(Book { entries, random })
    }

    /// Number of entries.
    pub fn len(&self) -> (n: usize)
        ensures
            n == self.entries().len(),
    {
        self.entries.len()
    }

    /// Whether the book has no entries.
    pub fn is_empty(&self) -> (r: bool)
        ensures
            r == (self.entries().len() == 0),
    {
        self.entries.len() == 0
    }
}

/// Parts of a PolyGlot move: to-file bits 0..3, to-row 3..6, from-file
/// 6..9, from-row 9..12, promotion 12..15.
pub open spec fn raw_to(raw: u16) -> int {
    (raw % 8) + 8 * ((raw / 8) % 8)
}

pub open spec fn raw_from(raw: u16) -> int {
    ((raw / 64) % 8) + 8 * ((raw / 512) % 8)
}

pub open spec fn raw_promo(raw: u16) -> int {
    ((raw / 4096) % 8) as int
}

/// PolyGlot writes castling as the king taking its own rook; the target
/// becomes the king's square (e1g1, e1c1, e8g8, e8c8) when a king stands on
/// `from`.
pub open spec fn castle_target(b: Seq<Option<Piece>>, from: int, to: int) -> int {
    if b[from] matches Some(p) && p.spec_type() == PieceType::King {
        if from == 4 && to == 7 {
            6
        } else if from == 4 && to == 0 {
            2
        } else if from == 60 && to == 63 {
            62
        } else if from == 60 && to == 56 {
            58
        } else {
            to
        }
    } else {
        to
    }
}

pub open spec fn promo_char(promo: int) -> char {
    if promo == 1 {
        'n'
    } else if promo == 2 {
        'b'
    } else if promo == 3 {
        'r'
    } else {
        'q'
    }
}

/// The UCI text a PolyGlot move stands for on board `b`.
pub open spec fn entry_text(b: Seq<Option<Piece>>, raw: u16) -> Seq<char> {
    let base = square_name(raw_from(raw)) + square_name(castle_target(b, raw_from(raw), raw_to(raw)));
    if raw_promo(raw) == 0 {
        base
    } else {
        base.push(promo_char(raw_promo(raw)))
    }
}

/// Whether a PolyGlot move names a pseudo-legal move of `s` (the all-zero
/// move and promotion codes above 4 name none).
pub open spec fn decodable(s: PosState, raw: u16) -> bool {
    &&& raw != 0
    &&& raw_promo(raw) <= 4
    &&& exists|m: Move| pseudo_legal(s, m) && uci_text(m) == entry_text(s.board, raw)
}

fn translate_castle_target(pos: &Position, from: Square, to: Square) -> (r: Square)
    requires
        pos.wf(),
    ensures
        r@ == castle_target(pos.state().board, from@, to@),
{
    proof {
        pos.lemma_wf_boards();
    }
    let is_king = match pos.piece_on(from) {
        Some(p) => match p.piece_type() {
            PieceType::King => true,
            _ => false,
        },
        None => false,
    };
    if !is_king {
        return to;
    }
    let f = from.index();
    let t = to.index();
    if f == 4 && t == 7 {
        Square::new(6)
    } else if f == 4 && t == 0 {
        Square::new(2)
    } else if f == 60 && t == 63 {
        Square::new(62)
    } else if f == 60 && t == 56 {
        Square::new(58)
    } else {
        to
    }
}

/// The pseudo-legal move a PolyGlot move stands for in `pos`, if any.
fn decode_move(pos: &Position, raw: u16) -> (r: Option<Move>)
    requires
        pos.wf(),
        pawns_inside(pos.state().board),
    ensures
        r is Some <==> decodable(pos.state(), raw),
        r matches Some(m) ==> pseudo_legal(pos.state(), m) && uci_text(m) == entry_text(pos.state().board, raw),
{
    if raw == 0 {
        return None;
    }
    let to_file = (raw % 8) as u8;
    let to_row = ((raw / 8) % 8) as u8;
    let from_file = ((raw / 64) % 8) as u8;
    let from_row = ((raw / 512) % 8) as u8;
    let promo = (raw / 4096) % 8;
    let from = Square::from_fr(from_file, from_row);
    let to0 = Square::from_fr(to_file, to_row);
    let to = translate_castle_target(pos, from, to0);
    let mut uci = String::new();
    from.push_name(&mut uci);
    to.push_name(&mut uci);
    if promo != 0 {
        let c = if promo == 1 {
            'n'
        } else if promo == 2 {
            'b'
        } else if promo == 3 {
            'r'
        } else if promo == 4 {
            'q'
        } else {
            return None;
        };
        push_char(&mut uci, c);
    }
    proof {
        assert(uci@ =~= entry_text(pos.state().board, raw));
    }
    let r = find_uci_move(pos, uci.as_str());
    proof {
        if r is None {
            assert(!decodable(pos.state(), raw));
        }
    }
    r
}

/// Weight of an entry; a zero weight counts as 1 so the move stays
/// reachable.
pub open spec fn weight_of(e: BookEntry) -> nat {
    if e.weight == 0 {
        1
    } else {
        e.weight as nat
    }
}

/// The entries of `es` that carry `key` and name a move of `s`, in order.
pub open spec fn matching(s: PosState, key: u64, es: Seq<BookEntry>) -> Seq<BookEntry>
    decreases es.len(),
{
    if es.len() == 0 {
        Seq::empty()
    } else {
        let m = matching(s, key, es.drop_last());
        let e = es.last();
        if e.key == key && decodable(s, e.mv) {
            m.push(e)
        } else {
            m
        }
    }
}

/// Sum of the weights of `c`.
pub open spec fn total_weight(c: Seq<BookEntry>) -> nat
    decreases c.len(),
{
    if c.len() == 0 {
        0
    } else {
        weight_of(c[0]) + total_weight(c.skip(1))
    }
}

/// Index of the entry whose cumulative weight band holds the draw `d`.
pub open spec fn band_index(c: Seq<BookEntry>, d: int) -> int
    decreases c.len(),
{
    if c.len() == 0 {
        0
    } else if d < weight_of(c[0]) {
        0
    } else {
        1 + band_index(c.skip(1), d - weight_of(c[0]))
    }
}

/// Marsaglia's xorshift64.
pub open spec fn xorshift(x: u64) -> u64 {
    let a = x ^ (x << 13u64);
    let b = a ^ (a >> 7u64);
    b ^ (b << 17u64)
}

fn xorshift64(x: u64) -> (r: u64)
    ensures
        r == xorshift(x),
{
    let a = x ^ (x << 13u64);
    let b = a ^ (a >> 7u64);
    b ^ (b << 17u64)
}

/// The draw of a pick: the xorshift of `rng_key | 1`, reduced modulo the
/// total weight.
pub open spec fn book_draw(rng_key: u64, total: nat) -> int {
    (xorshift(rng_key | 1) as int) % (total as int)
}

/// The book moves of a position are exactly the entries, in file order,
/// that carry its key and name one of its moves: every such entry is
/// among them (as often as it occurs), and nothing else is.
pub proof fn lemma_matching_members(s: PosState, key: u64, es: Seq<BookEntry>)
    ensures
        forall|e: BookEntry| #[trigger] matching(s, key, es).contains(e) ==> es.contains(e) && e.key == key && decodable(s, e.mv),
        forall|i: int| 0 <= i < es.len() && es[i].key == key && decodable(s, es[i].mv) ==> #[trigger] matching(
            s,
            key,
            es,
        ).contains(es[i]),
        matching(s, key, es).len() <= es.len(),
    decreases es.len(),
{
    if es.len() > 0 {
        let p = es.drop_last();
        lemma_matching_members(s, key, p);
        let m = matching(s, key, p);
        assert forall|e: BookEntry| #[trigger] matching(s, key, es).contains(e) implies es.contains(e) && e.key == key
            && decodable(s, e.mv) by {
            if m.contains(e) {
                let j = choose|j: int| 0 <= j < p.len() && p[j] == e;
                assert(es[j] == e);
            } else {
                assert(e == es.last());
                assert(es[es.len() - 1] == e);
            }
        }
        assert forall|i: int| 0 <= i < es.len() && es[i].key == key && decodable(s, es[i].mv) implies #[trigger] matching(
            s,
            key,
            es,
        ).contains(es[i]) by {
            if i < es.len() - 1 {
                assert(p[i] == es[i]);
                assert(m.contains(p[i]));
                let j = choose|j: int| 0 <= j < m.len() && m[j] == p[i];
                if es.last().key == key && decodable(s, es.last().mv) {
                    assert(m.push(es.last())[j] == es[i]);
                }
            } else {
                assert(matching(s, key, es) == m.push(es.last()));
                assert(m.push(es.last())[m.len() as int] == es[i]);
            }
        }
    }
}

/// The weight of the first `i` entries.
pub open spec fn weight_before(c: Seq<BookEntry>, i: int) -> nat {
    total_weight(c.take(i))
}

/// A draw below the total weight falls in exactly one entry's band: the
/// entry `band_index` names is the one whose cumulative weights before and
/// through it bracket the draw. Every entry's band is at least one wide.
pub proof fn lemma_band_index(c: Seq<BookEntry>, d: int)
    requires
        0 <= d < total_weight(c),
    ensures
        0 <= band_index(c, d) < c.len(),
        weight_before(c, band_index(c, d)) <= d < weight_before(c, band_index(c, d)) + weight_of(
            c[band_index(c, d)],
        ),
    decreases c.len(),
{
    if c.len() > 0 {
        let w = weight_of(c[0]);
        assert(c.take(0) =~= Seq::<BookEntry>::empty());
        assert(total_weight(Seq::<BookEntry>::empty()) == 0);
        if d >= w {
            let t = c.skip(1);
            lemma_band_index(t, d - w);
            let j = band_index(t, d - w);
            assert(c.take(j + 1).skip(1) =~= t.take(j));
            assert(c.take(j + 1)[0] == c[0]);
            assert(c.take(j + 1).len() > 0);
            assert(t[j] == c[j + 1]);
        }
    } else {
        assert(total_weight(c) == 0);
    }
}

/// A pick's draw lies below the total weight.
pub proof fn lemma_book_draw_range(rng_key: u64, total: nat)
    requires
        total > 0,
    ensures
        0 <= book_draw(rng_key, total) < total,
{
}

proof fn lemma_total_push(c: Seq<BookEntry>, e: BookEntry)
    ensures
        total_weight(c.push(e)) == total_weight(c) + weight_of(e),
    decreases c.len(),
{
    if c.len() > 0 {
        assert(c.push(e).skip(1) =~= c.skip(1).push(e));
        lemma_total_push(c.skip(1), e);
        assert(c.push(e)[0] == c[0]);
    } else {
        assert(c.push(e).skip(1) =~= Seq::<BookEntry>::empty());
        assert(total_weight(Seq::<BookEntry>::empty()) == 0);
        assert(c.push(e)[0] == e);
    }
}

proof fn lemma_skip_step(c: Seq<BookEntry>, j: int)
    requires
        0 <= j < c.len(),
    ensures
        c.skip(j).skip(1) =~= c.skip(j + 1),
        c.skip(j)[0] == c[j],
        total_weight(c.skip(j)) == weight_of(c[j]) + total_weight(c.skip(j + 1)),
{
    assert(c.skip(j).skip(1) =~= c.skip(j + 1));
}

/// PolyGlot's code of promotion piece type `pt` (knight 1 .. queen 4).
pub open spec fn promo_code(pt: PieceType) -> int {
    match pt {
        PieceType::Knight => 1,
        PieceType::Bishop => 2,
        PieceType::Rook => 3,
        _ => 4,
    }
}

/// The PolyGlot code of move `m` made by the side to move of `s`: castling
/// is written as the king taking its own rook.
pub open spec fn poly_move(s: PosState, m: Move) -> int {
    let to = if m.spec_flag() == 2 {
        if s.stm == Color::White { 7int } else { 63int }
    } else if m.spec_flag() == 3 {
        if s.stm == Color::White { 0int } else { 56int }
    } else {
        m.spec_to()
    };
    let promo = if m.spec_is_promotion() {
        promo_code(promo_type_of_flag(m.spec_flag()))
    } else {
        0
    };
    to + 64 * m.spec_from() + 4096 * promo
}

/// The PolyGlot code of `mv`, a move of the side to move of `pos`.
pub fn encode_polyglot_move(pos: &Position, mv: Move) -> (r: u16)
    ensures
        r == poly_move(pos.state(), mv),
{
    let from = mv.from();
    let flag = mv.flag();
    let to: usize = if flag == Move::KING_CASTLE {
        match pos.stm() {
            Color::White => 7,
            Color::Black => 63,
        }
    } else if flag == Move::QUEEN_CASTLE {
        match pos.stm() {
            Color::White => 0,
            Color::Black => 56,
        }
    } else {
        mv.to().index()
    };
    let promo: usize = if mv.is_promotion() {
        match mv.promotion_piece_type() {
            PieceType::Knight => 1,
            PieceType::Bishop => 2,
            PieceType::Rook => 3,
            _ => 4,
        }
    } else {
        0
    };
    (to + 64 * from.index() + 4096 * promo) as u16
}

proof fn lemma_raw_parts(to: int, from: int, promo: int)
    requires
        0 <= to < 64,
        0 <= from < 64,
        0 <= promo < 8,
    ensures
        raw_to((to + 64 * from + 4096 * promo) as u16) == to,
        raw_from((to + 64 * from + 4096 * promo) as u16) == from,
        raw_promo((to + 64 * from + 4096 * promo) as u16) == promo,
{
    let raw = to + 64 * from + 4096 * promo;
    assert(0 <= raw < 65536);
    assert((raw as u16) as int == raw);
    assert(raw % 8 == to % 8 && (raw / 8) % 8 == to / 8) by (nonlinear_arith)
        requires
            raw == to + 64 * from + 4096 * promo,
            0 <= to < 64,
            0 <= from < 64,
            0 <= promo < 8,
    ;
    assert((raw / 64) % 8 == from % 8 && (raw / 512) % 8 == from / 8) by (nonlinear_arith)
        requires
            raw == to + 64 * from + 4096 * promo,
            0 <= to < 64,
            0 <= from < 64,
            0 <= promo < 8,
    ;
    assert((raw / 4096) % 8 == promo) by (nonlinear_arith)
        requires
            raw == to + 64 * from + 4096 * promo,
            0 <= to < 64,
            0 <= from < 64,
            0 <= promo < 8,
    ;
}

/// Reading back the PolyGlot code of a move of a position that can arise
/// in play names that very move: writing castling as the king taking its
/// own rook is undone by the reader, and every other move passes through.
pub proof fn lemma_polyglot_move_round_trip(s: PosState, m: Move)
    requires
        state_ok(s),
        consistent(s),
        pseudo_legal(s, m),
    ensures
        0 <= poly_move(s, m) < 65536,
        entry_text(s.board, poly_move(s, m) as u16) == uci_text(m),
{
    reveal(pseudo_legal);
    reveal(consistent);
    lemma_code_parts(m@);
    let b = s.board;
    let f = m.spec_from();
    let t = m.spec_to();
    let fl = m.spec_flag();
    let to = if fl == 2 {
        if s.stm == Color::White { 7int } else { 63int }
    } else if fl == 3 {
        if s.stm == Color::White { 0int } else { 56int }
    } else {
        t
    };
    let promo = if m.spec_is_promotion() {
        promo_code(promo_type_of_flag(fl))
    } else {
        0
    };
    lemma_raw_parts(to, f, promo);
    let raw = poly_move(s, m) as u16;
    assert(raw_from(raw) == f);
    assert(raw_to(raw) == to);
    assert(raw_promo(raw) == promo);
    // the reader's castling rewrite gives back the move's target
    if castle_move(s, m) {
        let c = s.stm;
        let ks = fl == 2;
        assert(s.castling & castle_right(c, ks) != 0);
        assert(holds(b, king_home(c), piece_index(c, PieceType::King)));
        lemma_castle_squares(c, ks);
        assert(b[f] matches Some(p) && p.spec_type() == PieceType::King);
        assert(castle_target(b, f, to) == t);
    } else if piece_move(s, m) {
        assert(fl == 0 || fl == 4);
        let p = b[f]->0;
        if p@ % 6 == 5 {
            assert(king_step(f, t));
            assert(castle_target(b, f, to) == t);
        } else {
            assert(p.spec_type() != PieceType::King);
        }
    } else {
        assert(pawn_move(s, m));
        assert(b[f] matches Some(p) && p@ % 6 == 0);
        assert(castle_target(b, f, to) == t);
    }
    assert(castle_target(b, f, to) == t);
    if m.spec_is_promotion() {
        let pt = promo_type_of_flag(fl);
        assert(promo_char(promo_code(pt)) == promo_letter(pt));
    }
    assert(entry_text(b, raw) =~= uci_text(m));
}

impl Book {
    /// The book moves of `pos`: the entries carrying its PolyGlot key whose
    /// move names a move of `pos`, in file order.
    pub open spec fn candidates(&self, s: PosState) -> Seq<BookEntry> {
        matching(s, poly_key(s, self.table()), self.entries())
    }

    /// A book move for `pos`, or `None` when the position has none. Among
    /// the candidates, the one whose cumulative weight band holds the draw
    /// made from `rng_key` is played.
    pub fn pick(&self, pos: &Position, rng_key: u64) -> (r: Option<Move>)
        requires
            pos.wf(),
            pawns_inside(pos.state().board),
        ensures
            r is None <==> self.candidates(pos.state()).len() == 0,
            r matches Some(m) ==> {
                let c = self.candidates(pos.state());
                &&& pseudo_legal(pos.state(), m)
                &&& uci_text(m) == entry_text(
                    pos.state().board,
                    c[band_index(c, book_draw(rng_key, total_weight(c)))].mv,
                )
            },
    {
        let ghost s = pos.state();
        let key = polyglot_key(pos, &self.random);
        let mut moves: Vec<Move> = Vec::new();
        let mut weights: Vec<u64> = Vec::new();
        let ghost mut c: Seq<BookEntry> = Seq::empty();
        let mut total: u128 = 0;
        let mut i: usize = 0;
        while i < self.entries.len()
            invariant
                i <= self.entries@.len(),
                s == pos.state(),
                pos.wf(),
                pawns_inside(s.board),
                key == poly_key(s, self.random@),
                c == matching(s, key, self.entries@.take(i as int)),
                moves@.len() == c.len(),
                weights@.len() == c.len(),
                c.len() <= i,
                total == total_weight(c),
                total <= 65536 * i,
                forall|k: int|
                    0 <= k < c.len() ==> pseudo_legal(s, #[trigger] moves@[k]) && uci_text(moves@[k])
                        == entry_text(s.board, c[k].mv),
                forall|k: int| 0 <= k < c.len() ==> #[trigger] weights@[k] == weight_of(c[k]),
            decreases self.entries@.len() - i,
        {
            let e = self.entries[i];
            proof {
                assert(self.entries@.take(i + 1).drop_last() =~= self.entries@.take(i as int));
                assert(self.entries@.take(i + 1).last() == e);
            }
            if e.key == key {
                match decode_move(pos, e.mv) {
                    Some(mv) => {
                        let w: u64 = if e.weight == 0 {
                            1
                        } else {
                            e.weight as u64
                        };
                        let ghost old_moves = moves@;
                        let ghost old_weights = weights@;
                        moves.push(mv);
                        weights.push(w);
                        proof {
                            lemma_total_push(c, e);
                            let ghost old_c = c;
                            c = c.push(e);
                            assert forall|k: int| 0 <= k < c.len() implies pseudo_legal(s, #[trigger] moves@[k])
                                && uci_text(moves@[k]) == entry_text(s.board, c[k].mv) by {
                                if k < old_c.len() {
                                    assert(c[k] == old_c[k]);
                                    assert(moves@[k] == old_moves[k]);
                                } else {
                                    assert(c[k] == e);
                                    assert(moves@[k] == mv);
                                }
                            }
                            assert forall|k: int| 0 <= k < c.len() implies #[trigger] weights@[k] == weight_of(c[k]) by {
                                if k < old_c.len() {
                                    assert(c[k] == old_c[k]);
                                    assert(weights@[k] == old_weights[k]);
                                } else {
                                    assert(c[k] == e);
                                    assert(weights@[k] == w);
                                }
                            }
                        }
                        total = total + w as u128;
                    },
                    None => {},
                }
            }
            i += 1;
        }
        proof {
            assert(self.entries@.take(self.entries@.len() as int) =~= self.entries@);
            assert(c == self.candidates(s));
        }
        if moves.len() == 0 {
            return None;
        }
        let state = xorshift64(rng_key | 1);
        let mut cur: u128 = state as u128 % total;
        let ghost d = cur as int;
        proof {
            assert(c.skip(0) =~= c);
        }
        let mut j: usize = 0;
        while j < moves.len()
            invariant
                j <= moves@.len(),
                moves@.len() == c.len(),
                weights@.len() == c.len(),
                cur < total_weight(c.skip(j as int)),
                c == self.candidates(s),
                s == pos.state(),
                d == book_draw(rng_key, total_weight(c)),
                band_index(c, d) == j + band_index(c.skip(j as int), cur as int),
                forall|k: int|
                    0 <= k < c.len() ==> pseudo_legal(s, #[trigger] moves@[k]) && uci_text(moves@[k])
                        == entry_text(s.board, c[k].mv),
                forall|k: int| 0 <= k < c.len() ==> #[trigger] weights@[k] == weight_of(c[k]),
            decreases moves@.len() - j,
        {
            proof {
                lemma_skip_step(c, j as int);
            }
            let w = weights[j];
            assert(w == weight_of(c[j as int]));
            if cur < w as u128 {
                proof {
                    assert(band_index(c.skip(j as int), cur as int) == 0);
                }
                return Some(moves[j]);
            }
            cur = cur - w as u128;
            j += 1;
        }
        proof {
            assert(c.skip(c.len() as int) =~= Seq::<BookEntry>::empty());
        }
        None
    }
}

} // verus!
