//! Position state: bitboards + mailbox + game state + Zobrist key.
//! All mutation goes through here; movegen only reads.
use vstd::prelude::*;

use crate::board::bitboard::{bit, lemma_bit_xor, lemma_bits_ext, popcount, bits_below};
use crate::board::types::{
    Color, Piece, PieceType, Square, CastlingRights, color_index, opposite, piece_index,
    type_index, color_of_index, type_of_index, file_of, rank_of,
};
use crate::board::zobrist::{
    piece_key, castling_key, ep_key, black_to_move_key, piece_square_key,
    castling_rights_key, ep_file_key, black_to_move,
};
use crate::board::attacks::{
    knight_attacks, king_attacks, pawn_attacks, bishop_attacks, rook_attacks, knight_step,
    king_step, pawn_step, rook_hit, bishop_hit, lemma_leaper_symmetry, lemma_slider_symmetry,
};
use crate::board::makemove::step_ok;
use crate::board::{Bitboard, Move};

verus! {

// ---------------------------------------------------------------------------
// XOR algebra
// ---------------------------------------------------------------------------

/// XOR identities used by the incremental keys.
pub proof fn lemma_xor(a: u64, b: u64, c: u64, d: u64, e: u64)
    by (bit_vector)
    ensures
        a ^ 0u64 == a,
        0u64 ^ a == a,
        a ^ a == 0u64,
        a ^ b == b ^ a,
        a ^ b ^ b == a,
        a ^ b ^ c == a ^ c ^ b,
        a ^ (b ^ c) == a ^ b ^ c,
        a ^ b ^ b ^ c == a ^ c,
        a ^ b ^ c ^ d == a ^ d ^ b ^ c,
        a ^ b ^ c ^ d == a ^ (b ^ c ^ d),
        (a ^ b) ^ (c ^ 0u64 ^ b) == a ^ c,
        (a ^ b) ^ (c ^ b ^ 0u64) == a ^ c,
        a ^ (c ^ 0u64 ^ 0u64) == a ^ c,
        a ^ b == 0u64 ==> a == b,
        (a ^ b == c ^ d && c == d) ==> a == b,
        a ^ c == 0u64 ==> a ^ b == c ^ (b ^ 0u64 ^ 0u64),
        a ^ e == 0u64 ==> a ^ b ^ c ^ d == e ^ (b ^ c ^ d),
{
}

// ---------------------------------------------------------------------------
// Board model
// ---------------------------------------------------------------------------

/// Square `i` holds the piece with index `p`.
pub open spec fn holds(b: Seq<Option<Piece>>, i: int, p: int) -> bool {
    b[i] matches Some(q) && q@ == p
}

/// Square `i` holds a piece of color `c`.
pub open spec fn holds_color(b: Seq<Option<Piece>>, i: int, c: Color) -> bool {
    b[i] matches Some(q) && color_of_index(q@) == c
}

/// A king of color `c` stands on `i`.
pub open spec fn holds_king(b: Seq<Option<Piece>>, i: int, c: Color) -> bool {
    holds(b, i, piece_index(c, PieceType::King))
}

/// The mailbox is a valid 64-square board with at most one king per color.
pub open spec fn board_ok(b: Seq<Option<Piece>>) -> bool {
    &&& b.len() == 64
    &&& forall|i: int| 0 <= i < 64 ==> (#[trigger] b[i] matches Some(q) ==> 0 <= q@ < 12)
    &&& forall|i: int, j: int|
        0 <= i < 64 && 0 <= j < 64 && #[trigger] holds_king(b, i, Color::White) && #[trigger] holds_king(
            b,
            j,
            Color::White,
        ) ==> i == j
    &&& forall|i: int, j: int|
        0 <= i < 64 && 0 <= j < 64 && #[trigger] holds_king(b, i, Color::Black) && #[trigger] holds_king(
            b,
            j,
            Color::Black,
        ) ==> i == j
}

/// Zobrist contribution of square `i`.
pub open spec fn square_term(b: Seq<Option<Piece>>, i: int) -> u64 {
    match b[i] {
        Some(p) => piece_key(p@, i),
        None => 0u64,
    }
}

/// Zobrist contribution of square `i` to the pawn key.
pub open spec fn pawn_term(b: Seq<Option<Piece>>, i: int) -> u64 {
    match b[i] {
        Some(p) => if p@ % 6 == 0 {
            piece_key(p@, i)
        } else {
            0u64
        },
        None => 0u64,
    }
}

/// XOR of the square terms of squares `0..n`.
pub open spec fn board_hash(b: Seq<Option<Piece>>, n: int) -> u64
    decreases n,
{
    if n <= 0 {
        0u64
    } else {
        board_hash(b, n - 1) ^ square_term(b, n - 1)
    }
}

/// XOR of the pawn terms of squares `0..n`.
pub open spec fn pawn_hash(b: Seq<Option<Piece>>, n: int) -> u64
    decreases n,
{
    if n <= 0 {
        0u64
    } else {
        pawn_hash(b, n - 1) ^ pawn_term(b, n - 1)
    }
}

pub open spec fn ep_term(ep: Option<Square>) -> u64 {
    match ep {
        Some(s) => ep_key(file_of(s@)),
        None => 0u64,
    }
}

pub open spec fn stm_term(stm: Color) -> u64 {
    match stm {
        Color::White => 0u64,
        Color::Black => black_to_move_key(),
    }
}

/// The non-board part of the key: castling, en passant and side to move.
pub open spec fn state_key(stm: Color, castling: u8, ep: Option<Square>) -> u64 {
    castling_key(castling) ^ ep_term(ep) ^ stm_term(stm)
}

/// The full Zobrist key of a position.
pub open spec fn full_key(b: Seq<Option<Piece>>, stm: Color, castling: u8, ep: Option<Square>) -> u64 {
    board_hash(b, 64) ^ state_key(stm, castling, ep)
}

pub proof fn lemma_hash_update(b: Seq<Option<Piece>>, i: int, x: Option<Piece>, n: int)
    requires
        b.len() == 64,
        0 <= i < 64,
        n <= 64,
    ensures
        board_hash(b.update(i, x), n) == if i < n {
            board_hash(b, n) ^ square_term(b, i) ^ square_term(b.update(i, x), i)
        } else {
            board_hash(b, n)
        },
        pawn_hash(b.update(i, x), n) == if i < n {
            pawn_hash(b, n) ^ pawn_term(b, i) ^ pawn_term(b.update(i, x), i)
        } else {
            pawn_hash(b, n)
        },
    decreases n,
{
    let b2 = b.update(i, x);
    if n > 0 {
        lemma_hash_update(b, i, x, n - 1);
        let h = board_hash(b, n - 1);
        let t = square_term(b, i);
        let t2 = square_term(b2, i);
        let u = square_term(b, n - 1);
        let ph = pawn_hash(b, n - 1);
        let pt = pawn_term(b, i);
        let pt2 = pawn_term(b2, i);
        let pu = pawn_term(b, n - 1);
        if n - 1 == i {
            lemma_xor(h, t, t2, 0, 0);
            lemma_xor(ph, pt, pt2, 0, 0);
        } else if i < n - 1 {
            assert(square_term(b2, n - 1) == u);
            assert(pawn_term(b2, n - 1) == pu);
            lemma_xor(h, t, t2, u, 0);
            lemma_xor(ph, pt, pt2, pu, 0);
        } else {
            assert(square_term(b2, n - 1) == u);
            assert(pawn_term(b2, n - 1) == pu);
        }
    }
}

/// The side to move's king square, once the board has a king of that color.
pub open spec fn has_king(b: Seq<Option<Piece>>, c: Color) -> bool {
    exists|i: int| 0 <= i < 64 && #[trigger] holds_king(b, i, c)
}

/// A position as a value: the board and the game state, without history.
pub ghost struct PosState {
    pub board: Seq<Option<Piece>>,
    pub stm: Color,
    pub castling: u8,
    pub ep: Option<Square>,
    pub halfmove: u16,
    pub fullmove: u16,
    pub key: u64,
    pub pawn_key: u64,
}

/// A consistent position value: valid board with both kings, valid
/// castling mask, and keys that match a full recomputation.
pub open spec fn state_ok(s: PosState) -> bool {
    &&& board_ok(s.board)
    &&& has_king(s.board, Color::White)
    &&& has_king(s.board, Color::Black)
    &&& s.castling < 16
    &&& s.key == full_key(s.board, s.stm, s.castling, s.ep)
    &&& s.pawn_key == pawn_hash(s.board, 64)
}

/// `x` has exactly the occupied squares of `b` set.
pub open spec fn occupancy_of(b: Seq<Option<Piece>>, x: u64) -> bool {
    forall|i: int| 0 <= i < 64 ==> (#[trigger] bit(x, i) <==> b[i] is Some)
}

/// The occupancy word of a board.
pub open spec fn occupancy(b: Seq<Option<Piece>>) -> u64 {
    choose|x: u64| occupancy_of(b, x)
}

pub proof fn lemma_occupancy(b: Seq<Option<Piece>>, x: u64)
    requires
        occupancy_of(b, x),
    ensures
        occupancy(b) == x,
{
    let y = occupancy(b);
    assert(occupancy_of(b, y));
    assert forall|i: int| 0 <= i < 64 implies #[trigger] bit(y, i) == bit(x, i) by {}
    lemma_bits_ext(y, x);
}

/// Undo record pushed by `make` / `make_null`.
#[derive(Clone, Copy)]
pub struct Undo {
    pub(crate) mv: Move,
    pub(crate) captured: Option<Piece>,
    pub(crate) castling: CastlingRights,
    pub(crate) ep: Option<Square>,
    pub(crate) halfmove: u16,
    pub(crate) key: u64,
    pub(crate) pawn_key: u64,
}

/// Invalid FEN input, by the field that failed.
#[derive(Debug, PartialEq, Eq, Clone, Copy, Structural)]
pub enum FenError {
    MissingFields,
    BadBoard,
    BadColor,
    BadCastling,
    BadEpSquare,
    BadCounter,
    BadKings,
}

#[derive(Clone)]
pub struct Position {
    pub(crate) pieces: [Bitboard; 12],
    pub(crate) occ: [Bitboard; 2],
    pub(crate) occ_all: Bitboard,
    pub(crate) mailbox: [Option<Piece>; 64],
    pub(crate) stm: Color,
    pub(crate) castling: CastlingRights,
    pub(crate) ep: Option<Square>,
    pub(crate) halfmove: u16,
    pub(crate) fullmove: u16,
    pub(crate) key: u64,
    pub(crate) pawn_key: u64,
    pub(crate) undo_stack: Vec<Undo>,
    pub(crate) key_history: Vec<u64>,
    /// The positions the undo records lead back to, oldest first.
    pub(crate) prev: Ghost<Seq<PosState>>,
}

impl Position {
    pub open(crate) spec fn board(&self) -> Seq<Option<Piece>> {
        self.mailbox@
    }

    pub open(crate) spec fn state(&self) -> PosState {
        PosState {
            board: self.mailbox@,
            stm: self.stm,
            castling: self.castling@,
            ep: self.ep,
            halfmove: self.halfmove,
            fullmove: self.fullmove,
            key: self.key,
            pawn_key: self.pawn_key,
        }
    }

    /// Bitboards agree with the mailbox, which is a valid board.
    pub open(crate) spec fn boards_ok(&self) -> bool {
        &&& board_ok(self.mailbox@)
        &&& forall|p: int, i: int|
            0 <= p < 12 && 0 <= i < 64 ==> (#[trigger] self.pieces@[p].has(i) <==> holds(
                self.mailbox@,
                i,
                p,
            ))
        &&& forall|c: int, i: int|
            0 <= c < 2 && 0 <= i < 64 ==> (#[trigger] self.occ@[c].has(i) <==> holds_color(
                self.mailbox@,
                i,
                color_of_index(c * 6),
            ))
        &&& forall|i: int| 0 <= i < 64 ==> (#[trigger] self.occ_all.has(i) <==> self.mailbox@[i] is Some)
    }

    /// `key ^ board hash`: the part of the key that does not depend on pieces.
    pub open(crate) spec fn key_rest(&self) -> u64 {
        self.key ^ board_hash(self.mailbox@, 64)
    }

    pub open(crate) spec fn pawn_rest(&self) -> u64 {
        self.pawn_key ^ pawn_hash(self.mailbox@, 64)
    }

    /// Everything except the piece placement and keys is unchanged.
    pub open(crate) spec fn same_state(&self, other: &Position) -> bool {
        &&& self.stm == other.stm
        &&& self.castling == other.castling
        &&& self.ep == other.ep
        &&& self.halfmove == other.halfmove
        &&& self.fullmove == other.fullmove
        &&& self.undo_stack@ == other.undo_stack@
        &&& self.key_history@ == other.key_history@
        &&& self.prev@ == other.prev@
    }

    // ---- raw piece plumbing (no Zobrist) ----
    pub(crate) fn put_raw(&mut self, p: Piece, sq: Square)
        requires
            old(self).boards_ok(),
            old(self).board()[sq@] is None,
            !(p@ == 5 && has_king(old(self).board(), Color::White)),
            !(p@ == 11 && has_king(old(self).board(), Color::Black)),
        ensures
            final(self).boards_ok(),
            final(self).board() == old(self).board().update(sq@, Some(p)),
            final(self).same_state(old(self)),
            final(self).key == old(self).key,
            final(self).pawn_key == old(self).pawn_key,
    {
        let pi = p.index();
        let s = sq.index();
        let c = p.color().index();
        let mut bb = self.pieces[pi];
        bb.set(sq);
        self.pieces[pi] = bb;
        let mut ob = self.occ[c];
        ob.set(sq);
        self.occ[c] = ob;
        self.occ_all.set(sq);
        self.mailbox[s] = Some(p);
        proof {
            let b = self.board();
            let ob = old(self).board();
            assert forall|i: int| 0 <= i < 64 implies (#[trigger] b[i] matches Some(q) ==> 0 <= q@
                < 12) by {}
            assert forall|i: int, j: int|
                0 <= i < 64 && 0 <= j < 64 && #[trigger] holds_king(b, i, Color::White)
                    && #[trigger] holds_king(b, j, Color::White) implies i == j by {
                if i != sq@ && j != sq@ {
                    assert(holds_king(ob, i, Color::White));
                    assert(holds_king(ob, j, Color::White));
                } else if i != sq@ {
                    assert(holds_king(ob, i, Color::White));
                } else if j != sq@ {
                    assert(holds_king(ob, j, Color::White));
                }
            }
            assert forall|i: int, j: int|
                0 <= i < 64 && 0 <= j < 64 && #[trigger] holds_king(b, i, Color::Black)
                    && #[trigger] holds_king(b, j, Color::Black) implies i == j by {
                if i != sq@ && j != sq@ {
                    assert(holds_king(ob, i, Color::Black));
                    assert(holds_king(ob, j, Color::Black));
                } else if i != sq@ {
                    assert(holds_king(ob, i, Color::Black));
                } else if j != sq@ {
                    assert(holds_king(ob, j, Color::Black));
                }
            }
            assert forall|q: int, i: int|
                0 <= q < 12 && 0 <= i < 64 implies (#[trigger] self.pieces@[q].has(i) <==> holds(
                b,
                i,
                q,
            )) by {
                assert(old(self).pieces@[q].has(i) <==> holds(ob, i, q));
            }
            assert forall|cc: int, i: int|
                0 <= cc < 2 && 0 <= i < 64 implies (#[trigger] self.occ@[cc].has(i) <==> holds_color(
                b,
                i,
                color_of_index(cc * 6),
            )) by {
                assert(old(self).occ@[cc].has(i) <==> holds_color(ob, i, color_of_index(cc * 6)));
            }
        }
    }

    pub(crate) fn remove_raw(&mut self, sq: Square) -> (p: Piece)
        requires
            old(self).boards_ok(),
            old(self).board()[sq@] is Some,
        ensures
            final(self).boards_ok(),
            old(self).board()[sq@] == Some(p),
            final(self).board() == old(self).board().update(sq@, None),
            final(self).same_state(old(self)),
            final(self).key == old(self).key,
            final(self).pawn_key == old(self).pawn_key,
    {
        let s = sq.index();
        let p = self.mailbox[s].unwrap();
        let pi = p.index();
        let c = p.color().index();
        let mut bb = self.pieces[pi];
        bb.clear(sq);
        self.pieces[pi] = bb;
        let mut ob = self.occ[c];
        ob.clear(sq);
        self.occ[c] = ob;
        self.occ_all.clear(sq);
        self.mailbox[s] = None;
        proof {
            let b = self.board();
            let ob = old(self).board();
            assert forall|i: int| 0 <= i < 64 implies (#[trigger] b[i] matches Some(q) ==> 0 <= q@
                < 12) by {}
            assert forall|i: int, j: int|
                0 <= i < 64 && 0 <= j < 64 && #[trigger] holds_king(b, i, Color::White)
                    && #[trigger] holds_king(b, j, Color::White) implies i == j by {
                assert(holds_king(ob, i, Color::White));
                assert(holds_king(ob, j, Color::White));
            }
            assert forall|i: int, j: int|
                0 <= i < 64 && 0 <= j < 64 && #[trigger] holds_king(b, i, Color::Black)
                    && #[trigger] holds_king(b, j, Color::Black) implies i == j by {
                assert(holds_king(ob, i, Color::Black));
                assert(holds_king(ob, j, Color::Black));
            }
            assert forall|q: int, i: int|
                0 <= q < 12 && 0 <= i < 64 implies (#[trigger] self.pieces@[q].has(i) <==> holds(
                b,
                i,
                q,
            )) by {
                assert(old(self).pieces@[q].has(i) <==> holds(ob, i, q));
            }
            assert forall|cc: int, i: int|
                0 <= cc < 2 && 0 <= i < 64 implies (#[trigger] self.occ@[cc].has(i) <==> holds_color(
                b,
                i,
                color_of_index(cc * 6),
            )) by {
                assert(old(self).occ@[cc].has(i) <==> holds_color(ob, i, color_of_index(cc * 6)));
            }
        }
        p
    }

    // ---- keyed piece plumbing (raw + Zobrist) ----
    pub(crate) fn put_piece(&mut self, p: Piece, sq: Square)
        requires
            old(self).boards_ok(),
            old(self).board()[sq@] is None,
            !(p@ == 5 && has_king(old(self).board(), Color::White)),
            !(p@ == 11 && has_king(old(self).board(), Color::Black)),
        ensures
            final(self).boards_ok(),
            final(self).board() == old(self).board().update(sq@, Some(p)),
            final(self).same_state(old(self)),
            final(self).key_rest() == old(self).key_rest(),
            final(self).pawn_rest() == old(self).pawn_rest(),
    {
        let ghost b0 = self.board();
        self.put_raw(p, sq);
        let k = piece_square_key(p.index(), sq.index());
        let key0 = self.key;
        let pk0 = self.pawn_key;
        self.key = key0 ^ k;
        let is_pawn = p.piece_type() == PieceType::Pawn;
        if is_pawn {
            self.pawn_key = pk0 ^ k;
        }
        proof {
            let b1 = self.board();
            lemma_hash_update(b0, sq@, Some(p), 64);
            let h = board_hash(b0, 64);
            let ph = pawn_hash(b0, 64);
            assert(square_term(b0, sq@) == 0u64);
            assert(square_term(b1, sq@) == k);
            assert(pawn_term(b0, sq@) == 0u64);
            assert(board_hash(b1, 64) == h ^ 0u64 ^ k);
            lemma_xor(key0, k, h, 0, 0);
            lemma_xor(pk0, k, ph, 0, 0);
            if is_pawn {
                assert(pawn_term(b1, sq@) == k);
            } else {
                assert(pawn_term(b1, sq@) == 0u64);
            }
        }
    }

    pub(crate) fn remove_piece(&mut self, sq: Square) -> (p: Piece)
        requires
            old(self).boards_ok(),
            old(self).board()[sq@] is Some,
        ensures
            final(self).boards_ok(),
            old(self).board()[sq@] == Some(p),
            final(self).board() == old(self).board().update(sq@, None),
            final(self).same_state(old(self)),
            final(self).key_rest() == old(self).key_rest(),
            final(self).pawn_rest() == old(self).pawn_rest(),
    {
        let ghost b0 = self.board();
        let p = self.remove_raw(sq);
        let k = piece_square_key(p.index(), sq.index());
        let key0 = self.key;
        let pk0 = self.pawn_key;
        self.key = key0 ^ k;
        let is_pawn = p.piece_type() == PieceType::Pawn;
        if is_pawn {
            self.pawn_key = pk0 ^ k;
        }
        proof {
            let b1 = self.board();
            lemma_hash_update(b0, sq@, None, 64);
            let h = board_hash(b0, 64);
            let ph = pawn_hash(b0, 64);
            assert(square_term(b0, sq@) == k);
            assert(square_term(b1, sq@) == 0u64);
            assert(pawn_term(b1, sq@) == 0u64);
            assert(board_hash(b1, 64) == h ^ k ^ 0u64);
            lemma_xor(key0, k, h, 0, 0);
            lemma_xor(pk0, k, ph, 0, 0);
            if is_pawn {
                assert(pawn_term(b0, sq@) == k);
            } else {
                assert(pawn_term(b0, sq@) == 0u64);
            }
        }
        p
    }

    pub(crate) fn move_piece(&mut self, from: Square, to: Square)
        requires
            old(self).boards_ok(),
            old(self).board()[from@] is Some,
            old(self).board()[to@] is None,
        ensures
            final(self).boards_ok(),
            final(self).board() == old(self).board().update(from@, None).update(
                to@,
                old(self).board()[from@],
            ),
            final(self).same_state(old(self)),
            final(self).key_rest() == old(self).key_rest(),
            final(self).pawn_rest() == old(self).pawn_rest(),
    {
        proof {
            use_type_invariant(&from);
            use_type_invariant(&to);
        }
        let ghost b0 = self.board();
        let p = self.remove_piece(from);
        proof {
            lemma_removed_king_gone(b0, from@);
        }
        self.put_piece(p, to);
    }

    pub(crate) fn move_raw(&mut self, from: Square, to: Square)
        requires
            old(self).boards_ok(),
            old(self).board()[from@] is Some,
            old(self).board()[to@] is None,
        ensures
            final(self).boards_ok(),
            final(self).board() == old(self).board().update(from@, None).update(
                to@,
                old(self).board()[from@],
            ),
            final(self).same_state(old(self)),
            final(self).key == old(self).key,
            final(self).pawn_key == old(self).pawn_key,
    {
        proof {
            use_type_invariant(&from);
            use_type_invariant(&to);
        }
        let ghost b0 = self.board();
        let p = self.remove_raw(from);
        proof {
            lemma_removed_king_gone(b0, from@);
        }
        self.put_raw(p, to);
    }
}

/// Removing the piece on `s` leaves no king of that piece's color behind.
pub proof fn lemma_removed_king_gone(b: Seq<Option<Piece>>, s: int)
    requires
        board_ok(b),
        0 <= s < 64,
        b[s] is Some,
    ensures
        b[s]->0@ == 5 ==> !has_king(b.update(s, None), Color::White),
        b[s]->0@ == 11 ==> !has_king(b.update(s, None), Color::Black),
{
    let b1 = b.update(s, None);
    if b[s]->0@ == 5 && has_king(b1, Color::White) {
        let i = choose|i: int| 0 <= i < 64 && #[trigger] holds_king(b1, i, Color::White);
        assert(holds_king(b, i, Color::White));
        assert(holds_king(b, s, Color::White));
    }
    if b[s]->0@ == 11 && has_king(b1, Color::Black) {
        let i = choose|i: int| 0 <= i < 64 && #[trigger] holds_king(b1, i, Color::Black);
        assert(holds_king(b, i, Color::Black));
        assert(holds_king(b, s, Color::Black));
    }
}


/// The square of the king of color `c` (the board holds exactly one).
pub open spec fn king_square(b: Seq<Option<Piece>>, c: Color) -> int {
    choose|i: int| 0 <= i < 64 && #[trigger] holds_king(b, i, c)
}

/// A piece of type index `t` and color `c` standing on `a` attacks `s`,
/// sliders being stopped by the occupancy `occ`.
pub open spec fn piece_attacks(t: int, c: Color, a: int, s: int, occ: u64) -> bool {
    if t == 0 {
        pawn_step(c, a, s)
    } else if t == 1 {
        knight_step(a, s)
    } else if t == 2 {
        bishop_hit(a, s, occ)
    } else if t == 3 {
        rook_hit(a, s, occ)
    } else if t == 4 {
        bishop_hit(a, s, occ) || rook_hit(a, s, occ)
    } else {
        king_step(a, s)
    }
}

/// The piece on `a` belongs to `by` and attacks `s`.
pub open spec fn attacker(b: Seq<Option<Piece>>, occ: u64, a: int, s: int, by: Color) -> bool {
    b[a] matches Some(p) && color_of_index(p@) == by && piece_attacks(p@ % 6, by, a, s, occ)
}

/// Square `s` is attacked by some piece of color `by`.
pub open spec fn attacked(b: Seq<Option<Piece>>, occ: u64, s: int, by: Color) -> bool {
    exists|a: int| 0 <= a < 64 && #[trigger] attacker(b, occ, a, s, by)
}

/// An enemy pawn of `pusher` could capture onto `s` (the en-passant square).
pub open spec fn ep_capturable_spec(b: Seq<Option<Piece>>, s: int, pusher: Color) -> bool {
    exists|a: int|
        0 <= a < 64 && #[trigger] holds(b, a, piece_index(opposite(pusher), PieceType::Pawn))
            && pawn_step(pusher, s, a)
}

impl Position {
    /// The position invariant: bitboards agree with the board, the position
    /// value is consistent, and every undo record leads back to the
    /// recorded position before it.
    #[verifier::opaque]
    pub open(crate) spec fn wf(&self) -> bool {
        &&& self.boards_ok()
        &&& state_ok(self.state())
        &&& self.history_ok()
    }

    /// The position reached from recorded position `i`.
    pub open(crate) spec fn next_state(&self, i: int) -> PosState {
        if i + 1 < self.prev@.len() {
            self.prev@[i + 1]
        } else {
            self.state()
        }
    }

    /// Undo records, key history and recorded positions line up.
    #[verifier::opaque]
    pub open(crate) spec fn history_ok(&self) -> bool {
        &&& self.undo_stack.len() == self.key_history.len()
        &&& self.undo_stack.len() == self.prev@.len()
        &&& forall|i: int|
            0 <= i < self.prev@.len() ==> {
                &&& state_ok(#[trigger] self.prev@[i])
                &&& self.key_history@[i] == self.prev@[i].key
                &&& step_ok(self.prev@[i], self.undo_stack@[i], self.next_state(i))
            }
    }

    /// A well-formed position's bitboards agree with its board.
    pub proof fn lemma_wf_boards(&self)
        requires
            self.wf(),
        ensures
            self.boards_ok(),
    {
        reveal(Position::wf);
    }

    /// A well-formed position's value is consistent.
    pub proof fn lemma_wf_state(&self)
        requires
            self.wf(),
        ensures
            state_ok(self.state()),
    {
        reveal(Position::wf);
    }

    /// The recorded positions, undo records and key history.
    pub open(crate) spec fn trail(&self) -> (Seq<PosState>, Seq<Undo>, Seq<u64>) {
        (self.prev@, self.undo_stack@, self.key_history@)
    }

    /// Same position value and same history.
    pub open(crate) spec fn same_as(&self, other: &Position) -> bool {
        self.state() == other.state() && self.trail() == other.trail()
    }

    /// The last recorded step is a real move (`unmake` takes it back).
    pub open(crate) spec fn top_is_move(&self) -> bool {
        self.undo_stack@.len() > 0 && self.undo_stack@.last().mv@ != 0
    }

    /// The last recorded step is a null move (`unmake_null` takes it back).
    pub open(crate) spec fn top_is_null(&self) -> bool {
        self.undo_stack@.len() > 0 && self.undo_stack@.last().mv@ == 0
    }

    /// The position the last step came from.
    pub open(crate) spec fn prev_state(&self) -> PosState {
        self.prev@.last()
    }

    /// Number of moves (real or null) that can be taken back.
    pub open(crate) spec fn depth(&self) -> nat {
        self.undo_stack@.len()
    }

    /// The all-pieces bitboard is the board's occupancy.
    pub(crate) proof fn lemma_occ_all(&self)
        requires
            self.boards_ok(),
        ensures
            occupancy(self.board()) == self.occ_all.0,
    {
        assert forall|i: int| 0 <= i < 64 implies (#[trigger] bit(self.occ_all.0, i) <==> self.board()[i] is Some) by {
            assert(self.occ_all.has(i) <==> self.board()[i] is Some);
        }
        lemma_occupancy(self.board(), self.occ_all.0);
    }

    pub open(crate) spec fn spec_occ_all(&self) -> u64 {
        self.occ_all.0
    }

    // ---- accessors ----
    pub fn stm(&self) -> (c: Color)
        ensures
            c == self.state().stm,
    {
        self.stm
    }

    pub fn key(&self) -> (k: u64)
        ensures
            k == self.state().key,
    {
        self.key
    }

    pub fn pawn_key(&self) -> (k: u64)
        ensures
            k == self.state().pawn_key,
    {
        self.pawn_key
    }

    pub fn castling(&self) -> (c: CastlingRights)
        ensures
            c@ == self.state().castling,
    {
        self.castling
    }

    pub fn ep(&self) -> (e: Option<Square>)
        ensures
            e == self.state().ep,
    {
        self.ep
    }

    pub fn halfmove(&self) -> (h: u16)
        ensures
            h == self.state().halfmove,
    {
        self.halfmove
    }

    pub fn fullmove(&self) -> (f: u16)
        ensures
            f == self.state().fullmove,
    {
        self.fullmove
    }

    /// The piece recorded as captured by the last move made (`None` when
    /// nothing can be taken back).
    pub closed spec fn last_capture(&self) -> Option<Piece> {
        if self.undo_stack@.len() > 0 {
            self.undo_stack@.last().captured
        } else {
            None
        }
    }

    /// The piece captured by the last move made, if any (`None` when
    /// nothing can be taken back).
    pub fn last_captured(&self) -> (p: Option<Piece>)
        ensures
            p == self.last_capture(),
    {
        let n = self.undo_stack.len();
        if n == 0 {
            None
        } else {
            self.undo_stack[n - 1].captured
        }
    }

    pub fn piece_on(&self, sq: Square) -> (p: Option<Piece>)
        ensures
            p == self.board()[sq@],
    {
        self.mailbox[sq.index()]
    }

    pub fn piece_bb(&self, color: Color, pt: PieceType) -> (r: Bitboard)
        requires
            self.boards_ok(),
        ensures
            forall|i: int|
                0 <= i < 64 ==> (#[trigger] r.has(i) <==> holds(
                    self.board(),
                    i,
                    piece_index(color, pt),
                )),
            r.0 == self.piece_bits(color, pt),
    {
        let r = self.pieces[Piece::new(color, pt).index()];
        r
    }

    /// The set bits of `piece_bits(color, pt)` are the squares holding
    /// that piece.
    pub proof fn lemma_piece_bits(&self, color: Color, pt: PieceType)
        requires
            self.wf(),
        ensures
            forall|i: int|
                0 <= i < 64 ==> (#[trigger] crate::board::bitboard::bit(self.piece_bits(color, pt), i) <==> holds(
                    self.state().board,
                    i,
                    piece_index(color, pt),
                )),
    {
        self.lemma_wf_boards();
        assert forall|i: int| 0 <= i < 64 implies (#[trigger] crate::board::bitboard::bit(
            self.piece_bits(color, pt),
            i,
        ) <==> holds(self.state().board, i, piece_index(color, pt))) by {
            assert(self.pieces@[piece_index(color, pt)].has(i) == holds(self.mailbox@, i, piece_index(color, pt)));
        }
    }

    /// The bitboard of `color`'s pieces of type `pt`.
    pub closed spec fn piece_bits(&self, color: Color, pt: PieceType) -> u64 {
        self.pieces@[piece_index(color, pt)].0
    }

    /// Neither side can ever mate: bare kings, or a single knight or bishop
    /// against a bare king.
    /// No pawn, rook or queen, and at most one minor piece on the board: no
    /// mate can be forced.
    pub open spec fn insufficient_material(&self) -> bool {
        &&& self.piece_bits(Color::White, PieceType::Pawn) == 0
        &&& self.piece_bits(Color::Black, PieceType::Pawn) == 0
        &&& self.piece_bits(Color::White, PieceType::Rook) == 0
        &&& self.piece_bits(Color::Black, PieceType::Rook) == 0
        &&& self.piece_bits(Color::White, PieceType::Queen) == 0
        &&& self.piece_bits(Color::Black, PieceType::Queen) == 0
        &&& popcount(self.piece_bits(Color::White, PieceType::Knight)) + popcount(
            self.piece_bits(Color::White, PieceType::Bishop),
        ) + popcount(self.piece_bits(Color::Black, PieceType::Knight)) + popcount(
            self.piece_bits(Color::Black, PieceType::Bishop),
        ) <= 1
    }

    pub fn is_insufficient_material(&self) -> (r: bool)
        requires
            self.boards_ok(),
        ensures
            r == self.insufficient_material(),
    {
        let heavy = self.piece_bb(Color::White, PieceType::Pawn).0 | self.piece_bb(Color::Black, PieceType::Pawn).0
            | self.piece_bb(Color::White, PieceType::Rook).0 | self.piece_bb(Color::Black, PieceType::Rook).0
            | self.piece_bb(Color::White, PieceType::Queen).0 | self.piece_bb(Color::Black, PieceType::Queen).0;
        let a = self.piece_bb(Color::White, PieceType::Pawn).0;
        let b = self.piece_bb(Color::Black, PieceType::Pawn).0;
        let c = self.piece_bb(Color::White, PieceType::Rook).0;
        let d = self.piece_bb(Color::Black, PieceType::Rook).0;
        let e = self.piece_bb(Color::White, PieceType::Queen).0;
        let f = self.piece_bb(Color::Black, PieceType::Queen).0;
        assert(heavy == 0 <==> (a == 0 && b == 0 && c == 0 && d == 0 && e == 0 && f == 0)) by (bit_vector)
            requires
                heavy == a | b | c | d | e | f,
        ;
        if heavy != 0 {
            return false;
        }
        let minors = self.piece_bb(Color::White, PieceType::Knight).count() + self.piece_bb(
            Color::White,
            PieceType::Bishop,
        ).count() + self.piece_bb(Color::Black, PieceType::Knight).count() + self.piece_bb(
            Color::Black,
            PieceType::Bishop,
        ).count();
        minors <= 1
    }

    pub fn occ(&self, color: Color) -> (r: Bitboard)
        requires
            self.boards_ok(),
        ensures
            forall|i: int|
                0 <= i < 64 ==> (#[trigger] r.has(i) <==> holds_color(self.board(), i, color)),
    {
        let r = self.occ[color.index()];
        proof {
            assert(color_of_index(color_index(color) * 6) == color);
        }
        r
    }

    pub fn occ_all(&self) -> (r: Bitboard)
        requires
            self.boards_ok(),
        ensures
            r.0 == self.spec_occ_all(),
            forall|i: int| 0 <= i < 64 ==> (#[trigger] r.has(i) <==> self.board()[i] is Some),
    {
        self.occ_all
    }

    pub fn king_sq(&self, color: Color) -> (s: Square)
        requires
            self.boards_ok(),
            has_king(self.board(), color),
        ensures
            holds_king(self.board(), s@, color),
            s@ == king_square(self.board(), color),
    {
        let bb = self.piece_bb(color, PieceType::King);
        proof {
            let i = choose|i: int| 0 <= i < 64 && #[trigger] holds_king(self.board(), i, color);
            assert(bb.has(i));
            crate::board::bitboard::lemma_zero_iff_no_bits(bb.0);
        }
        let s = bb.lsb();
        proof {
            use_type_invariant(&s);
            assert(bb.has(s@));
            let i = king_square(self.board(), color);
            assert(holds_king(self.board(), i, color));
            lemma_king_unique(self.board(), i, s@, color);
        }
        s
    }

    /// Is `sq` attacked by any piece of color `by`?
    #[verifier::rlimit(40)]
    #[verifier::spinoff_prover]
    pub fn square_attacked(&self, sq: Square, by: Color) -> (r: bool)
        requires
            self.boards_ok(),
        ensures
            r == attacked(self.board(), occupancy(self.board()), sq@, by),
    {
        let occ = self.occ_all;
        let pawns = pawn_attacks(by.flip(), sq).and(self.piece_bb(by, PieceType::Pawn));
        let knights = knight_attacks(sq).and(self.piece_bb(by, PieceType::Knight));
        let kings = king_attacks(sq).and(self.piece_bb(by, PieceType::King));
        let diag = self.piece_bb(by, PieceType::Bishop).or(self.piece_bb(by, PieceType::Queen));
        let diags = bishop_attacks(sq, occ).and(diag);
        let line = self.piece_bb(by, PieceType::Rook).or(self.piece_bb(by, PieceType::Queen));
        let lines = rook_attacks(sq, occ).and(line);
        let (pa, na, ka, da, la) = (pawns.any(), knights.any(), kings.any(), diags.any(), lines.any());
        let r = pa || na || ka || da || la;
        proof {
            self.lemma_occ_all();
            let b = self.board();
            let o = occ.0;
            use_type_invariant(&sq);
            assert forall|a: int| 0 <= a < 64 implies (#[trigger] attacker(b, o, a, sq@, by) <==> (
            pawns.has(a) || knights.has(a) || kings.has(a) || diags.has(a) || lines.has(a))) by {
                lemma_leaper_symmetry(a, sq@);
                lemma_slider_symmetry(a, sq@, o);
                if b[a] is Some {
                    let p = b[a]->0;
                    assert(0 <= p@ < 12);
                }
            }
            if r {
                if pa {
                    let a = choose|a: int| 0 <= a < 64 && #[trigger] pawns.has(a);
                    assert(attacker(b, o, a, sq@, by));
                } else if na {
                    let a = choose|a: int| 0 <= a < 64 && #[trigger] knights.has(a);
                    assert(attacker(b, o, a, sq@, by));
                } else if ka {
                    let a = choose|a: int| 0 <= a < 64 && #[trigger] kings.has(a);
                    assert(attacker(b, o, a, sq@, by));
                } else if da {
                    let a = choose|a: int| 0 <= a < 64 && #[trigger] diags.has(a);
                    assert(attacker(b, o, a, sq@, by));
                } else {
                    let a = choose|a: int| 0 <= a < 64 && #[trigger] lines.has(a);
                    assert(attacker(b, o, a, sq@, by));
                }
            } else {
                assert forall|a: int| 0 <= a < 64 implies !#[trigger] attacker(b, o, a, sq@, by) by {
                    assert(!pawns.has(a));
                    assert(!knights.has(a));
                    assert(!kings.has(a));
                    assert(!diags.has(a));
                    assert(!lines.has(a));
                }
            }
        }
        r
    }

    pub fn in_check(&self, color: Color) -> (r: bool)
        requires
            self.wf(),
        ensures
            r == attacked(
                self.board(),
                occupancy(self.board()),
                king_square(self.board(), color),
                opposite(color),
            ),
    {
        proof {
            reveal(Position::wf);
        }
        let k = self.king_sq(color);
        self.square_attacked(k, color.flip())
    }

    /// EP convention: square counts only if an enemy pawn can pseudo-legally
    /// capture onto it. `pusher` = side that just double-pushed.
    pub(crate) fn ep_capturable(&self, ep_sq: Square, pusher: Color) -> (r: bool)
        requires
            self.boards_ok(),
        ensures
            r == ep_capturable_spec(self.board(), ep_sq@, pusher),
    {
        let bb = pawn_attacks(pusher, ep_sq).and(self.piece_bb(pusher.flip(), PieceType::Pawn));
        let r = bb.any();
        proof {
            if r {
                let a = choose|a: int| 0 <= a < 64 && #[trigger] bb.has(a);
                assert(holds(self.board(), a, piece_index(opposite(pusher), PieceType::Pawn)));
            } else {
                assert forall|a: int|
                    0 <= a < 64 && #[trigger] holds(
                        self.board(),
                        a,
                        piece_index(opposite(pusher), PieceType::Pawn),
                    ) implies !pawn_step(pusher, ep_sq@, a) by {
                    assert(!bb.has(a));
                }
            }
        }
        r
    }

    /// Anything beyond king+pawns for `color` (zugzwang guard for null-move).
    pub fn has_non_pawn_material(&self, color: Color) -> (r: bool)
        requires
            self.boards_ok(),
        ensures
            r == exists|i: int|
                0 <= i < 64 && #[trigger] holds_color(self.board(), i, color)
                    && !(self.board()[i]->0@ % 6 == 0) && !(self.board()[i]->0@ % 6 == 5),
    {
        let bb = self.piece_bb(color, PieceType::Knight).or(
            self.piece_bb(color, PieceType::Bishop),
        ).or(self.piece_bb(color, PieceType::Rook)).or(self.piece_bb(color, PieceType::Queen));
        let r = bb.any();
        proof {
            let b = self.board();
            assert forall|i: int| 0 <= i < 64 implies (#[trigger] bb.has(i) <==> (holds_color(
                b,
                i,
                color,
            ) && !(b[i]->0@ % 6 == 0) && !(b[i]->0@ % 6 == 5))) by {
                if b[i] is Some {
                    let p = b[i]->0;
                    assert(0 <= p@ < 12);
                }
            }
            if r {
                let i = choose|i: int| 0 <= i < 64 && #[trigger] bb.has(i);
                assert(holds_color(b, i, color));
            } else {
                assert forall|i: int| 0 <= i < 64 && #[trigger] holds_color(b, i, color) implies (b[i]->0@
                    % 6 == 0 || b[i]->0@ % 6 == 5) by {
                    assert(!bb.has(i));
                }
            }
        }
        r
    }

    /// 50-move rule (100 halfmoves).
    pub fn is_fifty_move_draw(&self) -> (r: bool)
        ensures
            r == (self.state().halfmove >= 100),
    {
        self.halfmove >= 100
    }
}

/// Two kings of one color stand on the same square.
pub proof fn lemma_king_unique(b: Seq<Option<Piece>>, i: int, j: int, c: Color)
    requires
        board_ok(b),
        0 <= i < 64,
        0 <= j < 64,
        holds_king(b, i, c),
        holds_king(b, j, c),
    ensures
        i == j,
{
    match c {
        Color::White => {},
        Color::Black => {},
    }
}

} // verus!
