//! Making and taking back moves. `make` applies a pseudo-legal move and
//! keeps it only when the mover's king is safe afterwards; `unmake` restores
//! the position from the undo record exactly.
use vstd::prelude::*;

use crate::board::position::{
    PosState, Position, Undo, attacked, occupancy, king_square, holds, ep_capturable_spec,
    full_key, pawn_hash, state_ok,
};
use crate::board::types::{
    Color, Piece, PieceType, Square, opposite, piece_index, color_of_index, file_of, rank_of,
    square_at,
};
use crate::board::Move;
use crate::board::moves::{promo_type_of_flag, lemma_code_parts};
use crate::board::position::{
    lemma_xor, board_ok, has_king, holds_king, board_hash, ep_term, stm_term, lemma_hash_update,
};
use crate::board::zobrist::{
    castling_key, black_to_move_key, ep_file_key, castling_rights_key, black_to_move,
};
use crate::board::moves::{code_to, code_from};
use crate::board::attacks::lemma_square_coords;

verus! {

/// Square of the pawn taken by an en-passant capture from `f` to `t`.
pub open spec fn ep_victim(f: int, t: int) -> int {
    square_at(file_of(t), rank_of(f))
}

/// Back rank of color `c`.
pub open spec fn home_rank(c: Color) -> int {
    match c {
        Color::White => 0,
        Color::Black => 7,
    }
}

/// King start square, castling targets and rook squares of color `c`;
/// `ks` selects the king side.
pub open spec fn king_home(c: Color) -> int {
    square_at(4, home_rank(c))
}

pub open spec fn castle_target(c: Color, ks: bool) -> int {
    square_at(
        if ks {
            6
        } else {
            2
        },
        home_rank(c),
    )
}

pub open spec fn rook_from(c: Color, ks: bool) -> int {
    square_at(
        if ks {
            7
        } else {
            0
        },
        home_rank(c),
    )
}

pub open spec fn rook_to(c: Color, ks: bool) -> int {
    square_at(
        if ks {
            5
        } else {
            3
        },
        home_rank(c),
    )
}

/// The piece of color `c` and type `pt`.
pub open(crate) spec fn piece_of(c: Color, pt: PieceType) -> Piece {
    Piece(piece_index(c, pt) as u8)
}

/// A castling move of `stm` on the given side has its king and rook in
/// place and the rook's target empty.
pub open spec fn castle_ok(b: Seq<Option<Piece>>, stm: Color, f: int, t: int, ks: bool) -> bool {
    &&& f == king_home(stm)
    &&& t == castle_target(stm, ks)
    &&& holds(b, rook_from(stm, ks), piece_index(stm, PieceType::Rook))
    &&& b[rook_to(stm, ks)] is None
}

/// The move is one `make` can apply to board `b` with `stm` to move: the
/// mover belongs to `stm`, the target is empty unless the move captures, a
/// capture takes an enemy piece other than the king, and the flag's extra
/// pieces (the en-passant victim, the castling rook) are in place.
pub open spec fn move_ok(b: Seq<Option<Piece>>, stm: Color, m: Move) -> bool {
    let f = m.spec_from();
    let t = m.spec_to();
    let fl = m.spec_flag();
    &&& f != t
    &&& fl != 6 && fl != 7
    &&& b[f] matches Some(p) && color_of_index(p@) == stm
    &&& (m.spec_is_promotion() ==> b[f]->0@ % 6 == 0)
    &&& if fl == 5 {
        &&& b[t] is None
        &&& rank_of(t) != rank_of(f)
        &&& file_of(t) != file_of(f)
        &&& holds(b, ep_victim(f, t), piece_index(opposite(stm), PieceType::Pawn))
    } else if m.spec_is_capture() {
        b[t] matches Some(q) && color_of_index(q@) == opposite(stm) && q@ % 6 != 5
    } else {
        b[t] is None
    }
    &&& (fl == 2 ==> castle_ok(b, stm, f, t, true))
    &&& (fl == 3 ==> castle_ok(b, stm, f, t, false))
}

/// The piece recorded as captured by the move.
pub open spec fn captured_piece(b: Seq<Option<Piece>>, stm: Color, m: Move) -> Option<Piece> {
    if m.spec_flag() == 5 {
        Some(piece_of(opposite(stm), PieceType::Pawn))
    } else {
        b[m.spec_to()]
    }
}

/// Board after removing the captured piece.
pub open spec fn board_after_capture(b: Seq<Option<Piece>>, m: Move) -> Seq<Option<Piece>> {
    if m.spec_flag() == 5 {
        b.update(ep_victim(m.spec_from(), m.spec_to()), None)
    } else if m.spec_is_capture() {
        b.update(m.spec_to(), None)
    } else {
        b
    }
}

/// Board after the mover (or its promotion piece) reaches the target.
pub open spec fn board_after_mover(b: Seq<Option<Piece>>, stm: Color, m: Move) -> Seq<
    Option<Piece>,
> {
    let b1 = board_after_capture(b, m);
    let f = m.spec_from();
    let t = m.spec_to();
    if m.spec_is_promotion() {
        b1.update(f, None).update(t, Some(piece_of(stm, promo_type_of_flag(m.spec_flag()))))
    } else {
        b1.update(f, None).update(t, b1[f])
    }
}

/// The board after move `m` of `stm`: capture, move, then the castling rook.
pub open spec fn make_board(b: Seq<Option<Piece>>, stm: Color, m: Move) -> Seq<Option<Piece>> {
    let b2 = board_after_mover(b, stm, m);
    if m.spec_flag() == 2 {
        b2.update(rook_from(stm, true), None).update(rook_to(stm, true), b2[rook_from(stm, true)])
    } else if m.spec_flag() == 3 {
        b2.update(rook_from(stm, false), None).update(
            rook_to(stm, false),
            b2[rook_from(stm, false)],
        )
    } else {
        b2
    }
}

/// Castling rights kept when a move starts or ends on `s`.
pub open spec fn castle_keep(s: int) -> u8 {
    if s == 0 {
        13u8
    } else if s == 4 {
        12u8
    } else if s == 7 {
        14u8
    } else if s == 56 {
        7u8
    } else if s == 60 {
        3u8
    } else if s == 63 {
        11u8
    } else {
        15u8
    }
}

/// The square a double push passes over.
pub open spec fn passed_square(f: int, t: int) -> int {
    square_at(file_of(f), (rank_of(f) + rank_of(t)) / 2)
}

/// En-passant square after the move: set by a double push only when an
/// enemy pawn could capture onto it.
pub open(crate) spec fn ep_after(nb: Seq<Option<Piece>>, stm: Color, m: Move) -> Option<Square> {
    let e = passed_square(m.spec_from(), m.spec_to());
    if m.spec_flag() == 1 && ep_capturable_spec(nb, e, stm) {
        Some(Square(e as u8))
    } else {
        None
    }
}

/// The position after move `m`.
#[verifier::opaque]
pub open spec fn make_state(s: PosState, m: Move) -> PosState {
    let nb = make_board(s.board, s.stm, m);
    let castling = s.castling & (castle_keep(m.spec_from()) & castle_keep(m.spec_to()));
    let ep = ep_after(nb, s.stm, m);
    let stm = opposite(s.stm);
    PosState {
        board: nb,
        stm,
        castling,
        ep,
        halfmove: if s.board[m.spec_from()]->0@ % 6 == 0 || m.spec_is_capture() {
            0u16
        } else {
            (s.halfmove + 1) as u16
        },
        fullmove: if s.stm == Color::Black {
            (s.fullmove + 1) as u16
        } else {
            s.fullmove
        },
        key: full_key(nb, stm, castling, ep),
        pawn_key: pawn_hash(nb, 64),
    }
}

/// The move leaves the mover's king unattacked.
#[verifier::opaque]
pub open spec fn legal_after(s: PosState, m: Move) -> bool {
    let nb = make_board(s.board, s.stm, m);
    !attacked(nb, occupancy(nb), king_square(nb, s.stm), opposite(s.stm))
}

/// The position after passing the turn.
pub open spec fn null_state(s: PosState) -> PosState {
    let stm = opposite(s.stm);
    PosState {
        board: s.board,
        stm,
        castling: s.castling,
        ep: None,
        halfmove: (s.halfmove + 1) as u16,
        fullmove: s.fullmove,
        key: full_key(s.board, stm, s.castling, None),
        pawn_key: s.pawn_key,
    }
}

/// Undo record `u` takes position `n` back to `s`.
pub open(crate) spec fn step_ok(s: PosState, u: Undo, n: PosState) -> bool {
    &&& u.castling@ == s.castling
    &&& u.ep == s.ep
    &&& u.halfmove == s.halfmove
    &&& u.key == s.key
    &&& u.pawn_key == s.pawn_key
    &&& n.stm == opposite(s.stm)
    &&& if u.mv@ == 0 {
        &&& n.board == s.board
        &&& n.fullmove == s.fullmove
    } else {
        &&& move_ok(s.board, s.stm, u.mv)
        &&& n.board == make_board(s.board, s.stm, u.mv)
        &&& u.captured == captured_piece(s.board, s.stm, u.mv)
        &&& n.fullmove == (if s.stm == Color::Black {
            s.fullmove + 1
        } else {
            s.fullmove as int
        })
    }
}

/// Both kings survive a move that `make` can apply.
pub proof fn lemma_make_keeps_kings(b: Seq<Option<Piece>>, stm: Color, m: Move, c: Color)
    requires
        board_ok(b),
        has_king(b, c),
        move_ok(b, stm, m),
    ensures
        has_king(make_board(b, stm, m), c),
{
    let f = m.spec_from();
    let t = m.spec_to();
    let fl = m.spec_flag();
    lemma_code_parts(m@);
    let k = choose|i: int| 0 <= i < 64 && #[trigger] holds_king(b, i, c);
    let nb = make_board(b, stm, m);
    let b1 = board_after_capture(b, m);
    let b2 = board_after_mover(b, stm, m);
    if fl == 5 {
        lemma_square_coords(file_of(t), rank_of(f));
        assert(ep_victim(f, t) != f);
    }
    assert(b1[f] == b[f]);
    if fl == 2 || fl == 3 {
        let ks = fl == 2;
        lemma_square_coords(4, home_rank(stm));
        lemma_square_coords(if ks { 6 } else { 2 }, home_rank(stm));
        lemma_square_coords(if ks { 7 } else { 0 }, home_rank(stm));
        lemma_square_coords(if ks { 5 } else { 3 }, home_rank(stm));
    }
    if k == f {
        assert(!m.spec_is_promotion());
        assert(b2[t] == b[f]);
        assert(nb[t] == b[f]);
        assert(holds_king(nb, t, c));
    } else {
        assert(k != t);
        if fl == 5 {
            assert(k != ep_victim(f, t));
        }
        assert(b1[k] == b[k]);
        assert(b2[k] == b[k]);
        if fl == 2 {
            assert(k != rook_from(stm, true));
            assert(k != rook_to(stm, true));
        }
        if fl == 3 {
            assert(k != rook_from(stm, false));
            assert(k != rook_to(stm, false));
        }
        assert(nb[k] == b[k]);
        assert(holds_king(nb, k, c));
    }
}

impl Position {
    /// The piece movement of `make`: remove the captured piece, move the
    /// mover (or swap in the promotion piece), move the castling rook.
    fn apply_board(&mut self, mv: Move, stm: Color)
        requires
            old(self).boards_ok(),
            move_ok(old(self).board(), stm, mv),
        ensures
            final(self).boards_ok(),
            final(self).board() == make_board(old(self).board(), stm, mv),
            final(self).same_state(old(self)),
            final(self).key_rest() == old(self).key_rest(),
            final(self).pawn_rest() == old(self).pawn_rest(),
    {
        let ghost b0 = self.board();
        let from = mv.from();
        let to = mv.to();
        let flag = mv.flag();
        proof {
            lemma_code_parts(mv@);
        }
        if mv.is_capture() {
            if flag == Move::EN_PASSANT {
                // captured pawn sits on the from-rank, to-file
                self.remove_piece(Square::from_fr(to.file(), from.rank()));
            } else {
                self.remove_piece(to);
            }
        }
        let ghost b1 = self.board();
        assert(b1 == board_after_capture(b0, mv));
        proof {
            if flag == Move::EN_PASSANT {
                lemma_square_coords(file_of(to@), rank_of(from@));
            }
        }
        // move the piece (promotions swap the pawn for the new piece)
        if mv.is_promotion() {
            self.remove_piece(from);
            let p = Piece::new(stm, mv.promotion_piece_type());
            proof {
                assert(p == piece_of(stm, promo_type_of_flag(mv.spec_flag())));
            }
            self.put_piece(p, to);
        } else {
            self.move_piece(from, to);
        }
        let ghost b2 = self.board();
        assert(b2 == board_after_mover(b0, stm, mv));
        // flag-specific side effects
        if flag == Move::KING_CASTLE {
            let (rf, rt) = match stm {
                Color::White => (Square::h1(), Square::f1()),
                Color::Black => (Square::h8(), Square::f8()),
            };
            proof {
                lemma_castle_squares(stm, true);
            }
            self.move_piece(rf, rt);
        } else if flag == Move::QUEEN_CASTLE {
            let (rf, rt) = match stm {
                Color::White => (Square::a1(), Square::d1()),
                Color::Black => (Square::a8(), Square::d8()),
            };
            proof {
                lemma_castle_squares(stm, false);
            }
            self.move_piece(rf, rt);
        }
    }
}

/// The castling squares of each side, and that they are distinct.
pub proof fn lemma_castle_squares(c: Color, ks: bool)
    ensures
        king_home(c) == if c == Color::White { 4int } else { 60int },
        castle_target(c, ks) == if c == Color::White {
            if ks { 6int } else { 2int }
        } else {
            if ks { 62int } else { 58int }
        },
        rook_from(c, ks) == if c == Color::White {
            if ks { 7int } else { 0int }
        } else {
            if ks { 63int } else { 56int }
        },
        rook_to(c, ks) == if c == Color::White {
            if ks { 5int } else { 3int }
        } else {
            if ks { 61int } else { 59int }
        },
{
}

/// Castling rights kept when a move starts or ends on `sq`: moving the king
/// or a rook from its home square, or capturing on a rook's home square,
/// clears the matching rights.
fn castle_mask(sq: Square) -> (m: u8)
    ensures
        m == castle_keep(sq@),
{
    let i = sq.index();
    if i == 0 {
        0b1101
    } else if i == 4 {
        0b1100
    } else if i == 7 {
        0b1110
    } else if i == 56 {
        0b0111
    } else if i == 60 {
        0b0011
    } else if i == 63 {
        0b1011
    } else {
        0b1111
    }
}

/// The stm key flips with the side to move.
pub proof fn lemma_stm_term_flip(c: Color)
    ensures
        stm_term(opposite(c)) == stm_term(c) ^ black_to_move_key(),
{
    let b = black_to_move_key();
    lemma_xor(b, 0, 0, 0, 0);
}

impl Position {
    /// Applies a pseudo-legal move. Returns false (state unchanged) if it
    /// would leave the mover's king attacked.
    #[verifier::rlimit(80)]
    pub fn make(&mut self, mv: Move) -> (r: bool)
        requires
            old(self).wf(),
            move_ok(old(self).state().board, old(self).state().stm, mv),
            old(self).state().halfmove < 0xFFFF,
            old(self).state().fullmove < 0xFFFF,
        ensures
            final(self).wf(),
            r == legal_after(old(self).state(), mv),
            r ==> final(self).state() == make_state(old(self).state(), mv),
            r ==> final(self).prev_state() == old(self).state(),
            r ==> final(self).top_is_move(),
            r ==> final(self).depth() == old(self).depth() + 1,
            r ==> final(self).trail().0 == old(self).trail().0.push(old(self).state()),
            r ==> final(self).trail().1.drop_last() == old(self).trail().1,
            r ==> final(self).trail().2 == old(self).trail().2.push(old(self).state().key),
            !r ==> final(self).same_as(old(self)),
    {
        proof {
            reveal(Position::wf);
        }
        let ghost s0 = self.state();
        let ghost b0 = self.board();
        let ghost old_trail = self.trail();
        let stm = self.stm;
        let from = mv.from();
        let to = mv.to();
        let flag = mv.flag();
        proof {
            lemma_code_parts(mv@);
            assert(mv@ != 0) by {
                if mv@ == 0 {
                    assert((0u16 & 0x3Fu16) == 0u16 && ((0u16 >> 6u16) & 0x3Fu16) == 0u16) by (bit_vector);
                }
            }
        }
        let captured = if flag == Move::EN_PASSANT {
            Some(Piece::new(stm.flip(), PieceType::Pawn))
        } else {
            self.mailbox[to.index()]
        };
        let u = Undo {
            mv,
            captured,
            castling: self.castling,
            ep: self.ep,
            halfmove: self.halfmove,
            key: self.key,
            pawn_key: self.pawn_key,
        };
        self.undo_stack.push(u);
        self.key_history.push(self.key);
        self.prev = Ghost(self.prev@.push(s0));
        let mover = self.mailbox[from.index()].unwrap();

        let ghost k0 = self.key;
        let ghost h0 = board_hash(b0, 64);
        let ghost et0 = ep_term(s0.ep);
        // clear stale EP state
        if let Some(ep) = self.ep {
            self.ep = None;
            self.key = self.key ^ ep_file_key(ep.file());
        } else {
            proof {
                lemma_xor(k0, 0, 0, 0, 0);
            }
        }
        let ghost k1 = self.key;
        assert(k1 == k0 ^ et0);

        self.apply_board(mv, stm);
        let ghost k2 = self.key;
        let ghost b1 = self.board();
        let ghost h1 = board_hash(b1, 64);
        proof {
            lemma_make_keeps_kings(b0, stm, mv, Color::White);
            lemma_make_keeps_kings(b0, stm, mv, Color::Black);
        }

        if flag == Move::DOUBLE_PUSH {
            let ep_sq = Square::from_fr(from.file(), (from.rank() + to.rank()) / 2);
            if self.ep_capturable(ep_sq, stm) {
                self.ep = Some(ep_sq);
                self.key = self.key ^ ep_file_key(ep_sq.file());
            }
        }
        let ghost k3 = self.key;
        let ghost et1 = ep_term(self.ep);
        proof {
            if self.ep is None {
                lemma_xor(k2, 0, 0, 0, 0);
            }
            assert(self.ep == ep_after(b1, stm, mv));
        }
        assert(k3 == k2 ^ et1);

        // castling rights: per-square masks handle king moves, rook moves,
        // and rook captures uniformly
        let old_castling = self.castling.bits();
        self.castling.mask(castle_mask(from) & castle_mask(to));
        let new_castling = self.castling.bits();
        self.key = self.key ^ (castling_rights_key(old_castling) ^ castling_rights_key(new_castling));
        proof {
            let keep = castle_keep(from@) & castle_keep(to@);
            assert(old_castling < 16 ==> old_castling & keep < 16) by (bit_vector);
        }

        // clocks
        self.halfmove = if mover.piece_type() == PieceType::Pawn || mv.is_capture() {
            0
        } else {
            self.halfmove + 1
        };
        if stm == Color::Black {
            self.fullmove = self.fullmove + 1;
        }

        // side to move
        self.stm = stm.flip();
        let ghost k4 = self.key;
        self.key = self.key ^ black_to_move();
        proof {
            let k5 = self.key;
            let cc0 = castling_key(old_castling);
            let cc1 = castling_key(new_castling);
            let st0 = stm_term(stm);
            let st1 = stm_term(opposite(stm));
            let bk = black_to_move_key();
            lemma_stm_term_flip(stm);
            assert(k0 == h0 ^ (cc0 ^ et0 ^ st0));
            assert(k2 ^ h1 == k1 ^ h0);
            assert(k5 == h1 ^ (cc1 ^ et1 ^ st1)) by (bit_vector)
                requires
                    k0 == h0 ^ (cc0 ^ et0 ^ st0),
                    k1 == k0 ^ et0,
                    k2 ^ h1 == k1 ^ h0,
                    k3 == k2 ^ et1,
                    k4 == k3 ^ (cc0 ^ cc1),
                    k5 == k4 ^ bk,
                    st1 == st0 ^ bk,
            ;
            let pk = self.pawn_key;
            let pk0 = s0.pawn_key;
            let ph0 = pawn_hash(b0, 64);
            let ph1 = pawn_hash(b1, 64);
            assert(pk ^ ph1 == pk0 ^ ph0);
            lemma_xor(pk, ph1, pk0, ph0, 0);
            reveal(make_state);
            assert(self.state() == make_state(s0, mv));
            assert(state_ok(self.state()));
            self.lemma_history_after_push(*old(self), u);
        }

        // legality: mover's king must not be attacked
        proof {
            reveal(legal_after);
        }
        let ksq = self.king_sq(stm);
        if self.square_attacked(ksq, self.stm) {
            self.unmake();
            proof {
                assert(self.prev@ =~= old_trail.0);
                assert(self.undo_stack@ =~= old_trail.1);
                assert(self.key_history@ =~= old_trail.2);
            }
            return false;
        }
        true
    }

    /// After pushing the record of a step from `before`, the history is
    /// consistent again once the position has become the step's result.
    proof fn lemma_history_after_push(&self, before: Position, u: Undo)
        requires
            before.history_ok(),
            state_ok(before.state()),
            self.prev@ == before.prev@.push(before.state()),
            self.undo_stack@ == before.undo_stack@.push(u),
            self.key_history@ == before.key_history@.push(before.state().key),
            step_ok(before.state(), u, self.state()),
        ensures
            self.history_ok(),
    {
        reveal(Position::history_ok);
        let n = before.prev@.len() as int;
        let s0 = before.state();
        assert forall|i: int| 0 <= i < self.prev@.len() implies {
            &&& state_ok(#[trigger] self.prev@[i])
            &&& self.key_history@[i] == self.prev@[i].key
            &&& step_ok(self.prev@[i], self.undo_stack@[i], self.next_state(i))
        } by {
            if i < n {
                assert(self.prev@[i] == before.prev@[i]);
                assert(state_ok(before.prev@[i]));
                if i + 1 < n {
                    assert(self.next_state(i) == before.prev@[i + 1]);
                } else {
                    assert(self.next_state(i) == s0);
                }
            } else {
                assert(self.next_state(i) == self.state());
            }
        }
    }
}

/// Taking back the mover: it returns from the target to its origin (a
/// promoted piece turns back into a pawn).
pub open spec fn unmove_mover(nb: Seq<Option<Piece>>, stm: Color, m: Move) -> Seq<Option<Piece>> {
    let f = m.spec_from();
    let t = m.spec_to();
    if m.spec_is_promotion() {
        nb.update(t, None).update(f, Some(piece_of(stm, PieceType::Pawn)))
    } else {
        nb.update(t, None).update(f, nb[t])
    }
}

/// Taking back the castling rook or restoring the en-passant victim.
pub open spec fn unmove_extra(b: Seq<Option<Piece>>, stm: Color, m: Move) -> Seq<Option<Piece>> {
    let fl = m.spec_flag();
    if fl == 2 {
        b.update(rook_to(stm, true), None).update(rook_from(stm, true), b[rook_to(stm, true)])
    } else if fl == 3 {
        b.update(rook_to(stm, false), None).update(rook_from(stm, false), b[rook_to(stm, false)])
    } else if fl == 5 {
        b.update(
            ep_victim(m.spec_from(), m.spec_to()),
            Some(piece_of(opposite(stm), PieceType::Pawn)),
        )
    } else {
        b
    }
}

/// The board before move `m`, from the board after it and the captured piece.
pub open spec fn unmake_board(
    nb: Seq<Option<Piece>>,
    stm: Color,
    m: Move,
    cap: Option<Piece>,
) -> Seq<Option<Piece>> {
    let b3 = unmove_extra(unmove_mover(nb, stm, m), stm, m);
    if m.spec_flag() != 5 && cap is Some {
        b3.update(m.spec_to(), cap)
    } else {
        b3
    }
}

/// Taking a move back restores the board, and every step of it finds the
/// squares as it needs them.
pub proof fn lemma_unmake_board(b: Seq<Option<Piece>>, stm: Color, m: Move)
    requires
        board_ok(b),
        move_ok(b, stm, m),
    ensures
        ({
            let nb = make_board(b, stm, m);
            let cap = captured_piece(b, stm, m);
            let b2 = unmove_mover(nb, stm, m);
            let b3 = unmove_extra(b2, stm, m);
            let f = m.spec_from();
            let t = m.spec_to();
            let fl = m.spec_flag();
            &&& nb[t] is Some
            &&& nb[f] is None
            &&& (fl == 2 ==> b2[rook_to(stm, true)] is Some && b2[rook_from(stm, true)] is None)
            &&& (fl == 3 ==> b2[rook_to(stm, false)] is Some && b2[rook_from(stm, false)] is None)
            &&& (fl == 5 ==> b2[ep_victim(f, t)] is None)
            &&& (fl != 5 && cap is Some ==> b3[t] is None && cap->0@ % 6 != 5 && 0 <= cap->0@ < 12)
            &&& unmake_board(nb, stm, m, cap) == b
        }),
{
    let nb = make_board(b, stm, m);
    let cap = captured_piece(b, stm, m);
    let b1 = board_after_capture(b, m);
    let bm = board_after_mover(b, stm, m);
    let b2 = unmove_mover(nb, stm, m);
    let b3 = unmove_extra(b2, stm, m);
    let f = m.spec_from();
    let t = m.spec_to();
    let fl = m.spec_flag();
    lemma_code_parts(m@);
    if fl == 5 {
        lemma_square_coords(file_of(t), rank_of(f));
    }
    if fl == 2 {
        lemma_castle_squares(stm, true);
    }
    if fl == 3 {
        lemma_castle_squares(stm, false);
    }
    assert(b1[f] == b[f]);
    if m.spec_is_promotion() {
        let p = b[f]->0;
        assert(p == piece_of(stm, PieceType::Pawn));
    }
    assert(unmake_board(nb, stm, m, cap) =~= b);
}

impl Position {
    /// Exactly reverses the last make(). Key/castling/ep/halfmove restored
    /// from the undo record; piece moves reversed with raw (keyless) ops.
    #[verifier::rlimit(100)]
    #[verifier::spinoff_prover]
    pub fn unmake(&mut self)
        requires
            old(self).wf(),
            old(self).top_is_move(),
        ensures
            final(self).wf(),
            final(self).state() == old(self).prev_state(),
            final(self).trail() == (
                old(self).trail().0.drop_last(),
                old(self).trail().1.drop_last(),
                old(self).trail().2.drop_last(),
            ),
    {
        proof {
            reveal(Position::wf);
        }
        proof {
            reveal(Position::history_ok);
        }
        let ghost n = self.prev@.len() - 1;
        let ghost s = self.prev@[n];
        let ghost nb = self.board();
        proof {
            assert(state_ok(self.prev@[n]));
            assert(step_ok(s, self.undo_stack@[n], self.state()));
        }
        self.key_history.pop();
        let u = self.undo_stack.pop().unwrap();
        self.prev = Ghost(self.prev@.drop_last());
        let mv = u.mv;
        let flag = mv.flag();
        let from = mv.from();
        let to = mv.to();
        proof {
            lemma_code_parts(mv@);
        }
        self.stm = self.stm.flip(); // back to the mover
        let stm = self.stm;
        assert(stm == s.stm);
        if stm == Color::Black {
            self.fullmove = self.fullmove - 1;
        }
        proof {
            if flag == Move::EN_PASSANT {
                lemma_square_coords(file_of(to@), rank_of(from@));
            }
            if flag == Move::KING_CASTLE {
                lemma_castle_squares(stm, true);
            }
            if flag == Move::QUEEN_CASTLE {
                lemma_castle_squares(stm, false);
            }
        }
        proof {
            lemma_unmake_board(s.board, stm, mv);
        }
        let ghost cap = u.captured;
        // reverse the piece movement
        if mv.is_promotion() {
            self.remove_raw(to);
            self.put_raw(Piece::new(stm, PieceType::Pawn), from);
        } else {
            self.move_raw(to, from);
        }
        assert(self.board() == unmove_mover(nb, stm, mv));
        // reverse side effects
        if flag == Move::KING_CASTLE {
            let (rf, rt) = match stm {
                Color::White => (Square::h1(), Square::f1()),
                Color::Black => (Square::h8(), Square::f8()),
            };
            self.move_raw(rt, rf);
        } else if flag == Move::QUEEN_CASTLE {
            let (rf, rt) = match stm {
                Color::White => (Square::a1(), Square::d1()),
                Color::Black => (Square::a8(), Square::d8()),
            };
            self.move_raw(rt, rf);
        } else if flag == Move::EN_PASSANT {
            // captured pawn returns to from-rank, to-file
            self.put_raw(
                Piece::new(stm.flip(), PieceType::Pawn),
                Square::from_fr(to.file(), from.rank()),
            );
        }
        assert(self.board() == unmove_extra(unmove_mover(nb, stm, mv), stm, mv));
        if flag != Move::EN_PASSANT {
            if let Some(captured) = u.captured {
                self.put_raw(captured, to);
            }
        }
        assert(self.board() == unmake_board(nb, stm, mv, cap));
        self.castling = u.castling;
        self.ep = u.ep;
        self.halfmove = u.halfmove;
        self.key = u.key;
        self.pawn_key = u.pawn_key;
        proof {
            assert(self.state() == s);
            assert forall|i: int| 0 <= i < self.prev@.len() implies {
                &&& state_ok(#[trigger] self.prev@[i])
                &&& self.key_history@[i] == self.prev@[i].key
                &&& step_ok(self.prev@[i], self.undo_stack@[i], self.next_state(i))
            } by {
                assert(self.prev@[i] == old(self).prev@[i]);
                if i + 1 < self.prev@.len() {
                    assert(self.next_state(i) == old(self).next_state(i));
                } else {
                    assert(old(self).next_state(i) == s);
                }
            }
        }
    }
}

/// A repetition of the current key `key` among `keys`, looking back at most
/// `window` plies, same side to move only (even distances).
pub open spec fn repeats(keys: Seq<u64>, key: u64, window: int) -> bool {
    exists|d: int|
        2 <= d <= window && d <= keys.len() && d % 2 == 0 && #[trigger] keys[keys.len() - d] == key
}

impl Position {
    /// Null move: pass the turn (search-only device; illegal in chess).
    /// Pairs strictly with unmake_null — never with unmake().
    pub fn make_null(&mut self)
        requires
            old(self).wf(),
            old(self).state().halfmove < 0xFFFF,
        ensures
            final(self).wf(),
            final(self).state() == null_state(old(self).state()),
            final(self).prev_state() == old(self).state(),
            final(self).top_is_null(),
            final(self).depth() == old(self).depth() + 1,
            final(self).trail().0 == old(self).trail().0.push(old(self).state()),
            final(self).trail().1.drop_last() == old(self).trail().1,
            final(self).trail().2 == old(self).trail().2.push(old(self).state().key),
    {
        proof {
            reveal(Position::wf);
        }
        let ghost s0 = self.state();
        let ghost old_trail = self.trail();
        let u = Undo {
            mv: Move::null(),
            captured: None,
            castling: self.castling,
            ep: self.ep,
            halfmove: self.halfmove,
            key: self.key,
            pawn_key: self.pawn_key,
        };
        self.undo_stack.push(u);
        self.key_history.push(self.key);
        self.prev = Ghost(self.prev@.push(s0));
        let ghost k0 = self.key;
        if let Some(ep) = self.ep {
            self.ep = None;
            self.key = self.key ^ ep_file_key(ep.file());
        } else {
            proof {
                lemma_xor(k0, 0, 0, 0, 0);
            }
        }
        let ghost k1 = self.key;
        self.halfmove = self.halfmove + 1;
        self.stm = self.stm.flip();
        self.key = self.key ^ black_to_move();
        proof {
            let k2 = self.key;
            let h = board_hash(s0.board, 64);
            let cc = castling_key(s0.castling);
            let et0 = ep_term(s0.ep);
            let st0 = stm_term(s0.stm);
            let st1 = stm_term(opposite(s0.stm));
            let bk = black_to_move_key();
            lemma_stm_term_flip(s0.stm);
            assert(k2 == h ^ (cc ^ 0u64 ^ st1)) by (bit_vector)
                requires
                    k0 == h ^ (cc ^ et0 ^ st0),
                    k1 == k0 ^ et0,
                    k2 == k1 ^ bk,
                    st1 == st0 ^ bk,
            ;
            assert(self.state() == null_state(s0));
            self.lemma_history_after_push(*old(self), u);
        }
    }

    /// Takes back the last null move.
    pub fn unmake_null(&mut self)
        requires
            old(self).wf(),
            old(self).top_is_null(),
        ensures
            final(self).wf(),
            final(self).state() == old(self).prev_state(),
            final(self).trail() == (
                old(self).trail().0.drop_last(),
                old(self).trail().1.drop_last(),
                old(self).trail().2.drop_last(),
            ),
    {
        proof {
            reveal(Position::wf);
        }
        proof {
            reveal(Position::history_ok);
        }
        let ghost n = self.prev@.len() - 1;
        let ghost s = self.prev@[n];
        proof {
            assert(state_ok(self.prev@[n]));
            assert(step_ok(s, self.undo_stack@[n], self.state()));
        }
        self.key_history.pop();
        let u = self.undo_stack.pop().unwrap();
        self.prev = Ghost(self.prev@.drop_last());
        self.stm = self.stm.flip();
        self.castling = u.castling;
        self.ep = u.ep;
        self.halfmove = u.halfmove;
        self.key = u.key;
        self.pawn_key = u.pawn_key;
        proof {
            assert(self.state() == s);
            assert forall|i: int| 0 <= i < self.prev@.len() implies {
                &&& state_ok(#[trigger] self.prev@[i])
                &&& self.key_history@[i] == self.prev@[i].key
                &&& step_ok(self.prev@[i], self.undo_stack@[i], self.next_state(i))
            } by {
                assert(self.prev@[i] == old(self).prev@[i]);
                if i + 1 < self.prev@.len() {
                    assert(self.next_state(i) == old(self).next_state(i));
                } else {
                    assert(old(self).next_state(i) == s);
                }
            }
        }
    }

    /// Has the current position occurred before within the reversible-move
    /// window? (Twofold; search treats this as a draw.)
    pub fn is_repetition(&self) -> (r: bool)
        requires
            self.wf(),
        ensures
            r == repeats(self.trail().2, self.state().key, self.state().halfmove as int),
    {
        proof {
            reveal(Position::wf);
        }
        let n = self.key_history.len();
        let lookback = if (self.halfmove as usize) < n {
            self.halfmove as usize
        } else {
            n
        };
        // same side to move only: ancestors at distance 2, 4, ...
        let mut d: usize = 2;
        while d <= lookback
            invariant
                n == self.key_history@.len(),
                lookback <= n,
                lookback <= self.halfmove,
                lookback == n || lookback == self.halfmove,
                2 <= d,
                d % 2 == 0,
                d <= lookback + 2,
                forall|e: int|
                    2 <= e < d && e % 2 == 0 ==> #[trigger] self.key_history@[n - e] != self.key,
            decreases lookback + 2 - d,
        {
            if self.key_history[n - d] == self.key {
                return true;
            }
            d += 2;
        }
        proof {
            if repeats(self.key_history@, self.key, self.halfmove as int) {
                let e = choose|e: int|
                    2 <= e <= self.halfmove && e <= n && e % 2 == 0
                        && #[trigger] self.key_history@[n - e] == self.key;
                assert(e < d);
            }
        }
        false
    }
}

/// A move advances each clock by at most one.
pub proof fn lemma_make_clocks(s: PosState, m: Move)
    requires
        s.halfmove < 0xFFFF,
        s.fullmove < 0xFFFF,
    ensures
        make_state(s, m).halfmove <= s.halfmove + 1,
        make_state(s, m).fullmove <= s.fullmove + 1,
        make_state(s, m).stm == opposite(s.stm),
{
    reveal(make_state);
}

} // verus!
