//! Pseudo-legal move generation. Castling is generated fully legal;
//! everything else is filtered by `Position::make`.
use vstd::prelude::*;

use crate::board::attacks::{
    knight_attacks, king_attacks, pawn_attacks, bishop_attacks, rook_attacks, queen_attacks,
    pawn_step,
};
use crate::board::makemove::{
    king_home, castle_target, home_rank, rook_from, rook_to, lemma_castle_squares, move_ok,
    ep_victim, castle_keep, make_state, make_board, legal_after, board_after_capture,
    board_after_mover, passed_square, null_state,
};
use crate::board::attacks::lemma_square_coords;
use crate::board::position::{state_ok, attacker, king_square, holds_king, lemma_king_unique};
use crate::board::moves::{lemma_code_parts, uci_text};
use crate::board::attacks::{lemma_slider_not_self, lemma_coords_square};
use crate::board::fen::lemma_square_at_inverse;
use crate::board::position::{
    PosState, Position, attacked, occupancy, holds, holds_color, piece_attacks,
};
use crate::board::types::{
    CastlingRights, Color, Piece, PieceType, Square, opposite, piece_index, color_of_index, file_of, rank_of, square_at,
};
use crate::board::{Bitboard, Move, MoveList};
use crate::board::moves::lemma_move_eq;

verus! {

/// Rank step of a pawn push: up for white, down for black.
pub open spec fn forward(c: Color) -> int {
    match c {
        Color::White => 1,
        Color::Black => -1,
    }
}

/// Rank from which a pawn may double-push.
pub open spec fn start_rank(c: Color) -> int {
    match c {
        Color::White => 1,
        Color::Black => 6,
    }
}

/// Rank from which a pawn move promotes.
pub open spec fn promo_rank(c: Color) -> int {
    match c {
        Color::White => 6,
        Color::Black => 1,
    }
}

/// The square `n` ranks in front of `f` for color `c`.
pub open spec fn ahead(f: int, c: Color, n: int) -> int {
    square_at(file_of(f), rank_of(f) + n * forward(c))
}

/// A knight, bishop, rook, queen or king move (castling aside) to a square
/// the piece attacks, capturing whatever enemy piece stands there.
pub open spec fn piece_move(s: PosState, m: Move) -> bool {
    let b = s.board;
    let f = m.spec_from();
    let t = m.spec_to();
    &&& b[f] matches Some(p) && color_of_index(p@) == s.stm && p@ % 6 != 0
    &&& piece_attacks(b[f]->0@ % 6, s.stm, f, t, occupancy(b))
    &&& !holds_color(b, t, s.stm)
    &&& m.spec_flag() == if b[t] is Some {
        4int
    } else {
        0int
    }
}

/// A pawn push, double push, capture or en-passant capture.
pub open spec fn pawn_move(s: PosState, m: Move) -> bool {
    let b = s.board;
    let c = s.stm;
    let f = m.spec_from();
    let t = m.spec_to();
    let fl = m.spec_flag();
    &&& holds(b, f, piece_index(c, PieceType::Pawn))
    &&& {
        ||| (t == ahead(f, c, 1) && b[t] is None && if rank_of(f) == promo_rank(c) {
            8 <= fl <= 11
        } else {
            fl == 0
        })
        ||| (rank_of(f) == start_rank(c) && b[ahead(f, c, 1)] is None && t == ahead(f, c, 2)
            && b[t] is None && fl == 1)
        ||| (pawn_step(c, f, t) && holds_color(b, t, opposite(c)) && if rank_of(f) == promo_rank(
            c,
        ) {
            12 <= fl <= 15
        } else {
            fl == 4
        })
        ||| (s.ep matches Some(e) && t == e@ && pawn_step(c, f, t) && fl == 5)
    }
}

/// Castling right bit of color `c` on the given side.
pub open spec fn castle_right(c: Color, ks: bool) -> u8 {
    match c {
        Color::White => if ks {
            1u8
        } else {
            2u8
        },
        Color::Black => if ks {
            4u8
        } else {
            8u8
        },
    }
}

/// Castling on the given side is allowed: the right is held, the squares
/// between king and rook are empty, and the king does not start on, pass
/// through or land on an attacked square.
pub open spec fn castle_allowed(s: PosState, ks: bool) -> bool {
    let b = s.board;
    let c = s.stm;
    let occ = occupancy(b);
    let e = king_home(c);
    let r = home_rank(c);
    let them = opposite(c);
    &&& s.castling & castle_right(c, ks) != 0
    &&& if ks {
        &&& b[square_at(5, r)] is None
        &&& b[square_at(6, r)] is None
        &&& !attacked(b, occ, e, them)
        &&& !attacked(b, occ, square_at(5, r), them)
        &&& !attacked(b, occ, square_at(6, r), them)
    } else {
        &&& b[square_at(3, r)] is None
        &&& b[square_at(2, r)] is None
        &&& b[square_at(1, r)] is None
        &&& !attacked(b, occ, e, them)
        &&& !attacked(b, occ, square_at(3, r), them)
        &&& !attacked(b, occ, square_at(2, r), them)
    }
}

pub open spec fn castle_move(s: PosState, m: Move) -> bool {
    let c = s.stm;
    ||| (m.spec_flag() == 2 && m.spec_from() == king_home(c) && m.spec_to() == castle_target(c, true)
        && castle_allowed(s, true))
    ||| (m.spec_flag() == 3 && m.spec_from() == king_home(c) && m.spec_to() == castle_target(
        c,
        false,
    ) && castle_allowed(s, false))
}

/// The pseudo-legal moves of the side to move.
#[verifier::opaque]
pub open spec fn pseudo_legal(s: PosState, m: Move) -> bool {
    piece_move(s, m) || pawn_move(s, m) || castle_move(s, m)
}

/// `new` is `old` followed by moves that all satisfy `p`, and every move
/// satisfying `p` is among them.
pub open spec fn appended(old: Seq<Move>, new: Seq<Move>, p: spec_fn(Move) -> bool) -> bool {
    &&& new.len() >= old.len()
    &&& new.subrange(0, old.len() as int) == old
    &&& forall|k: int| old.len() <= k < new.len() ==> p(#[trigger] new[k])
    &&& forall|m: Move| #[trigger] p(m) ==> exists|k: int| old.len() <= k < new.len() && #[trigger] new[k] == m
}

/// Moves satisfying `p` or `q`.
pub open spec fn either(p: spec_fn(Move) -> bool, q: spec_fn(Move) -> bool) -> spec_fn(Move) -> bool {
    |m: Move| p(m) || q(m)
}

/// Appending twice appends the union.
pub proof fn lemma_appended_trans(
    a: Seq<Move>,
    b: Seq<Move>,
    c: Seq<Move>,
    p: spec_fn(Move) -> bool,
    q: spec_fn(Move) -> bool,
)
    requires
        appended(a, b, p),
        appended(b, c, q),
    ensures
        appended(a, c, either(p, q)),
{
    let r = either(p, q);
    assert(c.subrange(0, a.len() as int) =~= a) by {
        assert forall|k: int| 0 <= k < a.len() implies c.subrange(0, a.len() as int)[k] == a[k] by {
            assert(c.subrange(0, b.len() as int)[k] == b[k]);
            assert(b.subrange(0, a.len() as int)[k] == a[k]);
        }
    }
    assert forall|k: int| a.len() <= k < c.len() implies r(#[trigger] c[k]) by {
        if k < b.len() {
            assert(c.subrange(0, b.len() as int)[k] == b[k]);
            assert(p(b[k]));
        }
    }
    assert forall|m: Move| #[trigger] r(m) implies exists|k: int|
        a.len() <= k < c.len() && #[trigger] c[k] == m by {
        if p(m) {
            let k = choose|k: int| a.len() <= k < b.len() && #[trigger] b[k] == m;
            assert(c.subrange(0, b.len() as int)[k] == b[k]);
            assert(c[k] == m);
        }
    }
}

/// Moves from `f` to each square of `targets`, flagged as captures where
/// `enemy` has a piece.
pub open spec fn target_moves(f: int, targets: Bitboard, enemy: Bitboard) -> spec_fn(Move) -> bool {
    |m: Move|
        m.spec_from() == f && targets.has(m.spec_to()) && m.spec_flag() == if enemy.has(
            m.spec_to(),
        ) {
            4int
        } else {
            0int
        }
}

fn push_targets(list: &mut MoveList, from: Square, targets: Bitboard, enemy: Bitboard)
    ensures
        appended(old(list)@, final(list)@, target_moves(from@, targets, enemy)),
{
    let sqs = targets.squares();
    let ghost n0 = list@.len() as int;
    let ghost p = target_moves(from@, targets, enemy);
    let mut k: usize = 0;
    while k < sqs.len()
        invariant
            k <= sqs.len(),
            n0 == old(list)@.len(),
            list@.len() == n0 + k,
            list@.subrange(0, n0) == old(list)@,
            forall|j: int|
                0 <= j < k ==> {
                    let m = #[trigger] list@[n0 + j];
                    &&& m.spec_from() == from@
                    &&& m.spec_to() == sqs@[j]@
                    &&& m.spec_flag() == if enemy.has(sqs@[j]@) {
                        4int
                    } else {
                        0int
                    }
                },
        decreases sqs.len() - k,
    {
        let to = sqs[k];
        let flag = if enemy.contains(to) {
            Move::CAPTURE
        } else {
            Move::QUIET
        };
        let ghost before = list@;
        list.push(Move::new(from, to, flag));
        proof {
            assert(list@.subrange(0, n0) =~= before.subrange(0, n0));
            assert forall|j: int| 0 <= j < k + 1 implies {
                let m = #[trigger] list@[n0 + j];
                &&& m.spec_from() == from@
                &&& m.spec_to() == sqs@[j]@
                &&& m.spec_flag() == if enemy.has(sqs@[j]@) {
                    4int
                } else {
                    0int
                }
            } by {
                if j < k {
                    assert(list@[n0 + j] == before[n0 + j]);
                }
            }
        }
        k += 1;
    }
    proof {
        assert forall|j: int| n0 <= j < list@.len() implies p(#[trigger] list@[j]) by {
            let jj = j - n0;
            assert(list@[n0 + jj] == list@[j]);
            assert(targets.has(sqs@[jj]@));
        }
        assert forall|m: Move| #[trigger] p(m) implies exists|j: int|
            n0 <= j < list@.len() && #[trigger] list@[j] == m by {
            let jj = choose|jj: int| 0 <= jj < sqs.len() && #[trigger] sqs@[jj]@ == m.spec_to();
            let x = list@[n0 + jj];
            lemma_move_eq(x, m);
        }
    }
}

/// Appended moves can be described by any equivalent predicate.
pub proof fn lemma_appended_equiv(
    old: Seq<Move>,
    new: Seq<Move>,
    p: spec_fn(Move) -> bool,
    q: spec_fn(Move) -> bool,
)
    requires
        appended(old, new, p),
        forall|m: Move| #[trigger] p(m) == q(m),
    ensures
        appended(old, new, q),
{
    assert forall|k: int| old.len() <= k < new.len() implies q(#[trigger] new[k]) by {
        assert(p(new[k]));
    }
    assert forall|m: Move| #[trigger] q(m) implies exists|k: int|
        old.len() <= k < new.len() && #[trigger] new[k] == m by {
        assert(p(m));
    }
}

/// Nothing is appended.
pub proof fn lemma_appended_none(l: Seq<Move>, p: spec_fn(Move) -> bool)
    requires
        forall|m: Move| !#[trigger] p(m),
    ensures
        appended(l, l, p),
{
    assert(l.subrange(0, l.len() as int) =~= l);
}

/// A piece move by a piece of type `pt`.
pub open spec fn piece_move_of(s: PosState, m: Move, pt: PieceType) -> bool {
    piece_move(s, m) && s.board[m.spec_from()]->0@ % 6 == crate::board::types::type_index(pt)
}

/// Piece moves of type `pt` from the origins `froms[0..k]`.
pub open spec fn piece_moves_from(s: PosState, pt: PieceType, froms: Seq<Square>, k: int) -> spec_fn(
    Move,
) -> bool {
    |m: Move| piece_move_of(s, m, pt) && exists|j: int| 0 <= j < k && #[trigger] froms[j]@ == m.spec_from()
}

pub open spec fn piece_moves_of(s: PosState, pt: PieceType) -> spec_fn(Move) -> bool {
    |m: Move| piece_move_of(s, m, pt)
}

/// The squares a non-pawn piece of type `pt` on `from` attacks.
fn attacks_of(pt: PieceType, from: Square, occ: Bitboard) -> (r: Bitboard)
    requires
        pt != PieceType::Pawn,
    ensures
        forall|t: int|
            #[trigger] r.has(t) == piece_attacks(
                crate::board::types::type_index(pt),
                Color::White,
                from@,
                t,
                occ.0,
            ),
{
    match pt {
        PieceType::Knight => knight_attacks(from),
        PieceType::Bishop => bishop_attacks(from, occ),
        PieceType::Rook => rook_attacks(from, occ),
        PieceType::Queen => queen_attacks(from, occ),
        _ => king_attacks(from),
    }
}

/// Appends the moves of the pieces of type `pt` (not pawns) of the side to move.
#[verifier::rlimit(40)]
fn piece_moves(
    pos: &Position,
    list: &mut MoveList,
    pt: PieceType,
    own: Bitboard,
    enemy: Bitboard,
    occ: Bitboard,
)
    requires
        pos.wf(),
        pt != PieceType::Pawn,
        forall|i: int| 0 <= i < 64 ==> (#[trigger] own.has(i) <==> holds_color(pos.state().board, i, pos.state().stm)),
        forall|i: int| 0 <= i < 64 ==> (#[trigger] enemy.has(i) <==> holds_color(pos.state().board, i, opposite(pos.state().stm))),
        occ.0 == occupancy(pos.state().board),
    ensures
        appended(old(list)@, final(list)@, piece_moves_of(pos.state(), pt)),
{
    proof {
        reveal(Position::wf);
    }
    let ghost s = pos.state();
    let ghost b = s.board;
    let stm = pos.stm();
    let bbp = pos.piece_bb(stm, pt);
    let froms = bbp.squares();
    let not_own = own.complement();
    proof {
        assert forall|i: int| 0 <= i < 64 && holds(b, i, piece_index(stm, pt)) implies exists|j: int|
            0 <= j < froms.len() && #[trigger] froms@[j]@ == i by {
            assert(bbp.has(i));
        }
        lemma_appended_none(list@, piece_moves_from(s, pt, froms@, 0));
    }
    let mut k: usize = 0;
    while k < froms.len()
        invariant
            k <= froms.len(),
            b == s.board,
            crate::board::position::board_ok(b),
            stm == s.stm,
            pt != PieceType::Pawn,
            forall|i: int| 0 <= i < 64 ==> (#[trigger] not_own.has(i) <==> !holds_color(b, i, stm)),
            forall|i: int| 0 <= i < 64 ==> (#[trigger] enemy.has(i) <==> holds_color(b, i, opposite(stm))),
            occ.0 == occupancy(b),
            forall|j: int| 0 <= j < froms.len() ==> holds(b, (#[trigger] froms@[j])@, piece_index(stm, pt)),
            forall|i: int| 0 <= i < 64 && holds(b, i, piece_index(stm, pt)) ==> exists|j: int| 0 <= j < froms.len() && #[trigger] froms@[j]@ == i,
            appended(old(list)@, list@, piece_moves_from(s, pt, froms@, k as int)),
        decreases froms.len() - k,
    {
        let from = froms[k];
        let targets = attacks_of(pt, from, occ).and(not_own);
        let ghost l1 = list@;
        push_targets(list, from, targets, enemy);
        proof {
            let tp = target_moves(from@, targets, enemy);
            let pk = piece_moves_from(s, pt, froms@, k as int);
            let pk1 = piece_moves_from(s, pt, froms@, k + 1);
            lemma_appended_trans(old(list)@, l1, list@, pk, tp);
            lemma_piece_step(s, pt, froms@, k as int, targets, not_own, enemy, occ);
            lemma_appended_equiv(old(list)@, list@, either(pk, tp), pk1);
        }
        k += 1;
    }
    proof {
        let pk = piece_moves_from(s, pt, froms@, k as int);
        lemma_piece_all(s, pt, froms@);
        lemma_appended_equiv(old(list)@, list@, pk, piece_moves_of(s, pt));
    }
}

proof fn lemma_piece_step(
    s: PosState,
    pt: PieceType,
    froms: Seq<Square>,
    k: int,
    targets: Bitboard,
    not_own: Bitboard,
    enemy: Bitboard,
    occ: Bitboard,
)
    requires
        0 <= k < froms.len(),
        pt != PieceType::Pawn,
        forall|i: int| 0 <= i < 64 ==> (#[trigger] not_own.has(i) <==> !holds_color(s.board, i, s.stm)),
        forall|i: int| 0 <= i < 64 ==> (#[trigger] enemy.has(i) <==> holds_color(s.board, i, opposite(s.stm))),
        occ.0 == occupancy(s.board),
        forall|j: int| 0 <= j < froms.len() ==> holds(s.board, (#[trigger] froms[j])@, piece_index(s.stm, pt)),
        forall|t: int|
            #[trigger] targets.has(t) == (piece_attacks(
                crate::board::types::type_index(pt),
                Color::White,
                froms[k]@,
                t,
                occ.0,
            ) && not_own.has(t)),
    ensures
        forall|m: Move| #[trigger] either(piece_moves_from(s, pt, froms, k), target_moves(froms[k]@, targets, enemy))(m)
            == piece_moves_from(s, pt, froms, k + 1)(m),
{
    let b = s.board;
    let stm = s.stm;
    let from = froms[k];
    let tp = target_moves(from@, targets, enemy);
    let pk = piece_moves_from(s, pt, froms, k);
    let pk1 = piece_moves_from(s, pt, froms, k + 1);
    assert forall|m: Move| #[trigger] either(pk, tp)(m) == pk1(m) by {
        let f = m.spec_from();
        let t = m.spec_to();
        if pk1(m) {
            let j = choose|j: int| 0 <= j < k + 1 && #[trigger] froms[j]@ == m.spec_from();
            if j < k {
                assert(pk(m));
            } else {
                assert(f == from@);
                assert(b[t] is Some ==> holds_color(b, t, opposite(stm)));
                assert(tp(m));
            }
        }
        if tp(m) {
            assert(froms[k]@ == f);
            assert(holds(b, f, piece_index(stm, pt)));
            assert(0 <= t < 64);
            assert(piece_move_of(s, m, pt));
        }
        if pk(m) {
            let j = choose|j: int| 0 <= j < k && #[trigger] froms[j]@ == m.spec_from();
            assert(froms[j]@ == f);
        }
    }
}

proof fn lemma_piece_all(s: PosState, pt: PieceType, froms: Seq<Square>)
    requires
        crate::board::position::board_ok(s.board),
        forall|i: int| 0 <= i < 64 && holds(s.board, i, piece_index(s.stm, pt)) ==> exists|j: int| 0 <= j < froms.len() && #[trigger] froms[j]@ == i,
    ensures
        forall|m: Move| #[trigger] piece_moves_from(s, pt, froms, froms.len() as int)(m) == piece_moves_of(s, pt)(m),
{
    assert forall|m: Move| #[trigger] piece_moves_from(s, pt, froms, froms.len() as int)(m) == piece_moves_of(s, pt)(m) by {
        if piece_move_of(s, m, pt) {
            let f = m.spec_from();
            crate::board::moves::lemma_code_parts(m@);
            assert(holds(s.board, f, piece_index(s.stm, pt)));
        }
    }
}

/// Moves from `f` to `t` with a flag in `lo..=hi`.
pub open spec fn moves_between(f: int, t: int, lo: int, hi: int) -> spec_fn(Move) -> bool {
    |m: Move| m.spec_from() == f && m.spec_to() == t && lo <= m.spec_flag() <= hi
}

/// Appends the single move `from`-`to` with `flag`.
fn push_one(list: &mut MoveList, from: Square, to: Square, flag: u16)
    requires
        flag < 16,
    ensures
        appended(old(list)@, final(list)@, moves_between(from@, to@, flag as int, flag as int)),
{
    let m = Move::new(from, to, flag);
    list.push(m);
    proof {
        let p = moves_between(from@, to@, flag as int, flag as int);
        let n = old(list)@.len() as int;
        assert(list@.subrange(0, n) =~= old(list)@);
        assert(list@[n] == m);
        assert forall|x: Move| #[trigger] p(x) implies exists|k: int| n <= k < list@.len() && #[trigger] list@[k] == x by {
            lemma_move_eq(x, m);
        }
    }
}

/// Appends the four promotions `from`-`to` with flags `base + 3` down to
/// `base` (queen, rook, bishop, knight).
fn push_promos(list: &mut MoveList, from: Square, to: Square, base: u16)
    requires
        base == 8 || base == 12,
    ensures
        appended(old(list)@, final(list)@, moves_between(from@, to@, base as int, base + 3)),
{
    let q = Move::new(from, to, base + 3);
    let r = Move::new(from, to, base + 2);
    let b = Move::new(from, to, base + 1);
    let n = Move::new(from, to, base);
    list.push(q);
    list.push(r);
    list.push(b);
    list.push(n);
    proof {
        let p = moves_between(from@, to@, base as int, base + 3);
        let k0 = old(list)@.len() as int;
        assert(list@.subrange(0, k0) =~= old(list)@);
        assert(list@[k0] == q && list@[k0 + 1] == r && list@[k0 + 2] == b && list@[k0 + 3] == n);
        assert forall|x: Move| #[trigger] p(x) implies exists|k: int| k0 <= k < list@.len() && #[trigger] list@[k] == x by {
            if x.spec_flag() == base + 3 {
                lemma_move_eq(x, q);
            } else if x.spec_flag() == base + 2 {
                lemma_move_eq(x, r);
            } else if x.spec_flag() == base + 1 {
                lemma_move_eq(x, b);
            } else {
                lemma_move_eq(x, n);
            }
        }
    }
}

/// No pawn stands on the first or last rank.
pub open spec fn pawns_inside(b: Seq<Option<Piece>>) -> bool {
    forall|i: int|
        0 <= i < 64 && (#[trigger] b[i] matches Some(p) && p@ % 6 == 0) ==> 1 <= rank_of(i) <= 6
}

/// The pawn moves from `f`.
pub open spec fn pawn_moves_at(s: PosState, f: int) -> spec_fn(Move) -> bool {
    |m: Move| m.spec_from() == f && pawn_move(s, m)
}

/// Captures by the pawn on `f` onto targets `targets[0..k]`.
pub open spec fn pawn_caps_upto(s: PosState, f: int, targets: Seq<Square>, k: int) -> spec_fn(
    Move,
) -> bool {
    |m: Move|
        m.spec_from() == f && (exists|j: int| 0 <= j < k && #[trigger] targets[j]@ == m.spec_to())
            && if rank_of(f) == promo_rank(s.stm) {
            12 <= m.spec_flag() <= 15
        } else {
            m.spec_flag() == 4
        }
}

/// Single and double pushes of the pawn on `f`.
pub open spec fn push_part(s: PosState, f: int) -> spec_fn(Move) -> bool {
    |m: Move| {
        let b = s.board;
        let c = s.stm;
        let t = m.spec_to();
        let fl = m.spec_flag();
        m.spec_from() == f && ((t == ahead(f, c, 1) && b[t] is None && if rank_of(f) == promo_rank(
            c,
        ) {
            8 <= fl <= 11
        } else {
            fl == 0
        }) || (rank_of(f) == start_rank(c) && b[ahead(f, c, 1)] is None && t == ahead(f, c, 2)
            && b[t] is None && fl == 1))
    }
}

/// Captures of the pawn on `f`.
pub open spec fn cap_part(s: PosState, f: int) -> spec_fn(Move) -> bool {
    |m: Move| {
        let c = s.stm;
        let t = m.spec_to();
        m.spec_from() == f && pawn_step(c, f, t) && holds_color(s.board, t, opposite(c))
            && if rank_of(f) == promo_rank(c) {
            12 <= m.spec_flag() <= 15
        } else {
            m.spec_flag() == 4
        }
    }
}

/// The en-passant capture of the pawn on `f`.
pub open spec fn ep_part(s: PosState, f: int) -> spec_fn(Move) -> bool {
    |m: Move|
        m.spec_from() == f && (s.ep matches Some(e) && m.spec_to() == e@ && pawn_step(
            s.stm,
            f,
            m.spec_to(),
        ) && m.spec_flag() == 5)
}

/// Appends the moves of the pawn on `from`.
#[verifier::rlimit(40)]
fn pawn_moves_from(
    pos: &Position,
    list: &mut MoveList,
    from: Square,
    stm: Color,
    enemy: Bitboard,
    occ: Bitboard,
)
    requires
        pos.boards_ok(),
        stm == pos.state().stm,
        holds(pos.state().board, from@, piece_index(stm, PieceType::Pawn)),
        1 <= rank_of(from@) <= 6,
        forall|i: int| 0 <= i < 64 ==> (#[trigger] enemy.has(i) <==> holds_color(pos.state().board, i, opposite(stm))),
        forall|i: int| 0 <= i < 64 ==> (#[trigger] occ.has(i) <==> pos.state().board[i] is Some),
    ensures
        appended(old(list)@, final(list)@, pawn_moves_at(pos.state(), from@)),
{
    let ghost s = pos.state();
    let ghost b = s.board;
    let ghost f = from@;
    let rank = from.rank();
    let white = stm == Color::White;
    let (start, promo): (u8, u8) = if white {
        (1, 6)
    } else {
        (6, 1)
    };
    proof {
        use_type_invariant(&from);
    }
    let one = if white {
        Square::new(from.index() as u8 + 8)
    } else {
        Square::new(from.index() as u8 - 8)
    };
    assert(one@ == ahead(f, stm, 1));
    let ghost l0 = list@;
    let ghost pp = push_part(s, f);
    if !occ.contains(one) {
        if rank == promo {
            push_promos(list, from, one, 8);
            proof {
                let q = moves_between(f, one@, 8, 11);
                assert forall|m: Move| #[trigger] q(m) == pp(m) by {}
                lemma_appended_equiv(l0, list@, q, pp);
            }
        } else {
            push_one(list, from, one, Move::QUIET);
            let ghost l01 = list@;
            let ghost q1 = moves_between(f, one@, 0, 0);
            if rank == start {
                let two = if white {
                    Square::new(one.index() as u8 + 8)
                } else {
                    Square::new(one.index() as u8 - 8)
                };
                assert(two@ == ahead(f, stm, 2));
                if !occ.contains(two) {
                    push_one(list, from, two, Move::DOUBLE_PUSH);
                    proof {
                        let q2 = moves_between(f, two@, 1, 1);
                        lemma_appended_trans(l0, l01, list@, q1, q2);
                        assert forall|m: Move| #[trigger] either(q1, q2)(m) == pp(m) by {}
                        lemma_appended_equiv(l0, list@, either(q1, q2), pp);
                    }
                } else {
                    proof {
                        assert forall|m: Move| #[trigger] q1(m) == pp(m) by {}
                        lemma_appended_equiv(l0, list@, q1, pp);
                    }
                }
            } else {
                proof {
                    assert forall|m: Move| #[trigger] q1(m) == pp(m) by {}
                    lemma_appended_equiv(l0, list@, q1, pp);
                }
            }
        }
    } else {
        proof {
            assert(b[one@] is Some);
            assert forall|m: Move| !#[trigger] pp(m) by {}
            lemma_appended_none(l0, pp);
        }
    }
    let ghost l1 = list@;

    // captures
    let att = pawn_attacks(stm, from);
    let tb = att.and(enemy);
    let targets = tb.squares();
    let ghost cp = cap_part(s, f);
    proof {
        lemma_appended_none(l1, pawn_caps_upto(s, f, targets@, 0));
    }
    let mut k: usize = 0;
    while k < targets.len()
        invariant
            k <= targets.len(),
            rank == rank_of(f),
            promo == promo_rank(stm),
            s.stm == stm,
            f == from@,
            appended(l1, list@, pawn_caps_upto(s, f, targets@, k as int)),
        decreases targets.len() - k,
    {
        let to = targets[k];
        let ghost la = list@;
        let ghost pk = pawn_caps_upto(s, f, targets@, k as int);
        let ghost pk1 = pawn_caps_upto(s, f, targets@, k + 1);
        if rank == promo {
            push_promos(list, from, to, 12);
            proof {
                let q = moves_between(f, to@, 12, 15);
                lemma_appended_trans(l1, la, list@, pk, q);
                assert forall|m: Move| #[trigger] either(pk, q)(m) == pk1(m) by {
                    if pk1(m) {
                        let j = choose|j: int| 0 <= j < k + 1 && #[trigger] targets@[j]@ == m.spec_to();
                        if j < k {
                            assert(pk(m));
                        }
                    }
                    if pk(m) {
                        let j = choose|j: int| 0 <= j < k && #[trigger] targets@[j]@ == m.spec_to();
                        assert(targets@[j]@ == m.spec_to());
                    }
                    if q(m) {
                        assert(targets@[k as int]@ == m.spec_to());
                    }
                }
                lemma_appended_equiv(l1, list@, either(pk, q), pk1);
            }
        } else {
            push_one(list, from, to, Move::CAPTURE);
            proof {
                let q = moves_between(f, to@, 4, 4);
                lemma_appended_trans(l1, la, list@, pk, q);
                assert forall|m: Move| #[trigger] either(pk, q)(m) == pk1(m) by {
                    if pk1(m) {
                        let j = choose|j: int| 0 <= j < k + 1 && #[trigger] targets@[j]@ == m.spec_to();
                        if j < k {
                            assert(pk(m));
                        }
                    }
                    if pk(m) {
                        let j = choose|j: int| 0 <= j < k && #[trigger] targets@[j]@ == m.spec_to();
                        assert(targets@[j]@ == m.spec_to());
                    }
                    if q(m) {
                        assert(targets@[k as int]@ == m.spec_to());
                    }
                }
                lemma_appended_equiv(l1, list@, either(pk, q), pk1);
            }
        }
        k += 1;
    }
    proof {
        let pk = pawn_caps_upto(s, f, targets@, targets.len() as int);
        assert forall|m: Move| #[trigger] pk(m) == cp(m) by {
            if cp(m) {
                assert(tb.has(m.spec_to()));
                let j = choose|j: int| 0 <= j < targets.len() && #[trigger] targets@[j]@ == m.spec_to();
            }
            if pk(m) {
                let j = choose|j: int| 0 <= j < targets.len() && #[trigger] targets@[j]@ == m.spec_to();
                assert(tb.has(targets@[j]@));
            }
        }
        lemma_appended_equiv(l1, list@, pk, cp);
    }
    let ghost l2 = list@;

    // en passant (ep is set only when capturable)
    let ghost ep = ep_part(s, f);
    match pos.ep() {
        Some(e) => {
            if att.contains(e) {
                push_one(list, from, e, Move::EN_PASSANT);
                proof {
                    let q = moves_between(f, e@, 5, 5);
                    assert forall|m: Move| #[trigger] q(m) == ep(m) by {}
                    lemma_appended_equiv(l2, list@, q, ep);
                }
            } else {
                proof {
                    assert forall|m: Move| !#[trigger] ep(m) by {}
                    lemma_appended_none(l2, ep);
                }
            }
        },
        None => {
            proof {
                assert forall|m: Move| !#[trigger] ep(m) by {}
                lemma_appended_none(l2, ep);
            }
        },
    }
    proof {
        lemma_appended_trans(l0, l1, l2, pp, cp);
        lemma_appended_trans(l0, l2, list@, either(pp, cp), ep);
        let all = pawn_moves_at(s, f);
        assert forall|m: Move| #[trigger] either(either(pp, cp), ep)(m) == all(m) by {}
        lemma_appended_equiv(l0, list@, either(either(pp, cp), ep), all);
    }
}

/// Pawn moves from the origins `froms[0..k]`.
pub open spec fn pawn_moves_upto(s: PosState, froms: Seq<Square>, k: int) -> spec_fn(Move) -> bool {
    |m: Move| pawn_move(s, m) && exists|j: int| 0 <= j < k && #[trigger] froms[j]@ == m.spec_from()
}

pub open spec fn pawn_moves_all(s: PosState) -> spec_fn(Move) -> bool {
    |m: Move| pawn_move(s, m)
}

/// Appends the pawn moves of the side to move.
fn pawn_moves(pos: &Position, list: &mut MoveList, stm: Color, enemy: Bitboard, occ: Bitboard)
    requires
        pos.wf(),
        stm == pos.state().stm,
        pawns_inside(pos.state().board),
        forall|i: int| 0 <= i < 64 ==> (#[trigger] enemy.has(i) <==> holds_color(pos.state().board, i, opposite(stm))),
        forall|i: int| 0 <= i < 64 ==> (#[trigger] occ.has(i) <==> pos.state().board[i] is Some),
    ensures
        appended(old(list)@, final(list)@, pawn_moves_all(pos.state())),
{
    proof {
        reveal(Position::wf);
    }
    let ghost s = pos.state();
    let ghost b = s.board;
    let bbp = pos.piece_bb(stm, PieceType::Pawn);
    let froms = bbp.squares();
    proof {
        assert forall|i: int| 0 <= i < 64 && holds(b, i, piece_index(stm, PieceType::Pawn)) implies exists|j: int|
            0 <= j < froms.len() && #[trigger] froms@[j]@ == i by {
            assert(bbp.has(i));
        }
        lemma_appended_none(list@, pawn_moves_upto(s, froms@, 0));
    }
    let mut k: usize = 0;
    while k < froms.len()
        invariant
            k <= froms.len(),
            pos.boards_ok(),
            s == pos.state(),
            b == s.board,
            stm == s.stm,
            pawns_inside(b),
            forall|i: int| 0 <= i < 64 ==> (#[trigger] enemy.has(i) <==> holds_color(b, i, opposite(stm))),
            forall|i: int| 0 <= i < 64 ==> (#[trigger] occ.has(i) <==> b[i] is Some),
            forall|j: int| 0 <= j < froms.len() ==> holds(b, (#[trigger] froms@[j])@, piece_index(stm, PieceType::Pawn)),
            forall|i: int| 0 <= i < 64 && holds(b, i, piece_index(stm, PieceType::Pawn)) ==> exists|j: int| 0 <= j < froms.len() && #[trigger] froms@[j]@ == i,
            appended(old(list)@, list@, pawn_moves_upto(s, froms@, k as int)),
        decreases froms.len() - k,
    {
        let from = froms[k];
        let ghost l1 = list@;
        proof {
            assert(holds(b, from@, piece_index(stm, PieceType::Pawn)));
            use_type_invariant(&from);
            assert(b[from@] matches Some(p) && p@ % 6 == 0);
        }
        pawn_moves_from(pos, list, from, stm, enemy, occ);
        proof {
            let pk = pawn_moves_upto(s, froms@, k as int);
            let pk1 = pawn_moves_upto(s, froms@, k + 1);
            let q = pawn_moves_at(s, from@);
            lemma_appended_trans(old(list)@, l1, list@, pk, q);
            assert forall|m: Move| #[trigger] either(pk, q)(m) == pk1(m) by {
                if pk1(m) {
                    let j = choose|j: int| 0 <= j < k + 1 && #[trigger] froms@[j]@ == m.spec_from();
                    if j < k {
                        assert(pk(m));
                    }
                }
                if pk(m) {
                    let j = choose|j: int| 0 <= j < k && #[trigger] froms@[j]@ == m.spec_from();
                    assert(froms@[j]@ == m.spec_from());
                }
                if q(m) {
                    assert(froms@[k as int]@ == m.spec_from());
                }
            }
            lemma_appended_equiv(old(list)@, list@, either(pk, q), pk1);
        }
        k += 1;
    }
    proof {
        let pk = pawn_moves_upto(s, froms@, froms.len() as int);
        assert forall|m: Move| #[trigger] pk(m) == pawn_moves_all(s)(m) by {
            if pawn_move(s, m) {
                crate::board::moves::lemma_code_parts(m@);
                let f = m.spec_from();
                assert(holds(b, f, piece_index(stm, PieceType::Pawn)));
                let j = choose|j: int| 0 <= j < froms.len() && #[trigger] froms@[j]@ == f;
            }
        }
        lemma_appended_equiv(old(list)@, list@, pk, pawn_moves_all(s));
    }
}

pub open spec fn castle_moves_all(s: PosState) -> spec_fn(Move) -> bool {
    |m: Move| castle_move(s, m)
}

/// Appends the castling moves of the side to move (fully legal).
fn castling_moves(pos: &Position, list: &mut MoveList, stm: Color, occ: Bitboard)
    requires
        pos.wf(),
        stm == pos.state().stm,
        forall|i: int| 0 <= i < 64 ==> (#[trigger] occ.has(i) <==> pos.state().board[i] is Some),
    ensures
        appended(old(list)@, final(list)@, castle_moves_all(pos.state())),
{
    proof {
        reveal(Position::wf);
    }
    let ghost s = pos.state();
    let enemy = stm.flip();
    let (ks_right, qs_right, e, f, g, d, c, b) = match stm {
        Color::White => (
            CastlingRights::wk(),
            CastlingRights::wq(),
            Square::e1(),
            Square::f1(),
            Square::g1(),
            Square::d1(),
            Square::c1(),
            Square::new(1),
        ),
        Color::Black => (
            CastlingRights::bk(),
            CastlingRights::bq(),
            Square::e8(),
            Square::f8(),
            Square::g8(),
            Square::d8(),
            Square::c8(),
            Square::new(57),
        ),
    };
    proof {
        lemma_castle_squares(stm, true);
        lemma_castle_squares(stm, false);
    }
    let ghost l0 = list@;
    let ghost kp = |m: Move| m.spec_flag() == 2 && m.spec_from() == king_home(stm) && m.spec_to() == castle_target(stm, true) && castle_allowed(s, true);
    let ghost qp = |m: Move| m.spec_flag() == 3 && m.spec_from() == king_home(stm) && m.spec_to() == castle_target(stm, false) && castle_allowed(s, false);
    if pos.castling().has(ks_right) && !occ.contains(f) && !occ.contains(g) && !pos.square_attacked(
        e,
        enemy,
    ) && !pos.square_attacked(f, enemy) && !pos.square_attacked(g, enemy) {
        push_one(list, e, g, Move::KING_CASTLE);
        proof {
            let q = moves_between(e@, g@, 2, 2);
            assert forall|m: Move| #[trigger] q(m) == kp(m) by {}
            lemma_appended_equiv(l0, list@, q, kp);
        }
    } else {
        proof {
            assert forall|m: Move| !#[trigger] kp(m) by {}
            lemma_appended_none(l0, kp);
        }
    }
    let ghost l1 = list@;
    if pos.castling().has(qs_right) && !occ.contains(d) && !occ.contains(c) && !occ.contains(b)  // b-file square must be empty but may be attacked
         && !pos.square_attacked(e, enemy) && !pos.square_attacked(d, enemy)
        && !pos.square_attacked(c, enemy) {
        push_one(list, e, c, Move::QUEEN_CASTLE);
        proof {
            let q = moves_between(e@, c@, 3, 3);
            assert forall|m: Move| #[trigger] q(m) == qp(m) by {}
            lemma_appended_equiv(l1, list@, q, qp);
        }
    } else {
        proof {
            assert forall|m: Move| !#[trigger] qp(m) by {}
            lemma_appended_none(l1, qp);
        }
    }
    proof {
        lemma_appended_trans(l0, l1, list@, kp, qp);
        assert forall|m: Move| #[trigger] either(kp, qp)(m) == castle_moves_all(s)(m) by {}
        lemma_appended_equiv(l0, list@, either(kp, qp), castle_moves_all(s));
    }
}

pub open spec fn pseudo_legal_moves(s: PosState) -> spec_fn(Move) -> bool {
    |m: Move| pseudo_legal(s, m)
}

/// Appends the pseudo-legal moves of the side to move to `list`.
/// Castling moves are fully legal (clear path, unattacked transit); all
/// other moves may leave the king in check — callers filter with `make`.
pub fn generate_moves(pos: &Position, list: &mut MoveList)
    requires
        pos.wf(),
        pawns_inside(pos.state().board),
    ensures
        appended(old(list)@, final(list)@, pseudo_legal_moves(pos.state())),
{
    proof {
        reveal(Position::wf);
    }
    let ghost s = pos.state();
    let stm = pos.stm();
    let own = pos.occ(stm);
    let enemy = pos.occ(stm.flip());
    let occ = pos.occ_all();
    proof {
        pos.lemma_occ_all();
    }
    let ghost l0 = list@;
    pawn_moves(pos, list, stm, enemy, occ);
    let ghost l1 = list@;
    piece_moves(pos, list, PieceType::Knight, own, enemy, occ);
    let ghost l2 = list@;
    piece_moves(pos, list, PieceType::Bishop, own, enemy, occ);
    let ghost l3 = list@;
    piece_moves(pos, list, PieceType::Rook, own, enemy, occ);
    let ghost l4 = list@;
    piece_moves(pos, list, PieceType::Queen, own, enemy, occ);
    let ghost l5 = list@;
    piece_moves(pos, list, PieceType::King, own, enemy, occ);
    let ghost l6 = list@;
    castling_moves(pos, list, stm, occ);
    proof {
        let pa = pawn_moves_all(s);
        let n = piece_moves_of(s, PieceType::Knight);
        let bi = piece_moves_of(s, PieceType::Bishop);
        let r = piece_moves_of(s, PieceType::Rook);
        let q = piece_moves_of(s, PieceType::Queen);
        let k = piece_moves_of(s, PieceType::King);
        let c = castle_moves_all(s);
        lemma_appended_trans(l0, l1, l2, pa, n);
        lemma_appended_trans(l0, l2, l3, either(pa, n), bi);
        lemma_appended_trans(l0, l3, l4, either(either(pa, n), bi), r);
        lemma_appended_trans(l0, l4, l5, either(either(either(pa, n), bi), r), q);
        lemma_appended_trans(l0, l5, l6, either(either(either(either(pa, n), bi), r), q), k);
        let all6 = either(either(either(either(either(pa, n), bi), r), q), k);
        lemma_appended_trans(l0, l6, list@, all6, c);
        let all = either(all6, c);
        reveal(pseudo_legal);
        assert forall|m: Move| #[trigger] all(m) == pseudo_legal_moves(s)(m) by {
            if piece_move(s, m) {
                crate::board::moves::lemma_code_parts(m@);
                let p = s.board[m.spec_from()]->0@;
                assert(0 <= p < 12);
            }
        }
        lemma_appended_equiv(l0, list@, all, pseudo_legal_moves(s));
    }
}

// ---------------------------------------------------------------------------
// Positions reachable in play
// ---------------------------------------------------------------------------

/// Every castling right held has its king and rook on their home squares.
pub open spec fn castling_consistent(s: PosState) -> bool {
    forall|c: Color, ks: bool|
        #![trigger castle_right(c, ks)]
        s.castling & castle_right(c, ks) != 0 ==> holds(
            s.board,
            king_home(c),
            piece_index(c, PieceType::King),
        ) && holds(s.board, rook_from(c, ks), piece_index(c, PieceType::Rook))
}

/// The en-passant square is empty, on the right rank, and the pawn that
/// just passed over it stands right behind it.
pub open spec fn ep_consistent(s: PosState) -> bool {
    s.ep matches Some(e) ==> {
        &&& 0 <= e@ < 64
        &&& s.board[e@] is None
        &&& rank_of(e@) == (if s.stm == Color::White {
            5int
        } else {
            2int
        })
        &&& holds(
            s.board,
            square_at(file_of(e@), rank_of(e@) - forward(s.stm)),
            piece_index(opposite(s.stm), PieceType::Pawn),
        )
    }
}

/// The side that just moved is not in check.
pub open spec fn mover_safe(s: PosState) -> bool {
    !attacked(s.board, occupancy(s.board), king_square(s.board, opposite(s.stm)), s.stm)
}

/// A position that can arise in play: pawns off the back ranks, castling
/// rights and en-passant square backed by the board, and the side not to
/// move out of check.
#[verifier::opaque]
pub open spec fn consistent(s: PosState) -> bool {
    &&& pawns_inside(s.board)
    &&& castling_consistent(s)
    &&& ep_consistent(s)
    &&& mover_safe(s)
}

/// Whether square `i` holds the piece `pt` of color `c`.
fn holds_piece(pos: &Position, i: u8, c: Color, pt: PieceType) -> (r: bool)
    requires
        i < 64,
    ensures
        r == holds(pos.state().board, i as int, piece_index(c, pt)),
{
    match pos.piece_on(Square::new(i)) {
        Some(p) => p.index() == Piece::new(c, pt).index(),
        None => false,
    }
}

/// Whether the position can arise in play: pawns off the back ranks,
/// castling rights backed by king and rook on their home squares, an
/// en-passant square backed by the pawn that passed it, and the side that
/// just moved not in check.
pub fn is_consistent(pos: &Position) -> (r: bool)
    requires
        pos.wf(),
    ensures
        r == consistent(pos.state()),
{
    proof {
        reveal(consistent);
        pos.lemma_wf_boards();
        pos.lemma_wf_state();
    }
    let ghost s = pos.state();
    let ghost b = s.board;
    // pawns off the back ranks
    let mut i: u8 = 0;
    while i < 64
        invariant
            i <= 64,
            s == pos.state(),
            b == s.board,
            b.len() == 64,
            forall|j: int|
                0 <= j < i && (#[trigger] b[j] matches Some(p) && p@ % 6 == 0) ==> 1 <= rank_of(j) <= 6,
        decreases 64 - i,
    {
        match pos.piece_on(Square::new(i)) {
            Some(p) => {
                if p.index() % 6 == 0 && (i < 8 || i >= 56) {
                    assert(!pawns_inside(b)) by {
                        assert(b[i as int] matches Some(q) && q@ % 6 == 0);
                        assert(!(1 <= rank_of(i as int) <= 6));
                    }
                    assert(!consistent(s)) by {
                        reveal(consistent);
                    }
                    return false;
                }
            },
            None => {},
        }
        i += 1;
    }
    assert(pawns_inside(b));
    // castling rights
    let c = pos.castling().bits();
    let wk = c & 1 == 0 || (holds_piece(pos, 4, Color::White, PieceType::King) && holds_piece(
        pos,
        7,
        Color::White,
        PieceType::Rook,
    ));
    let wq = c & 2 == 0 || (holds_piece(pos, 4, Color::White, PieceType::King) && holds_piece(
        pos,
        0,
        Color::White,
        PieceType::Rook,
    ));
    let bk = c & 4 == 0 || (holds_piece(pos, 60, Color::Black, PieceType::King) && holds_piece(
        pos,
        63,
        Color::Black,
        PieceType::Rook,
    ));
    let bq = c & 8 == 0 || (holds_piece(pos, 60, Color::Black, PieceType::King) && holds_piece(
        pos,
        56,
        Color::Black,
        PieceType::Rook,
    ));
    proof {
        assert(square_at(4, 0) == 4 && square_at(7, 0) == 7 && square_at(0, 0) == 0);
        assert(square_at(4, 7) == 60 && square_at(7, 7) == 63 && square_at(0, 7) == 56);
    }
    if !(wk && wq && bk && bq) {
        proof {
            if !wk {
                assert(s.castling & castle_right(Color::White, true) != 0);
            } else if !wq {
                assert(s.castling & castle_right(Color::White, false) != 0);
            } else if !bk {
                assert(s.castling & castle_right(Color::Black, true) != 0);
            } else {
                assert(s.castling & castle_right(Color::Black, false) != 0);
            }
        }
        return false;
    }
    assert(castling_consistent(s)) by {
        assert forall|cc: Color, ks: bool| s.castling & #[trigger] castle_right(cc, ks) != 0 implies holds(
            s.board,
            king_home(cc),
            piece_index(cc, PieceType::King),
        ) && holds(s.board, rook_from(cc, ks), piece_index(cc, PieceType::Rook)) by {
            match cc {
                Color::White => {},
                Color::Black => {},
            }
        }
    }
    // en-passant square
    match pos.ep() {
        Some(e) => {
            let ei = e.index();
            let want_rank: u8 = match pos.stm() {
                Color::White => 5,
                Color::Black => 2,
            };
            if pos.piece_on(e).is_some() || e.rank() != want_rank {
                return false;
            }
            let behind: u8 = match pos.stm() {
                Color::White => ei as u8 - 8,
                Color::Black => ei as u8 + 8,
            };
            proof {
                lemma_coords_square(e@);
            }
            assert(behind as int == square_at(file_of(e@), rank_of(e@) - forward(s.stm)));
            if !holds_piece(pos, behind, pos.stm().flip(), PieceType::Pawn) {
                return false;
            }
        },
        None => {},
    }
    assert(ep_consistent(s));
    // the side that just moved is not in check
    let them = pos.stm().flip();
    let k = pos.king_sq(them);
    !pos.square_attacked(k, pos.stm())
}

/// A pseudo-legal move in a consistent position is one `make` can apply.
pub proof fn lemma_pseudo_legal_move_ok(s: PosState, m: Move)
    requires
        state_ok(s),
        consistent(s),
        pseudo_legal(s, m),
    ensures
        move_ok(s.board, s.stm, m),
{
    reveal(pseudo_legal);
    reveal(consistent);
    let b = s.board;
    let c = s.stm;
    let f = m.spec_from();
    let t = m.spec_to();
    let fl = m.spec_flag();
    let occ = occupancy(b);
    lemma_code_parts(m@);
    lemma_coords_square(f);
    // a capture never takes the king: the enemy king is not attacked
    assert(b[t] is Some && color_of_index(b[t]->0@) == opposite(c) && attacker(b, occ, f, t, c) ==> b[t]->0@ % 6 != 5) by {
        if b[t] is Some && color_of_index(b[t]->0@) == opposite(c) && attacker(b, occ, f, t, c) && b[t]->0@ % 6 == 5 {
            assert(holds_king(b, t, opposite(c)));
            let k = king_square(b, opposite(c));
            assert(holds_king(b, k, opposite(c)));
            lemma_king_unique(b, k, t, opposite(c));
            assert(attacked(b, occ, t, c));
        }
    }
    if piece_move(s, m) {
        let p = b[f]->0@;
        assert(0 <= p < 12);
        if p % 6 == 2 || p % 6 == 3 || p % 6 == 4 {
            lemma_slider_not_self(f, t, occ);
        }
        assert(f != t);
        if b[t] is Some {
            assert(attacker(b, occ, f, t, c));
        }
    } else if pawn_move(s, m) {
        lemma_square_at_inverse(f);
        if pawn_step(c, f, t) && holds_color(b, t, opposite(c)) {
            assert(attacker(b, occ, f, t, c));
        }
        if fl == 5 {
            let e = s.ep->0;
            assert(ep_victim(f, t) == square_at(file_of(e@), rank_of(e@) - forward(c)));
        }
    } else {
        assert(castle_move(s, m));
        lemma_castle_squares(c, true);
        lemma_castle_squares(c, false);
        let ks = fl == 2;
        assert(s.castling & castle_right(c, ks) != 0);
        assert(holds(b, king_home(c), piece_index(c, PieceType::King)));
    }
}

/// A castling right survives a move only if neither end of the move is the
/// king's or that rook's home square.
pub proof fn lemma_keep_right(x: u8, f: int, t: int, c: Color, ks: bool)
    requires
        (x & (castle_keep(f) & castle_keep(t))) & castle_right(c, ks) != 0,
    ensures
        x & castle_right(c, ks) != 0,
        f != king_home(c),
        t != king_home(c),
        f != rook_from(c, ks),
        t != rook_from(c, ks),
{
    lemma_castle_squares(c, ks);
    let kf = castle_keep(f);
    let kt = castle_keep(t);
    let r = castle_right(c, ks);
    assert((x & (kf & kt)) & r != 0 ==> x & r != 0 && kf & r != 0 && kt & r != 0) by (bit_vector);
    assert(13u8 & 1u8 != 0 && 13u8 & 2u8 == 0 && 13u8 & 4u8 != 0 && 13u8 & 8u8 != 0 && 12u8 & 1u8
        == 0 && 12u8 & 2u8 == 0 && 12u8 & 4u8 != 0 && 12u8 & 8u8 != 0 && 14u8 & 1u8 == 0 && 14u8
        & 2u8 != 0 && 14u8 & 4u8 != 0 && 14u8 & 8u8 != 0 && 7u8 & 1u8 != 0 && 7u8 & 2u8 != 0 && 7u8
        & 4u8 != 0 && 7u8 & 8u8 == 0 && 3u8 & 1u8 != 0 && 3u8 & 2u8 != 0 && 3u8 & 4u8 == 0 && 3u8
        & 8u8 == 0 && 11u8 & 1u8 != 0 && 11u8 & 2u8 != 0 && 11u8 & 4u8 == 0 && 11u8 & 8u8 != 0)
        by (bit_vector);
}

/// Playing a legal move keeps a position consistent.
#[verifier::rlimit(50)]
pub proof fn lemma_make_consistent(s: PosState, m: Move)
    requires
        state_ok(s),
        consistent(s),
        pseudo_legal(s, m),
        legal_after(s, m),
    ensures
        consistent(make_state(s, m)),
{
    reveal(pseudo_legal);
    reveal(consistent);
    reveal(make_state);
    reveal(legal_after);
    let b = s.board;
    let c = s.stm;
    let f = m.spec_from();
    let t = m.spec_to();
    let fl = m.spec_flag();
    let n = make_state(s, m);
    let nb = n.board;
    lemma_pseudo_legal_move_ok(s, m);
    lemma_code_parts(m@);
    lemma_square_at_inverse(f);
    lemma_square_at_inverse(t);
    lemma_castle_squares(c, true);
    lemma_castle_squares(c, false);
    lemma_castle_squares(opposite(c), true);
    lemma_castle_squares(opposite(c), false);
    let b1 = board_after_capture(b, m);
    let b2 = board_after_mover(b, c, m);
    if fl == 5 {
        lemma_square_coords(file_of(t), rank_of(f));
    }
    // (1) pawns stay off the back ranks
    assert forall|i: int| 0 <= i < 64 && (#[trigger] nb[i] matches Some(p) && p@ % 6 == 0) implies 1 <= rank_of(i) <= 6 by {
        lemma_square_at_inverse(i);
        if i == t {
            if !m.spec_is_promotion() && fl != 2 && fl != 3 {
                assert(nb[t] == b[f]);
                assert(pawn_move(s, m));
            }
        } else if (fl == 2 || fl == 3) && (i == rook_to(c, fl == 2)) {
            assert(nb[i] == b[rook_from(c, fl == 2)]);
        } else {
            assert(b1[i] is None || b1[i] == b[i]);
            assert(b2[i] is None || b2[i] == b1[i]);
            assert(nb[i] is None || nb[i] == b2[i]);
        }
    }
    // (2) castling rights still backed by king and rook
    assert forall|cc: Color, ks: bool| #![trigger castle_right(cc, ks)]
        n.castling & castle_right(cc, ks) != 0 implies holds(nb, king_home(cc), piece_index(cc, PieceType::King))
            && holds(nb, rook_from(cc, ks), piece_index(cc, PieceType::Rook)) by {
        lemma_keep_right(s.castling, f, t, cc, ks);
        lemma_castle_squares(cc, ks);
        let k = king_home(cc);
        let r = rook_from(cc, ks);
        assert(holds(b, k, piece_index(cc, PieceType::King)));
        assert(holds(b, r, piece_index(cc, PieceType::Rook)));
        if fl == 5 {
            assert(ep_victim(f, t) != k && ep_victim(f, t) != r);
        }
        assert(b1[k] == b[k] && b1[r] == b[r]);
        assert(b2[k] == b[k] && b2[r] == b[r]);
        if fl == 2 || fl == 3 {
            assert(cc != c);
        }
        assert(nb[k] == b[k] && nb[r] == b[r]);
    }
    // (3) the en-passant square
    if n.ep is Some {
        assert(fl == 1);
        assert(pawn_move(s, m));
        let e = passed_square(f, t);
        assert(e == ahead(f, c, 1));
        assert(nb[e] == b[e]);
        assert(nb[t] == b[f]);
    }
    // (4) the mover's king is safe
    assert(opposite(opposite(c)) == c);
}

/// Passing the turn keeps a position consistent when the side to move is
/// not in check.
pub proof fn lemma_null_consistent(s: PosState)
    requires
        consistent(s),
        !attacked(s.board, occupancy(s.board), king_square(s.board, s.stm), opposite(s.stm)),
    ensures
        consistent(null_state(s)),
{
    reveal(consistent);
    assert(opposite(opposite(s.stm)) == s.stm);
}

/// A consistent position has its pawns off the back ranks.
pub proof fn lemma_consistent_pawns(s: PosState)
    requires
        consistent(s),
    ensures
        pawns_inside(s.board),
{
    reveal(consistent);
}

/// The pseudo-legal move of the side to move whose UCI text is `uci`, if any
/// (castling is written as the king's move, e.g. "e1g1"). Legality against
/// check is not tested.
pub fn find_uci_move(pos: &Position, uci: &str) -> (r: Option<Move>)
    requires
        pos.wf(),
        pawns_inside(pos.state().board),
    ensures
        r matches Some(m) ==> pseudo_legal(pos.state(), m) && uci_text(m) == uci@,
        r is None ==> forall|m: Move| pseudo_legal(pos.state(), m) ==> uci_text(m) != uci@,
{
    let text = crate::text::chars_of(uci);
    find_uci_chars(pos, &text)
}

/// The pseudo-legal move of the side to move whose UCI text is `text`, if
/// any.
pub fn find_uci_chars(pos: &Position, text: &Vec<char>) -> (r: Option<Move>)
    requires
        pos.wf(),
        pawns_inside(pos.state().board),
    ensures
        r matches Some(m) ==> pseudo_legal(pos.state(), m) && uci_text(m) == text@,
        r is None ==> forall|m: Move| pseudo_legal(pos.state(), m) ==> uci_text(m) != text@,
{
    let mut list = MoveList::new();
    generate_moves(pos, &mut list);
    let ghost s = pos.state();
    let mut i: usize = 0;
    while i < list.len()
        invariant
            i <= list@.len(),

            s == pos.state(),
            appended(Seq::empty(), list@, pseudo_legal_moves(s)),
            forall|j: int| 0 <= j < i ==> uci_text(#[trigger] list@[j]) != text@,
        decreases list@.len() - i,
    {
        let m = list.get(i);
        let t = m.to_string();
        if crate::text::same_text(&t, text) {
            proof {
                assert(pseudo_legal_moves(s)(list@[i as int]));
            }
            return Some(m);
        }
        i += 1;
    }
    proof {
        assert forall|m: Move| pseudo_legal(s, m) implies uci_text(m) != text@ by {
            assert(pseudo_legal_moves(s)(m));
            let j = choose|j: int| 0 <= j < list@.len() && #[trigger] list@[j] == m;
        }
    }
    None
}

/// The first generated move that is legal (bestmove fallback), or None when
/// the side to move has no legal move. The position is unchanged.
pub fn find_first_legal(pos: &mut Position) -> (r: Option<Move>)
    requires
        old(pos).wf(),
        consistent(old(pos).state()),
        old(pos).state().halfmove < 0xFFFF,
        old(pos).state().fullmove < 0xFFFF,
    ensures
        final(pos).wf(),
        final(pos).same_as(old(pos)),
        r matches Some(m) ==> pseudo_legal(old(pos).state(), m) && legal_after(old(pos).state(), m),
        r is None ==> forall|m: Move| pseudo_legal(old(pos).state(), m) ==> !legal_after(old(pos).state(), m),
{
    let ghost s0 = pos.state();
    let ghost t0 = pos.trail();
    proof {
        pos.lemma_wf_state();
        lemma_consistent_pawns(s0);
    }
    let mut list = MoveList::new();
    generate_moves(pos, &mut list);
    proof {
        assert forall|k: int| 0 <= k < list@.len() implies pseudo_legal(s0, #[trigger] list@[k]) by {
            assert(pseudo_legal_moves(s0)(list@[k]));
        }
        assert forall|m: Move| #[trigger] pseudo_legal(s0, m) implies exists|k: int| 0 <= k < list@.len() && #[trigger] list@[k] == m by {
            assert(pseudo_legal_moves(s0)(m));
        }
    }
    let mut i: usize = 0;
    while i < list.len()
        invariant
            i <= list@.len(),
            pos.wf(),
            pos.state() == s0,
            pos.trail() == t0,
            s0 == old(pos).state(),
            t0 == old(pos).trail(),
            state_ok(s0),
            consistent(s0),
            s0.halfmove < 0xFFFF,
            s0.fullmove < 0xFFFF,
            forall|k: int| 0 <= k < list@.len() ==> pseudo_legal(s0, #[trigger] list@[k]),
            forall|m: Move| #[trigger] pseudo_legal(s0, m) ==> exists|k: int| 0 <= k < list@.len() && #[trigger] list@[k] == m,
            forall|j: int| 0 <= j < i ==> !legal_after(s0, #[trigger] list@[j]),
        decreases list@.len() - i,
    {
        let mv = list.get(i);
        proof {
            lemma_pseudo_legal_move_ok(s0, mv);
        }
        if pos.make(mv) {
            pos.unmake();
            proof {
                assert(pos.trail().0 =~= t0.0);
                assert(pos.trail().1 =~= t0.1);
                assert(pos.trail().2 =~= t0.2);
            }
            return Some(mv);
        }
        i += 1;
    }
    proof {
        assert forall|m: Move| pseudo_legal(s0, m) implies !legal_after(s0, m) by {
            let j = choose|j: int| 0 <= j < list@.len() && #[trigger] list@[j] == m;
        }
    }
    None
}

} // verus!
