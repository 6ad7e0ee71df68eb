//! The accumulator update of a move agrees with recomputing the
//! accumulator from the board after it.
use vstd::prelude::*;

use super::accumulator::feature_pair;
use super::net::Network;
use super::{board_acc, make_update, rook_squares, upd};
use crate::board::makemove::{captured_piece, ep_victim, make_board, move_ok, piece_of, rook_from, rook_to};
use crate::board::moves::promo_type_of_flag;
use crate::board::position::board_ok;
use crate::board::types::{file_of, opposite, rank_of, Color, Piece, PieceType};
use crate::board::Move;

verus! {

/// `x` reduced to the `i16` range (two's complement wrap-around).
pub open spec fn wrap16(x: int) -> i16 {
    (((x + 32768) % 65536) - 32768) as i16
}

proof fn lemma_wrap_unique(x: int, y: int)
    requires
        -32768 <= y <= 32767,
        (y - x) % 65536 == 0,
    ensures
        wrap16(x) == y,
{
    assert(((x + 32768) % 65536) - 32768 == y) by (nonlinear_arith)
        requires
            -32768 <= y <= 32767,
            (y - x) % 65536 == 0,
    ;
}

proof fn lemma_wrap_range(x: int)
    ensures
        -32768 <= ((x + 32768) % 65536) - 32768 <= 32767,
        ((((x + 32768) % 65536) - 32768) - x) % 65536 == 0,
{
    assert(-32768 <= ((x + 32768) % 65536) - 32768 <= 32767 && ((((x + 32768) % 65536) - 32768) - x) % 65536
        == 0) by (nonlinear_arith);
}

/// Wrapping addition and subtraction follow the integer sums.
proof fn lemma_wrap_step(x: int, c: i16)
    ensures
        vstd::wrapping::i16_specs::wrapping_add(wrap16(x), c) == wrap16(x + c),
        vstd::wrapping::i16_specs::wrapping_sub(wrap16(x), c) == wrap16(x - c),
{
    lemma_wrap_range(x);
    let w = ((x + 32768) % 65536) - 32768;
    assert(wrap16(x) as int == w);
    let a = vstd::wrapping::i16_specs::wrapping_add(wrap16(x), c) as int;
    assert(-32768 <= a <= 32767);
    assert((a - (x + c)) % 65536 == 0) by (nonlinear_arith)
        requires
            (w - x) % 65536 == 0,
            a == w + c || a == w + c - 65536 || a == w + c + 65536,
    ;
    lemma_wrap_unique(x + c, a as i16 as int);
    let d = vstd::wrapping::i16_specs::wrapping_sub(wrap16(x), c) as int;
    assert(-32768 <= d <= 32767);
    assert((d - (x - c)) % 65536 == 0) by (nonlinear_arith)
        requires
            (w - x) % 65536 == 0,
            d == w - c || d == w - c - 65536 || d == w - c + 65536,
    ;
    lemma_wrap_unique(x - c, d as i16 as int);
}

/// Column `j` of the feature of the piece `p` (if any) on `sq`, from
/// White's (`side` 0) or Black's point of view.
pub open spec fn term(net: Network, p: Option<Piece>, sq: int, side: int, j: int) -> int {
    match p {
        Some(q) => {
            let fp = feature_pair(q, sq);
            net.column(if side == 0 { fp.0 } else { fp.1 })[j] as int
        },
        None => 0,
    }
}

/// Sum of the terms of squares `0..n`.
pub open spec fn colsum(net: Network, b: Seq<Option<Piece>>, n: int, side: int, j: int) -> int
    decreases n,
{
    if n <= 0 {
        0
    } else {
        colsum(net, b, n - 1, side, j) + term(net, b[n - 1], n - 1, side, j)
    }
}

proof fn lemma_upd_elem(
    acc: (Seq<i16>, Seq<i16>),
    net: Network,
    p: Piece,
    sq: int,
    add: bool,
    j: int,
    x0: int,
    x1: int,
)
    requires
        0 <= j < 768,
        acc.0[j] == wrap16(x0),
        acc.1[j] == wrap16(x1),
    ensures
        upd(acc, net, p, sq, add).0.len() == 768,
        upd(acc, net, p, sq, add).1.len() == 768,
        upd(acc, net, p, sq, add).0[j] == wrap16(
            if add { x0 + term(net, Some(p), sq, 0, j) } else { x0 - term(net, Some(p), sq, 0, j) },
        ),
        upd(acc, net, p, sq, add).1[j] == wrap16(
            if add { x1 + term(net, Some(p), sq, 1, j) } else { x1 - term(net, Some(p), sq, 1, j) },
        ),
{
    let fp = feature_pair(p, sq);
    lemma_wrap_step(x0, net.column(fp.0)[j]);
    lemma_wrap_step(x1, net.column(fp.1)[j]);
}

/// The accumulator of a board holds the bias plus its column sums.
proof fn lemma_board_sums(net: Network, b: Seq<Option<Piece>>, n: int)
    requires
        0 <= n <= 64,
    ensures
        board_acc(net, b, n).0.len() == 768,
        board_acc(net, b, n).1.len() == 768,
        forall|j: int|
            #![trigger board_acc(net, b, n).0[j]]
            #![trigger board_acc(net, b, n).1[j]]
            0 <= j < 768 ==> board_acc(net, b, n).0[j] == wrap16(net.bias()[j] + colsum(net, b, n, 0, j))
                && board_acc(net, b, n).1[j] == wrap16(net.bias()[j] + colsum(net, b, n, 1, j)),
    decreases n,
{
    net.lemma_widths();
    if n == 0 {
        assert forall|j: int| 0 <= j < 768 implies #[trigger] board_acc(net, b, n).0[j] == wrap16(
            net.bias()[j] + colsum(net, b, n, 0, j),
        ) && board_acc(net, b, n).1[j] == wrap16(net.bias()[j] + colsum(net, b, n, 1, j)) by {
            lemma_wrap_unique(net.bias()[j] as int, net.bias()[j] as int);
        }
    } else {
        lemma_board_sums(net, b, n - 1);
        let prev = board_acc(net, b, n - 1);
        match b[n - 1] {
            Some(p) => {
                assert(board_acc(net, b, n) == upd(prev, net, p, n - 1, true));
                assert forall|j: int| 0 <= j < 768 implies #[trigger] board_acc(net, b, n).0[j] == wrap16(
                    net.bias()[j] + colsum(net, b, n, 0, j),
                ) && board_acc(net, b, n).1[j] == wrap16(net.bias()[j] + colsum(net, b, n, 1, j)) by {
                    lemma_upd_elem(
                        prev,
                        net,
                        p,
                        n - 1,
                        true,
                        j,
                        net.bias()[j] + colsum(net, b, n - 1, 0, j),
                        net.bias()[j] + colsum(net, b, n - 1, 1, j),
                    );
                }
                lemma_upd_elem(
                    prev,
                    net,
                    p,
                    n - 1,
                    true,
                    0,
                    net.bias()[0] + colsum(net, b, n - 1, 0, 0),
                    net.bias()[0] + colsum(net, b, n - 1, 1, 0),
                );
            },
            None => {},
        }
    }
}

/// Changing square `i` changes the column sums by the difference of its
/// terms.
proof fn lemma_colsum_update(net: Network, b: Seq<Option<Piece>>, i: int, x: Option<Piece>, n: int, side: int, j: int)
    requires
        0 <= i < b.len(),
        0 <= n <= b.len(),
    ensures
        colsum(net, b.update(i, x), n, side, j) == colsum(net, b, n, side, j) + if i < n {
            term(net, x, i, side, j) - term(net, b[i], i, side, j)
        } else {
            0
        },
    decreases n,
{
    if n > 0 {
        lemma_colsum_update(net, b, i, x, n - 1, side, j);
    }
}

/// `acc` holds, in each perspective, the bias plus the column sums of
/// board `b`, wrapped to `i16`.
pub open spec fn sums_to(acc: (Seq<i16>, Seq<i16>), net: Network, b: Seq<Option<Piece>>) -> bool {
    &&& acc.0.len() == 768
    &&& acc.1.len() == 768
    &&& forall|j: int| 0 <= j < 768 ==> #[trigger] acc.0[j] == wrap16(net.bias()[j] + colsum(net, b, 64, 0, j))
    &&& forall|j: int| 0 <= j < 768 ==> #[trigger] acc.1[j] == wrap16(net.bias()[j] + colsum(net, b, 64, 1, j))
}

proof fn lemma_sums_eq(a1: (Seq<i16>, Seq<i16>), a2: (Seq<i16>, Seq<i16>), net: Network, b: Seq<Option<Piece>>)
    requires
        sums_to(a1, net, b),
        sums_to(a2, net, b),
    ensures
        a1 == a2,
{
    assert(a1.0 =~= a2.0);
    assert(a1.1 =~= a2.1);
}

proof fn lemma_set_elem(acc: (Seq<i16>, Seq<i16>), net: Network, b: Seq<Option<Piece>>, i: int, p: Piece, add: bool, j: int)
    requires
        sums_to(acc, net, b),
        b.len() == 64,
        0 <= i < 64,
        0 <= j < 768,
    ensures
        upd(acc, net, p, i, add).0.len() == 768,
        upd(acc, net, p, i, add).1.len() == 768,
        upd(acc, net, p, i, add).0[j] == wrap16(
            net.bias()[j] + colsum(net, b.update(i, if add { Some(p) } else { None }), 64, 0, j)
                + if add { term(net, b[i], i, 0, j) } else { term(net, b[i], i, 0, j) - term(net, Some(p), i, 0, j) },
        ),
        upd(acc, net, p, i, add).1[j] == wrap16(
            net.bias()[j] + colsum(net, b.update(i, if add { Some(p) } else { None }), 64, 1, j)
                + if add { term(net, b[i], i, 1, j) } else { term(net, b[i], i, 1, j) - term(net, Some(p), i, 1, j) },
        ),
{
    let x: Option<Piece> = if add { Some(p) } else { None };
    assert(acc.0[j] == wrap16(net.bias()[j] + colsum(net, b, 64, 0, j)));
    assert(acc.1[j] == wrap16(net.bias()[j] + colsum(net, b, 64, 1, j)));
    lemma_upd_elem(
        acc,
        net,
        p,
        i,
        add,
        j,
        net.bias()[j] + colsum(net, b, 64, 0, j),
        net.bias()[j] + colsum(net, b, 64, 1, j),
    );
    lemma_colsum_update(net, b, i, x, 64, 0, j);
    lemma_colsum_update(net, b, i, x, 64, 1, j);
}

/// Adding (`add`) or removing the features of `p` on `i` follows the board
/// gaining or losing that piece.
proof fn lemma_set(acc: (Seq<i16>, Seq<i16>), net: Network, b: Seq<Option<Piece>>, i: int, p: Piece, add: bool)
    requires
        sums_to(acc, net, b),
        b.len() == 64,
        0 <= i < 64,
        b[i] == (if add { None } else { Some(p) }),
    ensures
        sums_to(upd(acc, net, p, i, add), net, b.update(i, if add { Some(p) } else { None })),
{
    let r = upd(acc, net, p, i, add);
    let b2 = b.update(i, if add { Some(p) } else { None });
    lemma_set_elem(acc, net, b, i, p, add, 0);
    assert forall|j: int| 0 <= j < 768 implies #[trigger] r.0[j] == wrap16(
        net.bias()[j] + colsum(net, b2, 64, 0, j),
    ) by {
        lemma_set_elem(acc, net, b, i, p, add, j);
    }
    assert forall|j: int| 0 <= j < 768 implies #[trigger] r.1[j] == wrap16(
        net.bias()[j] + colsum(net, b2, 64, 1, j),
    ) by {
        lemma_set_elem(acc, net, b, i, p, add, j);
    }
}

#[verifier::spinoff_prover]
proof fn lemma_comm_elem(
    acc: (Seq<i16>, Seq<i16>),
    net: Network,
    p: Piece,
    s: int,
    ap: bool,
    q: Piece,
    u: int,
    aq: bool,
    j: int,
)
    requires
        acc.0.len() == 768,
        acc.1.len() == 768,
        0 <= j < 768,
    ensures
        upd(upd(acc, net, p, s, ap), net, q, u, aq).0[j] == upd(upd(acc, net, q, u, aq), net, p, s, ap).0[j],
        upd(upd(acc, net, p, s, ap), net, q, u, aq).1[j] == upd(upd(acc, net, q, u, aq), net, p, s, ap).1[j],
        upd(upd(acc, net, p, s, ap), net, q, u, aq).0.len() == 768,
        upd(upd(acc, net, p, s, ap), net, q, u, aq).1.len() == 768,
        upd(upd(acc, net, q, u, aq), net, p, s, ap).0.len() == 768,
        upd(upd(acc, net, q, u, aq), net, p, s, ap).1.len() == 768,
{
    let x0 = acc.0[j] as int;
    let x1 = acc.1[j] as int;
    lemma_wrap_unique(x0, x0);
    lemma_wrap_unique(x1, x1);
    let tp0 = term(net, Some(p), s, 0, j);
    let tp1 = term(net, Some(p), s, 1, j);
    let tq0 = term(net, Some(q), u, 0, j);
    let tq1 = term(net, Some(q), u, 1, j);
    let y0 = if ap { x0 + tp0 } else { x0 - tp0 };
    let y1 = if ap { x1 + tp1 } else { x1 - tp1 };
    let z0 = if aq { x0 + tq0 } else { x0 - tq0 };
    let z1 = if aq { x1 + tq1 } else { x1 - tq1 };
    lemma_upd_elem(acc, net, p, s, ap, j, x0, x1);
    lemma_upd_elem(upd(acc, net, p, s, ap), net, q, u, aq, j, y0, y1);
    lemma_upd_elem(acc, net, q, u, aq, j, x0, x1);
    lemma_upd_elem(upd(acc, net, q, u, aq), net, p, s, ap, j, z0, z1);
    assert((if aq { y0 + tq0 } else { y0 - tq0 }) == (if ap { z0 + tp0 } else { z0 - tp0 }));
    assert((if aq { y1 + tq1 } else { y1 - tq1 }) == (if ap { z1 + tp1 } else { z1 - tp1 }));
}

/// Two feature updates commute.
proof fn lemma_upd_comm(
    acc: (Seq<i16>, Seq<i16>),
    net: Network,
    p: Piece,
    s: int,
    ap: bool,
    q: Piece,
    u: int,
    aq: bool,
)
    requires
        acc.0.len() == 768,
        acc.1.len() == 768,
    ensures
        upd(upd(acc, net, p, s, ap), net, q, u, aq) == upd(upd(acc, net, q, u, aq), net, p, s, ap),
{
    let l = upd(upd(acc, net, p, s, ap), net, q, u, aq);
    let r = upd(upd(acc, net, q, u, aq), net, p, s, ap);
    lemma_comm_elem(acc, net, p, s, ap, q, u, aq, 0);
    assert forall|j: int| 0 <= j < 768 implies #[trigger] l.0[j] == r.0[j] by {
        lemma_comm_elem(acc, net, p, s, ap, q, u, aq, j);
    }
    assert forall|j: int| 0 <= j < 768 implies #[trigger] l.1[j] == r.1[j] by {
        lemma_comm_elem(acc, net, p, s, ap, q, u, aq, j);
    }
    assert(l.0 =~= r.0);
    assert(l.1 =~= r.1);
}

proof fn lemma_board_sums_to(net: Network, b: Seq<Option<Piece>>)
    ensures
        sums_to(board_acc(net, b, 64), net, b),
{
    lemma_board_sums(net, b, 64);
}

/// A piece leaves `f` and `pnew` lands on `t`, taking what stood there.
proof fn lemma_move_piece(
    acc: (Seq<i16>, Seq<i16>),
    net: Network,
    b: Seq<Option<Piece>>,
    f: int,
    t: int,
    pold: Piece,
    pnew: Piece,
)
    requires
        sums_to(acc, net, b),
        b.len() == 64,
        0 <= f < 64,
        0 <= t < 64,
        f != t,
        b[f] == Some(pold),
    ensures
        ({
            let a = upd(upd(acc, net, pold, f, false), net, pnew, t, true);
            sums_to(
                match b[t] {
                    Some(q) => upd(a, net, q, t, false),
                    None => a,
                },
                net,
                b.update(f, None).update(t, Some(pnew)),
            )
        }),
{
    lemma_set(acc, net, b, f, pold, false);
    let a1 = upd(acc, net, pold, f, false);
    let b1 = b.update(f, None);
    match b[t] {
        Some(q) => {
            lemma_upd_comm(a1, net, pnew, t, true, q, t, false);
            lemma_set(a1, net, b1, t, q, false);
            let b2 = b1.update(t, None);
            lemma_set(upd(a1, net, q, t, false), net, b2, t, pnew, true);
            assert(b2.update(t, Some(pnew)) =~= b1.update(t, Some(pnew)));
        },
        None => {
            lemma_set(a1, net, b1, t, pnew, true);
        },
    }
}

/// The accumulator update of a move `make` can apply turns the accumulator
/// of the board before it into that of the board after it: updating
/// incrementally agrees with recomputing from scratch.
pub proof fn lemma_update_matches_refresh(net: Network, b: Seq<Option<Piece>>, stm: Color, m: Move)
    requires
        board_ok(b),
        move_ok(b, stm, m),
    ensures
        make_update(board_acc(net, b, 64), net, m, make_board(b, stm, m), captured_piece(b, stm, m))
            == board_acc(net, make_board(b, stm, m), 64),
{
    crate::board::moves::lemma_code_parts(m.0);
    let f = m.spec_from();
    let t = m.spec_to();
    let fl = m.spec_flag();
    let a0 = board_acc(net, b, 64);
    let after = make_board(b, stm, m);
    let p = b[f]->0;
    lemma_board_sums_to(net, b);
    lemma_board_sums_to(net, after);
    let r = make_update(a0, net, m, after, captured_piece(b, stm, m));
    if m.spec_is_promotion() {
        let pn = piece_of(stm, promo_type_of_flag(fl));
        assert(p@ < 12);
        assert(p == piece_of(stm, PieceType::Pawn));
        assert(after =~= b.update(f, None).update(t, Some(pn)));
        lemma_move_piece(a0, net, b, f, t, p, pn);
        assert(after[t] == Some(pn));
        assert(pn.spec_color() == stm);
        lemma_sums_eq(r, board_acc(net, after, 64), net, after);
    } else if fl == 5 {
        let ev = ep_victim(f, t);
        crate::board::attacks::lemma_square_coords(file_of(t), rank_of(f));
        assert(ev != f && ev != t);
        lemma_move_piece(a0, net, b, f, t, p, p);
        let b2 = b.update(f, None).update(t, Some(p));
        let a2 = upd(upd(a0, net, p, f, false), net, p, t, true);
        let vp = piece_of(opposite(stm), PieceType::Pawn);
        assert(b2[ev] == Some(vp));
        lemma_set(a2, net, b2, ev, vp, false);
        assert(after =~= b2.update(ev, None));
        assert(after[t] == Some(p));
        lemma_sums_eq(r, board_acc(net, after, 64), net, after);
    } else if fl == 2 || fl == 3 {
        let ks = fl == 2;
        crate::board::makemove::lemma_castle_squares(stm, ks);
        let rf = rook_from(stm, ks);
        let rt = rook_to(stm, ks);
        let rk = piece_of(stm, PieceType::Rook);
        lemma_move_piece(a0, net, b, f, t, p, p);
        let b2 = b.update(f, None).update(t, Some(p));
        let a2 = upd(upd(a0, net, p, f, false), net, p, t, true);
        assert(b2[rf] == Some(rk));
        lemma_set(a2, net, b2, rf, rk, false);
        let b3 = b2.update(rf, None);
        let a3 = upd(a2, net, rk, rf, false);
        lemma_set(a3, net, b3, rt, rk, true);
        assert(after =~= b3.update(rt, Some(rk)));
        assert(after[t] == Some(p));
        assert(rook_squares(t) == (rf, rt));
        lemma_sums_eq(r, board_acc(net, after, 64), net, after);
    } else {
        assert(after =~= b.update(f, None).update(t, Some(p)));
        lemma_move_piece(a0, net, b, f, t, p, p);
        assert(after[t] == Some(p));
        lemma_sums_eq(r, board_acc(net, after, 64), net, after);
    }
}

} // verus!
