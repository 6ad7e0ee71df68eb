//! Static Exchange Evaluation (swap algorithm): the material outcome in
//! centipawns (SEE-local values, decoupled from the tuned eval) of the capture
//! sequence on `mv.to()`, both sides capturing with their least valuable
//! attacker and stopping when continuing loses material. Promotions during
//! the exchange are not modeled and pins are ignored.
use vstd::prelude::*;

use crate::board::attacks::{
    bishop_attacks, king_attacks, knight_attacks, pawn_attacks, rook_attacks, lemma_leaper_symmetry,
    lemma_slider_symmetry,
};
use crate::board::bitboard::{
    bit, popcount, lemma_bit_and, lemma_bits_below_remove, lemma_bit_xor, lemma_bit_single, lemma_lowest_bit,
    lemma_zero_iff_no_bits,
};
use crate::board::position::{attacked, attacker, holds_color, king_square, occupancy};
use crate::board::movegen::mover_safe;
use crate::board::types::{file_of, opposite, rank_of, square_at};
use crate::eval::hce::{bits_of, lemma_bits_of};
use vstd::std_specs::bits::u64_trailing_zeros;
use crate::board::position::{Position, piece_attacks};
use crate::board::types::{Color, PieceType, Square, color_of_index, type_of_index, type_index};
use crate::board::{Bitboard, Move};

verus! {

/// SEE piece values: pawn, knight, bishop, rook, queen, king.
pub open spec fn see_value(t: int) -> int {
    if t == 0 {
        100
    } else if t == 1 {
        320
    } else if t == 2 {
        330
    } else if t == 3 {
        500
    } else if t == 4 {
        900
    } else {
        20_000
    }
}

fn see_val(pt: PieceType) -> (v: i32)
    ensures
        v == see_value(type_index(pt)),
{
    match pt {
        PieceType::Pawn => 100,
        PieceType::Knight => 320,
        PieceType::Bishop => 330,
        PieceType::Rook => 500,
        PieceType::Queen => 900,
        PieceType::King => 20_000,
    }
}

/// The piece on `a` (of either color) attacks `sq` under occupancy `occ`.
pub open spec fn attacks_square(b: Seq<Option<crate::board::Piece>>, a: int, sq: int, occ: u64) -> bool {
    b[a] matches Some(p) && piece_attacks(p@ % 6, color_of_index(p@), a, sq, occ)
}

/// All pieces of BOTH colors attacking `sq` under occupancy `occ`. Sliders
/// are resolved against `occ`, so removing a front piece reveals the x-ray
/// attacker behind it.
fn attackers_to(pos: &Position, sq: Square, occ: Bitboard) -> (r: Bitboard)
    requires
        pos.boards_ok(),
    ensures
        forall|a: int| 0 <= a < 64 ==> (#[trigger] r.has(a) <==> attacks_square(pos.state().board, a, sq@, occ.0)),
{
    let wp = pawn_attacks(Color::Black, sq).and(pos.piece_bb(Color::White, PieceType::Pawn));
    let bp = pawn_attacks(Color::White, sq).and(pos.piece_bb(Color::Black, PieceType::Pawn));
    let n = knight_attacks(sq).and(
        pos.piece_bb(Color::White, PieceType::Knight).or(pos.piece_bb(Color::Black, PieceType::Knight)),
    );
    let k = king_attacks(sq).and(
        pos.piece_bb(Color::White, PieceType::King).or(pos.piece_bb(Color::Black, PieceType::King)),
    );
    let diag = pos.piece_bb(Color::White, PieceType::Bishop).or(
        pos.piece_bb(Color::Black, PieceType::Bishop),
    ).or(pos.piece_bb(Color::White, PieceType::Queen)).or(
        pos.piece_bb(Color::Black, PieceType::Queen),
    );
    let line = pos.piece_bb(Color::White, PieceType::Rook).or(
        pos.piece_bb(Color::Black, PieceType::Rook),
    ).or(pos.piece_bb(Color::White, PieceType::Queen)).or(
        pos.piece_bb(Color::Black, PieceType::Queen),
    );
    let d = bishop_attacks(sq, occ).and(diag);
    let l = rook_attacks(sq, occ).and(line);
    let r = wp.or(bp).or(n).or(k).or(d).or(l);
    proof {
        use_type_invariant(&sq);
        let b = pos.state().board;
        assert forall|a: int| 0 <= a < 64 implies (#[trigger] r.has(a) <==> attacks_square(b, a, sq@, occ.0)) by {
            lemma_leaper_symmetry(a, sq@);
            lemma_slider_symmetry(a, sq@, occ.0);
            if b[a] is Some {
                let p = b[a]->0;
                assert(0 <= p@ < 12);
            }
        }
    }
    r
}

/// The capture of the enemy king, possible only from an illegal setup in
/// which the side not to move is in check: a move of the lowest-numbered
/// attacking piece onto the king (a pawn reaching the last rank promotes to
/// a queen). `None` when the enemy king is not attacked.
pub fn king_capture(pos: &Position) -> (r: Option<Move>)
    requires
        pos.wf(),
    ensures
        r is Some <==> !mover_safe(pos.state()),
        r matches Some(m) ==> {
            let b = pos.state().board;
            &&& m.spec_to() == king_square(b, opposite(pos.state().stm))
            &&& attacker(b, occupancy(b), m.spec_from(), m.spec_to(), pos.state().stm)
        },
{
    proof {
        pos.lemma_wf_boards();
        pos.lemma_wf_state();
        pos.lemma_occ_all();
    }
    let stm = pos.stm();
    let ek = pos.king_sq(stm.flip());
    let occ = pos.occ_all();
    let att = attackers_to(pos, ek, occ).and(pos.occ(stm));
    let ghost b = pos.state().board;
    if att.is_empty() {
        proof {
            if attacked(b, occupancy(b), ek@, stm) {
                let a = choose|a: int| 0 <= a < 64 && #[trigger] attacker(b, occupancy(b), a, ek@, stm);
                assert(att.has(a));
            }
        }
        return None;
    }
    let from = att.lsb();
    proof {
        assert(attacker(b, occupancy(b), from@, ek@, stm));
    }
    let pawn_promotes = match pos.piece_on(from) {
        Some(p) => p.piece_type() == PieceType::Pawn && (ek.rank() == 7 || ek.rank() == 0),
        None => false,
    };
    let flag = if pawn_promotes {
        Move::PROMO_CAP_Q
    } else {
        Move::CAPTURE
    };
    Some(Move::new(from, ek, flag))
}

/// The attackers (of both colors) of `to` under occupancy `occ`.
pub open spec fn see_att(pos: Position, to: int, occ: u64) -> u64 {
    bits_of(|a: int| attacks_square(pos.state().board, a, to, occ))
}

/// The pieces of `stm`.
pub open spec fn side_bits(pos: Position, stm: Color) -> u64 {
    bits_of(|i: int| holds_color(pos.state().board, i, stm))
}

/// The least valuable piece of `stm` in `my`, trying piece kinds from `i`
/// up: its square (the lowest of that kind) and kind.
pub open spec fn lva_from(pos: Position, my: u64, stm: Color, i: int) -> Option<(int, int)>
    decreases 6 - i,
{
    if i >= 6 || i < 0 {
        None
    } else {
        let s = my & pos.piece_bits(stm, type_of_index(i));
        if s != 0 {
            Some((u64_trailing_zeros(s) as int, i))
        } else {
            lva_from(pos, my, stm, i + 1)
        }
    }
}

/// Trying kinds from `i` up picks a piece of `my` of the first kind that
/// has one there.
proof fn lemma_lva_from(pos: Position, my: u64, stm: Color, i: int)
    requires
        0 <= i <= 6,
    ensures
        match lva_from(pos, my, stm, i) {
            Some((sq, k)) => {
                &&& i <= k < 6
                &&& bit(my, sq)
                &&& bit(pos.piece_bits(stm, type_of_index(k)), sq)
                &&& forall|j: int, q: int|
                    i <= j < 6 && bit(my, q) && #[trigger] bit(pos.piece_bits(stm, type_of_index(j)), q) ==> k <= j
            },
            None => forall|j: int, q: int|
                i <= j < 6 && bit(my, q) ==> !#[trigger] bit(pos.piece_bits(stm, type_of_index(j)), q),
        },
    decreases 6 - i,
{
    if i < 6 {
        let pb = pos.piece_bits(stm, type_of_index(i));
        let s = my & pb;
        lemma_bit_and(my, pb);
        lemma_lva_from(pos, my, stm, i + 1);
        if s != 0 {
            lemma_lowest_bit(s);
        } else {
            lemma_zero_iff_no_bits(s);
            assert forall|q: int| bit(my, q) implies !#[trigger] bit(pb, q) by {
                assert(!bit(s, q));
            }
        }
    }
}

/// In an exchange each side captures with its least valuable attacker:
/// the piece picked among `my` is one of `stm`'s pieces standing in `my`,
/// and every piece of `stm` in `my` is of the same kind or a dearer one
/// (by kind and by SEE value). Nothing is picked only when `my` holds no
/// piece of `stm`.
pub proof fn lemma_least_valuable_first(pos: Position, my: u64, stm: Color)
    ensures
        match lva_from(pos, my, stm, 0) {
            Some((sq, k)) => {
                &&& 0 <= k < 6
                &&& bit(my, sq)
                &&& bit(pos.piece_bits(stm, type_of_index(k)), sq)
                &&& forall|j: int, q: int|
                    0 <= j < 6 && bit(my, q) && #[trigger] bit(pos.piece_bits(stm, type_of_index(j)), q) ==> k <= j
                        && see_value(k) <= see_value(j)
            },
            None => forall|j: int, q: int|
                0 <= j < 6 && bit(my, q) ==> !#[trigger] bit(pos.piece_bits(stm, type_of_index(j)), q),
        },
{
    lemma_lva_from(pos, my, stm, 0);
}

/// The gains of the exchange on `to` from here: `stm` recaptures with its
/// least valuable attacker while it has one, a capturer's departure
/// uncovering the attackers behind it, and the exchange stops once going on
/// cannot pay for either side. `gains` holds the gains so far; `victim` is
/// the value of the piece now on `to`.
pub open spec fn exchange(
    pos: Position,
    to: int,
    occ: u64,
    att: u64,
    stm: Color,
    victim: int,
    gains: Seq<int>,
    fuel: nat,
) -> Seq<int>
    decreases fuel,
{
    if fuel == 0 {
        gains
    } else {
        let my = (att & side_bits(pos, stm)) & occ;
        if my == 0 {
            gains
        } else {
            match lva_from(pos, my, stm, 0) {
                None => gains,
                Some((sq, k)) => {
                    let prev = gains.last();
                    let g = victim - prev;
                    let best_here = if g >= -prev {
                        g
                    } else {
                        -prev
                    };
                    if best_here < 0 {
                        gains.push(g)
                    } else {
                        let occ2 = occ ^ (1u64 << (sq as u64));
                        exchange(
                            pos,
                            to,
                            occ2,
                            (att | see_att(pos, to, occ2)) & occ2,
                            opposite(stm),
                            see_value(k),
                            gains.push(g),
                            (fuel - 1) as nat,
                        )
                    }
                },
            }
        }
    }
}

/// Negamax fold-back of the gains: each side, from the last capture
/// backwards, may decline to recapture.
pub open spec fn see_fold(g: Seq<int>) -> int
    decreases g.len(),
{
    if g.len() <= 1 {
        if g.len() == 1 {
            g[0]
        } else {
            0
        }
    } else {
        let n = g.len() as int;
        let a = -g[n - 2];
        let b = g[n - 1];
        see_fold(g.take(n - 2).push(-(if a >= b { a } else { b })))
    }
}

/// The gains as integers.
pub open spec fn as_ints(v: Seq<i32>) -> Seq<int> {
    v.map_values(|x: i32| x as int)
}

/// An exchange only appends gains: the gains it started from stay in front.
proof fn lemma_exchange_prefix(
    pos: Position,
    to: int,
    occ: u64,
    att: u64,
    stm: Color,
    victim: int,
    gains: Seq<int>,
    fuel: nat,
)
    ensures
        exchange(pos, to, occ, att, stm, victim, gains, fuel).len() >= gains.len(),
        forall|i: int| 0 <= i < gains.len() ==> #[trigger] exchange(pos, to, occ, att, stm, victim, gains, fuel)[i] == gains[i],
    decreases fuel,
{
    if fuel > 0 {
        let my = (att & side_bits(pos, stm)) & occ;
        if my != 0 {
            match lva_from(pos, my, stm, 0) {
                None => {},
                Some((sq, k)) => {
                    let prev = gains.last();
                    let g = victim - prev;
                    let best_here = if g >= -prev { g } else { -prev };
                    if best_here >= 0 {
                        let occ2 = occ ^ (1u64 << (sq as u64));
                        lemma_exchange_prefix(
                            pos,
                            to,
                            occ2,
                            (att | see_att(pos, to, occ2)) & occ2,
                            opposite(stm),
                            see_value(k),
                            gains.push(g),
                            (fuel - 1) as nat,
                        );
                        assert forall|i: int| 0 <= i < gains.len() implies #[trigger] exchange(pos, to, occ, att, stm, victim, gains, fuel)[i] == gains[i] by {
                            assert(gains.push(g)[i] == gains[i]);
                        }
                    }
                },
            }
        }
    }
}

/// Folding back never raises the first gain: the side that starts an
/// exchange can do no better than what its first capture takes.
proof fn lemma_fold_at_most_first(g: Seq<int>)
    requires
        g.len() >= 1,
    ensures
        see_fold(g) <= g[0],
    decreases g.len(),
{
    if g.len() > 1 {
        let n = g.len() as int;
        let a = -g[n - 2];
        let b = g[n - 1];
        let h = g.take(n - 2).push(-(if a >= b { a } else { b }));
        assert(h[0] <= g[0]);
        lemma_fold_at_most_first(h);
    }
}

/// The value a capture takes: the piece on the target (a pawn for en
/// passant, nothing on an empty square).
pub open spec fn taken_value(pos: Position, mv: Move) -> int {
    if mv.spec_flag() == 5 {
        100
    } else {
        match pos.state().board[mv.spec_to()] {
            Some(p) => see_value(type_index(p.spec_type())),
            None => 0,
        }
    }
}

/// A capture gains at most what it takes, and exactly that when the
/// opponent has no piece attacking the target once the mover stands there.
pub proof fn lemma_see_bounds(pos: Position, mv: Move)
    ensures
        see_spec(pos, mv) <= taken_value(pos, mv),
        (see_att(pos, mv.spec_to(), see_occ0(pos, mv)) & see_occ0(pos, mv) & side_bits(pos, opposite(pos.state().stm))
            & see_occ0(pos, mv)) == 0 ==> see_spec(pos, mv) == taken_value(pos, mv),
{
    let to = mv.spec_to();
    let occ0 = see_occ0(pos, mv);
    let att0 = see_att(pos, to, occ0) & occ0;
    let g0 = taken_value(pos, mv);
    let v = see_value(type_index(pos.state().board[mv.spec_from()]->0.spec_type()));
    let opp = opposite(pos.state().stm);
    let g = exchange(pos, to, occ0, att0, opp, v, seq![g0], 64);
    lemma_exchange_prefix(pos, to, occ0, att0, opp, v, seq![g0], 64);
    assert(g[0] == g0);
    lemma_fold_at_most_first(g);
    if (see_att(pos, to, occ0) & occ0 & side_bits(pos, opp) & occ0) == 0 {
        assert(g == seq![g0]);
    }
}

/// The occupancy once the mover (and an en-passant victim) left.
pub open spec fn see_occ0(pos: Position, mv: Move) -> u64 {
    let base = pos.spec_occ_all() ^ (1u64 << (mv.spec_from() as u64));
    if mv.spec_flag() == 5 {
        base ^ (1u64 << (square_at(file_of(mv.spec_to()), rank_of(mv.spec_from())) as u64))
    } else {
        base
    }
}

/// The static exchange value of `mv`: the first gain is the victim's
/// value (a pawn for en passant, nothing for a quiet move), then the
/// opponent's exchange on the target with the mover standing there.
pub open spec fn see_spec(pos: Position, mv: Move) -> int {
    let to = mv.spec_to();
    let b = pos.state().board;
    let g0 = if mv.spec_flag() == 5 {
        100
    } else {
        match b[to] {
            Some(p) => see_value(type_index(p.spec_type())),
            None => 0,
        }
    };
    let occ0 = see_occ0(pos, mv);
    see_fold(
        exchange(
            pos,
            to,
            occ0,
            see_att(pos, to, occ0) & occ0,
            opposite(pos.state().stm),
            see_value(type_index(b[mv.spec_from()]->0.spec_type())),
            seq![g0],
            64,
        ),
    )
}

/// The least valuable attacker of `stm` among `my`.
fn least_valuable(pos: &Position, my: Bitboard, stm: Color) -> (r: Option<(Square, PieceType)>)
    requires
        pos.boards_ok(),
    ensures
        match lva_from(*pos, my.0, stm, 0) {
            None => r is None,
            Some((sq, k)) => r matches Some((s, pt)) && s@ == sq && type_index(pt) == k && my.has(sq),
        },
{
    let all = PieceType::all();
    let mut i: usize = 0;
    while i < 6
        invariant
            i <= 6,
            pos.boards_ok(),
            forall|j: int| 0 <= j < 6 ==> #[trigger] all@[j] == type_of_index(j),
            lva_from(*pos, my.0, stm, 0) == lva_from(*pos, my.0, stm, i as int),
        decreases 6 - i,
    {
        let bb = pos.piece_bb(stm, all[i]);
        let s = my.and(bb);
        if s.any() {
            let sq = s.lsb();
            proof {
                assert(s.0 == my.0 & pos.piece_bits(stm, type_of_index(i as int)));
                assert(type_index(all[i as int]) == i);
            }
            return Some((sq, all[i]));
        }
        i += 1;
    }
    None
}

/// Static exchange evaluation of the capture `mv`, from the side-to-move's
/// perspective. Positive = the capture sequence wins material.
pub fn see(pos: &Position, mv: Move) -> (r: i32)
    requires
        pos.wf(),
        pos.state().board[mv.spec_from()] is Some,
    ensures
        -1_400_000 <= r <= 1_400_000,
        r == see_spec(*pos, mv),
{
    proof {
        pos.lemma_wf_boards();
        crate::board::moves::lemma_code_parts(mv@);
    }
    let to = mv.to();
    let from = mv.from();
    let is_ep = mv.flag() == Move::EN_PASSANT;
    let mover = match pos.piece_on(from) {
        Some(p) => p.piece_type(),
        None => {
            return 0;
        },
    };
    let mut gain: Vec<i32> = Vec::new();
    // victim value (ep: the captured pawn is NOT on `to`)
    let g0 = if is_ep {
        see_val(PieceType::Pawn)
    } else {
        match pos.piece_on(to) {
            Some(p) => see_val(p.piece_type()),
            None => 0,  // quiet move: the exchange starts with our piece exposed
        }
    };
    gain.push(g0);
    let mut occ = pos.occ_all().xor(from.bb());  // mover leaves its square
    if is_ep {
        // captured pawn sits on the from-rank, to-file (matches make())
        let cap_sq = Square::from_fr(to.file(), from.rank());
        occ = occ.xor(cap_sq.bb());
    }
    proof {
        crate::board::bitboard::lemma_bits_below_bounded(occ.0, 64);
    }
    let at0 = attackers_to(pos, to, occ);
    proof {
        assert forall|a: int| 0 <= a < 64 implies (#[trigger] bit(at0.0, a) <==> attacks_square(
            pos.state().board,
            a,
            to@,
            occ.0,
        )) by {
            assert(at0.has(a) == bit(at0.0, a));
        }
        lemma_bits_of(at0.0, |a: int| attacks_square(pos.state().board, a, to@, occ.0));
    }
    let mut attackers = at0.and(occ);
    let mut stm = pos.stm().flip();
    let mut victim_val = see_val(mover);  // piece now on `to`, captured next
    let mut depth: usize = 0;
    let ghost e_all = exchange(*pos, to@, occ.0, attackers.0, stm, victim_val as int, as_ints(gain@), 64);
    proof {
        assert(as_ints(gain@) =~= seq![g0 as int]);
        assert(occ.0 == see_occ0(*pos, mv));
    }
    loop
        invariant_except_break
            depth + popcount(occ.0) <= 64,
            exchange(*pos, to@, occ.0, attackers.0, stm, victim_val as int, as_ints(gain@), (64 - depth) as nat)
                == e_all,
        invariant
            pos.boards_ok(),
            pos.wf(),
            gain.len() == depth + 1,
            depth <= 64,
            forall|i: int| 0 <= i < gain.len() ==> -20_000 * (i + 1) <= #[trigger] gain@[i] <= 20_000 * (i + 1),
            0 <= victim_val <= 20_000,
        ensures
            as_ints(gain@) == e_all,
        decreases popcount(occ.0),
    {
        let ghost fuel: nat = (64 - depth) as nat;
        let ghost gi = as_ints(gain@);
        let oc = pos.occ(stm);
        proof {
            assert forall|i: int| 0 <= i < 64 implies (#[trigger] bit(oc.0, i) <==> holds_color(
                pos.state().board,
                i,
                stm,
            )) by {
                assert(oc.has(i) == bit(oc.0, i));
            }
            lemma_bits_of(oc.0, |i: int| holds_color(pos.state().board, i, stm));
        }
        let my_attackers = attackers.and(oc).and(occ);
        if my_attackers.is_empty() {
            break;
        }
        // least valuable attacker of the side to move
        let lva = least_valuable(pos, my_attackers, stm);
        let (sq, pt) = match lva {
            Some(x) => x,
            None => {
                break;
            },
        };
        let ghost old_occ = occ.0;
        let ghost new_occ = old_occ ^ (1u64 << (sq@ as u64));
        proof {
            use_type_invariant(&sq);
            lemma_bit_xor(old_occ, 1u64 << (sq@ as u64));
            lemma_bit_single(sq@ as u64);
            assert(bit(old_occ, sq@));
            assert forall|j: int| 0 <= j < 64 && j != sq@ implies #[trigger] bit(old_occ, j) == bit(new_occ, j) by {}
            lemma_bits_below_remove(old_occ, new_occ, sq@, 64);
            assert(fuel > 0);
        }
        let prev = gain[depth];
        depth += 1;
        let g = victim_val - prev;
        gain.push(g);
        proof {
            assert(gi.last() == prev);
            assert(as_ints(gain@) =~= gi.push(g as int));
        }
        // If our best achievable result here already loses relative to
        // standing pat at the previous ply, neither side gains by continuing.
        let best_here = if g >= -prev {
            g
        } else {
            -prev
        };
        if best_here < 0 {
            break;
        }
        victim_val = see_val(pt);
        occ = occ.xor(sq.bb());
        // slider x-rays revealed by the capturer's departure
        let at2 = attackers_to(pos, to, occ);
        proof {
            assert forall|a: int| 0 <= a < 64 implies (#[trigger] bit(at2.0, a) <==> attacks_square(
                pos.state().board,
                a,
                to@,
                occ.0,
            )) by {
                assert(at2.has(a) == bit(at2.0, a));
            }
            lemma_bits_of(at2.0, |a: int| attacks_square(pos.state().board, a, to@, occ.0));
        }
        attackers = attackers.or(at2).and(occ);
        stm = stm.flip();
    }
    // negamax fold-back: each side, walking outward, may decline the recapture
    let ghost full = as_ints(gain@);
    proof {
        assert(full.take(depth + 1) =~= full);
    }
    while depth > 0
        invariant
            depth < gain.len(),
            gain.len() <= 65,
            forall|i: int| 0 <= i < gain.len() ==> -1_400_000 <= #[trigger] gain@[i] <= 1_400_000,
            see_fold(as_ints(gain@).take(depth + 1)) == see_fold(full),
        decreases depth,
    {
        let ghost before = as_ints(gain@);
        let a = -gain[depth - 1];
        let b = gain[depth];
        let m = if a >= b {
            a
        } else {
            b
        };
        gain.set(depth - 1, -m);
        proof {
            assert(before.take(depth + 1).take(depth - 1) =~= before.take(depth - 1));
            assert(as_ints(gain@).take(depth as int) =~= before.take(depth - 1).push(-(m as int)));
        }
        depth -= 1;
    }
    proof {
        assert(as_ints(gain@).take(1) =~= seq![gain@[0] as int]);
    }
    gain[0]
}

} // verus!
