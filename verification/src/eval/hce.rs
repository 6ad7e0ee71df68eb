//! Tapered hand-crafted evaluation. Every term function takes a `Tracer`:
//! each parameter use adds `sign * params[idx]` to the (mg, eg) sums and
//! records `(idx, sign)` in the same step, so the score is always the
//! weighted sum of the recorded features.
use vstd::prelude::*;

use crate::board::attacks::{
    bishop_attacks, bishop_hit, king_attacks, king_step, knight_attacks, knight_step, queen_attacks, rook_attacks, rook_hit,
};
use crate::board::bitboard::FILE_A;
use crate::board::bitboard::{bit, lemma_bit_and, lemma_bit_not, lemma_bit_or, lemma_bits_ext, lemma_zero_iff_no_bits, popcount};
use crate::board::movegen::{lemma_consistent_pawns, pawns_inside};
use crate::board::position::{holds, holds_color, king_square};
use crate::board::types::{file_of, opposite, piece_index, rank_of, type_index, type_of_index};
use crate::board::{Bitboard, Color, Move, Piece, PieceType, Position, Square};
use crate::eval::manifest::{
    BISHOP_PAIR, DOUBLED, HANGING, ISOLATED, KS_ATTACKER, KS_OPEN_FILE, KS_SEMI_FILE, KS_SHIELD,
    MATERIAL, MOB_BISHOP, MOB_KNIGHT, MOB_QUEEN, MOB_ROOK, PASSED, PASSED_CONNECTED, PST_BISHOP,
    PST_KING, PST_KNIGHT, PST_PAWN, PST_QUEEN, PST_ROOK, ROOK_OPEN, ROOK_SEMI, TEMPO,
    THREAT_BY_MINOR, THREAT_BY_PAWN, TOTAL_PAIRS,
};
use crate::eval::trace::{NullTracer, Tracer};
use crate::eval::Evaluator;
use crate::search::MATE_BOUND;

verus! {

/// Largest magnitude of a parameter value.
pub const PARAM_LIMIT: i32 = 10_000;

/// Weighted sum of the middlegame parameters over a record log.
#[verifier::opaque]
pub open spec fn sum_mg(params: Seq<(i32, i32)>, log: Seq<(int, int)>) -> int
    decreases log.len(),
{
    if log.len() == 0 {
        0
    } else {
        sum_mg(params, log.drop_last()) + log.last().1 * params[log.last().0].0
    }
}

/// Weighted sum of the endgame parameters over a record log.
#[verifier::opaque]
pub open spec fn sum_eg(params: Seq<(i32, i32)>, log: Seq<(int, int)>) -> int
    decreases log.len(),
{
    if log.len() == 0 {
        0
    } else {
        sum_eg(params, log.drop_last()) + log.last().1 * params[log.last().0].1
    }
}

/// Going from `log0` to `log1` added at most `k` records, and moved the
/// (mg, eg) sums by exactly the weighted sum of the added records (each
/// record moving them by at most `PARAM_LIMIT`).
pub open spec fn traced(
    params: Seq<(i32, i32)>,
    log0: Seq<(int, int)>,
    log1: Seq<(int, int)>,
    mg0: int,
    mg1: int,
    eg0: int,
    eg1: int,
    k: int,
) -> bool {
    &&& log0.len() <= log1.len() <= log0.len() + k
    &&& mg1 - mg0 == sum_mg(params, log1) - sum_mg(params, log0)
    &&& eg1 - eg0 == sum_eg(params, log1) - sum_eg(params, log0)
    &&& -(log1.len() - log0.len()) * PARAM_LIMIT <= mg1 - mg0 <= (log1.len() - log0.len()) * PARAM_LIMIT
    &&& -(log1.len() - log0.len()) * PARAM_LIMIT <= eg1 - eg0 <= (log1.len() - log0.len()) * PARAM_LIMIT
}

/// The (mg, eg) sums may grow by `k` more records without overflow.
pub open spec fn room(mg: int, eg: int, k: int) -> bool {
    &&& -2_100_000_000 + k * PARAM_LIMIT <= mg <= 2_100_000_000 - k * PARAM_LIMIT
    &&& -2_100_000_000 + k * PARAM_LIMIT <= eg <= 2_100_000_000 - k * PARAM_LIMIT
}

/// A parameter table: one (mg, eg) pair per registered parameter.
pub struct Params {
    pairs: Vec<(i32, i32)>,
}

impl Params {
    pub closed spec fn view(&self) -> Seq<(i32, i32)> {
        self.pairs@
    }

    /// One pair per parameter, every value within `PARAM_LIMIT`.
    pub open spec fn ok(&self) -> bool {
        &&& self@.len() == TOTAL_PAIRS
        &&& forall|i: int|
            0 <= i < TOTAL_PAIRS ==> -PARAM_LIMIT <= (#[trigger] self@[i]).0 <= PARAM_LIMIT && -PARAM_LIMIT
                <= self@[i].1 <= PARAM_LIMIT
    }

    /// The table `pairs`, if it has one pair per parameter and every value
    /// is within `PARAM_LIMIT`.
    pub fn from_pairs(pairs: Vec<(i32, i32)>) -> (r: Option<Params>)
        ensures
            r is Some <==> (pairs@.len() == TOTAL_PAIRS && forall|i: int|
                0 <= i < pairs@.len() ==> -PARAM_LIMIT <= (#[trigger] pairs@[i]).0 <= PARAM_LIMIT
                    && -PARAM_LIMIT <= pairs@[i].1 <= PARAM_LIMIT),
            r matches Some(p) ==> p@ == pairs@ && p.ok(),
    {
        if pairs.len() != TOTAL_PAIRS {
            return None;
        }
        let mut i: usize = 0;
        while i < pairs.len()
            invariant
                i <= pairs@.len(),
                forall|k: int|
                    0 <= k < i ==> -PARAM_LIMIT <= (#[trigger] pairs@[k]).0 <= PARAM_LIMIT && -PARAM_LIMIT
                        <= pairs@[k].1 <= PARAM_LIMIT,
            decreases pairs@.len() - i,
        {
            let (a, b) = pairs[i];
            if a < -PARAM_LIMIT || a > PARAM_LIMIT || b < -PARAM_LIMIT || b > PARAM_LIMIT {
                return None;
            }
            i += 1;
        }
        Some(Params { pairs })
    }

    /// A copy of the table.
    pub fn copy(&self) -> (r: Params)
        ensures
            r@ == self@,
    {
        let mut pairs: Vec<(i32, i32)> = Vec::new();
        let mut i: usize = 0;
        while i < self.pairs.len()
            invariant
                i <= self.pairs@.len(),
                pairs@ =~= self.pairs@.take(i as int),
            decreases self.pairs@.len() - i,
        {
            pairs.push(self.pairs[i]);
            i += 1;
        }
        proof {
            assert(self.pairs@.take(self.pairs@.len() as int) =~= self.pairs@);
        }
        Params { pairs }
    }

    /// The all-zero table.
    pub fn zeros() -> (p: Params)
        ensures
            p.ok(),
            forall|i: int| 0 <= i < TOTAL_PAIRS ==> #[trigger] p@[i] == (0i32, 0i32),
    {
        let mut v: Vec<(i32, i32)> = Vec::new();
        let mut i: usize = 0;
        while i < TOTAL_PAIRS
            invariant
                i <= TOTAL_PAIRS,
                v@.len() == i,
                forall|k: int| 0 <= k < i ==> #[trigger] v@[k] == (0i32, 0i32),
            decreases TOTAL_PAIRS - i,
        {
            v.push((0, 0));
            i += 1;
        }
        Params { pairs: v }
    }

    pub fn get(&self, idx: usize) -> (r: (i32, i32))
        requires
            self.ok(),
            idx < TOTAL_PAIRS,
        ensures
            r == self@[idx as int],
    {
        self.pairs[idx]
    }
}

/// Adds `sign * params[idx]` to the sums and records `(idx, sign)`.
fn add_term<T: Tracer>(params: &Params, idx: usize, sign: i32, t: &mut T, mg: &mut i32, eg: &mut i32)
    requires
        params.ok(),
        idx < TOTAL_PAIRS,
        sign == 1 || sign == -1,
        room(*old(mg) as int, *old(eg) as int, 1),
    ensures
        final(t).log() == old(t).log().push((idx as int, sign as int)),
        *final(mg) == *old(mg) + sign * params@[idx as int].0,
        *final(eg) == *old(eg) + sign * params@[idx as int].1,
        traced(params@, old(t).log(), final(t).log(), *old(mg) as int, *final(mg) as int, *old(eg) as int, *final(eg) as int, 1),
{
    let (pmg, peg) = params.get(idx);
    if sign == 1 {
        *mg = *mg + pmg;
        *eg = *eg + peg;
    } else {
        *mg = *mg - pmg;
        *eg = *eg - peg;
    }
    t.record(idx, sign as i8);
    proof {
        let l = final(t).log();
        assert(l.drop_last() =~= old(t).log());
        reveal_with_fuel(sum_mg, 1);
        reveal_with_fuel(sum_eg, 1);
    }
}

/// Bits on square `i` (`0..64`) and nowhere else: the mask of a square set.
pub open spec fn mask_of(r: u64, f: spec_fn(int) -> bool) -> bool {
    forall|i: int| 0 <= i < 64 ==> (#[trigger] bit(r, i) <==> f(i))
}

/// The ranks strictly ahead of `rank` for `color`.
pub open spec fn ahead(color: Color, r: int, rank: int) -> bool {
    match color {
        Color::White => r > rank,
        Color::Black => r < rank,
    }
}

/// The files beside file `f`.
pub open spec fn adj_zone(f: int) -> spec_fn(int) -> bool {
    |i: int| file_of(i) == f - 1 || file_of(i) == f + 1
}

/// File `f`.
pub open spec fn file_zone(f: int) -> spec_fn(int) -> bool {
    |i: int| file_of(i) == f
}

/// The ranks strictly ahead of `rank` for `color`.
pub open spec fn ahead_zone(color: Color, rank: int) -> spec_fn(int) -> bool {
    |i: int| ahead(color, rank_of(i), rank)
}

/// The file of `sq` and its neighbours, strictly ahead of `sq` for `color`.
pub open spec fn passed_zone(color: Color, sq: int) -> spec_fn(int) -> bool {
    |i: int|
        (file_of(i) == file_of(sq) - 1 || file_of(i) == file_of(sq) || file_of(i) == file_of(sq) + 1) && ahead(
            color,
            rank_of(i),
            rank_of(sq),
        )
}

/// The file of `sq`, strictly ahead of `sq` for `color`.
pub open spec fn fwd_zone(color: Color, sq: int) -> spec_fn(int) -> bool {
    |i: int| file_of(i) == file_of(sq) && ahead(color, rank_of(i), rank_of(sq))
}

/// Rank `r`.
pub open spec fn rank_zone(r: int) -> spec_fn(int) -> bool {
    |i: int| rank_of(i) == r
}

/// The square of file `f` on rank `r`.
pub open spec fn file_rank_zone(f: int, r: int) -> spec_fn(int) -> bool {
    |i: int| file_of(i) == f && rank_of(i) == r
}

/// Some square of `x` satisfies `z`.
#[verifier::opaque]
pub open spec fn meets(x: u64, z: spec_fn(int) -> bool) -> bool {
    exists|i: int| 0 <= i < 64 && #[trigger] bit(x, i) && z(i)
}

/// A mask of `z` shares a bit with `x` exactly when a square of `x`
/// satisfies `z`.
proof fn lemma_meets(m: u64, x: u64, z: spec_fn(int) -> bool)
    requires
        mask_of(m, z),
    ensures
        (m & x == 0) == !meets(x, z),
{
    reveal(meets);
    lemma_bit_and(m, x);
    lemma_zero_iff_no_bits(m & x);
    if meets(x, z) {
        let i = choose|i: int| 0 <= i < 64 && #[trigger] bit(x, i) && z(i);
        assert(bit(m & x, i));
    }
    if m & x != 0 {
        let i = choose|i: int| 0 <= i < 64 && !#[trigger] bit(m & x, i) == false;
        assert(bit(x, i) && z(i));
    }
}

/// The records `f(i)` of the squares `i < n` satisfying `p`, in square
/// order.
pub open spec fn scan(p: spec_fn(int) -> bool, f: spec_fn(int) -> Seq<(int, int)>, n: int) -> Seq<(int, int)>
    decreases n,
{
    if n <= 0 {
        Seq::empty()
    } else {
        scan(p, f, n - 1) + if p(n - 1) {
            f(n - 1)
        } else {
            Seq::empty()
        }
    }
}

/// The records `f(s)` of the squares of `v`, in order.
pub open spec fn over(v: Seq<Square>, f: spec_fn(int) -> Seq<(int, int)>) -> Seq<(int, int)>
    decreases v.len(),
{
    if v.len() == 0 {
        Seq::empty()
    } else {
        over(v.drop_last(), f) + f(v.last()@)
    }
}

/// Walking the ascending list of the squares below `n` that satisfy `p`
/// gives the same records as scanning every square below `n`.
proof fn lemma_over_scan(v: Seq<Square>, p: spec_fn(int) -> bool, f: spec_fn(int) -> Seq<(int, int)>, n: int)
    requires
        0 <= n,
        forall|k: int| 0 <= k < v.len() ==> 0 <= #[trigger] v[k]@ < n && p(v[k]@),
        forall|i: int| 0 <= i < n && #[trigger] p(i) ==> exists|k: int| 0 <= k < v.len() && #[trigger] v[k]@ == i,
        forall|a: int, b: int| 0 <= a < b < v.len() ==> v[a]@ < v[b]@,
    ensures
        over(v, f) == scan(p, f, n),
    decreases n,
{
    if n == 0 {
        if v.len() > 0 {
            let k: int = 0;
            assert(0 <= v[k]@ < n);
        }
    } else if p(n - 1) {
        let k0 = choose|k: int| 0 <= k < v.len() && #[trigger] v[k]@ == n - 1;
        let l = v.len() - 1;
        if k0 < l {
            assert(v[k0]@ < v[l]@);
            assert(v[l]@ < n);
        }
        assert(v[l]@ == n - 1);
        let w = v.drop_last();
        assert forall|k: int| 0 <= k < w.len() implies 0 <= #[trigger] w[k]@ < n - 1 && p(w[k]@) by {
            assert(w[k] == v[k]);
            assert(v[k]@ < v[l]@);
        }
        assert forall|i: int| 0 <= i < n - 1 && #[trigger] p(i) implies exists|k: int|
            0 <= k < w.len() && #[trigger] w[k]@ == i by {
            let k = choose|k: int| 0 <= k < v.len() && #[trigger] v[k]@ == i;
            assert(k != l);
            assert(w[k] == v[k]);
        }
        lemma_over_scan(w, p, f, n - 1);
    } else {
        assert forall|k: int| 0 <= k < v.len() implies 0 <= #[trigger] v[k]@ < n - 1 && p(v[k]@) by {
            assert(v[k]@ != n - 1);
        }
        lemma_over_scan(v, p, f, n - 1);
        assert(scan(p, f, n) =~= scan(p, f, n - 1));
    }
}

/// The shifted masks used by the evaluation, bit by bit.
proof fn lemma_mask_bits(f: u64, s: u64, i: u64)
    by (bit_vector)
    requires
        f < 8,
        s < 64,
        i < 64,
    ensures
        ((FILE_A << f) >> i) & 1u64 == 1u64 <==> i % 8 == f,
        ((0xFFFF_FFFF_FFFF_FFFFu64 << s) >> i) & 1u64 == 1u64 <==> i >= s,
        ((0xFFFF_FFFF_FFFF_FFFFu64 >> s) >> i) & 1u64 == 1u64 <==> i + s < 64,
        s <= 56 ==> (((0xFFu64 << s) >> i) & 1u64 == 1u64 <==> s <= i && i < s + 8),
{
}

/// The piece set of `color` and `pt` as raw bits.
fn pieces(pos: &Position, color: Color, pt: PieceType) -> (r: u64)
    requires
        pos.wf(),
    ensures
        mask_of(r, |i: int| holds(pos.state().board, i, piece_index(color, pt))),
        r == pos.piece_bits(color, pt),
{
    proof {
        pos.lemma_wf_boards();
    }
    let b = pos.piece_bb(color, pt);
    proof {
        assert forall|i: int| 0 <= i < 64 implies (#[trigger] bit(b.0, i) <==> holds(
            pos.state().board,
            i,
            piece_index(color, pt),
        )) by {
            assert(b.has(i) == bit(b.0, i));
        }
    }
    b.0
}

/// The squares of a set, ascending (at most 64 of them).
fn squares_of(x: u64) -> (v: Vec<Square>)
    ensures
        v@.len() <= 64,
        v@.len() == popcount(x),
        forall|k: int| 0 <= k < v@.len() ==> bit(x, #[trigger] v@[k]@),
        forall|i: int| #[trigger] bit(x, i) ==> exists|k: int| 0 <= k < v@.len() && #[trigger] v@[k]@ == i,
        forall|a: int, b: int| 0 <= a < b < v@.len() ==> v@[a]@ < v@[b]@,
{
    let b = Bitboard(x);
    let n = b.count();
    let v = b.squares();
    proof {
        assert forall|i: int| #[trigger] bit(x, i) implies exists|k: int| 0 <= k < v@.len() && #[trigger] v@[k]@ == i by {
            assert(b.has(i));
        }
    }
    v
}

/// The king square of `color`.
fn king_of(pos: &Position, color: Color) -> (s: Square)
    requires
        pos.wf(),
    ensures
        s@ == king_square(pos.state().board, color),
{
    proof {
        pos.lemma_wf_boards();
        pos.lemma_wf_state();
    }
    pos.king_sq(color)
}

/// The occupancy of `color` as raw bits.
fn occupied_by(pos: &Position, color: Color) -> (r: u64)
    requires
        pos.wf(),
    ensures
        mask_of(r, |i: int| holds_color(pos.state().board, i, color)),
{
    proof {
        pos.lemma_wf_boards();
    }
    let b = pos.occ(color);
    proof {
        assert forall|i: int| 0 <= i < 64 implies (#[trigger] bit(b.0, i) <==> holds_color(
            pos.state().board,
            i,
            color,
        )) by {
            assert(b.has(i) == bit(b.0, i));
        }
    }
    b.0
}

/// The adjacent file(s) of `file` (all ranks).
fn adjacent_files(file: u8) -> (r: u64)
    requires
        file < 8,
    ensures
        mask_of(r, adj_zone(file as int)),
{
    let lo: u64 = if file > 0 {
        FILE_A << ((file - 1) as u64)
    } else {
        0
    };
    let hi: u64 = if file < 7 {
        FILE_A << ((file + 1) as u64)
    } else {
        0
    };
    proof {
        lemma_bit_or(lo, hi);
        lemma_zero_iff_no_bits(0u64);
        assert forall|i: int| 0 <= i < 64 implies (#[trigger] bit(lo | hi, i) <==> (file_of(i) == file - 1
            || file_of(i) == file + 1)) by {
            let j = i as u64;
            if file > 0 {
                lemma_mask_bits((file - 1) as u64, 0, j);
            }
            if file < 7 {
                lemma_mask_bits((file + 1) as u64, 0, j);
            }
        }
    }
    lo | hi
}

/// The ranks strictly ahead of `rank` for `color`, as a mask.
fn ahead_mask(color: Color, rank: u8) -> (r: u64)
    requires
        rank < 8,
    ensures
        mask_of(r, ahead_zone(color, rank as int)),
{
    proof {
        lemma_zero_iff_no_bits(0u64);
    }
    match color {
        Color::White => if rank < 7 {
            let s = ((rank + 1) * 8) as u64;
            proof {
                assert forall|i: int| 0 <= i < 64 implies (#[trigger] bit(u64::MAX << s, i) <==> ahead(
                    color,
                    rank_of(i),
                    rank as int,
                )) by {
                    lemma_mask_bits(0, s, i as u64);
                }
            }
            u64::MAX << s
        } else {
            0
        },
        Color::Black => if rank > 0 {
            let s = ((8 - rank) * 8) as u64;
            proof {
                assert forall|i: int| 0 <= i < 64 implies (#[trigger] bit(u64::MAX >> s, i) <==> ahead(
                    color,
                    rank_of(i),
                    rank as int,
                )) by {
                    lemma_mask_bits(0, s, i as u64);
                }
            }
            u64::MAX >> s
        } else {
            0
        },
    }
}

/// Same file and adjacent files, strictly ahead of `sq`: a pawn on `sq` is
/// passed when no enemy pawn stands there.
fn passed_mask(color: Color, sq: Square) -> (r: u64)
    ensures
        mask_of(r, passed_zone(color, sq@)),
{
    let file = sq.file();
    let col = FILE_A << (file as u64);
    let adj = adjacent_files(file);
    let ah = ahead_mask(color, sq.rank());
    proof {
        lemma_bit_or(col, adj);
        lemma_bit_and(col | adj, ah);
        assert forall|i: int| 0 <= i < 64 implies #[trigger] bit(col, i) == (file_of(i) == file) by {
            lemma_mask_bits(file as u64, 0, i as u64);
        }
    }
    (col | adj) & ah
}

/// Same file, strictly ahead of `sq` (doubled-pawn detection).
fn forward_file(color: Color, sq: Square) -> (r: u64)
    ensures
        mask_of(r, fwd_zone(color, sq@)),
{
    let file = sq.file();
    let col = FILE_A << (file as u64);
    let ah = ahead_mask(color, sq.rank());
    proof {
        lemma_bit_and(col, ah);
        assert forall|i: int| 0 <= i < 64 implies #[trigger] bit(col, i) == (file_of(i) == file) by {
            lemma_mask_bits(file as u64, 0, i as u64);
        }
    }
    col & ah
}

/// All 8 squares of file `f`.
fn file_mask(f: u8) -> (r: u64)
    requires
        f < 8,
    ensures
        mask_of(r, file_zone(f as int)),
{
    proof {
        assert forall|i: int| 0 <= i < 64 implies #[trigger] bit(FILE_A << (f as u64), i) == (file_of(i) == f) by {
            lemma_mask_bits(f as u64, 0, i as u64);
        }
    }
    FILE_A << (f as u64)
}

/// The full rank `ahead` steps in front of `ksq` (color-relative); empty
/// when that rank is off the board.
fn shield_rank(color: Color, ksq: Square, ahead: i8) -> (r: u64)
    requires
        0 <= ahead <= 2,
    ensures
        mask_of(r, rank_zone(rank_of(ksq@) + color_sign(color) * ahead)),
{
    let kr = ksq.rank() as i8;
    let r = match color {
        Color::White => kr + ahead,
        Color::Black => kr - ahead,
    };
    proof {
        lemma_zero_iff_no_bits(0u64);
    }
    if 0 <= r && r < 8 {
        let s = (r * 8) as u64;
        proof {
            assert forall|i: int| 0 <= i < 64 implies #[trigger] bit(0xFFu64 << s, i) == (rank_of(i) == r) by {
                lemma_mask_bits(0, s, i as u64);
            }
        }
        0xFFu64 << s
    } else {
        0
    }
}

/// The color and sign of side number `ci` (White +1, Black -1).
fn side(ci: usize) -> (r: (Color, i32))
    requires
        ci < 2,
    ensures
        r.1 == 1 || r.1 == -1,
        r.0 == Color::White <==> r.1 == 1,
        ci == 0 ==> r == (Color::White, 1i32),
        ci == 1 ==> r == (Color::Black, -1i32),
{
    if ci == 0 {
        (Color::White, 1)
    } else {
        (Color::Black, -1)
    }
}

/// The squares of `color`'s pawns, each off the back ranks.
fn pawn_squares(pos: &Position, color: Color) -> (v: Vec<Square>)
    requires
        pos.wf(),
        pawns_inside(pos.state().board),
    ensures
        v@.len() <= 64,
        forall|k: int| 0 <= k < v@.len() ==> 1 <= #[trigger] rank_of(v@[k]@) <= 6,
        forall|k: int|
            0 <= k < v@.len() ==> 0 <= #[trigger] v@[k]@ < 64 && holds(
                pos.state().board,
                v@[k]@,
                piece_index(color, PieceType::Pawn),
            ),
        forall|i: int|
            0 <= i < 64 && #[trigger] holds(pos.state().board, i, piece_index(color, PieceType::Pawn)) ==> exists|k: int|
                0 <= k < v@.len() && #[trigger] v@[k]@ == i,
        forall|a: int, b: int| 0 <= a < b < v@.len() ==> v@[a]@ < v@[b]@,
{
    proof {
        pos.lemma_wf_boards();
    }
    let b = pos.piece_bb(color, PieceType::Pawn);
    let n = b.count();
    let v = b.squares();
    proof {
        assert forall|k: int| 0 <= k < v@.len() implies 1 <= #[trigger] rank_of(v@[k]@) <= 6 by {
            let i = v@[k]@;
            assert(b.has(i));
            assert(holds(pos.state().board, i, piece_index(color, PieceType::Pawn)));
            assert(pos.state().board[i] matches Some(p) && p@ % 6 == 0);
        }
        assert forall|k: int| 0 <= k < v@.len() implies 0 <= #[trigger] v@[k]@ < 64 by {
            assert(b.has(v@[k]@));
        }
        assert forall|i: int|
            0 <= i < 64 && #[trigger] holds(pos.state().board, i, piece_index(color, PieceType::Pawn)) implies exists|k: int|
                0 <= k < v@.len() && #[trigger] v@[k]@ == i by {
            assert(b.has(i));
        }
    }
    v
}

/// The passed-pawn records of a pawn of `color` on `sq` (relative rank
/// `rel`): the passer by rank, and the connected-passer bonus.
pub open spec fn passed_recs(s: int, rel: int, sq: int, own: u64, enemy: u64, color: Color) -> Seq<(int, int)> {
    if !meets(enemy, passed_zone(color, sq)) {
        seq![(PASSED + rel - 1, s)] + if meets(own, adj_zone(file_of(sq))) {
            seq![(PASSED_CONNECTED as int, s)]
        } else {
            Seq::empty()
        }
    } else {
        Seq::empty()
    }
}

/// The pawn-structure records of a pawn of `color` (sign `s`) on `sq`,
/// given the own and enemy pawn sets: passed (and connected), isolated,
/// doubled.
pub open spec fn pawn_recs(color: Color, s: int, sq: int, own: u64, enemy: u64) -> Seq<(int, int)> {
    let rel = if s == 1 {
        rank_of(sq)
    } else {
        7 - rank_of(sq)
    };
    passed_recs(s, rel, sq, own, enemy, color) + (if !meets(own, adj_zone(file_of(sq))) {
        seq![(ISOLATED as int, s)]
    } else {
        Seq::empty()
    }) + (if meets(own, fwd_zone(color, sq)) {
        seq![(DOUBLED as int, s)]
    } else {
        Seq::empty()
    })
}

/// The pawn-structure records of one pawn on `sq` (a pawn off the back
/// ranks).
#[verifier::spinoff_prover]
fn pawn_records<T: Tracer>(
    params: &Params,
    color: Color,
    sign: i32,
    sq: Square,
    own: u64,
    enemy: u64,
    t: &mut T,
    mg: &mut i32,
    eg: &mut i32,
)
    requires
        params.ok(),
        sign == 1 || sign == -1,
        color == Color::White <==> sign == 1,
        1 <= rank_of(sq@) <= 6,
        room(*old(mg) as int, *old(eg) as int, 4),
    ensures
        traced(params@, old(t).log(), final(t).log(), *old(mg) as int, *final(mg) as int, *old(eg) as int, *final(eg) as int, 4),
        final(t).log() == old(t).log() + pawn_recs(color, sign as int, sq@, own, enemy),
{
    let rel_rank: usize = if sign == 1 {
        sq.rank() as usize
    } else {
        7 - sq.rank() as usize
    };
    let pm = passed_mask(color, sq);
    let adj = adjacent_files(sq.file());
    let ff = forward_file(color, sq);
    let ghost l0 = t.log();
    let ghost s = sign as int;
    let ghost rel = rel_rank as int;
    proof {
        lemma_meets(pm, enemy, passed_zone(color, sq@));
        lemma_meets(adj, own, adj_zone(file_of(sq@)));
        lemma_meets(ff, own, fwd_zone(color, sq@));
    }
    // passed: no enemy pawn ahead on this or an adjacent file
    if pm & enemy == 0 {
        add_term(params, PASSED + rel_rank - 1, sign, t, mg, eg);
        // connected passer: an own pawn on an adjacent file
        if adj & own != 0 {
            add_term(params, PASSED_CONNECTED, sign, t, mg, eg);
        }
    }
    let ghost l1 = t.log();
    proof {
        assert(l1 =~= l0 + passed_recs(s, rel, sq@, own, enemy, color));
    }
    // isolated: no own pawn on an adjacent file
    if adj & own == 0 {
        add_term(params, ISOLATED, sign, t, mg, eg);
    }
    let ghost l2 = t.log();
    proof {
        assert(l2 =~= l1 + (if !meets(own, adj_zone(file_of(sq@))) { seq![(ISOLATED as int, s)] } else { Seq::empty() }));
    }
    // doubled: an own pawn strictly ahead on this file
    if ff & own != 0 {
        add_term(params, DOUBLED, sign, t, mg, eg);
    }
    proof {
        assert(t.log() =~= l2 + (if meets(own, fwd_zone(color, sq@)) { seq![(DOUBLED as int, s)] } else { Seq::empty() }));
        assert(t.log() =~= l0 + pawn_recs(color, s, sq@, own, enemy));
    }
}

/// The sign of the records of `color`: White +1, Black -1.
pub open spec fn color_sign(c: Color) -> int {
    if c == Color::White {
        1
    } else {
        -1
    }
}

/// The pawn-structure records of `color`'s pawns, in square order.
pub open spec fn pawn_log(pos: Position, color: Color) -> Seq<(int, int)> {
    let own = pos.piece_bits(color, PieceType::Pawn);
    let enemy = pos.piece_bits(opposite(color), PieceType::Pawn);
    scan(|i: int| bit(own, i), |i: int| pawn_recs(color, color_sign(color), i, own, enemy), 64)
}

/// The pawn-structure records of both sides, White's first.
pub open spec fn pawn_terms_log(pos: Position) -> Seq<(int, int)> {
    pawn_log(pos, Color::White) + pawn_log(pos, Color::Black)
}

/// Pawn structure: passed pawns by relative rank, connected passers,
/// isolated and doubled pawns.
fn pawn_terms<T: Tracer>(pos: &Position, params: &Params, t: &mut T, mg: &mut i32, eg: &mut i32)
    requires
        pos.wf(),
        pawns_inside(pos.state().board),
        params.ok(),
        room(*old(mg) as int, *old(eg) as int, 512),
    ensures
        traced(params@, old(t).log(), final(t).log(), *old(mg) as int, *final(mg) as int, *old(eg) as int, *final(eg) as int, 512),
        final(t).log() == old(t).log() + pawn_terms_log(*pos),
{
    let mut ci: usize = 0;
    while ci < 2
        invariant
            pos.wf(),
            pawns_inside(pos.state().board),
            params.ok(),
            ci <= 2,
            room(*old(mg) as int, *old(eg) as int, 512),
            traced(params@, old(t).log(), t.log(), *old(mg) as int, *mg as int, *old(eg) as int, *eg as int, 256 * ci),
            t.log() == old(t).log() + if ci == 0 {
                Seq::empty()
            } else if ci == 1 {
                pawn_log(*pos, Color::White)
            } else {
                pawn_terms_log(*pos)
            },
        decreases 2 - ci,
    {
        let (color, sign) = side(ci);
        let own = pieces(pos, color, PieceType::Pawn);
        let enemy = pieces(pos, color.flip(), PieceType::Pawn);
        let sqs = pawn_squares(pos, color);
        let ghost l1 = t.log();
        let ghost mg1 = *mg as int;
        let ghost eg1 = *eg as int;
        let ghost f = |i: int| pawn_recs(color, sign as int, i, own, enemy);
        let mut k: usize = 0;
        while k < sqs.len()
            invariant
                params.ok(),
                ci < 2,
                sign == 1 || sign == -1,
                color == Color::White <==> sign == 1,
                k <= sqs@.len() <= 64,
                forall|j: int| 0 <= j < sqs@.len() ==> 1 <= #[trigger] rank_of(sqs@[j]@) <= 6,
                room(*old(mg) as int, *old(eg) as int, 512),
                traced(params@, old(t).log(), l1, *old(mg) as int, mg1, *old(eg) as int, eg1, 256 * ci),
                traced(params@, l1, t.log(), mg1, *mg as int, eg1, *eg as int, 4 * k),
                f == (|i: int| pawn_recs(color, sign as int, i, own, enemy)),
                t.log() == l1 + over(sqs@.take(k as int), f),
            decreases sqs@.len() - k,
        {
            pawn_records(params, color, sign, sqs[k], own, enemy, t, mg, eg);
            proof {
                assert(sqs@.take(k + 1).drop_last() =~= sqs@.take(k as int));
                assert(t.log() =~= l1 + over(sqs@.take(k + 1), f));
            }
            k += 1;
        }
        proof {
            assert(sqs@.take(sqs@.len() as int) =~= sqs@);
            let p = |i: int| bit(own, i);
            assert forall|j: int| 0 <= j < sqs@.len() implies 0 <= #[trigger] sqs@[j]@ < 64 && p(sqs@[j]@) by {
                assert(holds(pos.state().board, sqs@[j]@, piece_index(color, PieceType::Pawn)));
            }
            assert forall|i: int| 0 <= i < 64 && #[trigger] p(i) implies exists|j: int|
                0 <= j < sqs@.len() && #[trigger] sqs@[j]@ == i by {
                assert(holds(pos.state().board, i, piece_index(color, PieceType::Pawn)));
            }
            lemma_over_scan(sqs@, p, f, 64);
            assert(sign as int == color_sign(color));
            assert(t.log() =~= l1 + pawn_log(*pos, color));
        }
        ci += 1;
    }
}

/// A pawn of `color` on board `b` attacks square `i`.
pub open spec fn pawn_hit(b: Seq<Option<Piece>>, color: Color, i: int) -> bool {
    let pawn = piece_index(color, PieceType::Pawn);
    match color {
        Color::White => (9 <= i && file_of(i) != 0 && holds(b, i - 9, pawn)) || (7 <= i && file_of(i) != 7
            && holds(b, i - 7, pawn)),
        Color::Black => (i < 55 && file_of(i) != 7 && holds(b, i + 9, pawn)) || (i < 57 && file_of(i) != 0
            && holds(b, i + 7, pawn)),
    }
}

/// All squares attacked by `color`'s pawns.
fn pawn_attack_set(pos: &Position, color: Color) -> (r: u64)
    requires
        pos.wf(),
    ensures
        mask_of(r, |i: int| pawn_hit(pos.state().board, color, i)),
{
    let p = Bitboard(pieces(pos, color, PieceType::Pawn));
    match color {
        Color::White => {
            let a = p.north_east();
            let c = p.north_west();
            proof {
                lemma_bit_or(a.0, c.0);
                assert forall|i: int| 0 <= i < 64 implies (#[trigger] bit(a.0 | c.0, i) <==> pawn_hit(
                    pos.state().board,
                    color,
                    i,
                )) by {
                    assert(a.has(i) == bit(a.0, i));
                    assert(c.has(i) == bit(c.0, i));
                    if i >= 9 {
                        assert(p.has(i - 9) == bit(p.0, i - 9));
                    }
                    if i >= 7 {
                        assert(p.has(i - 7) == bit(p.0, i - 7));
                    }
                }
            }
            a.0 | c.0
        },
        Color::Black => {
            let a = p.south_east();
            let c = p.south_west();
            proof {
                lemma_bit_or(a.0, c.0);
                assert forall|i: int| 0 <= i < 64 implies (#[trigger] bit(a.0 | c.0, i) <==> pawn_hit(
                    pos.state().board,
                    color,
                    i,
                )) by {
                    assert(a.has(i) == bit(a.0, i));
                    assert(c.has(i) == bit(c.0, i));
                    if i < 57 {
                        assert(p.has(i + 7) == bit(p.0, i + 7));
                    }
                    if i < 55 {
                        assert(p.has(i + 9) == bit(p.0, i + 9));
                    }
                }
            }
            a.0 | c.0
        },
    }
}

/// Per-color attack unions built by the mobility pass, indexed by color:
/// pawn attacks, knight+bishop attacks, and every attack (pawns, pieces and
/// king).
struct AttackMaps {
    pawn: [u64; 2],
    minor: [u64; 2],
    all: [u64; 2],
}

/// Safe-mobility index of a piece: `base` plus its safe squares, capped at
/// the largest count the piece can reach (`max`).
fn mob_index(base: usize, att: u64, safe: u64, max: u32) -> (r: usize)
    requires
        base + max < TOTAL_PAIRS,
    ensures
        base <= r <= base + max,
        r == base + if popcount(att & safe) > max {
            max as int
        } else {
            popcount(att & safe) as int
        },
{
    let n = Bitboard(att & safe).count();
    if n > max {
        base + max as usize
    } else {
        base + n as usize
    }
}

/// The bits of the squares satisfying `z` (the one `u64` whose mask that
/// is).
pub open spec fn bits_of(z: spec_fn(int) -> bool) -> u64 {
    choose|x: u64| mask_of(x, z)
}

/// A mask of `z` is `bits_of(z)`.
pub proof fn lemma_bits_of(x: u64, z: spec_fn(int) -> bool)
    requires
        mask_of(x, z),
    ensures
        x == bits_of(z),
{
    let y = bits_of(z);
    assert(mask_of(y, z));
    assert forall|i: int| 0 <= i < 64 implies #[trigger] bit(x, i) == bit(y, i) by {}
    lemma_bits_ext(x, y);
}

/// The squares attacked by a knight (`k` 0), bishop (1), rook (2) or
/// queen (3) on `sq` under occupancy `occ`.
pub open spec fn piece_zone(k: int, sq: int, occ: u64) -> spec_fn(int) -> bool {
    |t: int|
        if k == 0 {
            knight_step(sq, t)
        } else if k == 1 {
            bishop_hit(sq, t, occ)
        } else if k == 2 {
            rook_hit(sq, t, occ)
        } else {
            rook_hit(sq, t, occ) || bishop_hit(sq, t, occ)
        }
}

/// The occupied squares.
pub open spec fn occ_bits(pos: Position) -> u64 {
    bits_of(
        |i: int| holds_color(pos.state().board, i, Color::White) || holds_color(pos.state().board, i, Color::Black),
    )
}

/// The attack set of a piece of kind `k` on `sq`.
pub open spec fn att_of(pos: Position, k: int, sq: int) -> u64 {
    bits_of(piece_zone(k, sq, occ_bits(pos)))
}

/// The squares safe for `color`'s pieces: not own-occupied and not
/// attacked by an enemy pawn.
pub open spec fn safe_zone(pos: Position, color: Color) -> spec_fn(int) -> bool {
    |i: int| !holds_color(pos.state().board, i, color) && !pawn_hit(pos.state().board, opposite(color), i)
}

/// The zone of `color`'s king: its square and the squares around it.
pub open spec fn king_zone(pos: Position, color: Color) -> spec_fn(int) -> bool {
    |i: int|
        king_step(king_square(pos.state().board, color), i) || i == king_square(pos.state().board, color)
}

/// Mobility record base and cap of piece kind `k`.
pub open spec fn mob_base(k: int) -> int {
    if k == 0 {
        MOB_KNIGHT as int
    } else if k == 1 {
        MOB_BISHOP as int
    } else if k == 2 {
        MOB_ROOK as int
    } else {
        MOB_QUEEN as int
    }
}

pub open spec fn mob_max(k: int) -> int {
    if k == 0 {
        8
    } else if k == 1 {
        13
    } else if k == 2 {
        14
    } else {
        27
    }
}

/// The records of a piece of kind `k` and `color` on `sq`: its safe
/// mobility (capped), and a king-zone attacker record, with the sign of
/// the defending king's owner, when it attacks the enemy king zone.
pub open spec fn mob_recs(pos: Position, color: Color, k: int, sq: int) -> Seq<(int, int)> {
    let n = popcount(att_of(pos, k, sq) & bits_of(safe_zone(pos, color))) as int;
    seq![
        (mob_base(k) + if n > mob_max(k) {
            mob_max(k)
        } else {
            n
        }, color_sign(color)),
    ] + if meets(bits_of(king_zone(pos, opposite(color))), piece_zone(k, sq, occ_bits(pos))) {
        seq![(KS_ATTACKER + k, -color_sign(color))]
    } else {
        Seq::empty()
    }
}

/// The squares of `color`'s pieces of kind `k` (knight .. queen).
pub open spec fn kind_squares(pos: Position, color: Color, k: int) -> spec_fn(int) -> bool {
    |i: int| bit(pos.piece_bits(color, type_of_index(k + 1)), i)
}

/// The mobility records of `color`'s pieces of the first `n` kinds, kinds
/// in order and each kind in square order.
pub open spec fn mob_upto(pos: Position, color: Color, n: int) -> Seq<(int, int)>
    decreases n,
{
    if n <= 0 {
        Seq::empty()
    } else {
        mob_upto(pos, color, n - 1) + scan(kind_squares(pos, color, n - 1), |i: int| mob_recs(pos, color, n - 1, i), 64)
    }
}

/// The mobility and king-attacker records of both sides, White's first.
pub open spec fn mobility_log(pos: Position) -> Seq<(int, int)> {
    mob_upto(pos, Color::White, 4) + mob_upto(pos, Color::Black, 4)
}

/// `acc` joined with `f(i)` for the squares `i < n` satisfying `p`.
pub open spec fn scan_or(acc: u64, p: spec_fn(int) -> bool, f: spec_fn(int) -> u64, n: int) -> u64
    decreases n,
{
    if n <= 0 {
        acc
    } else if p(n - 1) {
        scan_or(acc, p, f, n - 1) | f(n - 1)
    } else {
        scan_or(acc, p, f, n - 1)
    }
}

/// `acc` joined with `f(s)` for the squares of `v`, in order.
pub open spec fn over_or(acc: u64, v: Seq<Square>, f: spec_fn(int) -> u64) -> u64
    decreases v.len(),
{
    if v.len() == 0 {
        acc
    } else {
        over_or(acc, v.drop_last(), f) | f(v.last()@)
    }
}

proof fn lemma_over_scan_or(acc: u64, v: Seq<Square>, p: spec_fn(int) -> bool, f: spec_fn(int) -> u64, n: int)
    requires
        0 <= n,
        forall|k: int| 0 <= k < v.len() ==> 0 <= #[trigger] v[k]@ < n && p(v[k]@),
        forall|i: int| 0 <= i < n && #[trigger] p(i) ==> exists|k: int| 0 <= k < v.len() && #[trigger] v[k]@ == i,
        forall|a: int, b: int| 0 <= a < b < v.len() ==> v[a]@ < v[b]@,
    ensures
        over_or(acc, v, f) == scan_or(acc, p, f, n),
    decreases n,
{
    if n == 0 {
        if v.len() > 0 {
            let k: int = 0;
            assert(0 <= v[k]@ < n);
        }
    } else if p(n - 1) {
        let k0 = choose|k: int| 0 <= k < v.len() && #[trigger] v[k]@ == n - 1;
        let l = v.len() - 1;
        if k0 < l {
            assert(v[k0]@ < v[l]@);
            assert(v[l]@ < n);
        }
        assert(v[l]@ == n - 1);
        let w = v.drop_last();
        assert forall|k: int| 0 <= k < w.len() implies 0 <= #[trigger] w[k]@ < n - 1 && p(w[k]@) by {
            assert(w[k] == v[k]);
            assert(v[k]@ < v[l]@);
        }
        assert forall|i: int| 0 <= i < n - 1 && #[trigger] p(i) implies exists|k: int|
            0 <= k < w.len() && #[trigger] w[k]@ == i by {
            let k = choose|k: int| 0 <= k < v.len() && #[trigger] v[k]@ == i;
            assert(k != l);
            assert(w[k] == v[k]);
        }
        lemma_over_scan_or(acc, w, p, f, n - 1);
    } else {
        assert forall|k: int| 0 <= k < v.len() implies 0 <= #[trigger] v[k]@ < n - 1 && p(v[k]@) by {
            assert(v[k]@ != n - 1);
        }
        lemma_over_scan_or(acc, v, p, f, n - 1);
    }
}

/// The union of the attack sets of `color`'s pieces of the first `n`
/// kinds (knight .. queen).
pub open spec fn att_upto(pos: Position, color: Color, n: int) -> u64
    decreases n,
{
    if n <= 0 {
        0
    } else {
        scan_or(att_upto(pos, color, n - 1), kind_squares(pos, color, n - 1), |i: int| att_of(pos, n - 1, i), 64)
    }
}

/// The squares attacked by `color`'s pawns.
pub open spec fn pawn_bits(pos: Position, color: Color) -> u64 {
    bits_of(|i: int| pawn_hit(pos.state().board, color, i))
}

/// Every square `color` attacks: pieces, then king, then pawns.
pub open spec fn all_att(pos: Position, color: Color) -> u64 {
    (att_upto(pos, color, 4) | bits_of(|t: int| king_step(king_square(pos.state().board, color), t)))
        | pawn_bits(pos, color)
}

/// The color of side number `ci`.
pub open spec fn side_color(ci: int) -> Color {
    if ci == 0 {
        Color::White
    } else {
        Color::Black
    }
}

/// The records of one piece of kind `k`, returning its attack set.
#[verifier::spinoff_prover]
fn mob_piece<T: Tracer>(
    pos: &Position,
    params: &Params,
    k: usize,
    color: Color,
    sign: i32,
    sq: Square,
    occ: Bitboard,
    safe: u64,
    ezone: u64,
    t: &mut T,
    mg: &mut i32,
    eg: &mut i32,
) -> (att: u64)
    requires
        pos.wf(),
        params.ok(),
        k < 4,
        sign == color_sign(color),
        occ.0 == occ_bits(*pos),
        mask_of(safe, safe_zone(*pos, color)),
        mask_of(ezone, king_zone(*pos, opposite(color))),
        room(*old(mg) as int, *old(eg) as int, 2),
    ensures
        att == att_of(*pos, k as int, sq@),
        traced(params@, old(t).log(), final(t).log(), *old(mg) as int, *final(mg) as int, *old(eg) as int, *final(eg) as int, 2),
        final(t).log() == old(t).log() + mob_recs(*pos, color, k as int, sq@),
{
    let (base, max): (usize, u32) = if k == 0 {
        (MOB_KNIGHT, 8)
    } else if k == 1 {
        (MOB_BISHOP, 13)
    } else if k == 2 {
        (MOB_ROOK, 14)
    } else {
        (MOB_QUEEN, 27)
    };
    let b = if k == 0 {
        knight_attacks(sq)
    } else if k == 1 {
        bishop_attacks(sq, occ)
    } else if k == 2 {
        rook_attacks(sq, occ)
    } else {
        queen_attacks(sq, occ)
    };
    let att = b.0;
    let ghost z = piece_zone(k as int, sq@, occ.0);
    proof {
        assert forall|i: int| 0 <= i < 64 implies (#[trigger] bit(att, i) <==> z(i)) by {
            assert(b.has(i) == bit(att, i));
        }
        lemma_bits_of(att, z);
        lemma_bits_of(safe, safe_zone(*pos, color));
        lemma_bits_of(ezone, king_zone(*pos, opposite(color)));
        lemma_meets(att, ezone, z);
    }
    let ghost l0 = t.log();
    add_term(params, mob_index(base, att, safe, max), sign, t, mg, eg);
    if att & ezone != 0 {
        add_term(params, KS_ATTACKER + k, -sign, t, mg, eg);
    }
    proof {
        assert(t.log() =~= l0 + mob_recs(*pos, color, k as int, sq@));
    }
    att
}

/// Safe mobility and king-zone attackers in one pass: each piece's attack
/// set feeds its mobility record (`MOB_* + safe squares`, where safe means
/// neither own-occupied nor attacked by an enemy pawn), a `KS_ATTACKER`
/// record with the defending king owner's sign when it touches the enemy
/// king zone, and the per-color attack unions.
fn mobility_and_attackers<T: Tracer>(
    pos: &Position,
    params: &Params,
    t: &mut T,
    mg: &mut i32,
    eg: &mut i32,
) -> (maps: AttackMaps)
    requires
        pos.wf(),
        params.ok(),
        room(*old(mg) as int, *old(eg) as int, 1024),
    ensures
        traced(params@, old(t).log(), final(t).log(), *old(mg) as int, *final(mg) as int, *old(eg) as int, *final(eg) as int, 1024),
        final(t).log() == old(t).log() + mobility_log(*pos),
        forall|ci: int|
            0 <= ci < 2 ==> {
                &&& #[trigger] maps.pawn[ci] == pawn_bits(*pos, side_color(ci))
                &&& maps.minor[ci] == att_upto(*pos, side_color(ci), 2)
                &&& maps.all[ci] == all_att(*pos, side_color(ci))
            },
{
    let ow = occupied_by(pos, Color::White);
    let ob = occupied_by(pos, Color::Black);
    let occ = Bitboard(ow | ob);
    let pw = pawn_attack_set(pos, Color::White);
    let pb = pawn_attack_set(pos, Color::Black);
    let pawn = [pw, pb];
    // king zones, indexed by the defending king's color
    let wk = king_of(pos, Color::White);
    let bk = king_of(pos, Color::Black);
    let wka = king_attacks(wk);
    let bka = king_attacks(bk);
    let wkb = wk.bb();
    let bkb = bk.bb();
    let zone = [wka.0 | wkb.0, bka.0 | bkb.0];
    proof {
        lemma_bit_or(ow, ob);
        assert forall|i: int| 0 <= i < 64 implies (#[trigger] bit(ow | ob, i) <==> (holds_color(
            pos.state().board,
            i,
            Color::White,
        ) || holds_color(pos.state().board, i, Color::Black))) by {}
        lemma_bits_of(
            ow | ob,
            |i: int| holds_color(pos.state().board, i, Color::White) || holds_color(pos.state().board, i, Color::Black),
        );
        lemma_bits_of(pw, |i: int| pawn_hit(pos.state().board, Color::White, i));
        lemma_bits_of(pb, |i: int| pawn_hit(pos.state().board, Color::Black, i));
        lemma_bit_or(wka.0, wkb.0);
        lemma_bit_or(bka.0, bkb.0);
        assert forall|i: int| 0 <= i < 64 implies (#[trigger] bit(wka.0 | wkb.0, i) <==> king_zone(*pos, Color::White)(i)) by {
            assert(wka.has(i) == bit(wka.0, i));
            assert(wkb.has(i) == bit(wkb.0, i));
        }
        assert forall|i: int| 0 <= i < 64 implies (#[trigger] bit(bka.0 | bkb.0, i) <==> king_zone(*pos, Color::Black)(i)) by {
            assert(bka.has(i) == bit(bka.0, i));
            assert(bkb.has(i) == bit(bkb.0, i));
        }
    }
    let mut minor: [u64; 2] = [0, 0];
    let mut all: [u64; 2] = [0, 0];
    let mut ci: usize = 0;
    while ci < 2
        invariant
            pos.wf(),
            params.ok(),
            ci <= 2,
            room(*old(mg) as int, *old(eg) as int, 1024),
            traced(params@, old(t).log(), t.log(), *old(mg) as int, *mg as int, *old(eg) as int, *eg as int, 512 * ci),
            occ.0 == occ_bits(*pos),
            pawn[0] == pw,
            pawn[1] == pb,
            mask_of(pw, |i: int| pawn_hit(pos.state().board, Color::White, i)),
            mask_of(pb, |i: int| pawn_hit(pos.state().board, Color::Black, i)),
            pw == pawn_bits(*pos, Color::White),
            pb == pawn_bits(*pos, Color::Black),
            mask_of(zone[0], king_zone(*pos, Color::White)),
            mask_of(zone[1], king_zone(*pos, Color::Black)),
            forall|c: int| 0 <= c < ci ==> #[trigger] minor[c] == att_upto(*pos, side_color(c), 2),
            forall|c: int| 0 <= c < ci ==> #[trigger] all[c] == all_att(*pos, side_color(c)),
            t.log() == old(t).log() + if ci == 0 {
                Seq::empty()
            } else if ci == 1 {
                mob_upto(*pos, Color::White, 4)
            } else {
                mobility_log(*pos)
            },
        decreases 2 - ci,
    {
        let (color, sign) = side(ci);
        let ei: usize = 1 - ci;
        let oc = occupied_by(pos, color);
        let safe = !oc & !pawn[ei];
        let ezone = zone[ei];
        proof {
            lemma_bit_not(oc);
            lemma_bit_not(pawn[ei as int]);
            lemma_bit_and(!oc, !pawn[ei as int]);
            assert forall|i: int| 0 <= i < 64 implies (#[trigger] bit(safe, i) <==> safe_zone(*pos, color)(i)) by {
                assert(bit(oc, i) == holds_color(pos.state().board, i, color));
                if ci == 0 {
                    assert(bit(pb, i) == pawn_hit(pos.state().board, Color::Black, i));
                } else {
                    assert(bit(pw, i) == pawn_hit(pos.state().board, Color::White, i));
                }
            }
            assert(sign == color_sign(color));
            assert(color == side_color(ci as int));
        }
        let ghost l1 = t.log();
        let ghost mg1 = *mg as int;
        let ghost eg1 = *eg as int;
        let mut acc: u64 = 0;
        let mut macc: u64 = 0;
        let ghost minor_in = minor;
        let ghost all_in = all;
        let mut pt_i: usize = 0;
        while pt_i < 4
            invariant
                pos.wf(),
                params.ok(),
                ci < 2,
                ei == 1 - ci,
                sign == 1 || sign == -1,
                sign == color_sign(color),
                color == side_color(ci as int),
                pt_i <= 4,
                room(*old(mg) as int, *old(eg) as int, 1024),
                traced(params@, old(t).log(), l1, *old(mg) as int, mg1, *old(eg) as int, eg1, 512 * ci),
                traced(params@, l1, t.log(), mg1, *mg as int, eg1, *eg as int, 128 * pt_i),
                occ.0 == occ_bits(*pos),
                mask_of(safe, safe_zone(*pos, color)),
                mask_of(ezone, king_zone(*pos, opposite(color))),
                acc == att_upto(*pos, color, pt_i as int),
                macc == att_upto(*pos, color, if pt_i < 2 { pt_i as int } else { 2 }),
                t.log() == l1 + mob_upto(*pos, color, pt_i as int),
                minor == minor_in,
                all == all_in,
            decreases 4 - pt_i,
        {
            let pt = if pt_i == 0 {
                PieceType::Knight
            } else if pt_i == 1 {
                PieceType::Bishop
            } else if pt_i == 2 {
                PieceType::Rook
            } else {
                PieceType::Queen
            };
            let bits = pieces(pos, color, pt);
            let sqs = squares_of(bits);
            let ghost l2 = t.log();
            let ghost mg2 = *mg as int;
            let ghost eg2 = *eg as int;
            let ghost acc0 = acc;
            let ghost macc0 = macc;
            let ghost f = |i: int| mob_recs(*pos, color, pt_i as int, i);
            let ghost fa = |i: int| att_of(*pos, pt_i as int, i);
            proof {
                assert(pt == type_of_index(pt_i + 1));
            }
            let mut k: usize = 0;
            while k < sqs.len()
                invariant
                    pos.wf(),
                    params.ok(),
                    ci < 2,
                    sign == color_sign(color),
                    pt_i < 4,
                    k <= sqs@.len() <= 64,
                    room(*old(mg) as int, *old(eg) as int, 1024),
                    traced(params@, old(t).log(), l1, *old(mg) as int, mg1, *old(eg) as int, eg1, 512 * ci),
                    traced(params@, l1, l2, mg1, mg2, eg1, eg2, 128 * pt_i),
                    traced(params@, l2, t.log(), mg2, *mg as int, eg2, *eg as int, 2 * k),
                    occ.0 == occ_bits(*pos),
                    mask_of(safe, safe_zone(*pos, color)),
                    mask_of(ezone, king_zone(*pos, opposite(color))),
                    f == (|i: int| mob_recs(*pos, color, pt_i as int, i)),
                    fa == (|i: int| att_of(*pos, pt_i as int, i)),
                    t.log() == l2 + over(sqs@.take(k as int), f),
                    acc == over_or(acc0, sqs@.take(k as int), fa),
                    pt_i < 2 ==> macc == acc,
                    pt_i >= 2 ==> macc == macc0,
                    pt_i < 2 ==> macc0 == acc0,
                    minor == minor_in,
                    all == all_in,
                decreases sqs@.len() - k,
            {
                let att = mob_piece(pos, params, pt_i, color, sign, sqs[k], occ, safe, ezone, t, mg, eg);
                acc = acc | att;
                if pt_i < 2 {
                    macc = macc | att;
                }
                proof {
                    assert(sqs@.take(k + 1).drop_last() =~= sqs@.take(k as int));
                    assert(t.log() =~= l2 + over(sqs@.take(k + 1), f));
                }
                k += 1;
            }
            proof {
                assert(sqs@.take(sqs@.len() as int) =~= sqs@);
                let p = kind_squares(*pos, color, pt_i as int);
                assert forall|j: int| 0 <= j < sqs@.len() implies 0 <= #[trigger] sqs@[j]@ < 64 && p(sqs@[j]@) by {
                    assert(bit(bits, sqs@[j]@));
                }
                assert forall|i: int| 0 <= i < 64 && #[trigger] p(i) implies exists|j: int|
                    0 <= j < sqs@.len() && #[trigger] sqs@[j]@ == i by {
                    assert(bit(bits, i));
                }
                lemma_over_scan(sqs@, p, f, 64);
                lemma_over_scan_or(acc0, sqs@, p, fa, 64);
                assert(acc == att_upto(*pos, color, pt_i + 1));
                if pt_i < 2 {
                    assert(macc == att_upto(*pos, color, pt_i + 1));
                }
                assert(t.log() =~= l1 + mob_upto(*pos, color, pt_i + 1));
            }
            pt_i += 1;
        }
        // the king's attacks and the pawn attacks join `all`
        let own_king = king_of(pos, color);
        let ka = king_attacks(own_king);
        proof {
            assert forall|i: int| 0 <= i < 64 implies (#[trigger] bit(ka.0, i) <==> king_step(
                king_square(pos.state().board, color),
                i,
            )) by {
                assert(ka.has(i) == bit(ka.0, i));
            }
            lemma_bits_of(ka.0, |t: int| king_step(king_square(pos.state().board, color), t));
        }
        let ghost minor0 = minor;
        let ghost all0 = all;
        minor.set(ci, macc);
        all.set(ci, acc | ka.0 | pawn[ci]);
        proof {
            if ci == 0 {
                assert(pawn[ci as int] == pawn_bits(*pos, color));
            } else {
                assert(pawn[ci as int] == pawn_bits(*pos, color));
            }
            assert(minor[ci as int] == att_upto(*pos, side_color(ci as int), 2));
            assert(all[ci as int] == all_att(*pos, side_color(ci as int)));
            assert forall|c: int| 0 <= c < ci + 1 implies #[trigger] minor[c] == att_upto(*pos, side_color(c), 2) by {
                if c < ci {
                    assert(minor[c] == minor0[c]);
                }
            }
            assert forall|c: int| 0 <= c < ci + 1 implies #[trigger] all[c] == all_att(*pos, side_color(c)) by {
                if c < ci {
                    assert(all[c] == all0[c]);
                }
            }
            assert(t.log() =~= old(t).log() + if ci == 0 {
                mob_upto(*pos, Color::White, 4)
            } else {
                mobility_log(*pos)
            });
        }
        ci += 1;
    }
    proof {
        assert(pawn[0] == pawn_bits(*pos, side_color(0)));
        assert(pawn[1] == pawn_bits(*pos, side_color(1)));
        assert(minor[0] == att_upto(*pos, side_color(0), 2) && all[0] == all_att(*pos, side_color(0)));
        assert(minor[1] == att_upto(*pos, side_color(1), 2) && all[1] == all_att(*pos, side_color(1)));
    }
    AttackMaps { pawn, minor, all }
}

/// The king-safety records of file `f` for the king of `color` on `ksq`,
/// given the own pawns and all pawns: the shield state (pawn one rank
/// ahead, two ranks ahead, or none), then an open or a semi-open file.
pub open spec fn shield_recs(color: Color, ksq: int, f: int, own: u64, all: u64) -> Seq<(int, int)> {
    let s = color_sign(color);
    let state = if meets(own, file_rank_zone(f, rank_of(ksq) + s)) {
        0int
    } else if meets(own, file_rank_zone(f, rank_of(ksq) + 2 * s)) {
        1int
    } else {
        2int
    };
    seq![(KS_SHIELD + state, s)] + if !meets(all, file_zone(f)) {
        seq![(KS_OPEN_FILE as int, s)]
    } else if !meets(own, file_zone(f)) {
        seq![(KS_SEMI_FILE as int, s)]
    } else {
        Seq::empty()
    }
}

/// The records of files `lo..f`.
pub open spec fn shield_files(color: Color, ksq: int, own: u64, all: u64, lo: int, f: int) -> Seq<(int, int)>
    decreases f - lo,
{
    if f <= lo {
        Seq::empty()
    } else {
        shield_files(color, ksq, own, all, lo, f - 1) + shield_recs(color, ksq, f - 1, own, all)
    }
}

/// The king-safety records of `color`'s king: its file and the files
/// beside it, in file order.
pub open spec fn shield_log(pos: Position, color: Color) -> Seq<(int, int)> {
    let ksq = king_square(pos.state().board, color);
    let kf = file_of(ksq);
    let own = pos.piece_bits(color, PieceType::Pawn);
    let all = own | pos.piece_bits(opposite(color), PieceType::Pawn);
    shield_files(
        color,
        ksq,
        own,
        all,
        if kf > 0 {
            kf - 1
        } else {
            0
        },
        if kf < 7 {
            kf + 2
        } else {
            8
        },
    )
}

/// The king-safety records of both kings, White's first.
pub open spec fn king_shield_log(pos: Position) -> Seq<(int, int)> {
    shield_log(pos, Color::White) + shield_log(pos, Color::Black)
}

/// The king-safety records of one file near the king of `color`.
#[verifier::spinoff_prover]
fn shield_file<T: Tracer>(
    params: &Params,
    color: Color,
    sign: i32,
    ksq: Square,
    f: u8,
    own_pawns: u64,
    all_pawns: u64,
    r1: u64,
    r2: u64,
    t: &mut T,
    mg: &mut i32,
    eg: &mut i32,
)
    requires
        params.ok(),
        f < 8,
        sign == color_sign(color),
        mask_of(r1, rank_zone(rank_of(ksq@) + sign)),
        mask_of(r2, rank_zone(rank_of(ksq@) + sign * 2)),
        room(*old(mg) as int, *old(eg) as int, 2),
    ensures
        traced(params@, old(t).log(), final(t).log(), *old(mg) as int, *final(mg) as int, *old(eg) as int, *final(eg) as int, 2),
        final(t).log() == old(t).log() + shield_recs(color, ksq@, f as int, own_pawns, all_pawns),
{
    let file_bb = file_mask(f);
    let z1 = file_bb & r1;
    let z2 = file_bb & r2;
    let ghost l2 = t.log();
    proof {
        lemma_bit_and(file_bb, r1);
        lemma_bit_and(file_bb, r2);
        assert forall|i: int| 0 <= i < 64 implies (#[trigger] bit(z1, i) <==> file_rank_zone(
            f as int,
            rank_of(ksq@) + sign,
        )(i)) by {
            assert(bit(file_bb, i) == file_zone(f as int)(i));
            assert(bit(r1, i) == rank_zone(rank_of(ksq@) + sign)(i));
        }
        assert forall|i: int| 0 <= i < 64 implies (#[trigger] bit(z2, i) <==> file_rank_zone(
            f as int,
            rank_of(ksq@) + 2 * sign,
        )(i)) by {
            assert(bit(file_bb, i) == file_zone(f as int)(i));
            assert(bit(r2, i) == rank_zone(rank_of(ksq@) + sign * 2)(i));
        }
        lemma_meets(z1, own_pawns, file_rank_zone(f as int, rank_of(ksq@) + sign));
        lemma_meets(z2, own_pawns, file_rank_zone(f as int, rank_of(ksq@) + 2 * sign));
        lemma_meets(file_bb, all_pawns, file_zone(f as int));
        lemma_meets(file_bb, own_pawns, file_zone(f as int));
    }
    // shield state, nearest rank first
    if z1 & own_pawns != 0 {
        add_term(params, KS_SHIELD, sign, t, mg, eg);
    } else if z2 & own_pawns != 0 {
        add_term(params, KS_SHIELD + 1, sign, t, mg, eg);
    } else {
        add_term(params, KS_SHIELD + 2, sign, t, mg, eg);
    }
    // open or semi-open file near the king
    if file_bb & all_pawns == 0 {
        add_term(params, KS_OPEN_FILE, sign, t, mg, eg);
    } else if file_bb & own_pawns == 0 {
        add_term(params, KS_SEMI_FILE, sign, t, mg, eg);
    }
    proof {
        assert(t.log() =~= l2 + shield_recs(color, ksq@, f as int, own_pawns, all_pawns));
    }
}

/// King safety around each king: pawn shield on the king's file and its
/// neighbours (one rank ahead, two ranks ahead, or missing), and open or
/// semi-open files there. Records carry the king owner's sign.
fn king_shield_terms<T: Tracer>(pos: &Position, params: &Params, t: &mut T, mg: &mut i32, eg: &mut i32)
    requires
        pos.wf(),
        params.ok(),
        room(*old(mg) as int, *old(eg) as int, 12),
    ensures
        traced(params@, old(t).log(), final(t).log(), *old(mg) as int, *final(mg) as int, *old(eg) as int, *final(eg) as int, 12),
        final(t).log() == old(t).log() + king_shield_log(*pos),
{
    let mut ci: usize = 0;
    while ci < 2
        invariant
            pos.wf(),
            params.ok(),
            ci <= 2,
            room(*old(mg) as int, *old(eg) as int, 12),
            traced(params@, old(t).log(), t.log(), *old(mg) as int, *mg as int, *old(eg) as int, *eg as int, 6 * ci),
            t.log() == old(t).log() + if ci == 0 {
                Seq::empty()
            } else if ci == 1 {
                shield_log(*pos, Color::White)
            } else {
                king_shield_log(*pos)
            },
        decreases 2 - ci,
    {
        let (color, sign) = side(ci);
        let ksq = king_of(pos, color);
        let own_pawns = pieces(pos, color, PieceType::Pawn);
        let all_pawns = own_pawns | pieces(pos, color.flip(), PieceType::Pawn);
        proof {
            assert(sign == color_sign(color));
        }
        let kfile = ksq.file();
        let r1 = shield_rank(color, ksq, 1);
        let r2 = shield_rank(color, ksq, 2);
        let lo: u8 = if kfile > 0 {
            kfile - 1
        } else {
            0
        };
        let hi: u8 = if kfile < 7 {
            kfile + 1
        } else {
            7
        };
        let ghost l1 = t.log();
        let ghost mg1 = *mg as int;
        let ghost eg1 = *eg as int;
        let mut f: u8 = lo;
        while f <= hi
            invariant
                params.ok(),
                ci < 2,
                sign == 1 || sign == -1,
                lo <= f <= hi + 1,
                hi <= 7,
                hi - lo <= 2,
                room(*old(mg) as int, *old(eg) as int, 12),
                traced(params@, old(t).log(), l1, *old(mg) as int, mg1, *old(eg) as int, eg1, 6 * ci),
                traced(params@, l1, t.log(), mg1, *mg as int, eg1, *eg as int, 2 * (f - lo)),
                sign == color_sign(color),
                mask_of(r1, rank_zone(rank_of(ksq@) + sign)),
                mask_of(r2, rank_zone(rank_of(ksq@) + sign * 2)),
                t.log() == l1 + shield_files(color, ksq@, own_pawns, all_pawns, lo as int, f as int),
            decreases hi + 1 - f,
        {
            shield_file(params, color, sign, ksq, f, own_pawns, all_pawns, r1, r2, t, mg, eg);
            f += 1;
        }
        proof {
            assert(t.log() =~= l1 + shield_log(*pos, color));
        }
        ci += 1;
    }
}

/// Adds `count` records of `(idx, sign)`, one per square of `set`.
fn add_per_square<T: Tracer>(
    params: &Params,
    set: u64,
    idx: usize,
    sign: i32,
    t: &mut T,
    mg: &mut i32,
    eg: &mut i32,
)
    requires
        params.ok(),
        idx < TOTAL_PAIRS,
        sign == 1 || sign == -1,
        room(*old(mg) as int, *old(eg) as int, 64),
    ensures
        traced(params@, old(t).log(), final(t).log(), *old(mg) as int, *final(mg) as int, *old(eg) as int, *final(eg) as int, 64),
        final(t).log() == old(t).log() + Seq::new(popcount(set), |_k: int| (idx as int, sign as int)),
{
    let sqs = squares_of(set);
    let mut k: usize = 0;
    while k < sqs.len()
        invariant
            params.ok(),
            idx < TOTAL_PAIRS,
            sign == 1 || sign == -1,
            k <= sqs@.len() <= 64,
            room(*old(mg) as int, *old(eg) as int, 64),
            traced(params@, old(t).log(), t.log(), *old(mg) as int, *mg as int, *old(eg) as int, *eg as int, k as int),
            t.log() == old(t).log() + Seq::new(k as nat, |_k: int| (idx as int, sign as int)),
            sqs@.len() == popcount(set),
        decreases sqs@.len() - k,
    {
        add_term(params, idx, sign, t, mg, eg);
        k += 1;
        proof {
            assert(t.log() =~= old(t).log() + Seq::new(k as nat, |_k: int| (idx as int, sign as int)));
        }
    }
}

/// `n` records of `(idx, s)`.
pub open spec fn copies(n: int, idx: int, s: int) -> Seq<(int, int)> {
    Seq::new(n as nat, |_k: int| (idx, s))
}

/// The threat records of one victim kind (knight .. queen by `slot`):
/// one per victim attacked by a pawn, then one per victim attacked by a
/// minor piece.
pub open spec fn victim_recs(pos: Position, color: Color, slot: int, pawn_att: u64, minor_att: u64) -> Seq<(int, int)> {
    let victims = pos.piece_bits(opposite(color), type_of_index(slot + 1));
    copies(popcount(pawn_att & victims) as int, THREAT_BY_PAWN + slot, color_sign(color)) + copies(
        popcount(minor_att & victims) as int,
        THREAT_BY_MINOR + slot,
        color_sign(color),
    )
}

/// The victim records of the first `n` victim kinds.
pub open spec fn victims_upto(pos: Position, color: Color, n: int, pawn_att: u64, minor_att: u64) -> Seq<(int, int)>
    decreases n,
{
    if n <= 0 {
        Seq::empty()
    } else {
        victims_upto(pos, color, n - 1, pawn_att, minor_att) + victim_recs(pos, color, n - 1, pawn_att, minor_att)
    }
}

/// The rook record of a rook of `color` on `sq`: open file, semi-open
/// file, or none.
pub open spec fn rook_recs(pos: Position, color: Color, sq: int) -> Seq<(int, int)> {
    let own = pos.piece_bits(color, PieceType::Pawn);
    let all = own | pos.piece_bits(opposite(color), PieceType::Pawn);
    if !meets(all, file_zone(file_of(sq))) {
        seq![(ROOK_OPEN as int, color_sign(color))]
    } else if !meets(own, file_zone(file_of(sq))) {
        seq![(ROOK_SEMI as int, color_sign(color))]
    } else {
        Seq::empty()
    }
}

/// The threat and coordination records of `color`, given its pawn and
/// minor attack sets and both sides' full attack sets: victims by kind,
/// hanging enemy pieces (not the king), the bishop pair, and the rooks in
/// square order.
pub open spec fn threat_side(
    pos: Position,
    color: Color,
    pawn_att: u64,
    minor_att: u64,
    our_att: u64,
    their_att: u64,
) -> Seq<(int, int)> {
    let e = opposite(color);
    let s = color_sign(color);
    let their = bits_of(|i: int| holds_color(pos.state().board, i, e)) & !pos.piece_bits(e, PieceType::King);
    victims_upto(pos, color, 4, pawn_att, minor_att) + copies(
        popcount((their & our_att) & !their_att) as int,
        HANGING as int,
        s,
    ) + (if popcount(pos.piece_bits(color, PieceType::Bishop)) >= 2 {
        seq![(BISHOP_PAIR as int, s)]
    } else {
        Seq::empty()
    }) + scan(|i: int| bit(pos.piece_bits(color, PieceType::Rook), i), |i: int| rook_recs(pos, color, i), 64)
}

/// The records of one side's threats and coordination.
#[verifier::spinoff_prover]
#[verifier::rlimit(40)]
fn threat_side_terms<T: Tracer>(
    pos: &Position,
    params: &Params,
    color: Color,
    sign: i32,
    our_pawn_att: u64,
    our_minor_att: u64,
    our_att: u64,
    their_att: u64,
    t: &mut T,
    mg: &mut i32,
    eg: &mut i32,
)
    requires
        pos.wf(),
        params.ok(),
        sign == color_sign(color),
        room(*old(mg) as int, *old(eg) as int, 641),
    ensures
        traced(params@, old(t).log(), final(t).log(), *old(mg) as int, *final(mg) as int, *old(eg) as int, *final(eg) as int, 641),
        final(t).log() == old(t).log() + threat_side(*pos, color, our_pawn_att, our_minor_att, our_att, their_att),
{
    let enemy = color.flip();
    let mut slot: usize = 0;
    while slot < 4
        invariant
            pos.wf(),
            params.ok(),
            sign == color_sign(color),
            enemy == opposite(color),
            slot <= 4,
            room(*old(mg) as int, *old(eg) as int, 641),
            traced(params@, old(t).log(), t.log(), *old(mg) as int, *mg as int, *old(eg) as int, *eg as int, 128 * slot),
            t.log() == old(t).log() + victims_upto(*pos, color, slot as int, our_pawn_att, our_minor_att),
        decreases 4 - slot,
    {
        let pt = if slot == 0 {
            PieceType::Knight
        } else if slot == 1 {
            PieceType::Bishop
        } else if slot == 2 {
            PieceType::Rook
        } else {
            PieceType::Queen
        };
        let victims = pieces(pos, enemy, pt);
        let ghost l0 = t.log();
        add_per_square(params, our_pawn_att & victims, THREAT_BY_PAWN + slot, sign, t, mg, eg);
        add_per_square(params, our_minor_att & victims, THREAT_BY_MINOR + slot, sign, t, mg, eg);
        proof {
            assert(pt == type_of_index(slot + 1));
            assert(t.log() =~= old(t).log() + victims_upto(*pos, color, slot + 1, our_pawn_att, our_minor_att));
        }
        slot += 1;
    }
    // their hanging pieces: attacked by us, defended by nothing (kings
    // excluded)
    let oe = occupied_by(pos, enemy);
    proof {
        lemma_bits_of(oe, |i: int| holds_color(pos.state().board, i, enemy));
    }
    let their_pieces = oe & !pieces(pos, enemy, PieceType::King);
    let ghost l1 = t.log();
    let ghost their_spec = bits_of(|i: int| holds_color(pos.state().board, i, opposite(color))) & !pos.piece_bits(
        opposite(color),
        PieceType::King,
    );
    proof {
        assert(their_pieces == their_spec);
    }
    add_per_square(params, their_pieces & our_att & !their_att, HANGING, sign, t, mg, eg);
    // bishop pair
    let ghost l2 = t.log();
    proof {
        assert(l2 =~= l1 + copies(popcount((their_spec & our_att) & !their_att) as int, HANGING as int, sign as int));
    }
    if Bitboard(pieces(pos, color, PieceType::Bishop)).count() >= 2 {
        add_term(params, BISHOP_PAIR, sign, t, mg, eg);
    }
    let ghost l3 = t.log();
    proof {
        assert(l3 =~= l2 + (if popcount(pos.piece_bits(color, PieceType::Bishop)) >= 2 {
            seq![(BISHOP_PAIR as int, sign as int)]
        } else {
            Seq::empty()
        }));
    }
    // rooks on open and semi-open files
    rook_terms(pos, params, color, sign, t, mg, eg);
    proof {
        let v = victims_upto(*pos, color, 4, our_pawn_att, our_minor_att);
        let h = copies(popcount((their_spec & our_att) & !their_att) as int, HANGING as int, sign as int);
        let bp = if popcount(pos.piece_bits(color, PieceType::Bishop)) >= 2 {
            seq![(BISHOP_PAIR as int, sign as int)]
        } else {
            Seq::empty()
        };
        let r = scan(|i: int| bit(pos.piece_bits(color, PieceType::Rook), i), |i: int| rook_recs(*pos, color, i), 64);
        assert(l1 == old(t).log() + v);
        assert(t.log() =~= old(t).log() + (v + h + bp + r));
        assert(threat_side(*pos, color, our_pawn_att, our_minor_att, our_att, their_att) == v + h + bp + r);
    }
}

/// The rook records of `color`, in square order.
#[verifier::spinoff_prover]
fn rook_terms<T: Tracer>(pos: &Position, params: &Params, color: Color, sign: i32, t: &mut T, mg: &mut i32, eg: &mut i32)
    requires
        pos.wf(),
        params.ok(),
        sign == color_sign(color),
        room(*old(mg) as int, *old(eg) as int, 64),
    ensures
        traced(params@, old(t).log(), final(t).log(), *old(mg) as int, *final(mg) as int, *old(eg) as int, *final(eg) as int, 64),
        final(t).log() == old(t).log() + scan(
            |i: int| bit(pos.piece_bits(color, PieceType::Rook), i),
            |i: int| rook_recs(*pos, color, i),
            64,
        ),
{
    let enemy = color.flip();
    let ghost l3 = t.log();
    let own_pawns = pieces(pos, color, PieceType::Pawn);
    let all_pawns = own_pawns | pieces(pos, enemy, PieceType::Pawn);
    let rbits = pieces(pos, color, PieceType::Rook);
    let rooks = squares_of(rbits);
    let ghost mg3 = *mg as int;
    let ghost eg3 = *eg as int;
    let ghost f = |i: int| rook_recs(*pos, color, i);
    let mut k: usize = 0;
    while k < rooks.len()
        invariant
            params.ok(),
            sign == color_sign(color),
            k <= rooks@.len() <= 64,
            room(*old(mg) as int, *old(eg) as int, 64),
            l3 == old(t).log(),
            mg3 == *old(mg) as int,
            eg3 == *old(eg) as int,
            traced(params@, l3, t.log(), mg3, *mg as int, eg3, *eg as int, k as int),
            own_pawns == pos.piece_bits(color, PieceType::Pawn),
            all_pawns == own_pawns | pos.piece_bits(opposite(color), PieceType::Pawn),
            f == (|i: int| rook_recs(*pos, color, i)),
            t.log() == l3 + over(rooks@.take(k as int), f),
        decreases rooks@.len() - k,
    {
        let fl = rooks[k].file();
        let fbb = file_mask(fl);
        proof {
            lemma_meets(fbb, all_pawns, file_zone(fl as int));
            lemma_meets(fbb, own_pawns, file_zone(fl as int));
        }
        let ghost lk = t.log();
        if fbb & all_pawns == 0 {
            add_term(params, ROOK_OPEN, sign, t, mg, eg);
        } else if fbb & own_pawns == 0 {
            add_term(params, ROOK_SEMI, sign, t, mg, eg);
        }
        proof {
            assert(t.log() =~= lk + rook_recs(*pos, color, rooks@[k as int]@));
            assert(rooks@.take(k + 1).drop_last() =~= rooks@.take(k as int));
            assert(t.log() =~= l3 + over(rooks@.take(k + 1), f));
        }
        k += 1;
    }
    proof {
        assert(rooks@.take(rooks@.len() as int) =~= rooks@);
        let p = |i: int| bit(rbits, i);
        assert forall|j: int| 0 <= j < rooks@.len() implies 0 <= #[trigger] rooks@[j]@ < 64 && p(rooks@[j]@) by {
            assert(bit(rbits, rooks@[j]@));
        }
        assert forall|i: int| 0 <= i < 64 && #[trigger] p(i) implies exists|j: int|
            0 <= j < rooks@.len() && #[trigger] rooks@[j]@ == i by {
            assert(bit(rbits, i));
        }
        lemma_over_scan(rooks@, p, f, 64);
    }
}

/// The tempo record: the side to move's sign.
pub open spec fn tempo_rec(pos: Position) -> Seq<(int, int)> {
    seq![(TEMPO as int, color_sign(pos.state().stm))]
}

/// Threats (pawn and minor attacks on enemy pieces, hanging pieces),
/// coordination (bishop pair, rooks on open and semi-open files), and the
/// side-to-move tempo. Each record carries the attacker's sign; tempo the
/// side to move's.
fn threat_terms<T: Tracer>(
    pos: &Position,
    maps: &AttackMaps,
    params: &Params,
    t: &mut T,
    mg: &mut i32,
    eg: &mut i32,
)
    requires
        pos.wf(),
        params.ok(),
        room(*old(mg) as int, *old(eg) as int, 1283),
    ensures
        traced(params@, old(t).log(), final(t).log(), *old(mg) as int, *final(mg) as int, *old(eg) as int, *final(eg) as int, 1283),
        final(t).log() == old(t).log() + threat_side(*pos, Color::White, maps.pawn[0], maps.minor[0], maps.all[0], maps.all[1])
            + threat_side(*pos, Color::Black, maps.pawn[1], maps.minor[1], maps.all[1], maps.all[0]) + tempo_rec(*pos),
{
    let ghost l0 = t.log();
    threat_side_terms(pos, params, Color::White, 1, maps.pawn[0], maps.minor[0], maps.all[0], maps.all[1], t, mg, eg);
    threat_side_terms(pos, params, Color::Black, -1, maps.pawn[1], maps.minor[1], maps.all[1], maps.all[0], t, mg, eg);
    // tempo: the side to move has the initiative (recorded once)
    let stm_sign: i32 = match pos.stm() {
        Color::White => 1,
        Color::Black => -1,
    };
    add_term(params, TEMPO, stm_sign, t, mg, eg);
    proof {
        assert(t.log() =~= old(t).log() + threat_side(*pos, Color::White, maps.pawn[0], maps.minor[0], maps.all[0], maps.all[1])
            + threat_side(*pos, Color::Black, maps.pawn[1], maps.minor[1], maps.all[1], maps.all[0]) + tempo_rec(*pos));
    }
}

/// The piece-square table offset of a piece type.
fn pst_base(pt: PieceType) -> (r: usize)
    ensures
        PST_PAWN <= r <= PST_KING,
        r == PST_PAWN + 64 * type_index(pt),
{
    match pt {
        PieceType::Pawn => PST_PAWN,
        PieceType::Knight => PST_KNIGHT,
        PieceType::Bishop => PST_BISHOP,
        PieceType::Rook => PST_ROOK,
        PieceType::Queen => PST_QUEEN,
        PieceType::King => PST_KING,
    }
}

/// The piece-square index of square `sq` for `color`: White reads its
/// table rank-mirrored.
pub open spec fn pst_square(color: Color, sq: int) -> int {
    if color == Color::White {
        (7 - rank_of(sq)) * 8 + file_of(sq)
    } else {
        sq
    }
}

/// The material and piece-square records of a piece of type index `ti`
/// and `color` on `sq`.
pub open spec fn material_recs(ti: int, color: Color, sq: int) -> Seq<(int, int)> {
    seq![(MATERIAL + ti, color_sign(color)), (PST_PAWN + 64 * ti + pst_square(color, sq), color_sign(color))]
}

/// The material records of the pieces of type index `ti` and `color`, in
/// square order.
pub open spec fn material_piece_log(pos: Position, ti: int, color: Color) -> Seq<(int, int)> {
    let bits = pos.piece_bits(color, type_of_index(ti));
    scan(|i: int| bit(bits, i), |i: int| material_recs(ti, color, i), 64)
}

/// The material records of the first `n` (type, color) groups, types in
/// index order and White before Black.
pub open spec fn material_upto(pos: Position, n: int) -> Seq<(int, int)>
    decreases n,
{
    if n <= 0 {
        Seq::empty()
    } else {
        material_upto(pos, n - 1) + material_piece_log(
            pos,
            (n - 1) / 2,
            if (n - 1) % 2 == 0 {
                Color::White
            } else {
                Color::Black
            },
        )
    }
}

/// Material and piece-square terms of every piece (White reads its table
/// rank-mirrored).
fn material_terms<T: Tracer>(pos: &Position, params: &Params, t: &mut T, mg: &mut i32, eg: &mut i32)
    requires
        pos.wf(),
        params.ok(),
        room(*old(mg) as int, *old(eg) as int, 1536),
    ensures
        traced(params@, old(t).log(), final(t).log(), *old(mg) as int, *final(mg) as int, *old(eg) as int, *final(eg) as int, 1536),
        final(t).log() == old(t).log() + material_upto(*pos, 12),
{
    let types = PieceType::all();
    let mut ti: usize = 0;
    while ti < 6
        invariant
            pos.wf(),
            params.ok(),
            ti <= 6,
            room(*old(mg) as int, *old(eg) as int, 1536),
            traced(params@, old(t).log(), t.log(), *old(mg) as int, *mg as int, *old(eg) as int, *eg as int, 256 * ti),
            forall|i: int| 0 <= i < 6 ==> #[trigger] types@[i] == type_of_index(i),
            t.log() == old(t).log() + material_upto(*pos, 2 * ti),
        decreases 6 - ti,
    {
        let pt = types[ti];
        let pti = pt.index();
        let base = pst_base(pt);
        let ghost l1 = t.log();
        let ghost mg1 = *mg as int;
        let ghost eg1 = *eg as int;
        let mut ci: usize = 0;
        while ci < 2
            invariant
                pos.wf(),
                params.ok(),
                ti < 6,
                pti < 6,
                PST_PAWN <= base <= PST_KING,
                ci <= 2,
                room(*old(mg) as int, *old(eg) as int, 1536),
                traced(params@, old(t).log(), l1, *old(mg) as int, mg1, *old(eg) as int, eg1, 256 * ti),
                traced(params@, l1, t.log(), mg1, *mg as int, eg1, *eg as int, 128 * ci),
                pt == type_of_index(ti as int),
                pti == ti,
                base == PST_PAWN + 64 * ti,
                t.log() == old(t).log() + material_upto(*pos, 2 * ti + ci),
            decreases 2 - ci,
        {
            let (color, sign) = side(ci);
            let bits = pieces(pos, color, pt);
            let sqs = squares_of(bits);
            let ghost f = |i: int| material_recs(ti as int, color, i);
            let ghost l2 = t.log();
            let ghost mg2 = *mg as int;
            let ghost eg2 = *eg as int;
            let mut k: usize = 0;
            while k < sqs.len()
                invariant
                    params.ok(),
                    ti < 6,
                    pti < 6,
                    PST_PAWN <= base <= PST_KING,
                    ci < 2,
                    sign == 1 || sign == -1,
                    k <= sqs@.len() <= 64,
                    room(*old(mg) as int, *old(eg) as int, 1536),
                    traced(params@, old(t).log(), l1, *old(mg) as int, mg1, *old(eg) as int, eg1, 256 * ti),
                    traced(params@, l1, l2, mg1, mg2, eg1, eg2, 128 * ci),
                    traced(params@, l2, t.log(), mg2, *mg as int, eg2, *eg as int, 2 * k),
                    pti == ti,
                    base == PST_PAWN + 64 * ti,
                    color == Color::White <==> ci == 0,
                    sign == color_sign(color),
                    f == (|i: int| material_recs(ti as int, color, i)),
                    t.log() == l2 + over(sqs@.take(k as int), f),
                decreases sqs@.len() - k,
            {
                let si = sqs[k].index();
                let sq_idx = if ci == 0 {
                    si ^ 56
                } else {
                    si
                };
                assert(si ^ 56 < 64 && si ^ 56 == (7 - si / 8) * 8 + si % 8) by (bit_vector)
                    requires
                        si < 64,
                ;
                add_term(params, MATERIAL + pti, sign, t, mg, eg);
                add_term(params, base + sq_idx, sign, t, mg, eg);
                proof {
                    assert(sqs@.take(k + 1).drop_last() =~= sqs@.take(k as int));
                    assert(sq_idx == pst_square(color, sqs@[k as int]@));
                    assert(t.log() =~= l2 + over(sqs@.take(k + 1), f));
                }
                k += 1;
            }
            proof {
                assert(sqs@.take(sqs@.len() as int) =~= sqs@);
                let p = |i: int| bit(bits, i);
                assert forall|j: int| 0 <= j < sqs@.len() implies 0 <= #[trigger] sqs@[j]@ < 64 && p(sqs@[j]@) by {
                    assert(bit(bits, sqs@[j]@));
                }
                assert forall|i: int| 0 <= i < 64 && #[trigger] p(i) implies exists|j: int|
                    0 <= j < sqs@.len() && #[trigger] sqs@[j]@ == i by {
                    assert(bit(bits, i));
                }
                lemma_over_scan(sqs@, p, f, 64);
                assert(t.log() =~= old(t).log() + material_upto(*pos, 2 * ti + ci + 1));
            }
            ci += 1;
        }
        ti += 1;
    }
}

/// Upper bound on the records of one full evaluation.
pub const MAX_RECORDS: i32 = 4367;

/// Every record of one evaluation, in the order made: material and
/// piece-square, pawn structure, mobility and king attackers, king
/// shields, threats and coordination, tempo.
pub open spec fn eval_log(pos: Position) -> Seq<(int, int)> {
    material_upto(pos, 12) + pawn_terms_log(pos) + rest_log(pos)
}

/// The records after the pawn structure: mobility and king attackers, king
/// shields, threats and coordination, tempo.
pub open spec fn rest_log(pos: Position) -> Seq<(int, int)> {
    mobility_log(pos) + king_shield_log(pos) + threat_side(
        pos,
        Color::White,
        pawn_bits(pos, Color::White),
        att_upto(pos, Color::White, 2),
        all_att(pos, Color::White),
        all_att(pos, Color::Black),
    ) + threat_side(
        pos,
        Color::Black,
        pawn_bits(pos, Color::Black),
        att_upto(pos, Color::Black, 2),
        all_att(pos, Color::Black),
        all_att(pos, Color::White),
    ) + tempo_rec(pos)
}

/// White-relative (mg, eg) sums of every term, recording each parameter
/// use in `t`: the sums are exactly the weighted sums of the records made.
pub fn eval_terms<T: Tracer>(pos: &Position, params: &Params, t: &mut T) -> (r: (i32, i32))
    requires
        pos.wf(),
        pawns_inside(pos.state().board),
        params.ok(),
    ensures
        traced(params@, old(t).log(), final(t).log(), 0, r.0 as int, 0, r.1 as int, MAX_RECORDS as int),
        final(t).log() == old(t).log() + eval_log(*pos),
{
    let mut mg: i32 = 0;
    let mut eg: i32 = 0;
    material_terms(pos, params, t, &mut mg, &mut eg);
    pawn_terms(pos, params, t, &mut mg, &mut eg);
    let maps = mobility_and_attackers(pos, params, t, &mut mg, &mut eg);
    king_shield_terms(pos, params, t, &mut mg, &mut eg);
    threat_terms(pos, &maps, params, t, &mut mg, &mut eg);
    proof {
        assert(maps.pawn[0] == pawn_bits(*pos, side_color(0)));
        assert(maps.pawn[1] == pawn_bits(*pos, side_color(1)));
        assert(maps.minor[0] == att_upto(*pos, side_color(0), 2));
        assert(maps.minor[1] == att_upto(*pos, side_color(1), 2));
        assert(maps.all[0] == all_att(*pos, side_color(0)));
        assert(maps.all[1] == all_att(*pos, side_color(1)));
        assert(t.log() =~= old(t).log() + eval_log(*pos));
    }
    (mg, eg)
}

/// Bound on the (mg, eg) sums of one evaluation: `MAX_RECORDS *
/// PARAM_LIMIT`.
pub const SUM_LIMIT: i32 = 43_670_000;

/// The phase blend of (mg, eg): `(mg * ph + eg * (24 - ph)) / 24`,
/// rounded toward zero.
pub open spec fn blend_of(mg: int, eg: int, ph: int) -> int {
    crate::eval::nnue::net::tdiv(mg * ph + eg * (24 - ph), 24)
}

/// Blend (mg, eg) by phase (24 = opening, 0 = bare kings).
fn blend(mg: i32, eg: i32, ph: i32) -> (r: i32)
    requires
        0 <= ph <= 24,
        -43_670_000 <= mg <= 43_670_000,
        -43_670_000 <= eg <= 43_670_000,
    ensures
        -43_670_000 <= r <= 43_670_000,
        r == blend_of(mg as int, eg as int, ph as int),
{
    assert(-43_670_000 * ph <= mg * ph <= 43_670_000 * ph) by (nonlinear_arith)
        requires
            0 <= ph <= 24,
            -43_670_000 <= mg <= 43_670_000,
    ;
    assert(-43_670_000 * (24 - ph) <= eg * (24 - ph) <= 43_670_000 * (24
        - ph)) by (nonlinear_arith)
        requires
            0 <= ph <= 24,
            -43_670_000 <= eg <= 43_670_000,
    ;
    let x = mg * ph + eg * (24 - ph);
    assert(-43_670_000 * 24 <= x <= 43_670_000 * 24);
    x / 24
}

/// Game phase: knights and bishops 1, rooks 2, queens 4, capped at 24.
pub open spec fn phase_of(pos: &Position) -> int {
    let w = popcount(pos.piece_bits(Color::White, PieceType::Knight)) + popcount(
        pos.piece_bits(Color::White, PieceType::Bishop),
    ) + 2 * popcount(pos.piece_bits(Color::White, PieceType::Rook)) + 4 * popcount(
        pos.piece_bits(Color::White, PieceType::Queen),
    );
    let b = popcount(pos.piece_bits(Color::Black, PieceType::Knight)) + popcount(
        pos.piece_bits(Color::Black, PieceType::Bishop),
    ) + 2 * popcount(pos.piece_bits(Color::Black, PieceType::Rook)) + 4 * popcount(
        pos.piece_bits(Color::Black, PieceType::Queen),
    );
    if w + b > 24 {
        24
    } else {
        (w + b) as int
    }
}

/// Game phase: N/B = 1, R = 2, Q = 4 per piece, capped at 24 (opening)
/// down to 0 (bare kings).
pub fn phase(pos: &Position) -> (r: i32)
    requires
        pos.wf(),
    ensures
        r == phase_of(pos),
        0 <= r <= 24,
{
    proof {
        pos.lemma_wf_boards();
    }
    let mut p: u32 = 0;
    let mut ci: usize = 0;
    while ci < 2
        invariant
            pos.boards_ok(),
            ci <= 2,
            p == (if ci >= 1 {
                popcount(pos.piece_bits(Color::White, PieceType::Knight)) + popcount(
                    pos.piece_bits(Color::White, PieceType::Bishop),
                ) + 2 * popcount(pos.piece_bits(Color::White, PieceType::Rook)) + 4 * popcount(
                    pos.piece_bits(Color::White, PieceType::Queen),
                )
            } else {
                0
            }) + (if ci >= 2 {
                popcount(pos.piece_bits(Color::Black, PieceType::Knight)) + popcount(
                    pos.piece_bits(Color::Black, PieceType::Bishop),
                ) + 2 * popcount(pos.piece_bits(Color::Black, PieceType::Rook)) + 4 * popcount(
                    pos.piece_bits(Color::Black, PieceType::Queen),
                )
            } else {
                0
            }),
            p <= 512 * ci,
        decreases 2 - ci,
    {
        let (color, _) = side(ci);
        p = p + pos.piece_bb(color, PieceType::Knight).count();
        p = p + pos.piece_bb(color, PieceType::Bishop).count();
        p = p + 2 * pos.piece_bb(color, PieceType::Rook).count();
        p = p + 4 * pos.piece_bb(color, PieceType::Queen).count();
        ci += 1;
    }
    if p > 24 {
        24
    } else {
        p as i32
    }
}

/// Phase-blended white-relative score of every term: the phase blend of
/// the weighted sums of the parameters an evaluation records.
pub fn evaluate_white_relative(pos: &Position, params: &Params) -> (r: i32)
    requires
        pos.wf(),
        pawns_inside(pos.state().board),
        params.ok(),
    ensures
        -SUM_LIMIT <= r <= SUM_LIMIT,
        exists|log: Seq<(int, int)>, mg: int, eg: int|
            #[trigger] traced(params@, Seq::empty(), log, 0, mg, 0, eg, MAX_RECORDS as int) && r == blend_of(
                mg,
                eg,
                phase_of(pos),
            ),
        r == blend_of(sum_mg(params@, eval_log(*pos)), sum_eg(params@, eval_log(*pos)), phase_of(pos)),
{
    let mut t = NullTracer::new();
    let (mg, eg) = eval_terms(pos, params, &mut t);
    let ph = phase(pos);
    let r = blend(mg, eg, ph);
    proof {
        assert(traced(params@, Seq::empty(), t.log(), 0, mg as int, 0, eg as int, MAX_RECORDS as int));
        reveal_with_fuel(sum_mg, 1);
        reveal_with_fuel(sum_eg, 1);
        assert(t.log() =~= eval_log(*pos));
    }
    r
}

/// Entries of the pawn hash.
pub const PAWN_HASH_SIZE: usize = 16384;

/// Bound on the pawn-structure sums of one side's pawns (512 records).
pub const PAWN_SUM_LIMIT: i32 = 5_120_000;

/// Hand-crafted evaluator: a parameter table and a pawn hash of pawn
/// structure sums keyed by the pawn key (replace always; key 0 = empty).
pub struct Hce {
    params: Params,
    pawn_hash: Vec<(u64, i32, i32)>,
}

impl Hce {
    pub closed spec fn params(&self) -> Seq<(i32, i32)> {
        self.params@
    }

    /// The pawn-hash entry `i`: (pawn key, mg, eg).
    pub closed spec fn pawn_entry(&self, i: int) -> (u64, i32, i32) {
        self.pawn_hash@[i]
    }

    /// The pawn-structure sums `pawn_terms_cached` gives for `pos`: the
    /// entry of the pawn key's slot when it holds that key, else the sums
    /// of the pawn-structure records.
    pub open spec fn pawn_part(&self, pos: Position) -> (int, int) {
        let key = pos.state().pawn_key;
        let e = self.pawn_entry((key % 16384) as int);
        if e.0 == key {
            (e.1 as int, e.2 as int)
        } else {
            (sum_mg(self.params(), pawn_terms_log(pos)), sum_eg(self.params(), pawn_terms_log(pos)))
        }
    }

    pub fn new(params: Params) -> (h: Hce)
        requires
            params.ok(),
        ensures
            h.inv(),
            h.params() == params@,
    {
        let mut v: Vec<(u64, i32, i32)> = Vec::new();
        let mut i: usize = 0;
        while i < PAWN_HASH_SIZE
            invariant
                i <= PAWN_HASH_SIZE,
                v@.len() == i,
                forall|k: int| 0 <= k < i ==> #[trigger] v@[k] == (0u64, 0i32, 0i32),
            decreases PAWN_HASH_SIZE - i,
        {
            v.push((0, 0, 0));
            i += 1;
        }
        Hce { params, pawn_hash: v }
    }

    /// Pawn-structure sums through the pawn hash.
    fn pawn_terms_cached(&mut self, pos: &Position) -> (r: (i32, i32))
        requires
            old(self).inv(),
            pos.wf(),
            pawns_inside(pos.state().board),
        ensures
            final(self).inv(),
            final(self).params() == old(self).params(),
            -PAWN_SUM_LIMIT <= r.0 <= PAWN_SUM_LIMIT,
            -PAWN_SUM_LIMIT <= r.1 <= PAWN_SUM_LIMIT,
            (r.0 as int, r.1 as int) == old(self).pawn_part(*pos),
            forall|i: int|
                0 <= i < PAWN_HASH_SIZE && i != pos.state().pawn_key % 16384 ==> #[trigger] final(self).pawn_entry(i)
                    == old(self).pawn_entry(i),
            final(self).pawn_entry((pos.state().pawn_key % 16384) as int) == (pos.state().pawn_key, r.0, r.1),
    {
        let key = pos.pawn_key();
        let slot = (key & 16383) as usize;
        assert(key & 16383 < 16384 && key & 16383 == key % 16384) by (bit_vector);
        let entry = self.pawn_hash[slot];
        if entry.0 == key {
            return (entry.1, entry.2);
        }
        let mut mg: i32 = 0;
        let mut eg: i32 = 0;
        let mut t = NullTracer::new();
        pawn_terms(pos, &self.params, &mut t, &mut mg, &mut eg);
        proof {
            reveal_with_fuel(sum_mg, 1);
            reveal_with_fuel(sum_eg, 1);
            assert(t.log() =~= pawn_terms_log(*pos));
        }
        self.pawn_hash.set(slot, (key, mg, eg));
        (mg, eg)
    }
}

impl Hce {
    /// The score `evaluate` gives: 0 on insufficient material, else the
    /// side-relative, clamped phase blend of the record sums and the pawn
    /// part.
    pub open spec fn hce_value(&self, pos: &Position) -> int {
        if pos.insufficient_material() {
            0
        } else {
            let pp = self.pawn_part(*pos);
            let l = material_upto(*pos, 12) + rest_log(*pos);
            let w = crate::eval::nnue::held(
                blend_of(sum_mg(self.params(), l) + pp.0, sum_eg(self.params(), l) + pp.1, phase_of(pos)),
            );
            if pos.state().stm == Color::White {
                w
            } else {
                -w
            }
        }
    }
}

impl Evaluator for Hce {
    open spec fn static_value(&self, pos: &Position) -> i32 {
        self.hce_value(pos) as i32
    }

    closed spec fn inv(&self) -> bool {
        &&& self.params.ok()
        &&& self.pawn_hash@.len() == PAWN_HASH_SIZE
        &&& forall|i: int|
            0 <= i < PAWN_HASH_SIZE ==> -PAWN_SUM_LIMIT <= (#[trigger] self.pawn_hash@[i]).1 <= PAWN_SUM_LIMIT
                && -PAWN_SUM_LIMIT <= self.pawn_hash@[i].2 <= PAWN_SUM_LIMIT
    }

    fn refresh(&mut self, _pos: &Position) {
    }

    fn on_make(&mut self, _mv: Move, _pos: &Position) {
    }

    fn on_unmake(&mut self, _mv: Move, _pos: &Position) {
    }

    /// Insufficient material scores 0; otherwise the phase-blended sum of
    /// the non-pawn terms, the (hashed) pawn structure and the mobility,
    /// king-safety and threat terms, from the side to move's view, held
    /// clear of the mate range.
    fn evaluate(&mut self, pos: &Position) -> (r: i32)
        ensures
            pos.insufficient_material() ==> r == 0,
            final(self).params() == old(self).params(),
            !pos.insufficient_material() ==> r == ({
                let pp = old(self).pawn_part(*pos);
                let l = material_upto(*pos, 12) + rest_log(*pos);
                let w = crate::eval::nnue::held(
                    blend_of(
                        sum_mg(old(self).params(), l) + pp.0,
                        sum_eg(old(self).params(), l) + pp.1,
                        phase_of(pos),
                    ),
                );
                if pos.state().stm == Color::White {
                    w
                } else {
                    -w
                }
            }),
    {
        proof {
            pos.lemma_wf_boards();
            lemma_consistent_pawns(pos.state());
        }
        if pos.is_insufficient_material() {
            return 0;
        }
        let ph = phase(pos);
        let mut np_mg: i32 = 0;
        let mut np_eg: i32 = 0;
        let mut t = NullTracer::new();
        material_terms(pos, &self.params, &mut t, &mut np_mg, &mut np_eg);
        let (pw_mg, pw_eg) = self.pawn_terms_cached(pos);
        let mut fresh_mg: i32 = 0;
        let mut fresh_eg: i32 = 0;
        let maps = mobility_and_attackers(pos, &self.params, &mut t, &mut fresh_mg, &mut fresh_eg);
        king_shield_terms(pos, &self.params, &mut t, &mut fresh_mg, &mut fresh_eg);
        threat_terms(pos, &maps, &self.params, &mut t, &mut fresh_mg, &mut fresh_eg);
        proof {
            reveal_with_fuel(sum_mg, 1);
            reveal_with_fuel(sum_eg, 1);
            assert(t.log() =~= material_upto(*pos, 12) + rest_log(*pos));
        }
        let white = blend(np_mg + pw_mg + fresh_mg, np_eg + pw_eg + fresh_eg, ph);
        let held = if white >= MATE_BOUND {
            MATE_BOUND - 1
        } else if white <= -MATE_BOUND {
            -(MATE_BOUND - 1)
        } else {
            white
        };
        match pos.stm() {
            Color::White => held,
            Color::Black => -held,
        }
    }
}

} // verus!
