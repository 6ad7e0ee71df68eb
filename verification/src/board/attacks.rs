//! All attack computation lives here. Leapers are computed from bit shifts of
//! the origin square; sliders walk their rays.
use vstd::prelude::*;

use crate::board::bitboard::{bit, lemma_bit_or, lemma_bit_single};
use crate::board::types::{Color, Square, file_of, rank_of, square_at, on_board};
use crate::board::Bitboard;

verus! {

pub open spec fn abs_diff(a: int, b: int) -> int {
    if a >= b {
        a - b
    } else {
        b - a
    }
}

/// `t` is a knight's jump away from `s`.
pub open spec fn knight_step(s: int, t: int) -> bool {
    let df = abs_diff(file_of(t), file_of(s));
    let dr = abs_diff(rank_of(t), rank_of(s));
    0 <= s < 64 && 0 <= t < 64 && ((df == 1 && dr == 2) || (df == 2 && dr == 1))
}

/// `t` is a king's step away from `s`.
pub open spec fn king_step(s: int, t: int) -> bool {
    let df = abs_diff(file_of(t), file_of(s));
    let dr = abs_diff(rank_of(t), rank_of(s));
    0 <= s < 64 && 0 <= t < 64 && df <= 1 && dr <= 1 && s != t
}

/// A pawn of color `c` on `s` attacks `t` (one diagonal step forward).
pub open spec fn pawn_step(c: Color, s: int, t: int) -> bool {
    let forward = match c {
        Color::White => 1int,
        Color::Black => -1int,
    };
    0 <= s < 64 && 0 <= t < 64 && abs_diff(file_of(t), file_of(s)) == 1 && rank_of(t) - rank_of(
        s,
    ) == forward
}

/// The `k`-th square along direction `(df, dr)` from `s`, as (file, rank).
pub open spec fn ray_file(s: int, df: int, k: int) -> int {
    file_of(s) + k * df
}

pub open spec fn ray_rank(s: int, dr: int, k: int) -> int {
    rank_of(s) + k * dr
}

pub open spec fn ray_sq(s: int, df: int, dr: int, k: int) -> int {
    square_at(ray_file(s, df, k), ray_rank(s, dr, k))
}

pub open spec fn ray_on_board(s: int, df: int, dr: int, k: int) -> bool {
    on_board(ray_file(s, df, k), ray_rank(s, dr, k))
}

/// Squares strictly before step `k` of the ray are empty in `occ`.
pub open spec fn ray_clear(s: int, df: int, dr: int, k: int, occ: u64) -> bool {
    forall|j: int| 1 <= j < k ==> !bit(occ, #[trigger] ray_sq(s, df, dr, j))
}

/// A slider on `s` moving along `(df, dr)` reaches `t` over occupancy `occ`:
/// `t` is on the ray, on the board, and every square before it is empty.
/// (The first occupied square is itself reached.)
pub open spec fn ray_hit(s: int, t: int, df: int, dr: int, occ: u64) -> bool {
    exists|k: int|
        1 <= k <= 8 && ray_on_board(s, df, dr, k) && #[trigger] ray_sq(s, df, dr, k) == t
            && ray_clear(s, df, dr, k, occ)
}

/// `t` lies on the ray from `s` and the ray continues one step past it.
pub open spec fn ray_inner(s: int, t: int, df: int, dr: int) -> bool {
    exists|k: int|
        1 <= k <= 8 && ray_on_board(s, df, dr, k) && ray_on_board(s, df, dr, k + 1)
            && #[trigger] ray_sq(s, df, dr, k) == t
}

pub open spec fn unit(x: int) -> bool {
    -1 <= x <= 1
}

/// Four directions, none of them the null step.
pub open spec fn valid_deltas(d: Seq<(i8, i8)>) -> bool {
    d.len() == 4 && forall|i: int|
        0 <= i < 4 ==> unit((#[trigger] d[i]).0 as int) && unit(d[i].1 as int) && (d[i].0 != 0
            || d[i].1 != 0)
}

/// Union of the rays of `dirs[0..n]`.
pub open spec fn rays_hit(s: int, t: int, dirs: Seq<(i8, i8)>, n: int, occ: u64) -> bool {
    exists|i: int| 0 <= i < n && #[trigger] ray_hit(s, t, dirs[i].0 as int, dirs[i].1 as int, occ)
}

pub open spec fn rays_inner(s: int, t: int, dirs: Seq<(i8, i8)>, n: int) -> bool {
    exists|i: int| 0 <= i < n && #[trigger] ray_inner(s, t, dirs[i].0 as int, dirs[i].1 as int)
}

pub open spec fn rook_dirs() -> Seq<(i8, i8)> {
    seq![(0i8, 1i8), (0i8, -1i8), (1i8, 0i8), (-1i8, 0i8)]
}

pub open spec fn bishop_dirs() -> Seq<(i8, i8)> {
    seq![(1i8, 1i8), (1i8, -1i8), (-1i8, 1i8), (-1i8, -1i8)]
}

/// A rook on `s` attacks `t` over occupancy `occ`.
pub open spec fn rook_hit(s: int, t: int, occ: u64) -> bool {
    ray_hit(s, t, 0, 1, occ) || ray_hit(s, t, 0, -1, occ) || ray_hit(s, t, 1, 0, occ) || ray_hit(
        s,
        t,
        -1,
        0,
        occ,
    )
}

/// A bishop on `s` attacks `t` over occupancy `occ`.
pub open spec fn bishop_hit(s: int, t: int, occ: u64) -> bool {
    ray_hit(s, t, 1, 1, occ) || ray_hit(s, t, 1, -1, occ) || ray_hit(s, t, -1, 1, occ) || ray_hit(
        s,
        t,
        -1,
        -1,
        occ,
    )
}

pub proof fn lemma_square_coords(f: int, r: int)
    requires
        on_board(f, r),
    ensures
        file_of(square_at(f, r)) == f,
        rank_of(square_at(f, r)) == r,
        0 <= square_at(f, r) < 64,
{
}

pub proof fn lemma_coords_square(s: int)
    requires
        0 <= s < 64,
    ensures
        square_at(file_of(s), rank_of(s)) == s,
        on_board(file_of(s), rank_of(s)),
{
}

// ---- leapers ----

pub open spec fn not_a() -> u64 {
    !0x0101010101010101u64
}

pub open spec fn not_h() -> u64 {
    !0x8080808080808080u64
}

pub open spec fn not_ab() -> u64 {
    !0x0303030303030303u64
}

pub open spec fn not_gh() -> u64 {
    !0xC0C0C0C0C0C0C0C0u64
}

/// Knight targets of the squares of `b` (shifts with wrap-around masks).
pub open spec fn knight_mask(b: u64) -> u64 {
    ((b << 17u64) & not_a()) | ((b << 15u64) & not_h()) | ((b << 10u64) & not_ab()) | ((b << 6u64)
        & not_gh()) | ((b >> 17u64) & not_h()) | ((b >> 15u64) & not_a()) | ((b >> 10u64)
        & not_gh()) | ((b >> 6u64) & not_ab())
}

pub open spec fn king_horiz(b: u64) -> u64 {
    ((b << 1u64) & not_a()) | ((b >> 1u64) & not_h())
}

pub open spec fn king_row(b: u64) -> u64 {
    b | king_horiz(b)
}

pub open spec fn king_mask(b: u64) -> u64 {
    (king_horiz(b) | (king_row(b) << 8u64) | (king_row(b) >> 8u64)) & !b
}

pub open spec fn white_pawn_mask(b: u64) -> u64 {
    ((b << 9u64) & not_a()) | ((b << 7u64) & not_h())
}

pub open spec fn black_pawn_mask(b: u64) -> u64 {
    ((b >> 7u64) & not_a()) | ((b >> 9u64) & not_h())
}

pub open spec fn knight_bits(s: u64, t: u64) -> bool {
    let fs = s % 8;
    let rs = s / 8;
    let ft = t % 8;
    let rt = t / 8;
    ((ft == fs + 1 || fs == ft + 1) && (rt == rs + 2 || rs == rt + 2)) || ((ft == fs + 2 || fs == ft
        + 2) && (rt == rs + 1 || rs == rt + 1))
}

pub open spec fn king_bits(s: u64, t: u64) -> bool {
    let fs = s % 8;
    let rs = s / 8;
    let ft = t % 8;
    let rt = t / 8;
    (ft == fs || ft == fs + 1 || fs == ft + 1) && (rt == rs || rt == rs + 1 || rs == rt + 1) && s
        != t
}

pub open spec fn pawn_bits(white: bool, s: u64, t: u64) -> bool {
    (t % 8 == s % 8 + 1 || s % 8 == t % 8 + 1) && if white {
        t / 8 == s / 8 + 1
    } else {
        s / 8 == t / 8 + 1
    }
}

proof fn lemma_knight_mask(s: u64)
    requires
        s < 64,
    ensures
        forall|t: u64| t < 64 ==> (#[trigger] ((knight_mask(1u64 << s) >> t) & 1u64) == 1u64
            <==> knight_bits(s, t)),
{
    assert(forall|t: u64|
        t < 64 ==> (#[trigger] ((knight_mask(1u64 << s) >> t) & 1u64) == 1u64 <==> knight_bits(
            s,
            t,
        ))) by (bit_vector)
        requires
            s < 64,
    ;
}

proof fn lemma_king_mask(s: u64)
    requires
        s < 64,
    ensures
        forall|t: u64| t < 64 ==> (#[trigger] ((king_mask(1u64 << s) >> t) & 1u64) == 1u64
            <==> king_bits(s, t)),
{
    assert(forall|t: u64|
        t < 64 ==> (#[trigger] ((king_mask(1u64 << s) >> t) & 1u64) == 1u64 <==> king_bits(s, t)))
        by (bit_vector)
        requires
            s < 64,
    ;
}

proof fn lemma_pawn_masks(s: u64)
    requires
        s < 64,
    ensures
        forall|t: u64| t < 64 ==> (#[trigger] ((white_pawn_mask(1u64 << s) >> t) & 1u64) == 1u64
            <==> pawn_bits(true, s, t)),
        forall|t: u64| t < 64 ==> (#[trigger] ((black_pawn_mask(1u64 << s) >> t) & 1u64) == 1u64
            <==> pawn_bits(false, s, t)),
{
    assert(forall|t: u64|
        t < 64 ==> (#[trigger] ((white_pawn_mask(1u64 << s) >> t) & 1u64) == 1u64 <==> pawn_bits(
            true,
            s,
            t,
        ))) by (bit_vector)
        requires
            s < 64,
    ;
    assert(forall|t: u64|
        t < 64 ==> (#[trigger] ((black_pawn_mask(1u64 << s) >> t) & 1u64) == 1u64 <==> pawn_bits(
            false,
            s,
            t,
        ))) by (bit_vector)
        requires
            s < 64,
    ;
}

/// Squares a knight on `sq` attacks.
pub fn knight_attacks(sq: Square) -> (r: Bitboard)
    ensures
        forall|t: int| #[trigger] r.has(t) == knight_step(sq@, t),
{
    let s = sq.index() as u64;
    let b = 1u64 << s;
    let na = !0x0101010101010101u64;
    let nh = !0x8080808080808080u64;
    let nab = !0x0303030303030303u64;
    let ngh = !0xC0C0C0C0C0C0C0C0u64;
    let v = ((b << 17u64) & na) | ((b << 15u64) & nh) | ((b << 10u64) & nab) | ((b << 6u64) & ngh)
        | ((b >> 17u64) & nh) | ((b >> 15u64) & na) | ((b >> 10u64) & ngh) | ((b >> 6u64) & nab);
    proof {
        assert(v == knight_mask(b));
        lemma_knight_mask(s);
        assert forall|t: int| #[trigger] bit(v, t) == knight_step(sq@, t) by {
            if 0 <= t < 64 {
                let tt = t as u64;
                assert(knight_bits(s, tt) == knight_step(sq@, t));
            }
        }
    }
    Bitboard(v)
}

/// Squares a king on `sq` attacks.
pub fn king_attacks(sq: Square) -> (r: Bitboard)
    ensures
        forall|t: int| #[trigger] r.has(t) == king_step(sq@, t),
{
    let s = sq.index() as u64;
    let b = 1u64 << s;
    let na = !0x0101010101010101u64;
    let nh = !0x8080808080808080u64;
    let horiz = ((b << 1u64) & na) | ((b >> 1u64) & nh);
    let row = b | horiz;
    let v = (horiz | (row << 8u64) | (row >> 8u64)) & !b;
    proof {
        assert(v == king_mask(b));
        lemma_king_mask(s);
        assert forall|t: int| #[trigger] bit(v, t) == king_step(sq@, t) by {
            if 0 <= t < 64 {
                let tt = t as u64;
                assert(king_bits(s, tt) == king_step(sq@, t));
            }
        }
    }
    Bitboard(v)
}

/// Squares a pawn of `color` ON `sq` attacks.
pub fn pawn_attacks(color: Color, sq: Square) -> (r: Bitboard)
    ensures
        forall|t: int| #[trigger] r.has(t) == pawn_step(color, sq@, t),
{
    let s = sq.index() as u64;
    let b = 1u64 << s;
    let na = !0x0101010101010101u64;
    let nh = !0x8080808080808080u64;
    let white = color == Color::White;
    let v = if white {
        ((b << 9u64) & na) | ((b << 7u64) & nh)
    } else {
        ((b >> 7u64) & na) | ((b >> 9u64) & nh)
    };
    proof {
        lemma_pawn_masks(s);
        assert(white ==> v == white_pawn_mask(b));
        assert(!white ==> v == black_pawn_mask(b));
        assert forall|t: int| #[trigger] bit(v, t) == pawn_step(color, sq@, t) by {
            if 0 <= t < 64 {
                let tt = t as u64;
                assert(pawn_bits(white, s, tt) == pawn_step(color, sq@, t));
                if white {
                    assert(((white_pawn_mask(1u64 << s) >> tt) & 1u64) == 1u64 <==> pawn_bits(true, s, tt));
                } else {
                    assert(((black_pawn_mask(1u64 << s) >> tt) & 1u64) == 1u64 <==> pawn_bits(false, s, tt));
                }
            }
        }
    }
    Bitboard(v)
}

// ---- sliders ----

pub proof fn lemma_mul_unit(k: int, d: int)
    requires
        unit(d),
    ensures
        d == 1 ==> k * d == k,
        d == 0 ==> k * d == 0,
        d == -1 ==> k * d == -k,
{
    assert(d == 1 ==> k * d == k) by (nonlinear_arith);
    assert(d == 0 ==> k * d == 0) by (nonlinear_arith);
    assert(d == -1 ==> k * d == -k) by (nonlinear_arith);
}

/// Positions along a ray are on the board over an interval of steps.
pub proof fn lemma_ray_convex(s: int, df: int, dr: int, a: int, b: int, c: int)
    requires
        0 <= s < 64,
        unit(df),
        unit(dr),
        a <= b <= c,
        ray_on_board(s, df, dr, a),
        ray_on_board(s, df, dr, c),
    ensures
        ray_on_board(s, df, dr, b),
{
    lemma_mul_unit(a, df);
    lemma_mul_unit(b, df);
    lemma_mul_unit(c, df);
    lemma_mul_unit(a, dr);
    lemma_mul_unit(b, dr);
    lemma_mul_unit(c, dr);
}

pub proof fn lemma_ray_origin(s: int, df: int, dr: int)
    requires
        0 <= s < 64,
    ensures
        ray_on_board(s, df, dr, 0),
        ray_sq(s, df, dr, 0) == s,
{
    assert(0 * df == 0);
    assert(0 * dr == 0);
}

/// A ray leaves the board within eight steps.
pub proof fn lemma_ray_short(s: int, df: int, dr: int, k: int)
    requires
        0 <= s < 64,
        unit(df),
        unit(dr),
        df != 0 || dr != 0,
        k >= 8,
    ensures
        !ray_on_board(s, df, dr, k),
{
    lemma_mul_unit(k, df);
    lemma_mul_unit(k, dr);
}

/// Adds to `attacks` every square a slider on `sq` reaches along `(df, dr)`.
fn walk_ray(sq: Square, occ: Bitboard, df: i8, dr: i8, attacks: &mut Bitboard)
    requires
        unit(df as int),
        unit(dr as int),
        df != 0 || dr != 0,
    ensures
        forall|t: int| #[trigger]
            final(attacks).has(t) == (old(attacks).has(t) || ray_hit(
                sq@,
                t,
                df as int,
                dr as int,
                occ.0,
            )),
{
    let ghost s = sq@;
    let ghost dfi = df as int;
    let ghost dri = dr as int;
    let f0 = sq.file() as i8;
    let r0 = sq.rank() as i8;
    proof {
        lemma_mul_unit(1, dfi);
        lemma_mul_unit(1, dri);
    }
    let mut f: i8 = f0 + df;
    let mut r: i8 = r0 + dr;
    let ghost mut k: int = 1;
    let mut blocked = false;
    while !blocked && 0 <= f && f < 8 && 0 <= r && r < 8
        invariant
            0 <= s < 64,
            s == sq@,
            dfi == df,
            dri == dr,
            unit(dfi),
            unit(dri),
            df != 0 || dr != 0,
            f0 == file_of(s),
            r0 == rank_of(s),
            1 <= k <= 9,
            f == ray_file(s, dfi, k),
            r == ray_rank(s, dri, k),
            forall|j: int| 1 <= j < k ==> ray_on_board(s, dfi, dri, j),
            !blocked ==> ray_clear(s, dfi, dri, k, occ.0),
            blocked ==> k >= 2 && ray_clear(s, dfi, dri, k - 1, occ.0) && bit(
                occ.0,
                ray_sq(s, dfi, dri, k - 1),
            ),
            !blocked ==> k <= 8,
            forall|t: int| #[trigger]
                attacks.has(t) == (old(attacks).has(t) || exists|j: int|
                    1 <= j < k && ray_on_board(s, dfi, dri, j) && #[trigger] ray_sq(s, dfi, dri, j)
                        == t),
        decreases 9 - k,
    {
        proof {
            lemma_mul_unit(k, dfi);
            lemma_mul_unit(k, dri);
            lemma_mul_unit(k + 1, dfi);
            lemma_mul_unit(k + 1, dri);
            if k >= 8 {
                lemma_ray_short(s, dfi, dri, k);
            }
        }
        let t = Square::from_fr(f as u8, r as u8);
        let ghost old_att = *attacks;
        attacks.set(t);
        proof {
            assert(t@ == ray_sq(s, dfi, dri, k));
            assert forall|u: int| #[trigger]
                attacks.has(u) == (old(attacks).has(u) || exists|j: int|
                    1 <= j < k + 1 && ray_on_board(s, dfi, dri, j) && #[trigger] ray_sq(
                        s,
                        dfi,
                        dri,
                        j,
                    ) == u) by {
                if u == t@ {
                    assert(ray_sq(s, dfi, dri, k) == u);
                } else if attacks.has(u) && !old(attacks).has(u) {
                    let j = choose|j: int|
                        1 <= j < k && ray_on_board(s, dfi, dri, j) && #[trigger] ray_sq(
                            s,
                            dfi,
                            dri,
                            j,
                        ) == u;
                    assert(1 <= j < k + 1);
                }
            }
            assert forall|j: int| 1 <= j < k + 1 implies !bit(occ.0, #[trigger] ray_sq(s, dfi, dri, j))
                || j == k by {}
        }
        if occ.contains(t) {
            blocked = true;
        }
        f = f + df;
        r = r + dr;
        proof {
            k = k + 1;
            assert(forall|j: int| 1 <= j < k ==> ray_on_board(s, dfi, dri, j));
        }
    }
    proof {
        assert forall|t: int| #[trigger]
            attacks.has(t) == (old(attacks).has(t) || ray_hit(s, t, dfi, dri, occ.0)) by {
            let inner = exists|j: int|
                1 <= j < k && ray_on_board(s, dfi, dri, j) && #[trigger] ray_sq(s, dfi, dri, j)
                    == t;
            if inner {
                let j = choose|j: int|
                    1 <= j < k && ray_on_board(s, dfi, dri, j) && #[trigger] ray_sq(s, dfi, dri, j)
                        == t;
                assert(ray_clear(s, dfi, dri, j, occ.0));
                assert(ray_hit(s, t, dfi, dri, occ.0));
            }
            if ray_hit(s, t, dfi, dri, occ.0) {
                let kk = choose|kk: int|
                    1 <= kk <= 8 && ray_on_board(s, dfi, dri, kk) && #[trigger] ray_sq(
                        s,
                        dfi,
                        dri,
                        kk,
                    ) == t && ray_clear(s, dfi, dri, kk, occ.0);
                if kk >= k {
                    if blocked {
                        assert(!bit(occ.0, ray_sq(s, dfi, dri, k - 1)));
                    } else {
                        lemma_ray_origin(s, dfi, dri);
                        lemma_ray_convex(s, dfi, dri, 0, k, kk);
                        lemma_mul_unit(k, dfi);
                        lemma_mul_unit(k, dri);
                    }
                }
                assert(inner);
            }
        }
    }
}

/// Reference slider attack generation by ray walking: for each of the four
/// directions, every square up to and including the first occupied one.
pub fn sliding_attacks_slow(sq: Square, occ: Bitboard, deltas: &[(i8, i8); 4]) -> (r: Bitboard)
    requires
        valid_deltas(deltas@),
    ensures
        forall|t: int| #[trigger] r.has(t) == rays_hit(sq@, t, deltas@, 4, occ.0),
{
    let mut attacks = Bitboard::empty();
    let mut d: usize = 0;
    while d < 4
        invariant
            d <= 4,
            valid_deltas(deltas@),
            forall|t: int| #[trigger] attacks.has(t) == rays_hit(sq@, t, deltas@, d as int, occ.0),
        decreases 4 - d,
    {
        let (df, dr) = deltas[d];
        proof {
            assert(deltas@[d as int] == (df, dr));
        }
        let ghost before = attacks;
        walk_ray(sq, occ, df, dr, &mut attacks);
        proof {
            assert forall|t: int| #[trigger]
                attacks.has(t) == rays_hit(sq@, t, deltas@, d + 1, occ.0) by {
                if rays_hit(sq@, t, deltas@, d + 1, occ.0) && !ray_hit(
                    sq@,
                    t,
                    df as int,
                    dr as int,
                    occ.0,
                ) {
                    let i = choose|i: int|
                        0 <= i < d + 1 && #[trigger] ray_hit(
                            sq@,
                            t,
                            deltas@[i].0 as int,
                            deltas@[i].1 as int,
                            occ.0,
                        );
                    assert(i < d);
                }
            }
        }
        d += 1;
    }
    attacks
}

/// Relevant-occupancy mask: ray squares whose occupancy can change the attack
/// set — i.e. every ray square except the final edge square of each ray.
pub fn relevant_mask(sq: Square, deltas: &[(i8, i8); 4]) -> (r: Bitboard)
    requires
        valid_deltas(deltas@),
    ensures
        forall|t: int| #[trigger] r.has(t) == rays_inner(sq@, t, deltas@, 4),
{
    let mut mask = Bitboard::empty();
    let mut d: usize = 0;
    while d < 4
        invariant
            d <= 4,
            valid_deltas(deltas@),
            forall|t: int| #[trigger] mask.has(t) == rays_inner(sq@, t, deltas@, d as int),
        decreases 4 - d,
    {
        let (df, dr) = deltas[d];
        proof {
            assert(deltas@[d as int] == (df, dr));
        }
        walk_inner(sq, df, dr, &mut mask);
        proof {
            assert forall|t: int| #[trigger] mask.has(t) == rays_inner(sq@, t, deltas@, d + 1) by {
                if rays_inner(sq@, t, deltas@, d + 1) && !ray_inner(sq@, t, df as int, dr as int) {
                    let i = choose|i: int|
                        0 <= i < d + 1 && #[trigger] ray_inner(
                            sq@,
                            t,
                            deltas@[i].0 as int,
                            deltas@[i].1 as int,
                        );
                    assert(i < d);
                }
            }
        }
        d += 1;
    }
    mask
}

/// Adds to `mask` the squares of the ray from `sq` along `(df, dr)` that are
/// followed by another on-board square.
fn walk_inner(sq: Square, df: i8, dr: i8, mask: &mut Bitboard)
    requires
        unit(df as int),
        unit(dr as int),
        df != 0 || dr != 0,
    ensures
        forall|t: int| #[trigger]
            final(mask).has(t) == (old(mask).has(t) || ray_inner(sq@, t, df as int, dr as int)),
{
    let ghost s = sq@;
    let ghost dfi = df as int;
    let ghost dri = dr as int;
    let f0 = sq.file() as i8;
    let r0 = sq.rank() as i8;
    proof {
        lemma_mul_unit(1, dfi);
        lemma_mul_unit(1, dri);
        lemma_ray_origin(s, dfi, dri);
    }
    let mut f: i8 = f0 + df;
    let mut r: i8 = r0 + dr;
    let ghost mut k: int = 1;
    while 0 <= f + df && f + df < 8 && 0 <= r + dr && r + dr < 8
        invariant
            0 <= s < 64,
            s == sq@,
            dfi == df,
            dri == dr,
            unit(dfi),
            unit(dri),
            df != 0 || dr != 0,
            1 <= k <= 8,
            -1 <= f <= 8,
            -1 <= r <= 8,
            f == ray_file(s, dfi, k),
            r == ray_rank(s, dri, k),
            ray_on_board(s, dfi, dri, 0),
            forall|j: int| 1 <= j < k ==> #[trigger] ray_on_board(s, dfi, dri, j) && ray_on_board(s, dfi, dri, j + 1),
            forall|t: int| #[trigger]
                mask.has(t) == (old(mask).has(t) || exists|j: int|
                    1 <= j < k && ray_on_board(s, dfi, dri, j) && ray_on_board(s, dfi, dri, j + 1)
                        && #[trigger] ray_sq(s, dfi, dri, j) == t),
        decreases 8 - k,
    {
        proof {
            lemma_mul_unit(k, dfi);
            lemma_mul_unit(k, dri);
            lemma_mul_unit(k + 1, dfi);
            lemma_mul_unit(k + 1, dri);
            lemma_ray_convex(s, dfi, dri, 0, k, k + 1);
            if k + 1 >= 8 {
                lemma_ray_short(s, dfi, dri, k + 1);
            }
        }
        let t = Square::from_fr(f as u8, r as u8);
        mask.set(t);
        proof {
            assert(t@ == ray_sq(s, dfi, dri, k));
            assert forall|u: int| #[trigger]
                mask.has(u) == (old(mask).has(u) || exists|j: int|
                    1 <= j < k + 1 && ray_on_board(s, dfi, dri, j) && ray_on_board(s, dfi, dri, j + 1)
                        && #[trigger] ray_sq(s, dfi, dri, j) == u) by {
                if u == t@ {
                    assert(ray_sq(s, dfi, dri, k) == u);
                } else if mask.has(u) && !old(mask).has(u) {
                    let j = choose|j: int|
                        1 <= j < k && ray_on_board(s, dfi, dri, j) && ray_on_board(s, dfi, dri, j
                            + 1) && #[trigger] ray_sq(s, dfi, dri, j) == u;
                    assert(1 <= j < k + 1);
                }
            }
        }
        f = f + df;
        r = r + dr;
        proof {
            k = k + 1;
        }
    }
    proof {
        lemma_mul_unit(k, dfi);
        lemma_mul_unit(k, dri);
        lemma_mul_unit(k + 1, dfi);
        lemma_mul_unit(k + 1, dri);
        assert(!ray_on_board(s, dfi, dri, k + 1));
        assert forall|t: int| #[trigger]
            mask.has(t) == (old(mask).has(t) || ray_inner(s, t, dfi, dri)) by {
            if ray_inner(s, t, dfi, dri) {
                let kk = choose|kk: int|
                    1 <= kk <= 8 && ray_on_board(s, dfi, dri, kk) && ray_on_board(s, dfi, dri, kk + 1)
                        && #[trigger] ray_sq(s, dfi, dri, kk) == t;
                if kk >= k {
                    lemma_ray_convex(s, dfi, dri, 0, k + 1, kk + 1);
                }
                assert(ray_sq(s, dfi, dri, kk) == t);
            }
        }
    }
}

pub fn rook_deltas() -> (d: [(i8, i8); 4])
    ensures
        d@ == rook_dirs(),
        valid_deltas(d@),
{
    let d = [(0i8, 1i8), (0i8, -1i8), (1i8, 0i8), (-1i8, 0i8)];
    proof {
        assert(d@ =~= rook_dirs());
    }
    d
}

pub fn bishop_deltas() -> (d: [(i8, i8); 4])
    ensures
        d@ == bishop_dirs(),
        valid_deltas(d@),
{
    let d = [(1i8, 1i8), (1i8, -1i8), (-1i8, 1i8), (-1i8, -1i8)];
    proof {
        assert(d@ =~= bishop_dirs());
    }
    d
}

/// Squares a rook on `sq` attacks over occupancy `occ`.
pub fn rook_attacks(sq: Square, occ: Bitboard) -> (r: Bitboard)
    ensures
        forall|t: int| #[trigger] r.has(t) == rook_hit(sq@, t, occ.0),
{
    let mut a = Bitboard::empty();
    walk_ray(sq, occ, 0, 1, &mut a);
    walk_ray(sq, occ, 0, -1, &mut a);
    walk_ray(sq, occ, 1, 0, &mut a);
    walk_ray(sq, occ, -1, 0, &mut a);
    a
}

/// Squares a bishop on `sq` attacks over occupancy `occ`.
pub fn bishop_attacks(sq: Square, occ: Bitboard) -> (r: Bitboard)
    ensures
        forall|t: int| #[trigger] r.has(t) == bishop_hit(sq@, t, occ.0),
{
    let mut a = Bitboard::empty();
    walk_ray(sq, occ, 1, 1, &mut a);
    walk_ray(sq, occ, 1, -1, &mut a);
    walk_ray(sq, occ, -1, 1, &mut a);
    walk_ray(sq, occ, -1, -1, &mut a);
    a
}

/// Squares a queen on `sq` attacks over occupancy `occ`.
pub fn queen_attacks(sq: Square, occ: Bitboard) -> (r: Bitboard)
    ensures
        forall|t: int| #[trigger] r.has(t) == (rook_hit(sq@, t, occ.0) || bishop_hit(sq@, t, occ.0)),
{
    let a = rook_attacks(sq, occ);
    let b = bishop_attacks(sq, occ);
    a.or(b)
}


// ---- attack symmetry ----

/// Leaper moves are symmetric; a pawn's capture is mirrored by a pawn of
/// the other color.
pub proof fn lemma_leaper_symmetry(s: int, t: int)
    ensures
        knight_step(s, t) == knight_step(t, s),
        king_step(s, t) == king_step(t, s),
        pawn_step(Color::White, s, t) == pawn_step(Color::Black, t, s),
        pawn_step(Color::Black, s, t) == pawn_step(Color::White, t, s),
{
}

/// Walking a ray backwards from the square it reached leads back to its
/// origin over the same squares.
pub proof fn lemma_ray_reverse(s: int, t: int, df: int, dr: int, occ: u64)
    requires
        0 <= s < 64,
        unit(df),
        unit(dr),
        ray_hit(s, t, df, dr, occ),
    ensures
        ray_hit(t, s, -df, -dr, occ),
{
    let k = choose|k: int|
        1 <= k <= 8 && ray_on_board(s, df, dr, k) && #[trigger] ray_sq(s, df, dr, k) == t
            && ray_clear(s, df, dr, k, occ);
    lemma_mul_unit(k, df);
    lemma_mul_unit(k, dr);
    lemma_mul_unit(k, -df);
    lemma_mul_unit(k, -dr);
    lemma_square_coords(ray_file(s, df, k), ray_rank(s, dr, k));
    lemma_coords_square(s);
    assert(ray_file(t, -df, k) == file_of(s));
    assert(ray_rank(t, -dr, k) == rank_of(s));
    assert(ray_sq(t, -df, -dr, k) == s);
    assert forall|j: int| 1 <= j < k implies !bit(occ, #[trigger] ray_sq(t, -df, -dr, j)) by {
        lemma_mul_unit(j, -df);
        lemma_mul_unit(j, -dr);
        lemma_mul_unit(k - j, df);
        lemma_mul_unit(k - j, dr);
        assert(ray_sq(t, -df, -dr, j) == ray_sq(s, df, dr, k - j));
        assert(!bit(occ, ray_sq(s, df, dr, k - j)));
    }
    assert(ray_clear(t, -df, -dr, k, occ));
}

/// Rooks and bishops attack symmetrically.
pub proof fn lemma_slider_symmetry(s: int, t: int, occ: u64)
    requires
        0 <= s < 64,
        0 <= t < 64,
    ensures
        rook_hit(s, t, occ) == rook_hit(t, s, occ),
        bishop_hit(s, t, occ) == bishop_hit(t, s, occ),
{
    if ray_hit(s, t, 0, 1, occ) { lemma_ray_reverse(s, t, 0, 1, occ); }
    if ray_hit(s, t, 0, -1, occ) { lemma_ray_reverse(s, t, 0, -1, occ); }
    if ray_hit(s, t, 1, 0, occ) { lemma_ray_reverse(s, t, 1, 0, occ); }
    if ray_hit(s, t, -1, 0, occ) { lemma_ray_reverse(s, t, -1, 0, occ); }
    if ray_hit(t, s, 0, 1, occ) { lemma_ray_reverse(t, s, 0, 1, occ); }
    if ray_hit(t, s, 0, -1, occ) { lemma_ray_reverse(t, s, 0, -1, occ); }
    if ray_hit(t, s, 1, 0, occ) { lemma_ray_reverse(t, s, 1, 0, occ); }
    if ray_hit(t, s, -1, 0, occ) { lemma_ray_reverse(t, s, -1, 0, occ); }
    if ray_hit(s, t, 1, 1, occ) { lemma_ray_reverse(s, t, 1, 1, occ); }
    if ray_hit(s, t, 1, -1, occ) { lemma_ray_reverse(s, t, 1, -1, occ); }
    if ray_hit(s, t, -1, 1, occ) { lemma_ray_reverse(s, t, -1, 1, occ); }
    if ray_hit(s, t, -1, -1, occ) { lemma_ray_reverse(s, t, -1, -1, occ); }
    if ray_hit(t, s, 1, 1, occ) { lemma_ray_reverse(t, s, 1, 1, occ); }
    if ray_hit(t, s, 1, -1, occ) { lemma_ray_reverse(t, s, 1, -1, occ); }
    if ray_hit(t, s, -1, 1, occ) { lemma_ray_reverse(t, s, -1, 1, occ); }
    if ray_hit(t, s, -1, -1, occ) { lemma_ray_reverse(t, s, -1, -1, occ); }
}

/// A slider never attacks its own square.
pub proof fn lemma_ray_not_self(s: int, t: int, df: int, dr: int, occ: u64)
    requires
        0 <= s < 64,
        unit(df),
        unit(dr),
        df != 0 || dr != 0,
        ray_hit(s, t, df, dr, occ),
    ensures
        s != t,
{
    let k = choose|k: int|
        1 <= k <= 8 && ray_on_board(s, df, dr, k) && #[trigger] ray_sq(s, df, dr, k) == t
            && ray_clear(s, df, dr, k, occ);
    lemma_mul_unit(k, df);
    lemma_mul_unit(k, dr);
    lemma_square_coords(ray_file(s, df, k), ray_rank(s, dr, k));
    lemma_coords_square(s);
}

/// Rooks and bishops never attack their own square.
pub proof fn lemma_slider_not_self(s: int, t: int, occ: u64)
    requires
        0 <= s < 64,
        rook_hit(s, t, occ) || bishop_hit(s, t, occ),
    ensures
        s != t,
{
    if ray_hit(s, t, 0, 1, occ) { lemma_ray_not_self(s, t, 0, 1, occ); }
    if ray_hit(s, t, 0, -1, occ) { lemma_ray_not_self(s, t, 0, -1, occ); }
    if ray_hit(s, t, 1, 0, occ) { lemma_ray_not_self(s, t, 1, 0, occ); }
    if ray_hit(s, t, -1, 0, occ) { lemma_ray_not_self(s, t, -1, 0, occ); }
    if ray_hit(s, t, 1, 1, occ) { lemma_ray_not_self(s, t, 1, 1, occ); }
    if ray_hit(s, t, 1, -1, occ) { lemma_ray_not_self(s, t, 1, -1, occ); }
    if ray_hit(s, t, -1, 1, occ) { lemma_ray_not_self(s, t, -1, 1, occ); }
    if ray_hit(s, t, -1, -1, occ) { lemma_ray_not_self(s, t, -1, -1, occ); }
}

} // verus!
