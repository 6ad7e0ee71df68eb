//! Standard algebraic notation (SAN) of moves: the parts of a SAN text and
//! the legal move they name.
use vstd::prelude::*;

use crate::board::makemove::legal_after;
use crate::board::movegen::{
    consistent, generate_moves, lemma_consistent_pawns, lemma_pseudo_legal_move_ok, pseudo_legal,
    pseudo_legal_moves,
};
use crate::board::moves::promo_type_of_flag;
use crate::board::position::{state_ok, PosState};
use crate::board::types::{file_of, rank_of, type_index};
use crate::board::{Move, MoveList, PieceType, Position};

verus! {

/// What a SAN text says of its move: the moving piece type (by index),
/// the destination, the disambiguating file and rank (-1 when absent), the
/// promotion piece, and castling (0 none, 1 king side, 2 queen side).
pub struct SanParts {
    pub piece: u8,
    pub to: u8,
    pub file: i8,
    pub rank: i8,
    pub promo: Option<PieceType>,
    pub castle: u8,
}

pub open spec fn is_file_char(c: char) -> bool {
    'a' <= c <= 'h'
}

pub open spec fn is_rank_char(c: char) -> bool {
    '1' <= c <= '8'
}

/// Piece letters N, B, R, Q, K as type indices (0 for any other char).
pub open spec fn piece_of_letter(c: char) -> int {
    if c == 'N' {
        1
    } else if c == 'B' {
        2
    } else if c == 'R' {
        3
    } else if c == 'Q' {
        4
    } else if c == 'K' {
        5
    } else {
        0
    }
}

pub open spec fn promo_of_letter(c: char) -> Option<PieceType> {
    if c == 'N' {
        Some(PieceType::Knight)
    } else if c == 'B' {
        Some(PieceType::Bishop)
    } else if c == 'R' {
        Some(PieceType::Rook)
    } else if c == 'Q' {
        Some(PieceType::Queen)
    } else {
        None
    }
}

/// The text without its promotion suffix ("=Q", or "Q" right after the
/// destination rank), and the promotion piece.
pub open spec fn split_promo(t: Seq<char>) -> (Seq<char>, Option<PieceType>) {
    let n = t.len() as int;
    if n >= 2 && t[n - 2] == '=' && promo_of_letter(t[n - 1]) is Some {
        (t.take(n - 2), promo_of_letter(t[n - 1]))
    } else if n >= 3 && is_rank_char(t[n - 2]) && promo_of_letter(t[n - 1]) is Some {
        (t.take(n - 1), promo_of_letter(t[n - 1]))
    } else {
        (t, None)
    }
}

/// The parts of a non-castling SAN body `r` (piece letter removed), or
/// `None`: an optional file and/or rank, an optional `x`, the destination.
pub open spec fn square_parts(r: Seq<char>) -> Option<(int, int, int)> {
    let n = r.len() as int;
    if n < 2 || !is_file_char(r[n - 2]) || !is_rank_char(r[n - 1]) {
        None
    } else {
        let to = (r[n - 2] as int - 'a' as int) + 8 * (r[n - 1] as int - '1' as int);
        let mid0 = r.take(n - 2);
        let mid = if mid0.len() > 0 && mid0.last() == 'x' {
            mid0.drop_last()
        } else {
            mid0
        };
        if mid.len() == 0 {
            Some((to, -1, -1))
        } else if mid.len() == 1 && is_file_char(mid[0]) {
            Some((to, mid[0] as int - 'a' as int, -1))
        } else if mid.len() == 1 && is_rank_char(mid[0]) {
            Some((to, -1, mid[0] as int - '1' as int))
        } else if mid.len() == 2 && is_file_char(mid[0]) && is_rank_char(mid[1]) {
            Some((to, mid[0] as int - 'a' as int, mid[1] as int - '1' as int))
        } else {
            None
        }
    }
}

/// The parts of the SAN text `t` (check and annotation glyphs already
/// removed), or `None` when `t` is not SAN.
pub open spec fn san_parts(t: Seq<char>) -> Option<SanParts> {
    if t == seq!['O', '-', 'O'] || t == seq!['0', '-', '0'] {
        Some(SanParts { piece: 5, to: 0, file: -1i8, rank: -1i8, promo: None, castle: 1 })
    } else if t == seq!['O', '-', 'O', '-', 'O'] || t == seq!['0', '-', '0', '-', '0'] {
        Some(SanParts { piece: 5, to: 0, file: -1i8, rank: -1i8, promo: None, castle: 2 })
    } else {
        let (body, promo) = split_promo(t);
        let piece = if body.len() > 0 { piece_of_letter(body[0]) } else { 0 };
        let rest = if piece > 0 { body.skip(1) } else { body };
        match square_parts(rest) {
            Some((to, f, r)) => if promo is Some && piece != 0 {
                None
            } else {
                Some(
                    SanParts {
                        piece: piece as u8,
                        to: to as u8,
                        file: f as i8,
                        rank: r as i8,
                        promo,
                        castle: 0,
                    },
                )
            },
            None => None,
        }
    }
}

/// Whether move `m` of `s` fits the parts `p`.
pub open spec fn san_matches(s: PosState, p: SanParts, m: Move) -> bool {
    if p.castle == 1 {
        m.spec_flag() == 2
    } else if p.castle == 2 {
        m.spec_flag() == 3
    } else {
        &&& s.board[m.spec_from()] matches Some(pc) && type_index(pc.spec_type()) == p.piece
        &&& m.spec_flag() != 2 && m.spec_flag() != 3
        &&& m.spec_to() == p.to
        &&& p.file >= 0 ==> file_of(m.spec_from()) == p.file
        &&& p.rank >= 0 ==> rank_of(m.spec_from()) == p.rank
        &&& m.spec_is_promotion() <==> p.promo is Some
        &&& p.promo matches Some(pt) ==> promo_type_of_flag(m.spec_flag()) == pt
    }
}

/// The capture marker names no different move: for any text `pre` not
/// itself ending in `x`, `pre x f r` has the same parts as `pre f r`.
pub proof fn lemma_capture_marker(pre: Seq<char>, f: char, r: char)
    requires
        is_file_char(f),
        is_rank_char(r),
        pre.len() == 0 || pre.last() != 'x',
    ensures
        san_parts(pre + seq!['x', f, r]) == san_parts(pre + seq![f, r]),
{
    let t1 = pre + seq!['x', f, r];
    let t2 = pre + seq![f, r];
    let n1 = t1.len() as int;
    let n2 = t2.len() as int;
    assert(t1[n1 - 1] == r && t1[n1 - 2] == f && t2[n2 - 1] == r && t2[n2 - 2] == f);
    assert(t1 != seq!['O', '-', 'O'] && t1 != seq!['0', '-', '0']) by {
        if t1 =~= seq!['O', '-', 'O'] || t1 =~= seq!['0', '-', '0'] {
            assert(t1[n1 - 1] == seq!['O', '-', 'O'][2] || t1[n1 - 1] == seq!['0', '-', '0'][2]);
        }
    }
    assert(t1 != seq!['O', '-', 'O', '-', 'O'] && t1 != seq!['0', '-', '0', '-', '0']) by {
        if t1 =~= seq!['O', '-', 'O', '-', 'O'] || t1 =~= seq!['0', '-', '0', '-', '0'] {
            assert(t1[n1 - 1] == seq!['O', '-', 'O', '-', 'O'][4] || t1[n1 - 1] == seq!['0', '-', '0', '-', '0'][4]);
        }
    }
    assert(t2 != seq!['O', '-', 'O'] && t2 != seq!['0', '-', '0']) by {
        if t2 =~= seq!['O', '-', 'O'] || t2 =~= seq!['0', '-', '0'] {
            assert(t2[n2 - 1] == seq!['O', '-', 'O'][2] || t2[n2 - 1] == seq!['0', '-', '0'][2]);
        }
    }
    assert(t2 != seq!['O', '-', 'O', '-', 'O'] && t2 != seq!['0', '-', '0', '-', '0']) by {
        if t2 =~= seq!['O', '-', 'O', '-', 'O'] || t2 =~= seq!['0', '-', '0', '-', '0'] {
            assert(t2[n2 - 1] == seq!['O', '-', 'O', '-', 'O'][4] || t2[n2 - 1] == seq!['0', '-', '0', '-', '0'][4]);
        }
    }
    // no promotion suffix: the text ends in a file and a rank
    assert(split_promo(t1) == (t1, Option::<PieceType>::None));
    assert(split_promo(t2) == (t2, Option::<PieceType>::None));
    let piece1 = if t1.len() > 0 { piece_of_letter(t1[0]) } else { 0 };
    let piece2 = if t2.len() > 0 { piece_of_letter(t2[0]) } else { 0 };
    if pre.len() == 0 {
        assert(t1[0] == 'x' && t2[0] == f);
        assert(piece1 == 0 && piece2 == 0);
        let r1 = t1;
        let r2 = t2;
        assert(r1.take(1) =~= seq!['x']);
        assert(r1.take(1).drop_last() =~= r2.take(0));
    } else {
        assert(t1[0] == pre[0] && t2[0] == pre[0]);
        assert(piece1 == piece2);
        let r1 = if piece1 > 0 { t1.skip(1) } else { t1 };
        let r2 = if piece2 > 0 { t2.skip(1) } else { t2 };
        let m = r2.len() as int;
        assert(r1.len() == m + 1);
        assert(r1[m] == r && r1[m - 1] == f && r2[m - 1] == r && r2[m - 2] == f);
        assert(r1.take(m - 1).len() > 0 && r1.take(m - 1).last() == 'x');
        assert(r1.take(m - 1).drop_last() =~= r2.take(m - 2));
        let mid2 = r2.take(m - 2);
        if mid2.len() > 0 {
            if piece1 > 0 {
                assert(mid2.last() == pre.last());
            } else {
                assert(mid2.last() == pre.last());
            }
        }
    }
}

/// A capture in SAN names its piece and destination: `L x f r` is the move
/// of a piece of letter `L` to the square on file `f`, rank `r`, and
/// `g x f r` the pawn move from file `g` to it.
pub proof fn lemma_capture_parts(l: char, f: char, r: char)
    requires
        is_file_char(f),
        is_rank_char(r),
        piece_of_letter(l) > 0 || is_file_char(l),
    ensures
        san_parts(seq![l, 'x', f, r]) == Some(
            SanParts {
                piece: piece_of_letter(l) as u8,
                to: ((f as int - 'a' as int) + 8 * (r as int - '1' as int)) as u8,
                file: if piece_of_letter(l) > 0 { -1i8 } else { (l as int - 'a' as int) as i8 },
                rank: -1i8,
                promo: None,
                castle: 0,
            },
        ),
{
    let t = seq![l, 'x', f, r];
    assert(t != seq!['O', '-', 'O'] && t != seq!['0', '-', '0']);
    assert(t != seq!['O', '-', 'O', '-', 'O'] && t != seq!['0', '-', '0', '-', '0']);
    assert(split_promo(t) == (t, Option::<PieceType>::None));
    if piece_of_letter(l) > 0 {
        let rest = t.skip(1);
        assert(rest =~= seq!['x', f, r]);
        assert(rest.take(1) =~= seq!['x']);
        assert(rest.take(1).drop_last() =~= Seq::<char>::empty());
    } else {
        assert(piece_of_letter(l) == 0);
        assert(t.take(2) =~= seq![l, 'x']);
        assert(t.take(2).drop_last() =~= seq![l]);
    }
}

/// The move a SAN capture names: a non-castling, non-promoting move of a
/// piece of letter `L` (or of a pawn from file `g`) to the square on file
/// `f`, rank `r` fits the parts of `L x f r` (or `g x f r`).
pub proof fn lemma_capture_names_move(s: PosState, m: Move, l: char, f: char, r: char)
    requires
        is_file_char(f),
        is_rank_char(r),
        piece_of_letter(l) > 0 || is_file_char(l),
        s.board[m.spec_from()] matches Some(pc) && type_index(pc.spec_type()) == piece_of_letter(l),
        piece_of_letter(l) == 0 ==> file_of(m.spec_from()) == l as int - 'a' as int,
        m.spec_to() == (f as int - 'a' as int) + 8 * (r as int - '1' as int),
        m.spec_flag() != 2 && m.spec_flag() != 3,
        !m.spec_is_promotion(),
    ensures
        san_parts(seq![l, 'x', f, r]) matches Some(p) && san_matches(s, p, m),
{
    lemma_capture_parts(l, f, r);
}

fn is_file(c: char) -> (r: bool)
    ensures
        r == is_file_char(c),
{
    'a' <= c && c <= 'h'
}

fn is_rank(c: char) -> (r: bool)
    ensures
        r == is_rank_char(c),
{
    '1' <= c && c <= '8'
}

fn promo_letter_of(c: char) -> (r: Option<PieceType>)
    ensures
        r == promo_of_letter(c),
{
    if c == 'N' {
        Some(PieceType::Knight)
    } else if c == 'B' {
        Some(PieceType::Bishop)
    } else if c == 'R' {
        Some(PieceType::Rook)
    } else if c == 'Q' {
        Some(PieceType::Queen)
    } else {
        None
    }
}

fn same_chars(t: &Vec<char>, lit: &str) -> (r: bool)
    ensures
        r == (t@ == lit@),
{
    let l = crate::text::chars_of(lit);
    if t.len() != l.len() {
        return false;
    }
    let mut i: usize = 0;
    while i < t.len()
        invariant
            i <= t@.len(),
            t@.len() == l@.len(),
            l@ == lit@,
            forall|k: int| 0 <= k < i ==> t@[k] == l@[k],
        decreases t@.len() - i,
    {
        if t[i] != l[i] {
            return false;
        }
        i += 1;
    }
    proof {
        assert(t@ =~= l@);
    }
    true
}

/// The parts of a SAN text.
pub fn parse_san(t: &Vec<char>) -> (r: Option<SanParts>)
    ensures
        r == san_parts(t@),
{
    proof {
        reveal_strlit("O-O");
        reveal_strlit("0-0");
        reveal_strlit("O-O-O");
        reveal_strlit("0-0-0");
        assert("O-O"@ =~= seq!['O', '-', 'O']);
        assert("0-0"@ =~= seq!['0', '-', '0']);
        assert("O-O-O"@ =~= seq!['O', '-', 'O', '-', 'O']);
        assert("0-0-0"@ =~= seq!['0', '-', '0', '-', '0']);
    }
    if same_chars(t, "O-O") || same_chars(t, "0-0") {
        return Some(SanParts { piece: 5, to: 0, file: -1, rank: -1, promo: None, castle: 1 });
    }
    if same_chars(t, "O-O-O") || same_chars(t, "0-0-0") {
        return Some(SanParts { piece: 5, to: 0, file: -1, rank: -1, promo: None, castle: 2 });
    }
    let n = t.len();
    // promotion suffix
    let mut end = n;
    let mut promo: Option<PieceType> = None;
    if n >= 2 && t[n - 2] == '=' && promo_letter_of(t[n - 1]).is_some() {
        end = n - 2;
        promo = promo_letter_of(t[n - 1]);
    } else if n >= 3 && is_rank(t[n - 2]) && promo_letter_of(t[n - 1]).is_some() {
        end = n - 1;
        promo = promo_letter_of(t[n - 1]);
    }
    let ghost body = t@.take(end as int);
    proof {
        assert(split_promo(t@) == (body, promo));
    }
    // piece letter
    let mut start: usize = 0;
    let mut piece: u8 = 0;
    if end > 0 {
        let c = t[0];
        piece = if c == 'N' {
            1
        } else if c == 'B' {
            2
        } else if c == 'R' {
            3
        } else if c == 'Q' {
            4
        } else if c == 'K' {
            5
        } else {
            0
        };
        if piece > 0 {
            start = 1;
        }
    }
    let ghost rest = t@.subrange(start as int, end as int);
    proof {
        if piece > 0 {
            assert(rest =~= body.skip(1));
        } else {
            assert(rest =~= body);
        }
    }
    // destination
    if end < start + 2 || !is_file(t[end - 2]) || !is_rank(t[end - 1]) {
        return None;
    }
    let to: u8 = ((t[end - 2] as u32 - 'a' as u32) + 8 * (t[end - 1] as u32 - '1' as u32)) as u8;
    let mut mid_end = end - 2;
    if mid_end > start && t[mid_end - 1] == 'x' {
        mid_end = mid_end - 1;
    }
    let ghost mid = t@.subrange(start as int, mid_end as int);
    proof {
        let mid0 = rest.take(rest.len() - 2);
        assert(mid0 =~= t@.subrange(start as int, end - 2));
        if mid0.len() > 0 && mid0.last() == 'x' {
            assert(mid =~= mid0.drop_last());
        } else {
            assert(mid =~= mid0);
        }
    }
    let len = mid_end - start;
    let mut file: i8 = -1;
    let mut rank: i8 = -1;
    if len == 1 {
        let c = t[start];
        if is_file(c) {
            file = (c as u32 - 'a' as u32) as i8;
        } else if is_rank(c) {
            rank = (c as u32 - '1' as u32) as i8;
        } else {
            return None;
        }
    } else if len == 2 {
        let c0 = t[start];
        let c1 = t[start + 1];
        if is_file(c0) && is_rank(c1) {
            file = (c0 as u32 - 'a' as u32) as i8;
            rank = (c1 as u32 - '1' as u32) as i8;
        } else {
            return None;
        }
    } else if len > 2 {
        return None;
    }
    if promo.is_some() && piece != 0 {
        return None;
    }
    Some(SanParts { piece, to, file, rank, promo, castle: 0 })
}

fn matches_parts(pos: &Position, p: &SanParts, m: Move) -> (r: bool)
    requires
        pos.wf(),
    ensures
        r == san_matches(pos.state(), *p, m),
{
    proof {
        pos.lemma_wf_boards();
    }
    let flag = m.flag();
    if p.castle == 1 {
        return flag == Move::KING_CASTLE;
    }
    if p.castle == 2 {
        return flag == Move::QUEEN_CASTLE;
    }
    if flag == Move::KING_CASTLE || flag == Move::QUEEN_CASTLE {
        return false;
    }
    let from = m.from();
    let ok_piece = match pos.piece_on(from) {
        Some(pc) => pc.piece_type().index() == p.piece as usize,
        None => false,
    };
    if !ok_piece || m.to().index() != p.to as usize {
        return false;
    }
    if p.file >= 0 && from.file() as i8 != p.file {
        return false;
    }
    if p.rank >= 0 && from.rank() as i8 != p.rank {
        return false;
    }
    if m.is_promotion() {
        match p.promo {
            Some(pt) => m.promotion_piece_type() == pt,
            None => false,
        }
    } else {
        p.promo.is_none()
    }
}

/// The first generated legal move that the SAN text `san` names, if any.
/// The position is unchanged.
pub fn find_san_move(pos: &mut Position, san: &str) -> (r: Option<Move>)
    requires
        old(pos).wf(),
        consistent(old(pos).state()),
        old(pos).state().halfmove < 0xFFFF,
        old(pos).state().fullmove < 0xFFFF,
    ensures
        final(pos).wf(),
        final(pos).same_as(old(pos)),
        r matches Some(m) ==> {
            &&& pseudo_legal(old(pos).state(), m)
            &&& legal_after(old(pos).state(), m)
            &&& san_parts(san@) matches Some(p) && san_matches(old(pos).state(), p, m)
        },
        r is None ==> (san_parts(san@) matches Some(p) ==> forall|m: Move|
            pseudo_legal(old(pos).state(), m) && san_matches(old(pos).state(), p, m) ==> !legal_after(
                old(pos).state(),
                m,
            )),
{
    let t = crate::text::chars_of(san);
    find_san_chars(pos, &t)
}

/// The first generated legal move that the SAN text `t` names, if any.
/// The position is unchanged.
pub fn find_san_chars(pos: &mut Position, t: &Vec<char>) -> (r: Option<Move>)
    requires
        old(pos).wf(),
        consistent(old(pos).state()),
        old(pos).state().halfmove < 0xFFFF,
        old(pos).state().fullmove < 0xFFFF,
    ensures
        final(pos).wf(),
        final(pos).same_as(old(pos)),
        r matches Some(m) ==> {
            &&& pseudo_legal(old(pos).state(), m)
            &&& legal_after(old(pos).state(), m)
            &&& san_parts(t@) matches Some(p) && san_matches(old(pos).state(), p, m)
        },
        r is None ==> (san_parts(t@) matches Some(p) ==> forall|m: Move|
            pseudo_legal(old(pos).state(), m) && san_matches(old(pos).state(), p, m) ==> !legal_after(
                old(pos).state(),
                m,
            )),
{
    let parts = match parse_san(t) {
        Some(p) => p,
        None => {
            return None;
        },
    };
    let ghost s0 = pos.state();
    let ghost t0 = pos.trail();
    proof {
        pos.lemma_wf_state();
        lemma_consistent_pawns(s0);
    }
    let mut list = MoveList::new();
    generate_moves(pos, &mut list);
    proof {
        assert forall|k: int| 0 <= k < list@.len() implies pseudo_legal(s0, #[trigger] list@[k]) by {
            assert(pseudo_legal_moves(s0)(list@[k]));
        }
        assert forall|m: Move| #[trigger] pseudo_legal(s0, m) implies exists|k: int|
            0 <= k < list@.len() && #[trigger] list@[k] == m by {
            assert(pseudo_legal_moves(s0)(m));
        }
    }
    let mut i: usize = 0;
    while i < list.len()
        invariant
            i <= list@.len(),
            pos.wf(),
            pos.state() == s0,
            pos.trail() == t0,
            s0 == old(pos).state(),
            t0 == old(pos).trail(),
            state_ok(s0),
            consistent(s0),
            s0.halfmove < 0xFFFF,
            s0.fullmove < 0xFFFF,
            san_parts(t@) == Some(parts),
            forall|k: int| 0 <= k < list@.len() ==> pseudo_legal(s0, #[trigger] list@[k]),
            forall|m: Move| #[trigger]
                pseudo_legal(s0, m) ==> exists|k: int| 0 <= k < list@.len() && #[trigger] list@[k] == m,
            forall|j: int|
                0 <= j < i ==> !(san_matches(s0, parts, #[trigger] list@[j]) && legal_after(s0, list@[j])),
        decreases list@.len() - i,
    {
        let mv = list.get(i);
        if matches_parts(pos, &parts, mv) {
            proof {
                lemma_pseudo_legal_move_ok(s0, mv);
            }
            if pos.make(mv) {
                pos.unmake();
                proof {
                    assert(pos.trail().0 =~= t0.0);
                    assert(pos.trail().1 =~= t0.1);
                    assert(pos.trail().2 =~= t0.2);
                }
                return Some(mv);
            }
        }
        i += 1;
    }
    proof {
        assert forall|m: Move| pseudo_legal(s0, m) && san_matches(s0, parts, m) implies !legal_after(s0, m) by {
            let j = choose|j: int| 0 <= j < list@.len() && #[trigger] list@[j] == m;
        }
    }
    None
}

} // verus!
