//! Syzygy tablebase probes: which positions may be probed, the bitboards a
//! probe takes, what a WDL outcome scores, and the legal move a root probe's
//! squares name. The tables themselves are read by the program around the
//! library.
use vstd::prelude::*;

use crate::board::bitboard::{bit, popcount};
use crate::board::movegen::{generate_moves, pawns_inside, pseudo_legal, pseudo_legal_moves};
use crate::board::moves::promo_type_of_flag;
use crate::board::position::{holds_color, PosState};
use crate::board::types::file_of;
use crate::board::{Color, Move, MoveList, PieceType, Position};

verus! {

/// Win / draw / loss for the side to move.
#[derive(Clone, Copy, Debug, PartialEq, Eq, Structural)]
pub enum Wdl {
    Win,
    Draw,
    Loss,
}

/// A WDL outcome as the tables report it, the 50-move-rule variants kept.
#[derive(Clone, Copy, Debug, PartialEq, Eq, Structural)]
pub enum TbOutcome {
    Win,
    CursedWin,
    Draw,
    BlessedLoss,
    Loss,
}

/// A cursed win or blessed loss cannot be converted within the 50-move
/// rule: it scores as a draw.
pub fn wdl_of(o: TbOutcome) -> (r: Wdl)
    ensures
        r == (match o {
            TbOutcome::Win => Wdl::Win,
            TbOutcome::Loss => Wdl::Loss,
            _ => Wdl::Draw,
        }),
{
    match o {
        TbOutcome::Win => Wdl::Win,
        TbOutcome::Loss => Wdl::Loss,
        _ => Wdl::Draw,
    }
}

/// The bitboards of a probe: color occupancies, and per piece type the
/// squares of both colors.
pub struct ProbeBits {
    pub white: u64,
    pub black: u64,
    pub kings: u64,
    pub queens: u64,
    pub rooks: u64,
    pub bishops: u64,
    pub knights: u64,
    pub pawns: u64,
}

/// Both colors' squares of piece type `pt`.
fn both(pos: &Position, pt: PieceType) -> (r: u64)
    requires
        pos.wf(),
    ensures
        r == pos.piece_bits(Color::White, pt) | pos.piece_bits(Color::Black, pt),
{
    proof {
        pos.lemma_wf_boards();
    }
    pos.piece_bb(Color::White, pt).or(pos.piece_bb(Color::Black, pt)).0
}

/// The bitboards of `pos` for a probe.
pub fn probe_bits(pos: &Position) -> (r: ProbeBits)
    requires
        pos.wf(),
    ensures
        forall|i: int| 0 <= i < 64 ==> (#[trigger] bit(r.white, i) <==> holds_color(pos.state().board, i, Color::White)),
        forall|i: int| 0 <= i < 64 ==> (#[trigger] bit(r.black, i) <==> holds_color(pos.state().board, i, Color::Black)),
        r.kings == pos.piece_bits(Color::White, PieceType::King) | pos.piece_bits(Color::Black, PieceType::King),
        r.queens == pos.piece_bits(Color::White, PieceType::Queen) | pos.piece_bits(Color::Black, PieceType::Queen),
        r.rooks == pos.piece_bits(Color::White, PieceType::Rook) | pos.piece_bits(Color::Black, PieceType::Rook),
        r.bishops == pos.piece_bits(Color::White, PieceType::Bishop) | pos.piece_bits(Color::Black, PieceType::Bishop),
        r.knights == pos.piece_bits(Color::White, PieceType::Knight) | pos.piece_bits(Color::Black, PieceType::Knight),
        r.pawns == pos.piece_bits(Color::White, PieceType::Pawn) | pos.piece_bits(Color::Black, PieceType::Pawn),
{
    proof {
        pos.lemma_wf_boards();
    }
    let w = pos.occ(Color::White);
    let b = pos.occ(Color::Black);
    proof {
        assert forall|i: int| 0 <= i < 64 implies (#[trigger] bit(w.0, i) <==> holds_color(pos.state().board, i, Color::White)) by {
            assert(w.has(i) == bit(w.0, i));
        }
        assert forall|i: int| 0 <= i < 64 implies (#[trigger] bit(b.0, i) <==> holds_color(pos.state().board, i, Color::Black)) by {
            assert(b.has(i) == bit(b.0, i));
        }
    }
    ProbeBits {
        white: w.0,
        black: b.0,
        kings: both(pos, PieceType::King),
        queens: both(pos, PieceType::Queen),
        rooks: both(pos, PieceType::Rook),
        bishops: both(pos, PieceType::Bishop),
        knights: both(pos, PieceType::Knight),
        pawns: both(pos, PieceType::Pawn),
    }
}

/// Whether any probe may look at `pos`: at most `max_men` pieces and no
/// castling rights.
pub open spec fn probeable_men_spec(s: PosState, occ: u64, max_men: u32) -> bool {
    popcount(occ) <= max_men && s.castling == 0
}

/// Whether any probe may look at `pos`: at most `max_men` pieces and no
/// castling rights.
pub fn probeable_men(pos: &Position, max_men: u32) -> (r: bool)
    requires
        pos.wf(),
    ensures
        r == probeable_men_spec(pos.state(), pos.spec_occ_all(), max_men),
{
    proof {
        pos.lemma_wf_boards();
    }
    pos.occ_all().count() <= max_men && pos.castling().bits() == 0
}

/// A WDL probe also needs a fresh 50-move counter: the tables ignore it.
pub fn probeable_wdl(pos: &Position, max_men: u32) -> (r: bool)
    requires
        pos.wf(),
    ensures
        r == (probeable_men_spec(pos.state(), pos.spec_occ_all(), max_men) && pos.state().halfmove == 0),
{
    probeable_men(pos, max_men) && pos.halfmove() == 0
}

/// The en-passant square of a probe (0 when there is none).
pub fn ep_square(pos: &Position) -> (r: u32)
    ensures
        r == (match pos.state().ep {
            Some(e) => e@,
            None => 0,
        }),
{
    match pos.ep() {
        Some(e) => e.index() as u32,
        None => 0,
    }
}

/// Whether `m` goes from `from` to `to` and promotes exactly as `promo` says.
pub open spec fn root_match(m: Move, from: int, to: int, promo: Option<PieceType>) -> bool {
    &&& m.spec_from() == from
    &&& m.spec_to() == to
    &&& match promo {
        Some(pt) => m.spec_is_promotion() && promo_type_of_flag(m.spec_flag()) == pt,
        None => !m.spec_is_promotion(),
    }
}

/// The first generated move going `from` -> `to` with promotion `promo`,
/// carrying the flags (capture, en passant, castling) the squares alone
/// do not give.
pub fn match_legal_move(pos: &Position, from: u8, to: u8, promo: Option<PieceType>) -> (r: Option<Move>)
    requires
        pos.wf(),
        pawns_inside(pos.state().board),
    ensures
        r matches Some(m) ==> pseudo_legal(pos.state(), m) && root_match(m, from as int, to as int, promo),
        r is None ==> forall|m: Move| pseudo_legal(pos.state(), m) ==> !root_match(m, from as int, to as int, promo),
{
    let ghost s = pos.state();
    let mut list = MoveList::new();
    generate_moves(pos, &mut list);
    proof {
        assert forall|m: Move| #[trigger] pseudo_legal(s, m) implies exists|k: int|
            0 <= k < list@.len() && #[trigger] list@[k] == m by {
            assert(pseudo_legal_moves(s)(m));
        }
    }
    let mut i: usize = 0;
    while i < list.len()
        invariant
            i <= list@.len(),
            s == pos.state(),
            forall|k: int| 0 <= k < list@.len() ==> pseudo_legal_moves(s)(#[trigger] list@[k]),
            forall|m: Move| #[trigger] pseudo_legal(s, m) ==> exists|k: int| 0 <= k < list@.len() && #[trigger] list@[k] == m,
            forall|j: int| 0 <= j < i ==> !root_match(#[trigger] list@[j], from as int, to as int, promo),
        decreases list@.len() - i,
    {
        let m = list.get(i);
        let ok = m.from().index() == from as usize && m.to().index() == to as usize && match promo {
            Some(pt) => m.is_promotion() && m.promotion_piece_type() == pt,
            None => !m.is_promotion(),
        };
        if ok {
            proof {
                assert(pseudo_legal_moves(s)(list@[i as int]));
            }
            return Some(m);
        }
        i += 1;
    }
    proof {
        assert forall|m: Move| pseudo_legal(s, m) implies !root_match(m, from as int, to as int, promo) by {
            let j = choose|j: int| 0 <= j < list@.len() && #[trigger] list@[j] == m;
        }
    }
    None
}

} // verus!
