pub mod accumulator;
pub mod incremental;
pub mod net;

use vstd::prelude::*;

use accumulator::{feature_pair, minus, plus, AccPair};
use net::Network;

use crate::board::movegen::consistent;
use crate::board::types::{file_of, opposite, rank_of, square_at, Color, Piece, PieceType, Square};
use crate::board::makemove::piece_of;
use crate::eval::nnue::net::forward;
use crate::board::{Move, Position};
use crate::eval::Evaluator;
use crate::search::{MATE_BOUND, MAX_PLY};

verus! {

/// The (White-view, Black-view) accumulators of the pieces on squares
/// `0..n` of board `b`: the bias plus each piece's feature columns.
pub open spec fn board_acc(net: Network, b: Seq<Option<Piece>>, n: int) -> (Seq<i16>, Seq<i16>)
    decreases n,
{
    if n <= 0 {
        (net.bias(), net.bias())
    } else {
        let (w, k) = board_acc(net, b, n - 1);
        match b[n - 1] {
            Some(p) => (plus(w, net.column(feature_pair(p, n - 1).0)), plus(k, net.column(feature_pair(p, n - 1).1))),
            None => (w, k),
        }
    }
}

/// The accumulator pair after adding (or removing) the features of `p` on
/// square `sq`.
pub open spec fn upd(acc: (Seq<i16>, Seq<i16>), net: Network, p: Piece, sq: int, add: bool) -> (Seq<i16>, Seq<i16>) {
    let (w, k) = feature_pair(p, sq);
    if add {
        (plus(acc.0, net.column(w)), plus(acc.1, net.column(k)))
    } else {
        (minus(acc.0, net.column(w)), minus(acc.1, net.column(k)))
    }
}

/// Rook squares (from, to) of a castling move by the king's target.
pub open spec fn rook_squares(king_to: int) -> (int, int) {
    if king_to == 6 {
        (7, 5)
    } else if king_to == 2 {
        (0, 3)
    } else if king_to == 62 {
        (63, 61)
    } else {
        (56, 59)
    }
}

/// The accumulator update of move `m`, read from the board `after` it and
/// the piece it captured: the mover leaves its square and (promoted or not)
/// lands on the target, a captured piece leaves, and a castling rook moves.
pub open spec fn make_update(
    acc: (Seq<i16>, Seq<i16>),
    net: Network,
    m: Move,
    after: Seq<Option<Piece>>,
    cap: Option<Piece>,
) -> (Seq<i16>, Seq<i16>) {
    let f = m.spec_from();
    let t = m.spec_to();
    let fl = m.spec_flag();
    let moved = after[t]->0;
    let c = moved.spec_color();
    if m.spec_is_promotion() {
        let a = upd(upd(acc, net, piece_of(c, PieceType::Pawn), f, false), net, moved, t, true);
        if m.spec_is_capture() && cap is Some {
            upd(a, net, cap->0, t, false)
        } else {
            a
        }
    } else if fl == 2 || fl == 3 {
        let a = upd(upd(acc, net, moved, f, false), net, moved, t, true);
        if t == 6 || t == 2 || t == 62 || t == 58 {
            let (rf, rt) = rook_squares(t);
            upd(upd(a, net, piece_of(c, PieceType::Rook), rf, false), net, piece_of(c, PieceType::Rook), rt, true)
        } else {
            a
        }
    } else if fl == 5 {
        upd(
            upd(upd(acc, net, moved, f, false), net, moved, t, true),
            net,
            piece_of(opposite(c), PieceType::Pawn),
            square_at(file_of(t), rank_of(f)),
            false,
        )
    } else {
        let a = upd(upd(acc, net, moved, f, false), net, moved, t, true);
        if m.spec_is_capture() && cap is Some {
            upd(a, net, cap->0, t, false)
        } else {
            a
        }
    }
}

/// The score `v` held clear of the mate range.
pub open spec fn held(v: int) -> int {
    if v >= MATE_BOUND {
        MATE_BOUND - 1
    } else if v <= -MATE_BOUND {
        -(MATE_BOUND - 1)
    } else {
        v
    }
}

/// NNUE evaluator: a network and a stack of accumulator pairs, one per ply
/// of the line being searched.
pub struct NnueEvaluator {
    net: Network,
    stack: Vec<AccPair>,
    top: usize,
}

/// Rook from/to squares of a castling move, by the king's destination.
fn castle_rook_squares(king_to: Square) -> (r: (Square, Square))
    requires
        king_to@ == 6 || king_to@ == 2 || king_to@ == 62 || king_to@ == 58,
    ensures
        king_to@ == 6 ==> r.0@ == 7 && r.1@ == 5,
        king_to@ == 2 ==> r.0@ == 0 && r.1@ == 3,
        king_to@ == 62 ==> r.0@ == 63 && r.1@ == 61,
        king_to@ == 58 ==> r.0@ == 56 && r.1@ == 59,
{
    let k = king_to.index();
    if k == 6 {
        (Square::new(7), Square::new(5))
    } else if k == 2 {
        (Square::new(0), Square::new(3))
    } else if k == 62 {
        (Square::new(63), Square::new(61))
    } else {
        (Square::new(56), Square::new(59))
    }
}

impl NnueEvaluator {
    pub closed spec fn network(&self) -> Network {
        self.net
    }

    /// The ply of the current accumulator pair.
    pub closed spec fn ply(&self) -> int {
        self.top as int
    }

    /// The accumulator pair kept for ply `i`.
    pub closed spec fn level(&self, i: int) -> (Seq<i16>, Seq<i16>) {
        (self.stack@[i].white.vals@, self.stack@[i].black.vals@)
    }

    /// The accumulator pair of the current ply.
    pub closed spec fn current(&self) -> (Seq<i16>, Seq<i16>) {
        (self.stack@[self.top as int].white.vals@, self.stack@[self.top as int].black.vals@)
    }

    /// An evaluator for the network in `bytes`, with every accumulator at
    /// the bias.
    pub fn from_bytes(bytes: &[u8]) -> (r: NnueEvaluator)
        requires
            bytes@.len() == net::NET_BYTES,
        ensures
            r.inv(),
    {
        let net = Network::from_bytes(bytes);
        let fresh = AccPair::fresh(&net);
        let mut stack: Vec<AccPair> = Vec::new();
        let mut i: usize = 0;
        while i < MAX_PLY + 1
            invariant
                i <= MAX_PLY + 1,
                stack@.len() == i,
            decreases MAX_PLY + 1 - i,
        {
            stack.push(fresh);
            i += 1;
        }
        NnueEvaluator { net, stack, top: 0 }
    }

    /// Adds every piece of `pos` to the accumulator pair `acc`.
    fn add_all(net: &Network, acc: &mut AccPair, pos: &Position)
        requires
            net.wf(),
            pos.wf(),
            old(acc).white.vals@ == net.bias(),
            old(acc).black.vals@ == net.bias(),
        ensures
            (final(acc).white.vals@, final(acc).black.vals@) == board_acc(*net, pos.state().board, 64),
    {
        proof {
            pos.lemma_wf_boards();
        }
        let mut i: u8 = 0;
        while i < 64
            invariant
                i <= 64,
                net.wf(),
                (acc.white.vals@, acc.black.vals@) == board_acc(*net, pos.state().board, i as int),
            decreases 64 - i,
        {
            let sq = Square::new(i);
            match pos.piece_on(sq) {
                Some(p) => acc.add(net, p, sq),
                None => {},
            }
            i += 1;
        }
    }
}

impl Evaluator for NnueEvaluator {
    open spec fn static_value(&self, pos: &Position) -> i32 {
        held(
            match pos.state().stm {
                Color::White => forward(self.current().0, self.current().1, self.network().out_weights(), self.network().out_bias()),
                Color::Black => forward(self.current().1, self.current().0, self.network().out_weights(), self.network().out_bias()),
            },
        ) as i32
    }

    closed spec fn inv(&self) -> bool {
        &&& self.net.wf()
        &&& self.stack@.len() == MAX_PLY + 1
        &&& self.top <= MAX_PLY
    }

    /// The current accumulator pair becomes that of the board.
    fn refresh(&mut self, pos: &Position)
        ensures
            final(self).current() == board_acc(final(self).network(), pos.state().board, 64),
            final(self).network() == old(self).network(),
    {
        self.top = 0;
        let mut acc = AccPair::fresh(&self.net);
        NnueEvaluator::add_all(&self.net, &mut acc, pos);
        self.stack.set(0, acc);
    }

    /// `pos` is the position after the move. The new accumulator is the
    /// previous one with the moved, captured and castling pieces updated.
    fn on_make(&mut self, mv: Move, pos: &Position)
        ensures
            final(self).network() == old(self).network(),
            old(self).ply() < MAX_PLY && pos.state().board[mv.spec_to()] is Some ==> final(self).current()
                == make_update(
                old(self).current(),
                old(self).network(),
                mv,
                pos.state().board,
                pos.last_capture(),
            ),
            !(old(self).ply() < MAX_PLY && pos.state().board[mv.spec_to()] is Some) ==> *final(self) == *old(self),
            old(self).ply() < MAX_PLY && pos.state().board[mv.spec_to()] is Some ==> final(self).ply() == old(self).ply()
                + 1,
            forall|i: int| 0 <= i <= old(self).ply() ==> #[trigger] final(self).level(i) == old(self).level(i),
    {
        if self.top >= MAX_PLY {
            return;
        }
        let from = mv.from();
        let to = mv.to();
        let moved = match pos.piece_on(to) {
            Some(p) => p,
            None => {
                return;
            },
        };
        let mut acc = self.stack[self.top];
        let net = &self.net;
        let flag = mv.flag();
        if mv.is_promotion() {
            let pawn = Piece::new(moved.color(), PieceType::Pawn);
            acc.sub(net, pawn, from);
            acc.add(net, moved, to);
            if mv.is_capture() {
                match pos.last_captured() {
                    Some(cap) => acc.sub(net, cap, to),
                    None => {},
                }
            }
        } else if flag == Move::KING_CASTLE || flag == Move::QUEEN_CASTLE {
            acc.sub(net, moved, from);
            acc.add(net, moved, to);
            let k = to.index();
            if k == 6 || k == 2 || k == 62 || k == 58 {
                let (rf, rt) = castle_rook_squares(to);
                let rook = Piece::new(moved.color(), PieceType::Rook);
                acc.sub(net, rook, rf);
                acc.add(net, rook, rt);
            }
        } else if flag == Move::EN_PASSANT {
            acc.sub(net, moved, from);
            acc.add(net, moved, to);
            let cap_sq = Square::from_fr(to.file(), from.rank());
            let cap_pawn = Piece::new(moved.color().flip(), PieceType::Pawn);
            acc.sub(net, cap_pawn, cap_sq);
        } else {
            acc.sub(net, moved, from);
            acc.add(net, moved, to);
            if mv.is_capture() {
                match pos.last_captured() {
                    Some(cap) => acc.sub(net, cap, to),
                    None => {},
                }
            }
        }
        self.top = self.top + 1;
        self.stack.set(self.top, acc);
    }

    /// Back to the accumulator pair of the previous ply; the kept pairs
    /// stay as they were.
    fn on_unmake(&mut self, _mv: Move, _pos: &Position)
        ensures
            final(self).network() == old(self).network(),
            final(self).ply() == if old(self).ply() > 0 {
                old(self).ply() - 1
            } else {
                0
            },
            forall|i: int| #[trigger] final(self).level(i) == old(self).level(i),
            final(self).current() == old(self).level(final(self).ply()),
    {
        if self.top > 0 {
            self.top = self.top - 1;
        }
    }

    /// The network's output for the side to move's half and the other
    /// half, held clear of the mate range.
    fn evaluate(&mut self, pos: &Position) -> (r: i32)
        ensures
            r == held(
                match pos.state().stm {
                    Color::White => forward(
                        old(self).current().0,
                        old(self).current().1,
                        old(self).network().out_weights(),
                        old(self).network().out_bias(),
                    ),
                    Color::Black => forward(
                        old(self).current().1,
                        old(self).current().0,
                        old(self).network().out_weights(),
                        old(self).network().out_bias(),
                    ),
                },
            ),
            *final(self) == *old(self),
    {
        let acc = self.stack[self.top];
        let v = match pos.stm() {
            Color::White => self.net.out(&acc.white, &acc.black),
            Color::Black => self.net.out(&acc.black, &acc.white),
        };
        if v >= MATE_BOUND {
            MATE_BOUND - 1
        } else if v <= -MATE_BOUND {
            -(MATE_BOUND - 1)
        } else {
            v
        }
    }
}

} // verus!
