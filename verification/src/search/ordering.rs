//! Move ordering: butterfly and continuation history tables, and the
//! selection-sort move picker that hands out the moves of a node best-first.
use vstd::prelude::*;

use crate::board::movegen::{
    appended, consistent, generate_moves, lemma_consistent_pawns, lemma_pseudo_legal_move_ok,
    pseudo_legal, pseudo_legal_moves,
};
use crate::board::position::{state_ok, PosState};
use crate::board::types::{color_index, type_index};
use crate::board::{Color, Move, MoveList, PieceType, Position, Square};

verus! {

/// Largest magnitude a butterfly-history entry may hold.
pub const HISTORY_LIMIT: i32 = 1_000_000_000;

/// Saturating-clamp bound for continuation-history entries.
pub const CONT_HIST_MAX: i16 = 16_000;

pub open spec fn hist_index(c: Color, from: int, to: int) -> int {
    color_index(c) * 4096 + from * 64 + to
}

pub open spec fn cont_index(pp: PieceType, pto: int, piece: PieceType, to: int) -> int {
    type_index(pp) * 24576 + pto * 384 + type_index(piece) * 64 + to
}

/// Butterfly history: one counter per side, origin and target square,
/// bumped on quiet beta cutoffs.
pub struct HistoryTable {
    v: Vec<i32>,
}

impl HistoryTable {
    pub closed spec fn view(&self) -> Seq<i32> {
        self.v@
    }

    /// Right size, every entry within `HISTORY_LIMIT`.
    pub closed spec fn ok(&self) -> bool {
        &&& self.v@.len() == 8192
        &&& forall|i: int| 0 <= i < 8192 ==> -HISTORY_LIMIT <= #[trigger] self.v@[i] <= HISTORY_LIMIT
    }

    pub fn new() -> (t: HistoryTable)
        ensures
            t.ok(),
            t@ == Seq::new(8192, |i: int| 0i32),
    {
        let mut v: Vec<i32> = Vec::new();
        let mut i: usize = 0;
        while i < 8192
            invariant
                i <= 8192,
                v@ == Seq::new(i as nat, |k: int| 0i32),
            decreases 8192 - i,
        {
            v.push(0);
            i += 1;
            proof {
                assert(v@ =~= Seq::new(i as nat, |k: int| 0i32));
            }
        }
        HistoryTable { v }
    }

    pub fn get(&self, c: Color, from: Square, to: Square) -> (r: i32)
        requires
            self.ok(),
        ensures
            r == self@[hist_index(c, from@, to@)],
            -HISTORY_LIMIT <= r <= HISTORY_LIMIT,
    {
        self.v[c.index() * 4096 + from.index() * 64 + to.index()]
    }

    pub fn set(&mut self, c: Color, from: Square, to: Square, value: i32)
        requires
            old(self).ok(),
            -HISTORY_LIMIT <= value <= HISTORY_LIMIT,
        ensures
            final(self).ok(),
            final(self)@ == old(self)@.update(hist_index(c, from@, to@), value),
    {
        self.v.set(c.index() * 4096 + from.index() * 64 + to.index(), value);
    }
}

/// Continuation history: one counter per (previous piece, its target,
/// piece, target), for the move made one or two plies earlier.
pub struct ContHist {
    v: Vec<i16>,
}

impl ContHist {
    pub closed spec fn view(&self) -> Seq<i16> {
        self.v@
    }

    pub closed spec fn ok(&self) -> bool {
        self.v@.len() == 147456
    }

    pub fn new() -> (t: ContHist)
        ensures
            t.ok(),
            t@ == Seq::new(147456, |i: int| 0i16),
    {
        let mut v: Vec<i16> = Vec::new();
        let mut i: usize = 0;
        while i < 147456
            invariant
                i <= 147456,
                v@ == Seq::new(i as nat, |k: int| 0i16),
            decreases 147456 - i,
        {
            v.push(0);
            i += 1;
            proof {
                assert(v@ =~= Seq::new(i as nat, |k: int| 0i16));
            }
        }
        ContHist { v }
    }

    pub fn get(&self, pp: PieceType, pto: Square, piece: PieceType, to: Square) -> (r: i16)
        requires
            self.ok(),
        ensures
            r == self@[cont_index(pp, pto@, piece, to@)],
    {
        self.v[pp.index() * 24576 + pto.index() * 384 + piece.index() * 64 + to.index()]
    }

    pub fn set(&mut self, pp: PieceType, pto: Square, piece: PieceType, to: Square, value: i16)
        requires
            old(self).ok(),
        ensures
            final(self).ok(),
            final(self)@ == old(self)@.update(cont_index(pp, pto@, piece, to@), value),
    {
        self.v.set(pp.index() * 24576 + pto.index() * 384 + piece.index() * 64 + to.index(), value);
    }
}

/// `x` clamped to `[lo, hi]`.
pub open spec fn clamp_int(x: int, lo: int, hi: int) -> int {
    if x < lo {
        lo
    } else if x > hi {
        hi
    } else {
        x
    }
}

/// Adds `bonus` to one continuation-history entry, clamped to
/// ±`CONT_HIST_MAX`. `parent` is the `(piece, to)` key of the earlier ply.
pub(crate) fn bump_cont_hist(
    table: &mut ContHist,
    parent: (PieceType, Square),
    piece: PieceType,
    to: Square,
    bonus: i16,
)
    requires
        old(table).ok(),
    ensures
        final(table).ok(),
        final(table)@ == old(table)@.update(
            cont_index(parent.0, parent.1@, piece, to@),
            clamp_int(
                old(table)@[cont_index(parent.0, parent.1@, piece, to@)] + bonus,
                -CONT_HIST_MAX as int,
                CONT_HIST_MAX as int,
            ) as i16,
        ),
{
    let (pp, pto) = parent;
    let c = table.get(pp, pto, piece, to) as i32 + bonus as i32;
    let v: i16 = if c < -16_000 {
        -16_000
    } else if c > 16_000 {
        16_000
    } else {
        c as i16
    };
    table.set(pp, pto, piece, to, v);
}

/// The combined quiet history: butterfly plus twice the one-ply
/// continuation entry plus the two-ply one.
pub open spec fn quiet_hist(
    h: Seq<i32>,
    c1: Seq<i16>,
    c2: Seq<i16>,
    k1: Option<(PieceType, Square)>,
    k2: Option<(PieceType, Square)>,
    stm: Color,
    piece: PieceType,
    from: int,
    to: int,
) -> int {
    h[hist_index(stm, from, to)] + match k1 {
        Some((pp, pto)) => 2 * c1[cont_index(pp, pto@, piece, to)],
        None => 0,
    } + match k2 {
        Some((pp, pto)) => c2[cont_index(pp, pto@, piece, to)] as int,
        None => 0,
    }
}

/// Combined quiet-move history score, read by both the move ordering and
/// the late-move-reduction adjustment.
pub(crate) fn quiet_history(
    history: &HistoryTable,
    cont_hist1: &ContHist,
    cont_hist2: &ContHist,
    ch1: Option<(PieceType, Square)>,
    ch2: Option<(PieceType, Square)>,
    stm: Color,
    piece: PieceType,
    from: Square,
    to: Square,
) -> (r: i32)
    requires
        history.ok(),
        cont_hist1.ok(),
        cont_hist2.ok(),
    ensures
        r == quiet_hist(history@, cont_hist1@, cont_hist2@, ch1, ch2, stm, piece, from@, to@),
{
    let mut s = history.get(stm, from, to);
    if let Some((pp, pto)) = ch1 {
        s = s + cont_hist1.get(pp, pto, piece, to) as i32 * 2;
    }
    if let Some((pp, pto)) = ch2 {
        s = s + cont_hist2.get(pp, pto, piece, to) as i32;
    }
    s
}

/// Victim values for capture ordering (decoupled from the evaluation).
pub open spec fn victim_val(pt: PieceType) -> int {
    match pt {
        PieceType::Pawn => 100,
        PieceType::Knight => 320,
        PieceType::Bishop => 330,
        PieceType::Rook => 500,
        PieceType::Queen => 900,
        PieceType::King => 0,
    }
}

/// Attacker values for capture ordering: the king ranks as the most
/// expensive attacker.
pub open spec fn attacker_val(pt: PieceType) -> int {
    match pt {
        PieceType::Pawn => 100,
        PieceType::Knight => 320,
        PieceType::Bishop => 330,
        PieceType::Rook => 500,
        PieceType::Queen => 900,
        PieceType::King => 10_000,
    }
}

fn victim_value(pt: PieceType) -> (v: i32)
    ensures
        v == victim_val(pt),
{
    match pt {
        PieceType::Pawn => 100,
        PieceType::Knight => 320,
        PieceType::Bishop => 330,
        PieceType::Rook => 500,
        PieceType::Queen => 900,
        PieceType::King => 0,
    }
}

fn attacker_value(pt: PieceType) -> (v: i32)
    ensures
        v == attacker_val(pt),
{
    match pt {
        PieceType::Pawn => 100,
        PieceType::Knight => 320,
        PieceType::Bishop => 330,
        PieceType::Rook => 500,
        PieceType::Queen => 900,
        PieceType::King => 10_000,
    }
}

/// Ordering score of move `m`: the TT move first (2M), then captures by
/// most valuable victim / least valuable attacker (1M+), then the two
/// killers, then quiets by combined history.
pub open spec fn order_score(
    s: PosState,
    tt_move: Move,
    killers: Seq<Move>,
    h: Seq<i32>,
    c1: Seq<i16>,
    c2: Seq<i16>,
    k1: Option<(PieceType, Square)>,
    k2: Option<(PieceType, Square)>,
    stm: Color,
    m: Move,
) -> int {
    let mover = s.board[m.spec_from()]->0.spec_type();
    if m == tt_move && tt_move@ != 0 {
        2_000_000
    } else if m.spec_is_capture() {
        let victim = if m.spec_flag() == 5 {
            PieceType::Pawn
        } else {
            s.board[m.spec_to()]->0.spec_type()
        };
        1_000_000 + 10 * victim_val(victim) - attacker_val(mover)
    } else if m == killers[0] {
        900_000
    } else if m == killers[1] {
        899_999
    } else {
        quiet_hist(h, c1, c2, k1, k2, stm, mover, m.spec_from(), m.spec_to())
    }
}

/// Moves of a node, handed out best-first by selection.
pub struct MovePicker {
    moves: MoveList,
    scores: Vec<i32>,
    cur: usize,
    /// The position the moves were generated in.
    at: Ghost<PosState>,
}

impl MovePicker {
    pub closed spec fn moves(&self) -> Seq<Move> {
        self.moves@
    }

    pub closed spec fn scores(&self) -> Seq<i32> {
        self.scores@
    }

    /// How many moves have been handed out.
    pub closed spec fn cursor(&self) -> int {
        self.cur as int
    }

    /// The position the moves were generated in.
    pub closed spec fn state(&self) -> PosState {
        self.at@
    }

    pub closed spec fn ok(&self) -> bool {
        &&& self.scores@.len() == self.moves@.len()
        &&& self.cur <= self.moves@.len()
        &&& forall|i: int| 0 <= i < self.moves@.len() ==> pseudo_legal(self.at@, #[trigger] self.moves@[i])
    }

    /// Generates the moves of `pos` and scores each for ordering.
    pub fn new(
        pos: &Position,
        tt_move: Move,
        killers: [Move; 2],
        history: &HistoryTable,
        cont_hist1: &ContHist,
        cont_hist2: &ContHist,
        ch1: Option<(PieceType, Square)>,
        ch2: Option<(PieceType, Square)>,
        stm: Color,
    ) -> (p: MovePicker)
        requires
            pos.wf(),
            consistent(pos.state()),
            history.ok(),
            cont_hist1.ok(),
            cont_hist2.ok(),
        ensures
            p.ok(),
            p.cursor() == 0,
            p.state() == pos.state(),
            appended(Seq::empty(), p.moves(), pseudo_legal_moves(pos.state())),
            forall|i: int|
                0 <= i < p.moves().len() ==> #[trigger] p.scores()[i] == order_score(
                    pos.state(),
                    tt_move,
                    killers@,
                    history@,
                    cont_hist1@,
                    cont_hist2@,
                    ch1,
                    ch2,
                    stm,
                    p.moves()[i],
                ),
    {
        let ghost s = pos.state();
        proof {
            pos.lemma_wf_state();
            lemma_consistent_pawns(s);
        }
        let mut moves = MoveList::new();
        generate_moves(pos, &mut moves);
        let n = moves.len();
        let mut scores: Vec<i32> = Vec::new();
        let mut i: usize = 0;
        while i < n
            invariant
                n == moves@.len(),
                i <= n,
                s == pos.state(),
                state_ok(s),
                consistent(s),
                history.ok(),
                cont_hist1.ok(),
                cont_hist2.ok(),
                scores@.len() == i,
                appended(Seq::empty(), moves@, pseudo_legal_moves(s)),
                forall|j: int|
                    0 <= j < i ==> #[trigger] scores@[j] == order_score(
                        s,
                        tt_move,
                        killers@,
                        history@,
                        cont_hist1@,
                        cont_hist2@,
                        ch1,
                        ch2,
                        stm,
                        moves@[j],
                    ),
            decreases n - i,
        {
            let mv = moves.get(i);
            proof {
                assert(pseudo_legal_moves(s)(moves@[i as int]));
                lemma_pseudo_legal_move_ok(s, mv);
            }
            let mover = match pos.piece_on(mv.from()) {
                Some(p) => p.piece_type(),
                None => PieceType::Pawn,
            };
            let score: i32 = if mv == tt_move && tt_move.raw() != 0 {
                2_000_000
            } else if mv.is_capture() {
                let victim = if mv.flag() == Move::EN_PASSANT {
                    PieceType::Pawn
                } else {
                    match pos.piece_on(mv.to()) {
                        Some(p) => p.piece_type(),
                        None => PieceType::Pawn,
                    }
                };
                1_000_000 + 10 * victim_value(victim) - attacker_value(mover)
            } else if mv == killers[0] {
                900_000
            } else if mv == killers[1] {
                899_999
            } else {
                quiet_history(
                    history,
                    cont_hist1,
                    cont_hist2,
                    ch1,
                    ch2,
                    stm,
                    mover,
                    mv.from(),
                    mv.to(),
                )
            };
            scores.push(score);
            i += 1;
        }
        proof {
            assert forall|i: int| 0 <= i < moves@.len() implies pseudo_legal(s, #[trigger] moves@[i]) by {
                assert(pseudo_legal_moves(s)(moves@[i]));
            }
        }
        MovePicker { moves, scores, cur: 0, at: Ghost(s) }
    }

    /// The best-scored move not yet handed out (the first among equals),
    /// swapped to the cursor; None once every move has been handed out.
    pub fn next(&mut self) -> (r: Option<Move>)
        requires
            old(self).ok(),
        ensures
            final(self).ok(),
            final(self).cursor() <= final(self).moves().len(),
            final(self).moves().len() <= usize::MAX,
            r is Some ==> final(self).cursor() == old(self).cursor() + 1,
            final(self).state() == old(self).state(),
            final(self).moves().len() == old(self).moves().len(),
            r matches Some(m) ==> pseudo_legal(old(self).state(), m),
            r is None <==> old(self).cursor() == old(self).moves().len(),
            r is None ==> *final(self) == *old(self),
            r matches Some(m) ==> exists|b: int|
                #![trigger old(self).moves()[b]]
                old(self).cursor() <= b < old(self).moves().len() && m == old(self).moves()[b]
                    && (forall|j: int|
                    old(self).cursor() <= j < old(self).moves().len() ==> #[trigger] old(
                        self,
                    ).scores()[j] <= old(self).scores()[b]) && (forall|j: int|
                    old(self).cursor() <= j < b ==> #[trigger] old(self).scores()[j] < old(
                        self,
                    ).scores()[b]) && final(self).moves() == old(self).moves().update(
                    old(self).cursor(),
                    old(self).moves()[b],
                ).update(b, old(self).moves()[old(self).cursor()]) && final(self).scores()
                    == old(self).scores().update(old(self).cursor(), old(self).scores()[b]).update(
                    b,
                    old(self).scores()[old(self).cursor()],
                ) && final(self).cursor() == old(self).cursor() + 1,
    {
        let len = self.moves.len();
        if self.cur >= len {
            return None;
        }
        let mut best = self.cur;
        let mut i = self.cur + 1;
        while i < len
            invariant
                self.ok(),
                len == self.moves@.len(),
                self.cur < len,
                self.cur <= best < i <= len,
                forall|j: int| self.cur <= j < i ==> #[trigger] self.scores@[j] <= self.scores@[best as int],
                forall|j: int| self.cur <= j < best ==> #[trigger] self.scores@[j] < self.scores@[best as int],
            decreases len - i,
        {
            if self.scores[i] > self.scores[best] {
                best = i;
            }
            i += 1;
        }
        let ghost b = best as int;
        let ghost m0 = self.moves@;
        let ghost s0 = self.scores@;
        let c = self.cur;
        self.moves.swap(c, best);
        let a = self.scores[c];
        let z = self.scores[best];
        self.scores.set(c, z);
        self.scores.set(best, a);
        let mv = self.moves.get(c);
        self.cur = c + 1;
        proof {
            assert(mv == m0[b]);
            assert(old(self).moves()[b] == mv);
            assert(self.moves@ == m0.update(c as int, m0[b]).update(b, m0[c as int]));
            assert(self.scores@ == s0.update(c as int, s0[b]).update(b, s0[c as int]));
            assert forall|i: int| 0 <= i < self.moves@.len() implies pseudo_legal(self.at@, #[trigger] self.moves@[i]) by {
                if i == c {
                    assert(self.moves@[i] == m0[b]);
                } else if i == b {
                    assert(self.moves@[i] == m0[c as int]);
                } else {
                    assert(self.moves@[i] == m0[i]);
                }
            }
        }
        Some(mv)
    }
}

} // verus!
