//! Iterative deepening over an alpha-beta search with transposition-table
//! cutoffs, quiescence search, null-move and futility pruning, late-move
//! reductions, and killer/history move ordering. All mutable search state
//! lives in `SearchThread`.
pub mod limits;
pub mod ordering;
pub mod see;
pub mod tt;

use vstd::prelude::*;

use std::sync::atomic::{AtomicBool, Ordering};
use std::sync::Arc;
use std::time::Instant;

use crate::board::makemove::{legal_after, lemma_make_clocks, make_state, null_state};
use crate::board::movegen::{
    consistent, find_first_legal, is_consistent, lemma_make_consistent, lemma_null_consistent,
    lemma_pseudo_legal_move_ok, mover_safe, pseudo_legal,
};
use crate::board::position::{attacked, attacker, has_king, holds_color, holds_king, king_square, occupancy, state_ok, PosState, Undo};
use crate::board::types::opposite;
use crate::board::{Color, Move, PieceType, Position, Square};
use crate::eval::Evaluator;
use crate::search::limits::{clocks_in_range, instant_now, Limits, TimeManager};
use crate::search::ordering::{
    bump_cont_hist, clamp_int, cont_index, CONT_HIST_MAX, hist_index, quiet_history, ContHist, HistoryTable, MovePicker, HISTORY_LIMIT,
};
use crate::search::see::{king_capture, see, see_spec};
use crate::search::tt::{cluster_index, first_match, fragment, stored_cluster, stored_word, Bound, Tt, EVAL_NONE};

verus! {

pub const MATE: i32 = 30_000;

/// |score| at or above this is a mate score.
pub const MATE_BOUND: i32 = 29_000;

pub const INF: i32 = 32_000;

pub const MAX_PLY: usize = 128;

/// `line` is a sequence of legal moves played from `s`.
#[verifier::opaque]
pub open spec fn legal_line(s: PosState, line: Seq<Move>) -> bool
    decreases line.len(),
{
    line.len() == 0 || (pseudo_legal(s, line[0]) && legal_after(s, line[0]) && legal_line(
        make_state(s, line[0]),
        line.drop_first(),
    ))
}

/// The empty line is legal from anywhere.
pub proof fn lemma_legal_line_empty(s: PosState, line: Seq<Move>)
    requires
        line.len() == 0,
    ensures
        legal_line(s, line),
{
    reveal_with_fuel(legal_line, 1);
}

/// A legal move followed by a legal line from the position it leads to is a
/// legal line.
pub proof fn lemma_legal_line_cons(s: PosState, m: Move, rest: Seq<Move>)
    requires
        pseudo_legal(s, m),
        legal_after(s, m),
        legal_line(make_state(s, m), rest),
    ensures
        legal_line(s, seq![m] + rest),
{
    reveal_with_fuel(legal_line, 1);
    assert((seq![m] + rest).drop_first() =~= rest);
}

/// The first move of a nonempty legal line is legal.
pub proof fn lemma_legal_line_first(s: PosState, line: Seq<Move>)
    requires
        legal_line(s, line),
        line.len() > 0,
    ensures
        pseudo_legal(s, line[0]),
        legal_after(s, line[0]),
{
    reveal_with_fuel(legal_line, 1);
}

/// Triangular principal-variation table: row `p` holds the best line found
/// at ply `p`, stored at `moves[p * MAX_PLY ..]`.
pub(crate) struct PvTable {
    moves: Vec<Move>,
    len: Vec<usize>,
}

impl PvTable {
    spec fn ok(&self) -> bool {
        &&& self.moves@.len() == MAX_PLY * MAX_PLY
        &&& self.len@.len() == MAX_PLY
        &&& forall|p: int| 0 <= p < MAX_PLY ==> #[trigger] self.len@[p] <= MAX_PLY - p
    }

    /// The line stored for ply `p`.
    #[verifier::opaque]
    spec fn row(&self, p: int) -> Seq<Move> {
        self.moves@.subrange(p * MAX_PLY, p * MAX_PLY + self.len@[p])
    }

    fn new() -> (t: PvTable)
        ensures
            t.ok(),
            forall|p: int| 0 <= p < MAX_PLY ==> #[trigger] t.row(p).len() == 0,
    {
        reveal(PvTable::row);
        let mut moves: Vec<Move> = Vec::new();
        let mut i: usize = 0;
        while i < MAX_PLY * MAX_PLY
            invariant
                i <= MAX_PLY * MAX_PLY,
                moves@.len() == i,
            decreases MAX_PLY * MAX_PLY - i,
        {
            moves.push(Move::null());
            i += 1;
        }
        let mut len: Vec<usize> = Vec::new();
        let mut j: usize = 0;
        while j < MAX_PLY
            invariant
                j <= MAX_PLY,
                len@.len() == j,
                forall|p: int| 0 <= p < j ==> #[trigger] len@[p] == 0,
            decreases MAX_PLY - j,
        {
            len.push(0);
            j += 1;
        }
        PvTable { moves, len }
    }

    fn clear_ply(&mut self, ply: usize)
        requires
            old(self).ok(),
            ply < MAX_PLY,
        ensures
            final(self).ok(),
            final(self).row(ply as int).len() == 0,
            forall|p: int| 0 <= p < MAX_PLY && p != ply ==> #[trigger] final(self).row(p) == old(self).row(p),
    {
        reveal(PvTable::row);
        self.len.set(ply, 0);
    }

    /// Row `ply` becomes `mv` followed by row `ply + 1`.
    fn update(&mut self, ply: usize, mv: Move)
        requires
            old(self).ok(),
            ply < MAX_PLY,
        ensures
            final(self).ok(),
            final(self).row(ply as int) == seq![mv] + (if ply + 1 < MAX_PLY {
                old(self).row(ply + 1)
            } else {
                Seq::empty()
            }),
            forall|p: int| 0 <= p < MAX_PLY && p != ply ==> #[trigger] final(self).row(p) == old(self).row(p),
    {
        reveal(PvTable::row);
        let child_len = if ply + 1 < MAX_PLY {
            self.len[ply + 1]
        } else {
            0
        };
        let ghost child: Seq<Move> = if ply + 1 < MAX_PLY {
            old(self).row(ply + 1)
        } else {
            Seq::empty()
        };
        assert(child.len() == child_len);
        let base = ply * MAX_PLY;
        self.moves.set(base, mv);
        let mut i: usize = 0;
        while i < child_len
            invariant
                self.moves@.len() == MAX_PLY * MAX_PLY,
                self.len@ == old(self).len@,
                old(self).ok(),
                ply < MAX_PLY,
                base == ply * MAX_PLY,
                child_len == child.len(),
                child_len + 1 <= MAX_PLY - ply,
                i <= child_len,
                ply + 1 < MAX_PLY ==> child == old(self).moves@.subrange(
                    (ply + 1) * MAX_PLY,
                    (ply + 1) * MAX_PLY + child_len,
                ),
                self.moves@[base as int] == mv,
                forall|k: int| 0 <= k < i ==> #[trigger] self.moves@[base + 1 + k] == child[k],
                forall|k: int|
                    0 <= k < MAX_PLY * MAX_PLY && !(base <= k < base + MAX_PLY) ==> #[trigger] self.moves@[k]
                        == old(self).moves@[k],
            decreases child_len - i,
        {
            let m = self.moves[(ply + 1) * MAX_PLY + i];
            self.moves.set(base + 1 + i, m);
            i += 1;
        }
        self.len.set(ply, child_len + 1);
        proof {
            assert forall|k: int| 0 <= k < child_len + 1 implies #[trigger] self.row(ply as int)[k] == (seq![mv] + child)[k] by {
                if k > 0 {
                    assert(self.moves@[base + 1 + (k - 1)] == child[k - 1]);
                }
            }
            assert(self.row(ply as int) =~= seq![mv] + child);
            assert forall|p: int| 0 <= p < MAX_PLY && p != ply implies #[trigger] self.row(p) == old(self).row(p) by {
                assert(self.row(p) =~= old(self).row(p));
            }
        }
    }

    /// The first move of the root line, if any.
    fn first(&self) -> (r: Option<Move>)
        requires
            self.ok(),
        ensures
            r is None <==> self.row(0).len() == 0,
            r matches Some(m) ==> m == self.row(0)[0],
    {
        reveal(PvTable::row);
        if self.len[0] > 0 {
            Some(self.moves[0])
        } else {
            None
        }
    }

    /// The root line.
    fn line(&self) -> (r: Vec<Move>)
        requires
            self.ok(),
        ensures
            r@ == self.row(0),
    {
        reveal(PvTable::row);
        let n = self.len[0];
        let mut r: Vec<Move> = Vec::new();
        let mut i: usize = 0;
        while i < n
            invariant
                self.ok(),
                n == self.len@[0],
                i <= n,
                r@ == self.moves@.subrange(0, i as int),
            decreases n - i,
        {
            r.push(self.moves[i]);
            i += 1;
            proof {
                assert(r@ =~= self.moves@.subrange(0, i as int));
            }
        }
        r
    }
}


/// The side to move is in check.
#[verifier::opaque]
pub open spec fn stm_in_check(s: PosState) -> bool {
    attacked(s.board, occupancy(s.board), king_square(s.board, s.stm), opposite(s.stm))
}

/// Continuation-history entry `(parent, piece, to)` moved by `bonus`,
/// clamped to ±`CONT_HIST_MAX`.
pub open spec fn cont_bumped(t: Seq<i16>, parent: (PieceType, Square), piece: PieceType, to: int, bonus: int) -> Seq<i16> {
    let i = cont_index(parent.0, parent.1@, piece, to);
    t.update(i, clamp_int(t[i] + bonus, -CONT_HIST_MAX as int, CONT_HIST_MAX as int) as i16)
}

/// The penalties for the first `n` tried quiets other than `mv`, in order.
pub open spec fn cont_penalised(
    t: Seq<i16>,
    parent: (PieceType, Square),
    tried: Seq<(Move, PieceType)>,
    mv: Move,
    bonus: int,
    n: int,
) -> Seq<i16>
    decreases n,
{
    if n <= 0 {
        t
    } else {
        let t1 = cont_penalised(t, parent, tried, mv, bonus, n - 1);
        if tried[n - 1].0 != mv {
            cont_bumped(t1, parent, tried[n - 1].1, tried[n - 1].0.spec_to(), -bonus)
        } else {
            t1
        }
    }
}

/// A continuation-history table after a quiet cutoff by `mv`: the cutoff
/// move gains `bonus`, then each other tried quiet loses it.
pub open spec fn cont_after_cutoff(
    t: Seq<i16>,
    parent: Option<(PieceType, Square)>,
    mv: Move,
    piece: PieceType,
    bonus: int,
    tried: Seq<(Move, PieceType)>,
) -> Seq<i16> {
    match parent {
        Some(par) => cont_penalised(cont_bumped(t, par, piece, mv.spec_to(), bonus), par, tried, mv, bonus, tried.len() as int),
        None => t,
    }
}

/// The side to move has a legal move.
pub open spec fn has_legal_move(s: PosState) -> bool {
    exists|m: Move| #[trigger] pseudo_legal(s, m) && legal_after(s, m)
}

/// Every score the search returns lies within ±`SCORE_MAX` (the range the
/// transposition table stores).
pub const SCORE_MAX: i32 = 32_767;

/// Deepest nominal search depth (`depth * depth` must fit an `i32`).
pub const MAX_DEPTH: i32 = 46_340;

/// Per-ply search state.
#[derive(Clone, Copy)]
struct StackEntry {
    static_eval: i32,
    current_move: Move,
    /// Piece type that made `current_move`: the continuation-history key of
    /// this ply (unused when `current_move` is the null move).
    moved_piece: PieceType,
    killers: [Move; 2],
}

fn empty_entry() -> (e: StackEntry)
    ensures
        e.current_move@ == 0,
        e.static_eval == 0,
        e.moved_piece == PieceType::Pawn,
        e.killers[0]@ == 0,
        e.killers[1]@ == 0,
{
    StackEntry {
        static_eval: 0,
        current_move: Move::null(),
        moved_piece: PieceType::Pawn,
        killers: [Move::null(), Move::null()],
    }
}

/// The stop flag's value.
fn flag_raised(flag: &AtomicBool) -> bool {
    flag.load(Ordering::Relaxed)
}

/// A second handle on the stop flag (std `Arc::clone`): the same flag.
#[verifier::external_body]
fn share_flag(flag: &Arc<AtomicBool>) -> (r: Arc<AtomicBool>)
    ensures
        r == *flag,
{
    Arc::clone(flag)
}

/// Whether `now` is at or after `deadline` (std `Instant` ordering). The
/// result is not stated: instants are opaque here.
#[verifier::external_body]
fn instant_reached(now: &Instant, deadline: &Instant) -> bool {
    now >= deadline
}

/// Late-move-reduction thresholds: for depth `d`, the `k`-th entry of row
/// `d` is the first quiet-move index whose base reduction reaches `k + 1`
/// (64: never), so that the reduction is
/// `(0.77 + ln(d) * ln(m) / 2.36)` truncated, for `d, m` in `1..64`.
fn lmr_thresholds() -> (t: Vec<u8>)
    ensures
        t@.len() == 512,
{
    let t: Vec<u8> = vec![
        64, 64, 64, 64, 64, 64, 64, 64, 64, 64, 64, 64, 64, 64, 64, 64,
        3, 64, 64, 64, 64, 64, 64, 64, 2, 15, 64, 64, 64, 64, 64, 64,
        2, 9, 45, 64, 64, 64, 64, 64, 2, 7, 27, 64, 64, 64, 64, 64,
        2, 6, 19, 64, 64, 64, 64, 64, 2, 5, 15, 51, 64, 64, 64, 64,
        2, 5, 13, 40, 64, 64, 64, 64, 2, 4, 11, 33, 64, 64, 64, 64,
        2, 4, 10, 28, 64, 64, 64, 64, 2, 4, 9, 25, 64, 64, 64, 64,
        2, 4, 9, 22, 56, 64, 64, 64, 2, 4, 8, 20, 50, 64, 64, 64,
        2, 4, 8, 18, 44, 64, 64, 64, 2, 3, 7, 17, 40, 64, 64, 64,
        2, 3, 7, 16, 37, 64, 64, 64, 2, 3, 7, 15, 34, 64, 64, 64,
        2, 3, 7, 14, 32, 64, 64, 64, 2, 3, 6, 14, 30, 64, 64, 64,
        2, 3, 6, 13, 29, 62, 64, 64, 2, 3, 6, 13, 27, 58, 64, 64,
        2, 3, 6, 12, 26, 55, 64, 64, 2, 3, 6, 12, 25, 52, 64, 64,
        2, 3, 6, 12, 24, 49, 64, 64, 2, 3, 6, 11, 23, 47, 64, 64,
        2, 3, 6, 11, 22, 45, 64, 64, 2, 3, 5, 11, 21, 43, 64, 64,
        2, 3, 5, 10, 21, 41, 64, 64, 2, 3, 5, 10, 20, 40, 64, 64,
        2, 3, 5, 10, 19, 38, 64, 64, 2, 3, 5, 10, 19, 37, 64, 64,
        2, 3, 5, 10, 18, 36, 64, 64, 2, 3, 5, 9, 18, 35, 64, 64,
        2, 3, 5, 9, 17, 34, 64, 64, 2, 3, 5, 9, 17, 33, 63, 64,
        2, 3, 5, 9, 17, 32, 61, 64, 2, 3, 5, 9, 16, 31, 59, 64,
        2, 3, 5, 9, 16, 30, 57, 64, 2, 3, 5, 9, 16, 30, 56, 64,
        2, 3, 5, 8, 15, 29, 54, 64, 2, 3, 5, 8, 15, 28, 53, 64,
        2, 3, 5, 8, 15, 28, 52, 64, 2, 3, 5, 8, 15, 27, 50, 64,
        2, 3, 5, 8, 14, 27, 49, 64, 2, 3, 4, 8, 14, 26, 48, 64,
        2, 3, 4, 8, 14, 26, 47, 64, 2, 3, 4, 8, 14, 25, 46, 64,
        2, 3, 4, 8, 14, 25, 45, 64, 2, 3, 4, 8, 14, 24, 44, 64,
        2, 3, 4, 8, 13, 24, 43, 64, 2, 3, 4, 7, 13, 24, 43, 64,
        2, 3, 4, 7, 13, 23, 42, 64, 2, 3, 4, 7, 13, 23, 41, 64,
        2, 3, 4, 7, 13, 23, 40, 64, 2, 3, 4, 7, 13, 22, 40, 64,
        2, 3, 4, 7, 12, 22, 39, 64, 2, 3, 4, 7, 12, 22, 38, 64,
        2, 3, 4, 7, 12, 21, 38, 64, 2, 3, 4, 7, 12, 21, 37, 64,
        2, 3, 4, 7, 12, 21, 37, 64, 2, 3, 4, 7, 12, 21, 36, 64,
        2, 3, 4, 7, 12, 20, 36, 63, 2, 3, 4, 7, 12, 20, 35, 62,
    ];
    t
}

/// The base-reduction table, `table[d * 64 + m]` for depth `d` and quiet
/// index `m`, each entry in `0..=8`.
fn lmr_table() -> (t: Vec<i32>)
    ensures
        t@.len() == 4096,
        forall|i: int| 0 <= i < 4096 ==> 0 <= #[trigger] t@[i] <= 8,
{
    let th = lmr_thresholds();
    let mut t: Vec<i32> = Vec::new();
    let mut d: usize = 0;
    while d < 64
        invariant
            d <= 64,
            th@.len() == 512,
            t@.len() == d * 64,
            forall|i: int| 0 <= i < t@.len() ==> 0 <= #[trigger] t@[i] <= 8,
        decreases 64 - d,
    {
        let mut m: usize = 0;
        while m < 64
            invariant
                d < 64,
                m <= 64,
                th@.len() == 512,
                t@.len() == d * 64 + m,
                forall|i: int| 0 <= i < t@.len() ==> 0 <= #[trigger] t@[i] <= 8,
            decreases 64 - m,
        {
            let mut r: i32 = 0;
            let mut k: usize = 0;
            while k < 8
                invariant
                    d < 64,
                    k <= 8,
                    th@.len() == 512,
                    0 <= r <= k,
                decreases 8 - k,
            {
                if m as u8 >= th[d * 8 + k] {
                    r += 1;
                }
                k += 1;
            }
            t.push(r);
            m += 1;
        }
        d += 1;
    }
    t
}

/// A reduction table of the right size with every entry in `0..=8`.
#[verifier::opaque]
spec fn reductions_ok(t: Seq<i32>) -> bool {
    &&& t.len() == 4096
    &&& forall|i: int| 0 <= i < 4096 ==> 0 <= #[trigger] t[i] <= 8
}

/// How far an aspiration window is from the full window: 2 while alpha is
/// above -INF, plus 1 while beta is below INF.
pub open spec fn window_openness(alpha: i32, beta: i32) -> int {
    (if alpha != -INF {
        2int
    } else {
        0int
    }) + (if beta != INF {
        1int
    } else {
        0int
    })
}

/// Bound on the aspiration width once it exceeds the score range.
pub open spec fn window_cap(m: int) -> int {
    if m >= 3 {
        131072
    } else if m == 2 {
        262144
    } else if m == 1 {
        524288
    } else {
        1048576
    }
}

/// Termination measure of the aspiration loop: the width doubles until it
/// spans the score range, after which each failure opens one side fully.
pub open spec fn aspiration_measure(delta: i32, alpha: i32, beta: i32) -> int {
    if delta < 65536 {
        4 + 65536 - delta
    } else {
        window_openness(alpha, beta)
    }
}

/// Per-iteration report for `info` lines.
pub struct IterInfo {
    pub depth: i32,
    pub score: i32,
    pub nodes: u64,
    pub elapsed_ms: u128,
    pub pv: Vec<Move>,
}

/// A search over one position, with all of its mutable state.
pub struct SearchThread<E: Evaluator> {
    pub pos: Position,
    pub eval: E,
    pub nodes: u64,
    stop: Arc<AtomicBool>,
    node_limit: Option<u64>,
    stopped: bool,
    deadline: Option<Instant>,
    overhead_ms: u64,
    pv: PvTable,
    stack: Vec<StackEntry>,
    tt: Tt,
    history: HistoryTable,
    cont_hist1: ContHist,
    cont_hist2: ContHist,
    /// Base late-move reductions, `reductions[depth * 64 + quiet_index]`.
    reductions: Vec<i32>,
}

impl<E: Evaluator> SearchThread<E> {
    /// Tables sized and bounded, table entries in range.
    pub closed spec fn inv(&self) -> bool {
        &&& self.eval.inv()
        &&& self.stack@.len() == MAX_PLY
        &&& self.history.ok()
        &&& self.cont_hist1.ok()
        &&& self.cont_hist2.ok()
        &&& reductions_ok(self.reductions@)
        &&& self.tt.len() > 0
        &&& self.tt.scores_bounded()
    }

    /// Tables and principal-variation table in order.
    pub closed spec fn valid(&self) -> bool {
        self.inv() && self.pv.ok()
    }

    /// The thread can search its position at distance `ply` from the root:
    /// tables in order, position reachable in play, and clocks that cannot
    /// overflow within the remaining plies.
    pub closed spec fn ready(&self, ply: int) -> bool {
        &&& self.inv()
        &&& self.pv.ok()
        &&& 0 <= ply < MAX_PLY
        &&& self.pos.wf()
        &&& consistent(self.pos.state())
        &&& self.pos.state().halfmove + MAX_PLY - ply < 0xFFFF
        &&& self.pos.state().fullmove + MAX_PLY - ply < 0xFFFF
    }

    /// `ready(0)` except that the position need not be reachable in play.
    pub closed spec fn root_ready(&self) -> bool {
        &&& self.inv()
        &&& self.pv.ok()
        &&& self.pos.wf()
        &&& self.pos.state().halfmove + MAX_PLY < 0xFFFF
        &&& self.pos.state().fullmove + MAX_PLY < 0xFFFF
    }

    /// A thread ready at the root is root-ready with a position reachable in
    /// play, and conversely.
    pub proof fn lemma_root_ready(&self)
        ensures
            self.ready(0) <==> self.root_ready() && consistent(self.spec_pos().state()),
    {
    }

    pub closed spec fn spec_pos(&self) -> Position {
        self.pos
    }

    pub closed spec fn spec_eval(&self) -> E {
        self.eval
    }

    pub closed spec fn spec_nodes(&self) -> u64 {
        self.nodes
    }

    pub closed spec fn spec_stop(&self) -> Arc<AtomicBool> {
        self.stop
    }

    pub closed spec fn spec_tt(&self) -> Tt {
        self.tt
    }

    pub closed spec fn spec_history(&self) -> Seq<i32> {
        self.history@
    }

    pub closed spec fn spec_node_limit(&self) -> Option<u64> {
        self.node_limit
    }

    pub closed spec fn spec_overhead_ms(&self) -> u64 {
        self.overhead_ms
    }

    pub closed spec fn spec_cont_hist1(&self) -> Seq<i16> {
        self.cont_hist1@
    }

    pub closed spec fn spec_cont_hist2(&self) -> Seq<i16> {
        self.cont_hist2@
    }

    pub closed spec fn spec_stopped(&self) -> bool {
        self.stopped
    }

    /// The table holds no entry for the position's key.
    pub open spec fn tt_misses(&self) -> bool {
        first_match(self.spec_tt().slots(self.spec_pos().state().key), fragment(self.spec_pos().state().key)) is None
    }

    /// The principal-variation line stored for ply `p`.
    pub closed spec fn pv_row(&self, p: int) -> Seq<Move> {
        self.pv.row(p)
    }

    /// The tables other than the principal variation are those of `other`.
    closed spec fn same_tables(&self, other: &Self) -> bool {
        &&& self.eval == other.eval
        &&& self.pv == other.pv
        &&& self.stack == other.stack
        &&& self.history == other.history
        &&& self.cont_hist1 == other.cont_hist1
        &&& self.cont_hist2 == other.cont_hist2
        &&& self.reductions == other.reductions
        &&& self.tt == other.tt
    }

    /// What a search of ply `ply` leaves behind: tables in order, the
    /// position back as it was, a score within range, a legal line stored
    /// for this ply, and the lines of the plies above untouched.
    pub closed spec fn searched(&self, before: Self, ply: int, r: i32) -> bool {
        &&& self.inv()
        &&& self.pv.ok()
        &&& self.pos.wf()
        &&& self.pos.same_as(&before.pos)
        &&& -SCORE_MAX <= r <= SCORE_MAX
        &&& legal_line(before.pos.state(), self.pv.row(ply))
        &&& forall|p: int| 0 <= p < ply ==> #[trigger] self.pv.row(p) == before.pv.row(p)
    }

    /// What the table invariant gives.
    proof fn lemma_inv(&self)
        requires
            self.inv(),
        ensures
            self.stack@.len() == MAX_PLY,
            self.history.ok(),
            self.cont_hist1.ok(),
            self.cont_hist2.ok(),
            self.reductions@.len() == 4096,
            forall|i: int| 0 <= i < 4096 ==> 0 <= #[trigger] self.reductions@[i] <= 8,
            self.tt.len() > 0,
            self.tt.scores_bounded(),
    {
        reveal(reductions_ok);
    }

    /// Stores an entry in the transposition table.
    fn store_tt(&mut self, mv: Move, score: i32, eval: i32, depth: i32, bound: Bound, ply: usize)
        requires
            old(self).inv(),
            old(self).pos.wf(),
            ply < MAX_PLY,
            -SCORE_MAX <= score <= SCORE_MAX,
        ensures
            final(self).inv(),
            final(self).pos == old(self).pos,
            final(self).eval == old(self).eval,
            final(self).pv == old(self).pv,
            final(self).stack == old(self).stack,
            final(self).nodes == old(self).nodes,
            final(self).stopped == old(self).stopped,
            final(self).tt.len() == old(self).tt.len(),
            final(self).tt.spec_generation() == old(self).tt.spec_generation(),
            exists|w: u64|
                stored_word(w, mv, score as int, eval as int, depth as int, old(self).tt.spec_generation() as int, bound, ply as int)
                && #[trigger] final(self).tt.contents() == old(self).tt.contents().update(
                    cluster_index(old(self).pos.state().key, old(self).tt.len() as int),
                    stored_cluster(
                        old(self).tt.slots(old(self).pos.state().key),
                        fragment(old(self).pos.state().key),
                        (old(self).tt.spec_generation() % 64) as int,
                        w,
                    ),
                ),
    {
        let key = self.pos.key();
        self.tt.store(key, mv, score, eval, depth, bound, ply);
    }

    /// Replaces the stack entry of `ply`.
    fn put_frame(&mut self, ply: usize, e: StackEntry)
        requires
            old(self).inv(),
            ply < MAX_PLY,
        ensures
            final(self).inv(),
            final(self).stack@ == old(self).stack@.update(ply as int, e),
            final(self).pos == old(self).pos,
            final(self).eval == old(self).eval,
            final(self).pv == old(self).pv,
            final(self).tt == old(self).tt,
            final(self).nodes == old(self).nodes,
            final(self).stopped == old(self).stopped,
            final(self).history == old(self).history,
            final(self).cont_hist1 == old(self).cont_hist1,
            final(self).cont_hist2 == old(self).cont_hist2,
            final(self).reductions == old(self).reductions,
    {
        self.stack.set(ply, e);
    }

    pub fn new(pos: Position, eval: E) -> (st: SearchThread<E>)
        requires
            eval.inv(),
        ensures
            st.valid(),
            st.spec_pos() == pos,
            st.spec_eval() == eval,
            st.spec_nodes() == 0,
            !st.spec_stopped(),
            st.spec_node_limit() is None,
            forall|p: int| 0 <= p < MAX_PLY ==> #[trigger] st.pv_row(p).len() == 0,
    {
        let mut stack: Vec<StackEntry> = Vec::new();
        let mut i: usize = 0;
        while i < MAX_PLY
            invariant
                i <= MAX_PLY,
                stack@.len() == i,
            decreases MAX_PLY - i,
        {
            stack.push(empty_entry());
            i += 1;
        }
        let st = SearchThread {
            pos,
            eval,
            nodes: 0,
            stop: Arc::new(AtomicBool::new(false)),
            node_limit: None,
            stopped: false,
            deadline: None,
            overhead_ms: 50,
            pv: PvTable::new(),
            stack,
            tt: Tt::new(16),
            history: HistoryTable::new(),
            cont_hist1: ContHist::new(),
            cont_hist2: ContHist::new(),
            reductions: lmr_table(),
        };
        proof {
            reveal(reductions_ok);
        }
        st
    }

    /// Shares this flag with the controlling thread; raising it aborts the
    /// search.
    pub fn stop_flag(&self) -> (r: Arc<AtomicBool>)
        ensures
            r == self.spec_stop(),
    {
        share_flag(&self.stop)
    }

    pub fn set_stop_flag(&mut self, flag: Arc<AtomicBool>)
        ensures
            final(self).spec_stop() == flag,
            final(self).valid() == old(self).valid(),
            final(self).spec_pos() == old(self).spec_pos(),
    {
        self.stop = flag;
    }

    pub fn set_node_limit(&mut self, limit: Option<u64>)
        ensures
            final(self).spec_node_limit() == limit,
            final(self).valid() == old(self).valid(),
            final(self).spec_pos() == old(self).spec_pos(),
    {
        self.node_limit = limit;
    }

    pub fn set_overhead_ms(&mut self, ms: u64)
        ensures
            final(self).spec_overhead_ms() == ms,
            final(self).valid() == old(self).valid(),
            final(self).spec_pos() == old(self).spec_pos(),
    {
        self.overhead_ms = ms;
    }

    /// Ends the search, handing back its transposition table.
    pub fn take_tt(self) -> (r: Tt)
        ensures
            r == self.spec_tt(),
    {
        self.tt
    }

    /// Searches with the given transposition table from now on.
    pub fn set_tt(&mut self, tt: Tt)
        requires
            tt.len() > 0,
            tt.scores_bounded(),
            old(self).valid(),
        ensures
            final(self).spec_tt() == tt,
            final(self).valid(),
            final(self).spec_pos() == old(self).spec_pos(),
    {
        self.tt = tt;
    }

    /// Best line from the last completed search call.
    pub fn pv_line(&self) -> (r: Vec<Move>)
        requires
            self.valid(),
        ensures
            r@ == self.pv_row(0),
    {
        self.pv.line()
    }

    pub fn was_stopped(&self) -> (r: bool)
        ensures
            r == self.spec_stopped(),
    {
        self.stopped
    }

    /// The reduction-table entry for a depth and a quiet-move index.
    pub closed spec fn spec_reduction(&self, depth: int, index: int) -> int {
        self.reductions@[depth * 64 + index] as int
    }

    /// The move recorded at ply `p`.
    pub closed spec fn ply_move(&self, p: int) -> Move {
        self.stack@[p].current_move
    }

    /// The piece type recorded as making the move of ply `p`.
    pub closed spec fn ply_piece(&self, p: int) -> PieceType {
        self.stack@[p].moved_piece
    }

    /// Every per-ply record other than the move and its piece at `ply` is
    /// that of `other`, and so are the tables.
    pub closed spec fn same_but_ply_move(&self, other: &Self, ply: int) -> bool {
        &&& self.stack@.len() == other.stack@.len()
        &&& forall|p: int| 0 <= p < self.stack@.len() && p != ply ==> #[trigger] self.stack@[p] == other.stack@[p]
        &&& self.stack@[ply].static_eval == other.stack@[ply].static_eval
        &&& self.stack@[ply].killers == other.stack@[ply].killers
        &&& self.eval == other.eval
        &&& self.tt == other.tt
        &&& self.history == other.history
        &&& self.cont_hist1 == other.cont_hist1
        &&& self.cont_hist2 == other.cont_hist2
        &&& self.reductions == other.reductions
        &&& self.nodes == other.nodes
        &&& self.stopped == other.stopped
    }

    /// Base reduction for a depth and a quiet-move index, both in `0..64`.
    pub fn reduction(&self, depth: usize, index: usize) -> (r: i32)
        requires
            self.valid(),
            depth < 64,
            index < 64,
        ensures
            0 <= r <= 8,
            r == self.spec_reduction(depth as int, index as int),
    {
        proof {
            self.lemma_inv();
        }
        self.reductions[depth * 64 + index]
    }

    pub fn history(&self) -> (h: &HistoryTable)
        ensures
            h@ == self.spec_history(),
    {
        &self.history
    }

    pub fn cont_hist1(&self) -> (h: &ContHist)
        ensures
            h@ == self.spec_cont_hist1(),
    {
        &self.cont_hist1
    }

    pub fn cont_hist2(&self) -> (h: &ContHist)
        ensures
            h@ == self.spec_cont_hist2(),
    {
        &self.cont_hist2
    }

    /// Sets one butterfly-history entry.
    pub fn set_history(&mut self, c: Color, from: Square, to: Square, value: i32)
        requires
            old(self).valid(),
            -HISTORY_LIMIT <= value <= HISTORY_LIMIT,
        ensures
            final(self).valid(),
            final(self).spec_pos() == old(self).spec_pos(),
            final(self).spec_history() == old(self).spec_history().update(hist_index(c, from@, to@), value),
    {
        self.history.set(c, from, to, value);
    }

    /// Records the move made at `ply` and the piece that made it.
    pub fn set_ply_move(&mut self, ply: usize, mv: Move, piece: PieceType)
        requires
            old(self).valid(),
            ply < MAX_PLY,
        ensures
            final(self).valid(),
            final(self).spec_pos() == old(self).spec_pos(),
            forall|p: int| #[trigger] final(self).pv_row(p) == old(self).pv_row(p),
            final(self).ply_move(ply as int) == mv,
            final(self).ply_piece(ply as int) == piece,
            final(self).same_but_ply_move(old(self), ply as int),
    {
        proof {
            self.lemma_inv();
        }
        let mut e = self.stack[ply];
        e.current_move = mv;
        e.moved_piece = piece;
        self.put_frame(ply, e);
    }

    /// The side to move has no king (only possible from an illegal setup).
    fn king_missing(&self) -> (r: bool)
        requires
            self.pos.wf(),
        ensures
            r == !has_king(self.pos.state().board, self.pos.state().stm),
    {
        proof {
            self.pos.lemma_wf_boards();
        }
        let stm = self.pos.stm();
        let bb = self.pos.piece_bb(stm, PieceType::King);
        let r = bb.is_empty();
        proof {
            if !r {
                let i = choose|i: int| 0 <= i < 64 && #[trigger] bb.has(i);
                assert(holds_king(self.pos.state().board, i, stm));
            }
            if has_king(self.pos.state().board, stm) {
                let i = choose|i: int| 0 <= i < 64 && #[trigger] holds_king(self.pos.state().board, i, stm);
                assert(bb.has(i));
            }
        }
        r
    }

    /// The side to move has a piece other than pawns and king.
    fn has_pieces(&self) -> (r: bool)
        requires
            self.pos.wf(),
        ensures
            r == exists|i: int|
                0 <= i < 64 && #[trigger] holds_color(self.pos.state().board, i, self.pos.state().stm)
                    && !(self.pos.state().board[i]->0@ % 6 == 0) && !(self.pos.state().board[i]->0@ % 6 == 5),
    {
        proof {
            self.pos.lemma_wf_boards();
        }
        let stm = self.pos.stm();
        self.pos.has_non_pawn_material(stm)
    }

    /// The side to move is in check.
    fn side_in_check(&self) -> (r: bool)
        requires
            self.pos.wf(),
        ensures
            r == stm_in_check(self.pos.state()),
    {
        proof {
            reveal(stm_in_check);
        }
        let stm = self.pos.stm();
        self.pos.in_check(stm)
    }

    /// Polled every 2048 nodes: external stop flag, node budget, deadline.
    fn should_stop(&mut self) -> (r: bool)
        ensures
            final(self).same_tables(old(self)),
            final(self).spec_pos() == old(self).spec_pos(),
            final(self).nodes == old(self).nodes,
            r == final(self).stopped,
            old(self).stopped ==> r,
    {
        if self.stopped {
            return true;
        }
        if self.nodes & 2047 == 0 {
            if flag_raised(&self.stop) {
                self.stopped = true;
            }
            if let Some(limit) = self.node_limit {
                if self.nodes >= limit {
                    self.stopped = true;
                }
            }
            if let Some(d) = &self.deadline {
                let now = instant_now();
                if instant_reached(&now, d) {
                    self.stopped = true;
                }
            }
        }
        self.stopped
    }

    /// Small jitter (±1) instead of a flat 0, against threefold blindness.
    fn draw_score(&self) -> (r: i32)
        ensures
            r == 1 || r == -1,
            r == if self.nodes & 2 == 0 {
                1i32
            } else {
                -1i32
            },
    {
        if self.nodes & 2 == 0 {
            1
        } else {
            -1
        }
    }

    /// Static eval trending up versus two plies ago (same side).
    fn improving(&self, ply: usize) -> (r: bool)
        requires
            self.inv(),
            ply < MAX_PLY,
        ensures
            r == (ply >= 2 && self.stack@[ply as int].static_eval > self.stack@[ply - 2].static_eval),
    {
        proof {
            self.lemma_inv();
        }
        ply >= 2 && self.stack[ply].static_eval > self.stack[ply - 2].static_eval
    }

    /// On a beta cutoff: a quiet cutoff move becomes the first killer and
    /// gets a `depth²` butterfly bonus; a quiet cutoff also bumps the
    /// continuation histories of the cutoff move and penalises the quiets
    /// tried before it.
    fn on_cutoff(
        &mut self,
        mv: Move,
        moved_piece: PieceType,
        is_quiet: bool,
        depth: i32,
        ply: usize,
        ch1: Option<(PieceType, Square)>,
        ch2: Option<(PieceType, Square)>,
        tried: &Vec<(Move, PieceType)>,
    )
        requires
            old(self).inv(),
            ply < MAX_PLY,
            1 <= depth <= MAX_DEPTH,
        ensures
            final(self).inv(),
            final(self).pos == old(self).pos,
            final(self).eval == old(self).eval,
            final(self).pv == old(self).pv,
            final(self).tt == old(self).tt,
            final(self).stopped == old(self).stopped,
            final(self).nodes == old(self).nodes,
            mv.spec_is_capture() ==> final(self).stack == old(self).stack && final(self).history == old(self).history,
            !mv.spec_is_capture() ==> {
                let e = old(self).stack@[ply as int];
                let f = final(self).stack@[ply as int];
                &&& final(self).stack@.len() == old(self).stack@.len()
                &&& forall|p: int| 0 <= p < MAX_PLY && p != ply ==> #[trigger] final(self).stack@[p] == old(self).stack@[p]
                &&& f.static_eval == e.static_eval
                &&& f.current_move == e.current_move
                &&& f.moved_piece == e.moved_piece
                &&& f.killers[0] == mv
                &&& f.killers[1] == if e.killers[0] == mv {
                    e.killers[1]
                } else {
                    e.killers[0]
                }
            },
            !mv.spec_is_capture() ==> {
                let i = hist_index(old(self).pos.state().stm, mv.spec_from(), mv.spec_to());
                final(self).history@ == old(self).history@.update(
                    i,
                    if old(self).history@[i] + depth * depth > 799_999 {
                        799_999
                    } else {
                        old(self).history@[i] + depth * depth
                    } as i32,
                )
            },
            final(self).cont_hist1@ == if is_quiet {
                cont_after_cutoff(
                    old(self).cont_hist1@,
                    ch1,
                    mv,
                    moved_piece,
                    if depth * depth > 400 { 400 } else { depth * depth },
                    tried@,
                )
            } else {
                old(self).cont_hist1@
            },
            final(self).cont_hist2@ == if is_quiet {
                cont_after_cutoff(
                    old(self).cont_hist2@,
                    ch2,
                    mv,
                    moved_piece,
                    if depth * depth > 400 { 400 } else { depth * depth },
                    tried@,
                )
            } else {
                old(self).cont_hist2@
            },
    {
        assert(0 <= depth * depth <= 46_340 * 46_340) by (nonlinear_arith)
            requires
                1 <= depth <= 46_340,
        ;
        if !mv.is_capture() {
            let mut e = self.stack[ply];
            if e.killers[0] != mv {
                e.killers = [mv, e.killers[0]];
            }
            self.put_frame(ply, e);
            proof {
                assert forall|p: int| 0 <= p < MAX_PLY && p != ply implies #[trigger] self.stack@[p] == old(self).stack@[p] by {}
            }
            let stm = self.pos.stm();
            let h = self.history.get(stm, mv.from(), mv.to()) as i64 + (depth as i64) * (depth as i64);
            let v: i32 = if h > 799_999 {
                799_999
            } else {
                h as i32
            };
            self.history.set(stm, mv.from(), mv.to(), v);
        }
        if is_quiet {
            let dd = depth * depth;
            let bonus: i16 = if dd > 400 {
                400
            } else {
                dd as i16
            };
            let to = mv.to();
            let ghost h1 = self.cont_hist1@;
            let ghost h2 = self.cont_hist2@;
            if let Some(parent) = ch1 {
                bump_cont_hist(&mut self.cont_hist1, parent, moved_piece, to, bonus);
            }
            if let Some(parent) = ch2 {
                bump_cont_hist(&mut self.cont_hist2, parent, moved_piece, to, bonus);
            }
            let ghost st = self.stack;
            let ghost hist = self.history;
            let mut i: usize = 0;
            while i < tried.len()
                invariant
                    self.inv(),
                    i <= tried@.len(),
                    0 <= bonus <= 400,
                    bonus == (if depth * depth > 400 { 400 } else { depth * depth }),
                    self.pos == old(self).pos,
                    self.eval == old(self).eval,
                    self.pv == old(self).pv,
                    self.tt == old(self).tt,
                    self.stopped == old(self).stopped,
                    self.nodes == old(self).nodes,
                    self.stack == st,
                    self.history == hist,
                    self.cont_hist1@ == match ch1 {
                        Some(par) => cont_penalised(cont_bumped(h1, par, moved_piece, mv.spec_to(), bonus as int), par, tried@, mv, bonus as int, i as int),
                        None => h1,
                    },
                    self.cont_hist2@ == match ch2 {
                        Some(par) => cont_penalised(cont_bumped(h2, par, moved_piece, mv.spec_to(), bonus as int), par, tried@, mv, bonus as int, i as int),
                        None => h2,
                    },
                decreases tried@.len() - i,
            {
                let (tq_mv, tq_piece) = tried[i];
                if tq_mv != mv {
                    if let Some(parent) = ch1 {
                        bump_cont_hist(&mut self.cont_hist1, parent, tq_piece, tq_mv.to(), -bonus);
                    }
                    if let Some(parent) = ch2 {
                        bump_cont_hist(&mut self.cont_hist2, parent, tq_piece, tq_mv.to(), -bonus);
                    }
                }
                i += 1;
            }
        }
    }

    /// Alpha-beta search of the position at `ply` to nominal `depth` within
    /// the window `(alpha, beta)`.
    #[verifier::rlimit(60)]
    pub fn negamax(&mut self, depth: i32, alpha: i32, beta: i32, ply: usize) -> (r: i32)
        requires
            old(self).ready(ply as int),
            -INF <= alpha < beta <= INF,
            depth <= MAX_DEPTH,
        ensures
            final(self).searched(*old(self), ply as int, r),
            ply == 0 && depth >= 1 && !final(self).spec_stopped() && !has_legal_move(old(self).spec_pos().state())
                ==> if stm_in_check(old(self).spec_pos().state()) {
                r == -MATE
            } else {
                r == 1 || r == -1
            },
            // below the root, a position whose key occurred an even number
            // of plies back within the reversible-move window is a draw
            ply > 0 && !final(self).spec_stopped() && (exists|d: int|
                2 <= d <= old(self).spec_pos().state().halfmove && d <= old(self).spec_pos().trail().2.len() && d % 2
                    == 0 && #[trigger] old(self).spec_pos().trail().2[old(self).spec_pos().trail().2.len() - d]
                    == old(self).spec_pos().state().key) ==> r == 1 || r == -1,
            // below the root, after fifty moves without capture or pawn
            // move the game is drawn unless the side to move is mated
            ply > 0 && !final(self).spec_stopped() && old(self).spec_pos().state().halfmove >= 100 && (has_legal_move(
                old(self).spec_pos().state(),
            ) || !stm_in_check(old(self).spec_pos().state())) ==> r == 1 || r == -1,
        decreases MAX_PLY - ply, 7int,
    {
        let ghost s0 = self.pos.state();
        proof {
            self.lemma_inv();
        }
        self.pv.clear_ply(ply);
        proof {
            lemma_legal_line_empty(s0, self.pv.row(ply as int));
        }
        if self.should_stop() {
            return 0;
        }
        proof {
            self.pos.lemma_wf_state();
        }
        // no king for the side to move: only reachable from an illegal
        // setup; scored as already mated
        if self.king_missing() {
            return -(MATE - ply as i32);
        }
        if ply > 0 {
            if self.pos.is_repetition() {
                return self.draw_score();
            }
            if self.pos.is_fifty_move_draw() {
                return self.fifty_move_score(ply);
            }
        }
        if depth <= 0 {
            return self.qsearch(alpha, beta, ply);
        }
        // interior node (horizon nodes are counted by qsearch)
        self.nodes = self.nodes.wrapping_add(1);
        if ply >= MAX_PLY - 1 {
            return self.eval.evaluate(&self.pos);
        }
        self.interior(depth, alpha, beta, ply)
    }

    /// An interior node of `negamax` below the horizon: TT cutoffs, static
    /// evaluation, reverse futility and null-move pruning, then the moves.
    #[verifier::rlimit(60)]
    fn interior(&mut self, depth: i32, alpha: i32, beta: i32, ply: usize) -> (r: i32)
        requires
            old(self).ready(ply as int),
            ply < MAX_PLY - 1,
            -INF <= alpha < beta <= INF,
            1 <= depth <= MAX_DEPTH,
            legal_line(old(self).pos.state(), old(self).pv.row(ply as int)),
        ensures
            final(self).searched(*old(self), ply as int, r),
            ply == 0 && !has_legal_move(old(self).pos.state()) ==> if stm_in_check(old(self).pos.state()) {
                r == -MATE
            } else {
                r == 1 || r == -1
            },
        decreases MAX_PLY - ply, 6int,
    {
        let ghost s0 = self.pos.state();
        proof {
            self.lemma_inv();
            self.pos.lemma_wf_state();
        }
        let stm = self.pos.stm();
        let tt_hit = self.tt.probe(self.pos.key(), ply);
        if ply > 0 {
            if let Some(h) = tt_hit {
                if h.depth >= depth {
                    match h.bound {
                        Bound::Exact => {
                            return h.score;
                        },
                        Bound::Lower => {
                            if h.score >= beta {
                                return h.score;
                            }
                        },
                        Bound::Upper => {
                            if h.score <= alpha {
                                return h.score;
                            }
                        },
                    }
                }
            }
        }
        let tt_move = match tt_hit {
            Some(h) => h.mv,
            None => Move::null(),
        };
        let in_check = self.side_in_check();
        // static eval: the TT's cached value when present, else computed
        let static_eval = match tt_hit {
            Some(h) => {
                if h.eval != EVAL_NONE {
                    h.eval
                } else {
                    self.eval.evaluate(&self.pos)
                }
            },
            None => self.eval.evaluate(&self.pos),
        };
        let mut e = self.stack[ply];
        e.static_eval = static_eval;
        self.put_frame(ply, e);
        self.prune_or_search(depth, alpha, beta, ply, tt_move, in_check, static_eval)
    }

    /// Reverse futility and null-move pruning, else the move loop.
    #[verifier::rlimit(60)]
    fn prune_or_search(
        &mut self,
        depth: i32,
        alpha: i32,
        beta: i32,
        ply: usize,
        tt_move: Move,
        in_check: bool,
        static_eval: i32,
    ) -> (r: i32)
        requires
            old(self).ready(ply as int),
            ply < MAX_PLY - 1,
            -INF <= alpha < beta <= INF,
            1 <= depth <= MAX_DEPTH,
            -32768 <= static_eval <= 32767,
            in_check == stm_in_check(old(self).pos.state()),
            legal_line(old(self).pos.state(), old(self).pv.row(ply as int)),
        ensures
            final(self).searched(*old(self), ply as int, r),
            ply == 0 && !has_legal_move(old(self).pos.state()) ==> if in_check {
                r == -MATE
            } else {
                r == 1 || r == -1
            },
        decreases MAX_PLY - ply, 5int,
    {
        proof {
            self.lemma_inv();
        }
        let improving = self.improving(ply);
        // reverse futility: a shallow node already beating beta by a margin
        // (never in the mate range)
        if ply > 0 && !in_check && depth <= 6 && -MATE_BOUND < beta && beta < MATE_BOUND
            && -MATE_BOUND < static_eval && static_eval < MATE_BOUND {
            let margin = (if improving {
                60
            } else {
                80
            }) * depth;
            if static_eval - margin >= beta {
                return static_eval;
            }
        }
        // null move: if passing the turn still leaves the opponent unable to
        // get under beta, the node is prunable
        if ply > 0 && !in_check && depth >= 3 && static_eval >= beta
            && self.stack[ply - 1].current_move.raw() != 0 && self.has_pieces() {
            let score = self.null_move_score(depth, beta, ply);
            if self.stopped {
                return 0;
            }
            if score >= beta {
                // never return unproven mate scores from a null search
                return if score >= MATE_BOUND {
                    beta
                } else {
                    score
                };
            }
        }
        self.search_moves(depth, alpha, beta, ply, tt_move, in_check, static_eval)
    }

    /// The score of passing the turn: a reduced null-window search of the
    /// position with the other side to move.
    fn null_move_score(&mut self, depth: i32, beta: i32, ply: usize) -> (r: i32)
        requires
            old(self).ready(ply as int),
            ply < MAX_PLY - 1,
            -INF < beta <= INF,
            3 <= depth <= MAX_DEPTH,
            !stm_in_check(old(self).pos.state()),
        ensures
            final(self).inv(),
            final(self).pv.ok(),
            final(self).pos.wf(),
            final(self).pos.same_as(&old(self).pos),
            -SCORE_MAX <= r <= SCORE_MAX,
            forall|p: int| 0 <= p <= ply ==> #[trigger] final(self).pv.row(p) == old(self).pv.row(p),
        decreases MAX_PLY - ply, 4int,
    {
        let ghost s0 = self.pos.state();
        let ghost t0 = self.pos.trail();
        proof {
            self.lemma_inv();
        }
        let mut e = self.stack[ply];
        e.current_move = Move::null();
        e.moved_piece = PieceType::Pawn;
        self.put_frame(ply, e);
        self.pos.make_null();
        assert(consistent(null_state(s0))) by {
            reveal(stm_in_check);
            lemma_null_consistent(s0);
        }
        let ghost before = *self;
        let score = -self.negamax(depth - 1 - 3, -beta, -beta + 1, ply + 1);
        let ghost after = *self;
        self.pos.unmake_null();
        proof {
            assert(self.pos.trail().0 =~= t0.0);
            assert(self.pos.trail().1 =~= t0.1);
            assert(self.pos.trail().2 =~= t0.2);
            assert forall|p: int| 0 <= p <= ply implies #[trigger] self.pv.row(p) == old(self).pv.row(p) by {
                assert(after.pv.row(p) == before.pv.row(p));
            }
        }
        score
    }

    /// The move loop of `negamax`: ordered moves, futility skipping, late
    /// move reductions, history updates on cutoffs, and the TT store.
    #[verifier::rlimit(100)]
    fn search_moves(
        &mut self,
        depth: i32,
        alpha: i32,
        beta: i32,
        ply: usize,
        tt_move: Move,
        in_check: bool,
        static_eval: i32,
    ) -> (r: i32)
        requires
            old(self).ready(ply as int),
            ply < MAX_PLY - 1,
            -INF <= alpha < beta <= INF,
            1 <= depth <= MAX_DEPTH,
            -32768 <= static_eval <= 32767,
            legal_line(old(self).pos.state(), old(self).pv.row(ply as int)),
        ensures
            final(self).searched(*old(self), ply as int, r),
            !has_legal_move(old(self).pos.state()) ==> if in_check {
                r == -(MATE - ply)
            } else {
                r == 1 || r == -1
            },
        decreases MAX_PLY - ply, 4int,
    {
        let ghost s0 = self.pos.state();
        proof {
            self.lemma_inv();
        }
        let stm = self.pos.stm();
        let killers = self.stack[ply].killers;
        // continuation-history keys: (piece, to) of the moves one and two
        // plies ago, when those were real moves
        let ch1 = if ply >= 1 && self.stack[ply - 1].current_move.raw() != 0 {
            let e = self.stack[ply - 1];
            Some((e.moved_piece, e.current_move.to()))
        } else {
            None
        };
        let ch2 = if ply >= 2 && self.stack[ply - 2].current_move.raw() != 0 {
            let e = self.stack[ply - 2];
            Some((e.moved_piece, e.current_move.to()))
        } else {
            None
        };
        let futile = ply > 0 && !in_check && depth <= 2 && -MATE_BOUND < alpha && alpha < MATE_BOUND
            && static_eval + 90 * depth + 120 <= alpha;
        let mut picker = MovePicker::new(
            &self.pos,
            tt_move,
            killers,
            &self.history,
            &self.cont_hist1,
            &self.cont_hist2,
            ch1,
            ch2,
            stm,
        );
        let mut alpha = alpha;
        let mut legal: usize = 0;
        let mut quiet_count: usize = 0;
        let mut best: i32 = -INF;
        let mut best_move = Move::null();
        // quiets tried so far (with their pieces), for the cutoff malus
        let mut tried: Vec<(Move, PieceType)> = Vec::new();
        loop
            invariant_except_break
                alpha < beta,
            invariant
                self.ready(ply as int),
                self.pos.same_as(&old(self).pos),
                s0 == old(self).pos.state(),
                ply < MAX_PLY - 1,
                1 <= depth <= MAX_DEPTH,
                -INF <= alpha,
                beta <= INF,
                picker.ok(),
                picker.state() == s0,
                legal <= picker.cursor(),
                quiet_count <= legal,
                legal == 0 ==> best == -INF,
                legal > 0 ==> -SCORE_MAX <= best <= SCORE_MAX,
                legal > 0 ==> has_legal_move(s0),
                tried@.len() <= 64,
                legal_line(s0, self.pv.row(ply as int)),
                forall|p: int| 0 <= p < ply ==> #[trigger] self.pv.row(p) == old(self).pv.row(p),
            ensures
                self.ready(ply as int),
                self.pos.same_as(&old(self).pos),
                legal == 0 ==> best == -INF,
                legal > 0 ==> -SCORE_MAX <= best <= SCORE_MAX,
                legal > 0 ==> has_legal_move(s0),
                legal_line(s0, self.pv.row(ply as int)),
                forall|p: int| 0 <= p < ply ==> #[trigger] self.pv.row(p) == old(self).pv.row(p),
            decreases picker.moves().len() - picker.cursor(),
        {
            let mv = match picker.next() {
                Some(m) => m,
                None => {
                    break;
                },
            };
            // futility: at very shallow depth with a hopeless eval, quiet
            // moves cannot recover
            if futile && legal > 0 && !mv.is_capture() && !mv.is_promotion() {
                continue;
            }
            let ghost ls = *self;
            let outcome = self.play_child(
                mv,
                depth,
                alpha,
                beta,
                ply,
                legal == 0,
                in_check,
                killers,
                ch1,
                ch2,
                stm,
                &mut quiet_count,
                &mut tried,
            );
            let (score, moved_piece) = match outcome {
                Some(x) => x,
                None => {
                    continue;
                },
            };
            proof {
                assert(pseudo_legal(s0, mv) && legal_after(s0, mv));
            }
            legal += 1;
            if self.stopped {
                return 0;
            }
            if score > best {
                best = score;
                if score > alpha {
                    alpha = score;
                    best_move = mv;
                    let ghost child = self.pv.row(ply + 1);
                    let ghost pu = *self;
                    self.pv.update(ply, mv);
                    proof {
                        lemma_legal_line_cons(s0, mv, child);
                        assert forall|p: int| 0 <= p < ply implies #[trigger] self.pv.row(p) == old(self).pv.row(p) by {
                            assert(pu.pv.row(p) == ls.pv.row(p));
                            assert(ls.pv.row(p) == old(self).pv.row(p));
                        }
                    }
                    if alpha >= beta {
                        let is_quiet = !mv.is_capture() && !mv.is_promotion();
                        let ghost pre = *self;
                        self.on_cutoff(mv, moved_piece, is_quiet, depth, ply, ch1, ch2, &tried);
                        proof {
                            assert(self.pv.row(ply as int) == pre.pv.row(ply as int));
                            assert forall|p: int| 0 <= p < ply implies #[trigger] self.pv.row(p) == old(self).pv.row(p) by {
                                assert(pre.pv.row(p) == old(self).pv.row(p));
                            }
                        }
                        break;
                    }
                }
            }
        }
        if legal == 0 {
            // no legal move: checkmate or stalemate (not stored)
            return if in_check {
                -(MATE - ply as i32)
            } else {
                self.draw_score()
            };
        }
        let bound = if best >= beta {
            Bound::Lower
        } else if best_move.raw() != 0 {
            Bound::Exact
        } else {
            Bound::Upper
        };
        let ghost pre = *self;
        self.store_tt(best_move, best, static_eval, depth, bound, ply);
        proof {
            assert(self.pv.row(ply as int) == pre.pv.row(ply as int));
            assert forall|p: int| 0 <= p < ply implies #[trigger] self.pv.row(p) == old(self).pv.row(p) by {
                assert(pre.pv.row(p) == old(self).pv.row(p));
            }
        }
        best
    }

    /// Plays `mv` from the node at `ply` and searches the reply: the first
    /// legal move with the full window, later ones through
    /// `late_move_score`. None when `mv` leaves the mover in check;
    /// otherwise the score from the mover's side and the piece that moved.
    fn play_child(
        &mut self,
        mv: Move,
        depth: i32,
        alpha: i32,
        beta: i32,
        ply: usize,
        first: bool,
        in_check: bool,
        killers: [Move; 2],
        ch1: Option<(PieceType, Square)>,
        ch2: Option<(PieceType, Square)>,
        stm: Color,
        quiet_count: &mut usize,
        tried: &mut Vec<(Move, PieceType)>,
    ) -> (r: Option<(i32, PieceType)>)
        requires
            old(self).ready(ply as int),
            ply < MAX_PLY - 1,
            pseudo_legal(old(self).pos.state(), mv),
            -INF <= alpha < beta <= INF,
            1 <= depth <= MAX_DEPTH,
            *old(quiet_count) < usize::MAX,
            old(tried)@.len() <= 64,
        ensures
            final(self).ready(ply as int),
            final(self).pos.same_as(&old(self).pos),
            r is Some <==> legal_after(old(self).pos.state(), mv),
            r matches Some((_, pt)) ==> pt == old(self).pos.state().board[mv.spec_from()]->0.spec_type(),
            r matches Some((score, _)) ==> -SCORE_MAX <= score <= SCORE_MAX,
            r is Some ==> legal_line(
                make_state(old(self).pos.state(), mv),
                final(self).pv.row(ply + 1),
            ),
            forall|p: int| 0 <= p <= ply ==> #[trigger] final(self).pv.row(p) == old(self).pv.row(p),
            *final(quiet_count) <= *old(quiet_count) + 1,
            r is None ==> *final(quiet_count) == *old(quiet_count),
            final(tried)@.len() <= 64,
            final(self).stopped == old(self).stopped || r is Some,
        decreases MAX_PLY - ply, 3int,
    {
        let ghost s0 = self.pos.state();
        let ghost t0 = self.pos.trail();
        proof {
            self.pos.lemma_wf_state();
            lemma_pseudo_legal_move_ok(s0, mv);
        }
        // the moving piece (read before make empties the origin)
        let moved_piece = match self.pos.piece_on(mv.from()) {
            Some(p) => p.piece_type(),
            None => PieceType::Pawn,
        };
        if !self.pos.make(mv) {
            return None;
        }
        proof {
            lemma_make_consistent(s0, mv);
            lemma_make_clocks(s0, mv);
        }
        let score = self.reply_score(
            mv,
            moved_piece,
            depth,
            alpha,
            beta,
            ply,
            first,
            in_check,
            killers,
            ch1,
            ch2,
            stm,
            quiet_count,
            tried,
            Ghost(s0),
            Ghost(t0),
        );
        Some((score, moved_piece))
    }

    /// With `mv` just made from `s0`, searches the reply, then takes the
    /// move back. The score is from the mover's side.
    #[verifier::rlimit(60)]
    fn reply_score(
        &mut self,
        mv: Move,
        moved_piece: PieceType,
        depth: i32,
        alpha: i32,
        beta: i32,
        ply: usize,
        first: bool,
        in_check: bool,
        killers: [Move; 2],
        ch1: Option<(PieceType, Square)>,
        ch2: Option<(PieceType, Square)>,
        stm: Color,
        quiet_count: &mut usize,
        tried: &mut Vec<(Move, PieceType)>,
        Ghost(s0): Ghost<PosState>,
        Ghost(t0): Ghost<(Seq<PosState>, Seq<Undo>, Seq<u64>)>,
    ) -> (r: i32)
        requires
            old(self).ready(ply + 1),
            ply < MAX_PLY - 1,
            old(self).pos.top_is_move(),
            old(self).pos.prev_state() == s0,
            old(self).pos.state() == make_state(s0, mv),
            old(self).pos.trail().0 == t0.0.push(s0),
            old(self).pos.trail().1.drop_last() == t0.1,
            old(self).pos.trail().2 == t0.2.push(s0.key),
            consistent(s0),
            s0.halfmove + MAX_PLY - ply < 0xFFFF,
            s0.fullmove + MAX_PLY - ply < 0xFFFF,
            -INF <= alpha < beta <= INF,
            1 <= depth <= MAX_DEPTH,
            *old(quiet_count) < usize::MAX,
            old(tried)@.len() <= 64,
        ensures
            final(self).ready(ply as int),
            final(self).pos.state() == s0,
            final(self).pos.trail() == t0,
            -SCORE_MAX <= r <= SCORE_MAX,
            legal_line(make_state(s0, mv), final(self).pv.row(ply + 1)),
            forall|p: int| 0 <= p <= ply ==> #[trigger] final(self).pv.row(p) == old(self).pv.row(p),
            *final(quiet_count) <= *old(quiet_count) + 1,
            final(tried)@.len() <= 64,
        decreases MAX_PLY - ply, 2int,
    {
        proof {
            self.lemma_inv();
        }
        self.eval.on_make(mv, &self.pos);
        let mut e = self.stack[ply];
        e.current_move = mv;
        e.moved_piece = moved_piece;
        self.put_frame(ply, e);
        let is_quiet = !mv.is_capture() && !mv.is_promotion();
        if is_quiet && tried.len() < 64 {
            tried.push((mv, moved_piece));
        }
        let ghost before = *self;
        let score = if first {
            -self.negamax(depth - 1, -beta, -alpha, ply + 1)
        } else {
            self.late_move_score(
                mv,
                moved_piece,
                depth,
                alpha,
                beta,
                ply,
                in_check,
                killers,
                ch1,
                ch2,
                stm,
                quiet_count,
            )
        };
        let ghost after = *self;
        self.pos.unmake();
        self.eval.on_unmake(mv, &self.pos);
        proof {
            assert(self.pos.trail().0 =~= t0.0);
            assert(self.pos.trail().1 =~= t0.1);
            assert(self.pos.trail().2 =~= t0.2);
            assert forall|p: int| 0 <= p <= ply implies #[trigger] self.pv.row(p) == old(self).pv.row(p) by {
                assert(after.pv.row(p) == before.pv.row(p));
            }
            assert(self.pv.row(ply + 1) == after.pv.row(ply + 1));
        }
        score
    }

    /// A move after the first: a reduced-depth null-window scout for late
    /// quiets, re-searched at full depth when it beats alpha, then with the
    /// full window when it lands inside it.
    #[verifier::rlimit(60)]
    fn late_move_score(
        &mut self,
        mv: Move,
        moved_piece: PieceType,
        depth: i32,
        alpha: i32,
        beta: i32,
        ply: usize,
        in_check: bool,
        killers: [Move; 2],
        ch1: Option<(PieceType, Square)>,
        ch2: Option<(PieceType, Square)>,
        stm: Color,
        quiet_count: &mut usize,
    ) -> (r: i32)
        requires
            old(self).ready(ply + 1),
            -INF <= alpha < beta <= INF,
            1 <= depth <= MAX_DEPTH,
            *old(quiet_count) < usize::MAX,
        ensures
            final(self).inv(),
            final(self).pv.ok(),
            final(self).pos.wf(),
            final(self).pos.same_as(&old(self).pos),
            -SCORE_MAX <= r <= SCORE_MAX,
            legal_line(old(self).pos.state(), final(self).pv.row(ply + 1)),
            forall|p: int| 0 <= p <= ply ==> #[trigger] final(self).pv.row(p) == old(self).pv.row(p),
            *final(quiet_count) <= *old(quiet_count) + 1,
        decreases MAX_PLY - ply, 1int,
    {
        proof {
            self.lemma_inv();
        }
        let mut r: i32 = 0;
        if !in_check && !mv.is_capture() && !mv.is_promotion() {
            *quiet_count = *quiet_count + 1;
            let is_killer = mv == killers[0] || mv == killers[1];
            if depth >= 3 && *quiet_count >= 3 && !is_killer {
                let di: usize = if depth > 63 {
                    63
                } else {
                    depth as usize
                };
                let qi: usize = if *quiet_count > 63 {
                    63
                } else {
                    *quiet_count
                };
                r = self.reductions[di * 64 + qi];
                // history adjustment: hot quiets reduce less, cold ones more
                let hist = quiet_history(
                    &self.history,
                    &self.cont_hist1,
                    &self.cont_hist2,
                    ch1,
                    ch2,
                    stm,
                    moved_piece,
                    mv.from(),
                    mv.to(),
                );
                let hd = hist / 8_000;
                let adj: i32 = if hd < -2 {
                    -2
                } else if hd > 2 {
                    2
                } else {
                    hd
                };
                r = r - adj;
                // never reduce into qsearch
                r = if r < 0 {
                    0
                } else if r > depth - 2 {
                    depth - 2
                } else {
                    r
                };
            }
        }
        let ghost s_in = *self;
        let mut zw = -self.negamax(depth - 1 - r, -alpha - 1, -alpha, ply + 1);
        let ghost s1 = *self;
        if r > 0 && zw > alpha && !self.stopped {
            zw = -self.negamax(depth - 1, -alpha - 1, -alpha, ply + 1);
        }
        let ghost s2 = *self;
        proof {
            assert forall|p: int| 0 <= p <= ply implies #[trigger] s2.pv.row(p) == old(self).pv.row(p) by {
                assert(s1.pv.row(p) == s_in.pv.row(p));
            }
        }
        let res = if zw > alpha && zw < beta && !self.stopped {
            -self.negamax(depth - 1, -beta, -alpha, ply + 1)
        } else {
            zw
        };
        proof {
            assert forall|p: int| 0 <= p <= ply implies #[trigger] self.pv.row(p) == old(self).pv.row(p) by {
                assert(s2.pv.row(p) == old(self).pv.row(p));
            }
        }
        res
    }

    /// Quiescence search: stand pat, then captures (all moves when in
    /// check), skipping captures that lose material outright.
    #[verifier::rlimit(100)]
    pub fn qsearch(&mut self, alpha: i32, beta: i32, ply: usize) -> (r: i32)
        requires
            old(self).ready(ply as int),
            -INF <= alpha < beta <= INF,
        ensures
            final(self).searched(*old(self), ply as int, r),
            !final(self).spec_stopped() && ply < MAX_PLY - 1 && old(self).tt_misses() && !stm_in_check(
                old(self).spec_pos().state(),
            ) ==> {
                let sp = old(self).spec_eval().static_value(&old(self).spec_pos()) as int;
                &&& r >= sp
                &&& sp >= beta ==> r == sp
            },
            !final(self).spec_stopped() && ply < MAX_PLY - 1 && old(self).tt_misses() && stm_in_check(
                old(self).spec_pos().state(),
            ) && !has_legal_move(old(self).spec_pos().state()) ==> r == -(MATE - ply),
        decreases MAX_PLY - ply, 3int,
    {
        let ghost s0 = self.pos.state();
        proof {
            self.lemma_inv();
        }
        self.pv.clear_ply(ply);
        proof {
            lemma_legal_line_empty(s0, self.pv.row(ply as int));
        }
        self.nodes = self.nodes.wrapping_add(1);
        if self.should_stop() {
            return 0;
        }
        if ply >= MAX_PLY - 1 {
            return self.eval.evaluate(&self.pos);
        }
        proof {
            self.pos.lemma_wf_state();
        }
        if self.king_missing() {
            return -(MATE - ply as i32);
        }
        // any stored depth dominates a qsearch node
        let ghost tt_before = self.tt;
        proof {
            self.tt.lemma_slots(self.pos.state().key);
        }
        let tt_hit = self.tt.probe(self.pos.key(), ply);
        if let Some(h) = tt_hit {
            match h.bound {
                Bound::Exact => {
                    return h.score;
                },
                Bound::Lower => {
                    if h.score >= beta {
                        return h.score;
                    }
                },
                Bound::Upper => {
                    if h.score <= alpha {
                        return h.score;
                    }
                },
            }
        }
        let tt_move = match tt_hit {
            Some(h) => h.mv,
            None => Move::null(),
        };
        let in_check = self.side_in_check();
        if in_check {
            // no stand-pat while in check: an evasion must be found
            let mut e = self.stack[ply];
            e.static_eval = EVAL_NONE;
            self.put_frame(ply, e);
            self.qsearch_moves(alpha, beta, ply, tt_move, true, -INF, EVAL_NONE)
        } else {
            let stand_pat = self.eval.evaluate(&self.pos);
            let mut e = self.stack[ply];
            e.static_eval = stand_pat;
            self.put_frame(ply, e);
            if stand_pat >= beta {
                self.store_tt(Move::null(), stand_pat, stand_pat, 0, Bound::Lower, ply);
                return stand_pat;
            }
            self.qsearch_moves(alpha, beta, ply, tt_move, false, stand_pat, stand_pat)
        }
    }

    /// The move loop of `qsearch`, from `best` (the stand-pat score, or
    /// -INF in check).
    #[verifier::rlimit(100)]
    fn qsearch_moves(
        &mut self,
        alpha: i32,
        beta: i32,
        ply: usize,
        tt_move: Move,
        in_check: bool,
        best: i32,
        static_eval: i32,
    ) -> (r: i32)
        requires
            old(self).ready(ply as int),
            ply < MAX_PLY - 1,
            -INF <= alpha < beta <= INF,
            in_check ==> best == -INF,
            !in_check ==> -SCORE_MAX <= best < beta,
            legal_line(old(self).pos.state(), old(self).pv.row(ply as int)),
        ensures
            final(self).searched(*old(self), ply as int, r),
            in_check && !has_legal_move(old(self).pos.state()) ==> r == -(MATE - ply),
            !in_check && !final(self).stopped ==> r >= best,
        decreases MAX_PLY - ply, 2int,
    {
        let ghost s0 = self.pos.state();
        proof {
            self.lemma_inv();
        }
        let stm = self.pos.stm();
        let orig_alpha = alpha;
        let mut alpha = if best > alpha {
            best
        } else {
            alpha
        };
        let ghost best0 = best;
        let mut best = best;
        let mut best_move = Move::null();
        let mut picker = MovePicker::new(
            &self.pos,
            tt_move,
            [Move::null(), Move::null()],
            &self.history,
            &self.cont_hist1,
            &self.cont_hist2,
            None,
            None,
            stm,
        );
        let mut legal: usize = 0;
        loop
            invariant_except_break
                alpha < beta,
            invariant
                self.ready(ply as int),
                self.pos.same_as(&old(self).pos),
                s0 == old(self).pos.state(),
                ply < MAX_PLY - 1,
                -INF <= alpha,
                beta <= INF,
                picker.ok(),
                picker.state() == s0,
                legal <= picker.cursor(),
                !in_check || legal > 0 ==> -SCORE_MAX <= best <= SCORE_MAX,
                in_check && legal == 0 ==> best == -INF,
                in_check && legal > 0 ==> has_legal_move(s0),
                !in_check ==> best >= best0,
                legal_line(s0, self.pv.row(ply as int)),
                forall|p: int| 0 <= p < ply ==> #[trigger] self.pv.row(p) == old(self).pv.row(p),
            ensures
                self.ready(ply as int),
                self.pos.same_as(&old(self).pos),
                !in_check || legal > 0 ==> -SCORE_MAX <= best <= SCORE_MAX,
                in_check && legal == 0 ==> best == -INF,
                in_check && legal > 0 ==> has_legal_move(s0),
                !in_check ==> best >= best0,
                forall|p: int| 0 <= p < ply ==> #[trigger] self.pv.row(p) == old(self).pv.row(p),
            decreases picker.moves().len() - picker.cursor(),
        {
            let mv = match picker.next() {
                Some(m) => m,
                None => {
                    break;
                },
            };
            // quiet moves only matter when evading check
            if !in_check && !mv.is_capture() {
                continue;
            }
            let outcome = self.play_capture(mv, alpha, beta, ply, in_check);
            let score = match outcome {
                Some(x) => x,
                None => {
                    continue;
                },
            };
            proof {
                if in_check {
                    assert(pseudo_legal(s0, mv) && legal_after(s0, mv));
                }
            }
            legal += 1;
            if self.stopped {
                return 0;
            }
            if score > best {
                best = score;
                if score > alpha {
                    alpha = score;
                    best_move = mv;
                    let ghost child = self.pv.row(ply + 1);
                    self.pv.update(ply, mv);
                    proof {
                        lemma_legal_line_cons(s0, mv, child);
                    }
                    if alpha >= beta {
                        break;
                    }
                }
            }
        }
        if in_check && legal == 0 {
            // mate found in qsearch (not stored)
            return -(MATE - ply as i32);
        }
        let bound = if best >= beta {
            Bound::Lower
        } else if best > orig_alpha {
            Bound::Exact
        } else {
            Bound::Upper
        };
        self.store_tt(best_move, best, static_eval, 0, bound, ply);
        best
    }

    /// Plays `mv` from the quiescence node at `ply` and searches the reply
    /// in quiescence. None when the move is skipped: a capture that loses
    /// material outright (out of check, not a promotion), or a move that
    /// leaves the mover in check.
    fn play_capture(&mut self, mv: Move, alpha: i32, beta: i32, ply: usize, in_check: bool) -> (r:
        Option<i32>)
        requires
            old(self).ready(ply as int),
            ply < MAX_PLY - 1,
            pseudo_legal(old(self).pos.state(), mv),
            -INF <= alpha < beta <= INF,
        ensures
            final(self).ready(ply as int),
            final(self).pos.same_as(&old(self).pos),
            r is Some ==> legal_after(old(self).pos.state(), mv),
            r is Some <==> legal_after(old(self).pos.state(), mv) && (in_check || !mv.spec_is_capture()
                || mv.spec_is_promotion() || see_spec(old(self).pos, mv) >= 0),
            r matches Some(score) ==> -SCORE_MAX <= score <= SCORE_MAX,
            r is Some ==> legal_line(make_state(old(self).pos.state(), mv), final(self).pv.row(ply + 1)),
            forall|p: int| 0 <= p <= ply ==> #[trigger] final(self).pv.row(p) == old(self).pv.row(p),
            final(self).stopped == old(self).stopped || r is Some,
        decreases MAX_PLY - ply, 1int,
    {
        let ghost s0 = self.pos.state();
        let ghost t0 = self.pos.trail();
        proof {
            self.pos.lemma_wf_state();
            lemma_pseudo_legal_move_ok(s0, mv);
        }
        // skip captures that lose material outright (not in check, not
        // promotions)
        if !in_check && mv.is_capture() && !mv.is_promotion() && see(&self.pos, mv) < 0 {
            return None;
        }
        let moved_piece = match self.pos.piece_on(mv.from()) {
            Some(p) => p.piece_type(),
            None => PieceType::Pawn,
        };
        if !self.pos.make(mv) {
            return None;
        }
        proof {
            lemma_make_consistent(s0, mv);
            lemma_make_clocks(s0, mv);
        }
        let score = self.capture_reply(mv, moved_piece, alpha, beta, ply, Ghost(s0), Ghost(t0));
        Some(score)
    }

    /// With `mv` just made from `s0`, searches the reply in quiescence, then
    /// takes the move back.
    #[verifier::rlimit(60)]
    fn capture_reply(
        &mut self,
        mv: Move,
        moved_piece: PieceType,
        alpha: i32,
        beta: i32,
        ply: usize,
        Ghost(s0): Ghost<PosState>,
        Ghost(t0): Ghost<(Seq<PosState>, Seq<Undo>, Seq<u64>)>,
    ) -> (r: i32)
        requires
            old(self).ready(ply + 1),
            ply < MAX_PLY - 1,
            old(self).pos.top_is_move(),
            old(self).pos.prev_state() == s0,
            old(self).pos.state() == make_state(s0, mv),
            old(self).pos.trail().0 == t0.0.push(s0),
            old(self).pos.trail().1.drop_last() == t0.1,
            old(self).pos.trail().2 == t0.2.push(s0.key),
            consistent(s0),
            s0.halfmove + MAX_PLY - ply < 0xFFFF,
            s0.fullmove + MAX_PLY - ply < 0xFFFF,
            -INF <= alpha < beta <= INF,
        ensures
            final(self).ready(ply as int),
            final(self).pos.state() == s0,
            final(self).pos.trail() == t0,
            -SCORE_MAX <= r <= SCORE_MAX,
            legal_line(make_state(s0, mv), final(self).pv.row(ply + 1)),
            forall|p: int| 0 <= p <= ply ==> #[trigger] final(self).pv.row(p) == old(self).pv.row(p),
        decreases MAX_PLY - ply, 0int,
    {
        proof {
            self.lemma_inv();
        }
        self.eval.on_make(mv, &self.pos);
        let mut e = self.stack[ply];
        e.current_move = mv;
        e.moved_piece = moved_piece;
        self.put_frame(ply, e);
        let score = -self.qsearch(-beta, -alpha, ply + 1);
        self.pos.unmake();
        self.eval.on_unmake(mv, &self.pos);
        proof {
            assert(self.pos.trail().0 =~= t0.0);
            assert(self.pos.trail().1 =~= t0.1);
            assert(self.pos.trail().2 =~= t0.2);
        }
        score
    }

    /// Fixed-depth search of the root with an explicit window: the first
    /// move of the principal variation and the score.
    fn search_root(&mut self, depth: i32, alpha: i32, beta: i32) -> (r: (Option<Move>, i32))
        requires
            old(self).ready(0),
            -INF <= alpha < beta <= INF,
            depth <= MAX_DEPTH,
        ensures
            final(self).ready(0),
            final(self).pos.same_as(&old(self).pos),
            -SCORE_MAX <= r.1 <= SCORE_MAX,
            legal_line(old(self).pos.state(), final(self).pv_row(0)),
            r.0 matches Some(m) ==> pseudo_legal(old(self).pos.state(), m) && legal_after(
                old(self).pos.state(),
                m,
            ),
            depth >= 1 && !final(self).spec_stopped() && !has_legal_move(old(self).pos.state()) ==> r.0 is None && if stm_in_check(old(self).pos.state()) {
                r.1 == -MATE
            } else {
                r.1 == 1 || r.1 == -1
            },
    {
        self.eval.refresh(&self.pos);
        self.stopped = false;
        let score = self.negamax(depth, alpha, beta, 0);
        let mv = self.pv.first();
        proof {
            if mv is Some {
                lemma_legal_line_first(old(self).pos.state(), self.pv.row(0));
                let m = mv->0;
                assert(pseudo_legal(old(self).pos.state(), m) && legal_after(old(self).pos.state(), m));
            }
        }
        (mv, score)
    }

    /// Fixed-depth, full-window search of the root: the first move of the
    /// principal variation (a legal move, when there is one) and the score.
    pub fn search_to_depth(&mut self, depth: i32) -> (r: (Option<Move>, i32))
        requires
            old(self).root_ready(),
            depth <= MAX_DEPTH,
        ensures
            consistent(old(self).spec_pos().state()) ==> {
                &&& final(self).ready(0)
                &&& final(self).spec_pos().same_as(&old(self).spec_pos())
                &&& -SCORE_MAX <= r.1 <= SCORE_MAX
                &&& legal_line(old(self).spec_pos().state(), final(self).pv_row(0))
                &&& r.0 matches Some(m) ==> pseudo_legal(old(self).spec_pos().state(), m) && legal_after(
                    old(self).spec_pos().state(),
                    m,
                )
                &&& depth >= 1 && !final(self).spec_stopped() && !has_legal_move(old(self).spec_pos().state())
                    ==> r.0 is None && if stm_in_check(old(self).spec_pos().state()) {
                    r.1 == -MATE
                } else {
                    r.1 == 1 || r.1 == -1
                }
            },
            !consistent(old(self).spec_pos().state()) ==> {
                &&& *final(self) == *old(self)
                &&& !mover_safe(old(self).spec_pos().state()) ==> r.1 == MATE - 1 && (r.0 matches Some(m) && {
                    let b = old(self).spec_pos().state().board;
                    &&& m.spec_to() == king_square(b, opposite(old(self).spec_pos().state().stm))
                    &&& attacker(b, occupancy(b), m.spec_from(), m.spec_to(), old(self).spec_pos().state().stm)
                })
                &&& mover_safe(old(self).spec_pos().state()) ==> r.0 is None && r.1 == 0
            },
    {
        if !is_consistent(&self.pos) {
            // an illegal setup: with the enemy king en prise, taking it
            // wins at once (a position no search can start from)
            let cap = king_capture(&self.pos);
            return match cap {
                Some(m) => (Some(m), MATE - 1),
                None => (None, 0),
            };
        }
        self.search_root(depth, -INF, INF)
    }

    /// Narrow window around the previous score, widened on failure (the
    /// width doubles each time) until the score lands inside it or the
    /// window can widen no further.
    fn aspiration(&mut self, depth: i32, guess: i32) -> (r: (Option<Move>, i32))
        requires
            old(self).ready(0),
            -MATE_BOUND < guess < MATE_BOUND,
            depth <= MAX_DEPTH,
        ensures
            final(self).ready(0),
            final(self).pos.same_as(&old(self).pos),
            -SCORE_MAX <= r.1 <= SCORE_MAX,
            r.0 matches Some(m) ==> pseudo_legal(old(self).pos.state(), m) && legal_after(
                old(self).pos.state(),
                m,
            ),
    {
        let mut delta: i32 = 25;
        let mut alpha: i32 = guess - delta;
        let mut beta: i32 = guess + delta;
        loop
            invariant
                self.ready(0),
                self.pos.same_as(&old(self).pos),
                depth <= MAX_DEPTH,
                -INF <= alpha < beta <= INF,
                25 <= delta,
                delta >= 65536 ==> delta <= window_cap(window_openness(alpha, beta)),
            decreases aspiration_measure(delta, alpha, beta),
        {
            let (mv, score) = self.search_root(depth, alpha, beta);
            if self.stopped {
                return (mv, score);
            }
            if score <= alpha {
                if alpha == -INF {
                    // the window cannot widen further
                    return (mv, score);
                }
                // fail low: lower alpha, pull beta toward the fail point
                beta = (alpha + beta) / 2;
                alpha = if score - delta < -INF {
                    -INF
                } else {
                    score - delta
                };
            } else if score >= beta {
                if beta == INF {
                    return (mv, score);
                }
                beta = if score + delta > INF {
                    INF
                } else {
                    score + delta
                };
            } else {
                return (mv, score);
            }
            delta = delta * 2;
        }
    }

    /// Iterative deepening. Returns None only when the root has no legal
    /// move; `info` is called after every completed iteration.
    pub fn iterate<F: FnMut(IterInfo)>(&mut self, limits: &Limits, mut info: F) -> (r: Option<Move>)
        requires
            old(self).ready(0),
            clocks_in_range(*limits),
            forall|x: IterInfo| info.requires((x,)),
        ensures
            final(self).ready(0),
            final(self).spec_pos().same_as(&old(self).spec_pos()),
            r is None <==> forall|m: Move|
                pseudo_legal(old(self).spec_pos().state(), m) ==> !legal_after(
                    old(self).spec_pos().state(),
                    m,
                ),
            r matches Some(m) ==> pseudo_legal(old(self).spec_pos().state(), m) && legal_after(
                old(self).spec_pos().state(),
                m,
            ),
    {
        let ghost s0 = self.pos.state();
        let stm = self.pos.stm();
        let tm = TimeManager::new(limits, stm, self.overhead_ms);
        self.deadline = tm.hard_deadline();
        self.node_limit = limits.nodes;
        self.nodes = 0;
        self.tt.new_search();
        let first = find_first_legal(&mut self.pos);
        let mut best = match first {
            Some(m) => m,
            None => {
                return None;
            },
        };
        let max_depth: i32 = match limits.depth {
            Some(d) => if d < 1 {
                1
            } else if d > 127 {
                127
            } else {
                d
            },
            None => 127,
        };
        let mut prev_score: i32 = 0;
        let mut depth: i32 = 1;
        while depth <= max_depth
            invariant
                self.ready(0),
                self.pos.same_as(&old(self).pos),
                s0 == old(self).pos.state(),
                1 <= depth <= 128,
                1 <= max_depth <= 127,
                -MATE_BOUND < prev_score < MATE_BOUND,
                pseudo_legal(s0, best) && legal_after(s0, best),
                forall|x: IterInfo| info.requires((x,)),
            decreases 128 - depth,
        {
            let (mv, score) = if depth >= 4 {
                self.aspiration(depth, prev_score)
            } else {
                proof {
                    self.lemma_root_ready();
                }
                self.search_to_depth(depth)
            };
            if self.stopped {
                // a partial iteration is trusted only at depth 1 (its first
                // root move beats the arbitrary fallback)
                if depth == 1 {
                    if let Some(m) = mv {
                        best = m;
                    }
                }
                break;
            }
            if let Some(m) = mv {
                best = m;
            }
            info(
                IterInfo {
                    depth,
                    score,
                    nodes: self.nodes,
                    elapsed_ms: tm.elapsed_ms(),
                    pv: self.pv.line(),
                },
            );
            if tm.past_soft() {
                break;
            }
            if score >= MATE_BOUND || score <= -MATE_BOUND {
                // forced mate found; deeper search cannot change it
                break;
            }
            prev_score = score;
            depth = depth + 1;
        }
        Some(best)
    }

    /// Fifty-move rule with mate precedence: a mated side is still mated.
    fn fifty_move_score(&mut self, ply: usize) -> (r: i32)
        requires
            old(self).ready(ply as int),
        ensures
            final(self).same_tables(old(self)),
            final(self).pos.wf(),
            final(self).pos.same_as(&old(self).pos),
            -SCORE_MAX <= r <= SCORE_MAX,
            r == if !has_legal_move(old(self).pos.state()) && stm_in_check(old(self).pos.state()) {
                -(MATE - ply)
            } else if old(self).nodes & 2 == 0 {
                1int
            } else {
                -1int
            },
    {
        proof {
            reveal(stm_in_check);
        }
        let ghost s0 = self.pos.state();
        let found = find_first_legal(&mut self.pos);
        let any_legal = found.is_some();
        proof {
            if let Some(m) = found {
                assert(pseudo_legal(s0, m) && legal_after(s0, m));
            }
            assert(self.pos.state() == s0);
        }
        if !any_legal && self.pos.in_check(self.pos.stm()) {
            -(MATE - ply as i32)
        } else {
            self.draw_score()
        }
    }
}
} // verus!
