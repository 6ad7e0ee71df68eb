use nebchess::board::movegen::find_uci_move;
use nebchess::board::{Color, Move, Piece, PieceType, Position, Square};
use nebchess::eval::Evaluator;
use nebchess::search::ordering::{ContHist, HistoryTable, MovePicker};
use nebchess::search::{SearchThread, INF};

/// Side-to-move-relative score that is -10_000 exactly when a white pawn
/// stands on e4 with Black to move, else 0: `e2e4` scores +10_000 for
/// White, every other quiet 0.
struct PawnE4Eval;

impl Evaluator for PawnE4Eval {
    fn inv(&self) -> bool {
        true
    }
    fn static_value(&self, _pos: &Position) -> i32 {
        0
    }
    fn refresh(&mut self, _pos: &Position) {}
    fn on_make(&mut self, _mv: Move, _pos: &Position) {}
    fn on_unmake(&mut self, _mv: Move, _pos: &Position) {}
    fn evaluate(&mut self, pos: &Position) -> i32 {
        let e4 = Square::from_name("e4").unwrap();
        let white_pawn_on_e4 =
            pos.piece_on(e4) == Some(Piece::new(Color::White, PieceType::Pawn));
        if white_pawn_on_e4 && pos.stm() == Color::Black {
            -10_000
        } else {
            0
        }
    }
}

/// Primes plies 0 and 1 so a node at ply 2 sees both continuation parents:
/// grandparent key (Bishop, c4), parent key (Knight, d4).
fn prime_conthist_parents<E: Evaluator>(
    st: &mut SearchThread<E>,
) -> ((PieceType, Square), (PieceType, Square)) {
    let c4 = Square::from_name("c4").unwrap();
    let d4 = Square::from_name("d4").unwrap();
    let a1 = Square::a1();
    st.set_ply_move(0, Move::new(a1, c4, Move::QUIET), PieceType::Bishop);
    st.set_ply_move(1, Move::new(a1, d4, Move::QUIET), PieceType::Knight);
    ((PieceType::Bishop, c4), (PieceType::Knight, d4))
}

const KIWIPETE: &str = "r3k2r/p1ppqpb1/bn2pnp1/3PN3/1p2P3/2N2Q1p/PPPBBPPP/R3K2R w KQkq - 0 1";

#[test]
#[allow(unused_assignments)]
fn picker_yields_ordering_tiers() {
    let pos = Position::from_fen(KIWIPETE).unwrap();
    let tt_move = find_uci_move(&pos, "a2a3").unwrap(); // arbitrary quiet as TT move
    let k0 = find_uci_move(&pos, "a2a4").unwrap();
    let k1 = find_uci_move(&pos, "g2g3").unwrap();
    let history = HistoryTable::new();
    let ch1 = ContHist::new();
    let ch2 = ContHist::new();
    let mut picker =
        MovePicker::new(&pos, tt_move, [k0, k1], &history, &ch1, &ch2, None, None, Color::White);
    let first = picker.next().unwrap();
    assert_eq!(first, tt_move, "TT move first even though quiet");
    // then all captures, then exactly k0, k1, then the rest
    let mut seen_killer0 = false;
    let mut captures_done = false;
    while let Some(mv) = picker.next() {
        if mv == k0 {
            captures_done = true;
            seen_killer0 = true;
            let next = picker.next().unwrap();
            assert_eq!(next, k1, "killer1 follows killer0");
            break;
        }
        assert!(mv.is_capture() && !captures_done, "non-capture {:?} before killers", mv);
    }
    assert!(seen_killer0);
}

#[test]
fn history_orders_quiets_below_killers() {
    let pos = Position::from_fen(KIWIPETE).unwrap();
    let hot = find_uci_move(&pos, "g2g3").unwrap();
    let killer = find_uci_move(&pos, "a2a4").unwrap();
    let mut history = HistoryTable::new();
    history.set(Color::White, hot.from(), hot.to(), 50_000);
    let ch1 = ContHist::new();
    let ch2 = ContHist::new();
    let mut picker = MovePicker::new(
        &pos,
        Move::null(),
        [killer, Move::null()],
        &history,
        &ch1,
        &ch2,
        None,
        None,
        Color::White,
    );
    // order: captures..., killer, hot history quiet, ...rest
    let mut prev_was_killer = false;
    while let Some(mv) = picker.next() {
        if mv == killer {
            prev_was_killer = true;
            continue;
        }
        if prev_was_killer {
            assert_eq!(mv, hot, "hot-history quiet must follow the killer");
            break;
        }
        assert!(mv.is_capture(), "captures precede the killer");
    }
}

#[test]
fn conthist_prefers_hot_quiet_over_cold() {
    let pos = Position::from_fen(KIWIPETE).unwrap();
    let hot = find_uci_move(&pos, "g2g3").unwrap();
    let cold = find_uci_move(&pos, "a2a3").unwrap();
    let history = HistoryTable::new();
    let mut ch1 = ContHist::new();
    let ch2 = ContHist::new();
    let parent = (PieceType::Knight, Square::from_name("d4").unwrap());
    let hot_piece = pos.piece_on(hot.from()).unwrap().piece_type();
    ch1.set(parent.0, parent.1, hot_piece, hot.to(), 5_000);
    let mut picker = MovePicker::new(
        &pos,
        Move::null(),
        [Move::null(); 2],
        &history,
        &ch1,
        &ch2,
        Some(parent),
        None,
        Color::White,
    );
    // order: captures..., hot conthist quiet, ...other quiets (incl. cold)
    let mut seen_hot = false;
    while let Some(mv) = picker.next() {
        if mv.is_capture() {
            continue;
        }
        assert_eq!(mv, hot, "conthist-hot quiet leads the quiets");
        seen_hot = true;
        break;
    }
    assert!(seen_hot, "the hot quiet was yielded");
    assert_ne!(hot, cold);
}

#[test]
fn cutoff_bumps_all_three_history_tables() {
    // KP-vs-K: e2e4 is the unique high-scoring move under PawnE4Eval, a
    // forced quiet beta cutoff.
    let pos = Position::from_fen("7k/8/8/8/8/8/4P3/4K3 w - - 0 1").unwrap();
    let mut st = SearchThread::new(pos, PawnE4Eval);
    let (ch2_key, ch1_key) = prime_conthist_parents(&mut st);
    let e2e4 = find_uci_move(&st.pos, "e2e4").unwrap();
    let piece = PieceType::Pawn;
    let to = e2e4.to();

    // depth 1: the child is qsearch (stand-pat = PawnE4Eval), so e2e4 scores
    // +10000 and cuts off against beta 5000 on the first quiet tried.
    let score = st.negamax(1, -INF, 5_000, 2);
    assert!(score >= 5_000, "e2e4 produced a beta cutoff (got {score})");

    let bf = st.history().get(Color::White, e2e4.from(), to);
    assert!(bf > 0, "butterfly history bumped (got {bf})");
    let c1 = st.cont_hist1().get(ch1_key.0, ch1_key.1, piece, to);
    assert!(c1 > 0, "cont_hist1 bumped (got {c1})");
    let c2 = st.cont_hist2().get(ch2_key.0, ch2_key.1, piece, to);
    assert!(c2 > 0, "cont_hist2 bumped (got {c2})");
}

#[test]
fn cutoff_applies_malus_to_tried_but_failed_quiets() {
    // The king move Ke1f1 is ordered first by a large butterfly score, fails
    // low, then receives the conthist malus when e2e4 cuts off.
    let pos = Position::from_fen("7k/8/8/8/8/8/4P3/4K3 w - - 0 1").unwrap();
    let mut st = SearchThread::new(pos, PawnE4Eval);
    let (ch2_key, ch1_key) = prime_conthist_parents(&mut st);
    let kf1 = find_uci_move(&st.pos, "e1f1").unwrap();
    st.set_history(Color::White, kf1.from(), kf1.to(), 1_000_000);
    let king_piece = PieceType::King;
    let kto = kf1.to();

    let score = st.negamax(1, -INF, 5_000, 2);
    assert!(score >= 5_000, "e2e4 still cuts off (got {score})");

    let c1 = st.cont_hist1().get(ch1_key.0, ch1_key.1, king_piece, kto);
    assert!(c1 < 0, "cont_hist1 malus on tried-but-failed quiet (got {c1})");
    let c2 = st.cont_hist2().get(ch2_key.0, ch2_key.1, king_piece, kto);
    assert!(c2 < 0, "cont_hist2 malus on tried-but-failed quiet (got {c2})");
}

#[test]
fn lmr_reductions_table_is_sane() {
    let pos = Position::from_fen("7k/8/8/8/8/8/4P3/4K3 w - - 0 1").unwrap();
    let st = SearchThread::new(pos, PawnE4Eval);
    let r = |d: usize, m: usize| st.reduction(d, m);

    assert!(r(3, 3) >= 1, "r[3][3] must be >= 1 (got {})", r(3, 3));
    assert_eq!(r(3, 3), 1);
    assert_eq!(r(8, 8), 2);
    assert_eq!(r(20, 30), 5);
    assert_eq!(r(63, 63), 8);

    for d in 1..64 {
        for m in 2..64 {
            assert!(r(d, m) >= r(d, m - 1), "non-monotone in move-index at d={d}, m={m}");
        }
    }
    for m in 1..64 {
        for d in 2..64 {
            assert!(r(d, m) >= r(d - 1, m), "non-monotone in depth at m={m}, d={d}");
        }
    }
}

#[test]
fn reductions_match_the_log_formula() {
    let pos = Position::from_fen("7k/8/8/8/8/8/4P3/4K3 w - - 0 1").unwrap();
    let st = SearchThread::new(pos, PawnE4Eval);
    for d in 1..64usize {
        for m in 1..64usize {
            let want = (0.77 + (d as f64).ln() * (m as f64).ln() / 2.36) as i32;
            assert_eq!(st.reduction(d, m), want, "d={d}, m={m}");
        }
    }
    for i in 0..64usize {
        assert_eq!(st.reduction(0, i), 0);
        assert_eq!(st.reduction(i, 0), 0);
    }
}
