use nebchess::board::movegen::find_uci_move;
use nebchess::board::{Move, Position};
use nebchess::eval::hce::{Hce, Params};
use nebchess::eval::manifest::{MATERIAL, TEMPO, TOTAL_PAIRS};
use nebchess::search::limits::Limits;
use nebchess::search::tt::{Bound, Tt, EVAL_NONE};
use nebchess::search::{SearchThread, MATE, MATE_BOUND};
use std::time::Instant;

/// Material values and a small tempo bonus; every other term zero.
fn material_params() -> Params {
    let mut pairs = vec![(0i32, 0i32); TOTAL_PAIRS];
    pairs[MATERIAL] = (100, 100);
    pairs[MATERIAL + 1] = (320, 320);
    pairs[MATERIAL + 2] = (330, 330);
    pairs[MATERIAL + 3] = (500, 500);
    pairs[MATERIAL + 4] = (900, 900);
    pairs[TEMPO] = (10, 10);
    Params::from_pairs(pairs).unwrap()
}

fn searcher(fen: &str) -> SearchThread<Hce> {
    SearchThread::new(Position::from_fen(fen).unwrap(), Hce::new(material_params()))
}

#[test]
fn finds_mate_in_one() {
    // back-rank: 1.Ra8#
    let mut st = searcher("6k1/5ppp/8/8/8/8/8/R3K3 w - - 0 1");
    let (best, score) = st.search_to_depth(2);
    assert_eq!(best.unwrap().to_string(), "a1a8");
    assert_eq!(score, MATE - 1, "mate at ply 1");
}

#[test]
fn stalemate_scores_draw() {
    // black to move, Kh8 has no moves, not in check
    let mut st = searcher("7k/5Q2/6K1/8/8/8/8/8 b - - 0 1");
    let (best, score) = st.search_to_depth(3);
    assert!(best.is_none(), "no legal moves");
    assert!(score.abs() <= 1, "draw jitter only, got {score}");
}

#[test]
fn qsearch_resolves_hanging_queen() {
    // Qd1xd8 wins a queen outright; depth 1 + qsearch must see it
    let mut st = searcher("3q1k2/8/8/8/8/8/8/3Q1K2 w - - 0 1");
    let (best, score) = st.search_to_depth(1);
    assert_eq!(best.unwrap().to_string(), "d1d8");
    assert!(score > 700, "won a queen, got {score}");
}

#[test]
fn depth_one_returns_a_legal_move() {
    let mut st = searcher("rnbqkbnr/pppppppp/8/8/8/8/PPPPPPPP/RNBQKBNR w KQkq - 0 1");
    let (best, _) = st.search_to_depth(1);
    let pos = Position::startpos();
    let mv = best.expect("must produce a move");
    assert!(find_uci_move(&pos, &mv.to_string()).is_some(), "bestmove must be legal");
}

#[test]
fn node_limit_stops_search() {
    let mut st = searcher("rnbqkbnr/pppppppp/8/8/8/8/PPPPPPPP/RNBQKBNR w KQkq - 0 1");
    st.set_node_limit(Some(10_000));
    let (_best, _) = st.search_to_depth(99);
    assert!(st.nodes < 10_000 + 5_000, "polling cadence overshoot bounded, got {}", st.nodes);
}

#[test]
fn fifty_move_draw_scored_in_search() {
    // halfmove already at 100: every child resolves as a draw
    let mut st = searcher("k7/8/5Q2/8/8/8/8/K7 w - - 100 90");
    let (_best, score) = st.search_to_depth(3);
    assert!(score.abs() <= 1, "fifty-move children cap score, got {score}");
}

#[test]
fn en_prise_king_fen_does_not_panic() {
    // illegal input: the black king is already capturable with White to move
    let mut st = searcher("7k/8/5Q2/8/8/8/8/K7 w - - 100 90");
    let (best, score) = st.search_to_depth(3);
    assert!(best.is_some());
    assert!(score > MATE_BOUND, "king capture scores as won, got {score}");
}

#[test]
fn movetime_is_respected() {
    let mut st = searcher("rnbqkbnr/pppppppp/8/8/8/8/PPPPPPPP/RNBQKBNR w KQkq - 0 1");
    let limits = Limits { movetime: Some(100), ..Limits::default() };
    let t0 = Instant::now();
    let best = st.iterate(&limits, |_| {});
    let elapsed = t0.elapsed().as_millis();
    assert!(best.is_some());
    assert!(elapsed < 600, "movetime 100 took {elapsed}ms");
}

#[test]
fn depth_limit_caps_iterations() {
    let mut st = searcher("rnbqkbnr/pppppppp/8/8/8/8/PPPPPPPP/RNBQKBNR w KQkq - 0 1");
    let limits = Limits { depth: Some(3), ..Limits::default() };
    let mut depths = Vec::new();
    st.iterate(&limits, |i| depths.push(i.depth));
    assert_eq!(depths, vec![1, 2, 3]);
}

#[test]
fn tiny_node_budget_still_returns_legal_move() {
    let mut st = searcher("r3k2r/8/8/8/8/8/8/R3K2R w KQkq - 0 1");
    let limits = Limits { nodes: Some(1), ..Limits::default() };
    let best = st.iterate(&limits, |_| {}).expect("legal moves exist");
    let pos = Position::from_fen("r3k2r/8/8/8/8/8/8/R3K2R w KQkq - 0 1").unwrap();
    assert!(find_uci_move(&pos, &best.to_string()).is_some());
}

#[test]
fn clock_allocation_returns_promptly() {
    let mut st = searcher("rnbqkbnr/pppppppp/8/8/8/8/PPPPPPPP/RNBQKBNR w KQkq - 0 1");
    let limits = Limits { wtime: Some(1_000), ..Limits::default() };
    let t0 = Instant::now();
    st.iterate(&limits, |_| {});
    assert!(t0.elapsed().as_millis() < 700);
}

#[test]
fn mate_found_exits_early() {
    let mut st = searcher("6k1/5ppp/8/8/8/8/8/R3K3 w - - 0 1");
    let limits = Limits::default();
    let t0 = Instant::now();
    let best = st.iterate(&limits, |_| {});
    assert_eq!(best.unwrap().to_string(), "a1a8");
    assert!(t0.elapsed().as_secs() < 5, "mate-bound early exit");
}

#[test]
fn no_legal_moves_returns_none() {
    let mut st = searcher("7k/5Q2/6K1/8/8/8/8/8 b - - 0 1");
    let best = st.iterate(&Limits::default(), |_| {});
    assert!(best.is_none());
}

#[test]
fn tt_makes_research_cheap_and_stable() {
    let mut st = searcher("r3k2r/p1ppqpb1/bn2pnp1/3PN3/1p2P3/2N2Q1p/PPPBBPPP/R3K2R w KQkq - 0 1");
    let (best1, score1) = st.search_to_depth(6);
    let nodes_first = st.nodes;
    let (best2, score2) = st.search_to_depth(6);
    let nodes_second = st.nodes - nodes_first;
    assert_eq!(best1, best2, "warm-TT re-search must agree");
    assert_eq!(score1, score2);
    assert!(nodes_second * 4 < nodes_first, "warm TT should slash nodes: {nodes_first} then {nodes_second}");
}

#[test]
fn tiny_tt_collision_storm_is_sound() {
    let mut st = searcher("r4rk1/1pp1qppp/p1np1n2/2b1p1B1/2B1P1b1/P1NP1N2/1PP1QPPP/R4RK1 w - - 0 10");
    st.set_tt(Tt::new(1));
    let (best, score) = st.search_to_depth(7);
    assert!(best.is_some());
    assert!(score.abs() < 1000, "quiet position, sane score, got {score}");
}

#[test]
fn junk_tt_move_is_ignored_not_played() {
    let fen = "r3k2r/p1ppqpb1/bn2pnp1/3PN3/1p2P3/2N2Q1p/PPPBBPPP/R3K2R w KQkq - 0 1";
    let mut st = searcher(fen);
    let mut tt = Tt::new(1);
    let key = Position::from_fen(fen).unwrap().key();
    // raw 0xFFFF decodes to h8->h8 promo-capture nonsense: never generated
    tt.store(key, Move::from_raw(0xFFFF), 500, EVAL_NONE, 12, Bound::Lower, 0);
    st.set_tt(tt);
    let (best, _) = st.search_to_depth(4);
    let pos = Position::from_fen(fen).unwrap();
    assert!(find_uci_move(&pos, &best.unwrap().to_string()).is_some(), "junk TT move leaked into play");
}

#[test]
fn fresh_thread_is_unstopped_with_empty_line() {
    let st = searcher("rnbqkbnr/pppppppp/8/8/8/8/PPPPPPPP/RNBQKBNR w KQkq - 0 1");
    assert_eq!(st.nodes, 0);
    assert!(!st.was_stopped());
    assert!(st.pv_line().is_empty());
}

#[test]
fn tt_probe_finds_what_was_stored() {
    let mut tt = Tt::new(1);
    let m = Move::from_raw(0x1234);
    tt.store(42, m, MATE - 5, EVAL_NONE, 9, Bound::Exact, 2);
    let h = tt.probe(42, 4).unwrap();
    assert_eq!(h.mv, m);
    assert_eq!(h.score, MATE - 7);
    tt.clear();
    assert!(tt.probe(42, 4).is_none());
}
