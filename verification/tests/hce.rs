use nebchess::board::movegen::find_uci_move;
use nebchess::board::{Color, Position, Square};
use nebchess::eval::hce::{eval_terms, evaluate_white_relative, phase, Hce, Params};
use nebchess::eval::manifest::{
    BISHOP_PAIR, DOUBLED, HANGING, ISOLATED, KS_ATTACKER, KS_OPEN_FILE, KS_SEMI_FILE, KS_SHIELD,
    MATERIAL, MOB_BISHOP, MOB_KNIGHT, PASSED, PASSED_CONNECTED, PST_PAWN, ROOK_OPEN, ROOK_SEMI,
    TEMPO, THREAT_BY_MINOR, THREAT_BY_PAWN, TOTAL_PAIRS,
};
use nebchess::eval::trace::CollectingTracer;
use nebchess::eval::Evaluator;

/// A table with a distinct, small, nonzero value at every index.
fn busy_table() -> Params {
    let pairs: Vec<(i32, i32)> = (0..TOTAL_PAIRS)
        .map(|i| ((i % 17) as i32 - 8, (i % 13) as i32 - 6))
        .collect();
    Params::from_pairs(pairs).unwrap()
}

/// Zeros except the given entries.
fn table_with(entries: &[(usize, (i32, i32))]) -> Params {
    let mut pairs = vec![(0i32, 0i32); TOTAL_PAIRS];
    for &(i, v) in entries {
        pairs[i] = v;
    }
    Params::from_pairs(pairs).unwrap()
}

/// Material only (P, N, B, R, Q, K) plus a tempo bonus.
fn material_table() -> Params {
    table_with(&[
        (MATERIAL, (100, 100)),
        (MATERIAL + 1, (320, 320)),
        (MATERIAL + 2, (330, 330)),
        (MATERIAL + 3, (500, 500)),
        (MATERIAL + 4, (900, 900)),
        (TEMPO, (10, 10)),
    ])
}

fn records(fen: &str) -> Vec<(usize, i8)> {
    let pos = Position::from_fen(fen).unwrap();
    let mut tr = CollectingTracer::default();
    eval_terms(&pos, &Params::zeros(), &mut tr);
    tr.features.iter().map(|&(i, s)| (i as usize, s)).collect()
}

fn features_at(fen: &str, idx: usize) -> Vec<i8> {
    records(fen)
        .into_iter()
        .filter(|&(i, _)| i == idx)
        .map(|(_, s)| s)
        .collect()
}

fn records_in_table(fen: &str, base: usize, len: usize) -> Vec<(usize, i8)> {
    records(fen)
        .into_iter()
        .filter(|&(i, _)| i >= base && i < base + len)
        .collect()
}

fn ks_records(fen: &str, base: usize, len: usize, want_sign: i8) -> Vec<usize> {
    records(fen)
        .into_iter()
        .filter(|&(i, s)| i >= base && i < base + len && s == want_sign)
        .map(|(i, _)| i)
        .collect()
}

#[test]
fn params_len_matches_total_pairs() {
    assert!(Params::from_pairs(vec![(0, 0); TOTAL_PAIRS]).is_some());
    assert!(Params::from_pairs(vec![(0, 0); TOTAL_PAIRS - 1]).is_none());
    assert!(Params::from_pairs(vec![(0, 0); TOTAL_PAIRS + 1]).is_none());
}

#[test]
fn phase_startpos_is_24() {
    let pos = Position::startpos();
    assert_eq!(phase(&pos), 24, "startpos has full 24-point phase");
}

#[test]
fn phase_bare_kings_is_zero() {
    let pos = Position::from_fen("4k3/8/8/8/8/8/8/4K3 w - - 0 1").unwrap();
    assert_eq!(phase(&pos), 0, "bare kings have 0 phase");
}

#[test]
fn startpos_is_balanced() {
    let params = busy_table();
    let tempo_mg = params.get(TEMPO).0;
    let mut e = Hce::new(params);
    let pos = Position::startpos();
    assert_eq!(e.evaluate(&pos), tempo_mg, "symmetric startpos scores exactly the tempo bonus");
    let black_stm =
        Position::from_fen("rnbqkbnr/pppppppp/8/8/8/8/PPPPPPPP/RNBQKBNR b KQkq - 0 1").unwrap();
    assert_eq!(e.evaluate(&black_stm), tempo_mg, "stm flip preserves the tempo-only residual");
}

#[test]
fn eval_is_stm_relative() {
    // White reads its piece-square table rank-mirrored: e4 is entry 36.
    let params = table_with(&[(PST_PAWN + 36, (40, 40)), (TEMPO, (10, 10))]);
    let w = "rnbqkbnr/pppppppp/8/8/4P3/8/PPPP1PPP/RNBQKBNR w KQkq - 0 1";
    let b = "rnbqkbnr/pppppppp/8/8/4P3/8/PPPP1PPP/RNBQKBNR b KQkq - 0 1";
    let mut e = Hce::new(params);
    let sw = e.evaluate(&Position::from_fen(w).unwrap());
    let sb = e.evaluate(&Position::from_fen(b).unwrap());
    let bound = 2 * 10 + 2;
    assert!((sw + sb).abs() <= bound, "residual bounded by 2x tempo: sw={sw} sb={sb}");
    assert_eq!(sw + sb, 20, "exactly two tempo bonuses remain");
    assert!(sw > 0, "White improved by e4, White to move: positive");
}

#[test]
fn material_dominates_pst() {
    let fen = "rnbqkb1r/pppppppp/8/8/8/8/PPPPPPPP/RNBQKBNR w KQkq - 0 1";
    let mut e = Hce::new(material_table());
    let s = e.evaluate(&Position::from_fen(fen).unwrap());
    assert!(s > 200, "knight-up should exceed 200cp, got {s}");
    assert!(s < 500, "but not exceed knight+max-pst, got {s}");
    assert_eq!(s, 330, "knight plus tempo");
}

#[test]
fn hooks_are_callable_noops() {
    let mut e = Hce::new(busy_table());
    let mut pos = Position::startpos();
    e.refresh(&pos);
    let before = e.evaluate(&pos);
    let mv = find_uci_move(&pos, "e2e4").unwrap();
    assert!(pos.make(mv));
    e.on_make(mv, &pos);
    pos.unmake();
    e.on_unmake(mv, &pos);
    assert_eq!(e.evaluate(&pos), before, "no-op hooks don't corrupt eval");
}

#[test]
fn mirrored_position_negates() {
    let orig = "r1bqkbnr/pppp1ppp/2n5/4p3/2B1P3/5N2/PPPP1PPP/RNBQK2R w KQkq - 0 1";
    let flip = "rnbqk2r/pppp1ppp/5n2/2b1p3/4P3/2N5/PPPP1PPP/R1BQKBNR b KQkq - 0 1";
    let mut e = Hce::new(busy_table());
    let a = e.evaluate(&Position::from_fen(orig).unwrap());
    let b = e.evaluate(&Position::from_fen(flip).unwrap());
    assert_eq!(a, b, "color-flip symmetry violated: {a} vs {b}");
    let ka_orig = "6k1/8/8/5N2/8/8/8/4K3 w - - 0 1";
    let ka_flip = "4k3/8/8/8/5n2/8/8/6K1 b - - 0 1";
    let ka = e.evaluate(&Position::from_fen(ka_orig).unwrap());
    let kb = e.evaluate(&Position::from_fen(ka_flip).unwrap());
    assert_eq!(ka, kb, "king-attack color-flip symmetry violated: {ka} vs {kb}");
    // The same pair, white-relative and without the draw rule.
    let params = busy_table();
    let wa = evaluate_white_relative(&Position::from_fen(ka_orig).unwrap(), &params);
    let wb = evaluate_white_relative(&Position::from_fen(ka_flip).unwrap(), &params);
    assert_eq!(wa, -wb, "white-relative scores of mirrored positions negate");
}

/// King-zone attackers cost the king's owner.
fn ks_table() -> Params {
    table_with(&[(KS_ATTACKER, (-30, -30))])
}

#[test]
fn white_knight_attacks_black_king_ring() {
    let fen = "6k1/8/8/5N2/8/8/8/4K3 w - - 0 1";
    let pos = Position::from_fen(fen).expect("test FEN must be legal");
    assert_eq!(pos.king_sq(Color::Black), Square::g8());
    let recs = ks_records(fen, KS_ATTACKER, 4, -1);
    assert_eq!(recs, vec![KS_ATTACKER], "one KS_ATTACKER+0, sign -1");
    assert!(ks_records(fen, KS_ATTACKER, 4, 1).is_empty(), "no attacker touches the white king zone");
    let retreated = "6k1/8/8/8/8/8/8/N3K3 w - - 0 1";
    let params = ks_table();
    let in_range = evaluate_white_relative(&Position::from_fen(fen).unwrap(), &params);
    let out = evaluate_white_relative(&Position::from_fen(retreated).unwrap(), &params);
    assert!(in_range > out, "knight on the black king ring must help White: {in_range} vs {out}");
}

#[test]
fn black_knight_attacks_white_king_ring() {
    let fen = "4k3/8/8/8/5n2/8/8/6K1 w - - 0 1";
    let pos = Position::from_fen(fen).expect("test FEN must be legal");
    assert_eq!(pos.king_sq(Color::White), Square::g1());
    let recs = ks_records(fen, KS_ATTACKER, 4, 1);
    assert_eq!(recs, vec![KS_ATTACKER], "one KS_ATTACKER+0, sign +1");
    assert!(ks_records(fen, KS_ATTACKER, 4, -1).is_empty(), "no attacker touches the black king zone");
    let retreated = "n3k3/8/8/8/8/8/8/6K1 w - - 0 1";
    let params = ks_table();
    let in_range = evaluate_white_relative(&Position::from_fen(fen).unwrap(), &params);
    let out = evaluate_white_relative(&Position::from_fen(retreated).unwrap(), &params);
    assert!(in_range < out, "knight on the white king ring must hurt White: {in_range} vs {out}");
}

#[test]
fn blocked_rook_no_king_zone_attacker() {
    let fen = "6k1/8/8/5p2/8/8/5R2/4K3 w - - 0 1";
    let pos = Position::from_fen(fen).expect("test FEN must be legal");
    assert_eq!(pos.king_sq(Color::Black), Square::g8());
    let recs = ks_records(fen, KS_ATTACKER, 4, -1);
    assert!(recs.is_empty(), "blocked rook must not touch the king zone, got {recs:?}");
}

#[test]
fn unblocked_rook_king_zone_attacker() {
    let fen = "6k1/8/8/8/8/8/5R2/4K3 w - - 0 1";
    let pos = Position::from_fen(fen).expect("test FEN must be legal");
    assert_eq!(pos.king_sq(Color::Black), Square::g8());
    let recs = ks_records(fen, KS_ATTACKER, 4, -1);
    assert_eq!(recs, vec![KS_ATTACKER + 2], "one KS_ATTACKER+2 (rook), sign -1");
}

#[test]
fn mobility_counts_unchanged_under_fused_pass() {
    let start = "rnbqkbnr/pppppppp/8/8/8/8/PPPPPPPP/RNBQKBNR w KQkq - 0 1";
    let recs = records_in_table(start, MOB_KNIGHT, 9);
    assert_eq!(recs.len(), 4, "four knights total, got {recs:?}");
    for &(idx, _) in &recs {
        assert_eq!(idx, MOB_KNIGHT + 2, "every startpos knight has 2 safe squares; got idx {idx}");
    }
    let trapped = "2k5/8/8/8/8/8/1P6/B1K5 w - - 0 1";
    let brecs = records_in_table(trapped, MOB_BISHOP, 14);
    assert_eq!(brecs, vec![(MOB_BISHOP, 1i8)], "trapped a1 bishop: exactly one MOB_BISHOP+0");
}

#[test]
fn black_castled_king_shield_signs_follow_owner() {
    let fen = "6k1/5ppp/8/8/8/8/8/K7 w - - 0 1";
    let pos = Position::from_fen(fen).expect("test FEN must be legal");
    assert_eq!(pos.king_sq(Color::Black), Square::g8());
    let shield0 = ks_records(fen, KS_SHIELD, 1, -1);
    assert_eq!(shield0.len(), 3, "Kg8 with f7/g7/h7: three shield records, got {shield0:?}");
    assert!(ks_records(fen, KS_SHIELD + 1, 1, -1).is_empty(), "no rel-rank-3 shield records");
    assert!(ks_records(fen, KS_SHIELD + 2, 1, -1).is_empty(), "no missing-shield records");
}

#[test]
fn pawn_hash_transparent_to_uncached() {
    let fens = [
        "rnbqkbnr/pppppppp/8/8/8/8/PPPPPPPP/RNBQKBNR w KQkq - 0 1",
        "4k3/8/8/3P4/8/8/8/4K3 w - - 0 1",
        "4k3/p7/8/P7/8/8/8/4K3 w - - 0 1",
        "r1bqkbnr/pp1ppppp/2n5/2p5/4P3/5N2/PPPP1PPP/RNBQKB1R w KQkq - 0 3",
        "8/2p2pp1/3k4/p7/P1P5/8/5PPP/4K3 w - - 0 1",
    ];
    let params = busy_table();
    let mut hce = Hce::new(busy_table());
    for fen in fens {
        let pos = Position::from_fen(fen).unwrap();
        let white = evaluate_white_relative(&pos, &params);
        let uncached_stm = if pos.stm() == Color::White { white } else { -white };
        let cached_cold = hce.evaluate(&pos);
        assert_eq!(cached_cold, uncached_stm, "pawn hash cold miss mismatch on FEN: {fen}");
        let cached_warm = hce.evaluate(&pos);
        assert_eq!(cached_warm, uncached_stm, "pawn hash warm hit mismatch on FEN: {fen}");
    }
}

#[test]
fn passed_pawn_records_correct_rank() {
    let fen = "4k3/8/8/3P4/8/8/8/4K3 w - - 0 1";
    let signs = features_at(fen, PASSED + 3);
    assert_eq!(signs, vec![1i8], "d5 pawn: exactly one PASSED+3 record with sign +1");
    for r in 0..3usize {
        assert!(features_at(fen, PASSED + r).is_empty(), "no PASSED+{r} record expected");
    }
}

#[test]
fn isolated_pawn_detected() {
    let fen = "4k3/8/8/8/8/8/4P3/4K3 w - - 0 1";
    assert_eq!(features_at(fen, ISOLATED), vec![1i8], "lone e2 pawn is isolated");
    assert!(features_at(fen, DOUBLED).is_empty(), "no doubled pawn");
}

#[test]
fn doubled_pawn_detected() {
    let fen = "4k3/8/8/8/4P3/8/4P3/4K3 w - - 0 1";
    assert_eq!(features_at(fen, DOUBLED), vec![1i8], "one doubled record for the rear pawn");
}

#[test]
fn connected_passer_detected() {
    let fen = "4k3/8/8/3PP3/8/8/8/4K3 w - - 0 1";
    let passed = features_at(fen, PASSED + 3);
    assert_eq!(passed.len(), 2, "two passed pawns at rel_rank 5");
    let connected = features_at(fen, PASSED_CONNECTED);
    assert_eq!(connected.len(), 2, "both passers record PASSED_CONNECTED");
    assert!(connected.iter().all(|&s| s == 1), "all signs +1 for white");
}

#[test]
fn black_passed_pawn_sign_is_negative() {
    let fen = "4k3/8/8/8/3p4/8/8/4K3 w - - 0 1";
    assert_eq!(features_at(fen, PASSED + 3), vec![-1i8], "black passed pawn gets sign -1");
}

#[test]
fn startpos_knight_mobility_is_two() {
    let fen = "rnbqkbnr/pppppppp/8/8/8/8/PPPPPPPP/RNBQKBNR w KQkq - 0 1";
    let recs = records_in_table(fen, MOB_KNIGHT, 9);
    assert_eq!(recs.len(), 4, "four knights total, got {recs:?}");
    for &(idx, _) in &recs {
        assert_eq!(idx, MOB_KNIGHT + 2, "every startpos knight has 2 safe squares; got idx {idx}");
    }
    let white = recs.iter().filter(|&&(_, s)| s == 1).count();
    let black = recs.iter().filter(|&&(_, s)| s == -1).count();
    assert_eq!((white, black), (2, 2), "two white +1, two black -1");
}

#[test]
fn trapped_bishop_records_zero_mobility() {
    let fen = "2k5/8/8/8/8/8/1P6/B1K5 w - - 0 1";
    let recs = records_in_table(fen, MOB_BISHOP, 14);
    assert_eq!(recs, vec![(MOB_BISHOP, 1i8)], "trapped a1 bishop: one MOB_BISHOP+0, sign +1");
}

#[test]
fn castled_king_full_shield() {
    let fen = "k7/p7/8/8/8/8/5PPP/6K1 w - - 0 1";
    let pos = Position::from_fen(fen).expect("test FEN must be legal");
    assert_eq!(pos.king_sq(Color::White), Square::g1());
    let shield0 = ks_records(fen, KS_SHIELD, 1, 1);
    assert_eq!(shield0.len(), 3, "Kg1 with f2/g2/h2: three shield records, got {shield0:?}");
    assert!(ks_records(fen, KS_SHIELD + 1, 1, 1).is_empty(), "no rel-rank-3 shield records");
    assert!(ks_records(fen, KS_SHIELD + 2, 1, 1).is_empty(), "no missing-shield records");
    assert!(ks_records(fen, KS_OPEN_FILE, 1, 1).is_empty(), "no open file near the white king");
    assert!(ks_records(fen, KS_SEMI_FILE, 1, 1).is_empty(), "no semi-open file near the white king");
}

#[test]
fn stripped_king_open_files_and_attackers() {
    let fen = "k4r2/8/8/8/7q/8/8/6K1 w - - 0 1";
    let pos = Position::from_fen(fen).expect("test FEN must be legal");
    assert_eq!(pos.king_sq(Color::White), Square::g1());
    let missing = ks_records(fen, KS_SHIELD + 2, 1, 1);
    assert_eq!(missing.len(), 3, "three missing-shield records, got {missing:?}");
    assert!(ks_records(fen, KS_SHIELD, 1, 1).is_empty(), "no one-rank-ahead shield");
    assert!(ks_records(fen, KS_SHIELD + 1, 1, 1).is_empty(), "no two-ranks-ahead shield");
    let open = ks_records(fen, KS_OPEN_FILE, 1, 1);
    assert_eq!(open.len(), 3, "all three files near the stripped king are open, got {open:?}");
    let attackers = ks_records(fen, KS_ATTACKER, 4, 1);
    assert!(!attackers.is_empty(), "enemy queen+rook must touch the king zone");
    assert!(attackers.contains(&(KS_ATTACKER + 3)), "the black queen attacks the zone, got {attackers:?}");
    assert!(attackers.contains(&(KS_ATTACKER + 2)), "the black rook attacks the zone, got {attackers:?}");
}

#[test]
fn pawn_attacks_knight_records_threat() {
    let fen = "4k3/8/8/3n4/4P3/8/8/4K3 w - - 0 1";
    let recs = records_in_table(fen, THREAT_BY_PAWN, 4);
    assert_eq!(recs, vec![(THREAT_BY_PAWN, 1i8)], "one THREAT_BY_PAWN+0, sign +1");
    assert!(records_in_table(fen, THREAT_BY_MINOR, 4).is_empty(), "no minor threats in this position");
}

#[test]
fn undefended_rook_attacked_by_bishop() {
    let fen = "4k3/8/8/8/3r4/8/1B6/4K3 w - - 0 1";
    let minor = records_in_table(fen, THREAT_BY_MINOR, 4);
    assert_eq!(minor, vec![(THREAT_BY_MINOR + 2, 1i8)], "one THREAT_BY_MINOR+2 (rook), sign +1");
    assert_eq!(features_at(fen, HANGING), vec![1i8], "the undefended black rook is hanging");
}

#[test]
fn startpos_bishop_pair_and_tempo() {
    let fen = "rnbqkbnr/pppppppp/8/8/8/8/PPPPPPPP/RNBQKBNR w KQkq - 0 1";
    let mut bishop_pair = features_at(fen, BISHOP_PAIR);
    bishop_pair.sort_unstable();
    assert_eq!(bishop_pair, vec![-1i8, 1i8], "both sides have the bishop pair");
    assert!(features_at(fen, ROOK_OPEN).is_empty(), "no open files in the start position");
    assert!(features_at(fen, ROOK_SEMI).is_empty(), "no semi-open files in the start position");
    assert_eq!(features_at(fen, TEMPO), vec![1i8], "White to move -> TEMPO +1");
}

#[test]
fn tempo_follows_side_to_move() {
    let fen = "rnbqkbnr/pppppppp/8/8/8/8/PPPPPPPP/RNBQKBNR b KQkq - 0 1";
    assert_eq!(features_at(fen, TEMPO), vec![-1i8], "Black to move -> TEMPO -1");
}

// ---- own tests ----

#[test]
fn traced_sums_equal_weighted_records() {
    let params = busy_table();
    for fen in [
        "r1bqkbnr/pppp1ppp/2n5/4p3/2B1P3/5N2/PPPP1PPP/RNBQK2R w KQkq - 0 1",
        "k4r2/8/8/8/7q/8/8/6K1 w - - 0 1",
    ] {
        let pos = Position::from_fen(fen).unwrap();
        let mut tr = CollectingTracer::default();
        let (mg, eg) = eval_terms(&pos, &params, &mut tr);
        let (mut smg, mut seg) = (0i32, 0i32);
        for &(i, s) in &tr.features {
            let (m, e) = params.get(i as usize);
            smg += s as i32 * m;
            seg += s as i32 * e;
        }
        assert_eq!((mg, eg), (smg, seg), "sums are the weighted records on {fen}");
    }
}

#[test]
fn insufficient_material_scores_zero() {
    let mut e = Hce::new(material_table());
    for fen in ["4k3/8/8/8/8/8/8/4K3 w - - 0 1", "4k3/8/8/8/8/8/8/2B1K3 b - - 0 1", "4k3/8/8/8/8/8/8/1N2K3 w - - 0 1"] {
        assert_eq!(e.evaluate(&Position::from_fen(fen).unwrap()), 0, "{fen} is a draw");
    }
    let rook = Position::from_fen("4k3/8/8/8/8/8/8/R3K3 w - - 0 1").unwrap();
    assert_eq!(e.evaluate(&rook), 510, "rook plus tempo");
}

#[test]
fn params_reject_out_of_range_values() {
    let mut pairs = vec![(0i32, 0i32); TOTAL_PAIRS];
    pairs[5] = (10_001, 0);
    assert!(Params::from_pairs(pairs).is_none());
    let mut pairs = vec![(0i32, 0i32); TOTAL_PAIRS];
    pairs[5] = (0, -10_000);
    let p = Params::from_pairs(pairs).unwrap();
    assert_eq!(p.get(5), (0, -10_000));
    assert_eq!(Params::zeros().get(TEMPO), (0, 0));
}
