use nebchess::board::{CastlingRights, Color, Move, Piece, PieceType, Position, Square, START_FEN};

fn mv(pos: &Position, from: &str, to: &str, flag: u16) -> Move {
    let _ = pos;
    Move::new(
        Square::from_name(from).unwrap(),
        Square::from_name(to).unwrap(),
        flag,
    )
}

#[test]
fn square_attacked_basics() {
    let pos = Position::startpos();
    // e3 attacked by white pawns (d2/f2), g1-knight covers f3
    assert!(pos.square_attacked(Square::from_name("e3").unwrap(), Color::White));
    assert!(pos.square_attacked(Square::from_name("f3").unwrap(), Color::White));
    // e4 attacked by nobody at start
    assert!(!pos.square_attacked(Square::from_name("e4").unwrap(), Color::White));
    assert!(!pos.square_attacked(Square::from_name("e4").unwrap(), Color::Black));
    assert!(!pos.in_check(Color::White));
    // sliding attacks through occupancy
    let pos = Position::from_fen("4r2k/8/8/8/8/8/4R3/4K3 w - - 0 1").unwrap();
    assert!(pos.square_attacked(Square::from_name("e5").unwrap(), Color::Black)); // re8
    assert!(!pos.square_attacked(Square::e1(), Color::Black)); // blocked by Re2
}

/// make+unmake must restore FEN, key, and stack depth exactly.
fn assert_make_unmake(fen: &str, m: Move, expect_legal: bool) {
    let mut pos = Position::from_fen(fen).unwrap();
    let key_before = pos.key();
    let legal = pos.make(m);
    assert_eq!(legal, expect_legal, "legality of {} in {fen}", m.to_string());
    if legal {
        assert_eq!(pos.key(), pos.compute_key(), "incremental key after {}", m.to_string());
        pos.unmake();
    }
    assert_eq!(pos.to_fen(), fen, "state restore after {}", m.to_string());
    assert_eq!(pos.key(), key_before, "key restore after {}", m.to_string());
    assert_eq!(pos.key(), pos.compute_key());
}

#[test]
fn make_unmake_quiet_and_double_push() {
    let pos = Position::startpos();
    assert_make_unmake(START_FEN, mv(&pos, "g1", "f3", Move::QUIET), true);
    assert_make_unmake(START_FEN, mv(&pos, "e2", "e4", Move::DOUBLE_PUSH), true);
}

#[test]
fn double_push_sets_ep_only_when_capturable() {
    let mut pos = Position::startpos();
    assert!(pos.make(Move::new(
        Square::from_name("e2").unwrap(),
        Square::from_name("e4").unwrap(),
        Move::DOUBLE_PUSH
    )));
    assert_eq!(pos.ep(), None, "no black pawn adjacent to e4");
    // black pawn on d4 -> e2e4 must set ep = e3
    let mut pos =
        Position::from_fen("rnbqkbnr/ppp1pppp/8/8/3p4/8/PPPPPPPP/RNBQKBNR w KQkq - 0 1")
            .unwrap();
    assert!(pos.make(Move::new(
        Square::from_name("e2").unwrap(),
        Square::from_name("e4").unwrap(),
        Move::DOUBLE_PUSH
    )));
    assert_eq!(pos.ep(), Some(Square::from_name("e3").unwrap()));
    assert_eq!(pos.key(), pos.compute_key());
}

#[test]
fn make_unmake_captures() {
    let fen = "rnbqkbnr/ppp1pppp/8/3p4/4P3/8/PPPP1PPP/RNBQKBNR w KQkq - 0 2";
    let pos = Position::from_fen(fen).unwrap();
    assert_make_unmake(fen, mv(&pos, "e4", "d5", Move::CAPTURE), true);
}

#[test]
fn make_unmake_en_passant() {
    let fen = "8/8/1k6/2b5/2pP4/8/5K2/8 b - d3 0 1";
    let pos = Position::from_fen(fen).unwrap();
    let m = mv(&pos, "c4", "d3", Move::EN_PASSANT);
    assert_make_unmake(fen, m, true);
    // verify the captured pawn vanishes from d4 (not d3)
    let mut pos = Position::from_fen(fen).unwrap();
    assert!(pos.make(m));
    assert_eq!(pos.piece_on(Square::from_name("d4").unwrap()), None);
    assert_eq!(
        pos.piece_on(Square::from_name("d3").unwrap()),
        Some(Piece::new(Color::Black, PieceType::Pawn))
    );
}

#[test]
fn make_unmake_castling_moves_rook() {
    let fen = "r3k2r/8/8/8/8/8/8/R3K2R w KQkq - 0 1";
    let pos = Position::from_fen(fen).unwrap();
    assert_make_unmake(fen, mv(&pos, "e1", "g1", Move::KING_CASTLE), true);
    assert_make_unmake(fen, mv(&pos, "e1", "c1", Move::QUEEN_CASTLE), true);
    let mut pos = Position::from_fen(fen).unwrap();
    assert!(pos.make(mv(&pos, "e1", "g1", Move::KING_CASTLE)));
    assert_eq!(
        pos.piece_on(Square::f1()),
        Some(Piece::new(Color::White, PieceType::Rook))
    );
    assert_eq!(pos.piece_on(Square::h1()), None);
    assert!(!pos.castling().has(CastlingRights::wk()));
    assert!(!pos.castling().has(CastlingRights::wq()));
    assert!(pos.castling().has(CastlingRights::bk()));
}

#[test]
fn rook_capture_strips_castling_right() {
    // Ra1xa8: black loses queenside right, white loses queenside right (rook moved)
    let fen = "r3k2r/8/8/8/8/8/6B1/R3K2R w KQkq - 0 1";
    let mut pos = Position::from_fen(fen).unwrap();
    let m = mv(&pos, "a1", "a8", Move::CAPTURE);
    assert!(pos.make(m));
    assert!(!pos.castling().has(CastlingRights::bq()), "a8 rook captured");
    assert!(!pos.castling().has(CastlingRights::wq()), "a1 rook moved");
    assert!(pos.castling().has(CastlingRights::bk()));
    assert_eq!(pos.key(), pos.compute_key());
    pos.unmake();
    assert_eq!(pos.to_fen(), fen, "rook capture restore");
    assert_eq!(pos.key(), pos.compute_key());
    assert!(pos.castling().has(CastlingRights::bq()) && pos.castling().has(CastlingRights::wq()));
}

#[test]
fn make_unmake_chain_restores_exactly() {
    // mixed flags over 6 plies; cumulative drift would survive single-move tests
    let mut pos = Position::startpos();
    let start_key = pos.key();
    let start_pawn_key = pos.pawn_key();
    let moves = [
        ("g1", "f3", Move::QUIET),
        ("g8", "f6", Move::QUIET),
        ("e2", "e4", Move::DOUBLE_PUSH),
        ("e7", "e5", Move::DOUBLE_PUSH),
        ("f1", "c4", Move::QUIET),
        ("f8", "c5", Move::QUIET),
    ];
    for (f, t, flag) in moves {
        assert!(pos.make(mv(&pos, f, t, flag)));
        assert_eq!(pos.key(), pos.compute_key(), "drift after {f}{t}");
        assert_eq!(
            pos.pawn_key(),
            pos.compute_pawn_key(),
            "pawn key drift after {f}{t}"
        );
    }
    for _ in 0..moves.len() {
        pos.unmake();
    }
    assert_eq!(pos.to_fen(), START_FEN);
    assert_eq!(pos.key(), start_key);
    assert_eq!(pos.pawn_key(), start_pawn_key);
}

#[test]
fn pawn_key_changes_on_pawn_moves_not_knight() {
    let mut pos = Position::startpos();
    let pk_start = pos.pawn_key();
    // knight move: pawn key unchanged
    assert!(pos.make(mv(&pos, "g1", "f3", Move::QUIET)));
    assert_eq!(pos.pawn_key(), pk_start, "knight move must not change pawn key");
    pos.unmake();
    // pawn move: pawn key must change
    assert!(pos.make(mv(&pos, "e2", "e4", Move::DOUBLE_PUSH)));
    assert_ne!(pos.pawn_key(), pk_start, "pawn double push must change pawn key");
    assert_eq!(pos.pawn_key(), pos.compute_pawn_key());
    pos.unmake();
    assert_eq!(pos.pawn_key(), pk_start, "pawn key restored after unmake");
}

#[test]
fn pawn_key_survives_null_move() {
    let mut pos = Position::startpos();
    let pk = pos.pawn_key();
    pos.make_null();
    assert_eq!(pos.pawn_key(), pk, "null move must not change pawn key");
    pos.unmake_null();
    assert_eq!(pos.pawn_key(), pk);
}

#[test]
fn make_unmake_promotions() {
    // c7 pawn: push-promote to empty c8, or capture-promote the b8 knight.
    let fen = "1n2k3/2P5/8/8/8/8/8/4K3 w - - 0 1";
    let pos = Position::from_fen(fen).unwrap();
    assert_make_unmake(fen, mv(&pos, "c7", "b8", Move::PROMO_CAP_Q), true);
    assert_make_unmake(fen, mv(&pos, "c7", "c8", Move::PROMO_N), true);
    let mut pos = Position::from_fen(fen).unwrap();
    assert!(pos.make(mv(&pos, "c7", "c8", Move::PROMO_Q)));
    assert_eq!(
        pos.piece_on(Square::c8()),
        Some(Piece::new(Color::White, PieceType::Queen))
    );
}

#[test]
fn illegal_move_rejected_and_state_unchanged() {
    // Re2 is pinned by Re8; moving it off the e-file is illegal
    let fen = "4r2k/8/8/8/8/8/4R3/4K3 w - - 0 1";
    let pos = Position::from_fen(fen).unwrap();
    assert_make_unmake(fen, mv(&pos, "e2", "a2", Move::QUIET), false);
    // staying on the file is legal
    assert_make_unmake(fen, mv(&pos, "e2", "e5", Move::QUIET), true);
}

#[test]
fn halfmove_and_fullmove_clocks() {
    let mut pos = Position::startpos();
    pos.make(mv(&pos, "g1", "f3", Move::QUIET));
    assert_eq!(pos.halfmove(), 1);
    assert_eq!(pos.fullmove(), 1);
    pos.make(mv(&pos, "g8", "f6", Move::QUIET));
    assert_eq!(pos.halfmove(), 2);
    assert_eq!(pos.fullmove(), 2); // increments after black moves
    pos.make(mv(&pos, "e2", "e4", Move::DOUBLE_PUSH));
    assert_eq!(pos.halfmove(), 0, "pawn move resets");
}

const KIWIPETE: &str =
    "r3k2r/p1ppqpb1/bn2pnp1/3PN3/1p2P3/2N2Q1p/PPPBBPPP/R3K2R w KQkq - 0 1";

#[test]
fn startpos_roundtrip() {
    let pos = Position::startpos();
    assert_eq!(pos.to_fen(), START_FEN);
    assert_eq!(pos.stm(), Color::White);
    assert_eq!(pos.castling(), CastlingRights::all());
    assert_eq!(pos.ep(), None);
    assert_eq!(pos.occ_all().count(), 32);
    assert_eq!(
        pos.piece_on(Square::e1()),
        Some(Piece::new(Color::White, PieceType::King))
    );
    assert_eq!(pos.king_sq(Color::Black), Square::e8());
}

#[test]
fn kiwipete_parse() {
    let pos = Position::from_fen(KIWIPETE).unwrap();
    assert_eq!(pos.occ_all().count(), 32);
    assert_eq!(pos.occ(Color::White).count(), 16);
    assert_eq!(pos.occ(Color::Black).count(), 16);
    assert_eq!(pos.to_fen(), KIWIPETE);
}

#[test]
fn fen_roundtrip_suite() {
    // canonical FENs (EP only when capturable)
    for fen in [
        "8/2p5/3p4/KP5r/1R3p1k/8/4P1P1/8 w - - 0 1",
        "r3k2r/Pppp1ppp/1b3nbN/nP6/BBP1P3/q4N2/Pp1P2PP/R2Q1RK1 w kq - 0 1",
        "rnbq1k1r/pp1Pbppp/2p5/8/2B5/8/PPP1NnPP/RNBQK2R w KQ - 1 8",
        "r4rk1/1pp1qppp/p1np1n2/2b1p1B1/2B1P1b1/P1NP1N2/1PP1QPPP/R4RK1 w - - 0 10",
        "8/8/1k6/2b5/2pP4/8/5K2/8 b - d3 0 1", // EP with capturer present: kept
    ] {
        let pos = Position::from_fen(fen).unwrap();
        assert_eq!(pos.to_fen(), fen, "roundtrip failed");
    }
}

#[test]
fn ep_square_filtered_when_uncapturable() {
    // after 1.e4 there is no black pawn on d4/f4 -> ep must canonicalize to None
    let pos = Position::from_fen("rnbqkbnr/pppppppp/8/8/4P3/8/PPPP1PPP/RNBQKBNR b KQkq e3 0 1")
        .unwrap();
    assert_eq!(pos.ep(), None);
    assert!(pos.to_fen().contains(" b KQkq - 0 1"));
    // capturer exists -> kept
    let pos = Position::from_fen("8/8/1k6/2b5/2pP4/8/5K2/8 b - d3 0 1").unwrap();
    assert_eq!(pos.ep(), Some(Square::from_name("d3").unwrap()));
}

#[test]
fn key_matches_recompute_and_differs_by_stm() {
    let a = Position::startpos();
    assert_eq!(a.key(), a.compute_key());
    let b =
        Position::from_fen("rnbqkbnr/pppppppp/8/8/8/8/PPPPPPPP/RNBQKBNR b KQkq - 0 1").unwrap();
    assert_eq!(b.key(), b.compute_key());
    assert_ne!(a.key(), b.key());
    assert_eq!(a.key() ^ b.key(), nebchess::board::zobrist::black_to_move());
}

#[test]
fn bad_fens_rejected() {
    for fen in [
        "",                                                          // empty
        "rnbqkbnr/pppppppp/8/8/8/8/PPPPPPPP w KQkq - 0 1",           // 7 ranks
        "rnbqkbnr/pppppppp/9/8/8/8/PPPPPPPP/RNBQKBNR w KQkq - 0 1",  // rank sums to 9
        "rnbqkbnr/pppppppp/8/8/8/8/PPPPPPPP/RNBQKBNR x KQkq - 0 1",  // bad stm
        "rnbqkbnr/pppppppp/8/8/8/8/PPPPPPPP/RNBQKBNR w KZkq - 0 1",  // bad castling char
        "rnbqkbnr/pppppppp/8/8/8/8/PPPPPPPP/RNBQKBNR w KQkq e9 0 1", // bad ep square
        "8/8/8/8/8/8/8/8 w - - 0 1",                                 // no kings
        "rnbqkbnr/pppppppp/8/8/8/8/PPPPPPPP/RNBQKBNR w KQkq - x 1",  // bad counter
    ] {
        assert!(Position::from_fen(fen).is_err(), "accepted bad FEN: {fen}");
    }
}

#[test]
fn en_passant_exposing_rank_pin_rejected() {
    // The most famous make/unmake trap: exd6 e.p. removes BOTH pawns from
    // rank 5, exposing Ka5 to Rh5. Must be rejected.
    let fen = "8/8/8/K2pP2r/8/8/8/4k3 w - d6 0 1";
    let pos = Position::from_fen(fen).unwrap();
    assert_eq!(
        pos.ep(),
        Some(Square::from_name("d6").unwrap()),
        "ep parsed"
    );
    assert_make_unmake(fen, mv(&pos, "e5", "d6", Move::EN_PASSANT), false);
}

#[test]
fn repetition_detected_via_history() {
    let mut pos = Position::startpos();
    assert!(!pos.is_repetition());
    // Ng1f3 Ng8f6 Nf3g1 Nf6g8 -> startpos repeated (one fold)
    for (f, t) in [("g1", "f3"), ("g8", "f6"), ("f3", "g1"), ("f6", "g8")] {
        assert!(pos.make(mv(&pos, f, t, Move::QUIET)));
    }
    assert!(pos.is_repetition(), "back at startpos: repetition");
    pos.unmake();
    assert!(!pos.is_repetition());
}

#[test]
fn pawn_move_cuts_repetition_scope() {
    let mut pos = Position::startpos();
    assert!(pos.make(mv(&pos, "e2", "e4", Move::DOUBLE_PUSH)));
    assert!(pos.make(mv(&pos, "e7", "e5", Move::DOUBLE_PUSH)));
    // shuffle knights back to the post-e4e5 position
    for (f, t) in [("g1", "f3"), ("g8", "f6"), ("f3", "g1"), ("f6", "g8")] {
        assert!(pos.make(mv(&pos, f, t, Move::QUIET)));
    }
    assert!(pos.is_repetition(), "post-e4e5 position repeated");
    // but startpos itself is NOT reachable as a repetition (pawn moves reset)
    // halfmove clock is 4 here; history scan must not cross the e7e5 boundary
    assert_eq!(pos.halfmove(), 4);
}

#[test]
fn history_survives_clone_and_unmake_restores_len() {
    let mut pos = Position::startpos();
    assert!(pos.make(mv(&pos, "g1", "f3", Move::QUIET)));
    let snapshot = pos.clone();
    assert_eq!(snapshot.key(), pos.key());
    assert!(pos.make(mv(&pos, "g8", "f6", Move::QUIET)));
    pos.unmake();
    assert_eq!(pos.key(), snapshot.key());
    assert!(!pos.is_repetition());
}

#[test]
fn fifty_move_counter_draw_helper() {
    // artificial position with halfmove=99: one quiet move crosses 100
    let mut pos = Position::from_fen("4k3/8/8/8/8/8/8/R3K3 w Q - 99 80").unwrap();
    assert!(!pos.is_fifty_move_draw());
    assert!(pos.make(mv(&pos, "a1", "a2", Move::QUIET)));
    assert_eq!(pos.halfmove(), 100);
    assert!(pos.is_fifty_move_draw());
}

#[test]
fn null_move_roundtrip() {
    let fen = "r3k2r/p1ppqpb1/bn2pnp1/3PN3/1p2P3/2N2Q1p/PPPBBPPP/R3K2R w KQkq - 0 1";
    let mut pos = Position::from_fen(fen).unwrap();
    let key = pos.key();
    pos.make_null();
    assert_ne!(pos.key(), key, "stm flip must change the key");
    assert_eq!(pos.stm(), Color::Black);
    assert_eq!(pos.key(), pos.compute_key());
    pos.unmake_null();
    assert_eq!(pos.to_fen(), fen);
    assert_eq!(pos.key(), key);
}

#[test]
fn null_move_clears_ep_and_restores_it() {
    let fen = "8/8/1k6/2b5/2pP4/8/5K2/8 b - d3 0 1"; // capturable ep kept
    let mut pos = Position::from_fen(fen).unwrap();
    assert!(pos.ep().is_some());
    pos.make_null();
    assert_eq!(pos.ep(), None, "null clears ep");
    assert_eq!(pos.key(), pos.compute_key());
    pos.unmake_null();
    assert_eq!(pos.ep(), Some(Square::from_name("d3").unwrap()));
    assert_eq!(pos.to_fen(), fen);
}

#[test]
fn null_move_interleaves_with_real_moves() {
    let mut pos = Position::startpos();
    let key0 = pos.key();
    assert!(pos.make(mv(&pos, "e2", "e4", Move::DOUBLE_PUSH)));
    pos.make_null();
    assert!(pos.make(mv(&pos, "d2", "d3", Move::QUIET))); // white again after null
    pos.unmake();
    pos.unmake_null();
    pos.unmake();
    assert_eq!(pos.key(), key0);
    assert_eq!(pos.to_fen(), START_FEN);
}

#[test]
fn non_pawn_material_detection() {
    let pos = Position::startpos();
    assert!(pos.has_non_pawn_material(Color::White));
    let pos = Position::from_fen("4k3/4p3/8/8/8/8/4P3/4K3 w - - 0 1").unwrap();
    assert!(!pos.has_non_pawn_material(Color::White), "K+P only");
    assert!(!pos.has_non_pawn_material(Color::Black));
    let pos = Position::from_fen("4k3/8/8/8/8/8/4P3/4KN2 w - - 0 1").unwrap();
    assert!(pos.has_non_pawn_material(Color::White));
}
