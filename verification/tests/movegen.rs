use nebchess::board::{generate_moves, Move, MoveList, Position};

/// pseudo-legal gen + make/unmake filter = legal move list
fn legal_moves(fen: &str) -> Vec<Move> {
    let mut pos = Position::from_fen(fen).unwrap();
    let mut list = MoveList::new();
    generate_moves(&pos, &mut list);
    let mut legal = Vec::new();
    for &mv in list.as_slice().iter() {
        if pos.make(mv) {
            pos.unmake();
            legal.push(mv);
        }
    }
    legal
}

#[test]
fn legal_move_counts_standard_positions() {
    // perft(1) of the six standard suite positions
    let cases = [
        (
            "rnbqkbnr/pppppppp/8/8/8/8/PPPPPPPP/RNBQKBNR w KQkq - 0 1",
            20,
        ),
        (
            "r3k2r/p1ppqpb1/bn2pnp1/3PN3/1p2P3/2N2Q1p/PPPBBPPP/R3K2R w KQkq - 0 1",
            48,
        ),
        ("8/2p5/3p4/KP5r/1R3p1k/8/4P1P1/8 w - - 0 1", 14),
        (
            "r3k2r/Pppp1ppp/1b3nbN/nP6/BBP1P3/q4N2/Pp1P2PP/R2Q1RK1 w kq - 0 1",
            6,
        ),
        (
            "rnbq1k1r/pp1Pbppp/2p5/8/2B5/8/PPP1NnPP/RNBQK2R w KQ - 1 8",
            44,
        ),
        (
            "r4rk1/1pp1qppp/p1np1n2/2b1p1B1/2B1P1b1/P1NP1N2/1PP1QPPP/R4RK1 w - - 0 10",
            46,
        ),
    ];
    for (fen, expected) in cases {
        assert_eq!(legal_moves(fen).len(), expected, "fen: {fen}");
    }
}

#[test]
fn castling_generated_when_legal() {
    let moves = legal_moves("r3k2r/8/8/8/8/8/8/R3K2R w KQkq - 0 1");
    let uci: Vec<String> = moves.iter().map(|m| m.to_string()).collect();
    assert!(uci.contains(&"e1g1".to_string()));
    assert!(uci.contains(&"e1c1".to_string()));
    // flags must be castle flags, not quiet
    assert!(moves
        .iter()
        .any(|m| m.to_string() == "e1g1" && m.flag() == Move::KING_CASTLE));
    assert!(moves
        .iter()
        .any(|m| m.to_string() == "e1c1" && m.flag() == Move::QUEEN_CASTLE));
}

#[test]
fn castling_blocked_through_attacked_square() {
    // black rook on f2 attacks f1: kingside out, queenside still legal
    let moves = legal_moves("r3k2r/8/8/8/8/8/5r2/R3K2R w KQkq - 0 1");
    let uci: Vec<String> = moves.iter().map(|m| m.to_string()).collect();
    assert!(!uci.contains(&"e1g1".to_string()));
    assert!(uci.contains(&"e1c1".to_string()));
}

#[test]
fn castling_not_generated_while_in_check() {
    let moves = legal_moves("r3k2r/8/8/8/8/8/4r3/R3K2R w KQkq - 0 1");
    let uci: Vec<String> = moves.iter().map(|m| m.to_string()).collect();
    assert!(!uci.contains(&"e1g1".to_string()));
    assert!(!uci.contains(&"e1c1".to_string()));
}

#[test]
fn en_passant_generated() {
    let moves = legal_moves("8/8/1k6/2b5/2pP4/8/5K2/8 b - d3 0 1");
    assert!(moves
        .iter()
        .any(|m| m.to_string() == "c4d3" && m.flag() == Move::EN_PASSANT));
}

#[test]
fn promotions_generated_all_four_plus_captures() {
    // pos5: white pawn d7, black bishop c8, black queen d8 (push blocked)
    let moves = legal_moves("rnbq1k1r/pp1Pbppp/2p5/8/2B5/8/PPP1NnPP/RNBQK2R w KQ - 1 8");
    let promo_caps: Vec<&Move> = moves
        .iter()
        .filter(|m| m.to_string().starts_with("d7c8"))
        .collect();
    assert_eq!(promo_caps.len(), 4, "n/b/r/q capture-promotions on c8");
    assert!(promo_caps
        .iter()
        .all(|m| m.is_promotion() && m.is_capture()));
    assert!(
        !moves.iter().any(|m| m.to_string().starts_with("d7d8")),
        "push blocked by queen"
    );
}

#[test]
fn double_push_blocked_by_occupied_squares() {
    // piece directly in front: neither single nor double push
    let moves = legal_moves("4k3/8/8/8/8/4n3/4P3/4K3 w - - 0 1");
    let uci: Vec<String> = moves.iter().map(|m| m.to_string()).collect();
    assert!(!uci.contains(&"e2e3".to_string()));
    assert!(!uci.contains(&"e2e4".to_string()));
    // piece on the double-push target only: single push ok, double blocked
    let moves = legal_moves("4k3/8/8/8/4n3/8/4P3/4K3 w - - 0 1");
    let uci: Vec<String> = moves.iter().map(|m| m.to_string()).collect();
    assert!(uci.contains(&"e2e3".to_string()));
    assert!(!uci.contains(&"e2e4".to_string()));
}
