use nebchess::board::{PieceType, Position};
use nebchess::tb::{ep_square, match_legal_move, probe_bits, probeable_men, probeable_wdl, wdl_of, TbOutcome, Wdl};

#[test]
fn cursed_results_score_as_draws() {
    assert_eq!(wdl_of(TbOutcome::Win), Wdl::Win);
    assert_eq!(wdl_of(TbOutcome::Loss), Wdl::Loss);
    assert_eq!(wdl_of(TbOutcome::Draw), Wdl::Draw);
    assert_eq!(wdl_of(TbOutcome::CursedWin), Wdl::Draw);
    assert_eq!(wdl_of(TbOutcome::BlessedLoss), Wdl::Draw);
}

#[test]
fn probe_conditions() {
    let krk = Position::from_fen("8/8/8/4k3/8/8/4K3/4R3 w - - 30 1").unwrap();
    assert!(probeable_men(&krk, 5));
    assert!(!probeable_men(&krk, 2));
    assert!(!probeable_wdl(&krk, 5), "a running 50-move counter blocks WDL probes");
    let fresh = Position::from_fen("8/8/8/4k3/8/8/4K3/4R3 w - - 0 1").unwrap();
    assert!(probeable_wdl(&fresh, 5));
    let castle = Position::from_fen("4k3/8/8/8/8/8/8/4K2R w K - 0 1").unwrap();
    assert!(!probeable_men(&castle, 5), "castling rights block probes");
}

#[test]
fn probe_inputs() {
    let pos = Position::from_fen("4k3/8/8/3pP3/8/8/8/4K3 w - d6 0 1").unwrap();
    assert_eq!(ep_square(&pos), 43);
    assert_eq!(ep_square(&Position::startpos()), 0);
    let b = probe_bits(&Position::startpos());
    assert_eq!(b.white, 0xFFFF);
    assert_eq!(b.black, 0xFFFF_0000_0000_0000);
    assert_eq!(b.kings, (1 << 4) | (1 << 60));
    assert_eq!(b.pawns, 0x00FF_0000_0000_FF00);
}

#[test]
fn root_squares_name_moves() {
    let pos = Position::from_fen("4k3/8/8/3pP3/8/8/8/4K3 w - d6 0 1").unwrap();
    let ep = match_legal_move(&pos, 36, 43, None).unwrap();
    assert_eq!(ep.to_string(), "e5d6");
    assert!(ep.is_capture());
    let promo = Position::from_fen("4k3/2P5/8/8/8/8/8/4K3 w - - 0 1").unwrap();
    assert_eq!(match_legal_move(&promo, 50, 58, Some(PieceType::Rook)).unwrap().to_string(), "c7c8r");
    assert!(match_legal_move(&promo, 50, 58, None).is_none());
    assert!(match_legal_move(&promo, 0, 1, None).is_none());
}
