use nebchess::board::movegen::find_uci_move;
use nebchess::board::Position;
use nebchess::search::see::see;

// Values: pawn 100, knight 320, bishop 330, rook 500, queen 900 (SEE-local,
// decoupled from eval — same rationale as the pinned ordering VICTIM_VALS).
#[test]
fn pawn_takes_defended_pawn_is_zero() {
    // e4xd5, d5 defended by c6 pawn: PxP, PxP -> 100 - 100 = 0
    let pos = Position::from_fen("4k3/8/2p5/3p4/4P3/8/8/4K3 w - - 0 1").unwrap();
    let mv = find_uci_move(&pos, "e4d5").unwrap();
    assert_eq!(see(&pos, mv), 0);
}

#[test]
fn rook_takes_defended_pawn_loses_exchange() {
    // Rxd5 (pawn), d5 defended by e6 pawn: +100 - 500 = -400
    let pos = Position::from_fen("4k3/8/4p3/3p4/8/8/8/3RK3 w - - 0 1").unwrap();
    let mv = find_uci_move(&pos, "d1d5").unwrap();
    assert_eq!(see(&pos, mv), -400);
}

#[test]
fn xray_battery_loses_eighty() {
    // R+R battery (Rd3 mover, Rd2 x-ray behind on the d-file) vs a single
    // knight defender on f6 (f6 defends d5). Swap:
    //   Rxd5 (+100), Nxd5 reveals the second rook, Rxd5 (+320).
    //   gain = [100], victim_val=500(rook on d5)
    //   d1: Nf6 takes rook -> gain[1] = 500 - 100 = 400, victim_val=320
    //   d2: Rd2 takes knight -> gain[2] = 320 - 400 = -80 -> prune+stop
    //   fold: gain[1] = -max(-400,-80) = 80 ; gain[0] = -max(-100,80) = -80
    let pos = Position::from_fen("4k3/8/5n2/3p4/8/3R4/3R4/4K3 w - - 0 1").unwrap();
    let mv = find_uci_move(&pos, "d3d5").unwrap();
    assert_eq!(see(&pos, mv), -80);
}

#[test]
fn en_passant_capture_sees_pawn() {
    // ep: captured pawn is NOT on the to-square; undefended -> +100
    let pos = Position::from_fen("4k3/8/8/3pP3/8/8/8/4K3 w - d6 0 1").unwrap();
    let mv = find_uci_move(&pos, "e5d6").unwrap();
    assert_eq!(see(&pos, mv), 100);
}

#[test]
fn queen_grabs_poisoned_pawn() {
    // Qxd5 defended by a knight on f6 (f6 defends d5).
    // Qxd5 (+100), Nxd5 wins the queen: fold -> -800.
    let pos = Position::from_fen("4k3/8/5n2/3p4/8/8/8/3QK3 w - - 0 1").unwrap();
    let mv = find_uci_move(&pos, "d1d5").unwrap();
    assert_eq!(see(&pos, mv), -800);
}
