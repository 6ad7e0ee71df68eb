use nebchess::board::movegen::find_uci_move;
use nebchess::board::{generate_moves, Color, Move, MoveList, Piece, PieceType, Position, Square};
use nebchess::eval::nnue::accumulator::{feature_indices, AccPair};
use nebchess::eval::nnue::net::{Accumulator, Network, HIDDEN, NET_BYTES};
use nebchess::eval::nnue::NnueEvaluator;
use nebchess::eval::Evaluator;

/// A synthetic network: small pseudo-random little-endian weights.
fn net_bytes() -> Vec<u8> {
    let mut b = vec![0u8; NET_BYTES];
    let mut s: u64 = 0x1234_5678;
    for k in 0..(NET_BYTES / 2) {
        s ^= s << 13;
        s ^= s >> 7;
        s ^= s << 17;
        let v = (s % 101) as i16 - 50;
        let [lo, hi] = v.to_le_bytes();
        b[2 * k] = lo;
        b[2 * k + 1] = hi;
    }
    b
}

#[test]
fn feature_index_matches_convention() {
    let (w, b) = feature_indices(Piece::new(Color::White, PieceType::Knight), Square::new(0));
    assert_eq!((w, b), (64, 504));
    let (w, b) = feature_indices(Piece::new(Color::Black, PieceType::Pawn), Square::new(56));
    assert_eq!((w, b), (440, 0));
}

#[test]
fn add_then_sub_is_identity() {
    let bytes = net_bytes();
    let net = Network::from_bytes(&bytes);
    let mut acc = AccPair::fresh(&net);
    let before = acc;
    let p = Piece::new(Color::White, PieceType::Queen);
    acc.add(&net, p, Square::new(27));
    assert_ne!(acc.white.vals, before.white.vals, "add changed the accumulator");
    acc.sub(&net, p, Square::new(27));
    assert_eq!(acc.white.vals, before.white.vals);
    assert_eq!(acc.black.vals, before.black.vals);
}

fn reference_out(bytes: &[u8], us: &Accumulator, them: &Accumulator) -> i32 {
    let w = |k: usize| i16::from_le_bytes([bytes[2 * k], bytes[2 * k + 1]]);
    let screlu = |x: i16| {
        let y = i32::from(x).clamp(0, 255);
        y * y
    };
    let mut output = 0i32;
    for i in 0..HIDDEN {
        output = output.wrapping_add(screlu(us.vals[i]) * i32::from(w(590_592 + i)));
    }
    for i in 0..HIDDEN {
        output = output.wrapping_add(screlu(them.vals[i]) * i32::from(w(590_592 + HIDDEN + i)));
    }
    output /= 255;
    output += i32::from(w(592_128));
    output = output.wrapping_mul(400);
    output / (255 * 64)
}

#[test]
fn out_matches_reference() {
    let bytes = net_bytes();
    let net = Network::from_bytes(&bytes);
    let mut s = 0x1234_5678u64;
    let mut rnd = || {
        s ^= s << 13;
        s ^= s >> 7;
        s ^= s << 17;
        (s % 512) as i16 - 128
    };
    for _ in 0..16 {
        let mut us = Accumulator { vals: [0; HIDDEN] };
        let mut them = Accumulator { vals: [0; HIDDEN] };
        for i in 0..HIDDEN {
            us.vals[i] = rnd();
            them.vals[i] = rnd();
        }
        assert_eq!(net.out(&us, &them), reference_out(&bytes, &us, &them));
    }
    // zero activations: only the output bias remains
    let zero = Accumulator { vals: [0; HIDDEN] };
    let bias = i32::from(i16::from_le_bytes([bytes[1_184_256], bytes[1_184_257]]));
    assert_eq!(net.out(&zero, &zero), bias * 400 / 16320);
}

fn check_inc_eq_refresh(fen: &str, pick: impl Fn(Move) -> bool) {
    let bytes = net_bytes();
    let mut inc = NnueEvaluator::from_bytes(&bytes);
    let mut chk = NnueEvaluator::from_bytes(&bytes);
    let mut pos = Position::from_fen(fen).unwrap();
    let mut list = MoveList::new();
    generate_moves(&pos, &mut list);
    let mut found = None;
    for i in 0..list.len() {
        let m = list.get(i);
        if pos.make(m) {
            pos.unmake();
            if pick(m) {
                found = Some(m);
                break;
            }
        }
    }
    let mv = found.expect("a matching legal move");
    inc.refresh(&pos);
    assert!(pos.make(mv));
    inc.on_make(mv, &pos);
    chk.refresh(&pos);
    assert_eq!(inc.evaluate(&pos), chk.evaluate(&pos), "inc != refresh after {} from {fen}", mv.to_string());
}

#[test]
fn incremental_updates_match_refresh() {
    check_inc_eq_refresh("k7/4P3/8/8/8/8/8/4K3 w - - 0 1", |m| m.is_promotion() && !m.is_capture());
    check_inc_eq_refresh("1n2k3/P7/8/8/8/8/8/4K3 w - - 0 1", |m| m.is_promotion() && m.is_capture());
    check_inc_eq_refresh("4k3/8/8/3pP3/8/8/8/4K3 w - d6 0 1", |m| m.flag() == Move::EN_PASSANT);
    check_inc_eq_refresh("r3k2r/8/8/8/8/8/8/R3K2R w KQkq - 0 1", |m| m.flag() == Move::KING_CASTLE);
    check_inc_eq_refresh("r3k2r/8/8/8/8/8/8/R3K2R b KQkq - 0 1", |m| m.flag() == Move::QUEEN_CASTLE);
    check_inc_eq_refresh(
        "r1bqkbnr/pppp1ppp/2n5/4p3/4P3/5N2/PPPP1PPP/RNBQKB1R w KQkq - 2 3",
        |m| m.to_string() == "f3e5",
    );
}

#[test]
fn unmake_restores_the_previous_accumulator() {
    let bytes = net_bytes();
    let mut e = NnueEvaluator::from_bytes(&bytes);
    let mut pos = Position::startpos();
    e.refresh(&pos);
    let before = e.evaluate(&pos);
    let mv = find_uci_move(&pos, "e2e4").unwrap();
    assert!(pos.make(mv));
    e.on_make(mv, &pos);
    pos.unmake();
    e.on_unmake(mv, &pos);
    assert_eq!(e.evaluate(&pos), before);
}

#[test]
fn short_network_is_refused_by_size() {
    assert_eq!(NET_BYTES, 1_184_320);
    assert!(net_bytes().len() == NET_BYTES);
}
