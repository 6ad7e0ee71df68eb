use nebchess::board::movegen::find_uci_move;
use nebchess::board::{Move, PieceType, Position, Square};
use nebchess::book::{polyglot_key, Book, BookError};

/// A stand-in random table: a splitmix64 stream, distinct at every index.
fn table() -> [u64; 781] {
    let mut t = [0u64; 781];
    let mut s: u64 = 0x1234_5678_9abc_def0;
    for x in t.iter_mut() {
        s = s.wrapping_add(0x9E37_79B9_7F4A_7C15);
        let mut z = s;
        z = (z ^ (z >> 30)).wrapping_mul(0xBF58_476D_1CE4_E5B9);
        z = (z ^ (z >> 27)).wrapping_mul(0x94D0_49BB_1331_11EB);
        *x = z ^ (z >> 31);
    }
    t
}

fn after(moves: &[&str]) -> Position {
    let mut pos = Position::startpos();
    for m in moves {
        let mv = find_uci_move(&pos, m).expect("legal test move");
        assert!(pos.make(mv), "test move {m} must be legal");
    }
    pos
}

fn entry_bytes(key: u64, mv: u16, weight: u16, learn: u32) -> [u8; 16] {
    let mut b = [0u8; 16];
    b[0..8].copy_from_slice(&key.to_be_bytes());
    b[8..10].copy_from_slice(&mv.to_be_bytes());
    b[10..12].copy_from_slice(&weight.to_be_bytes());
    b[12..16].copy_from_slice(&learn.to_be_bytes());
    b
}

fn encode_move(from: Square, to: Square, promo: u16) -> u16 {
    (to.file() as u16)
        | ((to.rank() as u16) << 3)
        | ((from.file() as u16) << 6)
        | ((from.rank() as u16) << 9)
        | (promo << 12)
}

fn sq(name: &str) -> Square {
    Square::from_name(name).unwrap()
}

#[test]
fn hand_built_book_round_trips() {
    let t = table();
    let start = polyglot_key(&Position::startpos(), &t);
    let after_e4 = polyglot_key(&after(&["e2e4"]), &t);
    let e2e4 = encode_move(sq("e2"), Square::from_fr(4, 3), 0);
    let d2d4 = encode_move(sq("d2"), Square::from_fr(3, 3), 0);
    let g8f6 = encode_move(sq("g8"), sq("f6"), 0);

    let mut raw = Vec::new();
    raw.extend_from_slice(&entry_bytes(after_e4, g8f6, 10, 0));
    raw.extend_from_slice(&entry_bytes(start, e2e4, 7, 0));
    raw.extend_from_slice(&entry_bytes(start, d2d4, 0, 0));

    let book = Book::from_bytes(&raw, t).unwrap();
    assert_eq!(book.len(), 3);

    let startpos = Position::startpos();
    let mut seen = std::collections::HashSet::new();
    for k in 0..2000u64 {
        let mv = book.pick(&startpos, k).expect("startpos is in book");
        seen.insert(mv.to_string());
    }
    assert_eq!(
        seen,
        ["e2e4".to_string(), "d2d4".to_string()].into_iter().collect(),
        "only the two start entries, weighted"
    );
    let e4_hits = (0..2000u64)
        .filter(|&k| book.pick(&startpos, k).unwrap().to_string() == "e2e4")
        .count();
    assert!(e4_hits > 1400, "weight-7 move should dominate weight-1: {e4_hits}/2000");

    let pos_e4 = after(&["e2e4"]);
    assert_eq!(book.pick(&pos_e4, 0).unwrap().to_string(), "g8f6");

    let pos_other = after(&["e2e4", "e7e5"]);
    assert!(book.pick(&pos_other, 0).is_none());
}

#[test]
fn castling_move_decodes_to_our_flag() {
    let t = table();
    let pos = Position::from_fen("r3k2r/8/8/8/8/8/8/R3K2R w KQkq - 0 1").unwrap();
    let key = polyglot_key(&pos, &t);
    let short = encode_move(Square::e1(), Square::h1(), 0);
    let long = encode_move(Square::e1(), Square::a1(), 0);
    let raw = [entry_bytes(key, short, 5, 0), entry_bytes(key, long, 5, 0)].concat();
    let book = Book::from_bytes(&raw, t).unwrap();
    let mut kinds = std::collections::HashSet::new();
    for k in 0..400u64 {
        let mv = book.pick(&pos, k).unwrap();
        kinds.insert(mv.to_string());
        match mv.to_string().as_str() {
            "e1g1" => assert_eq!(mv.flag(), Move::KING_CASTLE),
            "e1c1" => assert_eq!(mv.flag(), Move::QUEEN_CASTLE),
            other => panic!("unexpected castle decode {other}"),
        }
    }
    assert_eq!(kinds, ["e1g1".to_string(), "e1c1".to_string()].into_iter().collect());

    let pos_b = Position::from_fen("r3k2r/8/8/8/8/8/8/R3K2R b KQkq - 0 1").unwrap();
    let bk = polyglot_key(&pos_b, &t);
    let bshort = encode_move(Square::e8(), Square::h8(), 0);
    let book_b = Book::from_bytes(&entry_bytes(bk, bshort, 1, 0), t).unwrap();
    let mv = book_b.pick(&pos_b, 0).unwrap();
    assert_eq!(mv.to_string(), "e8g8");
    assert_eq!(mv.flag(), Move::KING_CASTLE);
}

#[test]
fn promotion_move_decodes() {
    let t = table();
    let pos = Position::from_fen("4k3/2P5/8/8/8/8/8/4K3 w - - 0 1").unwrap();
    let key = polyglot_key(&pos, &t);
    let c7c8q = encode_move(sq("c7"), sq("c8"), 4);
    let book = Book::from_bytes(&entry_bytes(key, c7c8q, 1, 0), t).unwrap();
    let mv = book.pick(&pos, 0).unwrap();
    assert_eq!(mv.to_string(), "c7c8q");
    assert!(mv.is_promotion());
    assert_eq!(mv.promotion_piece_type(), PieceType::Queen);
}

#[test]
fn odd_sized_book_is_rejected() {
    let raw = [0u8; 17];
    assert!(matches!(Book::from_bytes(&raw, table()), Err(BookError::Truncated)));
}

#[test]
fn zero_move_entry_is_skipped() {
    let t = table();
    let start = polyglot_key(&Position::startpos(), &t);
    let book = Book::from_bytes(&entry_bytes(start, 0, 9, 0), t).unwrap();
    assert!(book.pick(&Position::startpos(), 0).is_none());
}

// ---- own tests ----

#[test]
fn key_terms_follow_the_format() {
    // Only the turn entry set: the start position's key is that entry.
    let mut t = [0u64; 781];
    t[780] = 0xABCD;
    assert_eq!(polyglot_key(&Position::startpos(), &t), 0xABCD);
    let black = Position::from_fen("rnbqkbnr/pppppppp/8/8/8/8/PPPPPPPP/RNBQKBNR b KQkq - 0 1").unwrap();
    assert_eq!(polyglot_key(&black, &t), 0);
    // Castling entries 768..771.
    let mut t = [0u64; 781];
    t[768] = 1;
    t[769] = 2;
    t[770] = 4;
    t[771] = 8;
    assert_eq!(polyglot_key(&black, &t), 15);
    let only_wk = Position::from_fen("r3k2r/8/8/8/8/8/8/R3K2R b K - 0 1").unwrap();
    assert_eq!(polyglot_key(&only_wk, &t), 1);
    // The white king on e1 is kind 11: entry 64 * 11 + 4.
    let mut t = [0u64; 781];
    t[64 * 11 + 4] = 0x77;
    let kings = Position::from_fen("4k3/8/8/8/8/8/8/4K3 b - - 0 1").unwrap();
    assert_eq!(polyglot_key(&kings, &t), 0x77);
}

#[test]
fn empty_book_has_no_moves() {
    let book = Book::from_bytes(&[], table()).unwrap();
    assert!(book.is_empty());
    assert_eq!(book.len(), 0);
    assert!(book.pick(&Position::startpos(), 5).is_none());
}

#[test]
fn big_endian_fields_are_read() {
    let t = table();
    let start = polyglot_key(&Position::startpos(), &t);
    let e2e4 = encode_move(sq("e2"), sq("e4"), 0);
    // A learn field and an entry whose key differs in the last byte only.
    let raw = [entry_bytes(start ^ 1, e2e4, 3, 0xFFFF_FFFF), entry_bytes(start, e2e4, 3, 7)].concat();
    let book = Book::from_bytes(&raw, t).unwrap();
    assert_eq!(book.len(), 2);
    assert_eq!(book.pick(&Position::startpos(), 0).unwrap().to_string(), "e2e4");
}
