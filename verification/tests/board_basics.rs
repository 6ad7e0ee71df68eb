use nebchess::board::attacks::{
    bishop_deltas, king_attacks, knight_attacks, pawn_attacks, relevant_mask, rook_deltas,
    sliding_attacks_slow,
};
use nebchess::board::zobrist::ZobristKeys;
use nebchess::board::{Bitboard, CastlingRights, Color, Move, MoveList, Piece, PieceType, Square};

// ---- types ----

#[test]
fn square_roundtrip() {
    let e4 = Square::from_name("e4").unwrap();
    assert_eq!(e4.index(), 28); // e=4, rank 4 -> 4 + 3*8
    assert_eq!(e4.file(), 4);
    assert_eq!(e4.rank(), 3);
    assert_eq!(e4.to_string(), "e4");
    assert_eq!(Square::from_fr(4, 3), e4);
    assert_eq!(Square::a1().index(), 0);
    assert_eq!(Square::h8().index(), 63);
    assert!(Square::from_name("i9").is_none());
    assert!(Square::from_name("e").is_none());
    assert_eq!(Square::from_fr(0, 0), Square::a1());
    assert_eq!(Square::from_fr(7, 7), Square::h8());
    assert!(Square::from_name("A1").is_none()); // uppercase rejected
}

#[test]
fn piece_composition() {
    let bn = Piece::new(Color::Black, PieceType::Knight);
    assert_eq!(bn.color(), Color::Black);
    assert_eq!(bn.piece_type(), PieceType::Knight);
    assert_eq!(bn.index(), 7); // white 0..=5, black 6..=11
    assert_eq!(Piece::from_index(7), bn);
    assert_eq!(bn.to_char(), 'n');
    assert_eq!(Piece::from_char('n'), Some(bn));
    assert_eq!(
        Piece::from_char('K'),
        Some(Piece::new(Color::White, PieceType::King))
    );
    assert_eq!(Piece::from_char('x'), None);
}

#[test]
fn color_flip() {
    assert_eq!(Color::White.flip(), Color::Black);
    assert_eq!(Color::Black.flip(), Color::White);
}

#[test]
fn castling_rights() {
    let mut cr = CastlingRights::all();
    assert!(cr.has(CastlingRights::wk()));
    cr.remove(CastlingRights::wk() | CastlingRights::wq());
    assert!(!cr.has(CastlingRights::wk()));
    assert!(cr.has(CastlingRights::bq()));
    assert_eq!(CastlingRights::none().bits(), 0);
    assert_eq!(CastlingRights::all().bits(), 0b1111);
}

// ---- bitboard ----

#[test]
fn set_clear_contains() {
    let mut bb = Bitboard::empty();
    assert!(bb.is_empty());
    bb.set(Square::e1());
    assert!(bb.contains(Square::e1()));
    assert!(!bb.contains(Square::a1()));
    assert_eq!(bb.count(), 1);
    bb.clear(Square::e1());
    assert!(bb.is_empty());
}

#[test]
fn shifts_respect_edges() {
    // a pawn-ish single bit on h4 shifted "east" must vanish, not wrap to a5
    assert_eq!(Square::new(31).bb().east(), Bitboard::empty()); // h4
    assert_eq!(Square::new(24).bb().west(), Bitboard::empty()); // a4
    assert_eq!(Square::e1().bb().north(), Square::new(12).bb()); // e1 -> e2
    assert_eq!(Square::e1().bb().south(), Bitboard::empty());
    assert_eq!(Square::h8().bb().north(), Bitboard::empty());
}

#[test]
fn pop_lsb_ascending() {
    let mut bb = Square::a1().bb() | Square::e1().bb() | Square::h8().bb();
    assert_eq!(bb.pop_lsb(), Square::a1());
    assert_eq!(bb.pop_lsb(), Square::e1());
    assert_eq!(bb.pop_lsb(), Square::h8());
    assert!(bb.is_empty());
}

#[test]
fn iterator_yields_all() {
    let bb = Bitboard(0x8100000000000081); // corners
    let squares: Vec<Square> = bb.squares();
    assert_eq!(
        squares,
        vec![Square::a1(), Square::h1(), Square::a8(), Square::h8()]
    );
}

// ---- attacks ----

fn bb_of(names: &[&str]) -> Bitboard {
    let mut bb = Bitboard::empty();
    for n in names {
        bb.set(Square::from_name(n).unwrap());
    }
    bb
}

#[test]
fn knight_attack_patterns() {
    assert_eq!(
        knight_attacks(Square::from_name("d4").unwrap()),
        bb_of(&["b3", "b5", "c2", "c6", "e2", "e6", "f3", "f5"])
    );
    // corner: no wrap-around
    assert_eq!(knight_attacks(Square::a1()), bb_of(&["b3", "c2"]));
    assert_eq!(knight_attacks(Square::h8()), bb_of(&["f7", "g6"]));
}

#[test]
fn king_attack_patterns() {
    assert_eq!(
        king_attacks(Square::e1()),
        bb_of(&["d1", "d2", "e2", "f1", "f2"])
    );
    assert_eq!(king_attacks(Square::a8()), bb_of(&["a7", "b7", "b8"]));
}

#[test]
fn pawn_attack_patterns() {
    let e4 = Square::from_name("e4").unwrap();
    assert_eq!(pawn_attacks(Color::White, e4), bb_of(&["d5", "f5"]));
    assert_eq!(pawn_attacks(Color::Black, e4), bb_of(&["d3", "f3"]));
    // edges don't wrap
    let a2 = Square::from_name("a2").unwrap();
    assert_eq!(pawn_attacks(Color::White, a2), bb_of(&["b3"]));
    let h7 = Square::from_name("h7").unwrap();
    assert_eq!(pawn_attacks(Color::Black, h7), bb_of(&["g6"]));
}

#[test]
fn leaper_popcounts_exhaustive() {
    // popcount distribution catches any future mask typo
    for i in 0..64u8 {
        let sq = Square::new(i);
        let (f, r) = (i % 8, i / 8);
        let edge_dist = |x: u8| x.min(7 - x);
        let (fd, rd) = (edge_dist(f), edge_dist(r));
        let expected_knight = match (fd.min(rd), fd.max(rd)) {
            (0, 0) => 2,
            (0, 1) => 3,
            (0, _) => 4,
            (1, 1) => 4,
            (1, _) => 6,
            _ => 8,
        };
        assert_eq!(knight_attacks(sq).count(), expected_knight, "knight {}", sq.to_string());
        let expected_king = match (fd.min(rd), fd.max(rd)) {
            (0, 0) => 3,
            (0, _) => 5,
            _ => 8,
        };
        assert_eq!(king_attacks(sq).count(), expected_king, "king {}", sq.to_string());
    }
}

#[test]
fn slow_rook_rays() {
    // empty board from a1: full file + rank minus a1 itself = 14 squares
    let a = sliding_attacks_slow(Square::a1(), Bitboard::empty(), &rook_deltas());
    assert_eq!(a.count(), 14);
    // blocker on d4 stops the ray (blocker square included, beyond excluded)
    let d4 = Square::from_name("d4").unwrap();
    let d1 = Square::d1();
    let occ = d4.bb();
    let a = sliding_attacks_slow(d1, occ, &rook_deltas());
    assert!(a.contains(d4));
    assert!(!a.contains(Square::from_name("d5").unwrap()));
    assert!(a.contains(Square::from_name("d2").unwrap()));
    assert!(a.contains(Square::a1()) && a.contains(Square::h1()));
}

#[test]
fn slow_bishop_rays() {
    let d4 = Square::from_name("d4").unwrap();
    let a = sliding_attacks_slow(d4, Bitboard::empty(), &bishop_deltas());
    assert_eq!(a.count(), 13);
    let occ = bb_of(&["f6"]);
    let a = sliding_attacks_slow(d4, occ, &bishop_deltas());
    assert!(a.contains(Square::from_name("f6").unwrap()));
    assert!(!a.contains(Square::from_name("g7").unwrap()));
}

#[test]
fn relevant_mask_bit_counts() {
    // Known values: rook a1 = 12 relevant bits, rook d4 = 10, bishop d4 = 9, bishop a1 = 6
    assert_eq!(relevant_mask(Square::a1(), &rook_deltas()).count(), 12);
    let d4 = Square::from_name("d4").unwrap();
    assert_eq!(relevant_mask(d4, &rook_deltas()).count(), 10);
    assert_eq!(relevant_mask(d4, &bishop_deltas()).count(), 9);
    assert_eq!(relevant_mask(Square::a1(), &bishop_deltas()).count(), 6);
}

// ---- moves ----

#[test]
fn pack_unpack_roundtrip() {
    let e2 = Square::from_name("e2").unwrap();
    let e4 = Square::from_name("e4").unwrap();
    let mv = Move::new(e2, e4, Move::DOUBLE_PUSH);
    assert_eq!(mv.from(), e2);
    assert_eq!(mv.to(), e4);
    assert_eq!(mv.flag(), Move::DOUBLE_PUSH);
    assert!(!mv.is_capture());
    assert!(!mv.is_promotion());
}

#[test]
fn flag_predicates() {
    let a = Square::from_name("d4").unwrap();
    let b = Square::from_name("e5").unwrap();
    assert!(Move::new(a, b, Move::CAPTURE).is_capture());
    assert!(Move::new(a, b, Move::EN_PASSANT).is_capture());
    assert!(!Move::new(a, b, Move::KING_CASTLE).is_capture());
    let p = Move::new(a, b, Move::PROMO_CAP_Q);
    assert!(p.is_capture() && p.is_promotion());
    assert_eq!(p.promotion_piece_type(), PieceType::Queen);
    assert_eq!(
        Move::new(a, b, Move::PROMO_N).promotion_piece_type(),
        PieceType::Knight
    );
}

#[test]
fn uci_display() {
    let e7 = Square::from_name("e7").unwrap();
    let e8 = Square::from_name("e8").unwrap();
    assert_eq!(Move::new(e7, e8, Move::PROMO_Q).to_string(), "e7e8q");
    let e2 = Square::from_name("e2").unwrap();
    let e4 = Square::from_name("e4").unwrap();
    assert_eq!(Move::new(e2, e4, Move::DOUBLE_PUSH).to_string(), "e2e4");
    assert_eq!(
        Move::new(Square::e1(), Square::g1(), Move::KING_CASTLE).to_string(),
        "e1g1"
    );
}

#[test]
fn movelist_push_iter() {
    let mut list = MoveList::new();
    assert_eq!(list.len(), 0);
    let mv = Move::new(Square::e1(), Square::g1(), Move::KING_CASTLE);
    list.push(mv);
    list.push(mv);
    assert_eq!(list.len(), 2);
    assert!(list.as_slice().iter().all(|&m| m == mv));
}

#[test]
fn raw_roundtrip() {
    let mv = Move::new(Square::e1(), Square::g1(), Move::KING_CASTLE);
    assert_eq!(Move::from_raw(mv.raw()), mv);
    assert_eq!(Move::from_raw(0), Move::null());
}

#[test]
fn as_mut_slice_allows_reordering() {
    let mut list = MoveList::new();
    let a = Move::new(Square::e1(), Square::g1(), Move::KING_CASTLE);
    let b = Move::new(Square::a1(), Square::h8(), Move::QUIET);
    list.push(a);
    list.push(b);
    list.swap(0, 1);
    assert_eq!(list.as_slice()[0], b);
    assert_eq!(list.as_slice()[1], a);
}

// ---- zobrist ----

#[test]
fn all_keys_distinct() {
    let keys = ZobristKeys::build();
    let mut seen = std::collections::HashSet::new();
    for sq_keys in keys.pieces.iter() {
        for &k in sq_keys.iter() {
            assert!(seen.insert(k), "duplicate piece key");
        }
    }
    for &k in &keys.ep_file {
        assert!(seen.insert(k), "duplicate ep key");
    }
    assert!(seen.insert(keys.black_to_move));
    // castling[0] must be 0 (no rights = nothing hashed)
    assert_eq!(keys.castling[0], 0);
    // the four single-right entries are the base keys and distinct
    for bits in [1usize, 2, 4, 8] {
        assert!(seen.insert(keys.castling[bits]), "duplicate castling key");
    }
}

#[test]
fn castling_table_is_xor_composed() {
    let keys = ZobristKeys::build();
    for bits in 0..16usize {
        let mut expect = 0u64;
        for base_bit in [1usize, 2, 4, 8] {
            if bits & base_bit != 0 {
                expect ^= keys.castling[base_bit];
            }
        }
        assert_eq!(keys.castling[bits], expect, "castling[{bits}]");
    }
}
