use nebchess::board::Position;
use nebchess::datagen::{play_random_opening, random_legal_move, Rng};

#[test]
fn rng_is_deterministic_and_bounded() {
    let a: Vec<u64> = { let mut r = Rng::new(42); (0..5).map(|_| r.next_u64()).collect() };
    let b: Vec<u64> = { let mut r = Rng::new(42); (0..5).map(|_| r.next_u64()).collect() };
    let c: Vec<u64> = { let mut r = Rng::new(43); (0..5).map(|_| r.next_u64()).collect() };
    assert_eq!(a, b, "same seed -> same stream");
    assert_ne!(a, c, "different seed -> different stream");

    let mut r = Rng::new(7);
    for _ in 0..1000 {
        assert!(r.below(13) < 13);
    }
}

#[test]
fn random_legal_move_is_legal_and_deterministic() {
    let pick = |seed: u64| {
        let mut pos = Position::startpos();
        let mut rng = Rng::new(seed);
        random_legal_move(&mut pos, &mut rng)
    };
    let mv = pick(1).expect("startpos has legal moves");
    let mut pos = Position::startpos();
    assert!(pos.make(mv), "returned move must be legal");
    pos.unmake();
    assert_eq!(pick(1), pick(1), "same seed -> same pick");
}

#[test]
fn random_openings_are_reproducible() {
    let a = play_random_opening(&mut Rng::new(5), 8).expect("an 8-ply opening");
    let b = play_random_opening(&mut Rng::new(5), 8).expect("an 8-ply opening");
    assert_eq!(a.to_fen(), b.to_fen(), "same seed -> same opening");
    assert_eq!(a.fullmove(), 5, "eight plies end with White to move on move 5");
    let none = play_random_opening(&mut Rng::new(5), 0).unwrap();
    assert_eq!(none.to_fen(), Position::startpos().to_fen());
}

#[test]
fn random_opening_applies_requested_plies() {
    let mut rng = Rng::new(99);
    let pos = play_random_opening(&mut rng, 8).expect("8-ply opening from startpos");
    assert_eq!(pos.stm(), nebchess::board::Color::White); // 8 half-moves -> White to move again
    assert!(pos.to_fen().split_whitespace().count() >= 6, "valid FEN");

    let mut rng_a = Rng::new(5);
    let mut rng_b = Rng::new(5);
    assert_eq!(
        play_random_opening(&mut rng_a, 8).map(|p| p.to_fen()),
        play_random_opening(&mut rng_b, 8).map(|p| p.to_fen()),
        "same seed -> same opening"
    );
}
