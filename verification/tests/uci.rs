use nebchess::board::Position;
use nebchess::search::MATE;
use nebchess::uci::{
    apply_option, mate_in, nps, parse_go, parse_position, parse_setoption, play_moves, EngineOptions,
    OptionAction,
};

fn chars(s: &str) -> Vec<char> {
    s.chars().collect()
}

fn text(v: &[char]) -> String {
    v.iter().collect()
}

#[test]
fn go_limits_are_parsed() {
    let l = parse_go("go wtime 1000 btime 2000 winc 10 binc 20 movestogo 30");
    assert_eq!((l.wtime, l.btime, l.winc, l.binc, l.movestogo), (Some(1000), Some(2000), Some(10), Some(20), Some(30)));
    assert!(!l.infinite && l.depth.is_none() && l.nodes.is_none() && l.movetime.is_none());
    let l = parse_go("go depth -3 nodes x infinite");
    assert_eq!(l.depth, Some(-3));
    assert_eq!(l.nodes, None);
    assert!(l.infinite);
    let l = parse_go("go ponder movetime 500");
    assert!(l.infinite);
    assert_eq!(l.movetime, Some(500));
    let l = parse_go("go");
    assert!(!l.infinite && l.wtime.is_none());
}

#[test]
fn setoption_words_are_split() {
    let (name, value) = parse_setoption("setoption name Move Overhead value 100").unwrap();
    assert_eq!(text(&name), "Move Overhead");
    assert_eq!(value.map(|v| text(&v)), Some("100".to_string()));
    let (name, value) = parse_setoption("setoption name BookFile value /tmp/my book.bin").unwrap();
    assert_eq!(text(&name), "BookFile");
    assert_eq!(value.map(|v| text(&v)), Some("/tmp/my book.bin".to_string()));
    let (name, value) = parse_setoption("setoption name Ponder").unwrap();
    assert_eq!(text(&name), "Ponder");
    assert!(value.is_none());
    assert!(parse_setoption("setoption Hash 5").is_none());
}

#[test]
fn options_change_the_settings() {
    let mut o = EngineOptions::new();
    assert!(matches!(apply_option(&mut o, &chars("Move Overhead"), &Some(chars("9000"))), OptionAction::Nothing));
    assert_eq!(o.overhead_ms, 5000);
    assert!(matches!(apply_option(&mut o, &chars("Hash"), &Some(chars("0"))), OptionAction::ResizeHash(1)));
    assert_eq!(o.hash_mb, 1);
    assert!(matches!(apply_option(&mut o, &chars("Hash"), &Some(chars("100000"))), OptionAction::ResizeHash(4096)));
    apply_option(&mut o, &chars("BookDepth"), &Some(chars("99")));
    assert_eq!(o.book_depth, 40);
    apply_option(&mut o, &chars("BookDepth"), &Some(chars("x")));
    assert_eq!(o.book_depth, 40);
    match apply_option(&mut o, &chars("BookFile"), &Some(chars("b.bin"))) {
        OptionAction::LoadBook(p) => assert_eq!(text(&p), "b.bin"),
        _ => panic!("book not loaded"),
    }
    match apply_option(&mut o, &chars("SyzygyPath"), &Some(chars("/tb"))) {
        OptionAction::LoadTablebases(p) => assert_eq!(text(&p), "/tb"),
        _ => panic!("tables not loaded"),
    }
    assert!(matches!(apply_option(&mut o, &chars("Threads"), &Some(chars("4"))), OptionAction::Nothing));
    assert!(matches!(apply_option(&mut o, &chars("Hash"), &None), OptionAction::Nothing));
}

#[test]
fn position_commands_are_played() {
    let c = parse_position("position startpos moves e2e4 e7e5 g1f3").unwrap();
    assert!(c.fen.is_none());
    assert_eq!(c.moves.len(), 3);
    let mut pos = Position::startpos();
    assert_eq!(play_moves(&mut pos, &c.moves), Ok(3));
    assert_eq!(pos.to_fen(), "rnbqkbnr/pppp1ppp/8/4p3/4P3/5N2/PPPP1PPP/RNBQKB1R b KQkq - 1 2");

    let c = parse_position("position fen 4k3/8/8/8/8/8/8/4K2R w K - 0 1 moves e1g1 e8e7").unwrap();
    assert_eq!(text(c.fen.as_ref().unwrap()), "4k3/8/8/8/8/8/8/4K2R w K - 0 1");
    let mut pos = Position::from_fen(&text(c.fen.as_ref().unwrap())).unwrap();
    assert_eq!(play_moves(&mut pos, &c.moves), Ok(2));

    let c = parse_position("position startpos moves e2e4 e2e4 d7d5").unwrap();
    let mut pos = Position::startpos();
    assert_eq!(play_moves(&mut pos, &c.moves), Err(1));
    assert_eq!(pos.to_fen(), "rnbqkbnr/pppppppp/8/8/4P3/8/PPPP1PPP/RNBQKBNR b KQkq - 0 1");

    assert!(parse_position("position").is_none());
    assert!(parse_position("position nowhere").is_none());
    assert!(parse_position("position startpos").unwrap().moves.is_empty());
}

#[test]
fn info_numbers() {
    assert_eq!(mate_in(MATE - 1), Some(1));
    assert_eq!(mate_in(MATE - 3), Some(2));
    assert_eq!(mate_in(-(MATE - 2)), Some(-1));
    assert_eq!(mate_in(35), None);
    assert_eq!(nps(5000, 0), 0);
    assert_eq!(nps(5000, 2000), 2500);
}
