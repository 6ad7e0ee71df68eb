use nebchess::board::san::find_san_move;
use nebchess::board::Position;
use nebchess::book::{encode_polyglot_move, polyglot_key};
use nebchess::pgn::{
    book_entries, filter_game, parse_elo, parse_header, process_game, split_games, time_control_base, tokenize_moves,
    Args, BookStats, Game,
};

fn chars(s: &str) -> Vec<char> {
    s.chars().collect()
}

fn text(v: &[char]) -> String {
    v.iter().collect()
}

fn tokens(s: &str) -> Vec<String> {
    tokenize_moves(&chars(s)).iter().map(|t| text(t)).collect()
}

fn game(headers: &[(&str, &str)], movetext: &str) -> Game {
    Game {
        headers: headers.iter().map(|(k, v)| (chars(k), chars(v))).collect(),
        movetext: chars(movetext),
    }
}

fn table() -> [u64; 781] {
    let mut t = [0u64; 781];
    let mut s: u64 = 7;
    for x in t.iter_mut() {
        s ^= s << 13;
        s ^= s >> 7;
        s ^= s << 17;
        *x = s;
    }
    t
}

#[test]
fn tokenizer_drops_numbers_comments_nags_and_variations() {
    let toks = tokens("1. e4 e5 2. Nf3 {a (comment)} Nc6 $14 3. Bb5 (3. Bc4 Bc5 (3... Nf6)) a6 1-0");
    assert_eq!(toks, vec!["e4", "e5", "Nf3", "Nc6", "Bb5", "a6"]);
}

#[test]
fn tokenizer_cleans_glyphs_and_glued_numbers() {
    let toks = tokens("12.e4 12...d5 Qxf7# e8=Q+ Nf3!? 1/2-1/2 *");
    // only the first dot splits: "12...d5" keeps "..d5"
    assert_eq!(toks, vec!["e4", "..d5", "Qxf7", "e8=Q", "Nf3"]);
    assert!(tokens("").is_empty());
    assert!(tokens("1. 2... 0-1").is_empty());
}

#[test]
fn time_control_bases() {
    assert_eq!(time_control_base(&chars("180+2")), Some(180));
    assert_eq!(time_control_base(&chars("300")), Some(300));
    assert_eq!(time_control_base(&chars("40/9000")), Some(9000));
    assert_eq!(time_control_base(&chars("40/9000:300")), Some(9000));
    assert_eq!(time_control_base(&chars("-")), None);
    assert_eq!(time_control_base(&chars("?")), None);
}

#[test]
fn header_lines_and_elos() {
    let (k, v) = parse_header(&chars("[White \"Carlsen, Magnus\"]")).unwrap();
    assert_eq!((text(&k), text(&v)), ("White".to_string(), "Carlsen, Magnus".to_string()));
    assert!(parse_header(&chars("[White Carlsen]")).is_none());
    assert!(parse_header(&chars("White \"x\"")).is_none());
    assert_eq!(parse_elo(Some(chars(" 2450 "))), Some(2450));
    assert_eq!(parse_elo(Some(chars("?"))), None);
    assert_eq!(parse_elo(None), None);
}

#[test]
fn san_moves_resolve() {
    let mut pos = Position::startpos();
    assert_eq!(find_san_move(&mut pos, "Nf3").unwrap().to_string(), "g1f3");
    assert_eq!(find_san_move(&mut pos, "e4").unwrap().to_string(), "e2e4");
    assert!(find_san_move(&mut pos, "Nf6").is_none());
    assert!(find_san_move(&mut pos, "xyz").is_none());
    let mut castle = Position::from_fen("r3k2r/8/8/8/8/8/8/R3K2R w KQkq - 0 1").unwrap();
    assert_eq!(find_san_move(&mut castle, "O-O").unwrap().to_string(), "e1g1");
    assert_eq!(find_san_move(&mut castle, "O-O-O").unwrap().to_string(), "e1c1");
    let mut promo = Position::from_fen("4k3/2P5/8/8/8/8/8/4K3 w - - 0 1").unwrap();
    assert_eq!(find_san_move(&mut promo, "c8=Q").unwrap().to_string(), "c7c8q");
    assert_eq!(find_san_move(&mut promo, "c8N").unwrap().to_string(), "c7c8n");
    let mut amb = Position::from_fen("4k3/8/8/8/8/8/8/1N2KN2 w - - 0 1").unwrap();
    assert_eq!(find_san_move(&mut amb, "Nbd2").unwrap().to_string(), "b1d2");
    assert_eq!(find_san_move(&mut amb, "Nfd2").unwrap().to_string(), "f1d2");
}

#[test]
fn filters_follow_the_headers() {
    let args = Args::default();
    let good = [("WhiteElo", "2500"), ("BlackElo", "2400"), ("Result", "1-0")];
    assert_eq!(filter_game(&game(&good, ""), &args), Some((2, 0)));
    let draw = [("WhiteElo", "2500"), ("BlackElo", "2400"), ("Result", "1/2-1/2")];
    assert_eq!(filter_game(&game(&draw, ""), &args), Some((1, 1)));
    let weak = [("WhiteElo", "2200"), ("BlackElo", "2400"), ("Result", "1-0")];
    assert_eq!(filter_game(&game(&weak, ""), &args), None);
    let bot = [("WhiteElo", "2500"), ("BlackElo", "2400"), ("BlackTitle", "BOT"), ("Result", "0-1")];
    assert_eq!(filter_game(&game(&bot, ""), &args), None);
    let bullet = [("WhiteElo", "2500"), ("BlackElo", "2400"), ("TimeControl", "60+0"), ("Result", "0-1")];
    assert_eq!(filter_game(&game(&bullet, ""), &args), None);
    let blitz = [("WhiteElo", "2500"), ("BlackElo", "2400"), ("TimeControl", "180+2"), ("Result", "0-1")];
    assert_eq!(filter_game(&game(&blitz, ""), &args), Some((0, 2)));
    let unfinished = [("WhiteElo", "2500"), ("BlackElo", "2400"), ("Result", "*")];
    assert_eq!(filter_game(&game(&unfinished, ""), &args), None);
    let no_elo = [("WhiteElo", "2500"), ("Result", "1-0")];
    assert_eq!(filter_game(&game(&no_elo, ""), &args), None);
    // the last of two equal keys counts
    let twice = [("WhiteElo", "1000"), ("WhiteElo", "2500"), ("BlackElo", "2400"), ("Result", "1-0")];
    assert_eq!(filter_game(&game(&twice, ""), &args), Some((2, 0)));
}

#[test]
fn games_are_replayed_into_stats() {
    let t = table();
    let args = Args { min_elo: 2000, min_plies: 4, max_book_plies: 3, min_count: 1 };
    let hs = [("WhiteElo", "2500"), ("BlackElo", "2400"), ("Result", "1-0")];
    let g = game(&hs, "1. e4 e5 2. Nf3 Nc6 3. Bb5 a6 1-0");
    let mut stats = BookStats::new();
    assert_eq!(process_game(&g, &args, &t, &mut stats), Some(3));
    assert_eq!(process_game(&g, &args, &t, &mut stats), Some(3));
    let mut pos = Position::startpos();
    let e4 = find_san_move(&mut pos, "e4").unwrap();
    let k = polyglot_key(&pos, &t);
    let m = encode_polyglot_move(&pos, e4);
    assert_eq!(stats.get(k, m), Some((2, 4)), "two visits of e4, White won: 2 points each");
    assert!(pos.make(e4));
    let e5 = find_san_move(&mut pos, "e5").unwrap();
    assert_eq!(stats.get(polyglot_key(&pos, &t), encode_polyglot_move(&pos, e5)), Some((2, 0)));
    assert_eq!(stats.cells().len(), 3);

    // too short, filtered, and a game stopping at an illegal token
    let short = game(&hs, "1. e4 e5 1-0");
    assert_eq!(process_game(&short, &args, &t, &mut stats), None);
    let weak = game(&[("WhiteElo", "1500"), ("BlackElo", "2400"), ("Result", "1-0")], "1. e4 e5 2. Nf3 Nc6");
    assert_eq!(process_game(&weak, &args, &t, &mut stats), None);
    let mut fresh = BookStats::new();
    let odd = game(&hs, "1. e4 e5 2. Kxe8 Nc6 3. d4");
    assert_eq!(process_game(&odd, &args, &t, &mut fresh), Some(2));
    assert_eq!(fresh.cells().len(), 2);
}

#[test]
fn castling_encodes_as_king_takes_rook() {
    let mut pos = Position::from_fen("r3k2r/8/8/8/8/8/8/R3K2R w KQkq - 0 1").unwrap();
    let oo = find_san_move(&mut pos, "O-O").unwrap();
    // e1 (4) to h1 (7): 7 + 64 * 4
    assert_eq!(encode_polyglot_move(&pos, oo), 7 + 64 * 4);
    let ooo = find_san_move(&mut pos, "O-O-O").unwrap();
    assert_eq!(encode_polyglot_move(&pos, ooo), 64 * 4);
}

#[test]
fn pgn_text_splits_into_games() {
    let pgn = "\n[Event \"A\"]\r\n[WhiteElo \"2500\"]\n\n1. e4 e5\n2. Nf3 1-0\n\n[Event \"B\"]\n1. d4 d5 *\n[Event \"C\"]\n\n";
    let games = split_games(&chars(pgn));
    assert_eq!(games.len(), 3);
    assert_eq!(games[0].headers.len(), 2);
    assert_eq!(text(&games[0].headers[1].0), "WhiteElo");
    assert_eq!(text(&games[0].headers[1].1), "2500");
    assert_eq!(text(&games[0].movetext), "1. e4 e5 2. Nf3 1-0 ");
    assert_eq!(text(&games[1].movetext), "1. d4 d5 * ");
    assert_eq!(games[2].headers.len(), 1);
    assert!(games[2].movetext.is_empty());
    assert!(split_games(&chars("\n\n")).is_empty());
}

#[test]
fn book_entries_filter_saturate_and_order() {
    let key_a: u128 = 7;
    let key_b: u128 = 3;
    let cells: Vec<(u128, (u32, u64))> = vec![
        (key_a * 65536 + 11, (5, 40)),
        (key_b * 65536 + 2, (2, 1)),
        (key_a * 65536 + 12, (9, 1_000_000)),
        (key_b * 65536 + 9, (1, 500)),
        (key_b * 65536 + 4, (3, 1)),
    ];
    let entries = book_entries(&cells, 2);
    assert_eq!(entries, vec![(3, 2, 1), (3, 4, 1), (7, 12, 65535), (7, 11, 40)]);
    assert!(book_entries(&cells, 10).is_empty());
    assert_eq!(book_entries(&Vec::new(), 0), Vec::<(u64, u16, u16)>::new());
}
