use nebchess::epd::parse_epd;

fn chars(s: &str) -> Vec<char> {
    s.chars().collect()
}

fn text(v: &[char]) -> String {
    v.iter().collect()
}

#[test]
fn epd_line_splits_into_position_moves_and_name() {
    let line = chars("2rr3k/pp3pp1/1nnqbN1p/3pN3/2pP4/2P3Q1/PPB4P/R4RK1 w - - bm Qg6; id \"WAC.001\";");
    let e = parse_epd(&line).unwrap();
    assert_eq!(text(&e.fen4), "2rr3k/pp3pp1/1nnqbN1p/3pN3/2pP4/2P3Q1/PPB4P/R4RK1 w - -");
    assert_eq!(e.best.len(), 1);
    assert_eq!(text(&e.best[0]), "Qg6");
    assert_eq!(text(&e.id), "WAC.001");
}

#[test]
fn epd_line_with_several_best_moves() {
    let line = chars("8/8/8/8/8/8/8/K6k w - - bm Kb1 Kb2  Ka2 ; id \"many\"; c0 \"x\";");
    let e = parse_epd(&line).unwrap();
    let best: Vec<String> = e.best.iter().map(|w| text(w)).collect();
    assert_eq!(best, vec!["Kb1", "Kb2", "Ka2"]);
    assert_eq!(text(&e.id), "many");
}

#[test]
fn epd_line_without_name_or_best_move() {
    let e = parse_epd(&chars("8/8/8/8/8/8/8/K6k w - - bm Kb1;")).unwrap();
    assert_eq!(text(&e.id), "?");
    assert!(parse_epd(&chars("8/8/8/8/8/8/8/K6k w - - am Kb1; id \"a\";")).is_none());
    assert!(parse_epd(&chars("")).is_none());
}

#[test]
fn epd_name_stops_at_quote() {
    let e = parse_epd(&chars("k7/8/8/8/8/8/8/K7 b - - bm Kb8; id \"two words\"; id \"second\";")).unwrap();
    assert_eq!(text(&e.id), "two words");
}
