//! The UCI protocol's commands as values: `go` limits, `setoption`,
//! `position`, the book window and the numbers of an `info` line. The
//! program around the library reads the commands, runs searches and prints.
use vstd::prelude::*;

use crate::board::fen::start_state;
use crate::board::makemove::{legal_after, make_state};
use crate::board::movegen::{consistent, find_uci_chars, is_consistent, lemma_consistent_pawns, lemma_make_consistent, lemma_pseudo_legal_move_ok, pseudo_legal};
use crate::board::moves::uci_text;
use crate::board::position::PosState;
use crate::board::{Move, Position};
use crate::search::limits::Limits;
use crate::search::{MATE, MATE_BOUND};
use crate::text::{chars_of, equals, fields, i32_text, parse_i32, parse_uint, split_fields, uint_text};

verus! {

/// The `u64` right after token `i`, if it parses.
pub open spec fn u64_after(toks: Seq<Seq<char>>, i: int) -> Option<u64> {
    if i + 1 < toks.len() {
        match uint_text(toks[i + 1], 0xFFFF_FFFF_FFFF_FFFF) {
            Some(v) => Some(v as u64),
            None => None,
        }
    } else {
        None
    }
}

/// The limits of `go` tokens `toks[i..]` read into `l`: a numeric keyword
/// takes the next token when it parses (else the keyword alone is
/// skipped); `infinite` and `ponder` set `infinite`; anything else is
/// ignored.
pub open spec fn go_from(toks: Seq<Seq<char>>, i: int, l: Limits) -> Limits
    decreases toks.len() - i,
{
    if i < 0 || i >= toks.len() {
        l
    } else {
        let t = toks[i];
        if t == "wtime"@ || t == "btime"@ || t == "winc"@ || t == "binc"@ || t == "movetime"@ || t
            == "nodes"@ {
            match u64_after(toks, i) {
                Some(v) => go_from(
                    toks,
                    i + 2,
                    if t == "wtime"@ {
                        Limits { wtime: Some(v), ..l }
                    } else if t == "btime"@ {
                        Limits { btime: Some(v), ..l }
                    } else if t == "winc"@ {
                        Limits { winc: Some(v), ..l }
                    } else if t == "binc"@ {
                        Limits { binc: Some(v), ..l }
                    } else if t == "movetime"@ {
                        Limits { movetime: Some(v), ..l }
                    } else {
                        Limits { nodes: Some(v), ..l }
                    },
                ),
                None => go_from(toks, i + 1, l),
            }
        } else if t == "depth"@ {
            if i + 1 < toks.len() && i32_text(toks[i + 1]) is Some {
                go_from(toks, i + 2, Limits { depth: Some(i32_text(toks[i + 1])->0 as i32), ..l })
            } else {
                go_from(toks, i + 1, l)
            }
        } else if t == "movestogo"@ {
            if i + 1 < toks.len() && uint_text(toks[i + 1], 0xFFFF_FFFF) is Some {
                go_from(
                    toks,
                    i + 2,
                    Limits { movestogo: Some(uint_text(toks[i + 1], 0xFFFF_FFFF)->0 as u32), ..l },
                )
            } else {
                go_from(toks, i + 1, l)
            }
        } else if t == "infinite"@ || t == "ponder"@ {
            go_from(toks, i + 1, Limits { infinite: true, ..l })
        } else {
            go_from(toks, i + 1, l)
        }
    }
}

/// The limits with nothing set.
pub open spec fn no_limits() -> Limits {
    Limits {
        depth: None,
        nodes: None,
        soft_nodes: None,
        movetime: None,
        wtime: None,
        btime: None,
        winc: None,
        binc: None,
        movestogo: None,
        infinite: false,
    }
}

/// `go k v` with a number `v` after a time, increment, movetime or nodes
/// keyword `k` sets exactly the field named `k` to `v`; `go depth d` and
/// `go movestogo n` set theirs; `go infinite` and `go ponder` set
/// `infinite`.
pub proof fn lemma_go_keyword_sets_field(w: Seq<char>, v: nat)
    requires
        uint_text(w, 0xFFFF_FFFF_FFFF_FFFF) == Some(v),
    ensures
        go_from(seq!["go"@, "wtime"@, w], 1, no_limits()) == (Limits { wtime: Some(v as u64), ..no_limits() }),
        go_from(seq!["go"@, "btime"@, w], 1, no_limits()) == (Limits { btime: Some(v as u64), ..no_limits() }),
        go_from(seq!["go"@, "winc"@, w], 1, no_limits()) == (Limits { winc: Some(v as u64), ..no_limits() }),
        go_from(seq!["go"@, "binc"@, w], 1, no_limits()) == (Limits { binc: Some(v as u64), ..no_limits() }),
        go_from(seq!["go"@, "movetime"@, w], 1, no_limits()) == (Limits { movetime: Some(v as u64), ..no_limits() }),
        go_from(seq!["go"@, "nodes"@, w], 1, no_limits()) == (Limits { nodes: Some(v as u64), ..no_limits() }),
        uint_text(w, 0xFFFF_FFFF) is Some ==> go_from(seq!["go"@, "movestogo"@, w], 1, no_limits()) == (Limits {
            movestogo: Some(v as u32),
            ..no_limits()
        }),
        i32_text(w) matches Some(d) ==> go_from(seq!["go"@, "depth"@, w], 1, no_limits()) == (Limits {
            depth: Some(d as i32),
            ..no_limits()
        }),
{
    reveal_strlit("go");
    reveal_strlit("wtime");
    reveal_strlit("btime");
    reveal_strlit("winc");
    reveal_strlit("binc");
    reveal_strlit("movetime");
    reveal_strlit("nodes");
    reveal_strlit("movestogo");
    reveal_strlit("depth");
    reveal_strlit("infinite");
    reveal_strlit("ponder");
    assert("wtime"@ != "btime"@ && "wtime"@ != "winc"@ && "wtime"@ != "binc"@ && "wtime"@ != "movetime"@ && "wtime"@
        != "nodes"@) by {
        assert("wtime"@[0] != "btime"@[0] && "wtime"@[1] != "winc"@[1]);
        assert("wtime"@[1] != "binc"@[1] && "wtime"@.len() != "movetime"@.len() && "wtime"@[0] != "nodes"@[0]);
    }
    assert("btime"@ != "winc"@ && "btime"@ != "binc"@ && "btime"@ != "movetime"@ && "btime"@ != "nodes"@) by {
        assert("btime"@[0] != "winc"@[0] && "btime"@.len() != "binc"@.len());
        assert("btime"@.len() != "movetime"@.len() && "btime"@[0] != "nodes"@[0]);
    }
    assert("winc"@ != "binc"@ && "winc"@ != "movetime"@ && "winc"@ != "nodes"@) by {
        assert("winc"@[0] != "binc"@[0] && "winc"@.len() != "movetime"@.len() && "winc"@.len() != "nodes"@.len());
    }
    assert("binc"@ != "movetime"@ && "binc"@ != "nodes"@) by {
        assert("binc"@.len() != "movetime"@.len() && "binc"@.len() != "nodes"@.len());
    }
    assert("movetime"@ != "nodes"@) by {
        assert("movetime"@.len() != "nodes"@.len());
    }
    assert("movestogo"@ != "wtime"@ && "movestogo"@ != "btime"@ && "movestogo"@ != "winc"@ && "movestogo"@ != "binc"@
        && "movestogo"@ != "movetime"@ && "movestogo"@ != "nodes"@ && "movestogo"@ != "depth"@) by {
        assert("movestogo"@.len() == 9 && "movetime"@.len() == 8);
    }
    assert("depth"@ != "wtime"@ && "depth"@ != "btime"@ && "depth"@ != "winc"@ && "depth"@ != "binc"@ && "depth"@
        != "movetime"@ && "depth"@ != "nodes"@) by {
        assert("depth"@[0] != "wtime"@[0] && "depth"@[0] != "btime"@[0] && "depth"@.len() != "winc"@.len());
        assert("depth"@.len() != "binc"@.len() && "depth"@.len() != "movetime"@.len() && "depth"@[0] != "nodes"@[0]);
    }
    let tw = seq!["go"@, "wtime"@, w];
    assert(u64_after(tw, 1) == Some(v as u64));
    assert(go_from(tw, 3, Limits { wtime: Some(v as u64), ..no_limits() }) == (Limits { wtime: Some(v as u64), ..no_limits() }));
    let tb = seq!["go"@, "btime"@, w];
    assert(u64_after(tb, 1) == Some(v as u64));
    assert(go_from(tb, 3, Limits { btime: Some(v as u64), ..no_limits() }) == (Limits { btime: Some(v as u64), ..no_limits() }));
    let t_winc = seq!["go"@, "winc"@, w];
    assert(u64_after(t_winc, 1) == Some(v as u64));
    assert(go_from(t_winc, 3, Limits { winc: Some(v as u64), ..no_limits() }) == (Limits { winc: Some(v as u64), ..no_limits() }));
    let t_binc = seq!["go"@, "binc"@, w];
    assert(u64_after(t_binc, 1) == Some(v as u64));
    assert(go_from(t_binc, 3, Limits { binc: Some(v as u64), ..no_limits() }) == (Limits { binc: Some(v as u64), ..no_limits() }));
    let t_movetime = seq!["go"@, "movetime"@, w];
    assert(u64_after(t_movetime, 1) == Some(v as u64));
    assert(go_from(t_movetime, 3, Limits { movetime: Some(v as u64), ..no_limits() }) == (Limits { movetime: Some(v as u64), ..no_limits() }));
    let t_mtg = seq!["go"@, "movestogo"@, w];
    if uint_text(w, 0xFFFF_FFFF) is Some {
        assert(uint_text(t_mtg[2], 0xFFFF_FFFF)->0 == v);
        assert(go_from(t_mtg, 3, Limits { movestogo: Some(v as u32), ..no_limits() }) == (Limits {
            movestogo: Some(v as u32),
            ..no_limits()
        }));
    }
    let t_depth = seq!["go"@, "depth"@, w];
    if i32_text(w) is Some {
        let d = i32_text(w)->0;
        assert(t_depth[2] == w);
        assert(go_from(t_depth, 3, Limits { depth: Some(d as i32), ..no_limits() }) == (Limits {
            depth: Some(d as i32),
            ..no_limits()
        }));
    }
    let t_nodes = seq!["go"@, "nodes"@, w];
    assert(u64_after(t_nodes, 1) == Some(v as u64));
    assert(go_from(t_nodes, 3, Limits { nodes: Some(v as u64), ..no_limits() }) == (Limits { nodes: Some(v as u64), ..no_limits() }));
}

fn u64_at(toks: &Vec<Vec<char>>, i: usize) -> (r: Option<u64>)
    ensures
        r == u64_after(toks@.map_values(|v: Vec<char>| v@), i as int),
{
    let ghost t = toks@.map_values(|v: Vec<char>| v@);
    if i < toks.len() && i + 1 < toks.len() {
        proof {
            assert(t[i + 1] == toks@[i + 1]@);
        }
        match parse_uint(&toks[i + 1], 0xFFFF_FFFF_FFFF_FFFF) {
            Some(v) => Some(v),
            None => None,
        }
    } else {
        None
    }
}

/// The search limits of a `go` command line.
pub fn parse_go(line: &str) -> (r: Limits)
    ensures
        r == go_from(fields(line@), 1, no_limits()),
{
    let toks = split_fields(&chars_of(line));
    let ghost t = toks@.map_values(|v: Vec<char>| v@);
    let mut l = Limits {
        depth: None,
        nodes: None,
        soft_nodes: None,
        movetime: None,
        wtime: None,
        btime: None,
        winc: None,
        binc: None,
        movestogo: None,
        infinite: false,
    };
    let mut i: usize = 1;
    if toks.len() == 0 {
        return l;
    }
    while i < toks.len()
        invariant
            1 <= i <= toks@.len() + 1,
            t == toks@.map_values(|v: Vec<char>| v@),
            t == fields(line@),
            go_from(t, i as int, l) == go_from(t, 1, no_limits()),
        decreases toks@.len() + 1 - i,
    {
        let w = &toks[i];
        proof {
            assert(t[i as int] == w@);
        }
        let num = equals(w, "wtime") || equals(w, "btime") || equals(w, "winc") || equals(w, "binc")
            || equals(w, "movetime") || equals(w, "nodes");
        if num {
            match u64_at(&toks, i) {
                Some(v) => {
                    if equals(w, "wtime") {
                        l.wtime = Some(v);
                    } else if equals(w, "btime") {
                        l.btime = Some(v);
                    } else if equals(w, "winc") {
                        l.winc = Some(v);
                    } else if equals(w, "binc") {
                        l.binc = Some(v);
                    } else if equals(w, "movetime") {
                        l.movetime = Some(v);
                    } else {
                        l.nodes = Some(v);
                    }
                    i += 2;
                },
                None => {
                    i += 1;
                },
            }
        } else if equals(w, "depth") {
            let d = if i + 1 < toks.len() {
                proof {
                    assert(t[i + 1] == toks@[i + 1]@);
                }
                parse_i32(&toks[i + 1])
            } else {
                None
            };
            match d {
                Some(v) => {
                    l.depth = Some(v);
                    i += 2;
                },
                None => {
                    i += 1;
                },
            }
        } else if equals(w, "movestogo") {
            let m = if i + 1 < toks.len() {
                proof {
                    assert(t[i + 1] == toks@[i + 1]@);
                }
                parse_uint(&toks[i + 1], 0xFFFF_FFFF)
            } else {
                None
            };
            match m {
                Some(v) => {
                    l.movestogo = Some(v as u32);
                    i += 2;
                },
                None => {
                    i += 1;
                },
            }
        } else if equals(w, "infinite") || equals(w, "ponder") {
            l.infinite = true;
            i += 1;
        } else {
            i += 1;
        }
    }
    l
}

/// Words joined by single spaces.
pub open spec fn join(ws: Seq<Seq<char>>) -> Seq<char>
    decreases ws.len(),
{
    if ws.len() == 0 {
        Seq::empty()
    } else if ws.len() == 1 {
        ws[0]
    } else {
        join(ws.drop_last()) + seq![' '] + ws.last()
    }
}

/// Index of the first word `w` in `ws[i..]`, or the length.
pub open spec fn word_index(ws: Seq<Seq<char>>, w: Seq<char>, i: int) -> int
    decreases ws.len() - i,
{
    if i >= ws.len() {
        ws.len() as int
    } else if ws[i] == w {
        i
    } else {
        word_index(ws, w, i + 1)
    }
}

/// The option name and value of `setoption name <name...> [value
/// <value...>]` tokens: the words up to the first `value` form the name,
/// all words after it the value.
pub open spec fn setoption_parts(toks: Seq<Seq<char>>) -> Option<(Seq<char>, Option<Seq<char>>)> {
    if toks.len() < 2 || toks[1] != "name"@ {
        None
    } else {
        let rest = toks.skip(2);
        let v = word_index(rest, "value"@, 0);
        Some(
            (
                join(rest.take(v)),
                if v < rest.len() {
                    Some(join(rest.skip(v + 1)))
                } else {
                    None
                },
            ),
        )
    }
}

/// The words `toks[a..e]` joined by single spaces.
fn join_words(toks: &Vec<Vec<char>>, a: usize, e: usize) -> (r: Vec<char>)
    requires
        a <= e <= toks@.len(),
    ensures
        r@ == join(toks@.map_values(|v: Vec<char>| v@).subrange(a as int, e as int)),
{
    let ghost t = toks@.map_values(|v: Vec<char>| v@);
    let mut out: Vec<char> = Vec::new();
    let mut k = a;
    proof {
        assert(t.subrange(a as int, a as int) =~= Seq::<Seq<char>>::empty());
    }
    while k < e
        invariant
            a <= k <= e <= toks@.len(),
            t == toks@.map_values(|v: Vec<char>| v@),
            out@ == join(t.subrange(a as int, k as int)),
        decreases e - k,
    {
        let ghost before = out@;
        if k > a {
            out.push(' ');
        }
        let w = &toks[k];
        let mut j: usize = 0;
        let ghost mid = out@;
        while j < w.len()
            invariant
                j <= w@.len(),
                out@ == mid + w@.take(j as int),
            decreases w@.len() - j,
        {
            out.push(w[j]);
            j += 1;
            proof {
                assert(out@ =~= mid + w@.take(j as int));
            }
        }
        proof {
            assert(w@.take(w@.len() as int) =~= w@);
            assert(t[k as int] == w@);
            let ws = t.subrange(a as int, k + 1);
            assert(ws.drop_last() =~= t.subrange(a as int, k as int));
            assert(ws.last() == w@);
            if k == a {
                assert(ws.len() == 1);
                assert(out@ =~= w@);
            } else {
                assert(out@ =~= before + seq![' '] + w@);
            }
        }
        k += 1;
    }
    out
}

/// The option name and value of a `setoption` command line, or `None`
/// when the second word is not `name`.
pub fn parse_setoption(line: &str) -> (r: Option<(Vec<char>, Option<Vec<char>>)>)
    ensures
        r is None <==> setoption_parts(fields(line@)) is None,
        r matches Some(p) ==> setoption_parts(fields(line@)) == Some(
            (
                p.0@,
                match p.1 {
                    Some(v) => Some(v@),
                    None => None,
                },
            ),
        ),
{
    let toks = split_fields(&chars_of(line));
    let ghost t = toks@.map_values(|v: Vec<char>| v@);
    if toks.len() < 2 || !equals(&toks[1], "name") {
        proof {
            if t.len() >= 2 {
                assert(t[1] == toks@[1]@);
            }
        }
        return None;
    }
    proof {
        assert(t[1] == toks@[1]@);
    }
    let ghost rest = t.skip(2);
    let mut v: usize = 2;
    while v < toks.len() && !equals(&toks[v], "value")
        invariant
            2 <= v <= toks@.len(),
            t == toks@.map_values(|v: Vec<char>| v@),
            rest == t.skip(2),
            word_index(rest, "value"@, 0) == word_index(rest, "value"@, v - 2),
        decreases toks@.len() - v,
    {
        proof {
            assert(rest[v - 2] == toks@[v as int]@);
        }
        v += 1;
    }
    proof {
        if v < toks@.len() {
            assert(rest[v - 2] == toks@[v as int]@);
        }
        assert(word_index(rest, "value"@, v - 2) == v - 2);
        assert(rest.take(v - 2) =~= t.subrange(2, v as int));
        if v < toks@.len() {
            assert(rest.skip(v - 2 + 1) =~= t.subrange(v + 1, t.len() as int));
        }
    }
    let name = join_words(&toks, 2, v);
    let value = if v < toks.len() {
        Some(join_words(&toks, v + 1, toks.len()))
    } else {
        None
    };
    Some((name, value))
}

/// Engine settings the options change.
pub struct EngineOptions {
    pub overhead_ms: u64,
    pub hash_mb: usize,
    pub book_depth: u32,
}

impl EngineOptions {
    /// Move Overhead 50 ms, Hash 16 MB, BookDepth 16.
    pub fn new() -> (r: EngineOptions)
        ensures
            r.overhead_ms == 50 && r.hash_mb == 16 && r.book_depth == 16,
    {
        EngineOptions { overhead_ms: 50, hash_mb: 16, book_depth: 16 }
    }
}

/// What setting an option asks of the program: nothing more, a new hash
/// table, or loading (or, for an empty value, dropping) a book or
/// tablebases.
pub enum OptionAction {
    Nothing,
    ResizeHash(usize),
    LoadBook(Vec<char>),
    LoadTablebases(Vec<char>),
}

/// The number an option value parses to (at most `max`).
pub open spec fn opt_num(value: Option<Vec<char>>, max: nat) -> Option<nat> {
    match value {
        Some(v) => uint_text(v@, max),
        None => None,
    }
}

/// The characters of an option value.
pub open spec fn opt_text(value: Option<Vec<char>>) -> Option<Seq<char>> {
    match value {
        Some(v) => Some(v@),
        None => None,
    }
}

/// Hash size in MB clamped to 1..=4096.
pub open spec fn hash_size(mb: nat) -> int {
    if mb < 1 {
        1
    } else if mb > 4096 {
        4096
    } else {
        mb as int
    }
}

/// Applies `setoption` with option `name` and `value` to `opts`: Move
/// Overhead (capped at 5000 ms), Hash (clamped to 1..=4096 MB), BookDepth
/// (capped at 40), BookFile and SyzygyPath (handed to the program); any
/// other option, a missing value or an unparsable number changes nothing.
pub fn apply_option(opts: &mut EngineOptions, name: &Vec<char>, value: &Option<Vec<char>>) -> (r: OptionAction)
    ensures
        final(opts).overhead_ms == (if name@ == "Move Overhead"@ && opt_num(*value, 0xFFFF_FFFF_FFFF_FFFF) is Some {
            let ms = opt_num(*value, 0xFFFF_FFFF_FFFF_FFFF)->0;
            if ms > 5000 { 5000 } else { ms as int }
        } else {
            old(opts).overhead_ms as int
        }),
        final(opts).hash_mb == (if name@ == "Hash"@ && opt_num(*value, usize::MAX as nat) is Some {
            hash_size(opt_num(*value, usize::MAX as nat)->0)
        } else {
            old(opts).hash_mb as int
        }),
        final(opts).book_depth == (if name@ == "BookDepth"@ && opt_num(*value, 0xFFFF_FFFF) is Some {
            let d = opt_num(*value, 0xFFFF_FFFF)->0;
            if d > 40 { 40 } else { d as int }
        } else {
            old(opts).book_depth as int
        }),
        (r is ResizeHash) <==> (name@ == "Hash"@ && opt_num(*value, usize::MAX as nat) is Some),
        (r is LoadBook) <==> (name@ == "BookFile"@ && value is Some),
        (r is LoadTablebases) <==> (name@ == "SyzygyPath"@ && value is Some),
        r matches OptionAction::ResizeHash(n) ==> n == final(opts).hash_mb,
        r matches OptionAction::LoadBook(p) ==> opt_text(*value) == Some(p@),
        r matches OptionAction::LoadTablebases(p) ==> opt_text(*value) == Some(p@),
{
    proof {
        reveal_strlit("Move Overhead");
        reveal_strlit("Hash");
        reveal_strlit("BookDepth");
        reveal_strlit("BookFile");
        reveal_strlit("SyzygyPath");
        assert("Move Overhead"@.len() == 13);
        assert("Hash"@.len() == 4);
        assert("BookDepth"@.len() == 9);
        assert("BookFile"@.len() == 8);
        assert("SyzygyPath"@.len() == 10);
        assert("BookDepth"@[4] != "BookFile"@[4]);
    }
    let v = match value {
        Some(v) => v,
        None => {
            return OptionAction::Nothing;
        },
    };
    if equals(name, "Move Overhead") {
        match parse_uint(v, 0xFFFF_FFFF_FFFF_FFFF) {
            Some(ms) => {
                opts.overhead_ms = if ms > 5000 {
                    5000
                } else {
                    ms
                };
            },
            None => {},
        }
        OptionAction::Nothing
    } else if equals(name, "Hash") {
        match parse_uint(v, usize::MAX as u64) {
            Some(mb) => {
                let h: usize = if mb < 1 {
                    1
                } else if mb > 4096 {
                    4096
                } else {
                    mb as usize
                };
                opts.hash_mb = h;
                OptionAction::ResizeHash(h)
            },
            None => OptionAction::Nothing,
        }
    } else if equals(name, "BookDepth") {
        match parse_uint(v, 0xFFFF_FFFF) {
            Some(d) => {
                opts.book_depth = if d > 40 {
                    40
                } else {
                    d as u32
                };
            },
            None => {},
        }
        OptionAction::Nothing
    } else if equals(name, "BookFile") {
        OptionAction::LoadBook(crate::text::copy_chars(v))
    } else if equals(name, "SyzygyPath") {
        OptionAction::LoadTablebases(crate::text::copy_chars(v))
    } else {
        OptionAction::Nothing
    }
}

/// What a `position` command line says: the FEN text (`None` for
/// `startpos`) and the move texts to play from it.
pub open spec fn position_parts(toks: Seq<Seq<char>>) -> Option<(Option<Seq<char>>, Seq<Seq<char>>)> {
    if toks.len() < 2 {
        None
    } else if toks[1] == "startpos"@ {
        Some(
            (
                None,
                if toks.len() > 2 && toks[2] == "moves"@ {
                    toks.skip(3)
                } else {
                    Seq::empty()
                },
            ),
        )
    } else if toks[1] == "fen"@ {
        let m = word_index(toks, "moves"@, 2);
        Some(
            (
                Some(join(toks.subrange(2, m))),
                if m < toks.len() {
                    toks.skip(m + 1)
                } else {
                    Seq::empty()
                },
            ),
        )
    } else {
        None
    }
}

proof fn lemma_word_index_at(ws: Seq<Seq<char>>, w: Seq<char>, i: int, j: int)
    requires
        0 <= i <= j <= ws.len(),
        j < ws.len() ==> ws[j] == w,
        forall|k: int| i <= k < j ==> ws[k] != w,
    ensures
        word_index(ws, w, i) == j,
    decreases j - i,
{
    if i < j {
        lemma_word_index_at(ws, w, i + 1, j);
    }
}

/// `position startpos [moves m...]` starts from the initial position and
/// plays exactly the words after `moves`.
pub proof fn lemma_position_startpos(ms: Seq<Seq<char>>)
    ensures
        position_parts(seq!["position"@, "startpos"@, "moves"@] + ms) == Some((Option::<Seq<char>>::None, ms)),
        position_parts(seq!["position"@, "startpos"@]) == Some((Option::<Seq<char>>::None, Seq::<Seq<char>>::empty())),
{
    reveal_strlit("startpos");
    reveal_strlit("moves");
    let t = seq!["position"@, "startpos"@, "moves"@] + ms;
    assert(t[1] == "startpos"@ && t[2] == "moves"@);
    assert(t.skip(3) =~= ms);
}

/// `position fen <f...> [moves m...]` sets up the FEN made of the words
/// before `moves`, joined by spaces, and plays exactly the words after it.
pub proof fn lemma_position_fen(fs: Seq<Seq<char>>, ms: Seq<Seq<char>>)
    requires
        forall|k: int| 0 <= k < fs.len() ==> fs[k] != "moves"@,
    ensures
        position_parts(seq!["position"@, "fen"@] + fs + seq!["moves"@] + ms) == Some((Some(join(fs)), ms)),
        position_parts(seq!["position"@, "fen"@] + fs) == Some((Some(join(fs)), Seq::<Seq<char>>::empty())),
{
    reveal_strlit("startpos");
    reveal_strlit("fen");
    reveal_strlit("moves");
    assert("fen"@ != "startpos"@) by {
        assert("fen"@.len() != "startpos"@.len());
    }
    let t = seq!["position"@, "fen"@] + fs + seq!["moves"@] + ms;
    let n = fs.len() as int;
    assert(t[1] == "fen"@);
    assert forall|k: int| 2 <= k < 2 + n implies t[k] != "moves"@ by {
        assert(t[k] == fs[k - 2]);
    }
    assert(t[2 + n] == "moves"@);
    lemma_word_index_at(t, "moves"@, 2, 2 + n);
    assert(t.subrange(2, 2 + n) =~= fs);
    assert(t.skip(3 + n) =~= ms);
    let u = seq!["position"@, "fen"@] + fs;
    assert(u[1] == "fen"@);
    assert forall|k: int| 2 <= k < 2 + n implies u[k] != "moves"@ by {
        assert(u[k] == fs[k - 2]);
    }
    lemma_word_index_at(u, "moves"@, 2, 2 + n);
    assert(u.subrange(2, 2 + n) =~= fs);
}

/// `setoption name <n...> [value <v...>]` names the option by the words
/// before `value`, joined by spaces, and gives it the words after it.
pub proof fn lemma_setoption_words(ns: Seq<Seq<char>>, vs: Seq<Seq<char>>)
    requires
        forall|k: int| 0 <= k < ns.len() ==> ns[k] != "value"@,
    ensures
        setoption_parts(seq!["setoption"@, "name"@] + ns + seq!["value"@] + vs) == Some((join(ns), Some(join(vs)))),
        setoption_parts(seq!["setoption"@, "name"@] + ns) == Some((join(ns), Option::<Seq<char>>::None)),
{
    let t = seq!["setoption"@, "name"@] + ns + seq!["value"@] + vs;
    let n = ns.len() as int;
    let rest = t.skip(2);
    assert(rest =~= ns + seq!["value"@] + vs);
    assert(t[1] == "name"@);
    assert forall|k: int| 0 <= k < n implies rest[k] != "value"@ by {
        assert(rest[k] == ns[k]);
    }
    lemma_word_index_at(rest, "value"@, 0, n);
    assert(rest.take(n) =~= ns);
    assert(rest.skip(n + 1) =~= vs);
    let u = seq!["setoption"@, "name"@] + ns;
    let rest2 = u.skip(2);
    assert(rest2 =~= ns);
    assert(u[1] == "name"@);
    lemma_word_index_at(rest2, "value"@, 0, n);
    assert(rest2.take(n) =~= ns);
}

/// A parsed `position` command.
pub struct PositionCmd {
    pub fen: Option<Vec<char>>,
    pub moves: Vec<Vec<char>>,
}

fn words_from(toks: &Vec<Vec<char>>, a: usize) -> (r: Vec<Vec<char>>)
    requires
        a <= toks@.len(),
    ensures
        r@.map_values(|v: Vec<char>| v@) == toks@.map_values(|v: Vec<char>| v@).skip(a as int),
{
    let ghost t = toks@.map_values(|v: Vec<char>| v@);
    let mut r: Vec<Vec<char>> = Vec::new();
    let mut k = a;
    while k < toks.len()
        invariant
            a <= k <= toks@.len(),
            t == toks@.map_values(|v: Vec<char>| v@),
            r@.map_values(|v: Vec<char>| v@) =~= t.subrange(a as int, k as int),
        decreases toks@.len() - k,
    {
        let ghost prev = r@.map_values(|v: Vec<char>| v@);
        let w = crate::text::copy_chars(&toks[k]);
        r.push(w);
        proof {
            assert(r@.map_values(|v: Vec<char>| v@) =~= prev.push(t[k as int]));
        }
        k += 1;
    }
    r
}

/// The parts of a `position` command line, or `None` when it names
/// neither `startpos` nor `fen`.
pub fn parse_position(line: &str) -> (r: Option<PositionCmd>)
    ensures
        r is None <==> position_parts(fields(line@)) is None,
        r matches Some(c) ==> position_parts(fields(line@)) == Some(
            (
                match c.fen {
                    Some(f) => Some(f@),
                    None => None,
                },
                c.moves@.map_values(|v: Vec<char>| v@),
            ),
        ),
{
    let toks = split_fields(&chars_of(line));
    let ghost t = toks@.map_values(|v: Vec<char>| v@);
    if toks.len() < 2 {
        return None;
    }
    proof {
        assert(t[1] == toks@[1]@);
        if t.len() > 2 {
            assert(t[2] == toks@[2]@);
        }
    }
    if equals(&toks[1], "startpos") {
        let moves = if toks.len() > 2 && equals(&toks[2], "moves") {
            words_from(&toks, 3)
        } else {
            Vec::new()
        };
        proof {
            if !(t.len() > 2 && t[2] == "moves"@) {
                assert(moves@.map_values(|v: Vec<char>| v@) =~= Seq::<Seq<char>>::empty());
            }
        }
        return Some(PositionCmd { fen: None, moves });
    }
    if !equals(&toks[1], "fen") {
        return None;
    }
    let mut m: usize = 2;
    while m < toks.len() && !equals(&toks[m], "moves")
        invariant
            2 <= m <= toks@.len(),
            t == toks@.map_values(|v: Vec<char>| v@),
            word_index(t, "moves"@, 2) == word_index(t, "moves"@, m as int),
        decreases toks@.len() - m,
    {
        proof {
            assert(t[m as int] == toks@[m as int]@);
        }
        m += 1;
    }
    proof {
        if m < toks@.len() {
            assert(t[m as int] == toks@[m as int]@);
        }
    }
    let fen = join_words(&toks, 2, m);
    let moves = if m < toks.len() {
        words_from(&toks, m + 1)
    } else {
        Vec::new()
    };
    proof {
        if m >= toks@.len() {
            assert(moves@.map_values(|v: Vec<char>| v@) =~= Seq::<Seq<char>>::empty());
        }
    }
    Some(PositionCmd { fen: Some(fen), moves })
}

/// The first `n` move texts played legally from `s0`.
pub open spec fn moves_played(
    s0: PosState,
    texts: Seq<Seq<char>>,
    states: Seq<PosState>,
    moves: Seq<Move>,
    n: int,
) -> bool {
    &&& 0 <= n <= texts.len()
    &&& states.len() == n + 1
    &&& moves.len() == n
    &&& states[0] == s0
    &&& forall|k: int|
        0 <= k < n ==> {
            &&& pseudo_legal(states[k], #[trigger] moves[k])
            &&& legal_after(states[k], moves[k])
            &&& uci_text(moves[k]) == texts[k]
            &&& states[k + 1] == make_state(states[k], moves[k])
        }
}

/// Why move text `t` cannot be played in `s`: no move has that text, the
/// move with it is illegal, or a move counter is exhausted.
pub open spec fn unplayable(s: PosState, t: Seq<char>) -> bool {
    ||| s.halfmove == 0xFFFF || s.fullmove == 0xFFFF
    ||| forall|m: Move| pseudo_legal(s, m) ==> uci_text(m) != t
    ||| exists|m: Move| pseudo_legal(s, m) && uci_text(m) == t && !legal_after(s, m)
}

/// Some play of the first `n` texts from `s0` ends in `s`.
pub open spec fn played_to(s0: PosState, texts: Seq<Seq<char>>, n: int, s: PosState) -> bool {
    exists|states: Seq<PosState>, ms: Seq<Move>|
        #[trigger] moves_played(s0, texts, states, ms, n) && states[n] == s
}

proof fn lemma_play_step(
    s0: PosState,
    texts: Seq<Seq<char>>,
    states: Seq<PosState>,
    ms: Seq<Move>,
    n: int,
    mv: Move,
)
    requires
        moves_played(s0, texts, states, ms, n),
        n < texts.len(),
        pseudo_legal(states[n], mv),
        legal_after(states[n], mv),
        uci_text(mv) == texts[n],
    ensures
        moves_played(s0, texts, states.push(make_state(states[n], mv)), ms.push(mv), n + 1),
{
    let ns = states.push(make_state(states[n], mv));
    let nm = ms.push(mv);
    assert forall|k: int| 0 <= k < n + 1 implies {
        &&& pseudo_legal(ns[k], #[trigger] nm[k])
        &&& legal_after(ns[k], nm[k])
        &&& uci_text(nm[k]) == texts[k]
        &&& ns[k + 1] == make_state(ns[k], nm[k])
    } by {
        if k < n {
            assert(nm[k] == ms[k]);
            assert(ns[k] == states[k]);
            assert(ns[k + 1] == states[k + 1]);
        }
    }
}

/// Plays the move texts `moves` on `pos` in order. `Ok(n)` when all `n`
/// were played; `Err(k)` when text `k` cannot be played, the first `k`
/// having been played.
#[verifier::rlimit(40)]
pub fn play_moves(pos: &mut Position, moves: &Vec<Vec<char>>) -> (r: Result<u32, usize>)
    requires
        old(pos).wf(),
        consistent(old(pos).state()),
        moves@.len() < 0x1_0000_0000,
    ensures
        final(pos).wf(),
        consistent(final(pos).state()),
        r matches Ok(n) ==> n == moves@.len() && played_to(
            old(pos).state(),
            moves@.map_values(|v: Vec<char>| v@),
            n as int,
            final(pos).state(),
        ),
        r matches Err(k) ==> k < moves@.len() && unplayable(final(pos).state(), moves@[k as int]@)
            && played_to(old(pos).state(), moves@.map_values(|v: Vec<char>| v@), k as int, final(pos).state()),
{
    let ghost texts = moves@.map_values(|v: Vec<char>| v@);
    let ghost s0 = pos.state();
    let ghost mut states: Seq<PosState> = seq![s0];
    let ghost mut ms: Seq<Move> = Seq::empty();
    let mut i: usize = 0;
    while i < moves.len()
        invariant
            i <= moves@.len(),
            moves@.len() < 0x1_0000_0000,
            texts == moves@.map_values(|v: Vec<char>| v@),
            s0 == old(pos).state(),
            pos.wf(),
            consistent(pos.state()),
            moves_played(s0, texts, states, ms, i as int),
            states[i as int] == pos.state(),
        decreases moves@.len() - i,
    {
        let ghost s = pos.state();
        proof {
            pos.lemma_wf_state();
            lemma_consistent_pawns(s);
            assert(texts[i as int] == moves@[i as int]@);
        }
        if pos.halfmove() == 0xFFFF || pos.fullmove() == 0xFFFF {
            return Err(i);
        }
        let mv = match find_uci_chars(pos, &moves[i]) {
            Some(m) => m,
            None => {
                return Err(i);
            },
        };
        proof {
            lemma_pseudo_legal_move_ok(s, mv);
        }
        if !pos.make(mv) {
            proof {
                assert(pseudo_legal(s, mv) && uci_text(mv) == texts[i as int] && !legal_after(s, mv));
            }
            return Err(i);
        }
        proof {
            lemma_make_consistent(s, mv);
            lemma_play_step(s0, texts, states, ms, i as int, mv);
            states = states.push(make_state(s, mv));
            ms = ms.push(mv);
        }
        i += 1;
    }
    Ok(i as u32)
}

/// Full moves to mate of a mate score, signed like the score (`None` for a
/// centipawn score).
pub open spec fn mate_moves(score: int) -> Option<int> {
    let a = if score < 0 { -score } else { score };
    if a >= MATE_BOUND {
        let m = crate::eval::nnue::net::tdiv(MATE - a + 1, 2);
        Some(if score > 0 { m } else { -m })
    } else {
        None
    }
}

/// Full moves to mate of a mate score, for an `info ... score mate n`
/// line; `None` for a centipawn score.
pub fn mate_in(score: i32) -> (r: Option<i32>)
    requires
        score > i32::MIN,
    ensures
        r matches Some(m) ==> mate_moves(score as int) == Some(m as int),
        r is None <==> mate_moves(score as int) is None,
{
    let a: i64 = if score < 0 {
        -(score as i64)
    } else {
        score as i64
    };
    if a >= MATE_BOUND as i64 {
        let m = (MATE as i64 - a + 1) / 2;
        if score > 0 {
            Some(m as i32)
        } else {
            Some((-m) as i32)
        }
    } else {
        None
    }
}

/// Nodes per second: `nodes * 1000 / elapsed_ms`, truncated to `u64`, or
/// 0 when no time has elapsed.
pub fn nps(nodes: u64, elapsed_ms: u128) -> (r: u64)
    ensures
        elapsed_ms == 0 ==> r == 0,
        elapsed_ms > 0 ==> r == ((nodes as int * 1000) / elapsed_ms as int) as u64,
{
    if elapsed_ms == 0 {
        0
    } else {
        ((nodes as u128 * 1000) / elapsed_ms) as u64
    }
}

/// A book move for `pos` while the game is inside the book window
/// (`game_ply < book_depth`), drawn with the seed `key ^ game_ply`.
pub fn book_move(book: &crate::book::Book, pos: &Position, game_ply: u32, book_depth: u32) -> (r: Option<Move>)
    requires
        pos.wf(),
        crate::board::movegen::pawns_inside(pos.state().board),
    ensures
        game_ply >= book_depth ==> r is None,
        game_ply < book_depth ==> (r is None <==> book.candidates(pos.state()).len() == 0),
        r matches Some(m) ==> {
            let c = book.candidates(pos.state());
            let seed = pos.state().key ^ (game_ply as u64);
            &&& pseudo_legal(pos.state(), m)
            &&& uci_text(m) == crate::book::entry_text(
                pos.state().board,
                c[crate::book::band_index(c, crate::book::book_draw(seed, crate::book::total_weight(c)))].mv,
            )
        },
{
    if game_ply >= book_depth {
        return None;
    }
    book.pick(pos, pos.key() ^ game_ply as u64)
}

} // verus!
