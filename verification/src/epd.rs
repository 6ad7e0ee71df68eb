//! EPD test-suite lines: `<fen4> bm <san...>; id "name"; ...`.
use vstd::prelude::*;

use crate::text::{fields, split_fields};

verus! {

/// Whether `pat` occurs in `s` at index `j`.
pub open spec fn occurs_at(s: Seq<char>, pat: Seq<char>, j: int) -> bool {
    0 <= j && j + pat.len() <= s.len() && s.subrange(j, j + pat.len()) == pat
}

/// The first index at or after `i` where `pat` occurs in `s`, if any
/// (`str::find` from `i`).
pub open spec fn find_from(s: Seq<char>, pat: Seq<char>, i: int) -> Option<int>
    decreases s.len() + 1 - i,
{
    if i < 0 || i + pat.len() > s.len() {
        None
    } else if occurs_at(s, pat, i) {
        Some(i)
    } else {
        find_from(s, pat, i + 1)
    }
}

/// `s` up to its first `c` (all of `s` when it holds none).
pub open spec fn upto(s: Seq<char>, c: char) -> Seq<char>
    decreases s.len(),
{
    if s.len() == 0 {
        s
    } else if s[0] == c {
        Seq::empty()
    } else {
        seq![s[0]] + upto(s.drop_first(), c)
    }
}

/// The text that opens the best-move list.
pub open spec fn bm_marker() -> Seq<char> {
    seq![' ', 'b', 'm', ' ']
}

/// The text that opens the line's name.
pub open spec fn id_marker() -> Seq<char> {
    seq!['i', 'd', ' ', '"']
}

/// The line's name: the text after the first `id "` up to the next `"`
/// (or the next `id "`), and `?` when the line names none.
pub open spec fn epd_id(s: Seq<char>) -> Seq<char> {
    match find_from(s, id_marker(), 0) {
        None => seq!['?'],
        Some(a) => {
            let start = a + 4;
            let end = match find_from(s, id_marker(), start) {
                Some(b) => b,
                None => s.len() as int,
            };
            upto(s.subrange(start, end), '"')
        },
    }
}

/// The parts of an EPD line: the four FEN fields before ` bm `, the words
/// between ` bm ` and the first `;`, and the name. `None` when the line
/// has no ` bm `.
pub open spec fn epd_parts(s: Seq<char>) -> Option<(Seq<char>, Seq<Seq<char>>, Seq<char>)> {
    match find_from(s, bm_marker(), 0) {
        None => None,
        Some(b) => Some((s.take(b), fields(upto(s.subrange(b + 4, s.len() as int), ';')), epd_id(s))),
    }
}

/// One line of an EPD suite.
pub struct EpdLine {
    /// Board, side to move, castling and en-passant fields.
    pub fen4: Vec<char>,
    /// The best moves, in SAN.
    pub best: Vec<Vec<char>>,
    /// The line's name.
    pub id: Vec<char>,
}

/// The first index at or after `from` where `pat` occurs in `s`.
fn find_text(s: &Vec<char>, pat: &Vec<char>, from: usize) -> (r: Option<usize>)
    requires
        from <= s.len(),
    ensures
        match r {
            Some(j) => find_from(s@, pat@, from as int) == Some(j as int),
            None => find_from(s@, pat@, from as int) is None,
        },
        r matches Some(j) ==> from <= j && j + pat.len() <= s.len(),
{
    let mut i: usize = from;
    while pat.len() <= s.len() - i
        invariant
            from <= i <= s.len(),
            find_from(s@, pat@, from as int) == find_from(s@, pat@, i as int),
        decreases s.len() - i,
    {
        let mut k: usize = 0;
        let mut ok = true;
        while k < pat.len()
            invariant
                i + pat.len() <= s.len(),
                k <= pat.len(),
                ok <==> forall|t: int| 0 <= t < k ==> s@[i + t] == pat@[t],
            decreases pat.len() - k,
        {
            if s[i + k] != pat[k] {
                ok = false;
            }
            k += 1;
        }
        if ok {
            assert(s@.subrange(i as int, i + pat.len()) =~= pat@);
            return Some(i);
        }
        let ghost t = choose|t: int| 0 <= t < pat.len() && s@[i + t] != pat@[t];
        assert(s@.subrange(i as int, i + pat.len())[t] != pat@[t]);
        i += 1;
    }
    None
}

/// `s[start..end]` up to its first `c`.
fn text_upto(s: &Vec<char>, start: usize, end: usize, c: char) -> (r: Vec<char>)
    requires
        start <= end <= s.len(),
    ensures
        r@ == upto(s@.subrange(start as int, end as int), c),
{
    let mut r: Vec<char> = Vec::new();
    let mut i: usize = start;
    while i < end && s[i] != c
        invariant
            start <= i <= end <= s.len(),
            r@ + upto(s@.subrange(i as int, end as int), c) == upto(s@.subrange(start as int, end as int), c),
        decreases end - i,
    {
        assert(s@.subrange(i as int, end as int).drop_first() =~= s@.subrange(i + 1, end as int));
        assert(r@.push(s[i as int]) + upto(s@.subrange(i + 1, end as int), c) =~= r@ + upto(
            s@.subrange(i as int, end as int),
            c,
        ));
        r.push(s[i]);
        i += 1;
    }
    assert(upto(s@.subrange(i as int, end as int), c) =~= Seq::<char>::empty());
    assert(r@ + Seq::<char>::empty() =~= r@);
    r
}

/// Splits an EPD line into its position, best moves and name; `None` when
/// the line has no ` bm `.
pub fn parse_epd(line: &Vec<char>) -> (r: Option<EpdLine>)
    ensures
        match epd_parts(line@) {
            None => r is None,
            Some((fen4, best, id)) => r matches Some(e) && e.fen4@ == fen4 && e.best@.map_values(
                |v: Vec<char>| v@,
            ) == best && e.id@ == id,
        },
{
    let bm = vec![' ', 'b', 'm', ' '];
    let idm = vec!['i', 'd', ' ', '"'];
    assert(bm@ =~= bm_marker());
    assert(idm@ =~= id_marker());
    let b = match find_text(line, &bm, 0) {
        Some(b) => b,
        None => return None,
    };
    let mut fen4: Vec<char> = Vec::new();
    let mut i: usize = 0;
    while i < b
        invariant
            i <= b <= line.len(),
            fen4@ == line@.take(i as int),
        decreases b - i,
    {
        fen4.push(line[i]);
        i += 1;
        assert(fen4@ =~= line@.take(i as int));
    }
    let moves_text = text_upto(line, b + 4, line.len(), ';');
    let best = split_fields(&moves_text);
    let id = match find_text(line, &idm, 0) {
        None => vec!['?'],
        Some(a) => {
            let end = match find_text(line, &idm, a + 4) {
                Some(e) => e,
                None => line.len(),
            };
            text_upto(line, a + 4, end, '"')
        },
    };
    Some(EpdLine { fen4, best, id })
}

} // verus!
