//! PGN games for the book builder: movetext tokens, header filters, and the
//! replay of a game's opening into book statistics.
use vstd::prelude::*;

use std::collections::HashMap;

use crate::board::fen::start_state;
use crate::board::makemove::{legal_after, make_state, lemma_make_clocks};
use crate::board::movegen::{consistent, is_consistent, lemma_make_consistent, pseudo_legal};
use crate::board::position::PosState;
use crate::board::san::{find_san_chars, san_matches, san_parts};
use crate::board::{Color, Move, Position};
use crate::book::{encode_polyglot_move, poly_key, poly_move, polyglot_key};
use crate::text::{copy_chars, all_digits, parse_uint, trim, trim_start, trimmed, uint_text};

verus! {

/// First index at or after `i` holding `c`, or the length when none does
/// (`i` itself when `i` is past the end).
pub open spec fn first_from(s: Seq<char>, c: char, i: int) -> int
    decreases s.len() - i,
{
    if i >= s.len() {
        if i > s.len() { i } else { s.len() as int }
    } else if s[i] == c {
        i
    } else {
        first_from(s, c, i + 1)
    }
}

pub open spec fn is_ascii_ws(c: char) -> bool {
    c == ' ' || c == '\t' || c == '\n' || c == '\r' || c == '\x0C'
}

pub open spec fn is_ascii_digit(c: char) -> bool {
    '0' <= c <= '9'
}

/// End of the run of digits starting at `i`.
pub open spec fn digits_from(s: Seq<char>, i: int) -> int
    decreases s.len() - i,
{
    if i >= s.len() {
        i
    } else if is_ascii_digit(s[i]) {
        digits_from(s, i + 1)
    } else {
        i
    }
}

/// Whether `c` ends a movetext word.
pub open spec fn word_stop(c: char) -> bool {
    is_ascii_ws(c) || c == '{' || c == '(' || c == ')'
}

/// End of the word starting at `i`.
pub open spec fn word_from(s: Seq<char>, i: int) -> int
    decreases s.len() - i,
{
    if i >= s.len() {
        i
    } else if word_stop(s[i]) {
        i
    } else {
        word_from(s, i + 1)
    }
}

pub proof fn lemma_first_from(s: Seq<char>, c: char, i: int)
    ensures
        first_from(s, c, i) >= i,
        i <= s.len() ==> first_from(s, c, i) <= s.len(),
        0 <= i ==> forall|j: int| i <= j < first_from(s, c, i) && j < s.len() ==> s[j] != c,
        0 <= i && first_from(s, c, i) < s.len() ==> s[first_from(s, c, i)] == c,
    decreases s.len() - i,
{
    if i < s.len() && s[i] != c {
        lemma_first_from(s, c, i + 1);
    }
}

pub proof fn lemma_digits_from(s: Seq<char>, i: int)
    ensures
        digits_from(s, i) >= i,
        i <= s.len() ==> digits_from(s, i) <= s.len(),
    decreases s.len() - i,
{
    if i < s.len() && is_ascii_digit(s[i]) {
        lemma_digits_from(s, i + 1);
    }
}

pub proof fn lemma_word_from(s: Seq<char>, i: int)
    ensures
        word_from(s, i) >= i,
        i <= s.len() ==> word_from(s, i) <= s.len(),
        0 <= i < s.len() && !word_stop(s[i]) ==> word_from(s, i) > i,
    decreases s.len() - i,
{
    if i < s.len() && !word_stop(s[i]) {
        lemma_word_from(s, i + 1);
    }
}

/// `s` without its trailing dots.
pub open spec fn strip_dots(s: Seq<char>) -> Seq<char>
    decreases s.len(),
{
    if s.len() > 0 && s.last() == '.' {
        strip_dots(s.drop_last())
    } else {
        s
    }
}

pub open spec fn is_glyph(c: char) -> bool {
    c == '!' || c == '?' || c == '+' || c == '#'
}

/// `s` without its trailing `!`, `?`, `+` and `#`.
pub open spec fn strip_glyphs(s: Seq<char>) -> Seq<char>
    decreases s.len(),
{
    if s.len() > 0 && is_glyph(s.last()) {
        strip_glyphs(s.drop_last())
    } else {
        s
    }
}

/// A move glued to its number ("12.e4") without the number.
pub open spec fn after_number(t: Seq<char>) -> Seq<char> {
    let d = first_from(t, '.', 0);
    if d < t.len() && d + 1 < t.len() && all_digits(t.take(d)) {
        t.skip(d + 1)
    } else {
        t
    }
}

pub open spec fn is_result(t: Seq<char>) -> bool {
    ||| t == seq!['1', '-', '0']
    ||| t == seq!['0', '-', '1']
    ||| t == seq!['1', '/', '2', '-', '1', '/', '2']
    ||| t == seq!['*']
}

/// The SAN move of a movetext word, or `None` for results and move
/// numbers; check and annotation glyphs are removed.
pub open spec fn clean(t: Seq<char>) -> Option<Seq<char>> {
    if is_result(t) {
        None
    } else if strip_dots(t).len() > 0 && all_digits(strip_dots(t)) {
        None
    } else if strip_glyphs(after_number(t)).len() == 0 {
        None
    } else {
        Some(strip_glyphs(after_number(t)))
    }
}

proof fn lemma_strip_glyphs_keeps_first(t: Seq<char>)
    requires
        t.len() > 0,
        !is_glyph(t[0]),
    ensures
        strip_glyphs(t).len() > 0,
        strip_glyphs(t)[0] == t[0],
    decreases t.len(),
{
    if is_glyph(t.last()) {
        assert(t.len() > 1);
        assert(t.drop_last()[0] == t[0]);
        lemma_strip_glyphs_keeps_first(t.drop_last());
    }
}

/// Check and annotation glyphs after a SAN word do not change the move it
/// names: a word starting with a letter and holding no `.`, with a `!`,
/// `?`, `+` or `#` appended, cleans to the same SAN as without it.
pub proof fn lemma_glyph_ignored(t: Seq<char>, g: char)
    requires
        t.len() > 0,
        ('a' <= t[0] <= 'z') || ('A' <= t[0] <= 'Z'),
        forall|k: int| 0 <= k < t.len() ==> t[k] != '.',
        is_glyph(g),
    ensures
        clean(t.push(g)) == clean(t),
        clean(t) == Some(strip_glyphs(t)),
{
    let u = t.push(g);
    assert(strip_glyphs(u) == strip_glyphs(t)) by {
        assert(u.drop_last() =~= t);
    }
    lemma_first_from(t, '.', 0);
    lemma_first_from(u, '.', 0);
    assert(u[t.len() as int] == g);
    assert(first_from(t, '.', 0) == t.len());
    assert(first_from(u, '.', 0) == u.len());
    assert(after_number(t) == t);
    assert(after_number(u) == u);
    assert(!is_result(t)) by {
        if t =~= seq!['1', '-', '0'] || t =~= seq!['0', '-', '1'] || t =~= seq!['1', '/', '2', '-', '1', '/', '2']
            || t =~= seq!['*'] {
            assert(t[0] == '1' || t[0] == '0' || t[0] == '*');
        }
    }
    assert(!is_result(u)) by {
        if u =~= seq!['1', '-', '0'] || u =~= seq!['0', '-', '1'] || u =~= seq!['1', '/', '2', '-', '1', '/', '2']
            || u =~= seq!['*'] {
            assert(u[0] == '1' || u[0] == '0' || u[0] == '*');
        }
    }
    assert(strip_dots(t) == t);
    assert(strip_dots(u) == u);
    assert(!all_digits(t)) by {
        assert(!('0' <= t[0] <= '9'));
    }
    assert(!all_digits(u)) by {
        assert(u[0] == t[0]);
        assert(!('0' <= u[0] <= '9'));
    }
    lemma_strip_glyphs_keeps_first(t);
}

/// The SAN tokens of movetext `s` from index `i` at variation depth
/// `depth`: comments `{...}`, NAGs `$n`, and words inside parenthesised
/// variations are skipped.
pub open spec fn scan(s: Seq<char>, i: int, depth: int) -> Seq<Seq<char>>
    decreases s.len() + 1 - i,
{
    if i < 0 || i >= s.len() {
        Seq::empty()
    } else {
        let c = s[i];
        if c == '{' {
            proof {
                lemma_first_from(s, '}', i);
            }
            scan(s, first_from(s, '}', i) + 1, depth)
        } else if c == '(' {
            scan(s, i + 1, depth + 1)
        } else if c == ')' {
            scan(s, i + 1, depth - 1)
        } else if c == '$' {
            proof {
                lemma_digits_from(s, i + 1);
            }
            scan(s, digits_from(s, i + 1), depth)
        } else if is_ascii_ws(c) {
            scan(s, i + 1, depth)
        } else {
            proof {
                lemma_word_from(s, i);
            }
            let e = word_from(s, i);
            let rest = scan(s, e, depth);
            if depth > 0 {
                rest
            } else {
                match clean(s.subrange(i, e)) {
                    Some(t) => seq![t] + rest,
                    None => rest,
                }
            }
        }
    }
}

/// The SAN tokens of a movetext.
pub open spec fn movetext_tokens(s: Seq<char>) -> Seq<Seq<char>> {
    scan(s, 0, 0)
}

fn is_ws_char(c: char) -> (r: bool)
    ensures
        r == is_ascii_ws(c),
{
    c == ' ' || c == '\t' || c == '\n' || c == '\r' || c == '\x0C'
}

fn digits_only(s: &Vec<char>, a: usize, e: usize) -> (r: bool)
    requires
        a <= e <= s@.len(),
    ensures
        r == all_digits(s@.subrange(a as int, e as int)),
{
    let mut k = a;
    while k < e
        invariant
            a <= k <= e <= s@.len(),
            all_digits(s@.subrange(a as int, k as int)),
        decreases e - k,
    {
        if !('0' <= s[k] && s[k] <= '9') {
            assert(s@.subrange(a as int, e as int)[k - a] == s@[k as int]);
            return false;
        }
        k += 1;
        assert forall|j: int| 0 <= j < k - a implies '0' <= #[trigger] s@.subrange(a as int, k as int)[j] <= '9' by {
            assert(s@.subrange(a as int, k as int)[j] == s@[a + j]);
            if j < k - 1 - a {
                assert(s@.subrange(a as int, k - 1)[j] == s@[a + j]);
            }
        }
    }
    true
}

fn same_text(s: &Vec<char>, a: usize, e: usize, lit: &str) -> (r: bool)
    requires
        a <= e <= s@.len(),
    ensures
        r == (s@.subrange(a as int, e as int) == lit@),
{
    let l = crate::text::chars_of(lit);
    if e - a != l.len() {
        return false;
    }
    let mut k: usize = 0;
    while k < l.len()
        invariant
            k <= l@.len(),
            l@.len() == e - a,
            a <= e <= s@.len(),
            l@ == lit@,
            forall|j: int| 0 <= j < k ==> s@[a + j] == l@[j],
        decreases l@.len() - k,
    {
        if s[a + k] != l[k] {
            assert(s@.subrange(a as int, e as int)[k as int] != l@[k as int]);
            return false;
        }
        k += 1;
    }
    assert(s@.subrange(a as int, e as int) =~= l@);
    true
}

proof fn lemma_strip_dots_at(t: Seq<char>, e: int)
    requires
        0 <= e <= t.len(),
        forall|j: int| e <= j < t.len() ==> t[j] == '.',
        e == 0 || t[e - 1] != '.',
    ensures
        strip_dots(t) == t.take(e),
    decreases t.len() - e,
{
    if e < t.len() {
        assert(t.drop_last().take(e) =~= t.take(e));
        lemma_strip_dots_at(t.drop_last(), e);
    } else {
        assert(t.take(e) =~= t);
    }
}

proof fn lemma_strip_glyphs_at(t: Seq<char>, e: int)
    requires
        0 <= e <= t.len(),
        forall|j: int| e <= j < t.len() ==> is_glyph(#[trigger] t[j]),
        e == 0 || !is_glyph(t[e - 1]),
    ensures
        strip_glyphs(t) == t.take(e),
    decreases t.len() - e,
{
    if e < t.len() {
        assert(t.drop_last().take(e) =~= t.take(e));
        lemma_strip_glyphs_at(t.drop_last(), e);
    } else {
        assert(t.take(e) =~= t);
    }
}

/// The SAN move of the word `s[a..e]`, if it is one.
fn clean_token(s: &Vec<char>, a: usize, e: usize) -> (r: Option<Vec<char>>)
    requires
        a <= e <= s@.len(),
    ensures
        r matches Some(v) ==> clean(s@.subrange(a as int, e as int)) == Some(v@),
        r is None ==> clean(s@.subrange(a as int, e as int)) is None,
{
    let ghost t = s@.subrange(a as int, e as int);
    proof {
        reveal_strlit("1-0");
        reveal_strlit("0-1");
        reveal_strlit("1/2-1/2");
        reveal_strlit("*");
        assert("1-0"@ =~= seq!['1', '-', '0']);
        assert("0-1"@ =~= seq!['0', '-', '1']);
        assert("1/2-1/2"@ =~= seq!['1', '/', '2', '-', '1', '/', '2']);
        assert("*"@ =~= seq!['*']);
    }
    if same_text(s, a, e, "1-0") || same_text(s, a, e, "0-1") || same_text(s, a, e, "1/2-1/2")
        || same_text(s, a, e, "*") {
        return None;
    }
    // trailing dots
    let mut h = e;
    while h > a && s[h - 1] == '.'
        invariant
            a <= h <= e <= s@.len(),
            forall|j: int| h <= j < e ==> s@[j] == '.',
        decreases h,
    {
        h -= 1;
    }
    proof {
        assert forall|j: int| h - a <= j < t.len() implies t[j] == '.' by {
            assert(t[j] == s@[a + j]);
        }
        if h > a {
            assert(t[h - a - 1] == s@[h - 1]);
        }
        lemma_strip_dots_at(t, h - a);
        assert(t.take(h - a) =~= s@.subrange(a as int, h as int));
    }
    if h > a && digits_only(s, a, h) {
        return None;
    }
    // "12.e4": the move after the first dot
    let mut d = a;
    while d < e && s[d] != '.'
        invariant
            a <= d <= e <= s@.len(),
            t == s@.subrange(a as int, e as int),
            forall|j: int| a <= j < d ==> s@[j] != '.',
            first_from(t, '.', 0) == first_from(t, '.', d - a),
        decreases e - d,
    {
        proof {
            assert(t[d - a] == s@[d as int]);
        }
        d += 1;
    }
    proof {
        if d < e {
            assert(t[d - a] == s@[d as int]);
        }
        assert(first_from(t, '.', d - a) == d - a);
        assert(t.take(d - a) =~= s@.subrange(a as int, d as int));
    }
    let start = if d < e && d + 1 < e && digits_only(s, a, d) {
        d + 1
    } else {
        a
    };
    let ghost u = s@.subrange(start as int, e as int);
    proof {
        if d < e && d + 1 < e && all_digits(t.take(d - a)) {
            assert(t.skip(d - a + 1) =~= u);
        } else {
            assert(t =~= u);
        }
        assert(after_number(t) == u);
    }
    // trailing glyphs
    let mut g = e;
    while g > start && (s[g - 1] == '!' || s[g - 1] == '?' || s[g - 1] == '+' || s[g - 1] == '#')
        invariant
            start <= g <= e <= s@.len(),
            forall|j: int| g <= j < e ==> is_glyph(#[trigger] s@[j]),
        decreases g,
    {
        g -= 1;
    }
    proof {
        assert forall|j: int| g - start <= j < u.len() implies is_glyph(#[trigger] u[j]) by {
            assert(u[j] == s@[start + j]);
        }
        if g > start {
            assert(u[g - start - 1] == s@[g - 1]);
        }
        lemma_strip_glyphs_at(u, g - start);
    }
    if g == start {
        return None;
    }
    let mut out: Vec<char> = Vec::new();
    let mut k = start;
    while k < g
        invariant
            start <= k <= g <= s@.len(),
            out@ =~= s@.subrange(start as int, k as int),
        decreases g - k,
    {
        out.push(s[k]);
        k += 1;
    }
    proof {
        assert(u.take(g - start) =~= out@);
    }
    Some(out)
}

/// The SAN tokens of a movetext: move numbers, results, comments `{...}`,
/// NAGs `$n` and parenthesised variations are dropped, and check and
/// annotation glyphs are removed from the moves.
pub fn tokenize_moves(movetext: &Vec<char>) -> (r: Vec<Vec<char>>)
    requires
        movetext@.len() < 0x4000_0000_0000_0000,
    ensures
        r@.map_values(|v: Vec<char>| v@) == movetext_tokens(movetext@),
{
    let ghost s = movetext@;
    let n = movetext.len();
    let mut out: Vec<Vec<char>> = Vec::new();
    let mut i: usize = 0;
    let mut depth: i64 = 0;
    while i < n
        invariant
            n == s.len(),
            s == movetext@,
            n < 0x4000_0000_0000_0000,
            i <= n + 1,
            -(i as int) <= depth <= i,
            out@.map_values(|v: Vec<char>| v@) + scan(s, i as int, depth as int) == scan(s, 0, 0),
        decreases n + 1 - i,
    {
        let c = movetext[i];
        let ghost prev = out@.map_values(|v: Vec<char>| v@);
        if c == '{' {
            let mut j = i;
            while j < n && movetext[j] != '}'
                invariant
                    i <= j <= n,
                    n == s.len(),
                    s == movetext@,
                    n < 0x4000_0000_0000_0000,
                    first_from(s, '}', i as int) == first_from(s, '}', j as int),
                decreases n - j,
            {
                j += 1;
            }
            if j < n {
                i = j + 1;
            } else {
                assert(scan(s, j + 1, depth as int) == scan(s, j as int, depth as int));
                i = j;
            }
        } else if c == '(' {
            depth += 1;
            i += 1;
        } else if c == ')' {
            depth -= 1;
            i += 1;
        } else if c == '$' {
            let mut j = i + 1;
            while j < n && '0' <= movetext[j] && movetext[j] <= '9'
                invariant
                    i + 1 <= j <= n,
                    n == s.len(),
                    s == movetext@,
                    digits_from(s, i + 1) == digits_from(s, j as int),
                decreases n - j,
            {
                j += 1;
            }
            i = j;
        } else if is_ws_char(c) {
            i += 1;
        } else {
            let start = i;
            let mut j = i;
            while j < n && !(is_ws_char(movetext[j]) || movetext[j] == '{' || movetext[j] == '('
                || movetext[j] == ')')
                invariant
                    start <= j <= n,
                    n == s.len(),
                    s == movetext@,
                    word_from(s, start as int) == word_from(s, j as int),
                decreases n - j,
            {
                j += 1;
            }
            proof {
                lemma_word_from(s, start as int);
            }
            i = j;
            if depth <= 0 {
                match clean_token(movetext, start, j) {
                    Some(tok) => {
                        out.push(tok);
                        proof {
                            assert(out@.map_values(|v: Vec<char>| v@) =~= prev.push(tok@));
                            assert(prev.push(tok@) + scan(s, j as int, depth as int) =~= prev + (seq![
                                tok@,
                            ] + scan(s, j as int, depth as int)));
                        }
                    },
                    None => {},
                }
            }
        }
    }
    proof {
        assert(scan(s, i as int, depth as int) =~= Seq::<Seq<char>>::empty());
        assert(out@.map_values(|v: Vec<char>| v@) + Seq::<Seq<char>>::empty() =~= out@.map_values(
            |v: Vec<char>| v@,
        ));
    }
    out
}

/// A PGN game: its header pairs in file order and its movetext.
pub struct Game {
    pub headers: Vec<(Vec<char>, Vec<char>)>,
    pub movetext: Vec<char>,
}

/// The header pairs of a game as character sequences.
pub open spec fn header_pairs(g: &Game) -> Seq<(Seq<char>, Seq<char>)> {
    g.headers@.map_values(|p: (Vec<char>, Vec<char>)| (p.0@, p.1@))
}

/// The value of header `key`: that of the last pair with that key.
pub open spec fn header_value(hs: Seq<(Seq<char>, Seq<char>)>, key: Seq<char>) -> Option<Seq<char>>
    decreases hs.len(),
{
    if hs.len() == 0 {
        None
    } else if hs.last().0 == key {
        Some(hs.last().1)
    } else {
        header_value(hs.drop_last(), key)
    }
}

fn eq_text(v: &Vec<char>, lit: &str) -> (r: bool)
    ensures
        r == (v@ == lit@),
{
    let r = same_text(v, 0, v.len(), lit);
    proof {
        assert(v@.subrange(0, v@.len() as int) =~= v@);
    }
    r
}

impl Game {
    /// The value of header `key`, if the game has it.
    pub fn header(&self, key: &str) -> (r: Option<Vec<char>>)
        ensures
            r matches Some(v) ==> header_value(header_pairs(self), key@) == Some(v@),
            r is None <==> header_value(header_pairs(self), key@) is None,
    {
        let ghost hs = header_pairs(self);
        let mut i = self.headers.len();
        proof {
            assert(hs.len() == self.headers@.len());
            assert(hs.take(i as int) =~= hs);
        }
        while i > 0
            invariant
                i <= self.headers@.len(),
                hs == header_pairs(self),
                hs.len() == self.headers@.len(),
                header_value(hs, key@) == header_value(hs.take(i as int), key@),
            decreases i,
        {
            let ghost pre = hs.take(i as int);
            proof {
                assert(pre.drop_last() =~= hs.take(i - 1));
                assert(pre.last() == (self.headers@[i - 1].0@, self.headers@[i - 1].1@));
            }
            if eq_text(&self.headers[i - 1].0, key) {
                return Some(copy_chars(&self.headers[i - 1].1));
            }
            i -= 1;
        }
        None
    }
}

/// What a `[Key "value"]` header line holds.
pub open spec fn header_line(l: Seq<char>) -> Option<(Seq<char>, Seq<char>)> {
    if l.len() >= 2 && l[0] == '[' && l.last() == ']' {
        let inner = l.subrange(1, l.len() - 1);
        let sp = first_from(inner, ' ', 0);
        if sp < inner.len() {
            let v = trim(inner.skip(sp + 1));
            if v.len() >= 2 && v[0] == '"' && v.last() == '"' {
                Some((trim(inner.take(sp)), v.subrange(1, v.len() - 1)))
            } else {
                None
            }
        } else {
            None
        }
    } else {
        None
    }
}

fn sub_chars(v: &Vec<char>, a: usize, e: usize) -> (r: Vec<char>)
    requires
        a <= e <= v@.len(),
    ensures
        r@ == v@.subrange(a as int, e as int),
{
    let mut r: Vec<char> = Vec::new();
    let mut k = a;
    while k < e
        invariant
            a <= k <= e <= v@.len(),
            r@ =~= v@.subrange(a as int, k as int),
        decreases e - k,
    {
        r.push(v[k]);
        k += 1;
    }
    r
}

/// First index at or after `i` of `c` in `v`, or its length.
fn find_from(v: &Vec<char>, c: char, i: usize) -> (r: usize)
    requires
        i <= v@.len(),
    ensures
        r == first_from(v@, c, i as int),
        i <= r <= v@.len(),
{
    let mut j = i;
    while j < v.len() && v[j] != c
        invariant
            i <= j <= v@.len(),
            first_from(v@, c, i as int) == first_from(v@, c, j as int),
        decreases v@.len() - j,
    {
        j += 1;
    }
    j
}

/// Parses a `[Key "value"]` header line.
pub fn parse_header(line: &Vec<char>) -> (r: Option<(Vec<char>, Vec<char>)>)
    ensures
        r matches Some(kv) ==> header_line(line@) == Some((kv.0@, kv.1@)),
        r is None <==> header_line(line@) is None,
{
    let n = line.len();
    if !(n >= 2 && line[0] == '[' && line[n - 1] == ']') {
        return None;
    }
    let inner = sub_chars(line, 1, n - 1);
    let sp = find_from(&inner, ' ', 0);
    if sp >= inner.len() {
        return None;
    }
    let rest = sub_chars(&inner, sp + 1, inner.len());
    proof {
        assert(rest@ =~= inner@.skip(sp + 1));
    }
    let v = trimmed(&rest);
    let vn = v.len();
    if !(vn >= 2 && v[0] == '"' && v[vn - 1] == '"') {
        return None;
    }
    let key_raw = sub_chars(&inner, 0, sp);
    proof {
        assert(key_raw@ =~= inner@.take(sp as int));
    }
    let key = trimmed(&key_raw);
    let value = sub_chars(&v, 1, vn - 1);
    Some((key, value))
}

/// `s` after its last `c` (all of `s` when it has none).
pub open spec fn after_last(s: Seq<char>, c: char) -> Seq<char>
    decreases s.len(),
{
    if s.len() == 0 {
        s
    } else if s.last() == c {
        Seq::empty()
    } else {
        after_last(s.drop_last(), c).push(s.last())
    }
}

/// The base seconds of a PGN `TimeControl` value: of the first period
/// (before `:`), the part after the last `/`, before any `+`, trimmed.
pub open spec fn tc_base(tc: Seq<char>) -> Option<nat> {
    let first = tc.take(first_from(tc, ':', 0));
    let secs = after_last(first, '/');
    let base = trim(secs.take(first_from(secs, '+', 0)));
    uint_text(base, 0xFFFF_FFFF_FFFF_FFFF)
}

proof fn lemma_after_last_at(s: Seq<char>, c: char, k: int)
    requires
        0 <= k <= s.len(),
        forall|j: int| k <= j < s.len() ==> s[j] != c,
        k == 0 || s[k - 1] == c,
    ensures
        after_last(s, c) == s.skip(k),
    decreases s.len(),
{
    if s.len() > k {
        lemma_after_last_at(s.drop_last(), c, k);
        assert(s.drop_last().skip(k).push(s.last()) =~= s.skip(k));
    } else if k > 0 {
        assert(s.skip(k) =~= Seq::<char>::empty());
    } else {
        assert(s.skip(0) =~= s);
    }
}

/// Base seconds of a `TimeControl` value ("180+2", "300", "40/9000"),
/// or `None` when it has no usable base ("-", "?").
pub fn time_control_base(tc: &Vec<char>) -> (r: Option<u64>)
    ensures
        r matches Some(b) ==> tc_base(tc@) == Some(b as nat),
        r is None <==> tc_base(tc@) is None,
{
    let colon = find_from(tc, ':', 0);
    let first = sub_chars(tc, 0, colon);
    proof {
        assert(first@ =~= tc@.take(colon as int));
    }
    let mut k = first.len();
    while k > 0 && first[k - 1] != '/'
        invariant
            k <= first@.len(),
            forall|j: int| k <= j < first@.len() ==> first@[j] != '/',
        decreases k,
    {
        k -= 1;
    }
    proof {
        lemma_after_last_at(first@, '/', k as int);
    }
    let secs = sub_chars(&first, k, first.len());
    proof {
        assert(secs@ =~= first@.skip(k as int));
    }
    let plus = find_from(&secs, '+', 0);
    let base_raw = sub_chars(&secs, 0, plus);
    proof {
        assert(base_raw@ =~= secs@.take(plus as int));
    }
    let base = trimmed(&base_raw);
    parse_uint(&base, 0xFFFF_FFFF_FFFF_FFFF)
}

/// The characters of an optional text.
pub open spec fn opt_chars(v: Option<Vec<char>>) -> Option<Seq<char>> {
    match v {
        Some(x) => Some(x@),
        None => None,
    }
}

/// An Elo header value: a `u32` after trimming.
pub open spec fn elo_value(v: Option<Seq<char>>) -> Option<nat> {
    match v {
        Some(t) => uint_text(trim(t), 0xFFFF_FFFF),
        None => None,
    }
}

/// Parses an Elo header; `None` if missing or not a `u32`.
pub fn parse_elo(v: Option<Vec<char>>) -> (r: Option<u32>)
    ensures
        r matches Some(e) ==> elo_value(opt_chars(v)) == Some(e as nat),
        r is None <==> elo_value(opt_chars(v)) is None,
{
    match v {
        Some(t) => {
            let tt = trimmed(&t);
            match parse_uint(&tt, 0xFFFF_FFFF) {
                Some(e) => Some(e as u32),
                None => None,
            }
        },
        None => None,
    }
}

/// The book builder's game filters and limits.
#[derive(Clone, Copy)]
pub struct Args {
    pub min_elo: u32,
    pub min_plies: usize,
    pub max_book_plies: usize,
    pub min_count: u32,
}

impl Default for Args {
    fn default() -> (a: Args)
        ensures
            a.min_elo == 2300 && a.min_plies == 40 && a.max_book_plies == 16 && a.min_count == 2,
    {
        Args { min_elo: 2300, min_plies: 40, max_book_plies: 16, min_count: 2 }
    }
}

/// Points of (White, Black) for a result: 2 for a win, 1 for a draw.
pub open spec fn result_points(r: Option<Seq<char>>) -> Option<(u64, u64)> {
    match r {
        Some(t) => if t == "1-0"@ {
            Some((2u64, 0u64))
        } else if t == "0-1"@ {
            Some((0u64, 2u64))
        } else if t == "1/2-1/2"@ {
            Some((1u64, 1u64))
        } else {
            None
        },
        None => None,
    }
}

/// The (White, Black) points of a game that passes the filters: both Elos
/// at least `min_elo`, no BOT title, a time control base (if any) of at
/// least 180 seconds, and a decided or drawn result.
pub open spec fn game_points(hs: Seq<(Seq<char>, Seq<char>)>, args: Args) -> Option<(u64, u64)> {
    let we = elo_value(header_value(hs, "WhiteElo"@));
    let be = elo_value(header_value(hs, "BlackElo"@));
    if we is None || be is None {
        None
    } else if we->0 < args.min_elo || be->0 < args.min_elo {
        None
    } else if header_value(hs, "WhiteTitle"@) == Some("BOT"@) || header_value(hs, "BlackTitle"@)
        == Some("BOT"@) {
        None
    } else if header_value(hs, "TimeControl"@) matches Some(tc) && tc_base(tc) matches Some(b)
        && b < 180 {
        None
    } else {
        result_points(header_value(hs, "Result"@))
    }
}

fn is_text(v: &Option<Vec<char>>, lit: &str) -> (r: bool)
    ensures
        r == (opt_chars(*v) == Some(lit@)),
{
    match v {
        Some(t) => eq_text(t, lit),
        None => false,
    }
}

/// The points of a game under the filters, or `None` when it is dropped.
pub fn filter_game(game: &Game, args: &Args) -> (r: Option<(u64, u64)>)
    ensures
        r == game_points(header_pairs(game), *args),
{
    let ghost hs = header_pairs(game);
    let we = parse_elo(game.header("WhiteElo"));
    let be = parse_elo(game.header("BlackElo"));
    let (w, b) = match (we, be) {
        (Some(w), Some(b)) => (w, b),
        _ => {
            return None;
        },
    };
    if w < args.min_elo || b < args.min_elo {
        return None;
    }
    if is_text(&game.header("WhiteTitle"), "BOT") || is_text(&game.header("BlackTitle"), "BOT") {
        return None;
    }
    match game.header("TimeControl") {
        Some(tc) => match time_control_base(&tc) {
            Some(base) => {
                if base < 180 {
                    return None;
                }
            },
            None => {},
        },
        None => {},
    }
    let res = game.header("Result");
    if is_text(&res, "1-0") {
        Some((2, 0))
    } else if is_text(&res, "0-1") {
        Some((0, 2))
    } else if is_text(&res, "1/2-1/2") {
        Some((1, 1))
    } else {
        None
    }
}

/// The key of a book cell: PolyGlot key and move.
pub open spec fn cell_key(key: u64, mv: int) -> u128 {
    (key * 65536 + mv) as u128
}

/// A cell after one more visit scoring `points` (both counters saturate).
pub open spec fn bump_cell(m: Map<u128, (u32, u64)>, k: u128, points: u64) -> Map<u128, (u32, u64)> {
    let (c, sc) = if m.contains_key(k) {
        m[k]
    } else {
        (0u32, 0u64)
    };
    let c1: u32 = if c < 0xFFFF_FFFF { (c + 1) as u32 } else { c };
    let sc1: u64 = if sc <= 0xFFFF_FFFF_FFFF_FFFF - points { (sc + points) as u64 } else { 0xFFFF_FFFF_FFFF_FFFF };
    m.insert(k, (c1, sc1))
}

/// The table after visiting `cells` in order.
pub open spec fn apply_cells(m: Map<u128, (u32, u64)>, cells: Seq<(u128, u64)>) -> Map<u128, (u32, u64)>
    decreases cells.len(),
{
    if cells.len() == 0 {
        m
    } else {
        bump_cell(apply_cells(m, cells.drop_last()), cells.last().0, cells.last().1)
    }
}

/// Visit counts and scores of (PolyGlot key, PolyGlot move) cells.
pub struct BookStats {
    cells: HashMap<u128, (u32, u64)>,
}

impl BookStats {
    pub closed spec fn view(&self) -> Map<u128, (u32, u64)> {
        self.cells@
    }

    pub fn new() -> (r: BookStats)
        ensures
            r@ == Map::<u128, (u32, u64)>::empty(),
    {
        BookStats { cells: HashMap::new() }
    }

    /// One more visit of the cell (`key`, `mv`) scoring `points`.
    pub fn bump(&mut self, key: u64, mv: u16, points: u64)
        ensures
            final(self)@ == bump_cell(old(self)@, cell_key(key, mv as int), points),
    {
        broadcast use vstd::std_specs::hash::group_hash_axioms;

        let k: u128 = key as u128 * 65536 + mv as u128;
        let (c, sc) = match self.cells.get(&k) {
            Some(v) => *v,
            None => (0, 0),
        };
        let c1 = if c < 0xFFFF_FFFF { c + 1 } else { c };
        let sc1 = if sc <= 0xFFFF_FFFF_FFFF_FFFF - points { sc + points } else { 0xFFFF_FFFF_FFFF_FFFF };
        self.cells.insert(k, (c1, sc1));
    }

    /// The (count, score) of the cell (`key`, `mv`).
    pub fn get(&self, key: u64, mv: u16) -> (r: Option<(u32, u64)>)
        ensures
            r matches Some(v) ==> self@.contains_key(cell_key(key, mv as int)) && self@[cell_key(key, mv as int)] == v,
            r is None <==> !self@.contains_key(cell_key(key, mv as int)),
    {
        broadcast use vstd::std_specs::hash::group_hash_axioms;

        let k: u128 = key as u128 * 65536 + mv as u128;
        match self.cells.get(&k) {
            Some(v) => Some(*v),
            None => None,
        }
    }

    /// The cells, keyed by `key * 65536 + move`.
    pub fn cells(&self) -> (r: &HashMap<u128, (u32, u64)>)
        ensures
            r@ == self@,
    {
        &self.cells
    }
}

/// A replay of the first `n` tokens from the start position: each token
/// names a legal move of the position reached so far.
pub open spec fn replayed(toks: Seq<Seq<char>>, states: Seq<PosState>, moves: Seq<Move>, n: int) -> bool {
    &&& 0 <= n <= toks.len()
    &&& states.len() == n + 1
    &&& moves.len() == n
    &&& states[0] == start_state()
    &&& forall|k: int|
        0 <= k < n ==> {
            &&& pseudo_legal(states[k], #[trigger] moves[k])
            &&& legal_after(states[k], moves[k])
            &&& san_parts(toks[k]) matches Some(p) && san_matches(states[k], p, moves[k])
            &&& states[k + 1] == make_state(states[k], moves[k])
        }
}

/// Why a replay of `n` plies stopped: the ply limit, the end of the
/// tokens, a token naming no legal move, or an exhausted move counter.
pub open spec fn replay_stopped(toks: Seq<Seq<char>>, s: PosState, n: int, max_plies: int) -> bool {
    ||| n >= max_plies
    ||| n == toks.len()
    ||| s.halfmove == 0xFFFF || s.fullmove == 0xFFFF
    ||| san_parts(toks[n]) is None
    ||| san_parts(toks[n]) matches Some(p) && forall|m: Move|
        pseudo_legal(s, m) && san_matches(s, p, m) ==> !legal_after(s, m)
}

/// The cells visited by a replay, each scored for the side to move.
pub open spec fn replay_cells(
    states: Seq<PosState>,
    moves: Seq<Move>,
    random: Seq<u64>,
    points: (u64, u64),
) -> Seq<(u128, u64)> {
    Seq::new(
        moves.len(),
        |k: int|
            (
                cell_key(poly_key(states[k], random), poly_move(states[k], moves[k])),
                if states[k].stm == Color::White {
                    points.0
                } else {
                    points.1
                },
            ),
    )
}

proof fn lemma_apply_push(m: Map<u128, (u32, u64)>, c: Seq<(u128, u64)>, x: (u128, u64))
    ensures
        apply_cells(m, c.push(x)) == bump_cell(apply_cells(m, c), x.0, x.1),
{
    assert(c.push(x).drop_last() =~= c);
}

proof fn lemma_replay_step(
    toks: Seq<Seq<char>>,
    states: Seq<PosState>,
    moves: Seq<Move>,
    n: int,
    mv: Move,
    random: Seq<u64>,
    points: (u64, u64),
)
    requires
        replayed(toks, states, moves, n),
        n < toks.len(),
        pseudo_legal(states[n], mv),
        legal_after(states[n], mv),
        san_parts(toks[n]) matches Some(p) && san_matches(states[n], p, mv),
    ensures
        replayed(toks, states.push(make_state(states[n], mv)), moves.push(mv), n + 1),
        replay_cells(states.push(make_state(states[n], mv)), moves.push(mv), random, points)
            == replay_cells(states, moves, random, points).push(
            (
                cell_key(poly_key(states[n], random), poly_move(states[n], mv)),
                if states[n].stm == Color::White {
                    points.0
                } else {
                    points.1
                },
            ),
        ),
{
    let ns = states.push(make_state(states[n], mv));
    let nm = moves.push(mv);
    assert forall|k: int| 0 <= k < n + 1 implies {
        &&& pseudo_legal(ns[k], #[trigger] nm[k])
        &&& legal_after(ns[k], nm[k])
        &&& san_parts(toks[k]) matches Some(p) && san_matches(ns[k], p, nm[k])
        &&& ns[k + 1] == make_state(ns[k], nm[k])
    } by {
        if k < n {
            assert(nm[k] == moves[k]);
            assert(ns[k] == states[k]);
            assert(ns[k + 1] == states[k + 1]);
        }
    }
    assert(replay_cells(ns, nm, random, points) =~= replay_cells(states, moves, random, points).push(
        (
            cell_key(poly_key(states[n], random), poly_move(states[n], mv)),
            if states[n].stm == Color::White {
                points.0
            } else {
                points.1
            },
        ),
    ));
}

/// Filters a game, replays up to `max_book_plies` of its moves from the
/// start position, and adds one visit per replayed ply to `stats`, scored
/// for the side to move (2 win, 1 draw, 0 loss). Returns the number of
/// plies added, or `None` when the game is dropped.
/// The outcome of replaying at most `max_plies` of `toks`: `n` plies were
/// replayed and stopped for a reason, and the table went from `before` to
/// `after` by one visit per replayed ply.
pub open spec fn replay_result(
    toks: Seq<Seq<char>>,
    n: int,
    max_plies: int,
    before: Map<u128, (u32, u64)>,
    after: Map<u128, (u32, u64)>,
    random: Seq<u64>,
    points: (u64, u64),
) -> bool {
    exists|states: Seq<PosState>, moves: Seq<Move>|
        {
            &&& #[trigger] replayed(toks, states, moves, n)
            &&& replay_stopped(toks, states[n], n, max_plies)
            &&& after == apply_cells(before, replay_cells(states, moves, random, points))
        }
}

/// Replays up to `max_plies` of `tokens` from the start position, adding
/// one visit per replayed ply to `stats`; returns the number of plies.
fn replay_tokens(
    tokens: &Vec<Vec<char>>,
    max_plies: usize,
    random: &[u64; 781],
    points: (u64, u64),
    stats: &mut BookStats,
) -> (r: u64)
    requires
        consistent(start_state()),
    ensures
        replay_result(
            tokens@.map_values(|v: Vec<char>| v@),
            r as int,
            max_plies as int,
            old(stats)@,
            final(stats)@,
            random@,
            points,
        ),
{
    let ghost toks = tokens@.map_values(|v: Vec<char>| v@);
    let mut pos = Position::startpos();
    let ghost old_stats = stats@;
    let ghost mut states: Seq<PosState> = seq![pos.state()];
    let ghost mut moves: Seq<Move> = Seq::empty();
    proof {
        assert(replay_cells(states, moves, random@, points) =~= Seq::<(u128, u64)>::empty());
    }
    let mut ply: usize = 0;
    loop
        invariant
            toks == tokens@.map_values(|v: Vec<char>| v@),
            ply <= tokens@.len(),
            pos.wf(),
            consistent(pos.state()),
            replayed(toks, states, moves, ply as int),
            pos.state() == states[ply as int],
            stats@ == apply_cells(old_stats, replay_cells(states, moves, random@, points)),
        ensures
            replayed(toks, states, moves, ply as int),
            replay_stopped(toks, states[ply as int], ply as int, max_plies as int),
            stats@ == apply_cells(old_stats, replay_cells(states, moves, random@, points)),
        decreases tokens@.len() - ply,
    {
        if ply >= tokens.len() || ply >= max_plies {
            break;
        }
        if pos.halfmove() == 0xFFFF || pos.fullmove() == 0xFFFF {
            break;
        }
        let ghost s0 = pos.state();
        proof {
            assert(toks[ply as int] == tokens@[ply as int]@);
        }
        let mv = match find_san_chars(&mut pos, &tokens[ply]) {
            Some(m) => m,
            None => {
                break;
            },
        };
        let key = polyglot_key(&pos, random);
        let pg_move = encode_polyglot_move(&pos, mv);
        let score = match pos.stm() {
            Color::White => points.0,
            Color::Black => points.1,
        };
        stats.bump(key, pg_move, score);
        proof {
            pos.lemma_wf_state();
            crate::board::movegen::lemma_pseudo_legal_move_ok(s0, mv);
            lemma_make_consistent(s0, mv);
            lemma_replay_step(toks, states, moves, ply as int, mv, random@, points);
            lemma_apply_push(
                old_stats,
                replay_cells(states, moves, random@, points),
                (cell_key(key, pg_move as int), score),
            );
        }
        let ok = pos.make(mv);
        proof {
            states = states.push(make_state(s0, mv));
            moves = moves.push(mv);
        }
        ply = ply + 1;
    }
    proof {
        assert(replayed(toks, states, moves, ply as int));
    }
    ply as u64
}

/// Filters a game, replays up to `max_book_plies` of its moves from the
/// start position, and adds one visit per replayed ply to `stats`, scored
/// for the side to move (2 win, 1 draw, 0 loss). Returns the number of
/// plies added, or `None` when the game is dropped.
pub fn process_game(game: &Game, args: &Args, random: &[u64; 781], stats: &mut BookStats) -> (r: Option<u64>)
    requires
        game.movetext@.len() < 0x4000_0000_0000_0000,
    ensures
        r is None <==> (game_points(header_pairs(game), *args) is None || movetext_tokens(
            game.movetext@,
        ).len() < args.min_plies || !consistent(start_state())),
        r is None ==> final(stats)@ == old(stats)@,
        r matches Some(n) ==> replay_result(
            movetext_tokens(game.movetext@),
            n as int,
            args.max_book_plies as int,
            old(stats)@,
            final(stats)@,
            random@,
            game_points(header_pairs(game), *args)->0,
        ),
{
    let points = match filter_game(game, args) {
        Some(p) => p,
        None => {
            return None;
        },
    };
    let tokens = tokenize_moves(&game.movetext);
    if tokens.len() < args.min_plies {
        return None;
    }
    let start = Position::startpos();
    if !is_consistent(&start) {
        return None;
    }
    Some(replay_tokens(&tokens, args.max_book_plies, random, points, stats))
}
/// The lines of `s[i..]` (`str::lines`): split at `\n`, a `\r` right
/// before the `\n` dropped, no empty line after a final `\n`.
pub open spec fn lines_from(s: Seq<char>, i: int, cur: Seq<char>, acc: Seq<Seq<char>>) -> Seq<Seq<char>>
    decreases s.len() - i,
{
    if i >= s.len() {
        if cur.len() > 0 {
            acc.push(cur)
        } else {
            acc
        }
    } else if s[i] == '\n' {
        lines_from(
            s,
            i + 1,
            Seq::empty(),
            acc.push(
                if cur.len() > 0 && cur.last() == '\r' {
                    cur.drop_last()
                } else {
                    cur
                },
            ),
        )
    } else {
        lines_from(s, i + 1, cur.push(s[i]), acc)
    }
}

pub open spec fn text_lines(s: Seq<char>) -> Seq<Seq<char>> {
    lines_from(s, 0, Seq::empty(), Seq::empty())
}

/// The lines of a text.
pub fn split_lines(text: &Vec<char>) -> (r: Vec<Vec<char>>)
    ensures
        r@.map_values(|v: Vec<char>| v@) == text_lines(text@),
{
    let mut out: Vec<Vec<char>> = Vec::new();
    let mut cur: Vec<char> = Vec::new();
    let mut i: usize = 0;
    proof {
        assert(out@.map_values(|v: Vec<char>| v@) =~= Seq::<Seq<char>>::empty());
        assert(cur@ =~= Seq::<char>::empty());
    }
    while i < text.len()
        invariant
            i <= text@.len(),
            lines_from(text@, i as int, cur@, out@.map_values(|v: Vec<char>| v@)) == text_lines(text@),
        decreases text@.len() - i,
    {
        let c = text[i];
        let ghost prev = out@.map_values(|v: Vec<char>| v@);
        if c == '\n' {
            let ghost cv = cur@;
            if cur.len() > 0 && cur[cur.len() - 1] == '\r' {
                cur.pop();
            }
            let ghost pushed = cur@;
            out.push(cur);
            cur = Vec::new();
            proof {
                assert(out@.map_values(|v: Vec<char>| v@) =~= prev.push(pushed));
                assert(cur@ =~= Seq::<char>::empty());
            }
        } else {
            cur.push(c);
        }
        i += 1;
    }
    if cur.len() > 0 {
        let ghost prev = out@.map_values(|v: Vec<char>| v@);
        let ghost cv = cur@;
        out.push(cur);
        proof {
            assert(out@.map_values(|v: Vec<char>| v@) =~= prev.push(cv));
        }
    }
    out
}

pub open spec fn blank(l: Seq<char>) -> bool {
    trim(l).len() == 0
}

pub open spec fn opens_header(l: Seq<char>) -> bool {
    trim_start(l).len() > 0 && trim_start(l)[0] == '['
}

/// First line at or after `i` that is not blank.
pub open spec fn skip_blank(ls: Seq<Seq<char>>, i: int) -> int
    decreases ls.len() - i,
{
    if i < ls.len() && blank(ls[i]) {
        skip_blank(ls, i + 1)
    } else {
        i
    }
}

/// End of the header block starting at `i`.
pub open spec fn header_end(ls: Seq<Seq<char>>, i: int) -> int
    decreases ls.len() - i,
{
    if i < ls.len() && opens_header(ls[i]) {
        header_end(ls, i + 1)
    } else {
        i
    }
}

/// End of the movetext starting at `i`: a blank line or the next header.
pub open spec fn body_end(ls: Seq<Seq<char>>, i: int) -> int
    decreases ls.len() - i,
{
    if i < ls.len() && !blank(ls[i]) && !(trim(ls[i])[0] == '[') {
        body_end(ls, i + 1)
    } else {
        i
    }
}

/// The header pairs of lines `a..e`.
pub open spec fn headers_of(ls: Seq<Seq<char>>, a: int, e: int) -> Seq<(Seq<char>, Seq<char>)>
    decreases e - a,
{
    if e <= a {
        Seq::empty()
    } else {
        let h = headers_of(ls, a, e - 1);
        match header_line(trim(ls[e - 1])) {
            Some(kv) => h.push(kv),
            None => h,
        }
    }
}

/// Lines `a..e` each followed by a space.
pub open spec fn body_text(ls: Seq<Seq<char>>, a: int, e: int) -> Seq<char>
    decreases e - a,
{
    if e <= a {
        Seq::empty()
    } else {
        body_text(ls, a, e - 1) + ls[e - 1] + seq![' ']
    }
}

/// The games of lines `ls[i..]`: blank lines, a block of header lines,
/// blank lines, then movetext lines up to a blank line (consumed) or the
/// next header line (not consumed).
pub open spec fn games_from(ls: Seq<Seq<char>>, i: int) -> Seq<(Seq<(Seq<char>, Seq<char>)>, Seq<char>)>
    decreases ls.len() - i,
{
    let a = skip_blank(ls, i);
    if i < 0 || a >= ls.len() {
        Seq::empty()
    } else {
        let he = header_end(ls, a);
        let b = skip_blank(ls, he);
        let be = body_end(ls, b);
        let next = if be < ls.len() && blank(ls[be]) {
            be + 1
        } else {
            be
        };
        if next <= i || next > ls.len() {
            seq![(headers_of(ls, a, he), body_text(ls, b, be))]
        } else {
            seq![(headers_of(ls, a, he), body_text(ls, b, be))] + games_from(ls, next)
        }
    }
}

/// A game as plain sequences.
pub open spec fn game_view(g: Game) -> (Seq<(Seq<char>, Seq<char>)>, Seq<char>) {
    (header_pairs(&g), g.movetext@)
}

proof fn lemma_trim_start_head(l: Seq<char>)
    ensures
        trim_start(l).len() > 0 ==> !crate::text::is_ws(trim_start(l)[0]),
    decreases l.len(),
{
    if l.len() > 0 && crate::text::is_ws(l[0]) {
        lemma_trim_start_head(l.drop_first());
    }
}

proof fn lemma_trim_end_head(x: Seq<char>)
    requires
        x.len() > 0,
        !crate::text::is_ws(x[0]),
    ensures
        crate::text::trim_end(x).len() > 0,
        crate::text::trim_end(x)[0] == x[0],
    decreases x.len(),
{
    if crate::text::is_ws(x.last()) {
        assert(x.len() > 1);
        assert(x.drop_last()[0] == x[0]);
        lemma_trim_end_head(x.drop_last());
    }
}

proof fn lemma_opens_header(l: Seq<char>)
    ensures
        opens_header(l) == (trim(l).len() > 0 && trim(l)[0] == '['),
        blank(l) == (trim_start(l).len() == 0),
{
    lemma_trim_start_head(l);
    let x = trim_start(l);
    if x.len() > 0 {
        lemma_trim_end_head(x);
    } else {
        assert(crate::text::trim_end(x) =~= x);
    }
}

fn is_blank(l: &Vec<char>) -> (r: bool)
    ensures
        r == blank(l@),
{
    trimmed(l).len() == 0
}

fn starts_bracket(l: &Vec<char>) -> (r: bool)
    ensures
        r == (trim(l@).len() > 0 && trim(l@)[0] == '['),
        r == opens_header(l@),
{
    proof {
        lemma_opens_header(l@);
    }
    let t = trimmed(l);
    t.len() > 0 && t[0] == '['
}

/// The games of a PGN text.
pub fn split_games(text: &Vec<char>) -> (r: Vec<Game>)
    ensures
        r@.map_values(|g: Game| game_view(g)) == games_from(text_lines(text@), 0),
{
    let lines = split_lines(text);
    let ghost ls = lines@.map_values(|v: Vec<char>| v@);
    let n = lines.len();
    let mut games: Vec<Game> = Vec::new();
    let mut i: usize = 0;
    proof {
        assert(games@.map_values(|g: Game| game_view(g)) =~= Seq::<(Seq<(Seq<char>, Seq<char>)>, Seq<char>)>::empty());
    }
    loop
        invariant
            i <= n,
            n == lines@.len(),
            ls == lines@.map_values(|v: Vec<char>| v@),
            ls == text_lines(text@),
            games@.map_values(|g: Game| game_view(g)) + games_from(ls, i as int) == games_from(ls, 0),
        ensures
            games@.map_values(|g: Game| game_view(g)) == games_from(ls, 0),
        decreases n - i,
    {
        let ghost before = games@.map_values(|g: Game| game_view(g));
        // blank lines
        let mut a = i;
        while a < n && is_blank(&lines[a])
            invariant
                i <= a <= n,
                n == lines@.len(),
                ls == lines@.map_values(|v: Vec<char>| v@),
                skip_blank(ls, i as int) == skip_blank(ls, a as int),
            decreases n - a,
        {
            proof {
                assert(ls[a as int] == lines@[a as int]@);
            }
            a += 1;
        }
        proof {
            if a < n {
                assert(ls[a as int] == lines@[a as int]@);
            }
        }
        if a >= n {
            proof {
                assert(games_from(ls, i as int) =~= Seq::empty());
                assert(before + Seq::<(Seq<(Seq<char>, Seq<char>)>, Seq<char>)>::empty() =~= before);
            }
            break;
        }
        // header block
        let mut headers: Vec<(Vec<char>, Vec<char>)> = Vec::new();
        let mut he = a;
        proof {
            assert(headers@.map_values(|p: (Vec<char>, Vec<char>)| (p.0@, p.1@)) =~= headers_of(ls, a as int, a as int));
        }
        while he < n && starts_bracket(&lines[he])
            invariant
                a <= he <= n,
                n == lines@.len(),
                ls == lines@.map_values(|v: Vec<char>| v@),
                header_end(ls, a as int) == header_end(ls, he as int),
                headers@.map_values(|p: (Vec<char>, Vec<char>)| (p.0@, p.1@)) == headers_of(ls, a as int, he as int),
            decreases n - he,
        {
            proof {
                assert(ls[he as int] == lines@[he as int]@);
            }
            let t = trimmed(&lines[he]);
            let ghost hv = headers@.map_values(|p: (Vec<char>, Vec<char>)| (p.0@, p.1@));
            match parse_header(&t) {
                Some(kv) => {
                    let ghost kvv = (kv.0@, kv.1@);
                    headers.push(kv);
                    proof {
                        assert(headers@.map_values(|p: (Vec<char>, Vec<char>)| (p.0@, p.1@)) =~= hv.push(kvv));
                    }
                },
                None => {},
            }
            he += 1;
        }
        proof {
            if he < n {
                assert(ls[he as int] == lines@[he as int]@);
                lemma_opens_header(ls[he as int]);
            }
        }
        // blank separator lines
        let mut b = he;
        while b < n && is_blank(&lines[b])
            invariant
                he <= b <= n,
                n == lines@.len(),
                ls == lines@.map_values(|v: Vec<char>| v@),
                skip_blank(ls, he as int) == skip_blank(ls, b as int),
            decreases n - b,
        {
            proof {
                assert(ls[b as int] == lines@[b as int]@);
            }
            b += 1;
        }
        proof {
            if b < n {
                assert(ls[b as int] == lines@[b as int]@);
            }
        }
        // movetext
        let mut movetext: Vec<char> = Vec::new();
        let mut be = b;
        while be < n && !is_blank(&lines[be]) && !starts_bracket(&lines[be])
            invariant
                b <= be <= n,
                n == lines@.len(),
                ls == lines@.map_values(|v: Vec<char>| v@),
                body_end(ls, b as int) == body_end(ls, be as int),
                movetext@ == body_text(ls, b as int, be as int),
            decreases n - be,
        {
            proof {
                assert(ls[be as int] == lines@[be as int]@);
            }
            let l = &lines[be];
            let ghost m0 = movetext@;
            let mut k: usize = 0;
            while k < l.len()
                invariant
                    k <= l@.len(),
                    movetext@ == m0 + l@.take(k as int),
                decreases l@.len() - k,
            {
                movetext.push(l[k]);
                k += 1;
                proof {
                    assert(movetext@ =~= m0 + l@.take(k as int));
                }
            }
            movetext.push(' ');
            proof {
                assert(l@.take(l@.len() as int) =~= l@);
                assert(movetext@ =~= m0 + l@ + seq![' ']);
            }
            be += 1;
        }
        proof {
            if be < n {
                assert(ls[be as int] == lines@[be as int]@);
            }
        }
        let next = if be < n && is_blank(&lines[be]) {
            be + 1
        } else {
            be
        };
        let ghost g = (headers_of(ls, a as int, he as int), body_text(ls, b as int, be as int));
        let game = Game { headers, movetext };
        proof {
            assert(game_view(game) == g);
        }
        games.push(game);
        proof {
            assert(games@.map_values(|g: Game| game_view(g)) =~= before.push(g));
        }
        if next <= i {
            proof {
                assert(games_from(ls, i as int) == seq![g]);
                assert(before.push(g) =~= before + seq![g]);
            }
            return games;
        }
        proof {
            assert(games_from(ls, i as int) == seq![g] + games_from(ls, next as int));
            assert(before.push(g) + games_from(ls, next as int) =~= before + (seq![g] + games_from(ls, next as int)));
        }
        i = next;
    }
    games
}


/// A row of a PolyGlot book being built: key, move, weight.
pub type BookRow = (u64, u16, u16);

/// A cell's score saturated to the `u16` weight a book entry holds.
pub open spec fn saturated_weight(score: u64) -> u16 {
    if score < 0xFFFF { score as u16 } else { 0xFFFFu16 }
}

/// The book entry of a cell `(key * 65536 + move, (count, score))`.
pub open spec fn entry_of(cell: (u128, (u32, u64))) -> BookRow {
    ((cell.0 / 65536) as u64, (cell.0 % 65536) as u16, saturated_weight(cell.1.1))
}

/// The entries of the cells visited at least `min_count` times, in the
/// order of the cells.
pub open spec fn kept_entries(cells: Seq<(u128, (u32, u64))>, min_count: u32) -> Seq<BookRow>
    decreases cells.len(),
{
    if cells.len() == 0 {
        Seq::empty()
    } else {
        let rest = kept_entries(cells.drop_last(), min_count);
        if cells.last().1.0 >= min_count {
            rest.push(entry_of(cells.last()))
        } else {
            rest
        }
    }
}

/// The place of an entry in book order: by key, then by weight from the
/// highest, then by move. Distinct entries have distinct places.
pub open spec fn entry_rank(e: BookRow) -> int {
    e.0 * 0x1_0000_0000 + (0xFFFF - e.2) * 0x1_0000 + e.1
}

/// Whether entries stand in book order.
pub open spec fn in_book_order(s: Seq<BookRow>) -> bool {
    forall|i: int, j: int| 0 <= i < j < s.len() ==> entry_rank(#[trigger] s[i]) <= entry_rank(#[trigger] s[j])
}

/// The place of an entry in book order, as a number.
fn order_key(e: BookRow) -> (r: u128)
    ensures
        r == entry_rank(e),
{
    e.0 as u128 * 0x1_0000_0000 + (0xFFFF - e.2) as u128 * 0x1_0000 + e.1 as u128
}

/// The two runs merged into one run in book order.
fn merge_entries(a: &Vec<BookRow>, b: &Vec<BookRow>) -> (r: Vec<BookRow>)
    requires
        in_book_order(a@),
        in_book_order(b@),
    ensures
        in_book_order(r@),
        r@.to_multiset() == a@.to_multiset().add(b@.to_multiset()),
{
    broadcast use vstd::multiset::group_multiset_axioms;
    broadcast use vstd::seq_lib::group_to_multiset_ensures;

    let mut r: Vec<BookRow> = Vec::new();
    let mut i: usize = 0;
    let mut j: usize = 0;
    while i < a.len() || j < b.len()
        invariant
            i <= a.len(),
            j <= b.len(),
            in_book_order(a@),
            in_book_order(b@),
            in_book_order(r@),
            r@.to_multiset() == a@.subrange(0, i as int).to_multiset().add(b@.subrange(0, j as int).to_multiset()),
            r@.len() > 0 && i < a.len() ==> entry_rank(r@.last()) <= entry_rank(a@[i as int]),
            r@.len() > 0 && j < b.len() ==> entry_rank(r@.last()) <= entry_rank(b@[j as int]),
        decreases a.len() + b.len() - i - j,
    {
        let take_a = if j >= b.len() {
            true
        } else if i >= a.len() {
            false
        } else {
            order_key(a[i]) <= order_key(b[j])
        };
        let ghost old_r = r@;
        if take_a {
            let e = a[i];
            assert(a@.subrange(0, i + 1) =~= a@.subrange(0, i as int).push(e));
            r.push(e);
            i += 1;
            assert(r@ =~= old_r.push(e));
            proof {
                vstd::seq_lib::to_multiset_build(old_r, e);
                vstd::seq_lib::to_multiset_build(a@.subrange(0, i - 1), e);
            }
            assert(r@.to_multiset() =~= a@.subrange(0, i as int).to_multiset().add(
                b@.subrange(0, j as int).to_multiset(),
            ));
            if i < a.len() {
                assert(entry_rank(a@[i - 1]) <= entry_rank(a@[i as int]));
            }
        } else {
            let e = b[j];
            assert(b@.subrange(0, j + 1) =~= b@.subrange(0, j as int).push(e));
            r.push(e);
            j += 1;
            assert(r@ =~= old_r.push(e));
            proof {
                vstd::seq_lib::to_multiset_build(old_r, e);
                vstd::seq_lib::to_multiset_build(b@.subrange(0, j - 1), e);
            }
            assert(r@.to_multiset() =~= a@.subrange(0, i as int).to_multiset().add(
                b@.subrange(0, j as int).to_multiset(),
            ));
            if j < b.len() {
                assert(entry_rank(b@[j - 1]) <= entry_rank(b@[j as int]));
            }
        }
        assert forall|x: int, y: int| 0 <= x < y < r@.len() implies entry_rank(#[trigger] r@[x]) <= entry_rank(
            #[trigger] r@[y],
        ) by {
            if y == r@.len() - 1 && x < y {
                assert(entry_rank(old_r[x]) <= entry_rank(old_r.last()));
            }
        }
    }
    assert(a@.subrange(0, a.len() as int) =~= a@);
    assert(b@.subrange(0, b.len() as int) =~= b@);
    r
}

/// The entries in book order (a merge sort).
fn sort_entries(v: Vec<BookRow>) -> (r: Vec<BookRow>)
    ensures
        in_book_order(r@),
        r@.to_multiset() == v@.to_multiset(),
    decreases v.len(),
{
    broadcast use vstd::multiset::group_multiset_axioms;

    if v.len() <= 1 {
        return v;
    }
    let mid = v.len() / 2;
    let mut left: Vec<BookRow> = Vec::new();
    let mut right: Vec<BookRow> = Vec::new();
    let mut i: usize = 0;
    while i < v.len()
        invariant
            mid < v.len(),
            i <= v.len(),
            i <= mid ==> left@ == v@.subrange(0, i as int) && right@.len() == 0,
            i > mid ==> left@ == v@.subrange(0, mid as int) && right@ == v@.subrange(mid as int, i as int),
        decreases v.len() - i,
    {
        if i < mid {
            left.push(v[i]);
            assert(left@ =~= v@.subrange(0, i + 1));
        } else {
            right.push(v[i]);
            assert(right@ =~= v@.subrange(mid as int, i + 1));
        }
        i += 1;
    }
    assert(v@ =~= left@ + right@);
    proof {
        vstd::seq_lib::lemma_multiset_commutative(left@, right@);
    }
    let sl = sort_entries(left);
    let sr = sort_entries(right);
    merge_entries(&sl, &sr)
}

/// The book's entries from its cells: the cells visited fewer than
/// `min_count` times are dropped, each score is saturated to a `u16`
/// weight, and the entries are put in book order (by key, then strongest
/// first).
pub fn book_entries(cells: &Vec<(u128, (u32, u64))>, min_count: u32) -> (r: Vec<BookRow>)
    ensures
        in_book_order(r@),
        r@.to_multiset() == kept_entries(cells@, min_count).to_multiset(),
{
    let mut rows: Vec<BookRow> = Vec::new();
    let mut i: usize = 0;
    while i < cells.len()
        invariant
            i <= cells.len(),
            rows@ == kept_entries(cells@.subrange(0, i as int), min_count),
        decreases cells.len() - i,
    {
        let (k, (count, score)) = cells[i];
        assert(cells@.subrange(0, i + 1).drop_last() =~= cells@.subrange(0, i as int));
        if count >= min_count {
            let w: u16 = if score < 0xFFFF { score as u16 } else { 0xFFFF };
            rows.push(((k / 65536) as u64, (k % 65536) as u16, w));
        }
        i += 1;
    }
    assert(cells@.subrange(0, cells.len() as int) =~= cells@);
    sort_entries(rows)
}

/// Entries in book order are listed by key, and among one key the heavier
/// entry comes first.
pub proof fn lemma_book_order(s: Seq<BookRow>, i: int, j: int)
    requires
        in_book_order(s),
        0 <= i < j < s.len(),
    ensures
        s[i].0 <= s[j].0,
        s[i].0 == s[j].0 ==> s[i].2 >= s[j].2,
{
    assert(entry_rank(s[i]) <= entry_rank(s[j]));
}

} // verus!
