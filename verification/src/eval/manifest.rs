//! Parameter registry: every tunable term declares its name and length.
//! The pair-index space is flat, with cumulative offsets in registry order;
//! a parameter table is laid out in the same order.
use vstd::prelude::*;

use crate::text::chars_of;

verus! {

pub struct TermDef {
    pub name: &'static str,
    pub len: usize,
}

/// Names of the registered terms, in order.
pub open spec fn term_names() -> Seq<Seq<char>> {
    seq![
        "MATERIAL"@,
        "PST_PAWN"@,
        "PST_KNIGHT"@,
        "PST_BISHOP"@,
        "PST_ROOK"@,
        "PST_QUEEN"@,
        "PST_KING"@,
        "PASSED"@,
        "PASSED_CONNECTED"@,
        "ISOLATED"@,
        "DOUBLED"@,
        "MOB_KNIGHT"@,
        "MOB_BISHOP"@,
        "MOB_ROOK"@,
        "MOB_QUEEN"@,
        "KS_ATTACKER"@,
        "KS_SHIELD"@,
        "KS_OPEN_FILE"@,
        "KS_SEMI_FILE"@,
        "THREAT_BY_PAWN"@,
        "THREAT_BY_MINOR"@,
        "HANGING"@,
        "BISHOP_PAIR"@,
        "ROOK_OPEN"@,
        "ROOK_SEMI"@,
        "TEMPO"@,
    ]
}

/// Lengths of the registered terms, in order.
pub open spec fn term_lens() -> Seq<int> {
    seq![6, 64, 64, 64, 64, 64, 64, 6, 1, 1, 1, 9, 14, 15, 28, 4, 3, 1, 1, 4, 4, 1, 1, 1, 1, 1]
}

/// Offset of term `k`: the total length of the terms before it.
pub open spec fn offset_upto(k: int) -> int
    decreases k,
{
    if k <= 0 {
        0
    } else {
        offset_upto(k - 1) + term_lens()[k - 1]
    }
}

/// P N B R Q K
pub const MATERIAL: usize = 0;

pub const PST_PAWN: usize = 6;

pub const PST_KNIGHT: usize = 70;

pub const PST_BISHOP: usize = 134;

pub const PST_ROOK: usize = 198;

pub const PST_QUEEN: usize = 262;

pub const PST_KING: usize = 326;

/// by relative rank 2..7
pub const PASSED: usize = 390;

pub const PASSED_CONNECTED: usize = 396;

pub const ISOLATED: usize = 397;

pub const DOUBLED: usize = 398;

/// 0..=8 safe squares
pub const MOB_KNIGHT: usize = 399;

/// 0..=13 safe squares
pub const MOB_BISHOP: usize = 408;

/// 0..=14 safe squares
pub const MOB_ROOK: usize = 422;

/// 0..=27 safe squares
pub const MOB_QUEEN: usize = 437;

/// N/B/R/Q touching the king zone
pub const KS_ATTACKER: usize = 465;

/// shield pawn one rank ahead / two ranks ahead / missing
pub const KS_SHIELD: usize = 469;

/// no pawns on a file near the king
pub const KS_OPEN_FILE: usize = 472;

/// no own pawns on a file near the king
pub const KS_SEMI_FILE: usize = 473;

/// pawn attacks an enemy N/B/R/Q
pub const THREAT_BY_PAWN: usize = 474;

/// minor attacks an enemy N/B/R/Q
pub const THREAT_BY_MINOR: usize = 478;

/// enemy piece attacked by us, undefended
pub const HANGING: usize = 482;

/// two or more bishops
pub const BISHOP_PAIR: usize = 483;

/// rook on a fully open file
pub const ROOK_OPEN: usize = 484;

/// rook on a semi-open file
pub const ROOK_SEMI: usize = 485;

/// side-to-move initiative
pub const TEMPO: usize = 486;

/// Total number of parameter pairs.
pub const TOTAL_PAIRS: usize = 487;

/// The registry, in order.
pub fn terms() -> (t: Vec<TermDef>)
    ensures
        t@.len() == 26,
        forall|i: int| 0 <= i < 26 ==> (#[trigger] t@[i]).name@ == term_names()[i] && t@[i].len
            == term_lens()[i],
{
    let mut v: Vec<TermDef> = Vec::new();
    v.push(TermDef { name: "MATERIAL", len: 6 });
    v.push(TermDef { name: "PST_PAWN", len: 64 });
    v.push(TermDef { name: "PST_KNIGHT", len: 64 });
    v.push(TermDef { name: "PST_BISHOP", len: 64 });
    v.push(TermDef { name: "PST_ROOK", len: 64 });
    v.push(TermDef { name: "PST_QUEEN", len: 64 });
    v.push(TermDef { name: "PST_KING", len: 64 });
    v.push(TermDef { name: "PASSED", len: 6 });
    v.push(TermDef { name: "PASSED_CONNECTED", len: 1 });
    v.push(TermDef { name: "ISOLATED", len: 1 });
    v.push(TermDef { name: "DOUBLED", len: 1 });
    v.push(TermDef { name: "MOB_KNIGHT", len: 9 });
    v.push(TermDef { name: "MOB_BISHOP", len: 14 });
    v.push(TermDef { name: "MOB_ROOK", len: 15 });
    v.push(TermDef { name: "MOB_QUEEN", len: 28 });
    v.push(TermDef { name: "KS_ATTACKER", len: 4 });
    v.push(TermDef { name: "KS_SHIELD", len: 3 });
    v.push(TermDef { name: "KS_OPEN_FILE", len: 1 });
    v.push(TermDef { name: "KS_SEMI_FILE", len: 1 });
    v.push(TermDef { name: "THREAT_BY_PAWN", len: 4 });
    v.push(TermDef { name: "THREAT_BY_MINOR", len: 4 });
    v.push(TermDef { name: "HANGING", len: 1 });
    v.push(TermDef { name: "BISHOP_PAIR", len: 1 });
    v.push(TermDef { name: "ROOK_OPEN", len: 1 });
    v.push(TermDef { name: "ROOK_SEMI", len: 1 });
    v.push(TermDef { name: "TEMPO", len: 1 });
    v
}

/// The two sequences are equal.
fn same_chars(a: &Vec<char>, b: &Vec<char>) -> (r: bool)
    ensures
        r == (a@ == b@),
{
    if a.len() != b.len() {
        return false;
    }
    let mut i: usize = 0;
    while i < a.len()
        invariant
            a@.len() == b@.len(),
            i <= a@.len(),
            forall|k: int| 0 <= k < i ==> a@[k] == b@[k],
        decreases a@.len() - i,
    {
        if a[i] != b[i] {
            return false;
        }
        i += 1;
    }
    proof {
        assert(a@ =~= b@);
    }
    true
}

/// Offset of the first registered term named `name`.
pub fn offset_of(name: &str) -> (r: usize)
    requires
        exists|i: int| 0 <= i < 26 && #[trigger] term_names()[i] == name@,
    ensures
        exists|i: int|
            0 <= i < 26 && #[trigger] term_names()[i] == name@ && r == offset_upto(i) && (forall|j: int|
                0 <= j < i ==> term_names()[j] != name@),
{
    let t = terms();
    let want = chars_of(name);
    let mut off: usize = 0;
    let mut i: usize = 0;
    while i < t.len()
        invariant
            t@.len() == 26,
            forall|k: int| 0 <= k < 26 ==> (#[trigger] t@[k]).name@ == term_names()[k] && t@[k].len
                == term_lens()[k],
            want@ == name@,
            i <= 26,
            off == offset_upto(i as int),
            off <= 487,
            forall|j: int| 0 <= j < i ==> term_names()[j] != name@,
            exists|k: int| i <= k < 26 && #[trigger] term_names()[k] == name@,
        decreases 26 - i,
    {
        proof {
            lemma_offsets_bounded(i as int);
        }
        let here = chars_of(t[i].name);
        if same_chars(&here, &want) {
            return off;
        }
        off = off + t[i].len;
        i += 1;
    }
    0
}

/// Every offset up to the end lies within the table.
proof fn lemma_offsets_bounded(k: int)
    requires
        0 <= k < 26,
    ensures
        offset_upto(k + 1) <= 487,
        offset_upto(k + 1) == offset_upto(k) + term_lens()[k],
{
    assert(offset_upto(26) == 487) by {
        reveal_with_fuel(offset_upto, 27);
    }
    lemma_offsets_monotone(k + 1, 26);
}

proof fn lemma_offsets_monotone(a: int, b: int)
    requires
        0 <= a <= b <= 26,
    ensures
        offset_upto(a) <= offset_upto(b),
    decreases b - a,
{
    if a < b {
        lemma_offsets_monotone(a, b - 1);
    }
}

/// Total number of parameter pairs: the sum of all term lengths.
pub fn total_pairs() -> (r: usize)
    ensures
        r == offset_upto(26),
        r == TOTAL_PAIRS,
{
    let t = terms();
    let mut off: usize = 0;
    let mut i: usize = 0;
    while i < t.len()
        invariant
            t@.len() == 26,
            forall|k: int| 0 <= k < 26 ==> (#[trigger] t@[k]).len == term_lens()[k],
            i <= 26,
            off == offset_upto(i as int),
        decreases 26 - i,
    {
        proof {
            lemma_offsets_bounded(i as int);
        }
        off = off + t[i].len;
        i += 1;
    }
    assert(offset_upto(26) == 487) by {
        reveal_with_fuel(offset_upto, 27);
    }
    off
}

/// Each named offset is the offset of its term in the registry.
pub proof fn lemma_named_offsets()
    ensures
        MATERIAL == offset_upto(0),
        PST_PAWN == offset_upto(1),
        PST_KNIGHT == offset_upto(2),
        PST_BISHOP == offset_upto(3),
        PST_ROOK == offset_upto(4),
        PST_QUEEN == offset_upto(5),
        PST_KING == offset_upto(6),
        PASSED == offset_upto(7),
        PASSED_CONNECTED == offset_upto(8),
        ISOLATED == offset_upto(9),
        DOUBLED == offset_upto(10),
        MOB_KNIGHT == offset_upto(11),
        MOB_BISHOP == offset_upto(12),
        MOB_ROOK == offset_upto(13),
        MOB_QUEEN == offset_upto(14),
        KS_ATTACKER == offset_upto(15),
        KS_SHIELD == offset_upto(16),
        KS_OPEN_FILE == offset_upto(17),
        KS_SEMI_FILE == offset_upto(18),
        THREAT_BY_PAWN == offset_upto(19),
        THREAT_BY_MINOR == offset_upto(20),
        HANGING == offset_upto(21),
        BISHOP_PAIR == offset_upto(22),
        ROOK_OPEN == offset_upto(23),
        ROOK_SEMI == offset_upto(24),
        TEMPO == offset_upto(25),
{
    reveal_with_fuel(offset_upto, 27);
}

} // verus!
