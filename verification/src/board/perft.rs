//! Perft: exhaustive legal-move-tree leaf counting, the move generator's
//! correctness oracle. Divide splits the count by root move.
use vstd::prelude::*;

use crate::board::makemove::{legal_after, lemma_make_clocks, make_state};
use crate::board::movegen::{
    consistent, generate_moves, pseudo_legal, pseudo_legal_moves, lemma_pseudo_legal_move_ok,
    lemma_make_consistent, lemma_consistent_pawns,
};
use crate::board::position::{PosState, Position, Undo, state_ok};
use crate::board::{Move, MoveList};

verus! {

/// The move with raw code `c`.
pub closed spec fn move_code(c: int) -> Move {
    Move(c as u16)
}

/// `m` is a legal move of `s`.
pub open spec fn legal_move(s: PosState, m: Move) -> bool {
    pseudo_legal(s, m) && legal_after(s, m)
}

/// Leaves of the legal move tree of `s` of depth `d`.
pub open spec fn perft_count(s: PosState, d: nat) -> nat
    decreases d, 65537int,
{
    if d == 0 {
        1
    } else {
        legal_sum(s, d, 65536)
    }
}

/// The leaves of depth `d` below the legal moves of `s` whose raw codes
/// are below `n`.
pub open spec fn legal_sum(s: PosState, d: nat, n: int) -> nat
    decreases d, n,
{
    if d == 0 || n <= 0 {
        0
    } else {
        legal_sum(s, d, n - 1) + if legal_move(s, move_code(n - 1)) {
            perft_count(make_state(s, move_code(n - 1)), (d - 1) as nat)
        } else {
            0
        }
    }
}

/// The moves among the first `i` of `l`.
pub open spec fn listed(l: Seq<Move>, i: int) -> Set<Move> {
    Set::new(|m: Move| exists|j: int| 0 <= j < i && l[j] == m)
}

/// The leaves below the legal moves of `s` in `set` whose codes are below `n`.
pub open spec fn set_sum(set: Set<Move>, s: PosState, d: nat, n: int) -> nat
    decreases n,
{
    if n <= 0 {
        0
    } else {
        set_sum(set, s, d, n - 1) + if set.contains(move_code(n - 1)) && legal_move(s, move_code(n - 1)) {
            perft_count(make_state(s, move_code(n - 1)), (d - 1) as nat)
        } else {
            0
        }
    }
}

proof fn lemma_move_code(m: Move, c: int)
    requires
        0 <= c < 65536,
    ensures
        move_code(m@ as int) == m,
        move_code(c)@ == c,
        (move_code(c) == m) == (c == m@),
{
}

/// Adding a move not yet in the set adds its own leaves.
proof fn lemma_set_sum_insert(set: Set<Move>, s: PosState, d: nat, n: int, m: Move)
    requires
        !set.contains(m),
        0 <= n <= 65536,
    ensures
        set_sum(set.insert(m), s, d, n) == set_sum(set, s, d, n) + if (m@ as int) < n && legal_move(s, m) {
            perft_count(make_state(s, m), (d - 1) as nat)
        } else {
            0
        },
    decreases n,
{
    if n > 0 {
        lemma_set_sum_insert(set, s, d, n - 1, m);
        lemma_move_code(m, n - 1);
    }
}

/// A set holding every legal move sums to the whole count.
proof fn lemma_set_sum_full(set: Set<Move>, s: PosState, d: nat, n: int)
    requires
        d >= 1,
        0 <= n <= 65536,
        forall|m: Move| #[trigger] legal_move(s, m) ==> set.contains(m),
    ensures
        set_sum(set, s, d, n) == legal_sum(s, d, n),
    decreases n,
{
    if n > 0 {
        lemma_set_sum_full(set, s, d, n - 1);
        let m = move_code(n - 1);
        if legal_move(s, m) {
            assert(set.contains(m));
        }
    }
}

/// Number of leaves of the legal move tree of depth `depth`. The position
/// is the same afterwards. Counts beyond `u64::MAX` wrap around.
#[verifier::rlimit(100)]
pub fn perft(pos: &mut Position, depth: u32) -> (nodes: u64)
    requires
        old(pos).wf(),
        consistent(old(pos).state()),
        old(pos).state().halfmove + depth < 0xFFFF,
        old(pos).state().fullmove + depth < 0xFFFF,
    ensures
        final(pos).wf(),
        final(pos).same_as(old(pos)),
        depth == 0 ==> nodes == 1,
        nodes == perft_count(old(pos).state(), depth as nat) % 0x1_0000_0000_0000_0000,
    decreases depth,
{
    if depth == 0 {
        return 1;
    }
    let ghost s0 = pos.state();
    let ghost t0 = pos.trail();
    proof {
        pos.lemma_wf_state();
    }
    let mut list = MoveList::new();
    proof {
        lemma_consistent_pawns(s0);
    }
    generate_moves(pos, &mut list);
    proof {
        assert forall|m: Move| #[trigger] pseudo_legal(s0, m) implies exists|k: int| 0 <= k < list@.len() && #[trigger] list@[k] == m by {
            assert(pseudo_legal_moves(s0)(m));
        }
        assert(listed(list@, 0) =~= Set::<Move>::empty());
        lemma_set_sum_zero(listed(list@, 0), s0, depth as nat, 65536);
    }
    let mut nodes: u64 = 0;
    let mut i: usize = 0;
    while i < list.len()
        invariant
            pos.wf(),
            pos.state() == s0,
            pos.trail() == t0,
            state_ok(s0),
            consistent(s0),
            s0.halfmove + depth < 0xFFFF,
            s0.fullmove + depth < 0xFFFF,
            depth >= 1,
            i <= list@.len(),
            forall|k: int| 0 <= k < list@.len() ==> pseudo_legal(s0, #[trigger] list@[k]),
            forall|m: Move| #[trigger] pseudo_legal(s0, m) ==> exists|k: int| 0 <= k < list@.len() && #[trigger] list@[k] == m,
            nodes == set_sum(listed(list@, i as int), s0, depth as nat, 65536) % 0x1_0000_0000_0000_0000,
        decreases list@.len() - i,
    {
        let mv = list.get(i);
        let ghost set_i = listed(list@, i as int);
        proof {
            lemma_pseudo_legal_move_ok(s0, mv);
        }
        // a move listed twice counts once
        let seen = listed_before(&list, i, mv);
        if seen {
            proof {
                assert(listed(list@, i + 1) =~= set_i);
            }
        } else {
            proof {
                assert(listed(list@, i + 1) =~= set_i.insert(mv));
                lemma_set_sum_insert(set_i, s0, depth as nat, 65536, mv);
            }
            if pos.make(mv) {
                proof {
                    lemma_make_consistent(s0, mv);
                    lemma_make_clocks(s0, mv);
                }
                let n = perft(pos, depth - 1);
                let ghost before = nodes;
                nodes = nodes.wrapping_add(n);
                pos.unmake();
                proof {
                    assert(pos.trail().0 =~= t0.0);
                    assert(pos.trail().1 =~= t0.1);
                    assert(pos.trail().2 =~= t0.2);
                    let a = set_sum(set_i, s0, depth as nat, 65536) as int;
                    let b = perft_count(make_state(s0, mv), (depth - 1) as nat) as int;
                    assert(nodes as int == (before as int + n as int) % 0x1_0000_0000_0000_0000);
                    vstd::arithmetic::div_mod::lemma_add_mod_noop(a, b, 0x1_0000_0000_0000_0000);
                    vstd::arithmetic::div_mod::lemma_mod_twice(a + b, 0x1_0000_0000_0000_0000);
                }
            }
        }
        i += 1;
    }
    proof {
        assert forall|m: Move| #[trigger] legal_move(s0, m) implies listed(list@, list@.len() as int).contains(m) by {
            let k = choose|k: int| 0 <= k < list@.len() && #[trigger] list@[k] == m;
        }
        lemma_set_sum_full(listed(list@, list@.len() as int), s0, depth as nat, 65536);
    }
    nodes
}

proof fn lemma_set_sum_zero(set: Set<Move>, s: PosState, d: nat, n: int)
    requires
        set.is_empty(),
    ensures
        set_sum(set, s, d, n) == 0,
    decreases n,
{
    if n > 0 {
        lemma_set_sum_zero(set, s, d, n - 1);
    }
}

/// The sum of the counts of a divide table.
pub open spec fn count_total(t: Seq<(Move, u64)>) -> int
    decreases t.len(),
{
    if t.len() == 0 {
        0
    } else {
        count_total(t.drop_last()) + t.last().1
    }
}

/// The moves of a divide table.
pub open spec fn table_moves(t: Seq<(Move, u64)>) -> Set<Move> {
    Set::new(|m: Move| exists|k: int| 0 <= k < t.len() && t[k].0 == m)
}

/// Adding `n` to a total that agrees with `s` modulo `m` gives one that
/// agrees with `s + p` when `n` is `p` modulo `m`.
proof fn lemma_add_mod_agree(c: int, s: int, p: int, n: int, m: int)
    requires
        m > 0,
        c % m == s % m,
        n == p % m,
    ensures
        (c + n) % m == (s + p) % m,
{
    vstd::arithmetic::div_mod::lemma_add_mod_noop(c, n, m);
    vstd::arithmetic::div_mod::lemma_add_mod_noop(s, p, m);
    vstd::arithmetic::div_mod::lemma_mod_twice(p, m);
}

/// Whether `mv` is among the first `i` moves of `list`.
fn listed_before(list: &MoveList, i: usize, mv: Move) -> (r: bool)
    requires
        i <= list@.len(),
    ensures
        r == listed(list@, i as int).contains(mv),
{
    let mut j: usize = 0;
    while j < i
        invariant
            j <= i <= list@.len(),
            forall|k: int| 0 <= k < j ==> list@[k] != mv,
        decreases i - j,
    {
        if list.get(j) == mv {
            return true;
        }
        j += 1;
    }
    false
}

/// Perft split by root move: each legal root move with the leaf count below
/// it. Every legal move appears, and only legal moves do.
pub fn divide(pos: &mut Position, depth: u32) -> (out: Vec<(Move, u64)>)
    requires
        old(pos).wf(),
        consistent(old(pos).state()),
        depth >= 1,
        old(pos).state().halfmove + depth < 0xFFFF,
        old(pos).state().fullmove + depth < 0xFFFF,
    ensures
        final(pos).wf(),
        final(pos).same_as(old(pos)),
        forall|k: int|
            0 <= k < out@.len() ==> pseudo_legal(old(pos).state(), (#[trigger] out@[k]).0)
                && legal_after(old(pos).state(), out@[k].0),
        forall|m: Move|
            pseudo_legal(old(pos).state(), m) && legal_after(old(pos).state(), m) ==> exists|k: int|
                0 <= k < out@.len() && (#[trigger] out@[k]).0 == m,
        forall|a: int, b: int| 0 <= a < b < out@.len() ==> (#[trigger] out@[a]).0 != (#[trigger] out@[b]).0,
        forall|k: int|
            0 <= k < out@.len() ==> (#[trigger] out@[k]).1 == perft_count(
                make_state(old(pos).state(), out@[k].0),
                (depth - 1) as nat,
            ) % 0x1_0000_0000_0000_0000,
        count_total(out@) % 0x1_0000_0000_0000_0000 == perft_count(old(pos).state(), depth as nat)
            % 0x1_0000_0000_0000_0000,
{
    let ghost s0 = pos.state();
    let ghost t0 = pos.trail();
    proof {
        pos.lemma_wf_state();
    }
    let mut list = MoveList::new();
    proof {
        lemma_consistent_pawns(s0);
    }
    generate_moves(pos, &mut list);
    let mut out: Vec<(Move, u64)> = Vec::new();
    proof {
        assert(table_moves(out@) =~= Set::<Move>::empty());
        lemma_set_sum_zero(table_moves(out@), s0, depth as nat, 65536);
        assert forall|m: Move| #[trigger] pseudo_legal(s0, m) implies exists|k: int| 0 <= k < list@.len() && #[trigger] list@[k] == m by {
            assert(pseudo_legal_moves(s0)(m));
        }
    }
    let mut i: usize = 0;
    while i < list.len()
        invariant
            pos.wf(),
            pos.state() == s0,
            pos.trail() == t0,
            state_ok(s0),
            consistent(s0),
            s0.halfmove + depth < 0xFFFF,
            s0.fullmove + depth < 0xFFFF,
            depth >= 1,
            i <= list@.len(),
            forall|k: int| 0 <= k < list@.len() ==> pseudo_legal(s0, #[trigger] list@[k]),
            forall|m: Move| #[trigger] pseudo_legal(s0, m) ==> exists|k: int| 0 <= k < list@.len() && #[trigger] list@[k] == m,
            forall|k: int|
                0 <= k < out@.len() ==> pseudo_legal(s0, (#[trigger] out@[k]).0) && legal_after(s0, out@[k].0),
            forall|j: int|
                0 <= j < i && legal_after(s0, #[trigger] list@[j]) ==> exists|k: int| 0 <= k < out@.len() && (#[trigger] out@[k]).0 == list@[j],
            forall|a: int, b: int| 0 <= a < b < out@.len() ==> (#[trigger] out@[a]).0 != (#[trigger] out@[b]).0,
            forall|k: int| 0 <= k < out@.len() ==> listed(list@, i as int).contains((#[trigger] out@[k]).0),
            forall|k: int|
                0 <= k < out@.len() ==> (#[trigger] out@[k]).1 == perft_count(
                    make_state(s0, out@[k].0),
                    (depth - 1) as nat,
                ) % 0x1_0000_0000_0000_0000,
            count_total(out@) % 0x1_0000_0000_0000_0000 == set_sum(table_moves(out@), s0, depth as nat, 65536)
                % 0x1_0000_0000_0000_0000,
        decreases list@.len() - i,
    {
        let mv = list.get(i);
        proof {
            lemma_pseudo_legal_move_ok(s0, mv);
        }
        let ghost before = out@;
        // a move listed twice is reported once
        let seen = listed_before(&list, i, mv);
        if seen {
            proof {
                let j0 = choose|j: int| 0 <= j < i && list@[j] == mv;
                assert forall|j: int|
                    0 <= j < i + 1 && legal_after(s0, #[trigger] list@[j]) implies exists|k: int| 0 <= k < out@.len() && (#[trigger] out@[k]).0 == list@[j] by {
                    if j == i {
                        assert(legal_after(s0, list@[j0]));
                    }
                }
                assert forall|k: int| 0 <= k < out@.len() implies listed(list@, i + 1).contains((#[trigger] out@[k]).0) by {
                    assert(listed(list@, i as int).contains(out@[k].0));
                    let j = choose|j: int| 0 <= j < i && list@[j] == out@[k].0;
                }
            }
        } else if pos.make(mv) {
            proof {
                lemma_make_consistent(s0, mv);
                lemma_make_clocks(s0, mv);
            }
            let n = perft(pos, depth - 1);
            out.push((mv, n));
            pos.unmake();
            proof {
                assert(pos.trail().0 =~= t0.0);
                assert(pos.trail().1 =~= t0.1);
                assert(pos.trail().2 =~= t0.2);
                assert(out@[before.len() as int].0 == mv);
                assert(out@.drop_last() =~= before);
                assert(table_moves(out@) =~= table_moves(before).insert(mv)) by {
                    assert forall|m: Move| table_moves(out@).contains(m) implies table_moves(before).insert(mv).contains(m) by {
                        let k = choose|k: int| 0 <= k < out@.len() && out@[k].0 == m;
                        if k < before.len() {
                            assert(out@[k] == before[k]);
                        }
                    }
                    assert forall|m: Move| table_moves(before).insert(mv).contains(m) implies table_moves(out@).contains(m) by {
                        if m != mv {
                            let k = choose|k: int| 0 <= k < before.len() && before[k].0 == m;
                            assert(out@[k] == before[k]);
                        } else {
                            assert(out@[before.len() as int].0 == mv);
                        }
                    }
                }
                assert(!table_moves(before).contains(mv)) by {
                    if table_moves(before).contains(mv) {
                        let k = choose|k: int| 0 <= k < before.len() && before[k].0 == mv;
                        assert(listed(list@, i as int).contains(before[k].0));
                    }
                }
                lemma_set_sum_insert(table_moves(before), s0, depth as nat, 65536, mv);
                lemma_add_mod_agree(
                    count_total(before),
                    set_sum(table_moves(before), s0, depth as nat, 65536) as int,
                    perft_count(make_state(s0, mv), (depth - 1) as nat) as int,
                    n as int,
                    0x1_0000_0000_0000_0000,
                );
                assert forall|k: int| 0 <= k < out@.len() implies listed(list@, i + 1).contains((#[trigger] out@[k]).0) by {
                    if k < before.len() {
                        assert(out@[k] == before[k]);
                        assert(listed(list@, i as int).contains(before[k].0));
                        let j = choose|j: int| 0 <= j < i && list@[j] == before[k].0;
                    } else {
                        assert(list@[i as int] == mv);
                    }
                }
                assert forall|a: int, b: int| 0 <= a < b < out@.len() implies (#[trigger] out@[a]).0 != (#[trigger] out@[b]).0 by {
                    if b == before.len() {
                        assert(out@[a] == before[a]);
                        assert(listed(list@, i as int).contains(before[a].0));
                    } else {
                        assert(out@[a] == before[a] && out@[b] == before[b]);
                    }
                }
                assert forall|j: int|
                    0 <= j < i + 1 && legal_after(s0, #[trigger] list@[j]) implies exists|k: int| 0 <= k < out@.len() && (#[trigger] out@[k]).0 == list@[j] by {
                    if j < i {
                        let k = choose|k: int| 0 <= k < before.len() && (#[trigger] before[k]).0 == list@[j];
                        assert(out@[k] == before[k]);
                    } else {
                        assert(out@[before.len() as int].0 == list@[j]);
                    }
                }
            }
        }
        i += 1;
    }
    proof {
        assert forall|m: Move|
            pseudo_legal(s0, m) && legal_after(s0, m) implies exists|k: int|
                0 <= k < out@.len() && (#[trigger] out@[k]).0 == m by {
            let j = choose|j: int| 0 <= j < list@.len() && #[trigger] list@[j] == m;
            assert(legal_after(s0, list@[j]));
        }
        assert forall|m: Move| #[trigger] legal_move(s0, m) implies table_moves(out@).contains(m) by {
            let k = choose|k: int| 0 <= k < out@.len() && (#[trigger] out@[k]).0 == m;
        }
        lemma_set_sum_full(table_moves(out@), s0, depth as nat, 65536);
    }
    out
}

} // verus!
