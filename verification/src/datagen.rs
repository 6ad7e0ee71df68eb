//! Self-play opening helpers for training-data generation: a seeded
//! SplitMix64 generator and uniformly random legal moves.
use vstd::prelude::*;
use vstd::wrapping::u64_specs::wrapping_add;

use crate::board::fen::start_state;
use crate::board::makemove::{legal_after, make_state};
use crate::board::movegen::{
    consistent, generate_moves, pseudo_legal, pseudo_legal_moves, lemma_pseudo_legal_move_ok,
    lemma_consistent_pawns, is_consistent, lemma_make_consistent,
};
use crate::board::position::{PosState, Position, state_ok};
use crate::board::zobrist::{mix, GOLDEN, MIX1, MIX2};
use crate::board::{Move, MoveList};

verus! {

/// Seeded SplitMix64.
pub struct Rng(pub u64);

impl Rng {
    pub fn new(seed: u64) -> (r: Rng)
        ensures
            r.0 == seed,
    {
        Rng(seed)
    }

    /// Advances the state by the golden increment and returns its mix.
    pub fn next_u64(&mut self) -> (r: u64)
        ensures
            final(self).0 == wrapping_add(old(self).0, GOLDEN),
            r == mix(final(self).0),
    {
        self.0 = self.0.wrapping_add(GOLDEN);
        let z = self.0;
        let z1 = (z ^ (z >> 30u64)).wrapping_mul(MIX1);
        let z2 = (z1 ^ (z1 >> 27u64)).wrapping_mul(MIX2);
        z2 ^ (z2 >> 31u64)
    }

    /// Uniform in `[0, n)`. `n` must be > 0.
    pub fn below(&mut self, n: usize) -> (r: usize)
        requires
            n > 0,
        ensures
            final(self).0 == wrapping_add(old(self).0, GOLDEN),
            r == mix(final(self).0) % (n as u64),
            r < n,
    {
        let x = self.next_u64();
        (x % (n as u64)) as usize
    }
}

/// A uniformly random legal move of the side to move (pseudo-legal moves
/// filtered by make/unmake), or None when there is none. The position is the
/// same afterwards.
pub fn random_legal_move(pos: &mut Position, rng: &mut Rng) -> (r: Option<Move>)
    requires
        old(pos).wf(),
        consistent(old(pos).state()),
        old(pos).state().halfmove < 0xFFFF,
        old(pos).state().fullmove < 0xFFFF,
    ensures
        final(pos).wf(),
        final(pos).same_as(old(pos)),
        r matches Some(m) ==> pseudo_legal(old(pos).state(), m) && legal_after(old(pos).state(), m),
        r is None ==> forall|m: Move| pseudo_legal(old(pos).state(), m) ==> !legal_after(old(pos).state(), m),
{
    let ghost s0 = pos.state();
    let ghost t0 = pos.trail();
    proof {
        pos.lemma_wf_state();
        lemma_consistent_pawns(s0);
    }
    let mut pseudo = MoveList::new();
    generate_moves(pos, &mut pseudo);
    proof {
        assert forall|k: int| 0 <= k < pseudo@.len() implies pseudo_legal(s0, #[trigger] pseudo@[k]) by {
            assert(pseudo_legal_moves(s0)(pseudo@[k]));
        }
        assert forall|m: Move| #[trigger] pseudo_legal(s0, m) implies exists|k: int| 0 <= k < pseudo@.len() && #[trigger] pseudo@[k] == m by {
            assert(pseudo_legal_moves(s0)(m));
        }
    }
    let mut legal: Vec<Move> = Vec::new();
    let mut i: usize = 0;
    while i < pseudo.len()
        invariant
            i <= pseudo@.len(),
            pos.wf(),
            pos.state() == s0,
            pos.trail() == t0,
            state_ok(s0),
            consistent(s0),
            s0.halfmove < 0xFFFF,
            s0.fullmove < 0xFFFF,
            forall|k: int| 0 <= k < pseudo@.len() ==> pseudo_legal(s0, #[trigger] pseudo@[k]),
            forall|m: Move| #[trigger] pseudo_legal(s0, m) ==> exists|k: int| 0 <= k < pseudo@.len() && #[trigger] pseudo@[k] == m,
            forall|k: int| 0 <= k < legal@.len() ==> pseudo_legal(s0, #[trigger] legal@[k]) && legal_after(s0, legal@[k]),
            forall|j: int| 0 <= j < i && legal_after(s0, #[trigger] pseudo@[j]) ==> legal@.len() > 0,
        decreases pseudo@.len() - i,
    {
        let mv = pseudo.get(i);
        proof {
            lemma_pseudo_legal_move_ok(s0, mv);
        }
        if pos.make(mv) {
            pos.unmake();
            proof {
                assert(pos.trail().0 =~= t0.0);
                assert(pos.trail().1 =~= t0.1);
                assert(pos.trail().2 =~= t0.2);
            }
            legal.push(mv);
        }
        i += 1;
    }
    if legal.len() == 0 {
        proof {
            assert forall|m: Move| pseudo_legal(s0, m) implies !legal_after(s0, m) by {
                let j = choose|j: int| 0 <= j < pseudo@.len() && #[trigger] pseudo@[j] == m;
            }
        }
        None
    } else {
        let k = rng.below(legal.len());
        Some(legal[k])
    }
}

/// `n` legal moves played in turn from `s0` through `states`.
pub open spec fn legal_chain(s0: PosState, states: Seq<PosState>, moves: Seq<Move>, n: int) -> bool {
    &&& n >= 0
    &&& states.len() == n + 1
    &&& moves.len() == n
    &&& states[0] == s0
    &&& forall|k: int|
        0 <= k < n ==> {
            &&& pseudo_legal(states[k], #[trigger] moves[k])
            &&& legal_after(states[k], moves[k])
            &&& states[k + 1] == make_state(states[k], moves[k])
        }
}

/// Some chain of `n` legal moves from `s0` ends in `s`.
pub open spec fn reached(s0: PosState, n: int, s: PosState) -> bool {
    exists|states: Seq<PosState>, moves: Seq<Move>| #[trigger] legal_chain(s0, states, moves, n) && states[n] == s
}

proof fn lemma_chain_step(s0: PosState, states: Seq<PosState>, moves: Seq<Move>, n: int, mv: Move)
    requires
        legal_chain(s0, states, moves, n),
        pseudo_legal(states[n], mv),
        legal_after(states[n], mv),
    ensures
        legal_chain(s0, states.push(make_state(states[n], mv)), moves.push(mv), n + 1),
{
    let ns = states.push(make_state(states[n], mv));
    let nm = moves.push(mv);
    assert forall|k: int| 0 <= k < n + 1 implies {
        &&& pseudo_legal(ns[k], #[trigger] nm[k])
        &&& legal_after(ns[k], nm[k])
        &&& ns[k + 1] == make_state(ns[k], nm[k])
    } by {
        if k < n {
            assert(nm[k] == moves[k]);
            assert(ns[k] == states[k]);
            assert(ns[k + 1] == states[k + 1]);
        }
    }
}

/// Plays `plies` random legal moves from the start position. `None` when
/// a position on the way has no legal move (or a move counter runs out).
pub fn play_random_opening(rng: &mut Rng, plies: usize) -> (r: Option<Position>)
    ensures
        r matches Some(p) ==> p.wf() && consistent(p.state()) && reached(start_state(), plies as int, p.state()),
        r is None ==> !consistent(start_state()) || exists|n: int, s: PosState|
            0 <= n < plies && reached(start_state(), n, s) && (s.halfmove == 0xFFFF || s.fullmove == 0xFFFF
                || forall|m: Move| pseudo_legal(s, m) ==> !legal_after(s, m)),
{
    let mut pos = Position::startpos();
    if !is_consistent(&pos) {
        return None;
    }
    let ghost s0 = pos.state();
    let ghost mut states: Seq<PosState> = seq![s0];
    let ghost mut moves: Seq<Move> = Seq::empty();
    let mut i: usize = 0;
    while i < plies
        invariant
            i <= plies,
            s0 == start_state(),
            pos.wf(),
            consistent(pos.state()),
            legal_chain(s0, states, moves, i as int),
            states[i as int] == pos.state(),
        decreases plies - i,
    {
        let ghost s = pos.state();
        proof {
            assert(reached(s0, i as int, s));
        }
        if pos.halfmove() == 0xFFFF || pos.fullmove() == 0xFFFF {
            return None;
        }
        let mv = match random_legal_move(&mut pos, rng) {
            Some(m) => m,
            None => {
                return None;
            },
        };
        proof {
            pos.lemma_wf_state();
            lemma_pseudo_legal_move_ok(s, mv);
            lemma_make_consistent(s, mv);
            lemma_chain_step(s0, states, moves, i as int, mv);
        }
        let ok = pos.make(mv);
        proof {
            states = states.push(make_state(s, mv));
            moves = moves.push(mv);
        }
        i += 1;
    }
    proof {
        assert(reached(s0, i as int, pos.state()));
    }
    Some(pos)
}

} // verus!
