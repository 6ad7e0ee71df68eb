//! Static evaluation behind a seam the search drives: a full refresh at the
//! root, incremental hooks after each make and unmake, and a side-to-move
//! relative score.
pub mod hce;
pub mod nnue;
pub mod manifest;
pub mod trace;

use vstd::prelude::*;

use crate::board::movegen::consistent;
use crate::board::{Move, Position};
use crate::search::MATE_BOUND;

verus! {

/// An evaluator the search can drive.
pub trait Evaluator {
    /// The evaluator's own invariant, kept by every call.
    spec fn inv(&self) -> bool;

    /// Full rebuild from the position (search root, new game).
    fn refresh(&mut self, pos: &Position)
        requires
            old(self).inv(),
            pos.wf(),
            consistent(pos.state()),
        ensures
            final(self).inv(),
    ;

    /// Incremental update; called right after `pos.make(mv)`.
    fn on_make(&mut self, mv: Move, pos: &Position)
        requires
            old(self).inv(),
            pos.wf(),
            consistent(pos.state()),
        ensures
            final(self).inv(),
    ;

    /// Incremental downdate; called right after `pos.unmake()`.
    fn on_unmake(&mut self, mv: Move, pos: &Position)
        requires
            old(self).inv(),
            pos.wf(),
            consistent(pos.state()),
        ensures
            final(self).inv(),
    ;

    /// The static score `evaluate` gives for `pos` in this state.
    spec fn static_value(&self, pos: &Position) -> i32;

    /// Static evaluation in centipawns, side-to-move relative. Static
    /// scores stay clear of the mate range, where the search keeps its
    /// mate-distance scores.
    fn evaluate(&mut self, pos: &Position) -> (r: i32)
        requires
            old(self).inv(),
            pos.wf(),
            consistent(pos.state()),
        ensures
            final(self).inv(),
            -MATE_BOUND < r < MATE_BOUND,
            r == old(self).static_value(pos),
    ;
}

} // verus!
