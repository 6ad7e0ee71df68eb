//! The tuner/engine seam: every evaluation term calls
//! `trace.record(pair_idx, sign)` alongside its parameter use. `NullTracer`
//! keeps nothing at run time; `CollectingTracer` captures the feature vector
//! from the same code that plays.
use vstd::prelude::*;

verus! {

/// Receives one record per parameter use.
pub trait Tracer {
    /// The records received so far, as `(pair index, sign)`.
    spec fn log(&self) -> Seq<(int, int)>;

    fn record(&mut self, pair_idx: usize, sign: i8)
        ensures
            final(self).log() == old(self).log().push((pair_idx as int, sign as int)),
    ;
}

/// Discards every record (only a ghost log remains, for proofs).
pub struct NullTracer {
    seen: Ghost<Seq<(int, int)>>,
}

impl NullTracer {
    pub fn new() -> (t: NullTracer)
        ensures
            t.log() == Seq::<(int, int)>::empty(),
    {
        NullTracer { seen: Ghost(Seq::empty()) }
    }
}

impl Tracer for NullTracer {
    closed spec fn log(&self) -> Seq<(int, int)> {
        self.seen@
    }

    fn record(&mut self, pair_idx: usize, sign: i8) {
        proof {
            self.seen@ = self.seen@.push((pair_idx as int, sign as int));
        }
    }
}

/// Keeps every record as `(pair index, sign)`.
pub struct CollectingTracer {
    pub features: Vec<(u16, i8)>,
    seen: Ghost<Seq<(int, int)>>,
}

impl CollectingTracer {
    /// The records kept so far.
    pub closed spec fn recorded(&self) -> Seq<(u16, i8)> {
        self.features@
    }

    pub fn new() -> (t: CollectingTracer)
        ensures
            t.log() == Seq::<(int, int)>::empty(),
            t.recorded() == Seq::<(u16, i8)>::empty(),
    {
        CollectingTracer { features: Vec::new(), seen: Ghost(Seq::empty()) }
    }
}

impl Default for CollectingTracer {
    fn default() -> (t: CollectingTracer)
        ensures
            t.log() == Seq::<(int, int)>::empty(),
            t.recorded() == Seq::<(u16, i8)>::empty(),
    {
        CollectingTracer::new()
    }
}

impl Tracer for CollectingTracer {
    closed spec fn log(&self) -> Seq<(int, int)> {
        self.seen@
    }

    /// Records `(pair_idx as u16, sign)`.
    fn record(&mut self, pair_idx: usize, sign: i8) {
        self.features.push((pair_idx as u16, sign));
        proof {
            self.seen@ = self.seen@.push((pair_idx as int, sign as int));
        }
    }
}

} // verus!
