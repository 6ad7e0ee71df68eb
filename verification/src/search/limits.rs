//! `go` parameters and time allocation. Allocation reserves an emergency
//! clock buffer (flag protection), scales the soft deadline by best-move
//! stability (stop early when the PV is settled, spend longer right after it
//! changes), and caps any single move at a third of the usable clock. A
//! `go movetime N` budget is exact: exempt from stability scaling.
use vstd::prelude::*;

use crate::board::Color;

verus! {

/// Clocks above this (ms, about two million years) are not supported: the
/// allocation arithmetic stays within `u64`.
pub const MAX_CLOCK_MS: u64 = 0x0100_0000_0000_0000;

pub struct Limits {
    pub depth: Option<i32>,
    pub nodes: Option<u64>,
    /// Stop at the NEXT depth-iteration boundary once the node count exceeds
    /// this. Unlike `nodes` (a hard mid-search cutoff), this lets the current
    /// iteration finish.
    pub soft_nodes: Option<u64>,
    pub movetime: Option<u64>,
    pub wtime: Option<u64>,
    pub btime: Option<u64>,
    pub winc: Option<u64>,
    pub binc: Option<u64>,
    pub movestogo: Option<u32>,
    pub infinite: bool,
}

impl Default for Limits {
    fn default() -> (l: Limits)
        ensures
            l.depth is None && l.nodes is None && l.soft_nodes is None && l.movetime is None,
            l.wtime is None && l.btime is None && l.winc is None && l.binc is None,
            l.movestogo is None && !l.infinite,
    {
        Limits {
            depth: None,
            nodes: None,
            soft_nodes: None,
            movetime: None,
            wtime: None,
            btime: None,
            winc: None,
            binc: None,
            movestogo: None,
            infinite: false,
        }
    }
}

impl Clone for Limits {
    fn clone(&self) -> (l: Limits)
        ensures
            l == *self,
    {
        Limits {
            depth: self.depth,
            nodes: self.nodes,
            soft_nodes: self.soft_nodes,
            movetime: self.movetime,
            wtime: self.wtime,
            btime: self.btime,
            winc: self.winc,
            binc: self.binc,
            movestogo: self.movestogo,
            infinite: self.infinite,
        }
    }
}

/// Every clock value is below [`MAX_CLOCK_MS`].
pub open spec fn clocks_in_range(l: Limits) -> bool {
    &&& (l.movetime matches Some(t) ==> t < MAX_CLOCK_MS)
    &&& (l.wtime matches Some(t) ==> t < MAX_CLOCK_MS)
    &&& (l.btime matches Some(t) ==> t < MAX_CLOCK_MS)
    &&& (l.winc matches Some(t) ==> t < MAX_CLOCK_MS)
    &&& (l.binc matches Some(t) ==> t < MAX_CLOCK_MS)
}

/// Smallest emergency reserve ever held back (ms): even on a near-flag clock,
/// leave this so a move can physically be transmitted.
pub const RESERVE_MIN_MS: u64 = 50;

pub open spec fn sat_sub(a: int, b: int) -> int {
    if a > b {
        a - b
    } else {
        0
    }
}

pub open spec fn max_of(a: int, b: int) -> int {
    if a >= b {
        a
    } else {
        b
    }
}

pub open spec fn min_of(a: int, b: int) -> int {
    if a <= b {
        a
    } else {
        b
    }
}

pub open spec fn clamp_to(a: int, lo: int, hi: int) -> int {
    max_of(lo, min_of(a, hi))
}

/// Time left after the transmission overhead (at least 1 ms).
pub open spec fn avail_ms(time: int, overhead: int) -> int {
    max_of(sat_sub(time, overhead), 1)
}

/// Emergency buffer never allocated to a move.
pub open spec fn reserve_ms(avail: int) -> int {
    clamp_to(avail / 16, RESERVE_MIN_MS as int, 2000)
}

/// What the game phase may consume: the available time minus the reserve.
pub open spec fn usable_ms(avail: int) -> int {
    max_of(sat_sub(avail, reserve_ms(avail)), 1)
}

/// Per-move base target and one-move ceiling on a clock.
pub open spec fn clock_budget(time: int, inc: int, movestogo: Option<u32>, overhead: int) -> (int, int) {
    let usable = usable_ms(avail_ms(time, overhead));
    let third = max_of(usable / 3, 1);
    let mtg = clamp_to(
        match movestogo {
            Some(m) => m as int,
            None => 30,
        },
        1,
        40,
    );
    let soft = clamp_to(usable / mtg + inc * 3 / 4, 1, third);
    let hard = max_of(min_of(soft * 5, third), soft);
    (soft, hard)
}

/// The (soft, hard) budgets in ms for a search with limits `l`.
pub open spec fn budgets(l: Limits, stm: Color, overhead: int) -> (Option<int>, Option<int>) {
    if l.infinite {
        (None, None)
    } else if l.movetime is Some {
        let t = max_of(sat_sub(l.movetime->0 as int, overhead), 1);
        (Some(t), Some(t))
    } else {
        let (time, inc) = match stm {
            Color::White => (l.wtime, match l.winc {
                Some(i) => i as int,
                None => 0,
            }),
            Color::Black => (l.btime, match l.binc {
                Some(i) => i as int,
                None => 0,
            }),
        };
        match time {
            None => (None, None),
            Some(t) => {
                let (soft, hard) = clock_budget(t as int, inc, l.movestogo, overhead);
                (Some(soft), Some(hard))
            },
        }
    }
}

/// The soft deadline scale (percent) after `stable` repeats of the best move.
pub open spec fn scale_pct(stable: u32, depth: i32) -> u32 {
    if stable == 0 && depth > 1 {
        140
    } else if stable >= 3 {
        60
    } else if stable == 2 {
        80
    } else {
        100
    }
}

/// A clock allocation keeps the reserve, never exceeds a third of the usable
/// time on one move, and puts the soft target at or below the hard ceiling.
pub proof fn lemma_clock_budget_bounds(time: int, inc: int, movestogo: Option<u32>, overhead: int)
    requires
        0 <= time,
        0 <= inc,
        0 <= overhead,
    ensures
        ({
            let (soft, hard) = clock_budget(time, inc, movestogo, overhead);
            let usable = usable_ms(avail_ms(time, overhead));
            &&& 1 <= soft <= hard
            &&& hard <= max_of(usable / 3, 1)
            &&& usable + reserve_ms(avail_ms(time, overhead)) <= max_of(avail_ms(time, overhead), reserve_ms(avail_ms(time, overhead)) + 1)
        }),
{
}

fn max_u64(a: u64, b: u64) -> (r: u64)
    ensures
        r == max_of(a as int, b as int),
{
    if a >= b {
        a
    } else {
        b
    }
}

fn min_u64(a: u64, b: u64) -> (r: u64)
    ensures
        r == min_of(a as int, b as int),
{
    if a <= b {
        a
    } else {
        b
    }
}

/// `v` limited to `lo..=hi` (the bounds must be ordered).
fn clamp_u64(v: u64, lo: u64, hi: u64) -> (r: u64)
    requires
        lo <= hi,
    ensures
        r == clamp_to(v as int, lo as int, hi as int),
{
    max_u64(lo, min_u64(v, hi))
}

#[verifier::external_type_specification]
#[verifier::external_body]
pub struct ExInstant(std::time::Instant);

/// The current instant (std `Instant::now`).
#[verifier::external_body]
pub(crate) fn instant_now() -> (t: std::time::Instant) {
    std::time::Instant::now()
}

/// The time passed since `t` (std `Instant::elapsed`).
#[verifier::external_body]
fn elapsed_since(t: &std::time::Instant) -> (d: core::time::Duration) {
    t.elapsed()
}

/// Whole milliseconds of `d` (std `Duration::as_millis`).
#[verifier::external_body]
fn whole_millis(d: &core::time::Duration) -> (ms: u128) {
    d.as_millis()
}

/// The duration of `ms` milliseconds (std `Duration::from_millis`).
#[verifier::external_body]
fn millis(ms: u64) -> (d: core::time::Duration) {
    core::time::Duration::from_millis(ms)
}

/// `t` moved on by `d`, or `None` when that instant cannot be represented
/// (std `Instant::checked_add`).
#[verifier::external_body]
fn instant_checked_add(t: &std::time::Instant, d: core::time::Duration) -> (r: Option<std::time::Instant>) {
    t.checked_add(d)
}

/// Milliseconds since `t`.
fn millis_since(t: &std::time::Instant) -> u128 {
    let d = elapsed_since(t);
    whole_millis(&d)
}

pub struct TimeManager {
    start: std::time::Instant,
    /// Base soft budget (ms, before stability scaling).
    soft: Option<u64>,
    /// One-move ceiling (ms).
    hard: Option<u64>,
    /// `go movetime N`: soft == hard and no stability scaling.
    exact: bool,
    /// Raw bits of the last reported best move.
    last_best: u16,
    /// Consecutive iterations with the same best move.
    stable_iters: u32,
    /// 100 = base; recomputed by `report_iteration`.
    soft_scale_pct: u32,
}

impl TimeManager {
    #[verifier::type_invariant]
    spec fn inv(self) -> bool {
        &&& (self.soft matches Some(s) ==> s < MAX_CLOCK_MS)
        &&& (self.hard matches Some(h) ==> h < MAX_CLOCK_MS)
        &&& self.soft_scale_pct <= 140
    }

    pub closed spec fn spec_budgets(&self) -> (Option<u64>, Option<u64>) {
        (self.soft, self.hard)
    }

    pub closed spec fn spec_exact(&self) -> bool {
        self.exact
    }

    pub closed spec fn spec_stable(&self) -> u32 {
        self.stable_iters
    }

    pub closed spec fn spec_last_best(&self) -> u16 {
        self.last_best
    }

    pub closed spec fn spec_scale(&self) -> u32 {
        self.soft_scale_pct
    }

    pub fn new(limits: &Limits, stm: Color, overhead_ms: u64) -> (tm: TimeManager)
        requires
            clocks_in_range(*limits),
        ensures
            ({
                let (s, h) = budgets(*limits, stm, overhead_ms as int);
                &&& tm.spec_budgets().0 matches Some(x) ==> s == Some(x as int)
                &&& tm.spec_budgets().0 is None ==> s is None
                &&& tm.spec_budgets().1 matches Some(x) ==> h == Some(x as int)
                &&& tm.spec_budgets().1 is None ==> h is None
            }),
            tm.spec_exact() == (!limits.infinite && limits.movetime is Some),
            tm.spec_stable() == 0,
            tm.spec_last_best() == 0,
            tm.spec_scale() == 100,
    {
        let start = instant_now();
        // movetime is the only exact-budget path (soft == hard, no scaling).
        let exact = !limits.infinite && limits.movetime.is_some();
        let (soft, hard): (Option<u64>, Option<u64>) = if limits.infinite {
            (None, None)
        } else if let Some(mt) = limits.movetime {
            let t = max_u64(mt.saturating_sub(overhead_ms), 1);
            (Some(t), Some(t))
        } else {
            let (time, inc) = match stm {
                Color::White => (limits.wtime, limits.winc.unwrap_or(0)),
                Color::Black => (limits.btime, limits.binc.unwrap_or(0)),
            };
            match time {
                None => (None, None),  // depth/nodes-only searches
                Some(time) => {
                    let avail = max_u64(time.saturating_sub(overhead_ms), 1);
                    let reserve = clamp_u64(avail / 16, RESERVE_MIN_MS, 2_000);
                    let usable = max_u64(avail.saturating_sub(reserve), 1);
                    // the hard cap; floored at 1 so the clamp bounds never invert
                    let third = max_u64(usable / 3, 1);
                    let mtg = clamp_u64(limits.movestogo.unwrap_or(30) as u64, 1, 40);
                    let soft = clamp_u64(usable / mtg + inc * 3 / 4, 1, third);
                    let hard = max_u64(min_u64(soft * 5, third), soft);
                    (Some(soft), Some(hard))
                },
            }
        };
        TimeManager {
            start,
            soft,
            hard,
            exact,
            last_best: 0,
            stable_iters: 0,
            soft_scale_pct: 100,
        }
    }

    /// Report a completed iteration: a repeat of the previous best move grows
    /// the stability count, a change resets it. The resulting scale shrinks
    /// the soft deadline for a settled PV and extends it on the iteration
    /// right after the best move changes. The score is not used.
    pub fn report_iteration(&mut self, depth: i32, score_cp: i32, best_key: u16)
        requires
            old(self).spec_stable() < u32::MAX,
        ensures
            final(self).spec_budgets() == old(self).spec_budgets(),
            final(self).spec_exact() == old(self).spec_exact(),
            final(self).spec_stable() == if best_key == old(self).spec_last_best() {
                old(self).spec_stable() + 1
            } else {
                0
            },
            final(self).spec_last_best() == best_key,
            final(self).spec_scale() == scale_pct(final(self).spec_stable(), depth),
    {
        proof {
            use_type_invariant(&*self);
        }
        if best_key == self.last_best {
            self.stable_iters = self.stable_iters + 1;
        } else {
            self.stable_iters = 0;
            self.last_best = best_key;
        }
        // 140 takes precedence: right after a change the search is still
        // discovering — spend longer. Otherwise scale by how settled the PV is.
        self.soft_scale_pct = if self.stable_iters == 0 && depth > 1 {
            140
        } else if self.stable_iters >= 3 {
            60
        } else if self.stable_iters == 2 {
            80
        } else {
            100
        };
    }

    /// Stability-scaled soft deadline (ms), never above the hard ceiling;
    /// exact budgets are returned unscaled. None without a clock.
    pub fn effective_soft_ms(&self) -> (r: Option<u64>)
        ensures
            self.spec_budgets().0 is None ==> r is None,
            self.spec_budgets().0 matches Some(s) ==> r == Some(
                if self.spec_exact() {
                    s
                } else {
                    match self.spec_budgets().1 {
                        Some(h) => min_of(s * self.spec_scale() / 100, h as int) as u64,
                        None => (s * self.spec_scale() / 100) as u64,
                    }
                },
            ),
    {
        proof {
            use_type_invariant(self);
        }
        let soft = match self.soft {
            Some(s) => s,
            None => {
                return None;
            },
        };
        if self.exact {
            return Some(soft);
        }
        let pct = self.soft_scale_pct as u64;
        assert((soft as int) * (pct as int) <= (MAX_CLOCK_MS as int) * 140) by (nonlinear_arith)
            requires
                soft < MAX_CLOCK_MS,
                pct <= 140,
        ;
        let scaled = soft * pct / 100;
        // never let the (possibly extended) soft outrun the hard ceiling
        let capped = match self.hard {
            Some(h) => min_u64(scaled, h),
            None => scaled,
        };
        Some(capped)
    }

    /// Absolute instant for the in-search abort poll (None = no time control).
    pub fn hard_deadline(&self) -> (r: Option<std::time::Instant>)
        ensures
            r is Some ==> self.spec_budgets().1 is Some,
            self.spec_budgets().1 is None ==> r is None,
    {
        match self.hard {
            Some(h) => instant_checked_add(&self.start, millis(h)),
            None => None,
        }
    }

    /// Checked between iterations: don't start another depth past the
    /// stability-scaled soft deadline.
    pub fn past_soft(&self) -> (r: bool)
        ensures
            self.spec_budgets().0 is None ==> !r,
            exists|e: u128| r == #[trigger] self.soft_passed(e),
    {
        let e = millis_since(&self.start);
        self.past_soft_at(e)
    }

    /// Whether `elapsed_ms` is past the stability-scaled soft budget.
    pub open spec fn soft_passed(&self, elapsed_ms: u128) -> bool {
        match self.spec_effective_soft() {
            Some(s) => elapsed_ms >= s,
            None => false,
        }
    }

    /// The stability-scaled soft budget (see `effective_soft_ms`).
    pub open spec fn spec_effective_soft(&self) -> Option<u64> {
        match self.spec_budgets().0 {
            None => None,
            Some(s) => Some(
                if self.spec_exact() {
                    s
                } else {
                    match self.spec_budgets().1 {
                        Some(h) => min_of(s * self.spec_scale() / 100, h as int) as u64,
                        None => (s * self.spec_scale() / 100) as u64,
                    }
                },
            ),
        }
    }

    /// The soft-deadline decision for a given elapsed time: past the
    /// stability-scaled soft budget; never without a soft budget.
    pub fn past_soft_at(&self, elapsed_ms: u128) -> (r: bool)
        ensures
            r == self.soft_passed(elapsed_ms),
    {
        match self.effective_soft_ms() {
            Some(s) => elapsed_ms >= s as u128,
            None => false,
        }
    }

    pub fn elapsed_ms(&self) -> u128 {
        millis_since(&self.start)
    }

    /// (base soft, hard) in ms: the allocation, not the stability scaling.
    pub fn budgets_ms(&self) -> (r: (Option<u64>, Option<u64>))
        ensures
            r == self.spec_budgets(),
    {
        (self.soft, self.hard)
    }
}

} // verus!
