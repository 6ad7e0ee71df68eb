//! Transposition table: clusters of three entries (a 64-bit data word plus a
//! 16-bit key fragment each), depth-preferred replacement with 6-bit
//! generation aging, and mate-score ply adjustment.
use vstd::prelude::*;

use crate::board::Move;
use crate::search::MATE_BOUND;

verus! {

/// Sentinel for "no static eval stored".
pub const EVAL_NONE: i32 = -32768;

/// Largest ply a probe or store may be made from.
pub const MAX_TT_PLY: usize = 1_000_000;

#[derive(Clone, Copy, PartialEq, Eq, Debug, Structural)]
pub enum Bound {
    /// The stored score is exact.
    Exact,
    /// Fail-high: the real score is at least the stored one.
    Lower,
    /// Fail-low: the real score is at most the stored one.
    Upper,
}

pub open spec fn bound_code(b: Bound) -> u64 {
    match b {
        Bound::Exact => 1,
        Bound::Lower => 2,
        Bound::Upper => 3,
    }
}

#[derive(Clone, Copy)]
pub struct TtHit {
    pub mv: Move,
    pub score: i32,
    pub eval: i32,
    pub depth: i32,
    pub bound: Bound,
}

/// Three entries: packed data words and their key fragments.
#[derive(Clone, Copy)]
pub struct Cluster {
    pub(crate) data: [u64; 3],
    pub(crate) keys: [u16; 3],
}

/// The contents of a cluster.
pub ghost struct Slots {
    pub data: Seq<u64>,
    pub keys: Seq<u16>,
}

impl Cluster {
    pub open(crate) spec fn view(&self) -> Slots {
        Slots { data: self.data@, keys: self.keys@ }
    }
}

/// Data word layout: [0..16) move | [16..32) score (i16) | [32..48) eval (i16)
/// | [48..56) depth | [56..62) generation | [62..64) bound (0 = empty).
pub open spec fn word_move(d: u64) -> u16 {
    (d & 0xFFFF) as u16
}

pub open spec fn word_score(d: u64) -> u16 {
    ((d >> 16u64) & 0xFFFF) as u16
}

pub open spec fn word_eval(d: u64) -> u16 {
    ((d >> 32u64) & 0xFFFF) as u16
}

pub open spec fn word_depth(d: u64) -> u64 {
    (d >> 48u64) & 0xFF
}

pub open spec fn word_gen(d: u64) -> u64 {
    (d >> 56u64) & 0x3F
}

pub open spec fn word_bound(d: u64) -> u64 {
    d >> 62u64
}

/// The stored form of a score at distance `ply` from the root: mate scores
/// are made relative to the node, then clamped to the `i16` range.
pub open spec fn score_to_tt(score: int, ply: int) -> int {
    let s = if score >= MATE_BOUND {
        score + ply
    } else if score <= -MATE_BOUND {
        score - ply
    } else {
        score
    };
    if s < -32767 {
        -32767
    } else if s > 32767 {
        32767
    } else {
        s
    }
}

/// The score a stored value stands for when probed `ply` from the root.
pub open spec fn score_from_tt(s: int, ply: int) -> int {
    if s >= MATE_BOUND {
        s - ply
    } else if s <= -MATE_BOUND {
        s + ply
    } else {
        s
    }
}

/// Two's-complement reading of a 16-bit field.
pub open spec fn signed16(x: u16) -> int {
    if x < 0x8000 {
        x as int
    } else {
        x as int - 0x10000
    }
}

/// The bound a data word records, if the slot is in use.
pub open spec fn bound_of(d: u64) -> Option<Bound> {
    let c = word_bound(d);
    if c == 1 {
        Some(Bound::Exact)
    } else if c == 2 {
        Some(Bound::Lower)
    } else if c == 3 {
        Some(Bound::Upper)
    } else {
        None
    }
}

/// Slot `i` of the cluster holds an entry for fragment `f`.
pub open spec fn slot_matches(c: Slots, i: int, f: u16) -> bool {
    c.keys[i] == f && bound_of(c.data[i]) is Some
}

/// The first slot holding an entry for fragment `f`.
pub open spec fn first_match(c: Slots, f: u16) -> Option<int> {
    if slot_matches(c, 0, f) {
        Some(0)
    } else if slot_matches(c, 1, f) {
        Some(1)
    } else if slot_matches(c, 2, f) {
        Some(2)
    } else {
        None
    }
}

/// The hit a data word gives when probed `ply` from the root: raw move,
/// score, static eval, depth and bound.
pub open spec fn hit_of(d: u64, ply: int) -> (u16, int, int, int, Bound) {
    (
        word_move(d),
        score_from_tt(signed16(word_score(d)), ply),
        signed16(word_eval(d)),
        word_depth(d) as int,
        bound_of(d)->0,
    )
}

/// The mulhi cluster index of `key` in a table of `n` clusters.
pub open spec fn cluster_index(key: u64, n: int) -> int {
    (key as int * n) / 0x1_0000_0000_0000_0000
}

pub open spec fn fragment(key: u64) -> u16 {
    (key % 0x10000) as u16
}

/// Replacement quality of an occupied slot: depth minus four per generation
/// of age.
pub open spec fn quality(d: u64, generation: int) -> int {
    word_depth(d) as int - 4 * ((generation - word_gen(d) as int) % 64)
}

/// The slot `store` overwrites: the same key if present, else the first
/// empty slot, else the lowest quality (first among equals).
pub open spec fn victim_after(c: Slots, f: u16, generation: int, n: int, victim: int, vq: int) -> (
    int,
    int,
)
    decreases 3 - n,
{
    if n >= 3 || n < 0 {
        (victim, vq)
    } else {
        let d = c.data[n];
        if c.keys[n] == f && word_bound(d) != 0 {
            (n, vq)
        } else if word_bound(d) == 0 {
            if vq > i32::MIN + 1 {
                victim_after(c, f, generation, n + 1, n, i32::MIN + 1)
            } else {
                victim_after(c, f, generation, n + 1, victim, vq)
            }
        } else if quality(d, generation) < vq {
            victim_after(c, f, generation, n + 1, n, quality(d, generation))
        } else {
            victim_after(c, f, generation, n + 1, victim, vq)
        }
    }
}

pub open spec fn victim_slot(c: Slots, f: u16, generation: int) -> int {
    victim_after(c, f, generation, 0, 0, i32::MAX as int).0
}

/// No slot before `n` holds an entry for fragment `f`.
pub open spec fn none_before(c: Slots, f: u16, n: int) -> bool {
    forall|j: int| 0 <= j < n ==> !(c.keys[j] == f && word_bound(c.data[j]) != 0)
}

proof fn lemma_victim_after(c: Slots, f: u16, generation: int, n: int, victim: int, vq: int)
    requires
        0 <= n <= 3,
        0 <= victim < 3,
        none_before(c, f, n),
    ensures
        0 <= victim_after(c, f, generation, n, victim, vq).0 < 3,
        none_before(c, f, victim_after(c, f, generation, n, victim, vq).0),
    decreases 3 - n,
{
    if n < 3 {
        let d = c.data[n];
        if c.keys[n] == f && word_bound(d) != 0 {
        } else {
            assert(none_before(c, f, n + 1));
            if word_bound(d) == 0 {
                if vq > i32::MIN + 1 {
                    lemma_victim_after(c, f, generation, n + 1, n, i32::MIN + 1);
                } else {
                    lemma_victim_after(c, f, generation, n + 1, victim, vq);
                }
            } else if quality(d, generation) < vq {
                lemma_victim_after(c, f, generation, n + 1, n, quality(d, generation));
            } else {
                lemma_victim_after(c, f, generation, n + 1, victim, vq);
            }
        }
    }
}

/// The cluster after storing data word `d` for fragment `f`.
pub open spec fn stored_cluster(c: Slots, f: u16, generation: int, d: u64) -> Slots {
    let v = victim_slot(c, f, generation);
    Slots { data: c.data.update(v, d), keys: c.keys.update(v, f) }
}

/// Storing an entry makes it the first entry found for its fragment.
pub proof fn lemma_stored_found(c: Slots, f: u16, generation: int, d: u64)
    requires
        c.data.len() == 3,
        c.keys.len() == 3,
        1 <= word_bound(d) <= 3,
    ensures
        first_match(stored_cluster(c, f, generation, d), f) == Some(victim_slot(c, f, generation)),
        stored_cluster(c, f, generation, d).data[victim_slot(c, f, generation)] == d,
{
    lemma_victim_after(c, f, generation, 0, 0, i32::MAX as int);
    let v = victim_slot(c, f, generation);
    let n = stored_cluster(c, f, generation, d);
    assert(bound_of(d) is Some);
    assert(slot_matches(n, v, f));
    if v > 0 {
        assert(c.keys[0] == n.keys[0] && c.data[0] == n.data[0]);
        assert(!slot_matches(n, 0, f));
    }
    if v > 1 {
        assert(c.keys[1] == n.keys[1] && c.data[1] == n.data[1]);
        assert(!slot_matches(n, 1, f));
    }
}

/// Each field of a packed data word reads back as written.
proof fn lemma_pack(a: u16, s: u16, e: u16, d: u8, g: u8, b: u64)
    by (bit_vector)
    requires
        g < 64,
        b < 4,
    ensures
        ({
            let w = (a as u64) | ((s as u64) << 16u64) | ((e as u64) << 32u64) | ((d as u64) << 48u64)
                | ((g as u64) << 56u64) | (b << 62u64);
            &&& (w & 0xFFFF) as u16 == a
            &&& ((w >> 16u64) & 0xFFFF) as u16 == s
            &&& ((w >> 32u64) & 0xFFFF) as u16 == e
            &&& (w >> 48u64) & 0xFF == d as u64
            &&& (w >> 56u64) & 0x3F == g as u64
            &&& w >> 62u64 == b
        }),
{
}

/// The bound field holds one of four codes.
proof fn lemma_bound_field(w: u64)
    by (bit_vector)
    ensures
        w >> 62u64 <= 3,
        (w >> 48u64) & 0xFF <= 255,
        (w >> 56u64) & 0x3F < 64,
{
}

/// `v` clamped to the `i16` range, as the eval field stores it.
pub open spec fn clamp16(v: int) -> int {
    if v < -32768 {
        -32768
    } else if v > 32767 {
        32767
    } else {
        v
    }
}

pub open spec fn clamp_depth(v: int) -> int {
    if v < 0 {
        0
    } else if v > 255 {
        255
    } else {
        v
    }
}

/// `w` is the data word `store` writes for these arguments.
pub open spec fn stored_word(
    w: u64,
    mv: Move,
    score: int,
    eval: int,
    depth: int,
    generation: int,
    bound: Bound,
    ply: int,
) -> bool {
    &&& word_move(w) == mv@
    &&& signed16(word_score(w)) == score_to_tt(score, ply)
    &&& signed16(word_eval(w)) == clamp16(eval)
    &&& word_depth(w) == clamp_depth(depth)
    &&& word_gen(w) == generation % 64
    &&& word_bound(w) == bound_code(bound)
}

/// What a probe `ply2` from the root finds right after a store `ply` from the
/// root: the stored move, bound and clamped depth and eval, and the score
/// made node-relative and back.
pub proof fn lemma_store_then_probe(
    c: Slots,
    f: u16,
    generation: int,
    w: u64,
    mv: Move,
    score: int,
    eval: int,
    depth: int,
    bound: Bound,
    ply: int,
    ply2: int,
)
    requires
        c.data.len() == 3,
        c.keys.len() == 3,
        stored_word(w, mv, score, eval, depth, generation, bound, ply),
    ensures
        first_match(stored_cluster(c, f, generation, w), f) matches Some(i) && hit_of(
            stored_cluster(c, f, generation, w).data[i],
            ply2,
        ) == (mv@, score_from_tt(score_to_tt(score, ply), ply2), clamp16(eval), clamp_depth(depth), bound),
{
    lemma_stored_found(c, f, generation, w);
}

/// Non-mate scores are stored unchanged; a mate score stored `ply` from the
/// root and probed `ply2` from it moves by the difference in distance.
pub proof fn lemma_score_round_trip(score: int, ply: int, ply2: int)
    requires
        0 <= ply,
        0 <= ply2,
        -32767 <= score <= 32767,
    ensures
        -MATE_BOUND < score < MATE_BOUND ==> score_from_tt(score_to_tt(score, ply), ply2) == score,
        MATE_BOUND <= score && score + ply <= 32767 ==> score_from_tt(score_to_tt(score, ply), ply2)
            == score + ply - ply2,
        score <= -MATE_BOUND && score - ply >= -32767 ==> score_from_tt(score_to_tt(score, ply), ply2)
            == score - ply + ply2,
{
}

/// An occupied slot's stored score is not `i16::MIN` (stored scores are
/// clamped to ±32767).
pub open spec fn slot_bounded(d: u64) -> bool {
    bound_of(d) is Some ==> -32767 <= signed16(word_score(d))
}

/// Every slot of the cluster is bounded.
pub open spec fn slots_bounded(c: Slots) -> bool {
    forall|j: int| 0 <= j < 3 ==> #[trigger] slot_bounded(c.data[j])
}

/// The contents of an unused cluster.
pub open spec fn empty_slots() -> Slots {
    Slots { data: seq![0u64, 0u64, 0u64], keys: seq![0u16, 0u16, 0u16] }
}

/// An empty cluster holds no entry for any fragment.
pub proof fn lemma_empty_misses(f: u16)
    ensures
        first_match(empty_slots(), f) is None,
{
    assert(0u64 >> 62u64 == 0u64) by (bit_vector);
}

pub struct Tt {
    pub(crate) clusters: Vec<Cluster>,
    generation: u8,
}

fn pack(mv: Move, score: u16, eval: u16, depth: u8, generation: u8, bound: Bound) -> (w: u64)
    requires
        generation < 64,
    ensures
        word_move(w) == mv@,
        word_score(w) == score,
        word_eval(w) == eval,
        word_depth(w) == depth,
        word_gen(w) == generation,
        word_bound(w) == bound_code(bound),
{
    let b: u64 = match bound {
        Bound::Exact => 1,
        Bound::Lower => 2,
        Bound::Upper => 3,
    };
    let a = mv.raw();
    proof {
        lemma_pack(a, score, eval, depth, generation, b);
    }
    (a as u64) | ((score as u64) << 16u64) | ((eval as u64) << 32u64) | ((depth as u64) << 48u64)
        | ((generation as u64) << 56u64) | (b << 62u64)
}

/// Two's-complement encoding of a value in the `i16` range.
fn to_u16(v: i32) -> (x: u16)
    requires
        -32768 <= v <= 32767,
    ensures
        signed16(x) == v,
{
    if v < 0 {
        (v + 65536) as u16
    } else {
        v as u16
    }
}

fn from_u16(x: u16) -> (v: i32)
    ensures
        v == signed16(x),
{
    if x < 0x8000 {
        x as i32
    } else {
        x as i32 - 65536
    }
}

impl Tt {
    pub closed spec fn len(&self) -> nat {
        self.clusters@.len()
    }

    /// The contents of the cluster `key` maps to.
    pub closed spec fn slots(&self, key: u64) -> Slots {
        self.clusters@[cluster_index(key, self.clusters@.len() as int)]@
    }

    /// Contents of every cluster.
    pub closed spec fn contents(&self) -> Seq<Slots> {
        self.clusters@.map_values(|c: Cluster| c@)
    }

    /// The slots a key reads are those of its cluster in `contents()`, and
    /// that cluster lies inside the table.
    pub proof fn lemma_slots(&self, key: u64)
        requires
            self.len() > 0,
        ensures
            0 <= cluster_index(key, self.len() as int) < self.len(),
            self.contents().len() == self.len(),
            self.slots(key) == self.contents()[cluster_index(key, self.len() as int)],
    {
        let n = self.len() as int;
        let k = key as int;
        assert(0 <= k * n && k * n < 0x1_0000_0000_0000_0000 * n) by (nonlinear_arith)
            requires
                0 <= k < 0x1_0000_0000_0000_0000,
                n > 0,
        ;
        assert(0 <= (k * n) / 0x1_0000_0000_0000_0000 < n) by (nonlinear_arith)
            requires
                0 <= k * n < 0x1_0000_0000_0000_0000 * n,
                n > 0,
        ;
    }

    /// Every stored score lies within ±32767.
    pub closed spec fn scores_bounded(&self) -> bool {
        forall|i: int| 0 <= i < self.clusters@.len() ==> #[trigger] slots_bounded(self.clusters@[i]@)
    }

    pub closed spec fn spec_generation(&self) -> u8 {
        self.generation
    }

    /// Every cluster holds three slots.
    pub proof fn lemma_slot_counts(&self, key: u64)
        requires
            self.len() > 0,
        ensures
            self.slots(key).data.len() == 3,
            self.slots(key).keys.len() == 3,
    {
        self.lemma_slots(key);
    }

    /// A probe of `key` after a store of `key` (the change `store` states)
    /// finds the stored move, depth, bound and clamped eval, and the score
    /// stored at `ply` re-based to the probing ply `ply2`.
    pub proof fn lemma_probe_after_store(
        before: Tt,
        after: Tt,
        key: u64,
        mv: Move,
        score: int,
        eval: int,
        depth: int,
        bound: Bound,
        ply: int,
        ply2: int,
    )
        requires
            before.len() > 0,
            after.len() == before.len(),
            exists|w: u64|
                stored_word(w, mv, score, eval, depth, before.spec_generation() as int, bound, ply)
                && #[trigger] after.contents() == before.contents().update(
                    cluster_index(key, before.len() as int),
                    stored_cluster(before.slots(key), fragment(key), (before.spec_generation() % 64) as int, w),
                ),
        ensures
            first_match(after.slots(key), fragment(key)) matches Some(i) && hit_of(after.slots(key).data[i], ply2)
                == (mv@, score_from_tt(score_to_tt(score, ply), ply2), clamp16(eval), clamp_depth(depth), bound),
    {
        let w = choose|w: u64|
            stored_word(w, mv, score, eval, depth, before.spec_generation() as int, bound, ply)
                && #[trigger] after.contents() == before.contents().update(
                cluster_index(key, before.len() as int),
                stored_cluster(before.slots(key), fragment(key), (before.spec_generation() % 64) as int, w),
            );
        before.lemma_slots(key);
        after.lemma_slots(key);
        before.lemma_slot_counts(key);
        let g = (before.spec_generation() % 64) as int;
        assert(stored_word(w, mv, score, eval, depth, g, bound, ply)) by {
            assert(stored_word(w, mv, score, eval, depth, before.spec_generation() as int, bound, ply));
        }
        lemma_store_then_probe(before.slots(key), fragment(key), g, w, mv, score, eval, depth, bound, ply, ply2);
    }

    /// A table of `mb` megabytes of 32-byte clusters (at least one megabyte).
    pub fn new(mb: usize) -> (tt: Tt)
        requires
            mb <= usize::MAX / 0x100000,
        ensures
            tt.len() == (if mb < 1 { 1 } else { mb as int }) * 0x100000 / 32,
            tt.len() > 0,
            forall|i: int| 0 <= i < tt.len() ==> #[trigger] tt.contents()[i] == empty_slots(),
            tt.spec_generation() == 0,
            tt.scores_bounded(),
    {
        let m = if mb < 1 {
            1
        } else {
            mb
        };
        let n = (m * 0x100000) / 32;
        let mut v: Vec<Cluster> = Vec::new();
        let mut i: usize = 0;
        while i < n
            invariant
                i <= n,
                v.len() == i,
                forall|j: int| 0 <= j < i ==> (#[trigger] v@[j]).data@ == seq![0u64, 0u64, 0u64] && v@[j].keys@ == seq![0u16, 0u16, 0u16],
            decreases n - i,
        {
            let c = Cluster { data: [0, 0, 0], keys: [0, 0, 0] };
            proof {
                assert(c.data@ =~= seq![0u64, 0u64, 0u64]);
                assert(c.keys@ =~= seq![0u16, 0u16, 0u16]);
            }
            v.push(c);
            i += 1;
        }
        let tt = Tt { clusters: v, generation: 0 };
        proof {
            assert forall|i: int| 0 <= i < tt.len() implies #[trigger] tt.contents()[i] == empty_slots() by {
                assert(tt.contents()[i] == tt.clusters@[i]@);
            }
            assert forall|i: int| 0 <= i < tt.clusters@.len() implies #[trigger] slots_bounded(tt.clusters@[i]@) by {
                assert forall|j: int| 0 <= j < 3 implies #[trigger] slot_bounded(tt.clusters@[i]@.data[j]) by {
                    lemma_bound_field(0u64);
                    assert(tt.clusters@[i]@.data[j] == 0u64);
                    assert((0u64 >> 62u64) == 0) by (bit_vector);
                }
            }
        }
        tt
    }

    /// Number of clusters in the table.
    pub fn cluster_count(&self) -> (n: usize)
        ensures
            n == self.len(),
    {
        self.clusters.len()
    }

    /// Bump the search generation (once per search).
    pub fn new_search(&mut self)
        ensures
            final(self).contents() == old(self).contents(),
            final(self).len() == old(self).len(),
            final(self).spec_generation() == (old(self).spec_generation() + 1) % 256,
            final(self).scores_bounded() == old(self).scores_bounded(),
    {
        self.generation = self.generation.wrapping_add(1);
        assert(self.clusters@ == old(self).clusters@);
    }

    /// Empties every slot and resets the generation.
    pub fn clear(&mut self)
        requires
            old(self).len() > 0,
        ensures
            final(self).len() == old(self).len(),
            forall|i: int| 0 <= i < final(self).len() ==> #[trigger] final(self).contents()[i] == empty_slots(),
            final(self).spec_generation() == 0,
            final(self).scores_bounded(),
    {
        let n = self.clusters.len();
        let mut i: usize = 0;
        while i < n
            invariant
                i <= n,
                n == self.clusters.len(),
                n > 0,
                forall|j: int| 0 <= j < i ==> (#[trigger] self.clusters@[j]).data@ == seq![0u64, 0u64, 0u64] && self.clusters@[j].keys@ == seq![0u16, 0u16, 0u16],
            decreases n - i,
        {
            let c = Cluster { data: [0, 0, 0], keys: [0, 0, 0] };
            proof {
                assert(c.data@ =~= seq![0u64, 0u64, 0u64]);
                assert(c.keys@ =~= seq![0u16, 0u16, 0u16]);
            }
            self.clusters.set(i, c);
            i += 1;
        }
        self.generation = 0;
        proof {
            assert forall|i: int| 0 <= i < self.len() implies #[trigger] self.contents()[i] == empty_slots() by {
                assert(self.contents()[i] == self.clusters@[i]@);
            }
            assert forall|i: int| 0 <= i < self.clusters@.len() implies #[trigger] slots_bounded(self.clusters@[i]@) by {
                assert forall|j: int| 0 <= j < 3 implies #[trigger] slot_bounded(self.clusters@[i]@.data[j]) by {
                    assert(self.clusters@[i]@.data[j] == 0u64);
                    assert((0u64 >> 62u64) == 0) by (bit_vector);
                }
            }
        }
    }

    /// The cluster for `key`: the high bits of `key * len` (multiply-high
    /// maps the full key range uniformly onto clusters).
    fn index(&self, key: u64) -> (i: usize)
        requires
            self.len() > 0,
        ensures
            i == cluster_index(key, self.clusters@.len() as int),
            i < self.clusters@.len(),
    {
        let n = self.clusters.len();
        assert((key as int) * (n as int) < 0x1_0000_0000_0000_0000 * (n as int)) by (nonlinear_arith)
            requires
                key < 0x1_0000_0000_0000_0000,
                n > 0,
        ;
        assert((n as int) * 0x1_0000_0000_0000_0000 <= 0x1_0000_0000_0000_0000 * 0x1_0000_0000_0000_0000) by (nonlinear_arith)
            requires
                n < 0x1_0000_0000_0000_0000,
        ;
        let x: u128 = (key as u128) * (n as u128);
        assert(x >> 64u128 == x / 0x1_0000_0000_0000_0000u128) by (bit_vector);
        assert(x / 0x1_0000_0000_0000_0000u128 < n) by (nonlinear_arith)
            requires
                x < 0x1_0000_0000_0000_0000 * (n as int),
        ;
        (x >> 64u128) as usize
    }

    /// The entry stored for `key`, if any: the first slot of its cluster whose
    /// fragment (the key's low 16 bits) matches and which is in use.
    pub fn probe(&self, key: u64, ply: usize) -> (r: Option<TtHit>)
        requires
            self.len() > 0,
            ply <= MAX_TT_PLY,
        ensures
            match first_match(self.slots(key), fragment(key)) {
                None => r is None,
                Some(i) => r matches Some(h) && (h.mv@, h.score as int, h.eval as int, h.depth as int, h.bound)
                    == hit_of(self.slots(key).data[i], ply as int),
            },
            r matches Some(h) ==> 0 <= h.depth <= 255 && -32768 <= h.eval <= 32767,
            self.scores_bounded() && ply <= 1000 ==> (r matches Some(h) ==> -32767 <= h.score <= 32767),
    {
        let idx = self.index(key);
        let cluster = &self.clusters[idx];
        let frag = (key % 0x10000) as u16;
        proof {
            if self.scores_bounded() {
                assert(slots_bounded(self.clusters@[idx as int]@));
            }
        }
        let mut i: usize = 0;
        while i < 3
            invariant
                i <= 3,
                cluster@ == self.slots(key),
                frag == fragment(key),
                ply <= MAX_TT_PLY,
                self.scores_bounded() ==> slots_bounded(cluster@),
                forall|j: int| 0 <= j < i ==> !#[trigger] slot_matches(cluster@, j, frag),
            decreases 3 - i,
        {
            if cluster.keys[i] == frag {
                let d = cluster.data[i];
                proof {
                    lemma_bound_field(d);
                }
                let code = d >> 62u64;
                let bound = if code == 1 {
                    Some(Bound::Exact)
                } else if code == 2 {
                    Some(Bound::Lower)
                } else if code == 3 {
                    Some(Bound::Upper)
                } else {
                    None  // empty slot whose fragment coincidentally matched
                };
                if let Some(b) = bound {
                    proof {
                        assert(bound_of(cluster@.data[i as int]) is Some);
                        if self.scores_bounded() {
                            assert(slot_bounded(cluster@.data[i as int]));
                        }
                    }
                    let s = from_u16(((d >> 16u64) & 0xFFFF) as u16);
                    let score = if s >= MATE_BOUND {
                        s - ply as i32
                    } else if s <= -MATE_BOUND {
                        s + ply as i32
                    } else {
                        s
                    };
                    let hit = TtHit {
                        mv: Move::from_raw((d & 0xFFFF) as u16),
                        score,
                        eval: from_u16(((d >> 32u64) & 0xFFFF) as u16),
                        depth: ((d >> 48u64) & 0xFF) as i32,
                        bound: b,
                    };
                    return Some(hit);
                }
            }
            i += 1;
        }
        None
    }

    /// Stores an entry: same key > empty > lowest quality (depth - 4*age).
    pub fn store(
        &mut self,
        key: u64,
        mv: Move,
        score: i32,
        eval: i32,
        depth: i32,
        bound: Bound,
        ply: usize,
    )
        requires
            old(self).len() > 0,
            ply <= MAX_TT_PLY,
            -1_000_000_000 <= score <= 1_000_000_000,
        ensures
            final(self).len() == old(self).len(),
            final(self).spec_generation() == old(self).spec_generation(),
            exists|w: u64|
                stored_word(w, mv, score as int, eval as int, depth as int, old(self).spec_generation() as int, bound, ply as int)
                && #[trigger] final(self).contents() == old(self).contents().update(
                    cluster_index(key, old(self).len() as int),
                    stored_cluster(old(self).slots(key), fragment(key), (old(self).spec_generation() % 64) as int, w),
                ),
            old(self).scores_bounded() ==> final(self).scores_bounded(),
    {
        let idx = self.index(key);
        let mut cluster = self.clusters[idx];
        let frag = (key % 0x10000) as u16;
        let g0 = self.generation;
        let generation = g0 & 0x3F;
        assert(generation == g0 % 64) by (bit_vector)
            requires
                generation == g0 & 0x3F,
        ;
        let ghost c0 = cluster@;
        // pick a slot: same key > empty > lowest quality (depth - 4*age)
        let mut victim: usize = 0;
        let mut victim_quality: i32 = i32::MAX;
        let mut i: usize = 0;
        while i < 3
            invariant
                i <= 3,
                victim < 3,
                generation < 64,
                c0 == cluster@,
                victim_after(c0, frag, generation as int, i as int, victim as int, victim_quality as int)
                    == victim_after(c0, frag, generation as int, 0, 0, i32::MAX as int),
            ensures
                victim < 3,
                victim as int == victim_slot(c0, frag, generation as int),
            decreases 3 - i,
        {
            let d = cluster.data[i];
            proof {
                lemma_bound_field(d);
            }
            if cluster.keys[i] == frag && d >> 62u64 != 0 {
                victim = i;
                break;  // same key: always replace, quality irrelevant
            }
            if d >> 62u64 == 0 {
                // empty slot: best possible victim short of same-key
                if victim_quality > i32::MIN + 1 {
                    victim = i;
                    victim_quality = i32::MIN + 1;
                }
                i += 1;
                continue;
            }
            let e_depth = ((d >> 48u64) & 0xFF) as i32;
            let e_gen = ((d >> 56u64) & 0x3F) as u8;
            let age = (generation.wrapping_sub(e_gen)) & 0x3F;
            assert(age as int == (generation as int - e_gen as int) % 64) by (bit_vector)
                requires
                    generation < 64,
                    e_gen < 64,
                    age == (generation.wrapping_sub(e_gen)) & 0x3F,
            ;
            let quality = e_depth - 4 * age as i32;
            if quality < victim_quality {
                victim = i;
                victim_quality = quality;
            }
            i += 1;
        }
        // score made node-relative, then clamped to the i16 range
        let s = if score >= MATE_BOUND {
            score + ply as i32
        } else if score <= -MATE_BOUND {
            score - ply as i32
        } else {
            score
        };
        let s16 = if s < -32767 {
            -32767
        } else if s > 32767 {
            32767
        } else {
            s
        };
        let e16 = if eval < -32768 {
            -32768
        } else if eval > 32767 {
            32767
        } else {
            eval
        };
        let d8: u8 = if depth < 0 {
            0
        } else if depth > 255 {
            255
        } else {
            depth as u8
        };
        let w = pack(mv, to_u16(s16), to_u16(e16), d8, generation, bound);
        cluster.keys[victim] = frag;
        cluster.data[victim] = w;
        self.clusters.set(idx, cluster);
        proof {
            assert(cluster@.data =~= c0.data.update(victim as int, w));
            assert(cluster@.keys =~= c0.keys.update(victim as int, frag));
            assert(stored_word(w, mv, score as int, eval as int, depth as int, old(self).spec_generation() as int, bound, ply as int));
            assert(self.contents() =~= old(self).contents().update(
                cluster_index(key, old(self).len() as int),
                stored_cluster(old(self).slots(key), fragment(key), (old(self).spec_generation() % 64) as int, w),
            ));
            if old(self).scores_bounded() {
                assert(slots_bounded(c0)) by {
                    assert(slots_bounded(old(self).clusters@[idx as int]@));
                }
                assert(slot_bounded(w));
                assert(slots_bounded(cluster@)) by {
                    assert forall|j: int| 0 <= j < 3 implies #[trigger] slot_bounded(cluster@.data[j]) by {
                        if j != victim {
                            assert(cluster@.data[j] == c0.data[j]);
                        }
                    }
                }
                assert forall|i: int| 0 <= i < self.clusters@.len() implies #[trigger] slots_bounded(self.clusters@[i]@) by {
                    if i != idx {
                        assert(self.clusters@[i] == old(self).clusters@[i]);
                        assert(slots_bounded(old(self).clusters@[i]@));
                    }
                }
            }
        }
    }
}

} // verus!
