use nebchess::board::{Move, Square};
use nebchess::search::tt::{Bound, Tt, EVAL_NONE};
use nebchess::search::{MATE, MATE_BOUND};

fn mv() -> Move {
    Move::new(Square::e1(), Square::g1(), Move::KING_CASTLE)
}

#[test]
fn store_probe_roundtrip() {
    let mut tt = Tt::new(1);
    tt.store(0xDEAD_BEEF_CAFE_F00D, mv(), 123, EVAL_NONE, 7, Bound::Exact, 0);
    let hit = tt.probe(0xDEAD_BEEF_CAFE_F00D, 0).expect("hit");
    assert_eq!(hit.mv, mv());
    assert_eq!(hit.score, 123);
    assert_eq!(hit.depth, 7);
    assert_eq!(hit.bound, Bound::Exact);
    assert_eq!(hit.eval, EVAL_NONE);
    // same cluster (identical high bits), different low-16 fragment: a miss
    assert!(tt.probe(0xDEAD_BEEF_CAFE_F00E, 0).is_none());
}

#[test]
fn mate_scores_adjust_by_ply() {
    let mut tt = Tt::new(1);
    // at ply 2 we found "mate in 3 plies from root" = MATE - 5
    tt.store(42, mv(), MATE - 5, EVAL_NONE, 9, Bound::Exact, 2);
    // stored node-relative MATE-3, returned from ply 4 as MATE-3-4 = MATE-7
    let hit = tt.probe(42, 4).expect("hit");
    assert_eq!(hit.score, MATE - 7);
    assert!(hit.score > MATE_BOUND);
    // negative mates mirror
    tt.store(43, mv(), -(MATE - 5), EVAL_NONE, 9, Bound::Exact, 2);
    assert_eq!(tt.probe(43, 4).unwrap().score, -(MATE - 7));
}

#[test]
fn same_key_updates_in_place() {
    let mut tt = Tt::new(1);
    tt.store(7, mv(), 10, EVAL_NONE, 3, Bound::Upper, 0);
    tt.store(7, mv(), 99, EVAL_NONE, 5, Bound::Exact, 0);
    let hit = tt.probe(7, 0).unwrap();
    assert_eq!(hit.score, 99);
    assert_eq!(hit.depth, 5);
    // only one slot was consumed: adjacent keys share the cluster
    tt.store(8, mv(), 1, EVAL_NONE, 1, Bound::Exact, 0);
    tt.store(9, mv(), 2, EVAL_NONE, 1, Bound::Exact, 0);
    assert!(tt.probe(7, 0).is_some(), "original survived cluster fill");
    assert!(tt.probe(8, 0).is_some());
    assert!(tt.probe(9, 0).is_some());
}

#[test]
fn replacement_prefers_shallow_and_stale() {
    let mut tt = Tt::new(1);
    let k = |i: u64| 1000 + i;
    // fill the 3 slots: depths 12, 3, 12
    tt.store(k(1), mv(), 0, EVAL_NONE, 12, Bound::Exact, 0);
    tt.store(k(2), mv(), 0, EVAL_NONE, 3, Bound::Exact, 0);
    tt.store(k(3), mv(), 0, EVAL_NONE, 12, Bound::Exact, 0);
    // a 4th key must evict the depth-3 entry, keeping both depth-12s
    tt.store(k(4), mv(), 0, EVAL_NONE, 8, Bound::Exact, 0);
    assert!(tt.probe(k(2), 0).is_none(), "shallow entry evicted");
    assert!(tt.probe(k(1), 0).is_some());
    assert!(tt.probe(k(3), 0).is_some());
    assert!(tt.probe(k(4), 0).is_some());
}

#[test]
fn generation_ages_old_entries_out() {
    let mut tt = Tt::new(1);
    let k = |i: u64| 2000 + i;
    tt.store(k(1), mv(), 0, EVAL_NONE, 12, Bound::Exact, 0);
    tt.store(k(2), mv(), 0, EVAL_NONE, 12, Bound::Exact, 0);
    tt.store(k(3), mv(), 0, EVAL_NONE, 12, Bound::Exact, 0);
    for _ in 0..4 {
        tt.new_search();
    }
    tt.store(k(4), mv(), 0, EVAL_NONE, 5, Bound::Exact, 0);
    assert!(tt.probe(k(4), 0).is_some(), "stale depth lost to fresh entry");
}

#[test]
fn clear_empties_everything() {
    let mut tt = Tt::new(1);
    tt.store(7, mv(), 10, EVAL_NONE, 3, Bound::Exact, 0);
    tt.clear();
    assert!(tt.probe(7, 0).is_none());
}

#[test]
fn collision_stress_no_panics() {
    let mut tt = Tt::new(1);
    let mut state = 0x4E45u64;
    let mut next = || {
        state = state.wrapping_add(0x9E3779B97F4A7C15);
        let mut z = state;
        z = (z ^ (z >> 30)).wrapping_mul(0xBF58476D1CE4E5B9);
        z = (z ^ (z >> 27)).wrapping_mul(0x94D049BB133111EB);
        z ^ (z >> 31)
    };
    for i in 0..100_000u64 {
        let key = next();
        tt.store(
            key,
            mv(),
            (i % 2000) as i32 - 1000,
            EVAL_NONE,
            (i % 32) as i32,
            Bound::Lower,
            (i % 64) as usize,
        );
        let _ = tt.probe(next(), (i % 64) as usize);
    }
}

#[test]
fn table_size_follows_megabytes() {
    let tt = Tt::new(1);
    assert_eq!(tt.cluster_count(), (1 << 20) / 32);
    let tt0 = Tt::new(0);
    assert_eq!(tt0.cluster_count(), (1 << 20) / 32);
}

#[test]
fn depth_and_eval_are_clamped() {
    let mut tt = Tt::new(1);
    tt.store(5, mv(), 40_000, 50_000, 300, Bound::Lower, 0);
    let hit = tt.probe(5, 0).unwrap();
    assert_eq!(hit.depth, 255);
    assert_eq!(hit.eval, 32767);
    assert_eq!(hit.score, 32767); // clamped to the i16 range
    assert_eq!(hit.bound, Bound::Lower);
    tt.store(6, mv(), 5, -50_000, -3, Bound::Upper, 0);
    let hit = tt.probe(6, 0).unwrap();
    assert_eq!(hit.depth, 0);
    assert_eq!(hit.eval, -32768);
    assert_eq!(hit.bound, Bound::Upper);
}
