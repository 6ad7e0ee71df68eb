use nebchess::board::Color;
use nebchess::search::limits::{Limits, TimeManager};

#[test]
fn movetime_sets_equal_soft_and_hard() {
    let l = Limits {
        movetime: Some(500),
        ..Limits::default()
    };
    let tm = TimeManager::new(&l, Color::White, 10);
    let (soft, hard) = tm.budgets_ms();
    assert_eq!(soft, Some(490));
    assert_eq!(hard, Some(490));
}

#[test]
fn movetime_is_exact_under_stable_pv() {
    // movetime is a UCI EXACT-budget contract: trend-scaling must NOT touch
    // the movetime budget. A settled PV would scale a wtime search to 60%
    // (Gate-1 stability); movetime stays at the full budget.
    let l = Limits {
        movetime: Some(2_000),
        ..Limits::default()
    };
    let mut tm = TimeManager::new(&l, Color::White, 0);
    let soft = tm.budgets_ms().0.unwrap();
    // Settled PV across 4 iterations (stable_iters >= 3 would scale to 60%
    // on a wtime search).
    for d in 7..=10 {
        tm.report_iteration(d, 800, 1 /*same move key*/);
    }
    assert_eq!(
        tm.effective_soft_ms(),
        Some(soft),
        "movetime is exact: full budget, NOT scaled by stability"
    );
}

#[test]
fn clock_allocation_is_sane() {
    let l = Limits {
        wtime: Some(60_000),
        ..Limits::default()
    }; // one minute, no increment
    let tm = TimeManager::new(&l, Color::White, 10);
    let (soft, hard) = tm.budgets_ms();
    let (soft, hard) = (soft.unwrap(), hard.unwrap());
    assert!(
        (1_500..=2_500).contains(&soft),
        "soft ~ usable/30, got {soft}"
    );
    // TimeBrain Gate 1: hard is soft*5 capped at usable/3 (was soft*4).
    // 60s no-inc => usable/3 ~ 19_330, so the soft*5 term (9_665) wins.
    assert_eq!(hard, soft * 5);
    // black's clock must be read for black
    let l = Limits {
        btime: Some(30_000),
        ..Limits::default()
    };
    let tm = TimeManager::new(&l, Color::Black, 10);
    assert!(tm.budgets_ms().0.unwrap() <= 1_100);
}

#[test]
fn movestogo_and_increment_raise_budget() {
    let l = Limits {
        wtime: Some(60_000),
        movestogo: Some(10),
        winc: Some(2_000),
        ..Limits::default()
    };
    let tm = TimeManager::new(&l, Color::White, 10);
    let soft = tm.budgets_ms().0.unwrap();
    assert!(
        (6_500..=7_500).contains(&soft),
        "usable/10 + inc*3/4, got {soft}"
    );
}

#[test]
fn low_time_never_overspends() {
    let l = Limits {
        wtime: Some(50),
        ..Limits::default()
    }; // 50ms on the clock!
    let tm = TimeManager::new(&l, Color::White, 10);
    let (soft, hard) = tm.budgets_ms();
    let hard = hard.unwrap();
    assert!(
        hard <= 40,
        "hard must stay under remaining-overhead, got {hard}"
    );
    assert!(hard >= 1);
    assert!(soft.unwrap() <= hard);
}

#[test]
fn infinite_and_depth_only_have_no_deadlines() {
    let l = Limits {
        infinite: true,
        ..Limits::default()
    };
    let tm = TimeManager::new(&l, Color::White, 10);
    assert_eq!(tm.budgets_ms(), (None, None));
    let l = Limits {
        depth: Some(6),
        ..Limits::default()
    };
    let tm = TimeManager::new(&l, Color::White, 10);
    assert_eq!(tm.budgets_ms(), (None, None));
}

// ---- TimeBrain Gate 1: reserve + stability scaling + hard cap ----

#[test]
fn emergency_reserve_is_never_allocated() {
    // 1000ms left, no inc: hard must leave >= RESERVE_MIN_MS (50) + overhead untouched
    let l = Limits {
        wtime: Some(1_000),
        ..Limits::default()
    };
    let tm = TimeManager::new(&l, Color::White, 50);
    let (_, hard) = tm.budgets_ms();
    assert!(
        hard.unwrap() <= 1_000 - 50 - 50,
        "hard {} must respect reserve",
        hard.unwrap()
    );
}

#[test]
fn stability_scales_soft_down() {
    let l = Limits {
        wtime: Some(60_000),
        ..Limits::default()
    };
    let mut tm = TimeManager::new(&l, Color::White, 10);
    let base = tm.budgets_ms().0.unwrap();
    // 3 iterations, same best move, steady score -> effective soft shrinks
    for d in 1..=3 {
        tm.report_iteration(d, 25, 1 /*same move key*/);
    }
    assert!(
        tm.effective_soft_ms().unwrap() < base,
        "stable PV must shrink soft"
    );
}

#[test]
fn best_move_change_extends_soft() {
    let l = Limits {
        wtime: Some(60_000),
        ..Limits::default()
    };
    let mut tm = TimeManager::new(&l, Color::White, 10);
    let base = tm.budgets_ms().0.unwrap();
    tm.report_iteration(1, 25, 1);
    tm.report_iteration(2, 25, 2); // best move CHANGED
    assert!(
        tm.effective_soft_ms().unwrap() > base,
        "instability must extend soft"
    );
}

#[test]
fn hard_cap_is_a_third_of_usable() {
    let l = Limits {
        wtime: Some(30_000),
        ..Limits::default()
    };
    let tm = TimeManager::new(&l, Color::White, 10);
    let (_, hard) = tm.budgets_ms();
    assert!(hard.unwrap() <= 10_000, "never >1/3 of usable on one move");
}

#[test]
fn won_position_uses_gate1_stability() {
    // a score >= +500 with a settled PV does NOT halve the budget (pct 50):
    // a settled PV (stable_iters >= 3) scales to 60, exactly as any other
    // settled position does, regardless of how winning the score is.
    let l = Limits {
        wtime: Some(60_000),
        ..Limits::default()
    };
    let mut tm = TimeManager::new(&l, Color::White, 10);
    let base = tm.budgets_ms().0.unwrap();
    // 4 iterations, same move, comfortably winning, no drops.
    for d in 1..=4 {
        tm.report_iteration(d, 600, 1 /*same move key*/);
    }
    assert_eq!(
        tm.effective_soft_ms().unwrap(),
        base * 60 / 100,
        "won + stable uses Gate-1 stability (pct 60), NOT won-fast (50)"
    );
}
