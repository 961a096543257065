//! The layout budget: arming, polling, disarming, and the reports of an abort.

use oxidepage_layout::budget::{
    arm, check_deadline, checkpoint, classify, disarm, BudgetState, LayoutAborted, PanicPayload,
    STRIDE, UNLIMITED,
};

const HOUR: u128 = 3_600_000_000_000;

#[test]
fn an_unarmed_checkpoint_is_a_no_op() {
    let mut budget = BudgetState::new();
    assert!(!budget.is_armed());
    for _ in 0..STRIDE * 4 {
        assert!(!checkpoint(&mut budget));
    }
    assert_eq!(budget, BudgetState::new());
}

#[test]
fn a_max_budget_arms_nothing() {
    let mut budget = BudgetState::new();
    let _guard = arm(&mut budget, UNLIMITED, 0);
    assert!(!budget.is_armed());
    for _ in 0..STRIDE * 4 {
        assert!(!checkpoint(&mut budget));
    }
}

#[test]
fn a_zero_budget_trips_at_the_first_checkpoint() {
    let mut budget = BudgetState::new();
    let _guard = arm(&mut budget, 0, 17);
    assert!(checkpoint(&mut budget));
    assert_eq!(
        check_deadline(&budget, 17),
        Some(LayoutAborted::Deadline { limit: 0 })
    );
}

#[test]
fn the_stride_holds_the_clock_off() {
    let mut budget = BudgetState::new();
    let _guard = arm(&mut budget, HOUR, 0);
    // The first checkpoint reads the clock and reloads the counter, so the
    // next `STRIDE - 1` must not.
    assert!(checkpoint(&mut budget));
    assert_eq!(check_deadline(&budget, 1), None);
    assert_eq!(budget.countdown, STRIDE - 1);
    for expected in (0..STRIDE - 1).rev() {
        assert!(!checkpoint(&mut budget));
        assert_eq!(budget.countdown, expected);
    }
    assert!(checkpoint(&mut budget));
    assert_eq!(budget.countdown, STRIDE - 1);
}

#[test]
fn a_nested_arm_neither_owns_nor_clears_the_deadline() {
    let mut budget = BudgetState::new();
    let outer = arm(&mut budget, HOUR, 5);
    let deadline = budget.deadline;
    assert_eq!(deadline, Some(HOUR + 5));
    {
        let inner = arm(&mut budget, 1_000_000_000, 9);
        assert_eq!(
            budget.deadline, deadline,
            "a nested arm must not move the deadline"
        );
        disarm(&mut budget, inner);
    }
    assert!(budget.is_armed(), "a nested guard must not disarm");
    disarm(&mut budget, outer);
    assert!(!budget.is_armed());
}

#[test]
fn the_deadline_stays_once_it_has_passed() {
    let mut budget = BudgetState::new();
    let _guard = arm(&mut budget, 10, 100);
    assert_eq!(check_deadline(&budget, 109), None);
    assert_eq!(
        check_deadline(&budget, 110),
        Some(LayoutAborted::Deadline { limit: 10 })
    );
    assert!(budget.is_armed());
}

#[test]
fn a_foreign_payload_is_classified_as_an_engine_panic() {
    assert_eq!(
        classify(PanicPayload::Message("grid overflowed".to_owned())),
        LayoutAborted::EnginePanic("grid overflowed".to_owned())
    );
    assert_eq!(
        classify(PanicPayload::Opaque),
        LayoutAborted::EnginePanic("layout panicked".to_owned())
    );
    assert_eq!(
        classify(PanicPayload::Aborted(LayoutAborted::Deadline { limit: 3 })),
        LayoutAborted::Deadline { limit: 3 }
    );
}

#[test]
fn aborts_report_themselves() {
    let text = |limit: u128| LayoutAborted::Deadline { limit }.message();
    assert_eq!(text(0), "layout exceeded its 0ns budget");
    assert_eq!(text(HOUR), "layout exceeded its 3600s budget");
    assert_eq!(text(1_500_000_000), "layout exceeded its 1.5s budget");
    assert_eq!(text(2_050_000), "layout exceeded its 2.05ms budget");
    assert_eq!(text(1_001), "layout exceeded its 1.001µs budget");
    for ns in [1u64, 999, 1_000, 123_456, 10_000_000, 1_234_567_890, 60_000_000_000] {
        let expected = format!(
            "layout exceeded its {:?} budget",
            std::time::Duration::from_nanos(ns)
        );
        assert_eq!(text(u128::from(ns)), expected);
    }
    assert_eq!(
        LayoutAborted::EnginePanic("boom".to_owned()).message(),
        "layout failed: boom"
    );
}
