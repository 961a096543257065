//! Used columns, and how a flow is cut into them.

use oxidepage_layout::columns::{
    balance, fill, sorted_opportunities, used_columns, Opportunity, MAX_COLUMNS,
};

/// Lengths in px as layout units.
fn px(v: i32) -> i32 {
    v * 64
}

fn positions(list: &[i64]) -> Vec<Opportunity> {
    let units: Vec<i64> = list.iter().map(|v| v * 64).collect();
    sorted_opportunities(&units)
}

fn in_px(list: &[Opportunity]) -> Vec<i64> {
    list.iter().map(|op| op.offset / 64).collect()
}

/// Five break opportunities 10px apart.
fn ops() -> Vec<Opportunity> {
    positions(&[0, 10, 20, 30, 40])
}

#[test]
fn used_columns_from_count() {
    assert_eq!(used_columns(px(300), Some(3), None, 0), (3, px(100)));
    assert_eq!(used_columns(px(320), Some(2), None, px(20)), (2, px(150)));
}

#[test]
fn used_columns_from_width() {
    assert_eq!(used_columns(px(320), None, Some(px(100)), px(20)), (2, px(150)));
    // The count caps the width-derived fit.
    assert_eq!(used_columns(px(320), Some(1), Some(px(100)), px(20)), (1, px(320)));
}

#[test]
fn used_columns_clamps_degenerate_inputs() {
    assert_eq!(used_columns(0, None, Some(0), 0).0, MAX_COLUMNS);
    assert_eq!(used_columns(px(100), Some(1000), None, 0).0, MAX_COLUMNS);
    assert_eq!(used_columns(px(100), None, None, 0), (1, px(100)));
}

#[test]
fn balance_splits_evenly() {
    let (height, bounds) = balance(&ops(), 2);
    assert_eq!(height, 20 * 64);
    assert_eq!(in_px(&bounds), [0, 20, 40]);
}

#[test]
fn balance_never_breaks_between_opportunities() {
    let (_, bounds) = balance(&ops(), 3);
    for op in &bounds {
        assert!(op.offset % (10 * 64) == 0, "{op:?} is not a break opportunity");
    }
    assert!(bounds.len() - 1 <= 3);
}

#[test]
fn fill_overflows_rather_than_stalling_on_unbreakable_content() {
    let ops = positions(&[0, 100]);
    let bounds = fill(&ops, 10 * 64);
    assert_eq!(in_px(&bounds), [0, 100]);
}

#[test]
fn balance_floors_the_height_by_the_tallest_unbreakable_chunk() {
    let ops = positions(&[0, 100]);
    let (height, bounds) = balance(&ops, 3);
    assert_eq!(height, 100 * 64);
    assert_eq!(bounds.len() - 1, 1);
}

#[test]
fn balance_of_an_empty_flow_is_one_empty_column() {
    let ops = positions(&[0, 0]);
    let (height, bounds) = balance(&ops, 3);
    assert_eq!(height, 0);
    assert_eq!(bounds.len(), 2);
}

#[test]
fn filling_takes_as_much_as_fits() {
    let bounds = fill(&ops(), 25 * 64);
    assert_eq!(in_px(&bounds), [0, 20, 40]);
    let bounds = fill(&ops(), 10 * 64);
    assert_eq!(in_px(&bounds), [0, 10, 20, 30, 40]);
}

#[test]
fn taller_columns_need_no_more() {
    let low = fill(&ops(), 10 * 64).len();
    let high = fill(&ops(), 30 * 64).len();
    assert!(high <= low);
}
