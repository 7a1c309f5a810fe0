use std::collections::HashMap;

use flp_math::evaluate::value_map;
use flp_math::evaluate::Evaluate;
use flp_math::growth::Growth;
use flp_math::progress::Progress;

fn curve() -> value_map::Evaluate {
    let mut table: HashMap<u64, u64> = HashMap::new();
    table.insert(1, 10);
    table.insert(2, 25);
    table.insert(3, 45);
    value_map::Evaluate(table)
}

#[test]
fn value_map_returns_the_stored_value() {
    let eval = curve();
    assert_eq!(eval.evaluate(1), 10);
    assert_eq!(eval.evaluate(3), 45);
}

#[test]
fn apply_level_installs_the_evaluated_ceiling() {
    let mut growth = Growth::new(curve(), Progress::new(0, 10));
    growth.apply_level(2);
    assert_eq!(growth.progress().max(), 25);
    assert_eq!(growth.progress().current(), 0);
}

#[test]
fn apply_level_clips_current_to_a_lower_ceiling() {
    let mut growth = Growth::new(curve(), Progress::new(20, 25));
    growth.apply_level(1);
    assert_eq!(growth.progress().max(), 10);
    assert_eq!(growth.progress().current(), 10);
}

#[test]
fn progress_flows_through_the_growth() {
    let mut growth = Growth::new(curve(), Progress::new(0, 10));
    assert_eq!(growth.add_progress(12), 2);
    assert_eq!(growth.progress().current(), 10);
    assert_eq!(growth.sub_progress(4), 0);
    assert_eq!(growth.progress().current(), 6);
    assert_eq!(growth.sub_progress(9), 3);
    assert_eq!(growth.progress().current(), 0);
}
