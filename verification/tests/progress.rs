use flp_math::progress::Progress;

#[test]
fn add_and_sub_report_overflow_and_underflow() {
    let mut p = Progress::new(0, 10);
    assert_eq!(p.add(15), 5);
    assert_eq!(p.current(), 10);
    assert_eq!(p.sub(3), 0);
    assert_eq!(p.current(), 7);
    assert_eq!(p.sub(9), 2);
    assert_eq!(p.current(), 0);
}

#[test]
fn add_below_the_ceiling_keeps_everything() {
    let mut p = Progress::new(2, 10);
    assert_eq!(p.add(3), 0);
    assert_eq!(p.current(), 5);
    assert_eq!(p.max(), 10);
}

#[test]
fn set_current_clips_at_the_ceiling() {
    let mut p = Progress::new(0, 10);
    p.set_current(4);
    assert_eq!(p.current(), 4);
    p.set_current(25);
    assert_eq!(p.current(), 10);
}

#[test]
fn set_max_clips_the_current_amount() {
    let mut p = Progress::new(8, 10);
    p.set_max(5);
    assert_eq!(p.max(), 5);
    assert_eq!(p.current(), 5);
    p.set_max(20);
    assert_eq!(p.max(), 20);
    assert_eq!(p.current(), 5);
}

#[test]
fn exact_fill_leaves_no_rest() {
    let mut p = Progress::new(0, 10);
    assert_eq!(p.add(10), 0);
    assert_eq!(p.current(), 10);
    assert_eq!(p.sub(10), 0);
    assert_eq!(p.current(), 0);
}
