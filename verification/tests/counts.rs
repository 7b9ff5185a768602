use requery::WorkCounts;
use requery::WorkSnapshot;

#[test]
fn new_counts_are_zero() {
    let w = WorkCounts::new();
    assert_eq!(w.evaluate_function_steps, 0);
    assert_eq!(w.compile_steps, 0);
    assert_eq!(w.parse_steps, 0);
    assert_eq!(w.resolve_steps, 0);
    assert_eq!(w.type_check_program_steps, 0);
    assert_eq!(w.type_check_function_steps, 0);
}

#[test]
fn each_step_bumps_its_own_counter() {
    let mut w = WorkCounts::new();
    w.evaluate_step();
    w.evaluate_step();
    w.compile_step();
    w.parse_step();
    w.resolve_step();
    w.type_check_program_step();
    w.type_check_function_step();
    assert_eq!(w.evaluate_function_steps, 2);
    assert_eq!(w.compile_steps, 1);
    assert_eq!(w.parse_steps, 1);
    assert_eq!(w.resolve_steps, 1);
    assert_eq!(w.type_check_program_steps, 1);
    assert_eq!(w.type_check_function_steps, 1);
}

#[test]
fn measure_and_delta_report_the_work_between() {
    let mut w = WorkCounts::new();
    w.parse_step();
    let before = WorkSnapshot::measure(&w);
    w.parse_step();
    w.parse_step();
    w.evaluate_step();
    let after = WorkSnapshot::measure(&w);
    let delta = before.delta(after);
    assert_eq!(delta.parse_steps, 2);
    assert_eq!(delta.evaluate_function_steps, 1);
    assert_eq!(delta.compile_steps, 0);
    assert_eq!(delta.resolve_steps, 0);
    assert_eq!(delta.type_check_program_steps, 0);
    assert_eq!(delta.type_check_function_steps, 0);
}
