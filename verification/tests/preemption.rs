use srp_analysis::error::AnalysisError;
use srp_analysis::model::{Task, Trace};
use srp_analysis::preemption::{div_ceil, preemption, preemption_approx, preemption_exact};
use srp_analysis::resources::pre_analysis;
use srp_analysis::tasks::tasks;

fn section(id: &str, start: u32, end: u32, inner: Vec<Trace>) -> Trace {
    Trace { id: id.to_string(), start, end, inner }
}

fn task(id: &str, prio: u8, deadline: u32, period: u32, end: u32, inner: Vec<Trace>) -> Task {
    Task {
        id: id.to_string(),
        prio,
        deadline,
        inter_arrival: period,
        trace: section(id, 0, end, inner),
    }
}

#[test]
fn division_rounds_up() {
    assert_eq!(div_ceil(0, 5), 0);
    assert_eq!(div_ceil(1, 5), 1);
    assert_eq!(div_ceil(5, 5), 1);
    assert_eq!(div_ceil(6, 5), 2);
    assert_eq!(div_ceil(100, 50), 2);
    assert_eq!(div_ceil(100, 200), 1);
    assert_eq!(div_ceil(7, 1), 7);
    assert_eq!(div_ceil(u128::MAX, 2), u128::MAX / 2 + 1);
    assert_eq!(div_ceil(u128::MAX, u128::MAX), 1);
}

#[test]
fn sample_approximate_preemption() {
    let set = tasks();
    assert_eq!(preemption_approx(&set[0], &set), 30);
    assert_eq!(preemption_approx(&set[1], &set), 120);
    assert_eq!(preemption_approx(&set[2], &set), 0);
}

#[test]
fn approximation_scales_by_the_tasks_own_execution_time() {
    let set = vec![
        task("L", 1, 95, 1000, 7, vec![]),
        task("H", 2, 10, 10, 3, vec![]),
    ];
    // ceil(95 / 10) = 10 activations, each charged 7
    assert_eq!(preemption_approx(&set[0], &set), 70);
}

#[test]
fn sample_exact_preemption() {
    let set = tasks();
    assert_eq!(preemption_exact(&set[0], &set, 0), Ok(90));
    assert_eq!(preemption_exact(&set[1], &set, 0), Ok(60));
    assert_eq!(preemption_exact(&set[2], &set, 4), Ok(0));
}

#[test]
fn preemption_chooses_the_mode() {
    let set = tasks();
    let (ip, tr) = pre_analysis(&set);
    assert_eq!(preemption(&set[0], &set, &ip, &tr, true), Ok(30));
    assert_eq!(preemption(&set[0], &set, &ip, &tr, false), Ok(90));
    assert_eq!(preemption(&set[1], &set, &ip, &tr, true), Ok(120));
    assert_eq!(preemption(&set[1], &set, &ip, &tr, false), Ok(60));
    assert_eq!(preemption(&set[2], &set, &ip, &tr, true), Ok(0));
    assert_eq!(preemption(&set[2], &set, &ip, &tr, false), Ok(0));
}

#[test]
fn response_time_equal_to_the_deadline_is_in_time() {
    // the busy period of the lowest task settles at 100, its deadline
    let set = tasks();
    assert_eq!(set[0].deadline, 100);
    assert_eq!(preemption_exact(&set[0], &set, 0), Ok(90));
}

#[test]
fn response_time_past_the_deadline_is_a_miss() {
    let mut set = tasks();
    set[0].deadline = 99;
    assert_eq!(
        preemption_exact(&set[0], &set, 0),
        Err(AnalysisError::NonSchedulable("T1".to_string()))
    );
}

#[test]
fn execution_plus_blocking_past_the_deadline_is_a_miss() {
    let set = vec![task("A", 1, 10, 10, 8, vec![])];
    assert_eq!(preemption_exact(&set[0], &set, 2), Ok(0));
    assert_eq!(
        preemption_exact(&set[0], &set, 3),
        Err(AnalysisError::NonSchedulable("A".to_string()))
    );
    assert_eq!(
        preemption_exact(&set[0], &set, u128::MAX),
        Err(AnalysisError::NonSchedulable("A".to_string()))
    );
}

#[test]
fn overloaded_processor_is_a_miss() {
    let set = vec![
        task("L", 1, 1000, 1000, 1, vec![]),
        task("H", 2, 10, 10, 10, vec![]),
    ];
    assert_eq!(
        preemption_exact(&set[0], &set, 0),
        Err(AnalysisError::NonSchedulable("L".to_string()))
    );
}

#[test]
fn exact_mode_reports_a_missing_ceiling() {
    let set = tasks();
    let none: Vec<Task> = vec![];
    let (no_ceilings, _) = pre_analysis(&none);
    let (_, tr) = pre_analysis(&set);
    assert_eq!(
        preemption(&set[2], &set, &no_ceilings, &tr, false),
        Err(AnalysisError::MissingCeiling("R1".to_string()))
    );
    assert_eq!(preemption(&set[2], &set, &no_ceilings, &tr, true), Ok(0));
}

#[test]
fn top_priority_task_is_not_preempted() {
    let set = tasks();
    assert_eq!(preemption_exact(&set[2], &set, 0), Ok(0));
    assert_eq!(preemption_exact(&set[2], &set, 20), Ok(0));
    assert_eq!(preemption_approx(&set[2], &set), 0);
}

#[test]
fn longer_execution_above_never_shortens_exact_preemption() {
    let light = tasks();
    let mut heavy = tasks();
    heavy[2].trace.end = 31;
    let mut heavier = tasks();
    heavier[2].trace.end = 35;
    let light_p = preemption_exact(&light[1], &light, 0).unwrap();
    let heavy_p = preemption_exact(&heavy[1], &heavy, 0).unwrap();
    let heavier_p = preemption_exact(&heavier[1], &heavier, 0).unwrap();
    assert_eq!(light_p, 60);
    assert_eq!(heavy_p, 62);
    assert_eq!(heavier_p, 70);
    assert!(light_p <= heavy_p && heavy_p <= heavier_p);
}

#[test]
fn equal_priority_does_not_preempt() {
    let set = vec![
        task("A", 2, 100, 100, 10, vec![]),
        task("B", 2, 100, 10, 5, vec![]),
    ];
    assert_eq!(preemption_exact(&set[0], &set, 0), Ok(0));
    assert_eq!(preemption_approx(&set[0], &set), 0);
}

#[test]
fn extreme_time_stamps_do_not_overflow() {
    let set = vec![
        task("L", 1, u32::MAX, u32::MAX, u32::MAX, vec![]),
        task("H1", 2, 1, 1, u32::MAX, vec![]),
        task("H2", 3, 1, 1, u32::MAX, vec![]),
    ];
    let each = (u32::MAX as u128) * (u32::MAX as u128);
    assert_eq!(preemption_approx(&set[0], &set), 2 * each);
    assert_eq!(
        preemption_exact(&set[0], &set, 0),
        Err(AnalysisError::NonSchedulable("L".to_string()))
    );
}

#[test]
fn estimate_may_fall_below_the_exact_value() {
    let set = tasks();
    let estimate = preemption_approx(&set[0], &set);
    let exact = preemption_exact(&set[0], &set, 0).unwrap();
    assert_eq!((estimate, exact), (30, 90));
    assert!(estimate < exact);
}

#[test]
fn busy_period_grows_until_it_settles() {
    let set = vec![
        task("L", 1, 1000, 1000, 5, vec![]),
        task("M", 2, 7, 7, 2, vec![]),
        task("H", 3, 5, 5, 2, vec![]),
    ];
    // 5, 9, 13, 15, 17, 19, 19
    assert_eq!(preemption_exact(&set[0], &set, 0), Ok(14));
    // 2, 4, 4
    assert_eq!(preemption_exact(&set[1], &set, 0), Ok(2));
    assert_eq!(preemption_exact(&set[2], &set, 0), Ok(0));
}
