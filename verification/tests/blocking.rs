use srp_analysis::blocking::{blocking_time, wcet_resource};
use srp_analysis::error::AnalysisError;
use srp_analysis::model::{Task, Trace};
use srp_analysis::resources::pre_analysis;
use srp_analysis::tasks::tasks;

fn section(id: &str, start: u32, end: u32, inner: Vec<Trace>) -> Trace {
    Trace { id: id.to_string(), start, end, inner }
}

fn task(id: &str, prio: u8, deadline: u32, period: u32, end: u32, inner: Vec<Trace>) -> Task {
    Task {
        id: id.to_string(),
        prio,
        deadline,
        inter_arrival: period,
        trace: section(id, 0, end, inner),
    }
}

#[test]
fn longest_section_is_taken_over_all_occurrences() {
    let set = tasks();
    assert_eq!(wcet_resource(&set[1].trace, &"R1".to_string()), 10);
    assert_eq!(wcet_resource(&set[1].trace, &"R2".to_string()), 4);
    assert_eq!(wcet_resource(&set[2].trace, &"R2".to_string()), 10);
}

#[test]
fn unknown_resource_has_no_section() {
    let set = tasks();
    assert_eq!(wcet_resource(&set[0].trace, &"R1".to_string()), 0);
    assert_eq!(wcet_resource(&set[1].trace, &"R9".to_string()), 0);
}

#[test]
fn root_counts_when_it_carries_the_name() {
    let set = tasks();
    assert_eq!(wcet_resource(&set[1].trace, &"T2".to_string()), 30);
}

#[test]
fn section_nested_in_one_of_the_same_name_counts() {
    let trace = section(
        "A",
        0,
        100,
        vec![section("X", 10, 15, vec![section("X", 20, 29, vec![])])],
    );
    assert_eq!(wcet_resource(&trace, &"X".to_string()), 9);
}

#[test]
fn sample_blocking_times() {
    let set = tasks();
    let (ip, tr) = pre_analysis(&set);
    assert_eq!(blocking_time(&set[0], &set, &ip, &tr), Ok(0));
    assert_eq!(blocking_time(&set[1], &set, &ip, &tr), Ok(0));
    assert_eq!(blocking_time(&set[2], &set, &ip, &tr), Ok(4));
}

#[test]
fn blocking_is_one_longest_section_not_a_sum() {
    let set = vec![
        task("L1", 1, 100, 100, 50, vec![section("X", 0, 7, vec![]), section("X", 10, 13, vec![])]),
        task("L2", 2, 100, 100, 50, vec![section("Y", 0, 9, vec![])]),
        task("H", 3, 100, 100, 10, vec![section("X", 0, 1, vec![]), section("Y", 2, 3, vec![])]),
    ];
    let (ip, tr) = pre_analysis(&set);
    assert_eq!(blocking_time(&set[2], &set, &ip, &tr), Ok(9));
}

#[test]
fn resource_with_a_ceiling_above_blocks_a_task_that_does_not_lock_it() {
    let set = vec![
        task("L", 1, 100, 100, 50, vec![section("X", 0, 7, vec![])]),
        task("M", 2, 100, 100, 10, vec![]),
        task("H", 3, 100, 100, 10, vec![section("X", 0, 1, vec![])]),
    ];
    let (ip, tr) = pre_analysis(&set);
    assert_eq!(blocking_time(&set[1], &set, &ip, &tr), Ok(7));
    assert_eq!(blocking_time(&set[2], &set, &ip, &tr), Ok(7));
    assert_eq!(blocking_time(&set[0], &set, &ip, &tr), Ok(0));
}

#[test]
fn resource_with_a_ceiling_below_does_not_block() {
    let set = vec![
        task("L", 1, 100, 100, 50, vec![section("X", 0, 7, vec![])]),
        task("M", 2, 100, 100, 10, vec![section("X", 0, 1, vec![])]),
        task("H", 3, 100, 100, 10, vec![]),
    ];
    let (ip, tr) = pre_analysis(&set);
    assert_eq!(blocking_time(&set[2], &set, &ip, &tr), Ok(0));
    assert_eq!(blocking_time(&set[1], &set, &ip, &tr), Ok(7));
}

#[test]
fn equal_priority_neither_blocks() {
    let set = vec![
        task("A", 2, 100, 100, 50, vec![section("X", 0, 7, vec![])]),
        task("B", 2, 100, 100, 10, vec![section("X", 0, 1, vec![])]),
    ];
    let (ip, tr) = pre_analysis(&set);
    assert_eq!(blocking_time(&set[0], &set, &ip, &tr), Ok(0));
    assert_eq!(blocking_time(&set[1], &set, &ip, &tr), Ok(0));
}

#[test]
fn missing_ceiling_is_reported_with_the_resource() {
    let set = tasks();
    let none: Vec<Task> = vec![];
    let (no_ceilings, _) = pre_analysis(&none);
    let (_, tr) = pre_analysis(&set);
    assert_eq!(
        blocking_time(&set[2], &set, &no_ceilings, &tr),
        Err(AnalysisError::MissingCeiling("R1".to_string()))
    );
    assert_eq!(blocking_time(&set[0], &set, &no_ceilings, &tr), Ok(0));
}

#[test]
fn task_unknown_to_the_usage_map_holds_nothing() {
    let set = tasks();
    let none: Vec<Task> = vec![];
    let (ip, _) = pre_analysis(&set);
    let (_, no_usage) = pre_analysis(&none);
    assert_eq!(blocking_time(&set[2], &set, &ip, &no_usage), Ok(0));
}
