use srp_analysis::analysis::{cli, response_time, srp_analysis};
use srp_analysis::error::AnalysisError;
use srp_analysis::model::{is_well_formed_set, wcet, Task, Trace};
use srp_analysis::resources::pre_analysis;
use srp_analysis::tasks::tasks;

fn section(id: &str, start: u32, end: u32, inner: Vec<Trace>) -> Trace {
    Trace { id: id.to_string(), start, end, inner }
}

fn task(id: &str, prio: u8, deadline: u32, period: u32, end: u32, inner: Vec<Trace>) -> Task {
    Task {
        id: id.to_string(),
        prio,
        deadline,
        inter_arrival: period,
        trace: section(id, 0, end, inner),
    }
}

#[test]
fn sample_set_is_as_documented() {
    let set = tasks();
    assert_eq!(set.len(), 3);
    assert_eq!(set[0].id, "T1");
    assert_eq!((set[0].prio, set[0].deadline, set[0].inter_arrival), (1, 100, 100));
    assert_eq!((set[0].trace.start, set[0].trace.end), (0, 10));
    assert!(set[0].trace.inner.is_empty());
    assert_eq!(set[1].id, "T2");
    assert_eq!((set[1].prio, set[1].deadline, set[1].inter_arrival), (2, 200, 200));
    assert_eq!(set[1].trace.inner.len(), 2);
    assert_eq!(set[1].trace.inner[0].id, "R1");
    assert_eq!((set[1].trace.inner[0].start, set[1].trace.inner[0].end), (10, 20));
    assert_eq!(set[1].trace.inner[0].inner[0].id, "R2");
    assert_eq!(
        (set[1].trace.inner[0].inner[0].start, set[1].trace.inner[0].inner[0].end),
        (12, 16)
    );
    assert_eq!(set[1].trace.inner[1].id, "R1");
    assert_eq!((set[1].trace.inner[1].start, set[1].trace.inner[1].end), (22, 28));
    assert_eq!(set[2].id, "T3");
    assert_eq!((set[2].prio, set[2].deadline, set[2].inter_arrival), (3, 50, 50));
    assert_eq!(set[2].trace.inner[0].id, "R2");
    assert_eq!((set[2].trace.inner[0].start, set[2].trace.inner[0].end), (10, 20));
    assert!(is_well_formed_set(&set));
}

#[test]
fn execution_time_is_the_span_of_the_root() {
    let set = tasks();
    assert_eq!(wcet(&set[0]), 10);
    assert_eq!(wcet(&set[1]), 30);
    assert_eq!(wcet(&set[2]), 30);
    let shifted = Task {
        id: "S".to_string(),
        prio: 1,
        deadline: 10,
        inter_arrival: 10,
        trace: section("S", 5, 9, vec![]),
    };
    assert_eq!(wcet(&shifted), 4);
}

#[test]
fn well_formedness_is_checked() {
    assert!(task("A", 1, 10, 10, 5, vec![]).is_well_formed());
    assert!(!task("A", 1, 0, 10, 5, vec![]).is_well_formed());
    assert!(!task("A", 1, 10, 0, 5, vec![]).is_well_formed());
    assert!(!task("A", 1, 10, 10, 5, vec![section("X", 3, 2, vec![])]).is_well_formed());
    assert!(!task(
        "A",
        1,
        10,
        10,
        5,
        vec![section("X", 1, 2, vec![section("Y", 9, 8, vec![])])]
    )
    .is_well_formed());
    assert!(section("X", 4, 4, vec![]).is_well_formed());
    assert!(!section("X", 5, 4, vec![]).is_well_formed());
    let mut set = tasks();
    assert!(is_well_formed_set(&set));
    set[1].inter_arrival = 0;
    assert!(!is_well_formed_set(&set));
    assert!(is_well_formed_set(&vec![]));
}

#[test]
fn exact_report_of_the_sample() {
    let set = tasks();
    let (ip, tr) = pre_analysis(&set);
    let report = srp_analysis(&set, &ip, &tr, false).unwrap();
    assert_eq!(
        report,
        vec![
            ("T1".to_string(), 100, 10, 0, 90),
            ("T2".to_string(), 90, 30, 0, 60),
            ("T3".to_string(), 34, 30, 4, 0),
        ]
    );
}

#[test]
fn approximate_report_of_the_sample() {
    let set = tasks();
    let (ip, tr) = pre_analysis(&set);
    let report = srp_analysis(&set, &ip, &tr, true).unwrap();
    assert_eq!(
        report,
        vec![
            ("T1".to_string(), 40, 10, 0, 30),
            ("T2".to_string(), 150, 30, 0, 120),
            ("T3".to_string(), 34, 30, 4, 0),
        ]
    );
}

#[test]
fn response_time_adds_the_three_parts() {
    let set = tasks();
    let (ip, tr) = pre_analysis(&set);
    assert_eq!(response_time(&set[0], &set, &ip, &tr, false), Ok(100));
    assert_eq!(response_time(&set[1], &set, &ip, &tr, false), Ok(90));
    assert_eq!(response_time(&set[2], &set, &ip, &tr, false), Ok(34));
    assert_eq!(response_time(&set[0], &set, &ip, &tr, true), Ok(40));
    assert_eq!(response_time(&set[1], &set, &ip, &tr, true), Ok(150));
    assert_eq!(response_time(&set[2], &set, &ip, &tr, true), Ok(34));
}

#[test]
fn response_time_is_never_below_the_execution_time() {
    let set = tasks();
    let (ip, tr) = pre_analysis(&set);
    for approx in [false, true] {
        for row in srp_analysis(&set, &ip, &tr, approx).unwrap() {
            assert!(row.1 >= row.2);
            assert_eq!(row.1, row.3 + row.2 + row.4);
        }
    }
}

#[test]
fn analysing_twice_gives_the_same_report() {
    let set = tasks();
    let (ip, tr) = pre_analysis(&set);
    for approx in [false, true] {
        let first = srp_analysis(&set, &ip, &tr, approx);
        let second = srp_analysis(&set, &ip, &tr, approx);
        assert_eq!(first, second);
        assert_eq!(cli(&set, approx), first);
        assert_eq!(cli(&set, approx), cli(&set, approx));
    }
}

#[test]
fn front_end_derives_the_maps_itself() {
    let set = tasks();
    let report = cli(&set, false).unwrap();
    assert_eq!(report[0], ("T1".to_string(), 100, 10, 0, 90));
    assert_eq!(report[1], ("T2".to_string(), 90, 30, 0, 60));
    assert_eq!(report[2], ("T3".to_string(), 34, 30, 4, 0));
    let estimate = cli(&set, true).unwrap();
    assert_eq!(estimate[0].4, 30);
    assert_eq!(estimate[1].4, 120);
    assert_eq!(estimate[2].4, 0);
}

#[test]
fn top_priority_response_is_blocking_plus_execution() {
    let set = tasks();
    let report = cli(&set, false).unwrap();
    assert_eq!(report[2].4, 0);
    assert_eq!(report[2].1, report[2].3 + report[2].2);
}

#[test]
fn empty_task_set_has_an_empty_report() {
    let set: Vec<Task> = vec![];
    assert_eq!(cli(&set, false), Ok(vec![]));
    assert_eq!(cli(&set, true), Ok(vec![]));
}

#[test]
fn first_deadline_miss_stops_the_exact_analysis() {
    let mut set = tasks();
    set[0].deadline = 99;
    set[1].deadline = 89;
    assert_eq!(cli(&set, false), Err(AnalysisError::NonSchedulable("T1".to_string())));
    let (ip, tr) = pre_analysis(&set);
    assert_eq!(
        response_time(&set[1], &set, &ip, &tr, false),
        Err(AnalysisError::NonSchedulable("T2".to_string()))
    );
    assert_eq!(response_time(&set[2], &set, &ip, &tr, false), Ok(34));
}

#[test]
fn approximate_analysis_does_not_check_deadlines() {
    let mut set = tasks();
    set[0].deadline = 1;
    let report = cli(&set, true).unwrap();
    // ceil(1 / 200) + ceil(1 / 50) = 2 activations, each charged 10
    assert_eq!(report[0], ("T1".to_string(), 30, 10, 0, 20));
}

#[test]
fn report_fails_on_a_missing_ceiling_in_either_mode() {
    let set = tasks();
    let none: Vec<Task> = vec![];
    let (no_ceilings, _) = pre_analysis(&none);
    let (_, tr) = pre_analysis(&set);
    let missing = AnalysisError::MissingCeiling("R1".to_string());
    assert_eq!(srp_analysis(&set, &no_ceilings, &tr, false).unwrap_err(), missing);
    assert_eq!(srp_analysis(&set, &no_ceilings, &tr, true).unwrap_err(), missing);
    assert_eq!(response_time(&set[2], &set, &no_ceilings, &tr, true).unwrap_err(), missing);
    assert_eq!(response_time(&set[0], &set, &no_ceilings, &tr, true), Ok(40));
}

#[test]
fn blocking_enters_the_busy_period() {
    let set = vec![
        task("L", 1, 100, 100, 20, vec![section("X", 0, 6, vec![])]),
        task("M", 2, 40, 40, 10, vec![section("X", 0, 1, vec![])]),
        task("H", 3, 10, 10, 2, vec![]),
    ];
    let report = cli(&set, false).unwrap();
    // M: 10 + 6 = 16, two activations of H within 16, then 20: still two
    assert_eq!(report[1], ("M".to_string(), 20, 10, 6, 4));
    assert_eq!(report[2], ("H".to_string(), 2, 2, 0, 0));
    // L: 20, +10 +4 = 34, +10 +8 = 38, +10 +8 = 38
    assert_eq!(report[0], ("L".to_string(), 38, 20, 0, 18));
}

#[test]
fn span_is_end_less_start() {
    assert_eq!(section("X", 3, 11, vec![]).span(), 8);
    assert_eq!(section("X", 7, 7, vec![]).span(), 0);
    assert_eq!(section("X", 0, u32::MAX, vec![]).span(), u32::MAX);
}
