use srp_analysis::model::{Task, Trace};
use srp_analysis::resources::pre_analysis;
use srp_analysis::tasks::tasks;

fn section(id: &str, start: u32, end: u32, inner: Vec<Trace>) -> Trace {
    Trace { id: id.to_string(), start, end, inner }
}

fn task(id: &str, prio: u8, deadline: u32, period: u32, end: u32, inner: Vec<Trace>) -> Task {
    Task {
        id: id.to_string(),
        prio,
        deadline,
        inter_arrival: period,
        trace: section(id, 0, end, inner),
    }
}

#[test]
fn sample_ceilings_are_highest_user_priorities() {
    let set = tasks();
    let (ip, _tr) = pre_analysis(&set);
    assert_eq!(ip.get("R1"), Some(2));
    assert_eq!(ip.get("R2"), Some(3));
}

#[test]
fn task_names_get_no_ceiling() {
    let set = tasks();
    let (ip, _tr) = pre_analysis(&set);
    assert_eq!(ip.get("T1"), None);
    assert_eq!(ip.get("T2"), None);
    assert_eq!(ip.get("T3"), None);
    assert_eq!(ip.get("R3"), None);
}

#[test]
fn sample_usage_lists_each_resource_once() {
    let set = tasks();
    let (_ip, tr) = pre_analysis(&set);
    let t1 = tr.resources("T1").unwrap();
    assert!(t1.is_empty());
    let mut t2 = tr.resources("T2").unwrap().clone();
    t2.sort();
    assert_eq!(t2, vec!["R1".to_string(), "R2".to_string()]);
    let t3 = tr.resources("T3").unwrap();
    assert_eq!(t3, &vec!["R2".to_string()]);
    assert!(tr.resources("T4").is_none());
}

#[test]
fn empty_task_set_gives_empty_maps() {
    let set: Vec<Task> = vec![];
    let (ip, tr) = pre_analysis(&set);
    assert_eq!(ip.get("R1"), None);
    assert!(tr.resources("T1").is_none());
}

#[test]
fn resource_of_a_single_task_has_that_tasks_priority() {
    let set = vec![
        task("A", 7, 10, 10, 5, vec![section("X", 1, 2, vec![])]),
        task("B", 9, 10, 10, 5, vec![]),
    ];
    let (ip, tr) = pre_analysis(&set);
    assert_eq!(ip.get("X"), Some(7));
    assert_eq!(tr.resources("A").unwrap(), &vec!["X".to_string()]);
    assert!(tr.resources("B").unwrap().is_empty());
}

#[test]
fn ceiling_does_not_depend_on_task_order() {
    let high_first = vec![
        task("A", 9, 10, 10, 5, vec![section("X", 1, 2, vec![])]),
        task("B", 3, 10, 10, 5, vec![section("X", 1, 2, vec![])]),
    ];
    let low_first = vec![
        task("B", 3, 10, 10, 5, vec![section("X", 1, 2, vec![])]),
        task("A", 9, 10, 10, 5, vec![section("X", 1, 2, vec![])]),
    ];
    assert_eq!(pre_analysis(&high_first).0.get("X"), Some(9));
    assert_eq!(pre_analysis(&low_first).0.get("X"), Some(9));
}

#[test]
fn deeply_nested_resources_are_found() {
    let set = vec![task(
        "A",
        4,
        100,
        100,
        50,
        vec![section(
            "X",
            1,
            40,
            vec![section("Y", 2, 30, vec![section("Z", 3, 20, vec![])])],
        )],
    )];
    let (ip, tr) = pre_analysis(&set);
    assert_eq!(ip.get("X"), Some(4));
    assert_eq!(ip.get("Y"), Some(4));
    assert_eq!(ip.get("Z"), Some(4));
    let mut used = tr.resources("A").unwrap().clone();
    used.sort();
    assert_eq!(used, vec!["X".to_string(), "Y".to_string(), "Z".to_string()]);
}

#[test]
fn later_task_of_the_same_name_replaces_the_usage_entry() {
    let set = vec![
        task("A", 1, 10, 10, 5, vec![section("X", 1, 2, vec![])]),
        task("A", 2, 10, 10, 5, vec![section("Y", 1, 2, vec![])]),
    ];
    let (ip, tr) = pre_analysis(&set);
    assert_eq!(tr.resources("A").unwrap(), &vec!["Y".to_string()]);
    assert_eq!(ip.get("X"), Some(1));
    assert_eq!(ip.get("Y"), Some(2));
}
