use srp_analysis::analysis::srp_analysis;
use srp_analysis::model::{Task, Trace};
use srp_analysis::resources::pre_analysis;

#[test]
fn test_preemption() {
    let t1 = Task {
        id: "T1".to_string(),
        prio: 1,
        deadline: 100,
        inter_arrival: 100,
        trace: Trace {
            id: "T1".to_string(),
            start: 0,
            end: 10,
            inner: vec![],
        },
    };

    let t2 = Task {
        id: "T2".to_string(),
        prio: 2,
        deadline: 200,
        inter_arrival: 200,
        trace: Trace {
            id: "T2".to_string(),
            start: 0,
            end: 30,
            inner: vec![
                Trace {
                    id: "R1".to_string(),
                    start: 10,
                    end: 20,
                    inner: vec![Trace {
                        id: "R2".to_string(),
                        start: 12,
                        end: 16,
                        inner: vec![],
                    }],
                },
                Trace {
                    id: "R1".to_string(),
                    start: 22,
                    end: 28,
                    inner: vec![],
                },
            ],
        },
    };

    let t3 = Task {
        id: "T3".to_string(),
        prio: 3,
        deadline: 50,
        inter_arrival: 50,
        trace: Trace {
            id: "T3".to_string(),
            start: 0,
            end: 30,
            inner: vec![Trace {
                id: "R2".to_string(),
                start: 10,
                end: 20,
                inner: vec![],
            }],
        },
    };

    // builds a vector of tasks t1, t2, t3
    let tasks: Vec<Task> = vec![t1, t2, t3];

    let (ip, tr) = pre_analysis(&tasks);
    let exact = srp_analysis(&tasks, &ip, &tr, false).unwrap();
    assert_eq!(exact[0].4 as f32, 90.0);
    assert_eq!(exact[1].4 as f32, 60.0);
    assert_eq!(exact[2].4 as f32, 0.0);

    let approx = srp_analysis(&tasks, &ip, &tr, true).unwrap();
    assert_eq!(approx[0].4 as f32, 30.0);
    assert_eq!(approx[1].4 as f32, 120.0);
    assert_eq!(approx[2].4 as f32, 0.0);
}
