//! A small task set to try the analysis on.

use crate::model::{well_formed_set, Task, TaskModel, Trace, TraceModel};
use vstd::prelude::*;

verus! {

/// The sample set: `T1` locks nothing; `T2` locks `R1` twice and, inside
/// the first of the two sections, `R2`; `T3` locks `R2`.
pub open spec fn sample_tasks() -> Seq<TaskModel> {
    seq![
        TaskModel {
            id: "T1"@,
            prio: 1,
            deadline: 100,
            period: 100,
            trace: TraceModel { id: "T1"@, start: 0, end: 10, inner: seq![] },
        },
        TaskModel {
            id: "T2"@,
            prio: 2,
            deadline: 200,
            period: 200,
            trace: TraceModel {
                id: "T2"@,
                start: 0,
                end: 30,
                inner: seq![
                    TraceModel {
                        id: "R1"@,
                        start: 10,
                        end: 20,
                        inner: seq![
                            TraceModel { id: "R2"@, start: 12, end: 16, inner: seq![] },
                        ],
                    },
                    TraceModel { id: "R1"@, start: 22, end: 28, inner: seq![] },
                ],
            },
        },
        TaskModel {
            id: "T3"@,
            prio: 3,
            deadline: 50,
            period: 50,
            trace: TraceModel {
                id: "T3"@,
                start: 0,
                end: 30,
                inner: seq![TraceModel { id: "R2"@, start: 10, end: 20, inner: seq![] }],
            },
        },
    ]
}

/// The sample set is well formed.
pub proof fn lemma_sample_well_formed()
    ensures
        well_formed_set(sample_tasks()),
{
    reveal_with_fuel(TraceModel::well_formed, 4);
    let set = sample_tasks();
    assert(set[0].well_formed());
    assert(set[1].well_formed());
    assert(set[2].well_formed());
}

/// Builds the sample set.
pub fn tasks() -> (set: Vec<Task>)
    ensures
        set.deep_view() == sample_tasks(),
        well_formed_set(set.deep_view()),
{
    let t1 = Task {
        id: "T1".to_string(),
        prio: 1,
        deadline: 100,
        inter_arrival: 100,
        trace: Trace { id: "T1".to_string(), start: 0, end: 10, inner: vec![] },
    };

    let t2 = Task {
        id: "T2".to_string(),
        prio: 2,
        deadline: 200,
        inter_arrival: 200,
        trace: Trace {
            id: "T2".to_string(),
            start: 0,
            end: 30,
            inner: vec![
                Trace {
                    id: "R1".to_string(),
                    start: 10,
                    end: 20,
                    inner: vec![Trace { id: "R2".to_string(), start: 12, end: 16, inner: vec![] }],
                },
                Trace { id: "R1".to_string(), start: 22, end: 28, inner: vec![] },
            ],
        },
    };

    let t3 = Task {
        id: "T3".to_string(),
        prio: 3,
        deadline: 50,
        inter_arrival: 50,
        trace: Trace {
            id: "T3".to_string(),
            start: 0,
            end: 30,
            inner: vec![Trace { id: "R2".to_string(), start: 10, end: 20, inner: vec![] }],
        },
    };

    let tasks: Vec<Task> = vec![t1, t2, t3];
    proof {
        let models = tasks.deep_view();
        let t1 = tasks@[0];
        let t2 = tasks@[1];
        let t3 = tasks@[2];
        t1.trace.lemma_view();
        t2.trace.lemma_view();
        t2.trace.inner@[0].lemma_view();
        t2.trace.inner@[0].inner@[0].lemma_view();
        t2.trace.inner@[1].lemma_view();
        t3.trace.lemma_view();
        t3.trace.inner@[0].lemma_view();
        assert(tasks@.len() == 3);
        assert(t1.trace.inner@.len() == 0);
        assert(t1.trace@.inner =~= seq![]);
        assert(t1@ =~~= sample_tasks()[0]);
        assert(t2.trace.inner@.len() == 2);
        assert(t2.trace.inner@[1]@ =~~= sample_tasks()[1].trace.inner[1]);
        assert(t2.trace.inner@[0].inner@[0]@ =~~= sample_tasks()[1].trace.inner[0].inner[0]);
        let a = t2.trace.inner@[0];
        assert(a@.inner.len() == 1);
        assert(a@.inner[0] == a.inner@[0]@);
        assert(a@.inner =~= sample_tasks()[1].trace.inner[0].inner);
        assert(t2.trace.inner@[0]@ =~~= sample_tasks()[1].trace.inner[0]);
        assert(t2.trace@.inner[0] == t2.trace.inner@[0]@);
        assert(t2.trace@.inner[1] == t2.trace.inner@[1]@);
        assert(t2.trace@.inner =~= sample_tasks()[1].trace.inner);
        assert(t2@ =~~= sample_tasks()[1]);
        assert(t3.trace@.inner[0] == t3.trace.inner@[0]@);
        assert(t3.trace@.inner =~= sample_tasks()[2].trace.inner);
        assert(t3@ =~~= sample_tasks()[2]);
        assert(models =~~= sample_tasks());
        lemma_sample_well_formed();
    }
    tasks
}

} // verus!
