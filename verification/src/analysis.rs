//! Response times: execution, blocking and preemption put together, task
//! by task, into the report of a task set.

use crate::blocking::{
    blocking_bound, blocking_time, ceilings_complete, is_blocking_time, lacks_ceiling,
    lemma_blocking_time_unique,
};
use crate::error::{AnalysisError, Failure};
use crate::model::{wcet, well_formed_set, Task, TaskModel};
use crate::preemption::{
    exact_preemption, is_busy_period, is_preemption, lemma_no_interference,
    lemma_preemption_nonnegative, lemma_top_priority_unpreempted, preemption, schedulable,
};
use crate::resources::{ceiling_map, lemma_usage_is_used, pre_analysis, usage_map, Ceilings, Usage};
use vstd::prelude::*;

verus! {

/// One line of a report: a task's name, response time, execution time,
/// blocking time and preemption.
pub type Row = (String, u128, u128, u128, u128);

/// Mathematical model of a [`Row`].
pub type RowModel = (Seq<char>, int, int, int, int);

/// The model of one line of a report.
pub open spec fn row_model(row: Row) -> RowModel {
    (row.0@, row.1 as int, row.2 as int, row.3 as int, row.4 as int)
}

/// The model of a report, line by line.
pub open spec fn report_model(rows: Seq<Row>) -> Seq<RowModel> {
    Seq::new(rows.len(), |i: int| row_model(rows[i]))
}

/// `row` is the line of `task`: its blocking time and its preemption in the
/// chosen mode, and a response time that is their sum with the execution
/// time.
pub open spec fn is_row(
    task: TaskModel,
    tasks: Seq<TaskModel>,
    ceilings: Map<Seq<char>, int>,
    usage: Map<Seq<char>, Set<Seq<char>>>,
    approx: bool,
    row: RowModel,
) -> bool {
    &&& row.0 == task.id
    &&& row.2 == task.wcet()
    &&& ceilings_complete(task, tasks, ceilings, usage)
    &&& is_blocking_time(task, tasks, ceilings, usage, row.3)
    &&& is_preemption(task, tasks, ceilings, usage, approx, row.4)
    &&& row.1 == row.3 + row.2 + row.4
}

/// `failure` is why `task` has no line: a resource that its blocking time
/// depends on has no ceiling, or, in exact mode, it misses its deadline.
pub open spec fn row_fails(
    task: TaskModel,
    tasks: Seq<TaskModel>,
    ceilings: Map<Seq<char>, int>,
    usage: Map<Seq<char>, Set<Seq<char>>>,
    approx: bool,
    failure: Failure,
) -> bool {
    match failure {
        Failure::MissingCeiling(resource) => lacks_ceiling(task, tasks, ceilings, usage, resource),
        Failure::NonSchedulable(name) => {
            let blocking = blocking_bound(task, tasks, ceilings, usage);
            &&& !approx
            &&& name == task.id
            &&& ceilings_complete(task, tasks, ceilings, usage)
            &&& is_blocking_time(task, tasks, ceilings, usage, blocking)
            &&& exact_preemption(task, tasks, blocking) is None
        },
    }
}

/// `task` has a line in the chosen mode.
pub open spec fn has_row(
    task: TaskModel,
    tasks: Seq<TaskModel>,
    ceilings: Map<Seq<char>, int>,
    usage: Map<Seq<char>, Set<Seq<char>>>,
    approx: bool,
) -> bool {
    exists|row: RowModel| is_row(task, tasks, ceilings, usage, approx, row)
}

/// `rows` is the report of `tasks`: one line per task, in the order of the
/// tasks.
pub open spec fn is_report(
    tasks: Seq<TaskModel>,
    ceilings: Map<Seq<char>, int>,
    usage: Map<Seq<char>, Set<Seq<char>>>,
    approx: bool,
    rows: Seq<RowModel>,
) -> bool {
    &&& rows.len() == tasks.len()
    &&& forall|i: int|
        0 <= i < tasks.len() ==> is_row(tasks[i], tasks, ceilings, usage, approx, #[trigger] rows[i])
}

/// `failure` is why `tasks` has no report: it is the failure of the first
/// task that has no line.
pub open spec fn report_fails(
    tasks: Seq<TaskModel>,
    ceilings: Map<Seq<char>, int>,
    usage: Map<Seq<char>, Set<Seq<char>>>,
    approx: bool,
    failure: Failure,
) -> bool {
    exists|i: int|
        #![trigger tasks[i]]
        {
            &&& 0 <= i < tasks.len()
            &&& row_fails(tasks[i], tasks, ceilings, usage, approx, failure)
            &&& forall|j: int|
                0 <= j < i ==> has_row(#[trigger] tasks[j], tasks, ceilings, usage, approx)
        }
}

/// A response time is never shorter than the execution time: blocking and
/// preemption only add to it.
pub proof fn lemma_response_at_least_wcet(
    task: TaskModel,
    tasks: Seq<TaskModel>,
    ceilings: Map<Seq<char>, int>,
    usage: Map<Seq<char>, Set<Seq<char>>>,
    approx: bool,
    row: RowModel,
)
    requires
        task.well_formed(),
        well_formed_set(tasks),
        is_row(task, tasks, ceilings, usage, approx, row),
    ensures
        row.3 >= 0,
        row.4 >= 0,
        row.1 >= row.2,
{
    lemma_preemption_nonnegative(task, tasks, ceilings, usage, approx, row.4);
}

/// A task has one line only.
pub proof fn lemma_row_unique(
    task: TaskModel,
    tasks: Seq<TaskModel>,
    ceilings: Map<Seq<char>, int>,
    usage: Map<Seq<char>, Set<Seq<char>>>,
    approx: bool,
    row1: RowModel,
    row2: RowModel,
)
    requires
        is_row(task, tasks, ceilings, usage, approx, row1),
        is_row(task, tasks, ceilings, usage, approx, row2),
    ensures
        row1 == row2,
{
    lemma_blocking_time_unique(task, tasks, ceilings, usage, row1.3, row2.3);
}

/// Analysing the same task set with the same maps in the same mode twice
/// gives the same report.
pub proof fn lemma_report_unique(
    tasks: Seq<TaskModel>,
    ceilings: Map<Seq<char>, int>,
    usage: Map<Seq<char>, Set<Seq<char>>>,
    approx: bool,
    rows1: Seq<RowModel>,
    rows2: Seq<RowModel>,
)
    requires
        is_report(tasks, ceilings, usage, approx, rows1),
        is_report(tasks, ceilings, usage, approx, rows2),
    ensures
        rows1 == rows2,
{
    assert forall|i: int| 0 <= i < rows1.len() implies rows1[i] == rows2[i] by {
        lemma_row_unique(tasks[i], tasks, ceilings, usage, approx, rows1[i], rows2[i]);
    }
    assert(rows1 =~= rows2);
}

/// A task set has a report or a failure, never both.
pub proof fn lemma_report_excludes_failure(
    tasks: Seq<TaskModel>,
    ceilings: Map<Seq<char>, int>,
    usage: Map<Seq<char>, Set<Seq<char>>>,
    approx: bool,
    rows: Seq<RowModel>,
    failure: Failure,
)
    requires
        is_report(tasks, ceilings, usage, approx, rows),
    ensures
        !report_fails(tasks, ceilings, usage, approx, failure),
{
    if report_fails(tasks, ceilings, usage, approx, failure) {
        let i = choose|i: int|
            #![trigger tasks[i]]
            0 <= i < tasks.len() && row_fails(tasks[i], tasks, ceilings, usage, approx, failure);
        assert(is_row(tasks[i], tasks, ceilings, usage, approx, rows[i]));
    }
}

/// In exact mode the line of a task that no task of the set outranks shows
/// no preemption, and a response time that is its blocking time plus its
/// execution time.
pub proof fn lemma_top_priority_row(
    task: TaskModel,
    tasks: Seq<TaskModel>,
    ceilings: Map<Seq<char>, int>,
    usage: Map<Seq<char>, Set<Seq<char>>>,
    row: RowModel,
)
    requires
        forall|i: int| 0 <= i < tasks.len() ==> (#[trigger] tasks[i]).prio <= task.prio,
        is_row(task, tasks, ceilings, usage, false, row),
    ensures
        row.4 == 0,
        row.1 == row.3 + row.2,
{
    let blocking = blocking_bound(task, tasks, ceilings, usage);
    assert(schedulable(task, tasks, blocking));
    let r = choose|r: int| 0 <= r <= task.deadline && is_busy_period(task, tasks, blocking, r);
    lemma_no_interference(tasks, task.prio, r);
    lemma_top_priority_unpreempted(task, tasks, blocking);
}

/// The response time of `task` among `tasks`: blocking time, execution time
/// and preemption added up.
pub fn response_time(task: &Task, tasks: &Vec<Task>, ip: &Ceilings, tr: &Usage, approx: bool) -> (res:
    Result<u128, AnalysisError>)
    requires
        task@.well_formed(),
        well_formed_set(tasks.deep_view()),
    ensures
        match res {
            Ok(r) => exists|row: RowModel|
                is_row(task@, tasks.deep_view(), ip@, tr@, approx, row) && row.1 == r,
            Err(e) => row_fails(task@, tasks.deep_view(), ip@, tr@, approx, e@),
        },
{
    let blocking = match blocking_time(task, tasks, ip, tr) {
        Ok(b) => b,
        Err(e) => {
            return Err(e);
        },
    };
    let own = wcet(task);
    let pre = match preemption(task, tasks, ip, tr, approx) {
        Ok(p) => p,
        Err(e) => {
            return Err(e);
        },
    };
    proof {
        let row: RowModel = (
            task@.id,
            blocking + own + pre,
            own as int,
            blocking as int,
            pre as int,
        );
        assert(is_row(task@, tasks.deep_view(), ip@, tr@, approx, row));
    }
    Ok(blocking + own + pre)
}

/// The report of `tasks`: for every task, in order, its name, response
/// time, execution time, blocking time and preemption. Stops at the first
/// task that has no line and returns why.
pub fn srp_analysis(tasks: &Vec<Task>, ip: &Ceilings, tr: &Usage, approx: bool) -> (res: Result<
    Vec<Row>,
    AnalysisError,
>)
    requires
        well_formed_set(tasks.deep_view()),
    ensures
        match res {
            Ok(rows) => is_report(tasks.deep_view(), ip@, tr@, approx, report_model(rows@)),
            Err(e) => report_fails(tasks.deep_view(), ip@, tr@, approx, e@),
        },
{
    let ghost all = tasks.deep_view();
    let mut v: Vec<Row> = Vec::new();
    let mut i: usize = 0;
    while i < tasks.len()
        invariant
            i <= tasks.len(),
            all == tasks.deep_view(),
            well_formed_set(all),
            v@.len() == i,
            forall|j: int|
                0 <= j < i ==> is_row(all[j], all, ip@, tr@, approx, row_model(#[trigger] v@[j])),
        decreases tasks.len() - i,
    {
        let t = &tasks[i];
        assert(all[i as int] == t@);
        assert(all[i as int].well_formed());
        let ghost done = v@;
        proof {
            assert forall|j: int| 0 <= j < i implies has_row(
                #[trigger] all[j],
                all,
                ip@,
                tr@,
                approx,
            ) by {
                assert(is_row(all[j], all, ip@, tr@, approx, row_model(v@[j])));
            }
        }
        let blocking = match blocking_time(t, tasks, ip, tr) {
            Ok(b) => b,
            Err(e) => {
                assert(row_fails(all[i as int], all, ip@, tr@, approx, e@));
                return Err(e);
            },
        };
        let own = wcet(t);
        let pre = match preemption(t, tasks, ip, tr, approx) {
            Ok(p) => p,
            Err(e) => {
                assert(row_fails(all[i as int], all, ip@, tr@, approx, e@));
                return Err(e);
            },
        };
        v.push((t.id.clone(), blocking + own + pre, own, blocking, pre));
        proof {
            assert(forall|j: int| 0 <= j < i ==> v@[j] == done[j]);
            assert(is_row(all[i as int], all, ip@, tr@, approx, row_model(v@[i as int])));
        }
        i += 1;
    }
    Ok(v)
}

/// The analysis of a task set from scratch: both maps are derived from the
/// tasks, then the report is drawn up in the chosen mode. With maps of its
/// own making the analysis never lacks a ceiling: it fails only where, in
/// exact mode, a task misses its deadline.
pub fn cli(tasks: &Vec<Task>, approx: bool) -> (res: Result<Vec<Row>, AnalysisError>)
    requires
        well_formed_set(tasks.deep_view()),
    ensures
        match res {
            Ok(rows) => is_report(
                tasks.deep_view(),
                ceiling_map(tasks.deep_view()),
                usage_map(tasks.deep_view()),
                approx,
                report_model(rows@),
            ),
            Err(e) => {
                &&& e@ is NonSchedulable
                &&& !approx
                &&& report_fails(
                    tasks.deep_view(),
                    ceiling_map(tasks.deep_view()),
                    usage_map(tasks.deep_view()),
                    approx,
                    e@,
                )
            },
        },
{
    let (ip, tr) = pre_analysis(tasks);
    let res = srp_analysis(tasks, &ip, &tr, approx);
    proof {
        let all = tasks.deep_view();
        if let Err(e) = &res {
            let i = choose|i: int|
                #![trigger all[i]]
                0 <= i < all.len() && row_fails(all[i], all, ip@, tr@, approx, e@);
            if let Failure::MissingCeiling(r) = e@ {
                let k = choose|k: int|
                    #![trigger all[k]]
                    0 <= k < all.len() && all[k].prio < all[i].prio && tr@.contains_key(all[k].id)
                        && tr@[all[k].id].contains(r) && !ip@.contains_key(r);
                lemma_usage_is_used(all, all[k].id, r);
            }
        }
    }
    res
}

} // verus!
