//! Preemption: the time a task loses to tasks of higher priority, by a
//! closed-form estimate and by the exact busy-period recurrence.

use crate::blocking::{
    blocking_bound, blocking_time, ceilings_complete, is_blocking_time, lacks_ceiling,
    lemma_blocking_time_unique, may_block,
};
use crate::error::{AnalysisError, Failure};
use crate::model::{lemma_well_formed_prefix, wcet, well_formed_set, Task, TaskModel};
use crate::resources::{Ceilings, Usage};
use vstd::prelude::*;

verus! {

/// The quotient `a / b` rounded up, for `a >= 0` and `b > 0`.
pub open spec fn ceil_div(a: int, b: int) -> int {
    if a % b == 0 {
        a / b
    } else {
        a / b + 1
    }
}

/// `ceil_div(a, b)` is the least number of steps of width `b` that cover `a`.
pub proof fn lemma_ceil_div(a: int, b: int)
    requires
        a >= 0,
        b > 0,
    ensures
        (ceil_div(a, b) - 1) * b < a <= ceil_div(a, b) * b,
        0 <= ceil_div(a, b) <= a,
{
    let q = a / b;
    let m = a % b;
    assert(a == b * q + m && 0 <= m < b) by (nonlinear_arith)
        requires
            q == a / b,
            m == a % b,
            b > 0,
    ;
    assert(q >= 0) by (nonlinear_arith)
        requires
            a == b * q + m,
            0 <= m < b,
            a >= 0,
            b > 0,
    ;
    let c = ceil_div(a, b);
    assert((c - 1) * b < a <= c * b) by (nonlinear_arith)
        requires
            a == b * q + m,
            0 <= m < b,
            c == if m == 0 {
                q
            } else {
                q + 1
            },
    ;
    assert(c <= a) by (nonlinear_arith)
        requires
            (c - 1) * b < a,
            b >= 1,
            a >= 0,
            c >= 0,
    ;
}

/// A longer window never has fewer activations.
pub proof fn lemma_ceil_div_monotone(a1: int, a2: int, b: int)
    requires
        0 <= a1 <= a2,
        b > 0,
    ensures
        ceil_div(a1, b) <= ceil_div(a2, b),
{
    lemma_ceil_div(a1, b);
    lemma_ceil_div(a2, b);
    let c1 = ceil_div(a1, b);
    let c2 = ceil_div(a2, b);
    assert(c1 <= c2) by (nonlinear_arith)
        requires
            (c1 - 1) * b < a1,
            a1 <= a2,
            a2 <= c2 * b,
            b > 0,
    ;
}

/// Computes [`ceil_div`].
pub fn div_ceil(a: u128, b: u128) -> (c: u128)
    requires
        b > 0,
    ensures
        c == ceil_div(a as int, b as int),
{
    proof {
        lemma_ceil_div(a as int, b as int);
    }
    if a % b == 0 {
        a / b
    } else {
        a / b + 1
    }
}

/// The time that the tasks of priority above `prio` run within a window of
/// length `window`: each is activated once per period, rounded up, and runs
/// for its execution time at each activation.
pub open spec fn interference(tasks: Seq<TaskModel>, prio: int, window: int) -> int
    decreases tasks.len(),
{
    if tasks.len() == 0 {
        0
    } else {
        interference(tasks.drop_last(), prio, window) + if tasks.last().prio > prio {
            ceil_div(window, tasks.last().period) * tasks.last().wcet()
        } else {
            0
        }
    }
}

/// The closed-form estimate of the preemption of `task`: for every task of
/// higher priority, the execution time of `task` itself times the number of
/// that task's periods that its deadline spans, rounded up.
pub open spec fn approx_preemption(task: TaskModel, tasks: Seq<TaskModel>) -> int
    decreases tasks.len(),
{
    if tasks.len() == 0 {
        0
    } else {
        approx_preemption(task, tasks.drop_last()) + if tasks.last().prio > task.prio {
            task.wcet() * ceil_div(task.deadline, tasks.last().period)
        } else {
            0
        }
    }
}

/// `r` solves the busy-period equation of `task`: it is the execution time
/// plus the blocking time plus the interference within `r` itself.
pub open spec fn is_busy_period(
    task: TaskModel,
    tasks: Seq<TaskModel>,
    blocking: int,
    r: int,
) -> bool {
    r == task.wcet() + blocking + interference(tasks, task.prio, r)
}

/// `r` is the response time of `task`: the least solution of its
/// busy-period equation.
pub open spec fn is_response_time(
    task: TaskModel,
    tasks: Seq<TaskModel>,
    blocking: int,
    r: int,
) -> bool {
    &&& r >= 0
    &&& is_busy_period(task, tasks, blocking, r)
    &&& forall|s: int| 0 <= s < r ==> !is_busy_period(task, tasks, blocking, s)
}

/// `task` meets its deadline: its busy-period equation has a solution that
/// does not exceed the deadline.
pub open spec fn schedulable(task: TaskModel, tasks: Seq<TaskModel>, blocking: int) -> bool {
    exists|r: int| 0 <= r <= task.deadline && is_busy_period(task, tasks, blocking, r)
}

/// The response time of `task` as a value.
pub open spec fn response_bound(task: TaskModel, tasks: Seq<TaskModel>, blocking: int) -> int {
    choose|r: int| is_response_time(task, tasks, blocking, r)
}

/// The exact preemption of `task`: its response time less its execution
/// and blocking time where it meets its deadline, nothing where it does not.
pub open spec fn exact_preemption(task: TaskModel, tasks: Seq<TaskModel>, blocking: int) -> Option<
    int,
> {
    if schedulable(task, tasks, blocking) {
        Some(response_bound(task, tasks, blocking) - task.wcet() - blocking)
    } else {
        None
    }
}

/// Interference is never negative, and never shrinks as the window grows.
pub proof fn lemma_interference_monotone(tasks: Seq<TaskModel>, prio: int, w1: int, w2: int)
    requires
        well_formed_set(tasks),
        0 <= w1 <= w2,
    ensures
        0 <= interference(tasks, prio, w1) <= interference(tasks, prio, w2),
    decreases tasks.len(),
{
    if tasks.len() > 0 {
        let last = tasks.last();
        let rest = tasks.drop_last();
        assert(last.well_formed());
        assert(well_formed_set(rest)) by {
            assert forall|i: int| 0 <= i < rest.len() implies (#[trigger] rest[i]).well_formed() by {
                assert(rest[i] == tasks[i]);
            }
        }
        lemma_interference_monotone(rest, prio, w1, w2);
        lemma_ceil_div(w1, last.period);
        lemma_ceil_div_monotone(w1, w2, last.period);
        let c1 = ceil_div(w1, last.period);
        let c2 = ceil_div(w2, last.period);
        let e = last.wcet();
        assert(0 <= c1 * e <= c2 * e) by (nonlinear_arith)
            requires
                0 <= c1 <= c2,
                e >= 0,
        ;
    }
}

/// Among the solutions of the busy-period equation up to `bound` there is a
/// least one: the response time.
pub proof fn lemma_least_busy_period(
    task: TaskModel,
    tasks: Seq<TaskModel>,
    blocking: int,
    bound: int,
)
    requires
        0 <= bound,
        is_busy_period(task, tasks, blocking, bound),
    ensures
        exists|r: int| 0 <= r <= bound && is_response_time(task, tasks, blocking, r),
        0 <= response_bound(task, tasks, blocking) <= bound,
        is_response_time(task, tasks, blocking, response_bound(task, tasks, blocking)),
{
    lemma_search_busy_period(task, tasks, blocking, bound, 0);
    let r = choose|r: int| 0 <= r <= bound && is_response_time(task, tasks, blocking, r);
    lemma_response_time_unique(task, tasks, blocking, r, r);
}

proof fn lemma_search_busy_period(
    task: TaskModel,
    tasks: Seq<TaskModel>,
    blocking: int,
    bound: int,
    from: int,
)
    requires
        0 <= from <= bound,
        is_busy_period(task, tasks, blocking, bound),
        forall|s: int| 0 <= s < from ==> !is_busy_period(task, tasks, blocking, s),
    ensures
        exists|r: int| 0 <= r <= bound && is_response_time(task, tasks, blocking, r),
    decreases bound - from,
{
    if is_busy_period(task, tasks, blocking, from) {
        assert(is_response_time(task, tasks, blocking, from));
    } else {
        lemma_search_busy_period(task, tasks, blocking, bound, from + 1);
    }
}

/// Growing a window that the busy-period equation outgrows, below a window
/// that the equation does not outgrow, arrives at a solution between them.
proof fn lemma_climb(task: TaskModel, tasks: Seq<TaskModel>, blocking: int, r: int, bound: int)
    requires
        well_formed_set(tasks),
        0 <= r <= bound,
        r <= task.wcet() + blocking + interference(tasks, task.prio, r),
        task.wcet() + blocking + interference(tasks, task.prio, bound) <= bound,
    ensures
        exists|x: int| r <= x <= bound && is_busy_period(task, tasks, blocking, x),
    decreases bound - r,
{
    let next = task.wcet() + blocking + interference(tasks, task.prio, r);
    if next == r {
        assert(is_busy_period(task, tasks, blocking, r));
    } else {
        lemma_interference_monotone(tasks, task.prio, r, bound);
        lemma_interference_monotone(tasks, task.prio, r, next);
        lemma_climb(task, tasks, blocking, next, bound);
        let x = choose|x: int| next <= x <= bound && is_busy_period(task, tasks, blocking, x);
        assert(r <= x <= bound && is_busy_period(task, tasks, blocking, x));
    }
}

/// Heavier tasks interfere at least as much: where every task keeps its
/// priority and period and none has a shorter execution time, the
/// interference within a window does not shrink.
pub proof fn lemma_interference_grows_with_wcet(
    light: Seq<TaskModel>,
    heavy: Seq<TaskModel>,
    prio: int,
    window: int,
)
    requires
        well_formed_set(light),
        light.len() == heavy.len(),
        forall|i: int|
            #![trigger light[i]]
            #![trigger heavy[i]]
            0 <= i < light.len() ==> light[i].prio == heavy[i].prio && light[i].period
                == heavy[i].period && (light[i].prio > prio ==> light[i].wcet()
                <= heavy[i].wcet()),
        0 <= window,
    ensures
        interference(light, prio, window) <= interference(heavy, prio, window),
    decreases light.len(),
{
    if light.len() > 0 {
        let n = light.len() - 1;
        assert(light[n].well_formed());
        assert(light.last() == light[n] && heavy.last() == heavy[n]);
        lemma_well_formed_prefix(light, n);
        assert(light.take(n) =~= light.drop_last());
        assert forall|i: int|
            #![trigger light.drop_last()[i]]
            #![trigger heavy.drop_last()[i]]
            0 <= i < light.drop_last().len() implies light.drop_last()[i].prio
            == heavy.drop_last()[i].prio && light.drop_last()[i].period
            == heavy.drop_last()[i].period && (light.drop_last()[i].prio > prio
            ==> light.drop_last()[i].wcet() <= heavy.drop_last()[i].wcet()) by {
            assert(light.drop_last()[i] == light[i]);
            assert(heavy.drop_last()[i] == heavy[i]);
        }
        lemma_interference_grows_with_wcet(light.drop_last(), heavy.drop_last(), prio, window);
        lemma_ceil_div(window, light[n].period);
        let c = ceil_div(window, light[n].period);
        let e1 = light[n].wcet();
        let e2 = heavy[n].wcet();
        if light[n].prio > prio {
            assert(c * e1 <= c * e2) by (nonlinear_arith)
                requires
                    0 <= c,
                    e1 <= e2,
            ;
        }
    }
}

/// A longer execution time of a task of higher priority never shortens the
/// exact preemption of a task below it. Where `task` meets its deadline
/// among the heavier tasks it meets it among the lighter ones, with no more
/// preemption.
pub proof fn lemma_exact_preemption_monotone(
    task: TaskModel,
    light: Seq<TaskModel>,
    heavy: Seq<TaskModel>,
    blocking: int,
)
    requires
        well_formed_set(light),
        0 <= task.wcet() + blocking,
        light.len() == heavy.len(),
        forall|i: int|
            #![trigger light[i]]
            #![trigger heavy[i]]
            0 <= i < light.len() ==> light[i].prio == heavy[i].prio && light[i].period
                == heavy[i].period && (light[i].prio > task.prio ==> light[i].wcet()
                <= heavy[i].wcet()),
        exact_preemption(task, heavy, blocking) is Some,
    ensures
        exact_preemption(task, light, blocking) is Some,
        exact_preemption(task, light, blocking)->0 <= exact_preemption(task, heavy, blocking)->0,
{
    let bound = choose|r: int| 0 <= r <= task.deadline && is_busy_period(task, heavy, blocking, r);
    lemma_least_busy_period(task, heavy, blocking, bound);
    let r2 = response_bound(task, heavy, blocking);
    let base = task.wcet() + blocking;
    lemma_interference_grows_with_wcet(light, heavy, task.prio, r2);
    lemma_interference_monotone(light, task.prio, base, base);
    lemma_interference_monotone(light, task.prio, r2, r2);
    lemma_climb(task, light, blocking, base, r2);
    let x = choose|x: int| base <= x <= r2 && is_busy_period(task, light, blocking, x);
    lemma_least_busy_period(task, light, blocking, x);
    assert(is_busy_period(task, light, blocking, x) && 0 <= x <= task.deadline);
}

/// A task that no task of the set outranks is never preempted: where its
/// execution plus blocking time fits its deadline, that sum is its response
/// time and its exact preemption is zero.
pub proof fn lemma_top_priority_unpreempted(
    task: TaskModel,
    tasks: Seq<TaskModel>,
    blocking: int,
)
    requires
        forall|i: int| 0 <= i < tasks.len() ==> (#[trigger] tasks[i]).prio <= task.prio,
        0 <= task.wcet() + blocking <= task.deadline,
    ensures
        is_response_time(task, tasks, blocking, task.wcet() + blocking),
        exact_preemption(task, tasks, blocking) == Some(0int),
{
    let base = task.wcet() + blocking;
    assert forall|w: int| interference(tasks, task.prio, w) == 0 by {
        lemma_no_interference(tasks, task.prio, w);
    }
    assert(is_busy_period(task, tasks, blocking, base));
    assert(is_response_time(task, tasks, blocking, base));
    lemma_response_time_unique(task, tasks, blocking, base, base);
}

/// Without a task of higher priority there is no interference.
pub proof fn lemma_no_interference(tasks: Seq<TaskModel>, prio: int, window: int)
    requires
        forall|i: int| 0 <= i < tasks.len() ==> (#[trigger] tasks[i]).prio <= prio,
    ensures
        interference(tasks, prio, window) == 0,
    decreases tasks.len(),
{
    if tasks.len() > 0 {
        let n = tasks.len() - 1;
        assert(tasks.last() == tasks[n]);
        assert forall|i: int| 0 <= i < tasks.drop_last().len() implies (
        #[trigger] tasks.drop_last()[i]).prio <= prio by {
            assert(tasks.drop_last()[i] == tasks[i]);
        }
        lemma_no_interference(tasks.drop_last(), prio, window);
    }
}

/// The deadline itself is in time: a task whose response time equals its
/// deadline meets it, and one whose response time is later by any amount
/// does not.
pub proof fn lemma_deadline_boundary(
    task: TaskModel,
    tasks: Seq<TaskModel>,
    blocking: int,
    r: int,
)
    requires
        is_response_time(task, tasks, blocking, r),
    ensures
        schedulable(task, tasks, blocking) <==> r <= task.deadline,
        r <= task.deadline ==> exact_preemption(task, tasks, blocking) == Some(
            r - task.wcet() - blocking,
        ),
        r > task.deadline ==> exact_preemption(task, tasks, blocking) is None,
{
    lemma_response_time_unique(task, tasks, blocking, r, r);
    if r <= task.deadline {
        assert(0 <= r <= task.deadline && is_busy_period(task, tasks, blocking, r));
    }
}

/// The closed-form estimate is never negative.
pub proof fn lemma_approx_preemption_nonnegative(task: TaskModel, tasks: Seq<TaskModel>)
    requires
        task.well_formed(),
        well_formed_set(tasks),
    ensures
        approx_preemption(task, tasks) >= 0,
    decreases tasks.len(),
{
    if tasks.len() > 0 {
        let n = tasks.len() - 1;
        assert(tasks.last() == tasks[n]);
        assert(tasks[n].well_formed());
        lemma_well_formed_prefix(tasks, n);
        assert(tasks.take(n) =~= tasks.drop_last());
        lemma_approx_preemption_nonnegative(task, tasks.drop_last());
        lemma_ceil_div(task.deadline, tasks[n].period);
        let c = ceil_div(task.deadline, tasks[n].period);
        let e = task.wcet();
        assert(e * c >= 0) by (nonlinear_arith)
            requires
                e >= 0,
                c >= 0,
        ;
    }
}

/// The exact preemption is never negative.
pub proof fn lemma_exact_preemption_nonnegative(
    task: TaskModel,
    tasks: Seq<TaskModel>,
    blocking: int,
)
    requires
        well_formed_set(tasks),
        exact_preemption(task, tasks, blocking) is Some,
    ensures
        exact_preemption(task, tasks, blocking)->0 >= 0,
{
    let bound = choose|r: int|
        0 <= r <= task.deadline && is_busy_period(task, tasks, blocking, r);
    lemma_least_busy_period(task, tasks, blocking, bound);
    let r = response_bound(task, tasks, blocking);
    lemma_interference_monotone(tasks, task.prio, r, r);
}

/// Computes [`interference`] for the tasks above `task` within `window`.
fn interference_within(task: &Task, tasks: &Vec<Task>, window: u128) -> (total: u128)
    requires
        well_formed_set(tasks.deep_view()),
        window <= u32::MAX,
    ensures
        total == interference(tasks.deep_view(), task@.prio, window as int),
{
    let ghost all = tasks.deep_view();
    let mut total: u128 = 0;
    let mut i: usize = 0;
    while i < tasks.len()
        invariant
            i <= tasks.len(),
            all == tasks.deep_view(),
            well_formed_set(all),
            window <= u32::MAX,
            total == interference(all.take(i as int), task@.prio, window as int),
            total <= i * 0x1_0000_0000_0000_0000,
        decreases tasks.len() - i,
    {
        let t = &tasks[i];
        proof {
            assert(all.take(i + 1).drop_last() =~= all.take(i as int));
            assert(all.take(i + 1).last() == t@);
            assert(all[i as int].well_formed());
        }
        if t.prio > task.prio {
            let activations = div_ceil(window, t.inter_arrival as u128);
            let cost = wcet(t);
            proof {
                lemma_ceil_div(window as int, t@.period);
                assert(activations * cost <= 0xffff_ffff * 0xffff_ffff) by (nonlinear_arith)
                    requires
                        0 <= activations <= 0xffff_ffff,
                        0 <= cost <= 0xffff_ffff,
                ;
            }
            total = total + activations * cost;
        }
        i += 1;
    }
    proof {
        assert(all.take(tasks.len() as int) =~= all);
    }
    total
}

/// The closed-form estimate of the preemption of `task` among `tasks`.
pub fn preemption_approx(task: &Task, tasks: &Vec<Task>) -> (p: u128)
    requires
        task@.well_formed(),
        well_formed_set(tasks.deep_view()),
    ensures
        p == approx_preemption(task@, tasks.deep_view()),
        p <= tasks.len() * 0x1_0000_0000_0000_0000,
{
    let ghost all = tasks.deep_view();
    let own = wcet(task);
    let mut preemption: u128 = 0;
    let mut i: usize = 0;
    while i < tasks.len()
        invariant
            i <= tasks.len(),
            all == tasks.deep_view(),
            well_formed_set(all),
            own == task@.wcet(),
            own <= u32::MAX,
            preemption == approx_preemption(task@, all.take(i as int)),
            preemption <= i * 0x1_0000_0000_0000_0000,
        decreases tasks.len() - i,
    {
        let t = &tasks[i];
        proof {
            assert(all.take(i + 1).drop_last() =~= all.take(i as int));
            assert(all.take(i + 1).last() == t@);
            assert(all[i as int].well_formed());
        }
        if t.prio > task.prio {
            let activations = div_ceil(task.deadline as u128, t.inter_arrival as u128);
            proof {
                lemma_ceil_div(task@.deadline, t@.period);
                assert(own * activations <= 0xffff_ffff * 0xffff_ffff) by (nonlinear_arith)
                    requires
                        0 <= activations <= 0xffff_ffff,
                        0 <= own <= 0xffff_ffff,
                ;
            }
            preemption = preemption + own * activations;
        }
        i += 1;
    }
    proof {
        assert(all.take(tasks.len() as int) =~= all);
    }
    preemption
}

/// The exact preemption of `task` among `tasks`, given its blocking time:
/// the busy period is grown from the execution plus blocking time until it
/// no longer changes. Fails where it would pass the deadline.
pub fn preemption_exact(task: &Task, tasks: &Vec<Task>, blocking: u128) -> (res: Result<
    u128,
    AnalysisError,
>)
    requires
        task@.well_formed(),
        well_formed_set(tasks.deep_view()),
    ensures
        match res {
            Ok(p) => {
                &&& is_response_time(
                    task@,
                    tasks.deep_view(),
                    blocking as int,
                    task@.wcet() + blocking + p,
                )
                &&& task@.wcet() + blocking + p <= task@.deadline
                &&& exact_preemption(task@, tasks.deep_view(), blocking as int) == Some(p as int)
                &&& p <= u32::MAX
            },
            Err(e) => {
                &&& e@ == Failure::NonSchedulable(task@.id)
                &&& !schedulable(task@, tasks.deep_view(), blocking as int)
                &&& exact_preemption(task@, tasks.deep_view(), blocking as int) is None
            },
        },
{
    let ghost all = tasks.deep_view();
    let ghost me = task@;
    let deadline = task.deadline as u128;
    let own = wcet(task);
    if blocking > deadline || own + blocking > deadline {
        proof {
            lemma_no_busy_period_below(me, all, blocking as int, me.deadline + 1);
        }
        return Err(AnalysisError::NonSchedulable(task.id.clone()));
    }
    let busy_period = own + blocking;
    let mut prev = busy_period;
    proof {
        lemma_no_busy_period_below(me, all, blocking as int, busy_period as int);
        lemma_interference_monotone(all, me.prio, prev as int, prev as int);
    }
    loop
        invariant
            all == tasks.deep_view(),
            me == task@,
            me.well_formed(),
            well_formed_set(all),
            deadline == me.deadline,
            busy_period == me.wcet() + blocking,
            busy_period <= prev <= deadline,
            prev <= busy_period + interference(all, me.prio, prev as int),
            forall|s: int| 0 <= s < prev ==> !is_busy_period(me, all, blocking as int, s),
        decreases deadline - prev,
    {
        let pressure = interference_within(task, tasks, prev);
        proof {
            lemma_interference_bounded(tasks, me.prio, prev as int);
        }
        let curr = busy_period + pressure;
        proof {
            lemma_no_busy_period_before_next(me, all, blocking as int, prev as int);
        }
        if curr == prev {
            proof {
                assert(is_response_time(me, all, blocking as int, curr as int));
                lemma_response_time_unique(
                    me,
                    all,
                    blocking as int,
                    curr as int,
                    curr as int,
                );
            }
            return Ok(curr - busy_period);
        }
        if curr > deadline {
            return Err(AnalysisError::NonSchedulable(task.id.clone()));
        }
        proof {
            lemma_interference_monotone(all, me.prio, prev as int, curr as int);
        }
        prev = curr;
    }
}

/// No window shorter than the execution plus blocking time solves the
/// busy-period equation.
pub proof fn lemma_no_busy_period_below(
    task: TaskModel,
    tasks: Seq<TaskModel>,
    blocking: int,
    limit: int,
)
    requires
        well_formed_set(tasks),
        limit <= task.wcet() + blocking,
    ensures
        forall|s: int| 0 <= s < limit ==> !is_busy_period(task, tasks, blocking, s),
{
    assert forall|s: int| 0 <= s < limit implies !is_busy_period(task, tasks, blocking, s) by {
        lemma_interference_monotone(tasks, task.prio, s, s);
    }
}

/// One step of the busy-period recurrence: where no window shorter than
/// `r` solves the equation, none shorter than the next value of the
/// recurrence does.
pub proof fn lemma_no_busy_period_before_next(
    task: TaskModel,
    tasks: Seq<TaskModel>,
    blocking: int,
    r: int,
)
    requires
        well_formed_set(tasks),
        0 <= r,
        forall|s: int| 0 <= s < r ==> !is_busy_period(task, tasks, blocking, s),
    ensures
        forall|s: int|
            0 <= s < task.wcet() + blocking + interference(tasks, task.prio, r) ==> !is_busy_period(
                task,
                tasks,
                blocking,
                s,
            ),
{
    let next = task.wcet() + blocking + interference(tasks, task.prio, r);
    assert forall|s: int| 0 <= s < next implies !is_busy_period(task, tasks, blocking, s) by {
        if r <= s {
            lemma_interference_monotone(tasks, task.prio, r, s);
        }
    }
}

/// A task has one response time only.
pub proof fn lemma_response_time_unique(
    task: TaskModel,
    tasks: Seq<TaskModel>,
    blocking: int,
    r1: int,
    r2: int,
)
    requires
        is_response_time(task, tasks, blocking, r1),
        is_response_time(task, tasks, blocking, r2),
    ensures
        r1 == r2,
        r1 == response_bound(task, tasks, blocking),
{
    let r = response_bound(task, tasks, blocking);
    assert(is_response_time(task, tasks, blocking, r));
}

/// The interference within a window that fits 32 bits, among tasks whose
/// fields fit their machine types, stays far below 128 bits.
proof fn lemma_interference_bounded(tasks: &Vec<Task>, prio: int, window: int)
    requires
        well_formed_set(tasks.deep_view()),
        0 <= window <= u32::MAX,
    ensures
        interference(tasks.deep_view(), prio, window) <= tasks.len() * 0x1_0000_0000_0000_0000,
{
    lemma_interference_prefix_bounded(tasks, prio, window, tasks.len() as int);
    assert(tasks.deep_view().take(tasks.len() as int) =~= tasks.deep_view());
}

proof fn lemma_interference_prefix_bounded(tasks: &Vec<Task>, prio: int, window: int, k: int)
    requires
        well_formed_set(tasks.deep_view()),
        0 <= window <= u32::MAX,
        0 <= k <= tasks.len(),
    ensures
        interference(tasks.deep_view().take(k), prio, window) <= k * 0x1_0000_0000_0000_0000,
    decreases k,
{
    let all = tasks.deep_view();
    if k > 0 {
        lemma_interference_prefix_bounded(tasks, prio, window, k - 1);
        assert(all.take(k).drop_last() =~= all.take(k - 1));
        let last = all.take(k).last();
        assert(last == tasks@[k - 1]@);
        assert(all[k - 1].well_formed());
        tasks@[k - 1].trace.lemma_view();
        lemma_ceil_div(window, last.period);
        let c = ceil_div(window, last.period);
        let e = last.wcet();
        assert(c * e <= 0xffff_ffff * 0xffff_ffff) by (nonlinear_arith)
            requires
                0 <= c <= 0xffff_ffff,
                0 <= e <= 0xffff_ffff,
        ;
    }
}

/// `p` is the preemption of `task` in the chosen mode: the closed-form
/// estimate, or the exact value on top of the task's blocking time.
pub open spec fn is_preemption(
    task: TaskModel,
    tasks: Seq<TaskModel>,
    ceilings: Map<Seq<char>, int>,
    usage: Map<Seq<char>, Set<Seq<char>>>,
    approx: bool,
    p: int,
) -> bool {
    if approx {
        p == approx_preemption(task, tasks)
    } else {
        let blocking = blocking_bound(task, tasks, ceilings, usage);
        &&& ceilings_complete(task, tasks, ceilings, usage)
        &&& is_blocking_time(task, tasks, ceilings, usage, blocking)
        &&& exact_preemption(task, tasks, blocking) == Some(p)
    }
}

/// `failure` is why `task` has no preemption in the chosen mode. The
/// estimate never fails; the exact value needs every ceiling and a task
/// that meets its deadline.
pub open spec fn preemption_fails(
    task: TaskModel,
    tasks: Seq<TaskModel>,
    ceilings: Map<Seq<char>, int>,
    usage: Map<Seq<char>, Set<Seq<char>>>,
    approx: bool,
    failure: Failure,
) -> bool {
    match failure {
        Failure::MissingCeiling(resource) => !approx && lacks_ceiling(
            task,
            tasks,
            ceilings,
            usage,
            resource,
        ),
        Failure::NonSchedulable(name) => {
            let blocking = blocking_bound(task, tasks, ceilings, usage);
            &&& !approx
            &&& name == task.id
            &&& ceilings_complete(task, tasks, ceilings, usage)
            &&& is_blocking_time(task, tasks, ceilings, usage, blocking)
            &&& exact_preemption(task, tasks, blocking) is None
        },
    }
}

/// Whatever the mode, a preemption is never negative.
pub proof fn lemma_preemption_nonnegative(
    task: TaskModel,
    tasks: Seq<TaskModel>,
    ceilings: Map<Seq<char>, int>,
    usage: Map<Seq<char>, Set<Seq<char>>>,
    approx: bool,
    p: int,
)
    requires
        task.well_formed(),
        well_formed_set(tasks),
        is_preemption(task, tasks, ceilings, usage, approx, p),
    ensures
        p >= 0,
{
    if approx {
        lemma_approx_preemption_nonnegative(task, tasks);
    } else {
        lemma_exact_preemption_nonnegative(
            task,
            tasks,
            blocking_bound(task, tasks, ceilings, usage),
        );
    }
}

/// A longer execution time of tasks above `task` never shortens its exact
/// preemption. `light` and `heavy` are the same task set but for the
/// execution times of tasks of higher priority than `task`, none of which
/// is shorter in `heavy`; the maps are the same.
pub proof fn lemma_preemption_grows_with_wcet_above(
    task: TaskModel,
    light: Seq<TaskModel>,
    heavy: Seq<TaskModel>,
    ceilings: Map<Seq<char>, int>,
    usage: Map<Seq<char>, Set<Seq<char>>>,
    p_light: int,
    p_heavy: int,
)
    requires
        task.well_formed(),
        well_formed_set(light),
        light.len() == heavy.len(),
        forall|i: int|
            #![trigger light[i]]
            #![trigger heavy[i]]
            0 <= i < light.len() ==> if light[i].prio > task.prio {
                &&& heavy[i].prio == light[i].prio
                &&& heavy[i].period == light[i].period
                &&& heavy[i].id == light[i].id
                &&& heavy[i].wcet() >= light[i].wcet()
            } else {
                heavy[i] == light[i]
            },
        is_preemption(task, light, ceilings, usage, false, p_light),
        is_preemption(task, heavy, ceilings, usage, false, p_heavy),
    ensures
        p_light <= p_heavy,
{
    let b_light = blocking_bound(task, light, ceilings, usage);
    let b_heavy = blocking_bound(task, heavy, ceilings, usage);
    assert(is_blocking_time(task, heavy, ceilings, usage, b_light)) by {
        assert forall|i: int, r: Seq<char>|
            #![trigger may_block(task, heavy[i], r, ceilings, usage)]
            0 <= i < heavy.len() && may_block(task, heavy[i], r, ceilings, usage) implies may_block(
            task,
            light[i],
            r,
            ceilings,
            usage,
        ) && heavy[i].trace.worst_section(r) == light[i].trace.worst_section(r) by {
            assert(light[i].prio <= task.prio || heavy[i].prio == light[i].prio);
        }
        if b_light != 0 {
            let (i, r) = choose|i: int, r: Seq<char>|
                #![trigger may_block(task, light[i], r, ceilings, usage)]
                0 <= i < light.len() && may_block(task, light[i], r, ceilings, usage)
                    && light[i].trace.worst_section(r) == b_light;
            assert(heavy[i] == light[i]);
            assert(may_block(task, heavy[i], r, ceilings, usage));
        }
    }
    lemma_blocking_time_unique(task, heavy, ceilings, usage, b_light, b_heavy);
    lemma_exact_preemption_monotone(task, light, heavy, b_light);
}

/// The preemption of `task` among `tasks`: the closed-form estimate where
/// `approx` is set, the exact value otherwise.
pub fn preemption(task: &Task, tasks: &Vec<Task>, ip: &Ceilings, tr: &Usage, approx: bool) -> (res:
    Result<u128, AnalysisError>)
    requires
        task@.well_formed(),
        well_formed_set(tasks.deep_view()),
    ensures
        match res {
            Ok(p) => {
                &&& is_preemption(task@, tasks.deep_view(), ip@, tr@, approx, p as int)
                &&& p <= tasks.len() * 0x1_0000_0000_0000_0000
            },
            Err(e) => preemption_fails(task@, tasks.deep_view(), ip@, tr@, approx, e@),
        },
{
    if approx {
        Ok(preemption_approx(task, tasks))
    } else {
        match blocking_time(task, tasks, ip, tr) {
            Ok(blocking) => preemption_exact(task, tasks, blocking),
            Err(e) => Err(e),
        }
    }
}

} // verus!
