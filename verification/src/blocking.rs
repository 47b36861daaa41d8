//! Direct blocking: the longest time a task may wait for a lower-priority
//! task to leave a critical section.

use crate::error::{AnalysisError, Failure};
use crate::model::{well_formed_set, Task, TaskModel, Trace, TraceModel};
use crate::resources::{name_set, Ceilings, Usage};
use vstd::math::max;
use vstd::prelude::*;

verus! {

impl TraceModel {
    /// The longest interval among the nodes named `resource`, the root
    /// included; zero where no node has that name.
    pub open spec fn worst_section(self, resource: Seq<char>) -> int
        decreases self, self.inner.len() + 1,
    {
        max(
            if self.id == resource {
                self.span()
            } else {
                0
            },
            self.worst_nested(resource, self.inner.len()),
        )
    }

    /// The longest interval named `resource` within the first `k` nested
    /// sections; zero where there is none.
    pub open spec fn worst_nested(self, resource: Seq<char>, k: nat) -> int
        decreases self, k,
    {
        if k == 0 || k > self.inner.len() {
            0
        } else {
            max(
                self.worst_nested(resource, (k - 1) as nat),
                self.inner[k - 1].worst_section(resource),
            )
        }
    }
}

/// What `worst_section` is: an upper bound on every interval of that name
/// in the tree, never negative, and zero or the length of one of them.
pub proof fn lemma_worst_section(trace: TraceModel, resource: Seq<char>)
    ensures
        trace.worst_section(resource) >= 0,
        forall|node: TraceModel|
            #![trigger trace.has_node(node)]
            trace.has_node(node) && node.id == resource ==> node.span() <= trace.worst_section(
                resource,
            ),
        trace.worst_section(resource) == 0 || exists|node: TraceModel|
            #![trigger trace.has_node(node)]
            trace.has_node(node) && node.id == resource && node.span() == trace.worst_section(
                resource,
            ),
    decreases trace, trace.inner.len() + 1,
{
    lemma_worst_nested(trace, resource, trace.inner.len());
    let w = trace.worst_section(resource);
    assert(trace.has_node(trace));
    assert forall|node: TraceModel|
        #![trigger trace.has_node(node)]
        trace.has_node(node) && node.id == resource implies node.span() <= w by {
        if node != trace {
            let i = choose|i: int|
                0 <= i < trace.inner.len() && (#[trigger] trace.inner[i]).has_node(node);
            assert(trace.inner[i].has_node(node));
        }
    }
    if w != 0 {
        if trace.id == resource && trace.span() == w {
            assert(trace.has_node(trace) && trace.id == resource && trace.span() == w);
        } else {
            let (i, node) = choose|i: int, node: TraceModel|
                0 <= i < trace.inner.len() && (#[trigger] trace.inner[i].has_node(node))
                    && node.id == resource && node.span() == w;
            assert(trace.inner[i].has_node(node));
            assert(trace.has_node(node));
        }
    }
}

/// The same for the first `k` nested sections.
proof fn lemma_worst_nested(trace: TraceModel, resource: Seq<char>, k: nat)
    requires
        k <= trace.inner.len(),
    ensures
        trace.worst_nested(resource, k) >= 0,
        forall|i: int, node: TraceModel|
            #![trigger trace.inner[i].has_node(node)]
            0 <= i < k && trace.inner[i].has_node(node) && node.id == resource ==> node.span()
                <= trace.worst_nested(resource, k),
        trace.worst_nested(resource, k) == 0 || exists|i: int, node: TraceModel|
            #![trigger trace.inner[i].has_node(node)]
            0 <= i < k && trace.inner[i].has_node(node) && node.id == resource && node.span()
                == trace.worst_nested(resource, k),
    decreases trace, k,
{
    if k > 0 {
        let w = trace.worst_nested(resource, k);
        lemma_worst_nested(trace, resource, (k - 1) as nat);
        lemma_worst_section(trace.inner[k - 1], resource);
        let before = trace.worst_nested(resource, (k - 1) as nat);
        let last = trace.inner[k - 1].worst_section(resource);
        if w != 0 {
            if w == before {
                let (i, node) = choose|i: int, node: TraceModel|
                    0 <= i < k - 1 && (#[trigger] trace.inner[i].has_node(node)) && node.id
                        == resource && node.span() == before;
                assert(0 <= i < k && trace.inner[i].has_node(node));
            } else {
                let node = choose|node: TraceModel|
                    (#[trigger] trace.inner[k - 1].has_node(node)) && node.id == resource
                        && node.span() == last;
                assert(trace.inner[k - 1].has_node(node));
            }
        }
    }
}

/// The longest time `trace` spends in a section named `resource`.
pub fn wcet_resource(trace: &Trace, resource: &String) -> (d: u128)
    requires
        trace@.well_formed(),
    ensures
        d == trace@.worst_section(resource@),
    decreases trace,
{
    proof {
        trace.lemma_view();
    }
    let mut wcet: u128 = 0;
    if trace.id == *resource {
        wcet = trace.span() as u128;
    }
    let mut i: usize = 0;
    while i < trace.inner.len()
        invariant
            i <= trace.inner.len(),
            trace@.well_formed(),
            trace@.inner.len() == trace.inner@.len(),
            forall|j: int|
                0 <= j < trace.inner@.len() ==> #[trigger] trace@.inner[j] == trace.inner@[j]@,
            wcet == max(
                if trace@.id == resource@ {
                    trace@.span()
                } else {
                    0
                },
                trace@.worst_nested(resource@, i as nat),
            ),
        decreases trace.inner.len() - i,
    {
        assert(trace@.inner[i as int].well_formed());
        let temp_wcet = wcet_resource(&trace.inner[i], resource);
        if temp_wcet > wcet {
            wcet = temp_wcet;
        }
        i += 1;
    }
    wcet
}

/// `holder` can make `task` wait while it holds `resource`: its priority is
/// lower, it is recorded as locking the resource, and the ceiling of the
/// resource reaches the priority of `task`.
pub open spec fn may_block(
    task: TaskModel,
    holder: TaskModel,
    resource: Seq<char>,
    ceilings: Map<Seq<char>, int>,
    usage: Map<Seq<char>, Set<Seq<char>>>,
) -> bool {
    &&& holder.prio < task.prio
    &&& usage.contains_key(holder.id)
    &&& usage[holder.id].contains(resource)
    &&& ceilings.contains_key(resource)
    &&& ceilings[resource] >= task.prio
}

/// `b` is the blocking time of `task`: the longest critical section by
/// which a task of `tasks` can make it wait, zero where there is none.
pub open spec fn is_blocking_time(
    task: TaskModel,
    tasks: Seq<TaskModel>,
    ceilings: Map<Seq<char>, int>,
    usage: Map<Seq<char>, Set<Seq<char>>>,
    b: int,
) -> bool {
    &&& b >= 0
    &&& forall|i: int, r: Seq<char>|
        #![trigger may_block(task, tasks[i], r, ceilings, usage)]
        0 <= i < tasks.len() && may_block(task, tasks[i], r, ceilings, usage)
            ==> tasks[i].trace.worst_section(r) <= b
    &&& b == 0 || exists|i: int, r: Seq<char>|
        #![trigger may_block(task, tasks[i], r, ceilings, usage)]
        0 <= i < tasks.len() && may_block(task, tasks[i], r, ceilings, usage)
            && tasks[i].trace.worst_section(r) == b
}

/// The blocking time of `task` as a value.
pub open spec fn blocking_bound(
    task: TaskModel,
    tasks: Seq<TaskModel>,
    ceilings: Map<Seq<char>, int>,
    usage: Map<Seq<char>, Set<Seq<char>>>,
) -> int {
    choose|b: int| is_blocking_time(task, tasks, ceilings, usage, b)
}

/// A task of lower priority than `task` is recorded as locking `resource`,
/// and the resource has no ceiling.
pub open spec fn lacks_ceiling(
    task: TaskModel,
    tasks: Seq<TaskModel>,
    ceilings: Map<Seq<char>, int>,
    usage: Map<Seq<char>, Set<Seq<char>>>,
    resource: Seq<char>,
) -> bool {
    exists|i: int|
        #![trigger tasks[i]]
        0 <= i < tasks.len() && tasks[i].prio < task.prio && usage.contains_key(tasks[i].id)
            && usage[tasks[i].id].contains(resource) && !ceilings.contains_key(resource)
}

/// Every resource that the blocking time of `task` depends on has a ceiling.
pub open spec fn ceilings_complete(
    task: TaskModel,
    tasks: Seq<TaskModel>,
    ceilings: Map<Seq<char>, int>,
    usage: Map<Seq<char>, Set<Seq<char>>>,
) -> bool {
    forall|r: Seq<char>| !lacks_ceiling(task, tasks, ceilings, usage, r)
}

/// A blocking time is never negative.
pub proof fn lemma_blocking_time_nonnegative(
    task: TaskModel,
    tasks: Seq<TaskModel>,
    ceilings: Map<Seq<char>, int>,
    usage: Map<Seq<char>, Set<Seq<char>>>,
    b: int,
)
    requires
        is_blocking_time(task, tasks, ceilings, usage, b),
    ensures
        b >= 0,
{
}

/// A task has one blocking time only.
pub proof fn lemma_blocking_time_unique(
    task: TaskModel,
    tasks: Seq<TaskModel>,
    ceilings: Map<Seq<char>, int>,
    usage: Map<Seq<char>, Set<Seq<char>>>,
    b1: int,
    b2: int,
)
    requires
        is_blocking_time(task, tasks, ceilings, usage, b1),
        is_blocking_time(task, tasks, ceilings, usage, b2),
    ensures
        b1 == b2,
        b1 == blocking_bound(task, tasks, ceilings, usage),
{
    let b = blocking_bound(task, tasks, ceilings, usage);
    assert(is_blocking_time(task, tasks, ceilings, usage, b));
    lemma_at_most(task, tasks, ceilings, usage, b1, b2);
    lemma_at_most(task, tasks, ceilings, usage, b2, b1);
    lemma_at_most(task, tasks, ceilings, usage, b1, b);
    lemma_at_most(task, tasks, ceilings, usage, b, b1);
}

proof fn lemma_at_most(
    task: TaskModel,
    tasks: Seq<TaskModel>,
    ceilings: Map<Seq<char>, int>,
    usage: Map<Seq<char>, Set<Seq<char>>>,
    b1: int,
    b2: int,
)
    requires
        is_blocking_time(task, tasks, ceilings, usage, b1),
        is_blocking_time(task, tasks, ceilings, usage, b2),
    ensures
        b1 <= b2,
{
    if b1 != 0 {
        let (i, r) = choose|i: int, r: Seq<char>|
            #![trigger may_block(task, tasks[i], r, ceilings, usage)]
            0 <= i < tasks.len() && may_block(task, tasks[i], r, ceilings, usage)
                && tasks[i].trace.worst_section(r) == b1;
        assert(may_block(task, tasks[i], r, ceilings, usage));
    }
}

/// The blocking time of `task` among `tasks`: the longest critical section
/// of a lower-priority task on a resource whose ceiling is at least the
/// priority of `task`. Fails where a task of lower priority locks a resource
/// that has no ceiling, and names such a resource.
pub fn blocking_time(task: &Task, tasks: &Vec<Task>, ip: &Ceilings, tr: &Usage) -> (res: Result<
    u128,
    AnalysisError,
>)
    requires
        well_formed_set(tasks.deep_view()),
    ensures
        match res {
            Ok(b) => {
                &&& ceilings_complete(task@, tasks.deep_view(), ip@, tr@)
                &&& is_blocking_time(task@, tasks.deep_view(), ip@, tr@, b as int)
                &&& b == blocking_bound(task@, tasks.deep_view(), ip@, tr@)
                &&& b <= u32::MAX
            },
            Err(e) => e@ matches Failure::MissingCeiling(r) && lacks_ceiling(
                task@,
                tasks.deep_view(),
                ip@,
                tr@,
                r,
            ),
        },
{
    let ghost all = tasks.deep_view();
    let ghost me = task@;
    let mut blocking_time: u128 = 0;
    let mut i: usize = 0;
    while i < tasks.len()
        invariant
            i <= tasks.len(),
            all == tasks.deep_view(),
            me == task@,
            well_formed_set(all),
            blocking_time <= u32::MAX,
            forall|k: int, r: Seq<char>|
                #![trigger may_block(me, all[k], r, ip@, tr@)]
                0 <= k < i && may_block(me, all[k], r, ip@, tr@) ==> all[k].trace.worst_section(r)
                    <= blocking_time,
            blocking_time == 0 || exists|k: int, r: Seq<char>|
                #![trigger may_block(me, all[k], r, ip@, tr@)]
                0 <= k < i && may_block(me, all[k], r, ip@, tr@) && all[k].trace.worst_section(r)
                    == blocking_time,
            forall|k: int, r: Seq<char>|
                #![trigger all[k], tr@[all[k].id].contains(r)]
                0 <= k < i && all[k].prio < me.prio && tr@.contains_key(all[k].id)
                    && tr@[all[k].id].contains(r) ==> ip@.contains_key(r),
        decreases tasks.len() - i,
    {
        let t = &tasks[i];
        let ghost holder = all[i as int];
        assert(holder == t@);
        assert(holder.well_formed());
        if t.prio < task.prio {
            match tr.resources(t.id.as_str()) {
                Some(resources) => {
                    let mut j: usize = 0;
                    while j < resources.len()
                        invariant
                            j <= resources.len(),
                            i < tasks.len(),
                            all == tasks.deep_view(),
                            me == task@,
                            holder == all[i as int],
                            holder == t@,
                            holder.well_formed(),
                            holder.prio < me.prio,
                            tr@.contains_key(holder.id),
                            name_set(resources@) == tr@[holder.id],
                            blocking_time <= u32::MAX,
                            forall|k: int, r: Seq<char>|
                                #![trigger may_block(me, all[k], r, ip@, tr@)]
                                0 <= k < i && may_block(me, all[k], r, ip@, tr@)
                                    ==> all[k].trace.worst_section(r) <= blocking_time,
                            forall|n: int|
                                #![trigger resources@[n]]
                                0 <= n < j ==> ip@.contains_key(resources@[n]@) && (may_block(
                                    me,
                                    holder,
                                    resources@[n]@,
                                    ip@,
                                    tr@,
                                ) ==> holder.trace.worst_section(resources@[n]@) <= blocking_time),
                            blocking_time == 0 || exists|k: int, r: Seq<char>|
                                #![trigger may_block(me, all[k], r, ip@, tr@)]
                                0 <= k <= i && may_block(me, all[k], r, ip@, tr@)
                                    && all[k].trace.worst_section(r) == blocking_time,
                        decreases resources.len() - j,
                    {
                        let r = &resources[j];
                        assert(name_set(resources@).contains(r@));
                        match ip.get(r.as_str()) {
                            Some(r_prio) => {
                                if r_prio >= task.prio {
                                    assert(may_block(me, all[i as int], r@, ip@, tr@));
                                    let section = wcet_resource(&t.trace, r);
                                    proof {
                                        lemma_section_within_u32(t, r@);
                                    }
                                    if section > blocking_time {
                                        blocking_time = section;
                                    }
                                }
                            },
                            None => {
                                return Err(AnalysisError::MissingCeiling(r.clone()));
                            },
                        }
                        j += 1;
                    }
                    assert forall|r: Seq<char>| tr@[holder.id].contains(r) implies ip@.contains_key(
                        r,
                    ) && (may_block(me, holder, r, ip@, tr@) ==> holder.trace.worst_section(r)
                        <= blocking_time) by {
                        let n = choose|n: int|
                            0 <= n < resources@.len() && (#[trigger] resources@[n])@ == r;
                        assert(ip@.contains_key(resources@[n]@));
                    }
                },
                None => {},
            }
        }
        i += 1;
    }
    proof {
        assert(is_blocking_time(me, all, ip@, tr@, blocking_time as int));
        lemma_blocking_time_unique(me, all, ip@, tr@, blocking_time as int, blocking_time as int);
        assert forall|r: Seq<char>| !lacks_ceiling(me, all, ip@, tr@, r) by {
            if lacks_ceiling(me, all, ip@, tr@, r) {
                let k = choose|k: int|
                    #![trigger all[k]]
                    0 <= k < all.len() && all[k].prio < me.prio && tr@.contains_key(all[k].id)
                        && tr@[all[k].id].contains(r) && !ip@.contains_key(r);
                assert(tr@[all[k].id].contains(r));
            }
        }
    }
    Ok(blocking_time)
}

/// No section of a trace is longer than the time stamps allow.
proof fn lemma_section_within_u32(task: &Task, resource: Seq<char>)
    ensures
        task@.trace.worst_section(resource) <= u32::MAX,
{
    lemma_worst_section(task@.trace, resource);
    let w = task@.trace.worst_section(resource);
    if w != 0 {
        let node = choose|node: TraceModel|
            #![trigger task@.trace.has_node(node)]
            task@.trace.has_node(node) && node.id == resource && node.span() == w;
        lemma_nodes_within_u32(&task.trace, node);
    }
}

/// Every node in the model of a trace has time stamps that fit 32 bits.
proof fn lemma_nodes_within_u32(trace: &Trace, node: TraceModel)
    requires
        trace@.has_node(node),
    ensures
        0 <= node.start <= u32::MAX,
        0 <= node.end <= u32::MAX,
    decreases trace,
{
    trace.lemma_view();
    if node != trace@ {
        let i = choose|i: int|
            0 <= i < trace@.inner.len() && (#[trigger] trace@.inner[i]).has_node(node);
        lemma_nodes_within_u32(&trace.inner[i], node);
    }
}

} // verus!
