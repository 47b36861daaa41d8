//! Which task locks which resource, and the priority ceiling of every
//! resource: the two maps that the analysis consults.

use crate::model::{Task, TaskModel, Trace, TraceModel};
use vstd::hash_map::StringHashMap;
use vstd::prelude::*;

verus! {

impl TraceModel {
    /// The resources locked anywhere below the root.
    pub open spec fn resources(self) -> Set<Seq<char>> {
        Set::new(|r: Seq<char>| self.uses(r))
    }

    /// Every name that occurs in the tree, the root's included.
    pub open spec fn names(self) -> Set<Seq<char>> {
        Set::new(|r: Seq<char>| self.mentions(r))
    }
}

/// Some task of the set locks `resource`.
pub open spec fn used(tasks: Seq<TaskModel>, resource: Seq<char>) -> bool {
    exists|i: int| 0 <= i < tasks.len() && (#[trigger] tasks[i]).trace.uses(resource)
}

/// `p` is the highest priority among the tasks that lock `resource`.
pub open spec fn is_ceiling(tasks: Seq<TaskModel>, resource: Seq<char>, p: int) -> bool {
    &&& exists|i: int|
        0 <= i < tasks.len() && (#[trigger] tasks[i]).trace.uses(resource) && tasks[i].prio == p
    &&& forall|i: int|
        0 <= i < tasks.len() && (#[trigger] tasks[i]).trace.uses(resource) ==> tasks[i].prio <= p
}

/// The priority ceiling of every resource that some task locks.
pub open spec fn ceiling_map(tasks: Seq<TaskModel>) -> Map<Seq<char>, int> {
    Map::new(
        |r: Seq<char>| used(tasks, r),
        |r: Seq<char>| choose|p: int| is_ceiling(tasks, r, p),
    )
}

/// For every task name, the resources that task locks. Where a name occurs
/// more than once, the entry of the later task stands.
pub open spec fn usage_map(tasks: Seq<TaskModel>) -> Map<Seq<char>, Set<Seq<char>>>
    decreases tasks.len(),
{
    if tasks.len() == 0 {
        Map::empty()
    } else {
        usage_map(tasks.drop_last()).insert(tasks.last().id, tasks.last().trace.resources())
    }
}

/// The names held in a list, as a set.
pub open spec fn name_set(list: Seq<String>) -> Set<Seq<char>> {
    Set::new(|r: Seq<char>| exists|j: int| 0 <= j < list.len() && (#[trigger] list[j])@ == r)
}

/// No name occurs twice in the list.
pub open spec fn distinct_names(list: Seq<String>) -> bool {
    forall|i: int, j: int|
        0 <= i < j < list.len() ==> (#[trigger] list[i])@ != (#[trigger] list[j])@
}

/// The map `m` after every resource of `touched` was locked by a task of
/// priority `prio`: a ceiling below `prio` is raised to it, a missing one is
/// set to it.
spec fn raised(m: Map<Seq<char>, u8>, touched: Set<Seq<char>>, prio: u8) -> Map<
    Seq<char>,
    u8,
> {
    Map::new(
        |r: Seq<char>| m.contains_key(r) || touched.contains(r),
        |r: Seq<char>|
            if touched.contains(r) && !(m.contains_key(r) && m[r] >= prio) {
                prio
            } else {
                m[r]
            },
    )
}

/// Whether `name` is in the list.
fn contains_name(list: &Vec<String>, name: &String) -> (found: bool)
    ensures
        found == name_set(list@).contains(name@),
{
    let mut i: usize = 0;
    while i < list.len()
        invariant
            i <= list.len(),
            forall|j: int| 0 <= j < i ==> (#[trigger] list@[j])@ != name@,
        decreases list.len() - i,
    {
        if list[i] == *name {
            return true;
        }
        i += 1;
    }
    false
}

/// Walks `trace` and everything nested in it: each name met has its ceiling
/// raised to `prio` and is added to `resources` unless it is there already.
fn record(trace: &Trace, prio: u8, ceilings: &mut StringHashMap<u8>, resources: &mut Vec<String>)
    requires
        distinct_names(old(resources)@),
    ensures
        final(ceilings)@ == raised(old(ceilings)@, trace@.names(), prio),
        name_set(final(resources)@) == name_set(old(resources)@).union(trace@.names()),
        distinct_names(final(resources)@),
    decreases trace,
{
    proof {
        trace.lemma_view();
    }
    let raise = match ceilings.get(trace.id.as_str()) {
        Some(p) => *p < prio,
        None => true,
    };
    if raise {
        ceilings.insert(trace.id.clone(), prio);
    }
    if !contains_name(resources, &trace.id) {
        resources.push(trace.id.clone());
    }
    let ghost here = Set::<Seq<char>>::empty().insert(trace.id@);
    assert(ceilings@ =~= raised(old(ceilings)@, here, prio));
    assert(name_set(resources@) =~= name_set(old(resources)@).union(here)) by {
        assert forall|r: Seq<char>|
            name_set(old(resources)@).union(here).contains(r) implies name_set(
            resources@,
        ).contains(r) by {
            if name_set(old(resources)@).contains(r) {
                let j = choose|j: int|
                    0 <= j < old(resources)@.len() && (#[trigger] old(resources)@[j])@ == r;
                assert(resources@[j]@ == r);
            } else {
                if resources@.len() > old(resources)@.len() {
                    assert(resources@[old(resources)@.len() as int]@ == r);
                }
            }
        }
    }
    let mut i: usize = 0;
    while i < trace.inner.len()
        invariant
            i <= trace.inner.len(),
            trace@.id == trace.id@,
            trace@.inner.len() == trace.inner@.len(),
            forall|j: int|
                0 <= j < trace.inner@.len() ==> #[trigger] trace@.inner[j] == trace.inner@[j]@,
            distinct_names(resources@),
            ceilings@ == raised(old(ceilings)@, seen(trace@, i as int), prio),
            name_set(resources@) == name_set(old(resources)@).union(seen(trace@, i as int)),
        decreases trace.inner.len() - i,
    {
        record(&trace.inner[i], prio, ceilings, resources);
        proof {
            let child = trace@.inner[i as int];
            assert(seen(trace@, i + 1) =~= seen(trace@, i as int).union(child.names())) by {
                assert forall|r: Seq<char>| seen(trace@, i + 1).contains(r) implies seen(
                    trace@,
                    i as int,
                ).union(child.names()).contains(r) by {
                    if trace@.id != r {
                        let j = choose|j: int|
                            0 <= j < i + 1 && (#[trigger] trace@.inner[j]).mentions(r);
                        if j < i {
                            assert(seen(trace@, i as int).contains(r));
                        }
                    }
                }
            }
            assert(ceilings@ =~= raised(old(ceilings)@, seen(trace@, i + 1), prio));
            assert(name_set(resources@) =~= name_set(old(resources)@).union(
                seen(trace@, i + 1),
            ));
        }
        i += 1;
    }
    assert(seen(trace@, trace@.inner.len() as int) =~= trace@.names());
}

/// The names met once the root of `trace` and its first `k` nested sections
/// have been walked.
spec fn seen(trace: TraceModel, k: int) -> Set<Seq<char>> {
    Set::new(
        |r: Seq<char>|
            trace.id == r || exists|j: int|
                0 <= j < k && j < trace.inner.len() && (#[trigger] trace.inner[j]).mentions(r),
    )
}

/// The priority ceiling of every resource, by resource name.
pub struct Ceilings {
    map: StringHashMap<u8>,
}

impl View for Ceilings {
    type V = Map<Seq<char>, int>;

    closed spec fn view(&self) -> Map<Seq<char>, int> {
        Map::new(|r: Seq<char>| self.map@.contains_key(r), |r: Seq<char>| self.map@[r] as int)
    }
}

impl Ceilings {
    /// The ceiling of `resource`, if it has one.
    pub fn get(&self, resource: &str) -> (ceiling: Option<u8>)
        ensures
            match ceiling {
                Some(p) => self@.contains_key(resource@) && self@[resource@] == p,
                None => !self@.contains_key(resource@),
            },
    {
        match self.map.get(resource) {
            Some(p) => Some(*p),
            None => None,
        }
    }
}

/// The resources that each task locks, by task name.
pub struct Usage {
    map: StringHashMap<Vec<String>>,
}

impl View for Usage {
    type V = Map<Seq<char>, Set<Seq<char>>>;

    closed spec fn view(&self) -> Map<Seq<char>, Set<Seq<char>>> {
        Map::new(|t: Seq<char>| self.map@.contains_key(t), |t: Seq<char>| name_set(self.map@[t]@))
    }
}

impl Usage {
    #[verifier::type_invariant]
    spec fn lists_are_sets(self) -> bool {
        forall|t: Seq<char>| self.map@.contains_key(t) ==> distinct_names(#[trigger] self.map@[t]@)
    }

    /// The resources that the task named `task` locks, each listed once, if
    /// the task is known.
    pub fn resources(&self, task: &str) -> (list: Option<&Vec<String>>)
        ensures
            match list {
                Some(l) => self@.contains_key(task@) && name_set(l@) == self@[task@]
                    && distinct_names(l@),
                None => !self@.contains_key(task@),
            },
    {
        proof {
            use_type_invariant(self);
        }
        self.map.get(task)
    }
}

/// `m` holds exactly the ceilings of the resources that `tasks` lock.
spec fn holds_ceilings(m: Map<Seq<char>, u8>, tasks: Seq<TaskModel>) -> bool {
    forall|r: Seq<char>|
        #![trigger m.contains_key(r)]
        {
            &&& m.contains_key(r) <==> used(tasks, r)
            &&& m.contains_key(r) ==> is_ceiling(tasks, r, m[r] as int)
        }
}

/// Raising the ceilings by the resources of one more task keeps the map in
/// step with the task set.
proof fn lemma_raise_keeps_ceilings(
    m: Map<Seq<char>, u8>,
    tasks: Seq<TaskModel>,
    task: TaskModel,
    prio: u8,
)
    requires
        holds_ceilings(m, tasks),
        task.prio == prio,
    ensures
        holds_ceilings(raised(m, task.trace.resources(), prio), tasks.push(task)),
{
    let next = tasks.push(task);
    let m2 = raised(m, task.trace.resources(), prio);
    let n = tasks.len() as int;
    assert(next[n] == task);
    assert forall|r: Seq<char>|
        #![trigger m2.contains_key(r)]
        {
            &&& m2.contains_key(r) <==> used(next, r)
            &&& m2.contains_key(r) ==> is_ceiling(next, r, m2[r] as int)
        } by {
        if used(tasks, r) {
            let i = choose|i: int| 0 <= i < tasks.len() && (#[trigger] tasks[i]).trace.uses(r);
            assert(next[i] == tasks[i]);
            assert(used(next, r));
        }
        if task.trace.uses(r) {
            assert(next[n].trace.uses(r));
            assert(used(next, r));
        }
        if used(next, r) {
            let i = choose|i: int| 0 <= i < next.len() && (#[trigger] next[i]).trace.uses(r);
            if i < n {
                assert(tasks[i] == next[i]);
                assert(used(tasks, r));
            }
        }
        if m2.contains_key(r) {
            assert forall|i: int|
                0 <= i < next.len() && (#[trigger] next[i]).trace.uses(r) implies next[i].prio
                <= m2[r] by {
                if i < n {
                    assert(tasks[i] == next[i]);
                }
            }
            if m.contains_key(r) && !(task.trace.uses(r) && m[r] < prio) {
                let i = choose|i: int|
                    0 <= i < tasks.len() && (#[trigger] tasks[i]).trace.uses(r) && tasks[i].prio
                        == m[r];
                assert(next[i] == tasks[i]);
            } else {
                assert(next[n].trace.uses(r) && next[n].prio == m2[r]);
            }
        }
    }
}

/// The ceiling of a resource is the priority of one of the tasks that lock
/// it, and no task that locks it has a higher one.
pub proof fn lemma_ceiling_map(tasks: Seq<TaskModel>, resource: Seq<char>)
    requires
        used(tasks, resource),
    ensures
        ceiling_map(tasks).contains_key(resource),
        is_ceiling(tasks, resource, ceiling_map(tasks)[resource]),
    decreases tasks.len(),
{
    let n = tasks.len() - 1;
    let rest = tasks.drop_last();
    assert(tasks =~= rest.push(tasks[n]));
    if tasks[n].trace.uses(resource) {
        if used(rest, resource) {
            lemma_ceiling_map(rest, resource);
            let q = ceiling_map(rest)[resource];
            lemma_next_ceiling(rest, tasks[n], resource, q);
        } else {
            assert forall|i: int|
                0 <= i < tasks.len() && (#[trigger] tasks[i]).trace.uses(resource) implies tasks[i].prio
                <= tasks[n].prio by {
                if i < n {
                    assert(rest[i] == tasks[i]);
                    assert(used(rest, resource));
                }
            }
            assert(is_ceiling(tasks, resource, tasks[n].prio));
        }
    } else {
        let i = choose|i: int| 0 <= i < tasks.len() && (#[trigger] tasks[i]).trace.uses(resource);
        assert(rest[i] == tasks[i]);
        assert(used(rest, resource));
        lemma_ceiling_map(rest, resource);
        let q = ceiling_map(rest)[resource];
        lemma_next_ceiling(rest, tasks[n], resource, q);
    }
}

/// With one more task, the ceiling of a resource is the higher of the old
/// ceiling and the priority of the new task, if that task locks it.
proof fn lemma_next_ceiling(rest: Seq<TaskModel>, task: TaskModel, resource: Seq<char>, q: int)
    requires
        is_ceiling(rest, resource, q),
    ensures
        is_ceiling(
            rest.push(task),
            resource,
            if task.trace.uses(resource) && task.prio > q {
                task.prio
            } else {
                q
            },
        ),
{
    let next = rest.push(task);
    let n = rest.len() as int;
    let p = if task.trace.uses(resource) && task.prio > q {
        task.prio
    } else {
        q
    };
    assert(next[n] == task);
    assert forall|i: int|
        0 <= i < next.len() && (#[trigger] next[i]).trace.uses(resource) implies next[i].prio
        <= p by {
        if i < n {
            assert(rest[i] == next[i]);
        }
    }
    if p == q {
        let i = choose|i: int|
            0 <= i < rest.len() && (#[trigger] rest[i]).trace.uses(resource) && rest[i].prio == q;
        assert(next[i] == rest[i]);
    } else {
        assert(next[n].trace.uses(resource) && next[n].prio == p);
    }
}

/// At most one priority is the ceiling of a resource.
pub proof fn lemma_ceiling_unique(tasks: Seq<TaskModel>, resource: Seq<char>, p: int, q: int)
    requires
        is_ceiling(tasks, resource, p),
        is_ceiling(tasks, resource, q),
    ensures
        p == q,
{
}

/// Whatever the usage map lists for a task is locked by some task of the
/// set, and so has a ceiling.
pub proof fn lemma_usage_is_used(tasks: Seq<TaskModel>, name: Seq<char>, resource: Seq<char>)
    requires
        usage_map(tasks).contains_key(name),
        usage_map(tasks)[name].contains(resource),
    ensures
        used(tasks, resource),
        ceiling_map(tasks).contains_key(resource),
    decreases tasks.len(),
{
    if tasks.len() > 0 {
        let n = tasks.len() - 1;
        let rest = tasks.drop_last();
        if tasks[n].id == name {
            assert(tasks[n].trace.uses(resource));
        } else {
            lemma_usage_is_used(rest, name, resource);
            let i = choose|i: int| 0 <= i < rest.len() && (#[trigger] rest[i]).trace.uses(resource);
            assert(tasks[i] == rest[i]);
        }
    }
}

/// Derives both maps from the task set: the priority ceiling of every
/// resource that some task locks, and for every task the resources it locks.
pub fn pre_analysis(tasks: &Vec<Task>) -> (maps: (Ceilings, Usage))
    ensures
        maps.0@ == ceiling_map(tasks.deep_view()),
        maps.1@ == usage_map(tasks.deep_view()),
{
    let mut ceilings: StringHashMap<u8> = StringHashMap::new();
    let mut usage: StringHashMap<Vec<String>> = StringHashMap::new();
    let ghost all = tasks.deep_view();
    let mut i: usize = 0;
    while i < tasks.len()
        invariant
            i <= tasks.len(),
            all == tasks.deep_view(),
            holds_ceilings(ceilings@, all.take(i as int)),
            forall|t: Seq<char>| usage@.contains_key(t) ==> distinct_names(#[trigger] usage@[t]@),
            Map::new(|t: Seq<char>| usage@.contains_key(t), |t: Seq<char>| name_set(usage@[t]@))
                == usage_map(all.take(i as int)),
        decreases tasks.len() - i,
    {
        let task = &tasks[i];
        let ghost start = ceilings@;
        let mut resources: Vec<String> = Vec::new();
        proof {
            task.trace.lemma_view();
        }
        let mut k: usize = 0;
        while k < task.trace.inner.len()
            invariant
                k <= task.trace.inner.len(),
                task.trace@.inner.len() == task.trace.inner@.len(),
                forall|j: int|
                    0 <= j < task.trace.inner@.len() ==> #[trigger] task.trace@.inner[j]
                        == task.trace.inner@[j]@,
                distinct_names(resources@),
                ceilings@ == raised(start, below(task.trace@, k as int), task.prio),
                name_set(resources@) == below(task.trace@, k as int),
            decreases task.trace.inner.len() - k,
        {
            record(&task.trace.inner[k], task.prio, &mut ceilings, &mut resources);
            proof {
                let child = task.trace@.inner[k as int];
                assert(below(task.trace@, k + 1) =~= below(task.trace@, k as int).union(
                    child.names(),
                )) by {
                    assert forall|r: Seq<char>| below(task.trace@, k + 1).contains(r) implies below(
                        task.trace@,
                        k as int,
                    ).union(child.names()).contains(r) by {
                        let j = choose|j: int|
                            0 <= j < k + 1 && j < task.trace@.inner.len() && (
                            #[trigger] task.trace@.inner[j]).mentions(r);
                        if j < k {
                            assert(below(task.trace@, k as int).contains(r));
                        }
                    }
                }
                assert(ceilings@ =~= raised(start, below(task.trace@, k + 1), task.prio));
                assert(name_set(resources@) =~= below(task.trace@, k + 1));
            }
            k += 1;
        }
        proof {
            assert(below(task.trace@, task.trace@.inner.len() as int) =~= task.trace@.resources());
            lemma_raise_keeps_ceilings(start, all.take(i as int), task@, task.prio);
            assert(all.take(i + 1) =~= all.take(i as int).push(task@));
            assert(all.take(i + 1).drop_last() =~= all.take(i as int));
        }
        usage.insert(task.id.clone(), resources);
        proof {
            assert(Map::new(
                |t: Seq<char>| usage@.contains_key(t),
                |t: Seq<char>| name_set(usage@[t]@),
            ) =~= usage_map(all.take(i as int)).insert(task@.id, task.trace@.resources()));
        }
        i += 1;
    }
    proof {
        assert(all.take(tasks.len() as int) =~= all);
        let found = Ceilings { map: ceilings };
        assert(found@ =~= ceiling_map(all)) by {
            assert forall|r: Seq<char>| found@.contains_key(r) implies found@[r] == ceiling_map(
                all,
            )[r] by {
                lemma_ceiling_map(all, r);
                lemma_ceiling_unique(all, r, found@[r], ceiling_map(all)[r]);
            }
        }
    }
    (Ceilings { map: ceilings }, Usage { map: usage })
}

/// The resources met in the first `k` sections nested directly in the root
/// of `trace`.
spec fn below(trace: TraceModel, k: int) -> Set<Seq<char>> {
    Set::new(
        |r: Seq<char>|
            exists|j: int|
                0 <= j < k && j < trace.inner.len() && (#[trigger] trace.inner[j]).mentions(r),
    )
}

} // verus!
