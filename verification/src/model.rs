//! Tasks, their execution traces, and the mathematical models the
//! analysis is stated over.

use vstd::prelude::*;

verus! {

/// One contiguous execution interval of a task. The root of a task's trace
/// carries the task's own name; every nested node is a critical section and
/// carries the name of the resource it holds. Nested sections are meant to
/// lie within the interval of their parent; nothing in the analysis depends
/// on it.
#[derive(Debug)]
pub struct Trace {
    pub id: String,
    pub start: u32,
    pub end: u32,
    pub inner: Vec<Trace>,
}

/// Mathematical model of a [`Trace`]: names are character sequences, time
/// stamps are unbounded integers, nested sections form a sequence.
#[verifier::ext_equal]
pub struct TraceModel {
    pub id: Seq<char>,
    pub start: int,
    pub end: int,
    pub inner: Seq<TraceModel>,
}

impl TraceModel {
    /// Length of the interval.
    pub open spec fn span(self) -> int {
        self.end - self.start
    }

    /// No interval in the tree ends before it starts.
    pub open spec fn well_formed(self) -> bool
        decreases self,
    {
        &&& self.start <= self.end
        &&& forall|i: int|
            0 <= i < self.inner.len() ==> (#[trigger] self.inner[i]).well_formed()
    }

    /// `node` is this node or one nested anywhere inside it.
    pub open spec fn has_node(self, node: TraceModel) -> bool
        decreases self,
    {
        ||| node == self
        ||| exists|i: int|
            0 <= i < self.inner.len() && (#[trigger] self.inner[i]).has_node(node)
    }

    /// Some node of the tree, the root included, is named `name`.
    pub open spec fn mentions(self, name: Seq<char>) -> bool
        decreases self,
    {
        ||| self.id == name
        ||| exists|i: int|
            0 <= i < self.inner.len() && (#[trigger] self.inner[i]).mentions(name)
    }

    /// Some critical section strictly below the root holds `resource`.
    pub open spec fn uses(self, resource: Seq<char>) -> bool {
        exists|i: int|
            0 <= i < self.inner.len() && (#[trigger] self.inner[i]).mentions(resource)
    }
}

impl View for Trace {
    type V = TraceModel;

    open spec fn view(&self) -> TraceModel {
        self.model()
    }
}

impl DeepView for Trace {
    type V = TraceModel;

    open spec fn deep_view(&self) -> TraceModel {
        self@
    }
}

impl Trace {
    /// The model of this trace, built node by node.
    pub open spec fn model(&self) -> TraceModel
        decreases self,
    {
        TraceModel {
            id: self.id@,
            start: self.start as int,
            end: self.end as int,
            inner: Seq::new(
                self.inner@.len(),
                |i: int|
                    if 0 <= i < self.inner@.len() {
                        self.inner@[i].model()
                    } else {
                        arbitrary()
                    },
            ),
        }
    }

    /// The model of a trace is built node by node from the models of its
    /// nested sections.
    pub proof fn lemma_view(&self)
        ensures
            self@.id == self.id@,
            self@.start == self.start,
            self@.end == self.end,
            self@.inner.len() == self.inner@.len(),
            forall|i: int|
                0 <= i < self.inner@.len() ==> #[trigger] self@.inner[i] == self.inner@[i]@,
    {
    }

    /// Length of the interval.
    pub fn span(&self) -> (d: u32)
        requires
            self.start <= self.end,
        ensures
            d == self@.span(),
    {
        self.end - self.start
    }

    /// Decides [`TraceModel::well_formed`].
    pub fn is_well_formed(&self) -> (ok: bool)
        ensures
            ok == self@.well_formed(),
        decreases self,
    {
        proof {
            self.lemma_view();
        }
        if self.start > self.end {
            return false;
        }
        let mut i: usize = 0;
        while i < self.inner.len()
            invariant
                i <= self.inner.len(),
                self@.start <= self@.end,
                self@.inner.len() == self.inner@.len(),
                forall|j: int|
                    0 <= j < self.inner@.len() ==> #[trigger] self@.inner[j] == self.inner@[j]@,
                forall|j: int| 0 <= j < i ==> (#[trigger] self@.inner[j]).well_formed(),
            decreases self.inner.len() - i,
        {
            if !self.inner[i].is_well_formed() {
                assert(!self@.inner[i as int].well_formed());
                return false;
            }
            i += 1;
        }
        true
    }
}

/// One periodic or sporadic activity. A larger `prio` is a higher priority;
/// `inter_arrival` is the minimum time between two activations. Priorities
/// are meant to be distinct: tasks of equal priority neither block nor
/// preempt one another.
#[derive(Debug)]
pub struct Task {
    pub id: String,
    pub prio: u8,
    pub deadline: u32,
    pub inter_arrival: u32,
    pub trace: Trace,
}

/// Mathematical model of a [`Task`].
#[verifier::ext_equal]
pub struct TaskModel {
    pub id: Seq<char>,
    pub prio: int,
    pub deadline: int,
    pub period: int,
    pub trace: TraceModel,
}

impl TaskModel {
    /// Worst-case execution time: the span of the root trace.
    pub open spec fn wcet(self) -> int {
        self.trace.span()
    }

    /// Deadline and period are positive and the trace is well formed.
    pub open spec fn well_formed(self) -> bool {
        &&& self.deadline > 0
        &&& self.period > 0
        &&& self.trace.well_formed()
    }
}

impl View for Task {
    type V = TaskModel;

    open spec fn view(&self) -> TaskModel {
        TaskModel {
            id: self.id@,
            prio: self.prio as int,
            deadline: self.deadline as int,
            period: self.inter_arrival as int,
            trace: self.trace@,
        }
    }
}

impl DeepView for Task {
    type V = TaskModel;

    open spec fn deep_view(&self) -> TaskModel {
        self@
    }
}

impl Task {
    /// Decides [`TaskModel::well_formed`].
    pub fn is_well_formed(&self) -> (ok: bool)
        ensures
            ok == self@.well_formed(),
    {
        self.deadline > 0 && self.inter_arrival > 0 && self.trace.is_well_formed()
    }
}

/// Worst-case execution time of a task: the span of its root trace.
pub fn wcet(task: &Task) -> (c: u128)
    requires
        task@.trace.start <= task@.trace.end,
    ensures
        c == task@.wcet(),
        c <= u32::MAX,
{
    proof {
        task.trace.lemma_view();
    }
    task.trace.span() as u128
}

/// Every task of the set is well formed.
pub open spec fn well_formed_set(tasks: Seq<TaskModel>) -> bool {
    forall|i: int| 0 <= i < tasks.len() ==> (#[trigger] tasks[i]).well_formed()
}

/// Every part of a well-formed task set is well formed.
pub proof fn lemma_well_formed_prefix(tasks: Seq<TaskModel>, k: int)
    requires
        well_formed_set(tasks),
        0 <= k <= tasks.len(),
    ensures
        well_formed_set(tasks.take(k)),
{
    assert forall|i: int| 0 <= i < tasks.take(k).len() implies (#[trigger] tasks.take(
        k,
    )[i]).well_formed() by {
        assert(tasks.take(k)[i] == tasks[i]);
    }
}

/// Decides [`well_formed_set`].
pub fn is_well_formed_set(tasks: &Vec<Task>) -> (ok: bool)
    ensures
        ok == well_formed_set(tasks.deep_view()),
{
    let mut i: usize = 0;
    while i < tasks.len()
        invariant
            i <= tasks.len(),
            forall|j: int| 0 <= j < i ==> (#[trigger] tasks.deep_view()[j]).well_formed(),
        decreases tasks.len() - i,
    {
        if !tasks[i].is_well_formed() {
            assert(!tasks.deep_view()[i as int].well_formed());
            return false;
        }
        i += 1;
    }
    true
}

} // verus!
