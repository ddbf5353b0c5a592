//! Task nodes and the decomposition algorithm that turns a task subtree into
//! a linear plan of primitive task indices.

use std::collections::VecDeque;
use vstd::prelude::*;

use crate::behaviour::Behaviour;
use crate::context::{ctx_begin, ctx_commit, ctx_rollback, ctx_set, ContextState, CtxCore, CtxView, VariantView};
use crate::htn::{
    condition_holds, effect_applied, Condition, ConditionView, Effect, EffectView, Operator,
    OperatorView, Plan,
};

verus! {

/// The four node kinds of a behaviour tree.
#[derive(Clone, Copy, Debug, PartialEq, Eq, Structural)]
pub enum TaskType {
    /// Every child must decompose successfully, under one transaction.
    Sequence,
    /// The first acceptable child wins; order encodes priority.
    Selector,
    /// A leaf with conditions, effects and an optional operator.
    Primitive,
    /// Marks a resumable break in a long decomposition.
    Pause,
}

/// What an operator reports each tick it runs.
#[derive(Clone, Copy, Debug, PartialEq, Eq, Structural)]
pub enum TaskStatus {
    /// Still running; the task stays current next tick.
    Continue,
    /// Finished; the planner moves on.
    Success,
    /// Failed; the planner aborts the plan.
    Failure,
}

impl Default for TaskStatus {
    fn default() -> (r: Self)
        ensures
            r == TaskStatus::Failure,
    {
        TaskStatus::Failure
    }
}

/// The outcome of decomposing one task.
#[derive(Clone, Copy, Debug, PartialEq, Eq, Structural)]
pub enum DecompositionStatus {
    /// The subtree produced a non-empty plan fragment.
    Succeeded,
    /// Decomposition paused; the rest waits in the partial queue.
    Partial,
    /// The subtree produced nothing.
    Failed,
    /// No decomposition was attempted.
    Rejected,
}

impl Default for DecompositionStatus {
    fn default() -> (r: Self)
        ensures
            r == DecompositionStatus::Rejected,
    {
        DecompositionStatus::Rejected
    }
}

/// Spec-level value of a [`Task`].
pub struct TaskView {
    pub name: Seq<char>,
    pub index: usize,
    pub conditions: Seq<ConditionView>,
    pub exec_conditions: Seq<ConditionView>,
    pub operator: Option<OperatorView>,
    pub effects: Seq<EffectView>,
    pub parent: Option<usize>,
    pub sub_tasks: Seq<usize>,
    pub task_type: TaskType,
}

/// One node of a behaviour's task arena, linked to parent and children by
/// arena indices.
#[derive(Debug)]
pub struct Task {
    pub name: String,
    pub index: usize,
    pub conditions: Vec<Condition>,
    pub exec_conditions: Vec<Condition>,
    pub operator: Option<Operator>,
    pub effects: Vec<Effect>,
    pub parent: Option<usize>,
    pub sub_tasks: Vec<usize>,
    pub task_type: TaskType,
}

impl View for Task {
    type V = TaskView;

    open spec fn view(&self) -> TaskView {
        TaskView {
            name: self.name@,
            index: self.index,
            conditions: self.conditions@.map_values(|c: Condition| c@),
            exec_conditions: self.exec_conditions@.map_values(|c: Condition| c@),
            operator: match self.operator {
                Some(op) => Some(op@),
                None => None,
            },
            effects: self.effects@.map_values(|e: Effect| e@),
            parent: self.parent,
            sub_tasks: self.sub_tasks@,
            task_type: self.task_type,
        }
    }
}

/// All of a task's planning conditions hold of the fact map.
pub open spec fn conds_hold(cs: Seq<ConditionView>, vars: Map<Seq<char>, VariantView>) -> bool {
    forall|i: int| 0 <= i < cs.len() ==> condition_holds(#[trigger] cs[i], vars)
}

/// The store after applying a list of effects in order.
pub open spec fn effects_applied(es: Seq<EffectView>, c: CtxCore) -> CtxCore
    decreases es.len(),
{
    if es.len() == 0 {
        c
    } else {
        effect_applied(es.last(), effects_applied(es.drop_last(), c))
    }
}

impl Task {
    /// Makes a bare node of the given kind: no conditions, no effects, no
    /// operator, no children.
    pub fn new(name: &str, index: usize, parent: Option<usize>, task_type: TaskType) -> (r: Task)
        ensures
            r@ == (TaskView {
                name: name@,
                index,
                conditions: Seq::empty(),
                exec_conditions: Seq::empty(),
                operator: None,
                effects: Seq::empty(),
                parent,
                sub_tasks: Seq::empty(),
                task_type,
            }),
    {
        let r = Task {
            name: name.to_owned(),
            index,
            conditions: Vec::new(),
            exec_conditions: Vec::new(),
            operator: None,
            effects: Vec::new(),
            parent,
            sub_tasks: Vec::new(),
            task_type,
        };
        proof {
            assert(r@.conditions =~= Seq::<ConditionView>::empty());
            assert(r@.exec_conditions =~= Seq::<ConditionView>::empty());
            assert(r@.effects =~= Seq::<EffectView>::empty());
        }
        r
    }

    /// The node's kind.
    pub fn get_type(&self) -> (r: TaskType)
        ensures
            r == self@.task_type,
    {
        self.task_type
    }

    /// Whether this node is a primitive.
    pub fn is_primitive(&self) -> (r: bool)
        ensures
            r == (self@.task_type == TaskType::Primitive),
    {
        self.task_type == TaskType::Primitive
    }

    /// Forwards a pre-emption notice to the operator, if one is attached.
    pub fn stop(&self, ctx: &mut ContextState)
        ensures
            *final(ctx) == *old(ctx),
    {
        match &self.operator {
            Some(op) => op.stop(ctx),
            None => {},
        }
    }

    /// Adds a child link; only compound nodes may have children.
    pub(crate) fn add_child(&mut self, child: usize)
        requires
            old(self)@.task_type != TaskType::Primitive,
        ensures
            final(self)@ == (TaskView { sub_tasks: old(self)@.sub_tasks.push(child), ..old(self)@ }),
    {
        self.sub_tasks.push(child);
    }

    /// Attaches the operator; only primitives may have one.
    pub(crate) fn add_operator(&mut self, operator: Operator)
        requires
            old(self)@.task_type == TaskType::Primitive,
        ensures
            final(self)@ == (TaskView { operator: Some(operator@), ..old(self)@ }),
    {
        self.operator = Some(operator);
    }

    /// Adds a planning condition.
    pub(crate) fn add_condition(&mut self, condition: Condition)
        ensures
            final(self)@ == (TaskView {
                conditions: old(self)@.conditions.push(condition@),
                ..old(self)@
            }),
    {
        self.conditions.push(condition);
        proof {
            assert(self@.conditions =~= old(self)@.conditions.push(
                self.conditions@.last()@,
            ));
        }
    }

    /// Adds an effect.
    pub(crate) fn add_effect(&mut self, effect: Effect)
        ensures
            final(self)@ == (TaskView { effects: old(self)@.effects.push(effect@), ..old(self)@ }),
    {
        self.effects.push(effect);
        proof {
            assert(self@.effects =~= old(self)@.effects.push(self.effects@.last()@));
        }
    }

    /// The logical AND over all planning conditions; vacuously true when
    /// there are none.
    pub fn is_valid(&self, ctx: &ContextState) -> (r: bool)
        requires
            ctx.well_formed(),
        ensures
            r == conds_hold(self@.conditions, ctx@.core.vars),
    {
        let mut valid = true;
        let mut i: usize = 0;
        while i < self.conditions.len()
            invariant
                ctx.well_formed(),
                i <= self.conditions@.len(),
                valid == (forall|j: int|
                    0 <= j < i ==> condition_holds(#[trigger] self@.conditions[j], ctx@.core.vars)),
            decreases self.conditions@.len() - i,
        {
            let this_one = self.conditions[i].is_valid(ctx);
            proof {
                assert(self@.conditions[i as int] == self.conditions@[i as int]@);
            }
            valid = valid && this_one;
            i = i + 1;
        }
        valid
    }

    /// The logical AND over all execution conditions, the tick-granularity
    /// checks distinct from planning conditions.
    pub fn exec_conditions_valid(&self, ctx: &ContextState) -> (r: bool)
        requires
            ctx.well_formed(),
        ensures
            r == conds_hold(self@.exec_conditions, ctx@.core.vars),
    {
        let mut valid = true;
        let mut i: usize = 0;
        while i < self.exec_conditions.len()
            invariant
                ctx.well_formed(),
                i <= self.exec_conditions@.len(),
                valid == (forall|j: int|
                    0 <= j < i ==> condition_holds(
                        #[trigger] self@.exec_conditions[j],
                        ctx@.core.vars,
                    )),
            decreases self.exec_conditions@.len() - i,
        {
            let this_one = self.exec_conditions[i].is_valid(ctx);
            proof {
                assert(self@.exec_conditions[i as int] == self.exec_conditions@[i as int]@);
            }
            valid = valid && this_one;
            i = i + 1;
        }
        valid
    }

    /// Applies every effect, in declared order.
    pub fn apply_effects(&self, ctx: &mut ContextState)
        requires
            old(ctx).well_formed(),
        ensures
            final(ctx).well_formed(),
            final(ctx)@ == (CtxView {
                core: effects_applied(self@.effects, old(ctx)@.core),
                ..old(ctx)@
            }),
    {
        let mut i: usize = 0;
        while i < self.effects.len()
            invariant
                ctx.well_formed(),
                i <= self.effects@.len(),
                ctx@ == (CtxView {
                    core: effects_applied(self@.effects.take(i as int), old(ctx)@.core),
                    ..old(ctx)@
                }),
            decreases self.effects@.len() - i,
        {
            self.effects[i].apply(ctx);
            proof {
                assert(self@.effects.take(i + 1).drop_last() =~= self@.effects.take(i as int));
                assert(self@.effects.take(i + 1).last() == self@.effects[i as int]);
                assert(self@.effects[i as int] == self.effects@[i as int]@);
            }
            i = i + 1;
        }
        proof {
            assert(self@.effects.take(self@.effects.len() as int) =~= self@.effects);
        }
    }
}

/// Shape constraints on a task arena: each node records its own position,
/// and every child link points further right in the arena, so recursion
/// along child links terminates.
pub open spec fn tasks_wf(tasks: Seq<TaskView>) -> bool {
    &&& (forall|i: int| 0 <= i < tasks.len() ==> (#[trigger] tasks[i]).index == i)
    &&& (forall|i: int, j: int|
        0 <= i < tasks.len() && 0 <= j < tasks[i].sub_tasks.len() ==> i < #[trigger] tasks[i].sub_tasks[j]
            < tasks.len())
}

// ---------------------------------------------------------------------------
// The decomposition algorithm, stated abstractly
// ---------------------------------------------------------------------------

/// What decomposing one task yields: the store it leaves behind, the plan
/// fragment it appends, and its status.
pub struct Decomp {
    pub core: CtxCore,
    pub frag: Seq<usize>,
    pub status: DecompositionStatus,
}

/// Decomposition of the task at arena index `i`.
///
/// A primitive checks its conditions, applies its effects and contributes
/// its own index. A sequence runs its children under a transaction. A
/// selector takes the first acceptable child. A pause marks the context
/// paused and queues the index of the task that initiated this pass.
pub open spec fn spec_decompose(tasks: Seq<TaskView>, i: int, c: CtxCore, calling: usize) -> Decomp
    decreases tasks.len() - i, 1int, 0int
        when tasks_wf(tasks) && 0 <= i < tasks.len()
{
    let t = tasks[i];
    match t.task_type {
        TaskType::Sequence => spec_seq_loop(tasks, i, 0, ctx_begin(c), Seq::empty(), calling),
        TaskType::Selector => spec_sel_loop(tasks, i, 0, c, calling),
        TaskType::Pause => Decomp {
            core: CtxCore { paused: true, partial: c.partial.push(calling), ..c },
            frag: Seq::empty(),
            status: DecompositionStatus::Partial,
        },
        TaskType::Primitive => if conds_hold(t.conditions, c.vars) {
            Decomp {
                core: effects_applied(t.effects, c),
                frag: seq![t.index],
                status: DecompositionStatus::Succeeded,
            }
        } else {
            Decomp { core: c, frag: Seq::empty(), status: DecompositionStatus::Failed }
        },
    }
}

/// A sequence's walk over its children from child position `k`, with the
/// sequence's transaction open in `c` and `acc` holding what the earlier
/// children contributed. The sequence re-checks its own conditions before
/// each child; any child status but success rolls the transaction back and
/// is passed on; if every child succeeds but nothing was contributed, the
/// sequence fails; otherwise the transaction commits.
pub open spec fn spec_seq_loop(
    tasks: Seq<TaskView>,
    i: int,
    k: int,
    c: CtxCore,
    acc: Seq<usize>,
    calling: usize,
) -> Decomp
    decreases tasks.len() - i, 0int, tasks[i].sub_tasks.len() - k
        when tasks_wf(tasks) && 0 <= i < tasks.len() && 0 <= k <= tasks[i].sub_tasks.len()
{
    let t = tasks[i];
    if k == t.sub_tasks.len() {
        if acc.len() == 0 {
            Decomp {
                core: ctx_rollback(c),
                frag: Seq::empty(),
                status: DecompositionStatus::Failed,
            }
        } else {
            Decomp { core: ctx_commit(c), frag: acc, status: DecompositionStatus::Succeeded }
        }
    } else if !conds_hold(t.conditions, c.vars) {
        Decomp { core: ctx_rollback(c), frag: Seq::empty(), status: DecompositionStatus::Failed }
    } else {
        let d = spec_decompose(tasks, t.sub_tasks[k] as int, c, calling);
        if d.status == DecompositionStatus::Succeeded {
            spec_seq_loop(tasks, i, k + 1, d.core, acc + d.frag, calling)
        } else {
            Decomp { core: ctx_rollback(d.core), frag: Seq::empty(), status: d.status }
        }
    }
}

/// A selector's walk over its children from child position `k`: the first
/// child that does not fail decides the outcome; child order encodes
/// priority. The selector re-checks its own conditions before each child.
pub open spec fn spec_sel_loop(
    tasks: Seq<TaskView>,
    i: int,
    k: int,
    c: CtxCore,
    calling: usize,
) -> Decomp
    decreases tasks.len() - i, 0int, tasks[i].sub_tasks.len() - k
        when tasks_wf(tasks) && 0 <= i < tasks.len() && 0 <= k <= tasks[i].sub_tasks.len()
{
    let t = tasks[i];
    if k == t.sub_tasks.len() {
        Decomp { core: c, frag: Seq::empty(), status: DecompositionStatus::Failed }
    } else if !conds_hold(t.conditions, c.vars) {
        Decomp { core: c, frag: Seq::empty(), status: DecompositionStatus::Failed }
    } else {
        let d = spec_decompose(tasks, t.sub_tasks[k] as int, c, calling);
        if d.status == DecompositionStatus::Failed {
            spec_sel_loop(tasks, i, k + 1, d.core, calling)
        } else {
            d
        }
    }
}

/// Applying effects never opens or closes a transaction and never touches
/// the paused flag or the partial queue.
proof fn lemma_effects_keep(es: Seq<EffectView>, c: CtxCore)
    ensures
        effects_applied(es, c).trans.len() == c.trans.len(),
        effects_applied(es, c).paused == c.paused,
        effects_applied(es, c).partial == c.partial,
    decreases es.len(),
{
    if es.len() > 0 {
        lemma_effects_keep(es.drop_last(), c);
    }
}

/// Decomposition leaves the transaction stack depth as it found it, only
/// appends to the partial queue, and raises the paused flag exactly when it
/// queued something; a pass that did not pause leaves queue and flag alone.
pub proof fn lemma_decompose_keeps(tasks: Seq<TaskView>, i: int, c: CtxCore, calling: usize)
    requires
        tasks_wf(tasks),
        0 <= i < tasks.len(),
    ensures
        ({
            let d = spec_decompose(tasks, i, c, calling);
            &&& d.core.trans.len() == c.trans.len()
            &&& (forall|w: int| 0 <= w < d.frag.len() ==> (#[trigger] d.frag[w]) < tasks.len())
            &&& d.core.partial.len() >= c.partial.len()
            &&& d.core.partial.take(c.partial.len() as int) == c.partial
            &&& (forall|w: int|
                c.partial.len() <= w < d.core.partial.len() ==> #[trigger] d.core.partial[w]
                    == calling)
            &&& (c.paused ==> d.core.paused)
            &&& (!d.core.paused ==> d.core.partial == c.partial && !c.paused)
        }),
    decreases tasks.len() - i, 1int, 0int,
{
    let t = tasks[i];
    let d = spec_decompose(tasks, i, c, calling);
    match t.task_type {
        TaskType::Sequence => {
            lemma_seq_loop_keeps(tasks, i, 0, ctx_begin(c), Seq::empty(), calling);
            assert(ctx_begin(c).partial.take(c.partial.len() as int) =~= c.partial);
        },
        TaskType::Selector => {
            lemma_sel_loop_keeps(tasks, i, 0, c, calling);
        },
        TaskType::Pause => {
            assert(c.partial.push(calling).take(c.partial.len() as int) =~= c.partial);
        },
        TaskType::Primitive => {
            if conds_hold(t.conditions, c.vars) {
                lemma_effects_keep(t.effects, c);
            }
            assert(c.partial.take(c.partial.len() as int) =~= c.partial);
        },
    }
}

proof fn lemma_seq_loop_keeps(
    tasks: Seq<TaskView>,
    i: int,
    k: int,
    c: CtxCore,
    acc: Seq<usize>,
    calling: usize,
)
    requires
        tasks_wf(tasks),
        0 <= i < tasks.len(),
        0 <= k <= tasks[i].sub_tasks.len(),
        c.trans.len() > 0,
        forall|w: int| 0 <= w < acc.len() ==> (#[trigger] acc[w]) < tasks.len(),
    ensures
        ({
            let d = spec_seq_loop(tasks, i, k, c, acc, calling);
            &&& d.core.trans.len() == c.trans.len() - 1
            &&& (forall|w: int| 0 <= w < d.frag.len() ==> (#[trigger] d.frag[w]) < tasks.len())
            &&& d.core.partial.len() >= c.partial.len()
            &&& d.core.partial.take(c.partial.len() as int) == c.partial
            &&& (forall|w: int|
                c.partial.len() <= w < d.core.partial.len() ==> #[trigger] d.core.partial[w]
                    == calling)
            &&& (c.paused ==> d.core.paused)
            &&& (!d.core.paused ==> d.core.partial == c.partial && !c.paused)
        }),
    decreases tasks.len() - i, 0int, tasks[i].sub_tasks.len() - k,
{
    let t = tasks[i];
    let d = spec_seq_loop(tasks, i, k, c, acc, calling);
    if k == t.sub_tasks.len() || !conds_hold(t.conditions, c.vars) {
        assert(c.partial.take(c.partial.len() as int) =~= c.partial);
    } else {
        let dc = spec_decompose(tasks, t.sub_tasks[k] as int, c, calling);
        lemma_decompose_keeps(tasks, t.sub_tasks[k] as int, c, calling);
        if dc.status == DecompositionStatus::Succeeded {
            lemma_seq_loop_keeps(tasks, i, k + 1, dc.core, acc + dc.frag, calling);
            assert(d.core.partial.take(c.partial.len() as int) =~= c.partial) by {
                assert(d.core.partial.take(dc.core.partial.len() as int) == dc.core.partial);
                assert(dc.core.partial.take(c.partial.len() as int) == c.partial);
                assert(forall|w: int|
                    0 <= w < c.partial.len() ==> d.core.partial.take(c.partial.len() as int)[w]
                        == c.partial[w]);
            }
            assert forall|w: int|
                c.partial.len() <= w < d.core.partial.len() implies #[trigger] d.core.partial[w]
                == calling by {
                if w < dc.core.partial.len() {
                    assert(d.core.partial.take(dc.core.partial.len() as int)[w]
                        == dc.core.partial[w]);
                }
            }
        } else {
            assert(d.core.partial.take(c.partial.len() as int) =~= c.partial);
        }
    }
}

proof fn lemma_sel_loop_keeps(
    tasks: Seq<TaskView>,
    i: int,
    k: int,
    c: CtxCore,
    calling: usize,
)
    requires
        tasks_wf(tasks),
        0 <= i < tasks.len(),
        0 <= k <= tasks[i].sub_tasks.len(),
    ensures
        ({
            let d = spec_sel_loop(tasks, i, k, c, calling);
            &&& d.core.trans.len() == c.trans.len()
            &&& (forall|w: int| 0 <= w < d.frag.len() ==> (#[trigger] d.frag[w]) < tasks.len())
            &&& d.core.partial.len() >= c.partial.len()
            &&& d.core.partial.take(c.partial.len() as int) == c.partial
            &&& (forall|w: int|
                c.partial.len() <= w < d.core.partial.len() ==> #[trigger] d.core.partial[w]
                    == calling)
            &&& (c.paused ==> d.core.paused)
            &&& (!d.core.paused ==> d.core.partial == c.partial && !c.paused)
        }),
    decreases tasks.len() - i, 0int, tasks[i].sub_tasks.len() - k,
{
    let t = tasks[i];
    let d = spec_sel_loop(tasks, i, k, c, calling);
    if k == t.sub_tasks.len() || !conds_hold(t.conditions, c.vars) {
        assert(c.partial.take(c.partial.len() as int) =~= c.partial);
    } else {
        let dc = spec_decompose(tasks, t.sub_tasks[k] as int, c, calling);
        lemma_decompose_keeps(tasks, t.sub_tasks[k] as int, c, calling);
        if dc.status == DecompositionStatus::Failed {
            lemma_sel_loop_keeps(tasks, i, k + 1, dc.core, calling);
            assert(d.core.partial.take(c.partial.len() as int) =~= c.partial) by {
                assert(d.core.partial.take(dc.core.partial.len() as int) == dc.core.partial);
                assert(dc.core.partial.take(c.partial.len() as int) == c.partial);
                assert(forall|w: int|
                    0 <= w < c.partial.len() ==> d.core.partial.take(c.partial.len() as int)[w]
                        == c.partial[w]);
            }
            assert forall|w: int|
                c.partial.len() <= w < d.core.partial.len() implies #[trigger] d.core.partial[w]
                == calling by {
                if w < dc.core.partial.len() {
                    assert(d.core.partial.take(dc.core.partial.len() as int)[w]
                        == dc.core.partial[w]);
                }
            }
        } else {
            assert(c.partial.take(c.partial.len() as int) =~= c.partial);
        }
    }
}

// ---------------------------------------------------------------------------
// The decomposition engine
// ---------------------------------------------------------------------------

/// One decomposition pass over a subtree. It remembers which task initiated
/// the pass, so that a pause can queue that task for resumption.
pub struct TaskDecomposition {
    /// Arena index of the task on which this pass was started.
    pub calling_task: usize,
}

impl TaskDecomposition {
    /// Starts a pass initiated by the task at `calling`.
    pub fn new(calling: usize) -> (r: TaskDecomposition)
        ensures
            r.calling_task == calling,
    {
        TaskDecomposition { calling_task: calling }
    }

    /// Decomposes the task at `index`, appending its plan fragment to
    /// `over_plan`; the result is exactly what [`spec_decompose`] states.
    pub fn decompose(
        &self,
        behaviour: &Behaviour,
        ctx: &mut ContextState,
        index: usize,
        over_plan: &mut Plan,
    ) -> (r: DecompositionStatus)
        requires
            behaviour.well_formed(),
            index < behaviour@.tasks.len(),
            old(ctx).well_formed(),
        ensures
            final(ctx).well_formed(),
            ({
                let d = spec_decompose(
                    behaviour@.tasks,
                    index as int,
                    old(ctx)@.core,
                    self.calling_task,
                );
                &&& final(ctx)@ == (CtxView { core: d.core, ..old(ctx)@ })
                &&& final(over_plan)@ == old(over_plan)@ + d.frag
                &&& r == d.status
            }),
        decreases behaviour@.tasks.len() - index, 1int,
    {
        let ttype = behaviour.get_task(index).get_type();
        match ttype {
            TaskType::Sequence => self.decompose_sequence(behaviour, ctx, index, over_plan),
            TaskType::Selector => self.decompose_selector(behaviour, ctx, index, over_plan),
            TaskType::Pause => {
                ctx.set_paused(true);
                ctx.push_partial(self.calling_task);
                proof {
                    assert(old(over_plan)@ + Seq::<usize>::empty() =~= old(over_plan)@);
                }
                DecompositionStatus::Partial
            },
            TaskType::Primitive => self.decompose_primitive(behaviour, ctx, index, over_plan),
        }
    }

    /// A sequence opens a transaction, walks its children in order, and
    /// commits only if every child succeeded and something was planned;
    /// every other exit rolls the transaction back.
    fn decompose_sequence(
        &self,
        behaviour: &Behaviour,
        ctx: &mut ContextState,
        index: usize,
        over_plan: &mut Plan,
    ) -> (r: DecompositionStatus)
        requires
            behaviour.well_formed(),
            index < behaviour@.tasks.len(),
            behaviour@.tasks[index as int].task_type == TaskType::Sequence,
            old(ctx).well_formed(),
        ensures
            final(ctx).well_formed(),
            ({
                let d = spec_decompose(
                    behaviour@.tasks,
                    index as int,
                    old(ctx)@.core,
                    self.calling_task,
                );
                &&& final(ctx)@ == (CtxView { core: d.core, ..old(ctx)@ })
                &&& final(over_plan)@ == old(over_plan)@ + d.frag
                &&& r == d.status
            }),
        decreases behaviour@.tasks.len() - index, 0int,
    {
        let ghost tasks = behaviour@.tasks;
        let ghost c0 = old(ctx)@.core;
        let ghost ct = self.calling_task;
        let ghost target = spec_decompose(tasks, index as int, c0, ct);
        let mut sub_plan: Plan = VecDeque::new();
        ctx.begin_transaction();
        proof {
            assert(target == spec_seq_loop(tasks, index as int, 0, ctx_begin(c0), Seq::empty(), ct));
            assert(sub_plan@ =~= Seq::<usize>::empty());
        }
        let n_children = behaviour.get_task(index).sub_tasks.len();
        let mut k: usize = 0;
        while k < n_children
            invariant
                behaviour.well_formed(),
                behaviour@.tasks == tasks,
                tasks_wf(tasks),
                index < tasks.len(),
                tasks[index as int].task_type == TaskType::Sequence,
                n_children == tasks[index as int].sub_tasks.len(),
                k <= n_children,
                ct == self.calling_task,
                c0 == old(ctx)@.core,
                target == spec_decompose(tasks, index as int, c0, ct),
                ctx.well_formed(),
                ctx@.exec_state == old(ctx)@.exec_state,
                ctx@.dirty == old(ctx)@.dirty,
                ctx@.record == old(ctx)@.record,
                ctx@.last_record == old(ctx)@.last_record,
                ctx@.core.trans.len() == c0.trans.len() + 1,
                over_plan@ == old(over_plan)@,
                target == spec_seq_loop(tasks, index as int, k as int, ctx@.core, sub_plan@, ct),
            decreases n_children - k,
        {
            let task = behaviour.get_task(index);
            if !task.is_valid(ctx) {
                sub_plan.clear();
                ctx.rollback_transaction();
                proof {
                    assert(old(over_plan)@ + Seq::<usize>::empty() =~= old(over_plan)@);
                }
                return DecompositionStatus::Failed;
            }
            let child = task.sub_tasks[k];
            proof {
                assert(child == tasks[index as int].sub_tasks[k as int]);
                assert((index as int) < child && (child as int) < tasks.len());
            }
            let ghost cur = ctx@.core;
            let ghost acc = sub_plan@;
            let ghost dch = spec_decompose(tasks, child as int, cur, ct);
            let status = self.decompose(behaviour, ctx, child, &mut sub_plan);
            proof {
                lemma_decompose_keeps(tasks, child as int, cur, ct);
            }
            match status {
                DecompositionStatus::Succeeded => {
                    proof {
                        assert(spec_seq_loop(tasks, index as int, k as int, cur, acc, ct)
                            == spec_seq_loop(
                            tasks,
                            index as int,
                            k + 1,
                            dch.core,
                            acc + dch.frag,
                            ct,
                        ));
                    }
                    k = k + 1;
                },
                _ => {
                    proof {
                        assert(spec_seq_loop(tasks, index as int, k as int, cur, acc, ct)
                            == (Decomp {
                            core: ctx_rollback(dch.core),
                            frag: Seq::<usize>::empty(),
                            status: dch.status,
                        }));
                    }
                    ctx.rollback_transaction();
                    proof {
                        assert(old(over_plan)@ + Seq::<usize>::empty() =~= old(over_plan)@);
                    }
                    return status;
                },
            }
        }
        if sub_plan.len() == 0 {
            ctx.rollback_transaction();
            proof {
                assert(old(over_plan)@ + Seq::<usize>::empty() =~= old(over_plan)@);
            }
            return DecompositionStatus::Failed;
        }
        ctx.commit_transaction();
        over_plan.append(&mut sub_plan);
        DecompositionStatus::Succeeded
    }

    /// A selector walks its children in order and hands back the first
    /// acceptable outcome; a failed child just passes the turn on.
    fn decompose_selector(
        &self,
        behaviour: &Behaviour,
        ctx: &mut ContextState,
        index: usize,
        over_plan: &mut Plan,
    ) -> (r: DecompositionStatus)
        requires
            behaviour.well_formed(),
            index < behaviour@.tasks.len(),
            behaviour@.tasks[index as int].task_type == TaskType::Selector,
            old(ctx).well_formed(),
        ensures
            final(ctx).well_formed(),
            ({
                let d = spec_decompose(
                    behaviour@.tasks,
                    index as int,
                    old(ctx)@.core,
                    self.calling_task,
                );
                &&& final(ctx)@ == (CtxView { core: d.core, ..old(ctx)@ })
                &&& final(over_plan)@ == old(over_plan)@ + d.frag
                &&& r == d.status
            }),
        decreases behaviour@.tasks.len() - index, 0int,
    {
        let ghost tasks = behaviour@.tasks;
        let ghost c0 = old(ctx)@.core;
        let ghost ct = self.calling_task;
        let ghost target = spec_decompose(tasks, index as int, c0, ct);
        proof {
            assert(target == spec_sel_loop(tasks, index as int, 0, c0, ct));
        }
        let n_children = behaviour.get_task(index).sub_tasks.len();
        let mut k: usize = 0;
        while k < n_children
            invariant
                behaviour.well_formed(),
                behaviour@.tasks == tasks,
                tasks_wf(tasks),
                index < tasks.len(),
                tasks[index as int].task_type == TaskType::Selector,
                n_children == tasks[index as int].sub_tasks.len(),
                k <= n_children,
                ct == self.calling_task,
                c0 == old(ctx)@.core,
                target == spec_decompose(tasks, index as int, c0, ct),
                ctx.well_formed(),
                ctx@.exec_state == old(ctx)@.exec_state,
                ctx@.dirty == old(ctx)@.dirty,
                ctx@.record == old(ctx)@.record,
                ctx@.last_record == old(ctx)@.last_record,
                over_plan@ == old(over_plan)@,
                target == spec_sel_loop(tasks, index as int, k as int, ctx@.core, ct),
            decreases n_children - k,
        {
            let task = behaviour.get_task(index);
            if !task.is_valid(ctx) {
                proof {
                    assert(spec_sel_loop(tasks, index as int, k as int, ctx@.core, ct)
                        == (Decomp {
                        core: ctx@.core,
                        frag: Seq::<usize>::empty(),
                        status: DecompositionStatus::Failed,
                    }));
                    assert(old(over_plan)@ + Seq::<usize>::empty() =~= old(over_plan)@);
                }
                return DecompositionStatus::Failed;
            }
            let child = task.sub_tasks[k];
            proof {
                assert(child == tasks[index as int].sub_tasks[k as int]);
                assert((index as int) < child && (child as int) < tasks.len());
            }
            let mut sub_plan: Plan = VecDeque::new();
            let ghost cur = ctx@.core;
            let ghost dch = spec_decompose(tasks, child as int, cur, ct);
            let status = self.decompose(behaviour, ctx, child, &mut sub_plan);
            match status {
                DecompositionStatus::Failed => {
                    proof {
                        assert(spec_sel_loop(tasks, index as int, k as int, cur, ct)
                            == spec_sel_loop(tasks, index as int, k + 1, dch.core, ct));
                    }
                    k = k + 1;
                },
                _ => {
                    proof {
                        assert(spec_sel_loop(tasks, index as int, k as int, cur, ct) == dch);
                        assert(sub_plan@ =~= dch.frag);
                    }
                    over_plan.append(&mut sub_plan);
                    return status;
                },
            }
        }
        proof {
            assert(old(over_plan)@ + Seq::<usize>::empty() =~= old(over_plan)@);
        }
        DecompositionStatus::Failed
    }

    /// A primitive that passes its conditions applies its effects and
    /// contributes its own index; one that does not simply fails.
    fn decompose_primitive(
        &self,
        behaviour: &Behaviour,
        ctx: &mut ContextState,
        index: usize,
        over_plan: &mut Plan,
    ) -> (r: DecompositionStatus)
        requires
            behaviour.well_formed(),
            index < behaviour@.tasks.len(),
            behaviour@.tasks[index as int].task_type == TaskType::Primitive,
            old(ctx).well_formed(),
        ensures
            final(ctx).well_formed(),
            ({
                let d = spec_decompose(
                    behaviour@.tasks,
                    index as int,
                    old(ctx)@.core,
                    self.calling_task,
                );
                &&& final(ctx)@ == (CtxView { core: d.core, ..old(ctx)@ })
                &&& final(over_plan)@ == old(over_plan)@ + d.frag
                &&& r == d.status
            }),
    {
        let task = behaviour.get_task(index);
        if !task.is_valid(ctx) {
            proof {
                assert(old(over_plan)@ + Seq::<usize>::empty() =~= old(over_plan)@);
            }
            return DecompositionStatus::Failed;
        }
        task.apply_effects(ctx);
        over_plan.push_back(task.index);
        proof {
            assert(old(over_plan)@.push(behaviour@.tasks[index as int].index) =~= old(over_plan)@
                + seq![behaviour@.tasks[index as int].index]);
        }
        DecompositionStatus::Succeeded
    }
}

impl Task {
    /// Turns this subtree into a plan fragment.
    pub fn decompose(
        &self,
        ctx: &mut ContextState,
        behaviour: &Behaviour,
        plan: &mut Plan,
    ) -> (r: DecompositionStatus)
        requires
            behaviour.well_formed(),
            (self@.index as int) < behaviour@.tasks.len(),
            behaviour@.tasks[self@.index as int] == self@,
            old(ctx).well_formed(),
        ensures
            final(ctx).well_formed(),
            ({
                let d = spec_decompose(
                    behaviour@.tasks,
                    self@.index as int,
                    old(ctx)@.core,
                    self@.index,
                );
                &&& final(ctx)@ == (CtxView { core: d.core, ..old(ctx)@ })
                &&& final(plan)@ == old(plan)@ + d.frag
                &&& r == d.status
            }),
    {
        let decomposition = TaskDecomposition::new(self.index);
        decomposition.decompose(behaviour, ctx, self.index, plan)
    }
}

/// A behaviour with no effects anywhere: planning reads facts but writes
/// none.
pub open spec fn effect_free(tasks: Seq<TaskView>) -> bool {
    forall|i: int| 0 <= i < tasks.len() ==> (#[trigger] tasks[i]).effects.len() == 0
}

/// A behaviour with no pause markers: decomposition never suspends.
pub open spec fn pause_free(tasks: Seq<TaskView>) -> bool {
    forall|i: int| 0 <= i < tasks.len() ==> (#[trigger] tasks[i]).task_type != TaskType::Pause
}

/// Decomposing an effect-free, pause-free behaviour leaves the store
/// exactly as it was: conditions only read, transactions open and close in
/// balance, and nothing is queued.
pub proof fn lemma_decompose_pure(tasks: Seq<TaskView>, i: int, c: CtxCore, calling: usize)
    requires
        tasks_wf(tasks),
        0 <= i < tasks.len(),
        effect_free(tasks),
        pause_free(tasks),
    ensures
        spec_decompose(tasks, i, c, calling).core == c,
    decreases tasks.len() - i, 1int, 0int,
{
    let t = tasks[i];
    match t.task_type {
        TaskType::Sequence => {
            lemma_seq_loop_pure(tasks, i, 0, ctx_begin(c), Seq::empty(), calling, c);
        },
        TaskType::Selector => {
            lemma_sel_loop_pure(tasks, i, 0, c, calling);
        },
        TaskType::Pause => {
            assert(false);
        },
        TaskType::Primitive => {
            if conds_hold(t.conditions, c.vars) {
                assert(t.effects =~= Seq::<EffectView>::empty());
                assert(effects_applied(t.effects, c) == c);
            }
        },
    }
}

proof fn lemma_seq_loop_pure(
    tasks: Seq<TaskView>,
    i: int,
    k: int,
    c: CtxCore,
    acc: Seq<usize>,
    calling: usize,
    orig: CtxCore,
)
    requires
        tasks_wf(tasks),
        0 <= i < tasks.len(),
        tasks[i].task_type == TaskType::Sequence,
        0 <= k <= tasks[i].sub_tasks.len(),
        effect_free(tasks),
        pause_free(tasks),
        c == ctx_begin(orig),
    ensures
        spec_seq_loop(tasks, i, k, c, acc, calling).core == orig,
    decreases tasks.len() - i, 0int, tasks[i].sub_tasks.len() - k,
{
    let t = tasks[i];
    assert(ctx_rollback(c) == orig) by {
        assert(c.trans.last().to_set() =~= Set::<Seq<char>>::empty());
        assert(c.vars.remove_keys(c.trans.last().to_set()) =~= orig.vars);
        assert(c.trans.drop_last() =~= orig.trans);
    }
    assert(ctx_commit(c) == orig) by {
        assert(c.trans.drop_last() =~= orig.trans);
    }
    if k == t.sub_tasks.len() || !conds_hold(t.conditions, c.vars) {
    } else {
        let d = spec_decompose(tasks, t.sub_tasks[k] as int, c, calling);
        lemma_decompose_pure(tasks, t.sub_tasks[k] as int, c, calling);
        if d.status == DecompositionStatus::Succeeded {
            lemma_seq_loop_pure(tasks, i, k + 1, d.core, acc + d.frag, calling, orig);
        }
    }
}

proof fn lemma_sel_loop_pure(tasks: Seq<TaskView>, i: int, k: int, c: CtxCore, calling: usize)
    requires
        tasks_wf(tasks),
        0 <= i < tasks.len(),
        tasks[i].task_type == TaskType::Selector,
        0 <= k <= tasks[i].sub_tasks.len(),
        effect_free(tasks),
        pause_free(tasks),
    ensures
        spec_sel_loop(tasks, i, k, c, calling).core == c,
    decreases tasks.len() - i, 0int, tasks[i].sub_tasks.len() - k,
{
    let t = tasks[i];
    if k == t.sub_tasks.len() || !conds_hold(t.conditions, c.vars) {
    } else {
        let d = spec_decompose(tasks, t.sub_tasks[k] as int, c, calling);
        lemma_decompose_pure(tasks, t.sub_tasks[k] as int, c, calling);
        if d.status == DecompositionStatus::Failed {
            lemma_sel_loop_pure(tasks, i, k + 1, d.core, calling);
        }
    }
}

/// What a decomposition's status says of its plan fragment: it succeeded
/// exactly when it contributed something, and it never reports `Rejected`
/// (that status only ever stands for "no decomposition was attempted").
pub proof fn lemma_decompose_status(tasks: Seq<TaskView>, i: int, c: CtxCore, calling: usize)
    requires
        tasks_wf(tasks),
        0 <= i < tasks.len(),
    ensures
        ({
            let d = spec_decompose(tasks, i, c, calling);
            &&& (d.status == DecompositionStatus::Succeeded <==> d.frag.len() > 0)
            &&& d.status != DecompositionStatus::Rejected
        }),
    decreases tasks.len() - i, 1int, 0int,
{
    let t = tasks[i];
    match t.task_type {
        TaskType::Sequence => {
            lemma_seq_loop_status(tasks, i, 0, ctx_begin(c), Seq::empty(), calling);
        },
        TaskType::Selector => {
            lemma_sel_loop_status(tasks, i, 0, c, calling);
        },
        TaskType::Pause => {
        },
        TaskType::Primitive => {
        },
    }
}

proof fn lemma_seq_loop_status(
    tasks: Seq<TaskView>,
    i: int,
    k: int,
    c: CtxCore,
    acc: Seq<usize>,
    calling: usize,
)
    requires
        tasks_wf(tasks),
        0 <= i < tasks.len(),
        tasks[i].task_type == TaskType::Sequence,
        0 <= k <= tasks[i].sub_tasks.len(),
    ensures
        ({
            let d = spec_seq_loop(tasks, i, k, c, acc, calling);
            &&& (d.status == DecompositionStatus::Succeeded <==> d.frag.len() > 0)
            &&& d.status != DecompositionStatus::Rejected
        }),
    decreases tasks.len() - i, 0int, tasks[i].sub_tasks.len() - k,
{
    let t = tasks[i];
    if k == t.sub_tasks.len() || !conds_hold(t.conditions, c.vars) {
    } else {
        let d = spec_decompose(tasks, t.sub_tasks[k] as int, c, calling);
        lemma_decompose_status(tasks, t.sub_tasks[k] as int, c, calling);
        if d.status == DecompositionStatus::Succeeded {
            lemma_seq_loop_status(tasks, i, k + 1, d.core, acc + d.frag, calling);
        }
    }
}

proof fn lemma_sel_loop_status(tasks: Seq<TaskView>, i: int, k: int, c: CtxCore, calling: usize)
    requires
        tasks_wf(tasks),
        0 <= i < tasks.len(),
        tasks[i].task_type == TaskType::Selector,
        0 <= k <= tasks[i].sub_tasks.len(),
    ensures
        ({
            let d = spec_sel_loop(tasks, i, k, c, calling);
            &&& (d.status == DecompositionStatus::Succeeded <==> d.frag.len() > 0)
            &&& d.status != DecompositionStatus::Rejected
        }),
    decreases tasks.len() - i, 0int, tasks[i].sub_tasks.len() - k,
{
    let t = tasks[i];
    if k == t.sub_tasks.len() || !conds_hold(t.conditions, c.vars) {
    } else {
        let d = spec_decompose(tasks, t.sub_tasks[k] as int, c, calling);
        lemma_decompose_status(tasks, t.sub_tasks[k] as int, c, calling);
        if d.status == DecompositionStatus::Failed {
            lemma_sel_loop_status(tasks, i, k + 1, d.core, calling);
        }
    }
}

// ---------------------------------------------------------------------------
// The selector priority law
// ---------------------------------------------------------------------------

/// The store as a selector's walk leaves it after attempting its first `k`
/// children in order (a child may change the store even when it fails).
pub open spec fn sel_core_after(
    tasks: Seq<TaskView>,
    i: int,
    k: int,
    c: CtxCore,
    calling: usize,
) -> CtxCore
    decreases k
        when tasks_wf(tasks) && 0 <= i < tasks.len() && 0 <= k <= tasks[i].sub_tasks.len()
{
    if k <= 0 {
        c
    } else {
        spec_decompose(
            tasks,
            tasks[i].sub_tasks[k - 1] as int,
            sel_core_after(tasks, i, k - 1, c, calling),
            calling,
        ).core
    }
}

/// Helper for the selector laws: walks the loop from child position `m`
/// through failing children up to position `k`.
proof fn lemma_sel_loop_walk(
    tasks: Seq<TaskView>,
    i: int,
    m: int,
    k: int,
    c: CtxCore,
    calling: usize,
)
    requires
        tasks_wf(tasks),
        0 <= i < tasks.len(),
        tasks[i].task_type == TaskType::Selector,
        0 <= m <= k < tasks[i].sub_tasks.len(),
        forall|j: int|
            m <= j <= k ==> conds_hold(
                tasks[i].conditions,
                (#[trigger] sel_core_after(tasks, i, j, c, calling)).vars,
            ),
        forall|j: int|
            m <= j < k ==> spec_decompose(
                tasks,
                tasks[i].sub_tasks[j] as int,
                #[trigger] sel_core_after(tasks, i, j, c, calling),
                calling,
            ).status == DecompositionStatus::Failed,
        spec_decompose(
            tasks,
            tasks[i].sub_tasks[k] as int,
            sel_core_after(tasks, i, k, c, calling),
            calling,
        ).status != DecompositionStatus::Failed,
    ensures
        spec_sel_loop(tasks, i, m, sel_core_after(tasks, i, m, c, calling), calling)
            == spec_decompose(
            tasks,
            tasks[i].sub_tasks[k] as int,
            sel_core_after(tasks, i, k, c, calling),
            calling,
        ),
    decreases k - m,
{
    let cm = sel_core_after(tasks, i, m, c, calling);
    let d = spec_decompose(tasks, tasks[i].sub_tasks[m] as int, cm, calling);
    assert(conds_hold(tasks[i].conditions, cm.vars));
    if m == k {
    } else {
        assert(d.status == DecompositionStatus::Failed);
        assert(sel_core_after(tasks, i, m + 1, c, calling) == d.core);
        lemma_sel_loop_walk(tasks, i, m + 1, k, c, calling);
    }
}

/// Selector priority law: when a selector's own conditions keep holding,
/// its first `k` children fail, and child `k` comes back with anything but
/// failure, then the selector's outcome is exactly child `k`'s outcome —
/// its status, its plan fragment and the store it left. Later siblings
/// contribute nothing; child order encodes priority.
pub proof fn lemma_selector_priority(tasks: Seq<TaskView>, i: int, k: int, c: CtxCore, calling: usize)
    requires
        tasks_wf(tasks),
        0 <= i < tasks.len(),
        tasks[i].task_type == TaskType::Selector,
        0 <= k < tasks[i].sub_tasks.len(),
        forall|j: int|
            0 <= j <= k ==> conds_hold(
                tasks[i].conditions,
                (#[trigger] sel_core_after(tasks, i, j, c, calling)).vars,
            ),
        forall|j: int|
            0 <= j < k ==> spec_decompose(
                tasks,
                tasks[i].sub_tasks[j] as int,
                #[trigger] sel_core_after(tasks, i, j, c, calling),
                calling,
            ).status == DecompositionStatus::Failed,
        spec_decompose(
            tasks,
            tasks[i].sub_tasks[k] as int,
            sel_core_after(tasks, i, k, c, calling),
            calling,
        ).status != DecompositionStatus::Failed,
    ensures
        spec_decompose(tasks, i, c, calling) == spec_decompose(
            tasks,
            tasks[i].sub_tasks[k] as int,
            sel_core_after(tasks, i, k, c, calling),
            calling,
        ),
{
    assert(sel_core_after(tasks, i, 0, c, calling) == c);
    lemma_sel_loop_walk(tasks, i, 0, k, c, calling);
}

/// Helper for [`lemma_selector_exhausted`]: a walk over failing children
/// only, from position `m` to the end.
proof fn lemma_sel_loop_exhausted(tasks: Seq<TaskView>, i: int, m: int, c: CtxCore, calling: usize)
    requires
        tasks_wf(tasks),
        0 <= i < tasks.len(),
        tasks[i].task_type == TaskType::Selector,
        0 <= m <= tasks[i].sub_tasks.len(),
        forall|j: int|
            m <= j < tasks[i].sub_tasks.len() ==> conds_hold(
                tasks[i].conditions,
                (#[trigger] sel_core_after(tasks, i, j, c, calling)).vars,
            ),
        forall|j: int|
            m <= j < tasks[i].sub_tasks.len() ==> spec_decompose(
                tasks,
                tasks[i].sub_tasks[j] as int,
                #[trigger] sel_core_after(tasks, i, j, c, calling),
                calling,
            ).status == DecompositionStatus::Failed,
    ensures
        spec_sel_loop(tasks, i, m, sel_core_after(tasks, i, m, c, calling), calling) == (Decomp {
            core: sel_core_after(tasks, i, tasks[i].sub_tasks.len() as int, c, calling),
            frag: Seq::empty(),
            status: DecompositionStatus::Failed,
        }),
    decreases tasks[i].sub_tasks.len() - m,
{
    let cm = sel_core_after(tasks, i, m, c, calling);
    if m == tasks[i].sub_tasks.len() {
    } else {
        let d = spec_decompose(tasks, tasks[i].sub_tasks[m] as int, cm, calling);
        assert(conds_hold(tasks[i].conditions, cm.vars));
        assert(d.status == DecompositionStatus::Failed);
        assert(sel_core_after(tasks, i, m + 1, c, calling) == d.core);
        lemma_sel_loop_exhausted(tasks, i, m + 1, c, calling);
    }
}

/// Selector exhaustion law: when a selector's own conditions keep holding
/// and every child fails — or it has no children — the selector fails and
/// contributes nothing to the plan; only the failing children's speculative
/// writes remain in the store.
pub proof fn lemma_selector_exhausted(tasks: Seq<TaskView>, i: int, c: CtxCore, calling: usize)
    requires
        tasks_wf(tasks),
        0 <= i < tasks.len(),
        tasks[i].task_type == TaskType::Selector,
        forall|j: int|
            0 <= j < tasks[i].sub_tasks.len() ==> conds_hold(
                tasks[i].conditions,
                (#[trigger] sel_core_after(tasks, i, j, c, calling)).vars,
            ),
        forall|j: int|
            0 <= j < tasks[i].sub_tasks.len() ==> spec_decompose(
                tasks,
                tasks[i].sub_tasks[j] as int,
                #[trigger] sel_core_after(tasks, i, j, c, calling),
                calling,
            ).status == DecompositionStatus::Failed,
    ensures
        spec_decompose(tasks, i, c, calling) == (Decomp {
            core: sel_core_after(tasks, i, tasks[i].sub_tasks.len() as int, c, calling),
            frag: Seq::empty(),
            status: DecompositionStatus::Failed,
        }),
{
    assert(sel_core_after(tasks, i, 0, c, calling) == c);
    lemma_sel_loop_exhausted(tasks, i, 0, c, calling);
}

// ---------------------------------------------------------------------------
// The no-pollution law
// ---------------------------------------------------------------------------

/// No strict descendant of the task at `i` is a sequence (nested sequences
/// commit their own transactions, which the enclosing one cannot undo).
pub open spec fn seq_free(tasks: Seq<TaskView>, i: int) -> bool
    decreases tasks.len() - i
        when tasks_wf(tasks) && 0 <= i < tasks.len()
{
    forall|j: int|
        0 <= j < tasks[i].sub_tasks.len() ==> tasks[#[trigger] tasks[i].sub_tasks[j] as int].task_type
            != TaskType::Sequence && seq_free(tasks, tasks[i].sub_tasks[j] as int)
}

/// How a store may change while one transaction stays innermost: outer logs
/// untouched, the innermost log only extended, every appended key fresh, and
/// the fact map grown by exactly the appended keys.
spec fn grows_via_log(c: CtxCore, d: CtxCore) -> bool {
    &&& c.trans.len() > 0
    &&& d.trans.len() == c.trans.len()
    &&& (forall|t: int| 0 <= t < c.trans.len() - 1 ==> d.trans[t] == c.trans[t])
    &&& d.trans.last().len() >= c.trans.last().len()
    &&& d.trans.last().take(c.trans.last().len() as int) == c.trans.last()
    &&& (forall|w: int|
        c.trans.last().len() <= w < d.trans.last().len() ==> !c.vars.contains_key(
            #[trigger] d.trans.last()[w],
        ))
    &&& (forall|k: Seq<char>| c.vars.contains_key(k) ==> #[trigger] d.vars.contains_key(k))
    &&& (forall|k: Seq<char>|
        #[trigger] d.vars.contains_key(k) ==> c.vars.contains_key(k) || exists|w: int|
            c.trans.last().len() <= w < d.trans.last().len() && d.trans.last()[w] == k)
}

/// Growing by nothing counts.
proof fn lemma_grow_refl(c: CtxCore, d: CtxCore)
    requires
        c.trans.len() > 0,
        d.vars == c.vars,
        d.trans == c.trans,
    ensures
        grows_via_log(c, d),
{
    assert(d.trans.last().take(c.trans.last().len() as int) =~= c.trans.last());
}

/// Growth composes.
proof fn lemma_grow_trans(a: CtxCore, b: CtxCore, c: CtxCore)
    requires
        grows_via_log(a, b),
        grows_via_log(b, c),
    ensures
        grows_via_log(a, c),
{
    let la = a.trans.last();
    let lb = b.trans.last();
    let lc = c.trans.last();
    assert(lc.take(la.len() as int) =~= la) by {
        assert(forall|w: int| 0 <= w < lb.len() ==> lc[w] == lb[w]) by {
            assert(forall|w: int| 0 <= w < lb.len() ==> lc.take(lb.len() as int)[w] == lb[w]);
        }
        assert(forall|w: int| 0 <= w < la.len() ==> lb.take(la.len() as int)[w] == lb[w]);
    }
    assert(forall|w: int| 0 <= w < lb.len() ==> lc[w] == lb[w]) by {
        assert(forall|w: int| 0 <= w < lb.len() ==> lc.take(lb.len() as int)[w] == lb[w]);
    }
    assert forall|w: int| la.len() <= w < lc.len() implies !a.vars.contains_key(
        #[trigger] lc[w],
    ) by {
        if w < lb.len() {
            assert(lc[w] == lb[w]);
        } else {
            assert(!b.vars.contains_key(lc[w]));
        }
    }
    assert forall|k: Seq<char>| #[trigger] c.vars.contains_key(k) implies a.vars.contains_key(k)
        || exists|w: int| la.len() <= w < lc.len() && lc[w] == k by {
        if b.vars.contains_key(k) {
            if !a.vars.contains_key(k) {
                let w = choose|w: int| la.len() <= w < lb.len() && #[trigger] lb[w] == k;
                assert(lc[w] == k);
            }
        } else {
            let w = choose|w: int| lb.len() <= w < lc.len() && #[trigger] lc[w] == k;
        }
    }
}

/// One upsert grows the store along the innermost log.
proof fn lemma_set_grow(c: CtxCore, k: Seq<char>, v: VariantView)
    requires
        c.trans.len() > 0,
    ensures
        grows_via_log(c, ctx_set(c, k, v)),
{
    let d = ctx_set(c, k, v);
    if c.vars.contains_key(k) {
        assert(d.trans.last().take(c.trans.last().len() as int) =~= c.trans.last());
        assert(forall|x: Seq<char>|
            d.vars.contains_key(x) <==> c.vars.contains_key(x));
    } else {
        assert(d.trans =~~= c.trans.update(
            c.trans.len() - 1,
            c.trans.last().push(k),
        ));
        assert(d.trans.last().take(c.trans.last().len() as int) =~= c.trans.last());
        assert forall|x: Seq<char>| #[trigger] d.vars.contains_key(x) implies c.vars.contains_key(
            x,
        ) || exists|w: int|
            c.trans.last().len() <= w < d.trans.last().len() && d.trans.last()[w] == x by {
            if x == k {
                assert(d.trans.last()[c.trans.last().len() as int] == k);
            }
        }
    }
}

/// Applying effects grows the store along the innermost log.
proof fn lemma_effects_grow(es: Seq<EffectView>, c: CtxCore)
    requires
        c.trans.len() > 0,
    ensures
        grows_via_log(c, effects_applied(es, c)),
    decreases es.len(),
{
    if es.len() == 0 {
        lemma_grow_refl(c, c);
    } else {
        lemma_effects_grow(es.drop_last(), c);
        let mid = effects_applied(es.drop_last(), c);
        match es.last() {
            EffectView::Assign(k, v) => {
                lemma_set_grow(mid, k, v);
            },
        }
        lemma_grow_trans(c, mid, effects_applied(es, c));
    }
}

/// Decomposing a sequence-free subtree grows the store along the innermost
/// log: every change is recorded there, so the enclosing sequence can undo
/// it.
proof fn lemma_no_seq_grow(tasks: Seq<TaskView>, i: int, c: CtxCore, calling: usize)
    requires
        tasks_wf(tasks),
        0 <= i < tasks.len(),
        tasks[i].task_type != TaskType::Sequence,
        seq_free(tasks, i),
        c.trans.len() > 0,
    ensures
        grows_via_log(c, spec_decompose(tasks, i, c, calling).core),
    decreases tasks.len() - i, 1int, 0int,
{
    let t = tasks[i];
    let d = spec_decompose(tasks, i, c, calling);
    match t.task_type {
        TaskType::Sequence => {
            assert(false);
        },
        TaskType::Selector => {
            lemma_sel_loop_grow(tasks, i, 0, c, calling);
        },
        TaskType::Pause => {
            lemma_grow_refl(c, d.core);
        },
        TaskType::Primitive => {
            if conds_hold(t.conditions, c.vars) {
                lemma_effects_grow(t.effects, c);
            } else {
                lemma_grow_refl(c, c);
            }
        },
    }
}

proof fn lemma_sel_loop_grow(tasks: Seq<TaskView>, i: int, k: int, c: CtxCore, calling: usize)
    requires
        tasks_wf(tasks),
        0 <= i < tasks.len(),
        tasks[i].task_type == TaskType::Selector,
        0 <= k <= tasks[i].sub_tasks.len(),
        seq_free(tasks, i),
        c.trans.len() > 0,
    ensures
        grows_via_log(c, spec_sel_loop(tasks, i, k, c, calling).core),
    decreases tasks.len() - i, 0int, tasks[i].sub_tasks.len() - k,
{
    let t = tasks[i];
    if k == t.sub_tasks.len() || !conds_hold(t.conditions, c.vars) {
        lemma_grow_refl(c, c);
    } else {
        let ch = t.sub_tasks[k] as int;
        let d = spec_decompose(tasks, ch, c, calling);
        assert(tasks[ch].task_type != TaskType::Sequence && seq_free(tasks, ch));
        lemma_no_seq_grow(tasks, ch, c, calling);
        if d.status == DecompositionStatus::Failed {
            lemma_sel_loop_grow(tasks, i, k + 1, d.core, calling);
            lemma_grow_trans(c, d.core, spec_sel_loop(tasks, i, k + 1, d.core, calling).core);
        }
    }
}

/// After a rollback of a store grown along the innermost log, a key is
/// present exactly when it was present before the growth and not logged.
proof fn lemma_grow_rollback(c: CtxCore, d: CtxCore)
    requires
        grows_via_log(c, d),
    ensures
        ctx_rollback(d).trans == c.trans.drop_last(),
        forall|k: Seq<char>|
            #[trigger] ctx_rollback(d).vars.contains_key(k) <==> (c.vars.contains_key(k)
                && !c.trans.last().to_set().contains(k)),
{
    let l0 = c.trans.last();
    let l1 = d.trans.last();
    assert(ctx_rollback(d).trans =~~= c.trans.drop_last()) by {
        assert(forall|t: int| 0 <= t < c.trans.len() - 1 ==> d.trans[t] == c.trans[t]);
    }
    assert(forall|w: int| 0 <= w < l0.len() ==> l1[w] == l0[w]) by {
        assert(forall|w: int| 0 <= w < l0.len() ==> l1.take(l0.len() as int)[w] == l0[w]);
    }
    assert forall|k: Seq<char>|
        #[trigger] ctx_rollback(d).vars.contains_key(k) <==> (c.vars.contains_key(k)
            && !l0.to_set().contains(k)) by {
        if ctx_rollback(d).vars.contains_key(k) {
            assert(d.vars.contains_key(k) && !l1.to_set().contains(k));
            assert(c.vars.contains_key(k)) by {
                if !c.vars.contains_key(k) {
                    let w = choose|w: int| l0.len() <= w < l1.len() && #[trigger] l1[w] == k;
                    assert(l1.to_set().contains(k));
                }
            }
            assert(!l0.to_set().contains(k)) by {
                if l0.contains(k) {
                    let w = choose|w: int| 0 <= w < l0.len() && #[trigger] l0[w] == k;
                    assert(l1[w] == k);
                    assert(l1.to_set().contains(k));
                }
            }
        }
        if c.vars.contains_key(k) && !l0.to_set().contains(k) {
            assert(d.vars.contains_key(k));
            assert(!l1.to_set().contains(k)) by {
                if l1.contains(k) {
                    let w = choose|w: int| 0 <= w < l1.len() && #[trigger] l1[w] == k;
                    if w < l0.len() {
                        assert(l0[w] == k);
                        assert(l0.to_set().contains(k));
                    } else {
                        assert(!c.vars.contains_key(k));
                    }
                }
            }
            assert(ctx_rollback(d).vars.contains_key(k));
        }
    }
}

proof fn lemma_seq_loop_no_pollution(
    tasks: Seq<TaskView>,
    i: int,
    k: int,
    c: CtxCore,
    acc: Seq<usize>,
    calling: usize,
)
    requires
        tasks_wf(tasks),
        0 <= i < tasks.len(),
        tasks[i].task_type == TaskType::Sequence,
        0 <= k <= tasks[i].sub_tasks.len(),
        seq_free(tasks, i),
        c.trans.len() > 0,
    ensures
        ({
            let d = spec_seq_loop(tasks, i, k, c, acc, calling);
            d.status != DecompositionStatus::Succeeded ==> {
                &&& d.core.trans == c.trans.drop_last()
                &&& (forall|x: Seq<char>|
                    #[trigger] d.core.vars.contains_key(x) <==> (c.vars.contains_key(x)
                        && !c.trans.last().to_set().contains(x)))
            }
        }),
    decreases tasks.len() - i, 0int, tasks[i].sub_tasks.len() - k,
{
    let t = tasks[i];
    let d = spec_seq_loop(tasks, i, k, c, acc, calling);
    if k == t.sub_tasks.len() || !conds_hold(t.conditions, c.vars) {
        lemma_grow_refl(c, c);
        lemma_grow_rollback(c, c);
    } else {
        let ch = t.sub_tasks[k] as int;
        let dc = spec_decompose(tasks, ch, c, calling);
        assert(tasks[ch].task_type != TaskType::Sequence && seq_free(tasks, ch));
        lemma_no_seq_grow(tasks, ch, c, calling);
        if dc.status == DecompositionStatus::Succeeded {
            lemma_seq_loop_no_pollution(tasks, i, k + 1, dc.core, acc + dc.frag, calling);
            if d.status != DecompositionStatus::Succeeded {
                let l0 = c.trans.last();
                let l1 = dc.core.trans.last();
                assert(d.core.trans == c.trans.drop_last()) by {
                    assert(dc.core.trans.drop_last() =~~= c.trans.drop_last());
                }
                assert forall|x: Seq<char>| #[trigger] d.core.vars.contains_key(x) <==> (
                c.vars.contains_key(x) && !l0.to_set().contains(x)) by {
                    assert(d.core.vars.contains_key(x) <==> (dc.core.vars.contains_key(x)
                        && !l1.to_set().contains(x)));
                    assert(forall|w: int| 0 <= w < l0.len() ==> l1[w] == l0[w]) by {
                        assert(forall|w: int|
                            0 <= w < l0.len() ==> l1.take(l0.len() as int)[w] == l0[w]);
                    }
                    if dc.core.vars.contains_key(x) && !l1.to_set().contains(x) {
                        assert(c.vars.contains_key(x)) by {
                            if !c.vars.contains_key(x) {
                                let w = choose|w: int|
                                    l0.len() <= w < l1.len() && #[trigger] l1[w] == x;
                                assert(l1.to_set().contains(x));
                            }
                        }
                        assert(!l0.to_set().contains(x)) by {
                            if l0.contains(x) {
                                let w = choose|w: int|
                                    0 <= w < l0.len() && #[trigger] l0[w] == x;
                                assert(l1[w] == x);
                                assert(l1.to_set().contains(x));
                            }
                        }
                    }
                    if c.vars.contains_key(x) && !l0.to_set().contains(x) {
                        assert(dc.core.vars.contains_key(x));
                        assert(!l1.to_set().contains(x)) by {
                            if l1.contains(x) {
                                let w = choose|w: int|
                                    0 <= w < l1.len() && #[trigger] l1[w] == x;
                                if w < l0.len() {
                                    assert(l0[w] == x);
                                    assert(l0.to_set().contains(x));
                                } else {
                                    assert(!c.vars.contains_key(x));
                                }
                            }
                        }
                    }
                }
            }
        } else {
            lemma_grow_rollback(c, dc.core);
        }
    }
}

/// No-pollution law: a sequence whose subtree nests no further sequence
/// leaves no trace of its speculative effects when it does not succeed —
/// afterwards a fact exists exactly when it existed before the attempt, and
/// the transaction stack is as it was. (A nested sequence that committed
/// before a later sibling failed is the one shape this cannot promise, since
/// committing drops the inner undo log.)
pub proof fn lemma_sequence_no_pollution(tasks: Seq<TaskView>, i: int, c: CtxCore, calling: usize)
    requires
        tasks_wf(tasks),
        0 <= i < tasks.len(),
        tasks[i].task_type == TaskType::Sequence,
        seq_free(tasks, i),
    ensures
        ({
            let d = spec_decompose(tasks, i, c, calling);
            d.status != DecompositionStatus::Succeeded ==> {
                &&& d.core.trans == c.trans
                &&& (forall|x: Seq<char>|
                    #[trigger] d.core.vars.contains_key(x) <==> c.vars.contains_key(x))
            }
        }),
{
    let cb = ctx_begin(c);
    lemma_seq_loop_no_pollution(tasks, i, 0, cb, Seq::empty(), calling);
    let d = spec_decompose(tasks, i, c, calling);
    if d.status != DecompositionStatus::Succeeded {
        assert(d.core.trans =~~= c.trans) by {
            assert(d.core.trans == cb.trans.drop_last());
            assert(cb.trans.drop_last() =~~= c.trans);
        }
        assert(cb.trans.last().to_set() =~= Set::<Seq<char>>::empty());
    }
}

} // verus!
