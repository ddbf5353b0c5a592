//! The per-agent execution cursor: holds the current plan, the current task
//! and the last reported status, and drives planning and execution one tick
//! at a time.

use std::collections::VecDeque;
use vstd::prelude::*;

use crate::behaviour::{
    lemma_find_plan_balanced, lemma_find_plan_ranges, partial_in_range, spec_find_plan, Behaviour,
};
use crate::context::{BeingContext, ContextState, CtxCore, CtxView};
use crate::htn::{operator_applied, operator_status, Plan};
use crate::task::{
    conds_hold, tasks_wf, DecompositionStatus, Task, TaskStatus, TaskType, TaskView,
};

verus! {

/// Spec-level value of a [`Planner`].
pub struct PlannerView {
    pub plan: Seq<usize>,
    pub current_task: Option<usize>,
    pub last_status: TaskStatus,
}

/// The per-agent execution cursor.
#[derive(Debug)]
pub struct Planner {
    plan: Plan,
    current_task: Option<usize>,
    last_status: TaskStatus,
}

impl View for Planner {
    type V = PlannerView;

    closed spec fn view(&self) -> PlannerView {
        PlannerView {
            plan: self.plan@,
            current_task: self.current_task,
            last_status: self.last_status,
        }
    }
}

impl Default for Planner {
    fn default() -> (r: Self)
        ensures
            r@ == (PlannerView {
                plan: Seq::empty(),
                current_task: None,
                last_status: TaskStatus::Failure,
            }),
    {
        Planner { plan: VecDeque::new(), current_task: None, last_status: TaskStatus::Failure }
    }
}

/// A full abort: no plan, no current task, nothing recorded, not paused, an
/// empty resumption queue and a clean dirty flag.
pub open spec fn spec_clear_all(p: PlannerView, c: CtxView) -> (PlannerView, CtxView) {
    (
        PlannerView { plan: Seq::empty(), current_task: None, ..p },
        CtxView {
            core: (CtxCore { paused: false, partial: Seq::empty(), ..c.core }),
            last_record: Seq::empty(),
            dirty: false,
            ..c
        },
    )
}

/// Every index the planner still holds — plan entries and the current task
/// — points into the arena.
pub open spec fn planner_in_range(tasks: Seq<TaskView>, p: PlannerView) -> bool {
    &&& (forall|w: int| 0 <= w < p.plan.len() ==> (#[trigger] p.plan[w]) < tasks.len())
    &&& match p.current_task {
        Some(ti) => ti < tasks.len(),
        None => true,
    }
}

/// The planner's replanning step: clears the dirty flag, snapshots and
/// suspends a paused decomposition when the host forced a replan, asks the
/// behaviour for a plan, and either installs the new plan — stopping and
/// clearing a running current task it pre-empts — or restores the suspended
/// state. Stopping goes through the task's operator, which leaves the store
/// alone.
pub open spec fn spec_planner_find_plan(tasks: Seq<TaskView>, p: PlannerView, c: CtxView) -> (
    PlannerView,
    CtxView,
    DecompositionStatus,
) {
    let dirty = c.dirty;
    let c0 = CtxView { dirty: false, ..c };
    let forced = dirty && c0.core.paused;
    let snapshot = c0.core.partial;
    let c1 = if forced {
        CtxView {
            core: (CtxCore { paused: false, ..c0.core }),
            record: Seq::empty(),
            last_record: c0.record,
            ..c0
        }
    } else {
        c0
    };
    let o = spec_find_plan(tasks, c1);
    if o.status == DecompositionStatus::Succeeded || o.status == DecompositionStatus::Partial {
        let p1 = PlannerView { plan: o.plan, current_task: None, ..p };
        let c2 = CtxView { record: Seq::empty(), last_record: o.ctx.record, ..o.ctx };
        (p1, c2, o.status)
    } else {
        if forced && snapshot.len() > 0 {
            let c2 = CtxView {
                core: (CtxCore { paused: true, partial: snapshot, ..o.ctx.core }),
                ..o.ctx
            };
            let c3 = if c2.last_record.len() > 0 {
                CtxView { record: c2.last_record, last_record: Seq::empty(), ..c2 }
            } else {
                c2
            };
            (p, c3, o.status)
        } else {
            (p, o.ctx, o.status)
        }
    }
}

/// Taking the next task from the plan: pop the front index, make it current,
/// and re-check its planning conditions against the live facts; any failure
/// is a full abort rather than a skip.
pub open spec fn spec_get_task_from_plan(tasks: Seq<TaskView>, p: PlannerView, c: CtxView) -> (
    PlannerView,
    CtxView,
) {
    let e = p.plan[0];
    let p1 = PlannerView { plan: p.plan.drop_first(), current_task: Some(e), ..p };
    if conds_hold(tasks[e as int].conditions, c.core.vars) {
        (p1, c)
    } else {
        spec_clear_all(p1, c)
    }
}

/// Running the current primitive for one tick: re-check its execution
/// conditions, then let its operator act. Success retires the task (and,
/// when the plan is spent, the previous record and the dirty flag); failure
/// aborts; anything else keeps the task current. A primitive with no
/// operator retires the task and reports failure.
pub open spec fn spec_handle_task(t: TaskView, p: PlannerView, c: CtxView) -> (
    PlannerView,
    CtxView,
) {
    match t.operator {
        Some(op) => {
            if !conds_hold(t.exec_conditions, c.core.vars) {
                spec_clear_all(p, c)
            } else {
                let st = operator_status(op);
                let c1 = CtxView { core: operator_applied(op, c.core), ..c };
                let p1 = PlannerView { last_status: st, ..p };
                match st {
                    TaskStatus::Success => {
                        let p2 = PlannerView { current_task: None, ..p1 };
                        if p2.plan.len() == 0 {
                            (p2, CtxView { last_record: Seq::empty(), dirty: false, ..c1 })
                        } else {
                            (p2, c1)
                        }
                    },
                    TaskStatus::Failure => spec_clear_all(p1, c1),
                    TaskStatus::Continue => (p1, c1),
                }
            }
        },
        None => (PlannerView { current_task: None, last_status: TaskStatus::Failure, ..p }, c),
    }
}

/// Operator-less primitive law: executing a current primitive that has no
/// operator retires it and reports failure — no execution condition is
/// consulted, no operator runs, and the plan and the whole context are left
/// untouched.
pub proof fn lemma_operatorless_primitive(t: TaskView, p: PlannerView, c: CtxView)
    requires
        t.operator is None,
    ensures
        spec_handle_task(t, p, c) == ((
            PlannerView { current_task: None, last_status: TaskStatus::Failure, ..p },
            c,
        )),
{
}

/// One tick of the execution state machine: replan when out of work or when
/// the host marked the context dirty, take the next task if none is current,
/// run a current primitive, and report failure when nothing could be planned
/// and nothing is left to run.
pub open spec fn spec_tick(tasks: Seq<TaskView>, p: PlannerView, c: CtxView) -> (
    PlannerView,
    CtxView,
) {
    let need = (p.plan.len() == 0 && p.current_task is None) || c.dirty;
    let replacing = need && p.plan.len() > 0;
    let step1 = if need {
        spec_planner_find_plan(tasks, p, c)
    } else {
        (p, c, DecompositionStatus::Failed)
    };
    let p1 = step1.0;
    let c1 = step1.1;
    let status = step1.2;
    let step2 = if p1.plan.len() > 0 && p1.current_task is None {
        spec_get_task_from_plan(tasks, p1, c1)
    } else {
        (p1, c1)
    };
    let p2 = step2.0;
    let c2 = step2.1;
    let step3 = match p2.current_task {
        Some(ti) => if 0 <= ti < tasks.len() && tasks[ti as int].task_type == TaskType::Primitive {
            spec_handle_task(tasks[ti as int], p2, c2)
        } else {
            (p2, c2)
        },
        None => (p2, c2),
    };
    let p3 = step3.0;
    let c3 = step3.1;
    let p4 = if p3.plan.len() == 0 && p3.current_task is None && !replacing && (status
        == DecompositionStatus::Failed || status == DecompositionStatus::Rejected) {
        PlannerView { last_status: TaskStatus::Failure, ..p3 }
    } else {
        p3
    };
    (p4, c3)
}

/// Transaction balance law for a whole tick: replanning and execution leave
/// the transaction stack exactly as deep as they found it.
pub proof fn lemma_tick_balanced(tasks: Seq<TaskView>, p: PlannerView, c: CtxView)
    requires
        tasks_wf(tasks),
        tasks.len() > 0,
        partial_in_range(tasks, c.core.partial),
    ensures
        spec_tick(tasks, p, c).1.core.trans.len() == c.core.trans.len(),
{
    let need = (p.plan.len() == 0 && p.current_task is None) || c.dirty;
    if need {
        let dirty = c.dirty;
        let c0 = CtxView { dirty: false, ..c };
        let forced = dirty && c0.core.paused;
        let c1 = if forced {
            CtxView {
                core: (CtxCore { paused: false, ..c0.core }),
                record: Seq::empty(),
                last_record: c0.record,
                ..c0
            }
        } else {
            c0
        };
        lemma_find_plan_balanced(tasks, c1);
    }
}

impl Planner {
    /// Whether a plan with work left is installed.
    pub fn has_plan(&self) -> (r: bool)
        ensures
            r == (self@.plan.len() > 0),
    {
        self.plan.len() > 0
    }

    /// The task currently being executed, if any.
    pub fn current_task(&self) -> (r: Option<usize>)
        ensures
            r == self@.current_task,
    {
        self.current_task
    }

    /// The status the last executed operator reported.
    pub fn last_status(&self) -> (r: TaskStatus)
        ensures
            r == self@.last_status,
    {
        self.last_status
    }

    /// Drives one tick of planning and execution against the behaviour and
    /// the agent's context.
    pub fn tick(&mut self, behaviour: &Behaviour, ctx: &mut BeingContext)
        requires
            behaviour.well_formed(),
            old(ctx).well_formed(),
            partial_in_range(behaviour@.tasks, old(ctx)@.core.partial),
            planner_in_range(behaviour@.tasks, old(self)@),
        ensures
            final(ctx).well_formed(),
            partial_in_range(behaviour@.tasks, final(ctx)@.core.partial),
            planner_in_range(behaviour@.tasks, final(self)@),
            ({
                let out = spec_tick(behaviour@.tasks, old(self)@, old(ctx)@);
                &&& final(self)@ == out.0
                &&& final(ctx)@ == out.1
            }),
    {
        let st = ctx.state_mut();
        let mut status = DecompositionStatus::Failed;
        let mut replacing = false;

        if (!self.has_plan() && self.current_task.is_none()) || st.dirty() {
            replacing = self.plan.len() > 0;
            status = self.find_plan(st, behaviour);
        }

        if self.has_plan() && self.current_task.is_none() {
            self.get_task_from_plan(st, behaviour);
        }

        match self.current_task {
            Some(task) => {
                let task_ref = behaviour.get_task(task);
                if task_ref.get_type() == TaskType::Primitive {
                    self.handle_task(st, task_ref);
                }
            },
            None => {},
        }

        if !self.has_plan() && self.current_task.is_none() && !replacing && (status
            == DecompositionStatus::Failed || status == DecompositionStatus::Rejected) {
            self.last_status = TaskStatus::Failure;
        }
    }

    /// The replanning step of a tick; see [`spec_planner_find_plan`].
    fn find_plan(&mut self, ctx: &mut ContextState, behaviour: &Behaviour) -> (r:
        DecompositionStatus)
        requires
            behaviour.well_formed(),
            old(ctx).well_formed(),
            partial_in_range(behaviour@.tasks, old(ctx)@.core.partial),
            planner_in_range(behaviour@.tasks, old(self)@),
        ensures
            final(ctx).well_formed(),
            ({
                let out = spec_planner_find_plan(behaviour@.tasks, old(self)@, old(ctx)@);
                &&& final(self)@ == out.0
                &&& final(ctx)@ == out.1
                &&& r == out.2
            }),
            partial_in_range(behaviour@.tasks, final(ctx)@.core.partial),
            planner_in_range(behaviour@.tasks, final(self)@),
    {
        let ghost tasks = behaviour@.tasks;
        let dirty = ctx.dirty();
        ctx.set_dirty(false);
        let mut last_partial_plan: Plan = VecDeque::new();
        let mut forced = false;

        if dirty && ctx.paused() {
            forced = true;
            ctx.set_paused(false);
            last_partial_plan = ctx.partial_clone();
            ctx.dump_into_last_record();
        }

        proof {
            lemma_find_plan_ranges(tasks, ctx@);
        }
        let plan_status = behaviour.find_plan(ctx);
        let (mut new_plan, status) = plan_status;

        if status == DecompositionStatus::Succeeded || status == DecompositionStatus::Partial {
            self.plan.clear();
            self.plan.append(&mut new_plan);
            proof {
                assert(self.plan@ =~= Seq::<usize>::empty() + self.plan@);
            }
            match self.current_task {
                Some(task_index) => {
                    let task = behaviour.get_task(task_index);
                    task.stop(ctx);
                    self.current_task = None;
                },
                None => {},
            }
            ctx.dump_into_last_record();
        } else {
            if forced && last_partial_plan.len() > 0 {
                ctx.set_paused(true);
                ctx.set_partial(last_partial_plan);
                if !ctx.last_record_is_empty() {
                    ctx.dump_into_record();
                    ctx.clear_last_record();
                }
            }
        }
        status
    }

    /// The take-next-task step of a tick; see [`spec_get_task_from_plan`].
    fn get_task_from_plan(&mut self, ctx: &mut ContextState, behaviour: &Behaviour)
        requires
            behaviour.well_formed(),
            old(ctx).well_formed(),
            old(self)@.plan.len() > 0,
            planner_in_range(behaviour@.tasks, old(self)@),
        ensures
            final(ctx).well_formed(),
            ({
                let out = spec_get_task_from_plan(behaviour@.tasks, old(self)@, old(ctx)@);
                &&& final(self)@ == out.0
                &&& final(ctx)@ == out.1
            }),
            partial_in_range(behaviour@.tasks, old(ctx)@.core.partial) ==> partial_in_range(
                behaviour@.tasks,
                final(ctx)@.core.partial,
            ),
            planner_in_range(behaviour@.tasks, final(self)@),
    {
        let current = match self.plan.pop_front() {
            Some(c) => c,
            None => {
                proof {
                    assert(false);
                }
                0
            },
        };
        proof {
            assert(self.plan@ =~= old(self)@.plan.drop_first());
        }
        self.current_task = Some(current);
        let task_ref = behaviour.get_task(current);
        if !task_ref.is_valid(ctx) {
            self.clear_all(ctx);
        }
    }

    /// The execute-current-primitive step of a tick; see
    /// [`spec_handle_task`].
    fn handle_task(&mut self, ctx: &mut ContextState, task: &Task)
        requires
            old(ctx).well_formed(),
        ensures
            final(ctx).well_formed(),
            ({
                let out = spec_handle_task(task@, old(self)@, old(ctx)@);
                &&& final(self)@ == out.0
                &&& final(ctx)@ == out.1
            }),
    {
        match &task.operator {
            Some(op) => {
                if !task.exec_conditions_valid(ctx) {
                    self.clear_all(ctx);
                    return;
                }
                self.last_status = op.update(ctx);
                match self.last_status {
                    TaskStatus::Success => {
                        self.current_task = None;
                        if self.plan.len() == 0 {
                            ctx.clear_last_record();
                            ctx.set_dirty(false);
                        }
                    },
                    TaskStatus::Failure => {
                        self.clear_all(ctx);
                    },
                    TaskStatus::Continue => {},
                }
            },
            None => {
                self.current_task = None;
                self.last_status = TaskStatus::Failure;
            },
        }
    }

    /// A full abort back to the idle state; see [`spec_clear_all`].
    fn clear_all(&mut self, ctx: &mut ContextState)
        requires
            old(ctx).well_formed(),
        ensures
            final(ctx).well_formed(),
            ({
                let out = spec_clear_all(old(self)@, old(ctx)@);
                &&& final(self)@ == out.0
                &&& final(ctx)@ == out.1
            }),
    {
        self.current_task = None;
        self.plan.clear();
        ctx.clear_last_record();
        ctx.set_paused(false);
        ctx.set_partial(VecDeque::new());
        ctx.set_dirty(false);
    }
}

} // verus!
