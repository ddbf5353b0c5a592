//! The immutable, compiled task arena of one agent archetype, the builder
//! that assembles it, and the top-level planning entry point.

use std::collections::VecDeque;
use vstd::prelude::*;

use crate::context::{ContextState, CtxCore, CtxView, ExecutionState};
use crate::htn::{Condition, Effect, Operator, Plan};
use crate::task::{
    effect_free, lemma_decompose_keeps, lemma_decompose_pure, pause_free, spec_decompose,
    tasks_wf, DecompositionStatus, Task, TaskType, TaskView,
};

verus! {

/// Spec-level value of a [`Behaviour`].
pub struct BehaviourView {
    pub name: Seq<char>,
    pub tasks: Seq<TaskView>,
}

/// A behaviour is valid when it has at least one task — the root at index
/// zero — its arena links are well shaped, only compound tasks have
/// children, and only primitive tasks have an operator.
pub open spec fn behaviour_wf(b: BehaviourView) -> bool {
    &&& b.tasks.len() > 0
    &&& tasks_wf(b.tasks)
    &&& (forall|i: int|
        0 <= i < b.tasks.len() && (#[trigger] b.tasks[i]).task_type == TaskType::Primitive
            ==> b.tasks[i].sub_tasks.len() == 0)
    &&& (forall|i: int|
        0 <= i < b.tasks.len() && (#[trigger] b.tasks[i]).task_type != TaskType::Primitive
            ==> b.tasks[i].operator is None)
}

/// The compiled task tree for one agent archetype: a flat arena of tasks
/// whose root is index zero. Built once and immutable thereafter.
#[derive(Debug)]
pub struct Behaviour {
    pub(crate) tasks: Vec<Task>,
    /// The behaviour's display name.
    pub name: String,
}

impl View for Behaviour {
    type V = BehaviourView;

    closed spec fn view(&self) -> BehaviourView {
        BehaviourView { name: self.name@, tasks: self.tasks@.map_values(|t: Task| t@) }
    }
}

impl Behaviour {
    /// Validity of the arena; decomposition requires it.
    pub open spec fn well_formed(&self) -> bool {
        behaviour_wf(self@)
    }

    /// Assembles a behaviour from a task arena, rejecting an empty arena and
    /// any arena whose links are out of shape.
    pub fn new(name: &str, tasks: Vec<Task>) -> (r: Option<Behaviour>)
        ensures
            match r {
                Some(b) => b.well_formed() && b@ == (BehaviourView {
                    name: name@,
                    tasks: tasks@.map_values(|t: Task| t@),
                }),
                None => !behaviour_wf(
                    (BehaviourView { name: name@, tasks: tasks@.map_values(|t: Task| t@) }),
                ),
            },
    {
        let ghost mapped = tasks@.map_values(|t: Task| t@);
        proof {
            assert(forall|u: int| 0 <= u < tasks@.len() ==> mapped[u] == (#[trigger] tasks@[u])@);
        }
        if tasks.len() == 0 {
            return None;
        }
        let n = tasks.len();
        let mut i: usize = 0;
        while i < n
            invariant
                n == tasks@.len(),
                i <= n,
                mapped == tasks@.map_values(|t: Task| t@),
                forall|u: int| 0 <= u < tasks@.len() ==> mapped[u] == (#[trigger] tasks@[u])@,
                forall|u: int| 0 <= u < i ==> (#[trigger] tasks@[u])@.index == u,
                forall|u: int|
                    0 <= u < i && (#[trigger] tasks@[u])@.task_type == TaskType::Primitive
                        ==> tasks@[u]@.sub_tasks.len() == 0,
                forall|u: int|
                    0 <= u < i && (#[trigger] tasks@[u])@.task_type != TaskType::Primitive
                        ==> tasks@[u]@.operator is None,
                forall|u: int, j: int|
                    0 <= u < i && 0 <= j < tasks@[u]@.sub_tasks.len() ==> u
                        < #[trigger] tasks@[u]@.sub_tasks[j] < n,
            decreases n - i,
        {
            if tasks[i].index != i {
                return None;
            }
            if tasks[i].task_type == TaskType::Primitive && tasks[i].sub_tasks.len() > 0 {
                return None;
            }
            if tasks[i].task_type != TaskType::Primitive && tasks[i].operator.is_some() {
                return None;
            }
            proof {
                assert(tasks@[i as int]@.index == i);
            }
            let links = tasks[i].sub_tasks.len();
            let mut j: usize = 0;
            while j < links
                invariant
                    n == tasks@.len(),
                    i < n,
                    links == tasks@[i as int]@.sub_tasks.len(),
                    j <= links,
                    mapped == tasks@.map_values(|t: Task| t@),
                    forall|u: int|
                        0 <= u < tasks@.len() ==> mapped[u] == (#[trigger] tasks@[u])@,
                    forall|w: int| 0 <= w < j ==> i < #[trigger] tasks@[i as int]@.sub_tasks[w] < n,
                decreases links - j,
            {
                let child = tasks[i].sub_tasks[j];
                if child <= i || child >= n {
                    return None;
                }
                j = j + 1;
            }
            i = i + 1;
        }
        let r = Behaviour { tasks, name: name.to_owned() };
        proof {
            assert(tasks_wf(mapped)) by {
                assert(forall|u: int| 0 <= u < mapped.len() ==> (#[trigger] mapped[u]).index == u);
                assert forall|u: int, j: int|
                    0 <= u < mapped.len() && 0 <= j < mapped[u].sub_tasks.len() implies u
                    < #[trigger] mapped[u].sub_tasks[j] < mapped.len() by {
                    assert(mapped[u].sub_tasks[j] == r.tasks@[u]@.sub_tasks[j]);
                }
            }
            assert(forall|u: int|
                0 <= u < mapped.len() && (#[trigger] mapped[u]).task_type == TaskType::Primitive
                    ==> mapped[u].sub_tasks.len() == 0);
            assert(forall|u: int|
                0 <= u < mapped.len() && (#[trigger] mapped[u]).task_type != TaskType::Primitive
                    ==> mapped[u].operator is None);
            assert(behaviour_wf(r@));
        }
        Some(r)
    }

    /// How many tasks the arena holds.
    pub fn num_tasks(&self) -> (r: usize)
        ensures
            r == self@.tasks.len(),
    {
        self.tasks.len()
    }

    /// The task at an arena index.
    pub fn get_task(&self, index: usize) -> (r: &Task)
        requires
            index < self@.tasks.len(),
        ensures
            r@ == self@.tasks[index as int],
    {
        &self.tasks[index]
    }

    /// Mutable access to the task at an arena index.
    pub fn get_task_mut(&mut self, index: usize) -> (r: &mut Task)
        requires
            index < old(self)@.tasks.len(),
        ensures
            (*r)@ == old(self)@.tasks[index as int],
            final(self)@.name == old(self)@.name,
            final(self)@.tasks =~= old(self)@.tasks.update(index as int, (*final(r))@),
    {
        &mut self.tasks[index]
    }
}

// ---------------------------------------------------------------------------
// Top-level planning
// ---------------------------------------------------------------------------

/// What one planning pass yields: the context it leaves behind, the plan it
/// produced, and the decomposition status.
pub struct PlanOutcome {
    pub ctx: CtxView,
    pub plan: Seq<usize>,
    pub status: DecompositionStatus,
}

/// Every queued task index points into the arena.
pub open spec fn partial_in_range(tasks: Seq<TaskView>, partial: Seq<usize>) -> bool {
    forall|i: int| 0 <= i < partial.len() ==> (#[trigger] partial[i]) < tasks.len()
}

/// Draining of the partial queue while resuming: entries are popped oldest
/// first and decomposed until the queue runs dry or a pause suspends the
/// walk again. The first decomposition feeds the plan directly; later ones
/// are appended only when they succeed or pause. The queue length bounds how
/// many entries one resumption can drain, which is what `fuel` carries.
pub open spec fn spec_resume_loop(
    tasks: Seq<TaskView>,
    ctx: CtxView,
    plan: Seq<usize>,
    status: DecompositionStatus,
    decomposed: bool,
    fuel: nat,
) -> PlanOutcome
    decreases fuel,
{
    if ctx.core.partial.len() == 0 || ctx.core.paused || fuel == 0 {
        PlanOutcome { ctx, plan, status }
    } else {
        let e = ctx.core.partial[0];
        let popped = CtxView {
            core: (CtxCore { partial: ctx.core.partial.drop_first(), ..ctx.core }),
            ..ctx
        };
        let d = spec_decompose(tasks, e as int, popped.core, e);
        let after = CtxView { core: d.core, ..popped };
        let extend = !decomposed || d.status == DecompositionStatus::Succeeded || d.status
            == DecompositionStatus::Partial;
        spec_resume_loop(
            tasks,
            after,
            if extend {
                plan + d.frag
            } else {
                plan
            },
            d.status,
            true,
            (fuel - 1) as nat,
        )
    }
}

/// Resumption of a paused decomposition: drain the queue; if that did not
/// cleanly finish, clear the record and replan from the root into the same
/// plan.
pub open spec fn spec_resume_partial(tasks: Seq<TaskView>, ctx: CtxView, plan: Seq<usize>) -> PlanOutcome {
    let r = spec_resume_loop(
        tasks,
        ctx,
        plan,
        DecompositionStatus::Rejected,
        false,
        ctx.core.partial.len() as nat,
    );
    if r.status == DecompositionStatus::Rejected || r.status == DecompositionStatus::Partial {
        let cleared = CtxView { record: Seq::empty(), ..r.ctx };
        let d = spec_decompose(tasks, 0, cleared.core, 0);
        PlanOutcome {
            ctx: (CtxView { core: d.core, ..cleared }),
            plan: r.plan + d.frag,
            status: d.status,
        }
    } else {
        r
    }
}

/// A full replan: snapshot the queue if paused, clear the paused flag and
/// the record, decompose from the root; if the attempt came up empty and the
/// call started paused, restore the paused flag and the snapshot, so a
/// failed pre-emption does not destroy the viable partial plan.
pub open spec fn spec_full_replan(tasks: Seq<TaskView>, ctx: CtxView, plan: Seq<usize>) -> PlanOutcome {
    let was_paused = ctx.core.paused;
    let snapshot = ctx.core.partial;
    let c1 = CtxView {
        core: (CtxCore { paused: false, ..ctx.core }),
        record: Seq::empty(),
        ..ctx
    };
    let d = spec_decompose(tasks, 0, c1.core, 0);
    let c2 = CtxView { core: d.core, ..c1 };
    if was_paused && (d.status == DecompositionStatus::Rejected || d.status
        == DecompositionStatus::Failed) {
        PlanOutcome {
            ctx: (CtxView {
                core: (CtxCore { paused: true, partial: snapshot, ..c2.core }),
                ..c2
            }),
            plan: plan + d.frag,
            status: d.status,
        }
    } else {
        PlanOutcome { ctx: c2, plan: plan + d.frag, status: d.status }
    }
}

/// One call of [`Behaviour::find_plan`]: resume a paused decomposition when
/// there is one and the previous record is spent, else replan in full; the
/// execution state is `Planning` during the pass and `Executing` after it.
pub open spec fn spec_find_plan(tasks: Seq<TaskView>, ctx: CtxView) -> PlanOutcome {
    let c1 = CtxView { exec_state: ExecutionState::Planning, ..ctx };
    let r = if c1.core.paused && c1.last_record.len() == 0 {
        spec_resume_partial(
            tasks,
            (CtxView { core: (CtxCore { paused: false, ..c1.core }), ..c1 }),
            Seq::empty(),
        )
    } else {
        spec_full_replan(tasks, c1, Seq::empty())
    };
    PlanOutcome {
        ctx: (CtxView { exec_state: ExecutionState::Executing, ..r.ctx }),
        plan: r.plan,
        status: r.status,
    }
}

impl Behaviour {
    /// Chooses between resuming a paused decomposition and a full replan,
    /// and hands back the plan with its status.
    pub fn find_plan(&self, ctx: &mut ContextState) -> (r: (Plan, DecompositionStatus))
        requires
            self.well_formed(),
            old(ctx).well_formed(),
            partial_in_range(self@.tasks, old(ctx)@.core.partial),
        ensures
            final(ctx).well_formed(),
            ({
                let o = spec_find_plan(self@.tasks, old(ctx)@);
                &&& final(ctx)@ == o.ctx
                &&& r.0@ == o.plan
                &&& r.1 == o.status
            }),
    {
        ctx.set_exec_state(ExecutionState::Planning);
        let mut plan: Plan = VecDeque::new();
        let status: DecompositionStatus;
        if ctx.paused() && ctx.last_record_is_empty() {
            ctx.set_paused(false);
            status = self.resume_partial(ctx, &mut plan);
        } else {
            status = self.full_replan(ctx, &mut plan);
        }
        ctx.set_exec_state(ExecutionState::Executing);
        proof {
            assert(plan@ =~= Seq::<usize>::empty() + plan@);
        }
        (plan, status)
    }

    /// Drains the partial queue, then falls back to the root if resumption
    /// did not cleanly finish.
    fn resume_partial(&self, ctx: &mut ContextState, plan: &mut Plan) -> (r: DecompositionStatus)
        requires
            self.well_formed(),
            old(ctx).well_formed(),
            partial_in_range(self@.tasks, old(ctx)@.core.partial),
        ensures
            final(ctx).well_formed(),
            ({
                let o = spec_resume_partial(self@.tasks, old(ctx)@, old(plan)@);
                &&& final(ctx)@ == o.ctx
                &&& final(plan)@ == o.plan
            }),
            r == spec_resume_partial(self@.tasks, old(ctx)@, old(plan)@).status,
    {
        let ghost tasks = self@.tasks;
        let ghost target = spec_resume_partial(tasks, old(ctx)@, old(plan)@);
        let mut status = DecompositionStatus::default();
        let mut decomposed = false;
        while ctx.partial_len() > 0 && !ctx.paused()
            invariant
                self.well_formed(),
                tasks == self@.tasks,
                partial_in_range(tasks, ctx@.core.partial),
                ctx.well_formed(),
                target == spec_resume_partial(tasks, old(ctx)@, old(plan)@),
                spec_resume_loop(tasks, ctx@, plan@, status, decomposed, ctx@.core.partial.len() as nat)
                    == spec_resume_loop(
                    tasks,
                    old(ctx)@,
                    old(plan)@,
                    DecompositionStatus::Rejected,
                    false,
                    old(ctx)@.core.partial.len() as nat,
                ),
            decreases (if ctx@.core.paused {
                0int
            } else {
                ctx@.core.partial.len() as int
            }),
        {
            let ghost before = ctx@;
            let ghost plan_before = plan@;
            let ghost status0 = status;
            let ghost dec0 = decomposed;
            let entry = match ctx.pop_partial() {
                Some(e) => e,
                None => {
                    proof {
                        assert(false);
                    }
                    0
                },
            };
            let ghost popped = ctx@;
            let ghost e = entry;
            proof {
                assert(popped == (CtxView {
                    core: (CtxCore {
                        partial: before.core.partial.drop_first(),
                        ..before.core
                    }),
                    ..before
                }));
            }
            let partial_task = self.get_task(entry);
            let ghost d = spec_decompose(tasks, e as int, popped.core, e);
            if !decomposed {
                status = partial_task.decompose(ctx, self, plan);
                decomposed = true;
            } else {
                let mut new_plan: Plan = VecDeque::new();
                status = partial_task.decompose(ctx, self, &mut new_plan);
                if status == DecompositionStatus::Succeeded || status
                    == DecompositionStatus::Partial {
                    proof {
                        assert(new_plan@ =~= d.frag);
                    }
                    plan.append(&mut new_plan);
                }
            }
            proof {
                lemma_decompose_keeps(tasks, e as int, popped.core, e);
                assert forall|i: int|
                    0 <= i < ctx@.core.partial.len() implies (#[trigger] ctx@.core.partial[i])
                    < tasks.len() by {
                    if i < popped.core.partial.len() {
                        assert(ctx@.core.partial.take(popped.core.partial.len() as int)[i]
                            == popped.core.partial[i]);
                    }
                }
                let left = spec_resume_loop(
                    tasks,
                    before,
                    plan_before,
                    status0,
                    dec0,
                    before.core.partial.len() as nat,
                );
                let stepped = spec_resume_loop(
                    tasks,
                    ctx@,
                    plan@,
                    status,
                    true,
                    (before.core.partial.len() - 1) as nat,
                );
                assert(left == stepped);
                if ctx@.core.paused {
                    assert(stepped == (PlanOutcome { ctx: ctx@, plan: plan@, status }));
                    assert(spec_resume_loop(
                        tasks,
                        ctx@,
                        plan@,
                        status,
                        true,
                        ctx@.core.partial.len() as nat,
                    ) == (PlanOutcome { ctx: ctx@, plan: plan@, status }));
                } else {
                    assert(ctx@.core.partial.len() == before.core.partial.len() - 1);
                }
            }
        }
        proof {
            let fin = spec_resume_loop(
                tasks,
                old(ctx)@,
                old(plan)@,
                DecompositionStatus::Rejected,
                false,
                old(ctx)@.core.partial.len() as nat,
            );
            assert(fin == (PlanOutcome { ctx: ctx@, plan: plan@, status }));
        }
        if status == DecompositionStatus::Rejected || status == DecompositionStatus::Partial {
            ctx.clear_record();
            let root = self.get_task(0);
            status = root.decompose(ctx, self, plan);
        }
        status
    }

    /// Replans from the root, restoring a paused partial plan if the fresh
    /// attempt came up empty.
    fn full_replan(&self, ctx: &mut ContextState, plan: &mut Plan) -> (r: DecompositionStatus)
        requires
            self.well_formed(),
            old(ctx).well_formed(),
        ensures
            final(ctx).well_formed(),
            ({
                let o = spec_full_replan(self@.tasks, old(ctx)@, old(plan)@);
                &&& final(ctx)@ == o.ctx
                &&& final(plan)@ == o.plan
            }),
            r == spec_full_replan(self@.tasks, old(ctx)@, old(plan)@).status,
    {
        let mut was_paused = false;
        let mut last_partial_plan: Plan = VecDeque::new();
        if ctx.paused() {
            ctx.set_paused(false);
            was_paused = true;
            last_partial_plan = ctx.partial_clone();
        }
        ctx.clear_record();
        let root = self.get_task(0);
        let status = root.decompose(ctx, self, plan);
        if was_paused && (status == DecompositionStatus::Rejected || status
            == DecompositionStatus::Failed) {
            ctx.set_paused(true);
            ctx.set_partial(last_partial_plan);
        }
        status
    }
}

/// Helper for [`lemma_find_plan_ranges`]: the resume walk keeps plan and
/// queue entries inside the arena.
proof fn lemma_resume_loop_ranges(
    tasks: Seq<TaskView>,
    ctx: CtxView,
    plan: Seq<usize>,
    status: DecompositionStatus,
    decomposed: bool,
    fuel: nat,
)
    requires
        tasks_wf(tasks),
        tasks.len() > 0,
        partial_in_range(tasks, ctx.core.partial),
        forall|w: int| 0 <= w < plan.len() ==> (#[trigger] plan[w]) < tasks.len(),
    ensures
        ({
            let o = spec_resume_loop(tasks, ctx, plan, status, decomposed, fuel);
            &&& (forall|w: int| 0 <= w < o.plan.len() ==> (#[trigger] o.plan[w]) < tasks.len())
            &&& partial_in_range(tasks, o.ctx.core.partial)
        }),
    decreases fuel,
{
    if ctx.core.partial.len() == 0 || ctx.core.paused || fuel == 0 {
    } else {
        let e = ctx.core.partial[0];
        let popped = CtxView {
            core: (CtxCore { partial: ctx.core.partial.drop_first(), ..ctx.core }),
            ..ctx
        };
        let d = spec_decompose(tasks, e as int, popped.core, e);
        lemma_decompose_keeps(tasks, e as int, popped.core, e);
        let after = CtxView { core: d.core, ..popped };
        assert(partial_in_range(tasks, after.core.partial)) by {
            assert forall|i: int|
                0 <= i < after.core.partial.len() implies (#[trigger] after.core.partial[i])
                < tasks.len() by {
                if i < popped.core.partial.len() {
                    assert(after.core.partial.take(popped.core.partial.len() as int)[i]
                        == popped.core.partial[i]);
                }
            }
        }
        let extend = !decomposed || d.status == DecompositionStatus::Succeeded || d.status
            == DecompositionStatus::Partial;
        lemma_resume_loop_ranges(
            tasks,
            after,
            if extend {
                plan + d.frag
            } else {
                plan
            },
            d.status,
            true,
            (fuel - 1) as nat,
        );
    }
}

/// Every index a planning pass puts into the plan or leaves in the partial
/// queue points into the arena, so a later tick can look the task up.
pub proof fn lemma_find_plan_ranges(tasks: Seq<TaskView>, ctx: CtxView)
    requires
        tasks_wf(tasks),
        tasks.len() > 0,
        partial_in_range(tasks, ctx.core.partial),
    ensures
        ({
            let o = spec_find_plan(tasks, ctx);
            &&& (forall|w: int| 0 <= w < o.plan.len() ==> (#[trigger] o.plan[w]) < tasks.len())
            &&& partial_in_range(tasks, o.ctx.core.partial)
        }),
{
    let c1 = CtxView { exec_state: ExecutionState::Planning, ..ctx };
    if c1.core.paused && c1.last_record.len() == 0 {
        let cr = CtxView { core: (CtxCore { paused: false, ..c1.core }), ..c1 };
        let r = spec_resume_loop(
            tasks,
            cr,
            Seq::empty(),
            DecompositionStatus::Rejected,
            false,
            cr.core.partial.len() as nat,
        );
        lemma_resume_loop_ranges(
            tasks,
            cr,
            Seq::empty(),
            DecompositionStatus::Rejected,
            false,
            cr.core.partial.len() as nat,
        );
        if r.status == DecompositionStatus::Rejected || r.status == DecompositionStatus::Partial {
            let cleared = CtxView { record: Seq::empty(), ..r.ctx };
            let d = spec_decompose(tasks, 0, cleared.core, 0);
            lemma_decompose_keeps(tasks, 0, cleared.core, 0);
            let o = spec_find_plan(tasks, ctx);
            assert(partial_in_range(tasks, o.ctx.core.partial)) by {
                assert forall|i: int|
                    0 <= i < d.core.partial.len() implies (#[trigger] d.core.partial[i])
                    < tasks.len() by {
                    if i < cleared.core.partial.len() {
                        assert(d.core.partial.take(cleared.core.partial.len() as int)[i]
                            == cleared.core.partial[i]);
                    }
                }
            }
        }
    } else {
        let was_paused = c1.core.paused;
        let snapshot = c1.core.partial;
        let c2 = CtxView {
            core: (CtxCore { paused: false, ..c1.core }),
            record: Seq::empty(),
            ..c1
        };
        let d = spec_decompose(tasks, 0, c2.core, 0);
        lemma_decompose_keeps(tasks, 0, c2.core, 0);
        assert forall|i: int|
            0 <= i < d.core.partial.len() implies (#[trigger] d.core.partial[i]) < tasks.len() by {
            if i < c2.core.partial.len() {
                assert(d.core.partial.take(c2.core.partial.len() as int)[i]
                    == c2.core.partial[i]);
            }
        }
        assert(spec_find_plan(tasks, ctx).plan =~= Seq::<usize>::empty() + d.frag);
    }
}

// ---------------------------------------------------------------------------
// The builder
// ---------------------------------------------------------------------------

/// Spec-level value of a [`BehaviourBuilder`].
pub struct BehaviourBuilderView {
    pub name: Seq<char>,
    pub current_task: Option<usize>,
    pub tasks: Seq<TaskView>,
    pub task_stack: Seq<usize>,
}

/// A block of tasks that can be spliced into a builder, so that a recurring
/// subtree is written once and stamped into several behaviours.
pub trait TaskMacro {
    /// Adds this block's tasks to the builder.
    fn build(&self, builder: &mut BehaviourBuilder);
}

/// Assembles a [`Behaviour`] task by task: compound tasks open a scope that
/// [`BehaviourBuilder::end`] closes, and conditions, effects and operators
/// attach to the task most recently opened.
#[derive(Debug)]
pub struct BehaviourBuilder {
    name: String,
    current_task: Option<usize>,
    tasks: Vec<Task>,
    task_stack: Vec<usize>,
}

impl View for BehaviourBuilder {
    type V = BehaviourBuilderView;

    closed spec fn view(&self) -> BehaviourBuilderView {
        BehaviourBuilderView {
            name: self.name@,
            current_task: self.current_task,
            tasks: self.tasks@.map_values(|t: Task| t@),
            task_stack: self.task_stack@,
        }
    }
}

impl BehaviourBuilder {
    pub fn new(name: &str) -> (r: BehaviourBuilder)
        ensures
            r@ == (BehaviourBuilderView {
                name: name@,
                current_task: None,
                tasks: Seq::empty(),
                task_stack: Seq::empty(),
            }),
    {
        let r = BehaviourBuilder {
            name: name.to_owned(),
            current_task: None,
            tasks: Vec::new(),
            task_stack: Vec::new(),
        };
        proof {
            assert(r@.tasks =~= Seq::<TaskView>::empty());
        }
        r
    }

    /// Opens a selector: one of its children sufficing counts as success.
    pub fn selector(&mut self, name: &str) -> (r: &mut Self)
        requires
            builder_can_add(old(self)@),
        ensures
            (*r)@ == builder_created(old(self)@, name@, TaskType::Selector),
            *final(self) == *final(r),
    {
        self.create_task(name, TaskType::Selector);
        self
    }

    /// Opens a sequence: all of its children must succeed.
    pub fn sequence(&mut self, name: &str) -> (r: &mut Self)
        requires
            builder_can_add(old(self)@),
        ensures
            (*r)@ == builder_created(old(self)@, name@, TaskType::Sequence),
            *final(self) == *final(r),
    {
        self.create_task(name, TaskType::Sequence);
        self
    }

    /// Opens a primitive leaf.
    pub fn primitive(&mut self, name: &str) -> (r: &mut Self)
        requires
            builder_can_add(old(self)@),
        ensures
            (*r)@ == builder_created(old(self)@, name@, TaskType::Primitive),
            *final(self) == *final(r),
    {
        self.create_task(name, TaskType::Primitive);
        self
    }

    /// Adds a pause marker under the current task.
    pub fn pause(&mut self) -> (r: &mut Self)
        requires
            builder_can_add(old(self)@),
        ensures
            (*r)@ == builder_created(old(self)@, Seq::empty(), TaskType::Pause),
            *final(self) == *final(r),
    {
        proof {
            reveal_strlit("");
            assert(""@ =~= Seq::<char>::empty());
        }
        self.create_task("", TaskType::Pause);
        self
    }

    /// Splices a reusable block of tasks into the builder.
    pub fn task_macro<M: TaskMacro>(&mut self, task_macro: M) -> (r: &mut Self)
        ensures
            *final(self) == *final(r),
    {
        task_macro.build(self);
        self
    }

    /// Attaches a planning condition to the current task. The name is
    /// documentation only.
    pub fn condition(&mut self, name: &str, condition: Condition) -> (r: &mut Self)
        requires
            old(self)@.current_task is Some,
            old(self)@.current_task.unwrap() < old(self)@.tasks.len(),
        ensures
            *final(self) == *final(r),
            ({
                let cur = old(self)@.current_task.unwrap() as int;
                (*r)@ == (BehaviourBuilderView {
                    tasks: old(self)@.tasks.update(
                        cur,
                        (TaskView {
                            conditions: old(self)@.tasks[cur].conditions.push(condition@),
                            ..old(self)@.tasks[cur]
                        }),
                    ),
                    ..old(self)@
                })
            }),
    {
        let _ = name;
        let cur = match self.current_task {
            Some(c) => c,
            None => {
                proof {
                    assert(false);
                }
                0
            },
        };
        self.tasks[cur].add_condition(condition);
        proof {
            assert(self@.tasks =~= old(self)@.tasks.update(
                cur as int,
                self.tasks@[cur as int]@,
            ));
        }
        self
    }

    /// Attaches an effect to the current task. The name is documentation
    /// only.
    pub fn effect(&mut self, name: &str, effect: Effect) -> (r: &mut Self)
        requires
            old(self)@.current_task is Some,
            old(self)@.current_task.unwrap() < old(self)@.tasks.len(),
        ensures
            *final(self) == *final(r),
            ({
                let cur = old(self)@.current_task.unwrap() as int;
                (*r)@ == (BehaviourBuilderView {
                    tasks: old(self)@.tasks.update(
                        cur,
                        (TaskView {
                            effects: old(self)@.tasks[cur].effects.push(effect@),
                            ..old(self)@.tasks[cur]
                        }),
                    ),
                    ..old(self)@
                })
            }),
    {
        let _ = name;
        let cur = match self.current_task {
            Some(c) => c,
            None => {
                proof {
                    assert(false);
                }
                0
            },
        };
        self.tasks[cur].add_effect(effect);
        proof {
            assert(self@.tasks =~= old(self)@.tasks.update(
                cur as int,
                self.tasks@[cur as int]@,
            ));
        }
        self
    }

    /// Attaches the operator that acts for the current primitive task. The
    /// name is documentation only.
    pub fn do_action(&mut self, name: &str, operator: Operator) -> (r: &mut Self)
        requires
            old(self)@.current_task is Some,
            old(self)@.current_task.unwrap() < old(self)@.tasks.len(),
            old(self)@.tasks[old(self)@.current_task.unwrap() as int].task_type
                == TaskType::Primitive,
        ensures
            *final(self) == *final(r),
            ({
                let cur = old(self)@.current_task.unwrap() as int;
                (*r)@ == (BehaviourBuilderView {
                    tasks: old(self)@.tasks.update(
                        cur,
                        (TaskView { operator: Some(operator@), ..old(self)@.tasks[cur] }),
                    ),
                    ..old(self)@
                })
            }),
    {
        let _ = name;
        let cur = match self.current_task {
            Some(c) => c,
            None => {
                proof {
                    assert(false);
                }
                0
            },
        };
        self.tasks[cur].add_operator(operator);
        proof {
            assert(self@.tasks =~= old(self)@.tasks.update(
                cur as int,
                self.tasks@[cur as int]@,
            ));
        }
        self
    }

    /// Closes the current task's scope, returning to its parent scope.
    pub fn end(&mut self) -> (r: &mut Self)
        ensures
            *final(self) == *final(r),
            (*r)@ == (BehaviourBuilderView {
                current_task: if old(self)@.task_stack.len() > 0 {
                    Some(old(self)@.task_stack.last())
                } else {
                    None
                },
                task_stack: if old(self)@.task_stack.len() > 0 {
                    old(self)@.task_stack.drop_last()
                } else {
                    old(self)@.task_stack
                },
                ..old(self)@
            }),
    {
        self.current_task = self.task_stack.pop();
        self
    }

    /// Compiles the accumulated arena into a behaviour; an empty or
    /// ill-linked arena is rejected.
    pub fn build(self) -> (r: Option<Behaviour>)
        ensures
            match r {
                Some(b) => b.well_formed() && b@ == (BehaviourView {
                    name: self@.name,
                    tasks: self@.tasks,
                }),
                None => !behaviour_wf(
                    (BehaviourView { name: self@.name, tasks: self@.tasks }),
                ),
            },
    {
        Behaviour::new(self.name.as_str(), self.tasks)
    }

    /// Appends a fresh task of the given kind, linking it under the current
    /// task and making it current.
    fn create_task(&mut self, name: &str, task_type: TaskType)
        requires
            builder_can_add(old(self)@),
        ensures
            final(self)@ == builder_created(old(self)@, name@, task_type),
    {
        let new_index = self.tasks.len();
        self.tasks.push(Task::new(name, new_index, self.current_task, task_type));
        proof {
            assert(self@.tasks =~= old(self)@.tasks.push(self.tasks@.last()@));
        }
        match self.current_task {
            Some(index) => {
                self.task_stack.push(index);
                let ghost mid = self@.tasks;
                self.tasks[index].add_child(new_index);
                proof {
                    assert(self@.tasks =~= mid.update(index as int, self.tasks@[index as int]@));
                }
            },
            None => {},
        }
        self.current_task = Some(new_index);
    }
}

/// A task may be added when there is no current task, or the current task
/// is a compound one (a primitive cannot have children).
pub open spec fn builder_can_add(b: BehaviourBuilderView) -> bool {
    match b.current_task {
        Some(cur) => cur < b.tasks.len() && b.tasks[cur as int].task_type != TaskType::Primitive,
        None => true,
    }
}

/// The builder after appending one fresh task of the given kind.
pub open spec fn builder_created(b: BehaviourBuilderView, name: Seq<char>, task_type: TaskType) -> BehaviourBuilderView {
    let new_index = b.tasks.len() as usize;
    let fresh = TaskView {
        name,
        index: new_index,
        conditions: Seq::empty(),
        exec_conditions: Seq::empty(),
        operator: None,
        effects: Seq::empty(),
        parent: b.current_task,
        sub_tasks: Seq::empty(),
        task_type,
    };
    match b.current_task {
        Some(index) => BehaviourBuilderView {
            current_task: Some(new_index),
            tasks: b.tasks.push(fresh).update(
                index as int,
                (TaskView {
                    sub_tasks: b.tasks[index as int].sub_tasks.push(new_index),
                    ..b.tasks[index as int]
                }),
            ),
            task_stack: b.task_stack.push(index),
            ..b
        },
        None => BehaviourBuilderView {
            current_task: Some(new_index),
            tasks: b.tasks.push(fresh),
            ..b
        },
    }
}

// ---------------------------------------------------------------------------
// Pretty-printing support
// ---------------------------------------------------------------------------

/// Spec-level value of outline lines: each task name with its depth.
pub open spec fn lines_view(v: Seq<(String, usize)>) -> Seq<(Seq<char>, usize)> {
    v.map_values(|p: (String, usize)| (p.0@, p.1))
}

/// Preorder listing of the subtree at `i`: the task's name at its depth,
/// then each child subtree, one level deeper.
pub open spec fn spec_outline_node(tasks: Seq<TaskView>, i: int, depth: usize) -> Seq<
    (Seq<char>, usize),
>
    decreases tasks.len() - i, 1int, 0int
        when tasks_wf(tasks) && 0 <= i < tasks.len() && depth < tasks.len()
{
    seq![(tasks[i].name, depth)] + spec_outline_kids(tasks, i, 0, depth)
}

/// The child subtrees of `i` from child position `k` on, one level deeper.
pub open spec fn spec_outline_kids(tasks: Seq<TaskView>, i: int, k: int, depth: usize) -> Seq<
    (Seq<char>, usize),
>
    decreases tasks.len() - i, 0int, tasks[i].sub_tasks.len() - k
        when tasks_wf(tasks) && 0 <= i < tasks.len() && 0 <= k <= tasks[i].sub_tasks.len()
            && depth < tasks.len()
{
    if k == tasks[i].sub_tasks.len() {
        Seq::empty()
    } else {
        spec_outline_node(tasks, tasks[i].sub_tasks[k] as int, (depth + 1) as usize)
            + spec_outline_kids(tasks, i, k + 1, depth)
    }
}

/// The outlines of all parentless tasks, in arena order.
pub open spec fn spec_outline_roots(tasks: Seq<TaskView>, j: int) -> Seq<(Seq<char>, usize)>
    decreases tasks.len() - j
        when tasks_wf(tasks) && 0 <= j <= tasks.len()
{
    if j == tasks.len() {
        Seq::empty()
    } else {
        (if tasks[j].parent is None {
            spec_outline_node(tasks, j, 0)
        } else {
            Seq::empty()
        }) + spec_outline_roots(tasks, j + 1)
    }
}

impl Behaviour {
    /// The tree as indented lines: each task's name with its depth, in
    /// preorder, one tree per parentless task. The host prints it.
    pub fn outline(&self) -> (r: Vec<(String, usize)>)
        requires
            self.well_formed(),
        ensures
            lines_view(r@) == spec_outline_roots(self@.tasks, 0),
    {
        let ghost tasks = self@.tasks;
        let mut out: Vec<(String, usize)> = Vec::new();
        proof {
            assert(lines_view(out@) =~= Seq::<(Seq<char>, usize)>::empty());
        }
        let n = self.tasks.len();
        let mut j: usize = 0;
        while j < n
            invariant
                self.well_formed(),
                tasks == self@.tasks,
                n == tasks.len(),
                j <= n,
                lines_view(out@) == spec_outline_roots(tasks, 0).take(
                    spec_outline_roots(tasks, 0).len() as int - spec_outline_roots(
                        tasks,
                        j as int,
                    ).len() as int,
                ),
                spec_outline_roots(tasks, j as int).len() <= spec_outline_roots(tasks, 0).len(),
                spec_outline_roots(tasks, 0) == lines_view(out@) + spec_outline_roots(
                    tasks,
                    j as int,
                ),
            decreases n - j,
        {
            if self.tasks[j].parent.is_none() {
                self.outline_into(j, 0, &mut out);
            }
            proof {
                assert(spec_outline_roots(tasks, j as int) == (if tasks[j as int].parent
                    is None {
                    spec_outline_node(tasks, j as int, 0)
                } else {
                    Seq::<(Seq<char>, usize)>::empty()
                }) + spec_outline_roots(tasks, j + 1));
                if !(tasks[j as int].parent is None) {
                    assert(spec_outline_roots(tasks, j as int) =~= spec_outline_roots(
                        tasks,
                        j + 1,
                    ));
                }
                assert(spec_outline_roots(tasks, 0) == lines_view(out@) + spec_outline_roots(
                    tasks,
                    j + 1,
                ));
                assert(lines_view(out@) =~= spec_outline_roots(tasks, 0).take(
                    spec_outline_roots(tasks, 0).len() as int - spec_outline_roots(
                        tasks,
                        j + 1,
                    ).len() as int,
                ));
            }
            j = j + 1;
        }
        proof {
            assert(spec_outline_roots(tasks, n as int) =~= Seq::<(Seq<char>, usize)>::empty());
            assert(lines_view(out@) =~= lines_view(out@) + spec_outline_roots(tasks, n as int));
        }
        out
    }

    /// Appends the preorder outline of the subtree at `index`.
    fn outline_into(&self, index: usize, depth: usize, out: &mut Vec<(String, usize)>)
        requires
            self.well_formed(),
            index < self@.tasks.len(),
            depth <= index,
        ensures
            lines_view(final(out)@) == lines_view(old(out)@) + spec_outline_node(
                self@.tasks,
                index as int,
                depth,
            ),
        decreases self@.tasks.len() - index, 1int,
    {
        let ghost tasks = self@.tasks;
        let task = self.get_task(index);
        out.push((clone_string(&task.name), depth));
        proof {
            assert(lines_view(out@) =~= lines_view(old(out)@) + seq![
                (tasks[index as int].name, depth),
            ]);
        }
        let n_children = task.sub_tasks.len();
        let mut k: usize = 0;
        while k < n_children
            invariant
                self.well_formed(),
                tasks == self@.tasks,
                index < tasks.len(),
                depth <= index,
                n_children == tasks[index as int].sub_tasks.len(),
                k <= n_children,
                spec_outline_node(tasks, index as int, depth) == lines_view(out@).skip(
                    lines_view(old(out)@).len() as int,
                ) + spec_outline_kids(tasks, index as int, k as int, depth),
                lines_view(out@).take(lines_view(old(out)@).len() as int) == lines_view(
                    old(out)@,
                ),
                lines_view(out@).len() >= lines_view(old(out)@).len(),
            decreases n_children - k,
        {
            let task2 = self.get_task(index);
            let child = task2.sub_tasks[k];
            proof {
                assert(child == tasks[index as int].sub_tasks[k as int]);
                assert((index as int) < child && (child as int) < tasks.len());
            }
            self.outline_into(child, depth + 1, out);
            k = k + 1;
        }
        proof {
            assert(spec_outline_kids(tasks, index as int, n_children as int, depth) =~= Seq::<
                (Seq<char>, usize),
            >::empty());
        }
    }
}

/// Copies a string.
fn clone_string(s: &String) -> (r: String)
    ensures
        r@ == s@,
{
    s.clone()
}

/// Helper for [`lemma_find_plan_balanced`]: the resume walk preserves the
/// transaction stack depth.
proof fn lemma_resume_loop_balanced(
    tasks: Seq<TaskView>,
    ctx: CtxView,
    plan: Seq<usize>,
    status: DecompositionStatus,
    decomposed: bool,
    fuel: nat,
)
    requires
        tasks_wf(tasks),
        tasks.len() > 0,
        partial_in_range(tasks, ctx.core.partial),
    ensures
        spec_resume_loop(tasks, ctx, plan, status, decomposed, fuel).ctx.core.trans.len()
            == ctx.core.trans.len(),
    decreases fuel,
{
    if ctx.core.partial.len() == 0 || ctx.core.paused || fuel == 0 {
    } else {
        let e = ctx.core.partial[0];
        let popped = CtxView {
            core: (CtxCore { partial: ctx.core.partial.drop_first(), ..ctx.core }),
            ..ctx
        };
        let d = spec_decompose(tasks, e as int, popped.core, e);
        lemma_decompose_keeps(tasks, e as int, popped.core, e);
        let after = CtxView { core: d.core, ..popped };
        assert(partial_in_range(tasks, after.core.partial)) by {
            assert forall|i: int|
                0 <= i < after.core.partial.len() implies (#[trigger] after.core.partial[i])
                < tasks.len() by {
                if i < popped.core.partial.len() {
                    assert(after.core.partial.take(popped.core.partial.len() as int)[i]
                        == popped.core.partial[i]);
                }
            }
        }
        let extend = !decomposed || d.status == DecompositionStatus::Succeeded || d.status
            == DecompositionStatus::Partial;
        lemma_resume_loop_balanced(
            tasks,
            after,
            if extend {
                plan + d.frag
            } else {
                plan
            },
            d.status,
            true,
            (fuel - 1) as nat,
        );
    }
}

/// Transaction balance law for planning: every transaction a planning pass
/// opens, it also closes, so the stack is as deep after [`Behaviour::find_plan`]
/// as before it.
pub proof fn lemma_find_plan_balanced(tasks: Seq<TaskView>, ctx: CtxView)
    requires
        tasks_wf(tasks),
        tasks.len() > 0,
        partial_in_range(tasks, ctx.core.partial),
    ensures
        spec_find_plan(tasks, ctx).ctx.core.trans.len() == ctx.core.trans.len(),
{
    let c1 = CtxView { exec_state: ExecutionState::Planning, ..ctx };
    if c1.core.paused && c1.last_record.len() == 0 {
        let cr = CtxView { core: (CtxCore { paused: false, ..c1.core }), ..c1 };
        lemma_resume_loop_balanced(
            tasks,
            cr,
            Seq::empty(),
            DecompositionStatus::Rejected,
            false,
            cr.core.partial.len() as nat,
        );
        let r = spec_resume_loop(
            tasks,
            cr,
            Seq::empty(),
            DecompositionStatus::Rejected,
            false,
            cr.core.partial.len() as nat,
        );
        if r.status == DecompositionStatus::Rejected || r.status == DecompositionStatus::Partial {
            let cleared = CtxView { record: Seq::empty(), ..r.ctx };
            lemma_decompose_keeps(tasks, 0, cleared.core, 0);
        }
    } else {
        let c2 = CtxView {
            core: (CtxCore { paused: false, ..c1.core }),
            record: Seq::empty(),
            ..c1
        };
        lemma_decompose_keeps(tasks, 0, c2.core, 0);
    }
}

/// Replanning law: on a non-paused, non-dirty context, planning with a
/// behaviour that writes no facts and never pauses is repeatable — a second
/// call of [`Behaviour::find_plan`] on the context the first call left
/// behind yields the same plan and the same status.
pub proof fn lemma_find_plan_repeatable(tasks: Seq<TaskView>, c: CtxView)
    requires
        tasks_wf(tasks),
        tasks.len() > 0,
        effect_free(tasks),
        pause_free(tasks),
        !c.core.paused,
        !c.dirty,
    ensures
        ({
            let o1 = spec_find_plan(tasks, c);
            let o2 = spec_find_plan(tasks, o1.ctx);
            o2.plan == o1.plan && o2.status == o1.status
        }),
{
    let c1 = CtxView { exec_state: ExecutionState::Planning, ..c };
    let c2 = CtxView {
        core: (CtxCore { paused: false, ..c1.core }),
        record: Seq::empty(),
        ..c1
    };
    let d = spec_decompose(tasks, 0, c2.core, 0);
    lemma_decompose_pure(tasks, 0, c2.core, 0);
    let o1 = spec_find_plan(tasks, c);
    assert(o1.ctx.core == c2.core);
    assert(!o1.ctx.core.paused && !o1.ctx.dirty);
    let c1b = CtxView { exec_state: ExecutionState::Planning, ..o1.ctx };
    let c2b = CtxView {
        core: (CtxCore { paused: false, ..c1b.core }),
        record: Seq::empty(),
        ..c1b
    };
    assert(c2b.core == c2.core);
    let d2 = spec_decompose(tasks, 0, c2b.core, 0);
    assert(d2 == d);
}

} // verus!
