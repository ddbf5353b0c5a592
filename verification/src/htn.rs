//! The capability values a behaviour attaches to its tasks: conditions that
//! gate planning, effects that speculatively write facts while planning, and
//! operators that act when a primitive task executes.
//!
//! Each is a small closed language of built-in forms, so that what a task
//! does to a context is a function of plain data.

use std::collections::VecDeque;
use vstd::prelude::*;

use crate::context::{ctx_set, ContextState, CtxCore, CtxView, Variant, VariantView};
use crate::task::TaskStatus;

verus! {

/// The chosen ordering of primitive task indices to execute.
pub type Plan = VecDeque<usize>;

/// Spec-level value of a [`Condition`].
pub enum ConditionView {
    Always,
    Never,
    Has(Seq<char>),
    Equals(Seq<char>, VariantView),
}

/// A predicate over the fact store, checked while planning (and, for
/// execution conditions, at every tick).
#[derive(Debug)]
pub enum Condition {
    /// Holds of every store.
    Always,
    /// Holds of no store.
    Never,
    /// Holds when the key is present.
    Has(String),
    /// Holds when the key is present and bears exactly this value.
    Equals(String, Variant),
}

impl View for Condition {
    type V = ConditionView;

    open spec fn view(&self) -> ConditionView {
        match self {
            Condition::Always => ConditionView::Always,
            Condition::Never => ConditionView::Never,
            Condition::Has(k) => ConditionView::Has(k@),
            Condition::Equals(k, v) => ConditionView::Equals(k@, v@),
        }
    }
}

/// What a condition says of a fact map.
pub open spec fn condition_holds(c: ConditionView, vars: Map<Seq<char>, VariantView>) -> bool {
    match c {
        ConditionView::Always => true,
        ConditionView::Never => false,
        ConditionView::Has(k) => vars.contains_key(k),
        ConditionView::Equals(k, v) => vars.contains_key(k) && vars[k] == v,
    }
}

impl Condition {
    /// Evaluates the condition against a context.
    pub fn is_valid(&self, ctx: &ContextState) -> (r: bool)
        requires
            ctx.well_formed(),
        ensures
            r == condition_holds(self@, ctx@.core.vars),
    {
        match self {
            Condition::Always => true,
            Condition::Never => false,
            Condition::Has(k) => ctx.get(k.as_str()).is_some(),
            Condition::Equals(k, v) => match ctx.test_value(k.as_str(), v) {
                Some(b) => b,
                None => false,
            },
        }
    }
}

/// Spec-level value of an [`Effect`].
pub enum EffectView {
    Assign(Seq<char>, VariantView),
}

/// A speculative write to the fact store, applied when a primitive task is
/// committed into a plan; an enclosing sequence's transaction can undo it.
#[derive(Debug)]
pub enum Effect {
    /// Upserts the key to the value.
    Assign(String, Variant),
}

impl View for Effect {
    type V = EffectView;

    open spec fn view(&self) -> EffectView {
        match self {
            Effect::Assign(k, v) => EffectView::Assign(k@, v@),
        }
    }
}

/// What applying an effect does to the store.
pub open spec fn effect_applied(e: EffectView, c: CtxCore) -> CtxCore {
    match e {
        EffectView::Assign(k, v) => ctx_set(c, k, v),
    }
}

impl Effect {
    /// Applies the effect to a context.
    pub fn apply(&self, ctx: &mut ContextState)
        requires
            old(ctx).well_formed(),
        ensures
            final(ctx).well_formed(),
            final(ctx)@ == (CtxView { core: effect_applied(self@, old(ctx)@.core), ..old(ctx)@ }),
    {
        match self {
            Effect::Assign(k, v) => ctx.set(k.as_str(), v.clone()),
        }
    }
}

/// Spec-level value of an [`Operator`].
pub enum OperatorView {
    Respond(TaskStatus),
    SetAndSucceed(Seq<char>, VariantView),
}

/// The action behind a primitive task, run once per tick while the task is
/// current.
#[derive(Debug)]
pub enum Operator {
    /// Reports the given status and leaves the store alone.
    Respond(TaskStatus),
    /// Upserts the key to the value, then reports success.
    SetAndSucceed(String, Variant),
}

impl View for Operator {
    type V = OperatorView;

    open spec fn view(&self) -> OperatorView {
        match self {
            Operator::Respond(s) => OperatorView::Respond(*s),
            Operator::SetAndSucceed(k, v) => OperatorView::SetAndSucceed(k@, v@),
        }
    }
}

/// The status an operator reports when updated.
pub open spec fn operator_status(o: OperatorView) -> TaskStatus {
    match o {
        OperatorView::Respond(s) => s,
        OperatorView::SetAndSucceed(_, _) => TaskStatus::Success,
    }
}

/// What updating an operator does to the store.
pub open spec fn operator_applied(o: OperatorView, c: CtxCore) -> CtxCore {
    match o {
        OperatorView::Respond(_) => c,
        OperatorView::SetAndSucceed(k, v) => ctx_set(c, k, v),
    }
}

impl Operator {
    /// Runs the operator for one tick.
    pub fn update(&self, ctx: &mut ContextState) -> (r: TaskStatus)
        requires
            old(ctx).well_formed(),
        ensures
            final(ctx).well_formed(),
            final(ctx)@ == (CtxView { core: operator_applied(self@, old(ctx)@.core), ..old(ctx)@ }),
            r == operator_status(self@),
    {
        match self {
            Operator::Respond(s) => *s,
            Operator::SetAndSucceed(k, v) => {
                ctx.set(k.as_str(), v.clone());
                TaskStatus::Success
            },
        }
    }

    /// Tells the operator its task was pre-empted; the built-in operators
    /// carry no state, so nothing changes.
    pub fn stop(&self, ctx: &mut ContextState)
        ensures
            *final(ctx) == *old(ctx),
    {
        let _ = ctx;
    }
}

} // verus!
