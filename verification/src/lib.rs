//! A hierarchical task network (HTN) planner.
//!
//! A [`behaviour::Behaviour`] is an immutable arena of tasks describing how an
//! agent may act; a [`context::BeingContext`] is the agent's mutable fact
//! store; a [`planner::Planner`] decomposes the behaviour into a linear plan
//! of primitive tasks and executes it one tick at a time, replanning when the
//! world changes or the plan runs out.
//!
//! Every executable function carries a contract stating exactly what it
//! computes, against spec-level interpreters of decomposition
//! ([`task::spec_decompose`]), planning ([`behaviour::spec_find_plan`]) and
//! execution ([`planner::spec_tick`]). On top of those, the library proves:
//!
//! - a sequence that does not succeed adds no fact to the store
//!   ([`task::lemma_sequence_no_pollution`]);
//! - a selector hands back exactly its first acceptable child's outcome,
//!   and fails only when every child fails
//!   ([`task::lemma_selector_priority`], [`task::lemma_selector_exhausted`]);
//! - a primitive without an operator retires with failure and touches
//!   nothing ([`planner::lemma_operatorless_primitive`]);
//! - a decomposition succeeds exactly when it contributes a plan fragment
//!   ([`task::lemma_decompose_status`]);
//! - opening a transaction, writing one fresh key and rolling back leaves
//!   the store exactly as it was ([`context::lemma_transaction_roundtrip`]);
//! - planning without effects or pauses is repeatable
//!   ([`behaviour::lemma_find_plan_repeatable`]).

pub mod behaviour;
pub mod context;
pub mod graph;
pub mod htn;
pub mod planner;
pub mod task;

pub use behaviour::Behaviour;
pub use context::{BeingContext, ContextState, ExecutionState, Record, Variant};
pub use graph::Graph;
pub use htn::{Condition, Effect, Operator, Plan};
pub use planner::Planner;
pub use task::{DecompositionStatus, TaskStatus, TaskType};
