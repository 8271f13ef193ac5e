//! An incremental-update scheduler.
//!
//! Application state is split into named fields (identifiers). Callbacks
//! declare which identifiers they read and which they write, and whether they
//! must run on the server. When identifiers change, the scheduler works out
//! which callbacks have to run, in which order, and how the run splits into a
//! local phase, one remote round trip, and a second local phase.

pub mod batch;
pub mod callback;
pub mod context;
pub mod execution;
pub mod executor;
pub mod graph;
pub mod plan;
pub mod planner;
pub mod registry;
pub mod toposort;

pub use callback::{
    ApplyUpdates, Callback, CallbackId, CallbackType, CallbackWithId, Input, Output, OutputState,
    StateCallback, StateCallbackWithId, StateTypes, ValueToIdentifier,
};
pub use registry::CallbacksContainer;
pub use plan::{ExecutionPlan, Phase};
pub use executor::Executor;
pub use context::{Context, ContextManager};
pub use execution::{ArgState, ExecutionArg};
pub use batch::{BatchStep, RemoteCall, UpdateBatch};
