//! Composable modules with an explicit, verified lifecycle.
//!
//! The library holds the decisions of the Microde runtime: how modules are
//! registered and wired, in which order they go through their lifecycle
//! phases, how relationships between modules are resolved and how failures
//! are ranked in the final execution result.

mod composition;
mod dependency_graph;
mod error;
mod error_record;
mod execution_result;
mod graph_order;
mod lifecycle;
mod lifecycle_context;
mod lifecycle_laws;
mod lifecycle_order;
mod registry;
mod relationship;
mod stop_request;
mod text;
mod types;

pub use composition::{ModuleHandle, ModuleHandleIdentity, ModuleInstanceId};
pub use dependency_graph::{DependencyGraph, GraphView};
pub use error::MicrodeError;
pub use error_record::{ErrorPriority, ErrorRecorder};
pub use execution_result::MicrodeExecutionResult;
pub use lifecycle::{
    ensure_stoppable, Lifecycle, LifecyclePhase, LifecycleStep, LifecycleView, ModuleStage, StopLatch,
};
pub use lifecycle_context::{ResolvedRelationship, RunContext, RunRelationship, SetupContext};
pub use lifecycle_order::{lifecycle_positions, permute};
pub use registry::{
    Binding, BindingView, Composition, CompositionView, ModuleRecord, RecordView, Wiring,
};
pub use relationship::{
    Dependency, DescriptorView, ErasedFactory, ErasedValue, ModuleType, Port, Provider, Reference,
    RelationshipDescriptor, RelationshipKind, RelationshipSlot, TypedFactory,
};
pub use stop_request::MicrodeStopRequest;
pub use types::{MicrodeApplicationState, ModuleKind};
