//! Planning: from catalogue facts to the operations that bring a library into
//! its desired state, and the bookkeeping of applying them.

pub mod apply;
pub mod archive_game;
pub mod archive_planning;
pub mod collection_planning;
pub mod collection_scope;
pub mod collisions;
pub mod container_drains;
pub mod desired_state;
pub mod destinations;
pub mod error;
pub mod executor;
pub mod generator;
pub mod log;
pub mod matching;
pub mod options;
pub mod placement_planning;
pub mod rules;
pub mod source_policy;
pub mod types;

pub use types::{
    CollectionPlanStat, ContainerRebuild, CopyPlacement, MatchedRom, Operation, OperationKind,
    OperationStatus, Plan, PlanSummary, PlacementPlanCounts, RebuildEntry, SourceRef,
};
