//! taodb: a temporal-spatial memory engine for LLM agents.
//!
//! This crate holds the engine's logic: checksummed record framing, the
//! ordered timeline keys, the float-free parts of the memory model, the
//! store's cache and sense-index rules, the three recall layers (constraints,
//! senses, narrative), tenant bookkeeping and the request rules of the HTTP
//! interface.
pub mod api;
pub mod crc;
pub mod memorize;
pub mod model;
pub mod rank;
pub mod recall;
pub mod sensory;
pub mod store;
pub mod tenant;
pub mod text;
pub mod timeline;

pub use model::{
    BodyState, ConstraintRecallRequest, ContainerStats, MemoryMeta, MemoryType,
    NarrativeRecallRequest, SensoryRecallRequest, TimeStamp, TopoRel,
};
pub use recall::{derive_narrative_anchor, recall_constraints, recall_sensory};
pub use tenant::{ProjectConfig, Tenant, TenantManager, UserConfig};

use vstd::prelude::*;

verus! {

} // verus!
