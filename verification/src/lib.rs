//! An in-memory hypergraph store with a spiking-neural overlay.
//!
//! Entities (nodes) are linked by named hyperedges that may join any
//! non-empty group of nodes.  A neural layer assigns each node an
//! activation scalar and each edge a conductance scalar; inserts and
//! queries drive spike propagation that reshapes these scalars, so
//! repeated traversals of a path strengthen it and unused paths decay.
//!
//! All scalar quantities (activations, conductances, strengths, scores,
//! decay rates) are fixed-point numbers: an `i64`/`u64` holding the real
//! value scaled by [`fixed::ONE`].  Timestamps are milliseconds since the
//! Unix epoch, and identifiers are opaque 128-bit values.

pub mod coordinator;
pub mod errors;
pub mod fixed;
pub mod frontend;
pub mod hypergraph;
pub mod network;
pub mod neural;
pub mod traverse;

pub use coordinator::{Database, DatabaseConfig, DatabaseStats};
pub use errors::GraphError;
pub use network::{AlignmentType, CentralityMeasures, EffectType, GoalAlignment, NetworkAnalyzer, NetworkEffect};
pub use neural::{NeuralState, NeuralStats, SpikeEvent, SpikeProcessor, SynapticWeight};
pub use fixed::ONE;
pub use fixed::MAX_LEVEL;
pub use frontend::StaticFileServer;
pub use hypergraph::{EdgeType, HyperEdge, HyperGraph, HyperNode, PropEntry};
