//! A cross-store overlay: one graph, at read time, over a home engine and foreign engines that each
//! keep their own store.
//!
//! The overlay owns only the edges between the stores. [`XedgeStore`] holds these cross-edges, each
//! stamped with the epochs that its two ids had when it was written. [`OverlayReader`] reads the
//! home engine and folds in, along the cross-edges whose stamps are still live, what the foreign
//! engines hold. So a question that starts at a code symbol reaches the document that is about it,
//! though the two share no word. Search and ranking stay with the home engine.
//!
//! - [`xedge`]: cross-edges; [`sql`] and [`store`]: the database that holds them.
//! - [`graph`]: nodes, edges and subgraphs; [`engine`]: the engines behind an overlay.
//! - [`overlay`]: the reader.
//! - [`store_laws`], [`reply_laws`], [`overlay_laws`], [`listing_laws`], [`neighbor_laws`],
//!   [`traversal_laws`], [`outcome_laws`], [`budget_laws`], [`depth_laws`]: what holds of all this
//!   together.
//! - [`text`], [`error`]: helpers.

mod bag;
pub mod budget_laws;
pub mod depth_laws;
pub mod engine;
pub mod error;
pub mod graph;
pub mod listing_laws;
pub mod neighbor_laws;
pub mod outcome_laws;
pub mod overlay;
pub mod overlay_laws;
pub mod reply_laws;
pub mod sql;
pub mod store;
pub mod store_laws;
pub mod text;
pub mod traversal_laws;
pub mod xedge;

pub use engine::{ForeignEngine, ForeignPools, HomeEngine, StoreCapabilities};
pub use error::Error;
pub use graph::{
    BuiltinKind, Depths, Direction, Edge, EdgeKind, Node, Provenance, Subgraph, SymbolId,
};
pub use overlay::{CrossBudget, OverlayReader};
pub use sql::Score;
pub use store::{XedgeReader, XedgeStore};
pub use xedge::{Endpoint, XEdge, ESTATE_ENGINE, MEMORY_EPOCH, XEDGE_SCHEMA_VERSION};
