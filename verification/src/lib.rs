//! Core engine for interactively editing a typed graph of nodes, ports, and
//! directed connections: the data model (generational ids, graph store) and
//! the per-frame interaction reducer that turns pointer input and render-time
//! hit results into graph mutations.
//!
//! Rendering and the hosting application shell are external collaborators;
//! they exchange plain values (integer screen coordinates, hit flags, typed
//! response events) with this library.

pub mod geom;
pub mod editor;
pub mod graph;
pub mod arena;
pub mod id;
pub mod node_ui;
pub mod reducer;
pub mod response;
pub mod simple;
pub mod seq_help;
pub mod traits;
