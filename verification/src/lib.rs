//! A render-graph compiler and per-frame execution engine.
//!
//! A frame's work is described once as a named, directed, acyclic graph of
//! resource descriptions and logical operations. Compiling that description
//! yields a runtime graph of per-frame actions together with a registry of
//! the concrete objects the device layer must create. Each frame, the
//! execution engine walks the runtime graph and emits the ordered command
//! stream to record, while the synchronization layer gates the reuse of
//! double-buffered frame resources on observed completion of earlier work.

pub mod graph;
pub mod builder;
pub mod compile;
pub mod runtime;
pub mod sync;
pub mod cull;
pub mod present;
pub mod dot;
