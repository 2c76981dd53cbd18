//! A minimal frame-graph executor for a real-time rendering loop.
//!
//! Two independent components, composed once per frame tick by a driver:
//!
//! * [`graph`] — a registry of GPU work nodes with directed dependency
//!   edges, and a deterministic topological ordering used to execute them.
//! * [`scheduler`] — a fixed ring of frame slots paced by a monotonically
//!   increasing completion marker, so that a slot is never reused before
//!   the GPU has finished its previous frame.

pub mod graph;
pub mod order;
pub mod scheduler;
