//! A small interactive-canvas world: draggable dots identified by integer
//! ids, a pointer-driven drag state machine, and a bulk-load path that
//! replaces the whole dot store from a serialized record list.
//!
//! The library is pure state logic: pointer handlers return the
//! synchronization requests and draw operations that a host is expected to
//! carry out, and never perform any I/O themselves.

pub mod dot;
pub mod parse;
pub mod universe;
