//! The scheduler core: paged task registry, per-task state machine,
//! dependency resolution, and the worker sweep.

pub mod page;
pub mod prv;
pub mod data;
