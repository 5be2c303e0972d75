//! Reactive-dispatch core of an entity-component-system runtime.
//!
//! Systems subscribe to entities through an [`aspect::Aspect`] predicate,
//! maintain a live interest set as entities' component composition changes,
//! and drive periodic work over that membership.  Every lifecycle
//! notification a system forwards to its strategy is recorded in a ghost
//! log, so the contracts pin down exactly which calls are made and in
//! which order.

pub mod aspect;
pub mod entity;
pub mod entitysystem;
pub mod events;
pub mod interval;
pub mod recorder;
pub mod system;

pub use entitysystem::{BulkEntityProcess, BulkEntitySystem, EntityProcess, EntitySystem};
pub use interval::IntervalSystem;
pub use system::{Process, System};
