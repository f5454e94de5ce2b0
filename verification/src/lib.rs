//! Countdown events that fire once enough agents confirm, and campaigns of
//! events ordered by their dependencies.
//!
//! The engine keeps events and campaigns in memory and decides everything:
//! who answered what, which events fire or are missed at a given instant,
//! how deferrals extend a countdown, and in which order a campaign's events
//! run.  Instants and durations are counted in nanoseconds; identifiers are
//! 128-bit numbers (the value of a UUID).

pub mod campaign;
pub mod engine;
pub mod ids;
pub mod input;
pub mod kahn;
pub mod rows;
pub mod store;
pub mod text;
pub mod types;

pub use campaign::Campaign;
pub use engine::Engine;
pub use types::{AgentId, Attendee, EventKind, ResponseStatus, TMinusError, TMinusEvent, TickResult};
