//! Input polling, change detection, and event dispatch for panels built from
//! port-expander chips.
//!
//! The crate holds the decision logic of the engine: diffing register
//! snapshots into bit-transition events, computing output register words from
//! requested bit changes, planning device register setup, parsing the
//! line-oriented simulation protocol and the handler binding records, routing
//! events to handlers, and the self-terminating blink state machine. Bus
//! transactions, audio playback, threads and timers live with the embedding
//! program, which feeds plain values in and carries the decisions out.

use vstd::prelude::*;

pub mod bindfiles;
pub mod bitevents;
pub mod input;
pub mod mcp23017;
pub mod parse;
pub mod protocol;
pub mod simulation;
pub mod utility;

verus! {

/// Name under which the fallback handler is registered.
pub const DEFAULT_NAME: &'static str = "default";

} // verus!
