//! Timed audio cue sequencing: plan parsing, path interning, and the
//! decision machine that drives a timer run.
use vstd::prelude::*;

pub mod basic;
pub mod errors;
pub mod plan;
pub mod search;
pub mod string_store;
pub mod timer;

pub use basic::{basic_plan, default_volume};
pub use errors::TimerError;
pub use plan::{parse_line, parse_lines, ImportPair, ParsedLine};
pub use string_store::StringStore;
pub use timer::{Action, Event, Phase, Timer, TimerPair, TICK_MILLIS};

verus! {

} // verus!
