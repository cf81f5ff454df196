//! Translates a stream of musical note-on/note-off events into timed,
//! strictly monophonic keyboard key presses for a timing-sensitive consumer.

use vstd::prelude::*;

pub mod engine;
pub mod error;
pub mod keyboard;
pub mod mapping;
pub mod midi;
pub mod scheduler;

verus! {

} // verus!
