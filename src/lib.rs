//! A compiler for a compact music notation: note strings are split into
//! tokens, resolved into notes with octave and duration carried from token to
//! token, and laid out as a schedule of frequency changes for one voice.
use vstd::prelude::*;

pub mod notation;
pub mod pitch;
pub mod resolver;
pub mod schedule;
pub mod song;
pub mod story;

verus! {

/// Why a voice does not compile.
#[derive(Debug, Clone, Copy, PartialEq, Eq, Structural)]
pub enum CompileError {
    /// A token does not follow `<letters><, or '>?<digits>?<.>?`.
    Malformed,
    /// The letters of a token are not a known pitch-class spelling.
    UnknownPitch,
    /// The duration digits are zero or do not fit in 64 bits.
    InvalidDuration,
    /// The voice's time grid or its total length does not fit in 64 bits.
    ScheduleOverflow,
}

} // verus!
