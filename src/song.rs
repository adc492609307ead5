//! A voice of a song and its compilation from note string to schedule.
use vstd::prelude::*;
use vstd::string::StringSliceAdditionalSpecFns;
use vstd::utf8::encode_utf8;
use crate::CompileError;
use crate::resolver::{failing_token, fails_at, notes_of, resolve_notes};
use crate::schedule::{grid, schedule_entries, schedule_voice, total_ticks, Schedule};

verus! {

/// One voice of a song: the instrument it names (reserved) and its notes.
#[derive(Debug, Clone)]
pub struct SongVoice {
    pub instrument: String,
    pub notes: String,
}

/// Whether the grid and the total length of the notes fit in 64 bits.
pub open spec fn fits(notes: Seq<crate::resolver::ResolvedNote>) -> bool {
    grid(notes) <= u64::MAX && total_ticks(notes, grid(notes)) <= u64::MAX
}

/// What compiling the note string with bytes `b` gives: the resolver's
/// error, or the schedule of the resolved notes on their grid, or
/// `ScheduleOverflow` where that grid or length does not fit in 64 bits.
pub open spec fn compiles_to(b: Seq<u8>, r: Result<Schedule, CompileError>) -> bool {
    match notes_of(b) {
        Err(e) => r == Err::<Schedule, CompileError>(e),
        Ok(ns) => if fits(ns) {
            r matches Ok(s) && s.ticks_per_unit == grid(ns) && s.entries@ == schedule_entries(
                ns,
                grid(ns),
            )
        } else {
            r == Err::<Schedule, CompileError>(CompileError::ScheduleOverflow)
        },
    }
}

/// Compiles a note string into the schedule of one voice. A note string that
/// fails to resolve yields its error and no schedule at all.
pub fn compile_notes(notes: &str) -> (r: Result<Schedule, CompileError>)
    ensures
        compiles_to(notes.spec_bytes(), r),
{
    let resolved = match resolve_notes(notes) {
        Ok(v) => v,
        Err(e) => return Err(e),
    };
    match schedule_voice(&resolved) {
        Some(s) => Ok(s),
        None => Err(CompileError::ScheduleOverflow),
    }
}

impl SongVoice {
    /// Compiles this voice's notes; see `compile_notes`.
    pub fn compile(&self) -> (r: Result<Schedule, CompileError>)
        ensures
            compiles_to(encode_utf8(self.notes@), r),
    {
        compile_notes(self.notes.as_str())
    }
}

/// Why a song does not compile: the voice that failed, the token of that
/// voice that failed to resolve (`None` where its notes resolved and the
/// schedule overflowed), and the error.
#[derive(Debug)]
pub struct VoiceFailure {
    pub voice: usize,
    pub token: Option<usize>,
    pub error: CompileError,
}

/// The note string with bytes `b` compiles.
pub open spec fn compiles(b: Seq<u8>) -> bool {
    notes_of(b) matches Ok(ns) && fits(ns)
}

/// Compiles every voice of a song, in order, before anything is played: all
/// the schedules, or the first voice that fails and where.
pub fn compile_voices(voices: &Vec<SongVoice>) -> (r: Result<Vec<Schedule>, VoiceFailure>)
    ensures
        match r {
            Ok(s) => s.len() == voices.len() && forall|k: int|
                0 <= k < voices.len() ==> compiles_to(
                    encode_utf8(#[trigger] voices[k].notes@),
                    Ok::<Schedule, CompileError>(s[k]),
                ),
            Err(f) => {
                &&& f.voice < voices.len()
                &&& forall|k: int| 0 <= k < f.voice ==> compiles(encode_utf8(#[trigger] voices[k].notes@))
                &&& compiles_to(encode_utf8(voices[f.voice as int].notes@), Err::<Schedule, CompileError>(f.error))
                &&& fails_at(encode_utf8(voices[f.voice as int].notes@), f.token)
            },
        },
{
    let mut out: Vec<Schedule> = Vec::new();
    let mut k: usize = 0;
    while k < voices.len()
        invariant
            0 <= k <= voices.len(),
            out.len() == k,
            forall|j: int| 0 <= j < k ==> compiles_to(
                encode_utf8(#[trigger] voices[j].notes@),
                Ok::<Schedule, CompileError>(out[j]),
            ),
        decreases voices.len() - k,
    {
        match voices[k].compile() {
            Ok(s) => out.push(s),
            Err(error) => {
                let token = failing_token(voices[k].notes.as_str());
                proof {
                    assert forall|j: int| 0 <= j < k implies compiles(encode_utf8(#[trigger] voices[j].notes@)) by {
                        assert(compiles_to(encode_utf8(voices[j].notes@), Ok::<Schedule, CompileError>(out[j])));
                    }
                }
                return Err(VoiceFailure { voice: k, token, error });
            },
        }
        k = k + 1;
    }
    Ok(out)
}

} // verus!
