//! The note resolver: a fold over the tokens of one voice that carries the
//! last semitone, the last octave and the last duration from token to token.
use vstd::prelude::*;
use crate::CompileError;
use vstd::string::StringSliceAdditionalSpecFns;
use crate::notation::{
    contents,    digits_value, is_digit, parse_digits, parse_token, split_tokens, token_parts, words,
    OctaveMark,
};
use crate::pitch::{lemma_pitch_in_octave, base_frequency, freq_quarters, octave_factor, pitch_of, resolve_pitch, OCTAVES};

verus! {

/// The highest octave index.
pub const TOP_OCTAVE: u64 = 4;

/// What the resolver carries from one token to the next. A duration is
/// `1 / digit` of the unit length, times 3/2 when dotted.
#[derive(Debug, Clone, Copy, PartialEq, Eq, Structural)]
pub struct ResolverState {
    pub semitone: u64,
    pub octave: u64,
    pub digit: u64,
    pub dotted: bool,
}

/// One resolved note: its frequency in quarters of the base table's unit
/// (zero for a rest) and its duration as `1 / digit` of the unit length,
/// times 3/2 when dotted.
#[derive(Debug, Clone, Copy, PartialEq, Eq, Structural)]
pub struct ResolvedNote {
    pub frequency: u64,
    pub digit: u64,
    pub dotted: bool,
}

impl ResolverState {
    pub open spec fn wf(self) -> bool {
        self.semitone < 12 && self.octave < OCTAVES && self.digit >= 1
    }
}

/// The state a voice starts from: semitone 6, the reference octave, and a
/// quarter of the unit length.
pub open spec fn initial_state() -> ResolverState {
    ResolverState { semitone: 6, octave: 2, digit: 4, dotted: false }
}

/// The rest's name, `r`.
pub open spec fn is_rest(name: Seq<u8>) -> bool {
    name.len() == 1 && name[0] == 114
}

/// The octave after the continuity rule: a step up of more than a tritone
/// from the last semitone moves one octave up when the new index is above 6,
/// else one down, clamped to the five octaves.
pub open spec fn continued_octave(octave: int, last: int, index: int) -> int {
    if index - last > 6 {
        if index > 6 {
            if octave < 4 { octave + 1 } else { 4 }
        } else {
            if octave > 0 { octave - 1 } else { 0 }
        }
    } else {
        octave
    }
}

/// The octave after an explicit mark, clamped to the five octaves.
pub open spec fn marked_octave(octave: int, mark: OctaveMark) -> int {
    match mark {
        OctaveMark::Keep => octave,
        OctaveMark::Down => if octave > 0 { octave - 1 } else { 0 },
        OctaveMark::Up => if octave < 4 { octave + 1 } else { 4 },
    }
}

/// One step of the fold: the state after a token and the note it resolves
/// to. Errors come in the order grammar, pitch, duration.
pub open spec fn step(st: ResolverState, t: Seq<u8>) -> Result<
    (ResolverState, ResolvedNote),
    CompileError,
> {
    match token_parts(t) {
        None => Err(CompileError::Malformed),
        Some((name, mark, digits, dotted)) => {
            if !is_rest(name) && pitch_of(name) is None {
                Err(CompileError::UnknownPitch)
            } else if digits.len() > 0 && (digits_value(digits) == 0 || digits_value(digits)
                > u64::MAX) {
                Err(CompileError::InvalidDuration)
            } else {
                let digit = if digits.len() > 0 { digits_value(digits) as u64 } else { st.digit };
                let dot = if digits.len() > 0 { dotted } else { st.dotted };
                if is_rest(name) {
                    Ok((
                        ResolverState { digit, dotted: dot, ..st },
                        ResolvedNote { frequency: 0, digit, dotted: dot },
                    ))
                } else {
                    let index = pitch_of(name)->0;
                    let octave = marked_octave(
                        continued_octave(st.octave as int, st.semitone as int, index as int),
                        mark,
                    );
                    Ok((
                        ResolverState { semitone: index as u64, octave: octave as u64, digit, dotted: dot },
                        ResolvedNote {
                            frequency: freq_quarters(index, octave as nat) as u64,
                            digit,
                            dotted: dot,
                        },
                    ))
                }
            }
        },
    }
}

/// The fold over a sequence of tokens: the final state and the notes, or the
/// first error.
pub open spec fn resolve_all(toks: Seq<Seq<u8>>) -> Result<
    (ResolverState, Seq<ResolvedNote>),
    CompileError,
>
    decreases toks.len(),
{
    if toks.len() == 0 {
        Ok((initial_state(), Seq::empty()))
    } else {
        match resolve_all(toks.drop_last()) {
            Err(e) => Err(e),
            Ok((st, notes)) => match step(st, toks.last()) {
                Err(e) => Err(e),
                Ok((st2, n)) => Ok((st2, notes.push(n))),
            },
        }
    }
}

/// The notes of a note string, or the first error.
pub open spec fn notes_of(s: Seq<u8>) -> Result<Seq<ResolvedNote>, CompileError> {
    match resolve_all(words(s)) {
        Ok((_, notes)) => Ok(notes),
        Err(e) => Err(e),
    }
}

/// Resolves one token from a state.
pub fn resolve_token(st: ResolverState, t: &[u8]) -> (r: Result<(ResolverState, ResolvedNote), CompileError>)
    requires
        st.wf(),
    ensures
        r == step(st, t@),
        r matches Ok((st2, n)) ==> st2.wf() && n.digit >= 1,
{
    let tk = match parse_token(t) {
        None => return Err(CompileError::Malformed),
        Some(tk) => tk,
    };
    let rest = tk.name.len() == 1 && tk.name[0] == 114;
    let mut index: u64 = 0;
    if !rest {
        match resolve_pitch(tk.name.as_slice()) {
            Ok(i) => index = i,
            Err(e) => return Err(e),
        }
    }
    let mut digit = st.digit;
    let mut dotted = st.dotted;
    if tk.digits.len() > 0 {
        match parse_digits(tk.digits.as_slice()) {
            Some(v) if v > 0 => {
                digit = v;
                dotted = tk.dotted;
            },
            _ => return Err(CompileError::InvalidDuration),
        }
    }
    if rest {
        return Ok((ResolverState { digit, dotted, ..st }, ResolvedNote { frequency: 0, digit, dotted }));
    }
    let mut octave = st.octave;
    if index > st.semitone && index - st.semitone > 6 {
        if index > 6 {
            if octave < TOP_OCTAVE {
                octave = octave + 1;
            }
        } else if octave > 0 {
            octave = octave - 1;
        }
    }
    match tk.mark {
        OctaveMark::Down => {
            if octave > 0 {
                octave = octave - 1;
            }
        },
        OctaveMark::Up => {
            if octave < TOP_OCTAVE {
                octave = octave + 1;
            }
        },
        OctaveMark::Keep => {},
    }
    let bf = base_frequency(index);
    let of = octave_factor(octave);
    assert(bf * of <= 493 * 16) by (nonlinear_arith)
        requires
            bf <= 493,
            of <= 16,
    ;
    let frequency = bf * of;
    Ok((ResolverState { semitone: index, octave, digit, dotted }, ResolvedNote { frequency, digit, dotted }))
}

/// Once the fold fails on a prefix, it fails with the same error on the
/// whole sequence.
pub proof fn lemma_error_stays(toks: Seq<Seq<u8>>, i: int)
    requires
        0 <= i <= toks.len(),
        resolve_all(toks.take(i)) is Err,
    ensures
        resolve_all(toks) == resolve_all(toks.take(i)),
    decreases toks.len(),
{
    if i == toks.len() {
        assert(toks.take(i) =~= toks);
    } else {
        assert(toks.drop_last().take(i) =~= toks.take(i));
        lemma_error_stays(toks.drop_last(), i);
    }
}

/// Token `i` is where the fold over the tokens of `b` first fails; `None`
/// says that it never fails.
pub open spec fn fails_at(b: Seq<u8>, token: Option<usize>) -> bool {
    match token {
        None => notes_of(b) is Ok,
        Some(i) => i < words(b).len() && resolve_all(words(b).take(i as int)) is Ok && resolve_all(
            words(b).take(i + 1),
        ) is Err,
    }
}

/// Resolves every token of a note string, in order, from the initial state.
pub fn resolve_notes(notes: &str) -> (r: Result<Vec<ResolvedNote>, CompileError>)
    ensures
        match r {
            Ok(v) => notes_of(notes.spec_bytes()) == Ok::<Seq<ResolvedNote>, CompileError>(v@)
                && forall|k: int| 0 <= k < v@.len() ==> (#[trigger] v@[k]).digit >= 1,
            Err(e) => notes_of(notes.spec_bytes()) == Err::<Seq<ResolvedNote>, CompileError>(e),
        },
{
    match resolve_located(notes) {
        Ok(v) => Ok(v),
        Err((e, _)) => Err(e),
    }
}

/// The index of the first token of a note string that fails to resolve, if
/// any token does.
pub fn failing_token(notes: &str) -> (r: Option<usize>)
    ensures
        fails_at(notes.spec_bytes(), r),
{
    match resolve_located(notes) {
        Ok(_) => None,
        Err((_, i)) => Some(i),
    }
}

fn resolve_located(notes: &str) -> (r: Result<Vec<ResolvedNote>, (CompileError, usize)>)
    ensures
        match r {
            Ok(v) => notes_of(notes.spec_bytes()) == Ok::<Seq<ResolvedNote>, CompileError>(v@)
                && forall|k: int| 0 <= k < v@.len() ==> (#[trigger] v@[k]).digit >= 1,
            Err((e, i)) => notes_of(notes.spec_bytes()) == Err::<Seq<ResolvedNote>, CompileError>(e)
                && fails_at(notes.spec_bytes(), Some(i)),
        },
{
    let bytes = notes.as_bytes();
    let toks = split_tokens(bytes);
    let ghost ws = words(bytes@);
    let mut st = ResolverState { semitone: 6, octave: 2, digit: 4, dotted: false };
    let mut out: Vec<ResolvedNote> = Vec::new();
    let mut i: usize = 0;
    assert(ws.take(0) =~= Seq::<Seq<u8>>::empty());
    while i < toks.len()
        invariant
            contents(toks@) == ws,
            ws == words(notes.spec_bytes()),
            0 <= i <= toks.len(),
            st.wf(),
            forall|k: int| 0 <= k < out@.len() ==> (#[trigger] out@[k]).digit >= 1,
            resolve_all(ws.take(i as int)) == Ok::<(ResolverState, Seq<ResolvedNote>), CompileError>((st, out@)),
        decreases toks.len() - i,
    {
        assert(ws.take(i + 1).drop_last() =~= ws.take(i as int));
        assert(ws.take(i + 1).last() == toks@[i as int]@);
        match resolve_token(st, toks[i].as_slice()) {
            Ok((st2, n)) => {
                st = st2;
                out.push(n);
            },
            Err(e) => {
                proof {
                    let pre = ws.take(i + 1);
                    assert(pre.len() > 0);
                    assert(resolve_all(pre) == Err::<(ResolverState, Seq<ResolvedNote>), CompileError>(e));
                    lemma_error_stays(ws, i + 1);
                }
                return Err((e, i));
            },
        }
        i = i + 1;
    }
    assert(ws.take(i as int) =~= ws);
    Ok(out)
}

/// A step from a well-formed state reaches a well-formed state.
pub proof fn lemma_step_wf(st: ResolverState, t: Seq<u8>)
    requires
        st.wf(),
    ensures
        step(st, t) matches Ok((st2, n)) ==> st2.wf() && n.digit >= 1,
{
    if let Some((name, mark, digits, dotted)) = token_parts(t) {
        lemma_pitch_in_octave(name);
    }
}

/// Whatever the tokens, the octave index stays within the five octaves (and
/// the semitone within one octave, and the duration positive) after every
/// token.
pub proof fn lemma_octave_in_range(toks: Seq<Seq<u8>>)
    ensures
        resolve_all(toks) matches Ok((st, _)) ==> st.wf() && st.octave <= 4,
    decreases toks.len(),
{
    if toks.len() > 0 {
        lemma_octave_in_range(toks.drop_last());
        if let Ok((st, _)) = resolve_all(toks.drop_last()) {
            lemma_step_wf(st, toks.last());
        }
    }
}

/// The state carries the duration of the last resolved note.
pub proof fn lemma_state_keeps_duration(toks: Seq<Seq<u8>>)
    ensures
        resolve_all(toks) matches Ok((st, notes)) ==> (notes.len() > 0 ==> st.digit
            == notes.last().digit && st.dotted == notes.last().dotted) && notes.len()
            == toks.len(),
    decreases toks.len(),
{
    if toks.len() > 0 {
        lemma_state_keeps_duration(toks.drop_last());
    }
}

/// A token without duration digits lasts as long as the note before it,
/// whether that note was a pitch or a rest; the first note falls back to the
/// initial quarter of the unit length.
pub proof fn lemma_duration_inherited(toks: Seq<Seq<u8>>, t: Seq<u8>)
    requires
        token_parts(t) matches Some((_, _, digits, _)) && digits.len() == 0,
        resolve_all(toks.push(t)) is Ok,
    ensures
        ({
            let (_, before) = resolve_all(toks)->Ok_0;
            let (_, after) = resolve_all(toks.push(t))->Ok_0;
            &&& after.len() == before.len() + 1
            &&& before.len() > 0 ==> after.last().digit == before.last().digit
                && after.last().dotted == before.last().dotted
            &&& before.len() == 0 ==> after.last().digit == 4 && !after.last().dotted
        }),
{
    assert(toks.push(t).drop_last() =~= toks);
    lemma_state_keeps_duration(toks);
}

/// A token with duration digits `v` lasts `1 / v` of the unit length, and
/// exactly half as long again when it is dotted: its note is `(v, dotted)`.
/// A dot never touches an inherited duration, since a dot without digits is
/// malformed.
pub proof fn lemma_dotted_duration(st: ResolverState, t: Seq<u8>)
    requires
        step(st, t) is Ok,
    ensures
        ({
            let (_, n) = step(st, t)->Ok_0;
            let (_, _, digits, dotted) = token_parts(t)->0;
            &&& digits.len() > 0 ==> n.digit == digits_value(digits) && n.dotted == dotted
            &&& digits.len() == 0 ==> !dotted && n.digit == st.digit && n.dotted == st.dotted
        }),
{
}

} // verus!
