//! The pitch table: pitch-class spellings, their semitone indices, the
//! reference frequencies of one octave and the five octave factors.
use vstd::prelude::*;
use crate::CompileError;

verus! {

/// Number of octaves a note can sound in; the reference octave is index 2.
pub const OCTAVES: u64 = 5;

/// Frequencies are carried in quarters of the unit of the base table, so that
/// the lowest octave (a quarter of the reference octave) stays integral.
pub const FREQ_SCALE: u64 = 4;

/// Semitone index of a pitch-class spelling (ASCII bytes: a = 97 ... s = 115), if it is one of the seventeen
/// recognised ones (enharmonic spellings share an index).
pub open spec fn pitch_of(s: Seq<u8>) -> Option<nat> {
    if s.len() == 1 {
        if s[0] == 99 { Some(0) }
        else if s[0] == 100 { Some(2) }
        else if s[0] == 101 { Some(4) }
        else if s[0] == 102 { Some(5) }
        else if s[0] == 103 { Some(7) }
        else if s[0] == 97 { Some(9) }
        else if s[0] == 98 { Some(11) }
        else { None }
    } else if s.len() == 2 {
        if s[0] == 101 && s[1] == 115 { Some(3) }
        else if s[0] == 97 && s[1] == 115 { Some(8) }
        else { None }
    } else if s.len() == 3 {
        if s[1] != 101 && s[1] != 105 || s[2] != 115 { None }
        else if s[1] == 105 {
            if s[0] == 99 { Some(1) }
            else if s[0] == 100 { Some(3) }
            else if s[0] == 102 { Some(6) }
            else if s[0] == 103 { Some(8) }
            else if s[0] == 97 { Some(10) }
            else { None }
        } else {
            if s[0] == 100 { Some(1) }
            else if s[0] == 103 { Some(6) }
            else if s[0] == 98 { Some(10) }
            else { None }
        }
    } else {
        None
    }
}

/// Reference frequency of a semitone index in the reference octave.
pub open spec fn base_freq(i: nat) -> nat {
    if i == 0 { 261 }
    else if i == 1 { 277 }
    else if i == 2 { 293 }
    else if i == 3 { 311 }
    else if i == 4 { 329 }
    else if i == 5 { 349 }
    else if i == 6 { 369 }
    else if i == 7 { 392 }
    else if i == 8 { 415 }
    else if i == 9 { 440 }
    else if i == 10 { 466 }
    else { 493 }
}

/// The octave factor in quarters: 1/4, 1/2, 1, 2 and 4 times the reference
/// octave, which is index 2.
pub open spec fn octave_quarters(o: nat) -> nat {
    if o == 0 { 1 } else if o == 1 { 2 } else if o == 2 { 4 } else if o == 3 { 8 } else { 16 }
}

/// Frequency, in quarters, of semitone `i` in octave `o`.
pub open spec fn freq_quarters(i: nat, o: nat) -> nat {
    base_freq(i) * octave_quarters(o)
}

/// Every recognised spelling has an index within one octave.
pub proof fn lemma_pitch_in_octave(s: Seq<u8>)
    ensures
        pitch_of(s) matches Some(i) ==> i < 12,
{
}

/// Looks up the semitone index of a pitch-class spelling.
pub fn resolve_pitch(name: &[u8]) -> (r: Result<u64, CompileError>)
    ensures
        match r {
            Ok(i) => pitch_of(name@) == Some(i as nat),
            Err(e) => e == CompileError::UnknownPitch && pitch_of(name@) is None,
        },
{
    match lookup_pitch(name) {
        Some(i) => Ok(i),
        None => Err(CompileError::UnknownPitch),
    }
}

fn lookup_pitch(name: &[u8]) -> (r: Option<u64>)
    ensures
        r is Some <==> pitch_of(name@) is Some,
        r matches Some(i) ==> pitch_of(name@) == Some(i as nat),
{
    let n = name.len();
    if n == 1 {
        let c = name[0];
        if c == 99 { Some(0) }
        else if c == 100 { Some(2) }
        else if c == 101 { Some(4) }
        else if c == 102 { Some(5) }
        else if c == 103 { Some(7) }
        else if c == 97 { Some(9) }
        else if c == 98 { Some(11) }
        else { None }
    } else if n == 2 {
        if name[1] != 115 { None }
        else if name[0] == 101 { Some(3) }
        else if name[0] == 97 { Some(8) }
        else { None }
    } else if n == 3 {
        let c = name[0];
        let m = name[1];
        if m != 101 && m != 105 || name[2] != 115 { None }
        else if m == 105 {
            if c == 99 { Some(1) }
            else if c == 100 { Some(3) }
            else if c == 102 { Some(6) }
            else if c == 103 { Some(8) }
            else if c == 97 { Some(10) }
            else { None }
        } else {
            if c == 100 { Some(1) }
            else if c == 103 { Some(6) }
            else if c == 98 { Some(10) }
            else { None }
        }
    } else {
        None
    }
}

/// The reference frequency of a semitone index.
pub fn base_frequency(index: u64) -> (r: u64)
    requires
        index < 12,
    ensures
        r == base_freq(index as nat),
        r <= 493,
{
    let table: [u64; 12] = [261, 277, 293, 311, 329, 349, 369, 392, 415, 440, 466, 493];
    table[index as usize]
}

/// The factor, in quarters, of an octave index.
pub fn octave_factor(octave: u64) -> (r: u64)
    requires
        octave < OCTAVES,
    ensures
        r == octave_quarters(octave as nat),
        r <= 16,
{
    let table: [u64; 5] = [1, 2, 4, 8, 16];
    table[octave as usize]
}

/// Some entry of the table has semitone index `i`.
pub open spec fn lists_index(table: Seq<(Vec<u8>, u64)>, i: nat) -> bool {
    exists|k: int| 0 <= k < table.len() && #[trigger] table[k].1 == i
}

/// The pitch table as pairs of spelling and semitone index: seventeen
/// distinct spellings, every index of the octave among them, and only the
/// indices 1, 3, 6, 8 and 10 spelled twice.
pub fn note_indices() -> (r: Vec<(Vec<u8>, u64)>)
    ensures
        r.len() == 17,
        forall|k: int| 0 <= k < r.len() ==> pitch_of(#[trigger] r[k].0@) == Some(r[k].1 as nat),
        forall|j: int, k: int| 0 <= j < k < r.len() ==> r[j].0@ != r[k].0@,
        forall|i: nat| i < 12 ==> #[trigger] lists_index(r@, i),
        forall|j: int, k: int| 0 <= j < k < r.len() && r[j].1 == r[k].1 ==> {
            let i = r[j].1;
            i == 1 || i == 3 || i == 6 || i == 8 || i == 10
        },
{
    let mut r: Vec<(Vec<u8>, u64)> = Vec::new();
    r.push((vec![99], 0));
    r.push((vec![99, 105, 115], 1));
    r.push((vec![100, 101, 115], 1));
    r.push((vec![100], 2));
    r.push((vec![100, 105, 115], 3));
    r.push((vec![101, 115], 3));
    r.push((vec![101], 4));
    r.push((vec![102], 5));
    r.push((vec![102, 105, 115], 6));
    r.push((vec![103, 101, 115], 6));
    r.push((vec![103], 7));
    r.push((vec![103, 105, 115], 8));
    r.push((vec![97, 115], 8));
    r.push((vec![97], 9));
    r.push((vec![97, 105, 115], 10));
    r.push((vec![98, 101, 115], 10));
    r.push((vec![98], 11));
    assert forall|j: int, k: int| 0 <= j < k < r.len() implies r[j].0@ != r[k].0@ by {
        let (a, b) = (r[j].0@, r[k].0@);
        assert(a.len() != b.len() || a[0] != b[0] || a[1] != b[1]);
    }
    assert(r[0].1 == 0 && r[1].1 == 1 && r[3].1 == 2 && r[4].1 == 3 && r[6].1 == 4 && r[7].1 == 5
        && r[8].1 == 6 && r[10].1 == 7 && r[11].1 == 8 && r[13].1 == 9 && r[14].1 == 10 && r[16].1
        == 11);
    r
}

/// The pitch table knows exactly the seventeen spellings c, cis, des, d, dis,
/// es, e, f, fis, ges, g, gis, as, a, ais, bes and b, and no other string.
pub proof fn lemma_seventeen_spellings(s: Seq<u8>)
    ensures
        pitch_of(s) is Some <==> {
        ||| s == seq![99u8]
        ||| s == seq![99u8, 105, 115]
        ||| s == seq![100u8, 101, 115]
        ||| s == seq![100u8]
        ||| s == seq![100u8, 105, 115]
        ||| s == seq![101u8, 115]
        ||| s == seq![101u8]
        ||| s == seq![102u8]
        ||| s == seq![102u8, 105, 115]
        ||| s == seq![103u8, 101, 115]
        ||| s == seq![103u8]
        ||| s == seq![103u8, 105, 115]
        ||| s == seq![97u8, 115]
        ||| s == seq![97u8]
        ||| s == seq![97u8, 105, 115]
        ||| s == seq![98u8, 101, 115]
        ||| s == seq![98u8]
        },
{
    if s.len() == 1 {
        assert(s =~= seq![s[0]]);
    } else if s.len() == 2 {
        assert(s =~= seq![s[0], s[1]]);
    } else if s.len() == 3 {
        assert(s =~= seq![s[0], s[1], s[2]]);
    }
}

} // verus!
