use textadventure::notation::{parse_digits, parse_token, split_tokens, OctaveMark};
use textadventure::pitch::{base_frequency, note_indices, octave_factor, resolve_pitch};
use textadventure::resolver::{failing_token, resolve_notes, resolve_token, ResolvedNote, ResolverState};
use textadventure::schedule::{schedule_voice, ScheduleEntry};
use textadventure::song::{compile_notes, compile_voices, SongVoice};
use textadventure::CompileError;

fn note(frequency: u64, digit: u64, dotted: bool) -> ResolvedNote {
    ResolvedNote { frequency, digit, dotted }
}

fn entry(tick: u64, frequency: u64) -> ScheduleEntry {
    ScheduleEntry { tick, frequency }
}

#[test]
fn every_listed_spelling_resolves() {
    let table = [
        ("c", 0), ("cis", 1), ("des", 1), ("d", 2), ("dis", 3), ("es", 3), ("e", 4), ("f", 5),
        ("fis", 6), ("ges", 6), ("g", 7), ("gis", 8), ("as", 8), ("a", 9), ("ais", 10),
        ("bes", 10), ("b", 11),
    ];
    for (name, index) in table {
        assert_eq!(resolve_pitch(name.as_bytes()), Ok(index), "{name}");
    }
}

#[test]
fn other_spellings_are_unknown() {
    for name in ["h", "x", "ci", "ces", "is", "", "r", "C", "cis'", "bis", "fes"] {
        assert_eq!(resolve_pitch(name.as_bytes()), Err(CompileError::UnknownPitch), "{name}");
    }
}

#[test]
fn pitch_table_lists_seventeen_spellings() {
    let table = note_indices();
    assert_eq!(table.len(), 17);
    for (name, index) in &table {
        assert_eq!(resolve_pitch(name), Ok(*index));
    }
}

#[test]
fn base_table_and_octave_factors() {
    assert_eq!(base_frequency(0), 261);
    assert_eq!(base_frequency(9), 440);
    assert_eq!(base_frequency(11), 493);
    let factors: Vec<u64> = (0..5).map(octave_factor).collect();
    assert_eq!(factors, vec![1, 2, 4, 8, 16]);
}

#[test]
fn splits_on_any_whitespace() {
    let toks = split_tokens(b"  c4\te'8.\n\x0br  ");
    assert_eq!(toks, vec![b"c4".to_vec(), b"e'8.".to_vec(), b"r".to_vec()]);
    assert!(split_tokens(b"").is_empty());
    assert!(split_tokens(b" \t ").is_empty());
}

#[test]
fn token_parts_are_read() {
    let t = parse_token(b"fis,16.").unwrap();
    assert_eq!(t.name, b"fis".to_vec());
    assert_eq!(t.mark, OctaveMark::Down);
    assert_eq!(t.digits, b"16".to_vec());
    assert!(t.dotted);
    let t = parse_token(b"a'").unwrap();
    assert_eq!(t.mark, OctaveMark::Up);
    assert!(t.digits.is_empty());
    assert!(!t.dotted);
}

#[test]
fn malformed_tokens_are_refused() {
    for tok in ["c4x", "C", "4", "c.", "c,'", "c''", "c4..", ",c", "c4,"] {
        assert!(parse_token(tok.as_bytes()).is_none(), "{tok}");
        assert_eq!(resolve_notes(tok).err(), Some(CompileError::Malformed), "{tok}");
    }
}

#[test]
fn digits_parse_and_overflow() {
    assert_eq!(parse_digits(b"0"), Some(0));
    assert_eq!(parse_digits(b"007"), Some(7));
    assert_eq!(parse_digits(b"18446744073709551615"), Some(u64::MAX));
    assert_eq!(parse_digits(b"18446744073709551616"), None);
    assert_eq!(parse_digits(b""), Some(0));
}

#[test]
fn invalid_durations_are_refused() {
    assert_eq!(resolve_notes("c0").err(), Some(CompileError::InvalidDuration));
    assert_eq!(resolve_notes("c4 d99999999999999999999").err(), Some(CompileError::InvalidDuration));
}

#[test]
fn pitch_error_comes_before_duration_error() {
    assert_eq!(resolve_notes("x0").err(), Some(CompileError::UnknownPitch));
}

#[test]
fn unknown_pitch_fails_the_whole_voice() {
    assert_eq!(resolve_notes("c4 x4").err(), Some(CompileError::UnknownPitch));
    assert!(matches!(compile_notes("c4 x4"), Err(CompileError::UnknownPitch)));
    assert!(matches!(compile_notes("x4 c4 d4"), Err(CompileError::UnknownPitch)));
}

#[test]
fn first_error_wins() {
    assert_eq!(resolve_notes("c4 c. x4").err(), Some(CompileError::Malformed));
    assert_eq!(resolve_notes("c4 x4 c.").err(), Some(CompileError::UnknownPitch));
}

#[test]
fn round_trip_scale() {
    let notes = resolve_notes("c4 e4 g4 c2").unwrap();
    assert_eq!(notes, vec![note(1044, 4, false), note(1316, 4, false), note(1568, 4, false), note(1044, 2, false)]);
    let s = compile_notes("c4 e4 g4 c2").unwrap();
    assert_eq!(s.ticks_per_unit, 32);
    assert_eq!(
        s.entries,
        vec![
            entry(0, 1044), entry(7, 0),
            entry(8, 1316), entry(15, 0),
            entry(16, 1568), entry(23, 0),
            entry(24, 1044), entry(39, 0),
            entry(40, 0),
        ]
    );
    // With a unit length of 4.0, one tick is 4/32 = 0.125.
    let unit_length = 4.0_f64;
    let times: Vec<f64> = s.entries.iter().map(|e| e.tick as f64 * unit_length / s.ticks_per_unit as f64).collect();
    assert_eq!(times, vec![0.0, 0.875, 1.0, 1.875, 2.0, 2.875, 3.0, 4.875, 5.0]);
    let freqs: Vec<f64> = s.entries.iter().step_by(2).take(4).map(|e| e.frequency as f64 / 4.0).collect();
    assert_eq!(freqs, vec![261.0, 329.0, 392.0, 261.0]);
}

#[test]
fn octave_continuity_moves_up() {
    let notes = resolve_notes("c b").unwrap();
    assert_eq!(notes[0].frequency, 261 * 4);
    // b sounds in octave index 3: twice the reference.
    assert_eq!(notes[1].frequency, 493 * 8);
}

#[test]
fn octave_marks_apply_after_continuity() {
    let notes = resolve_notes("c b, c'").unwrap();
    assert_eq!(notes[1].frequency, 493 * 4);
    assert_eq!(notes[2].frequency, 261 * 8);
}

#[test]
fn octave_stays_within_five_octaves() {
    let up = resolve_notes("c' c' c' c' c' c' c' c'").unwrap();
    assert_eq!(up.last().unwrap().frequency, 261 * 16);
    let down = resolve_notes("c, c, c, c, c, c, c, c,").unwrap();
    assert_eq!(down.last().unwrap().frequency, 261);
    let jumps = resolve_notes("c b c b c b c b c b").unwrap();
    assert_eq!(jumps.last().unwrap().frequency, 493 * 16);
}

#[test]
fn duration_is_inherited_across_rests() {
    let notes = resolve_notes("c8. d r e").unwrap();
    for n in &notes {
        assert_eq!((n.digit, n.dotted), (8, true));
    }
    assert_eq!(notes[2].frequency, 0);
}

#[test]
fn first_note_defaults_to_a_quarter() {
    let notes = resolve_notes("c").unwrap();
    assert_eq!((notes[0].digit, notes[0].dotted), (4, false));
}

#[test]
fn rest_keeps_octave_state() {
    // After the rest, b is still compared with c.
    let notes = resolve_notes("c r b").unwrap();
    assert_eq!(notes[2].frequency, 493 * 8);
}

#[test]
fn dotted_note_is_half_as_long_again() {
    let s = compile_notes("c4 c4.").unwrap();
    let g = s.ticks_per_unit;
    let first = s.entries[2].tick - s.entries[0].tick;
    let second = s.entries[4].tick - s.entries[2].tick;
    assert_eq!(first * 4, g);
    assert_eq!(second * 2, first * 3);
}

#[test]
fn dot_does_not_reach_inherited_duration() {
    let notes = resolve_notes("c4. d c2 e").unwrap();
    assert_eq!((notes[1].digit, notes[1].dotted), (4, true));
    assert_eq!((notes[3].digit, notes[3].dotted), (2, false));
}

#[test]
fn schedule_is_ordered_and_ends_in_silence() {
    let s = compile_notes("c3 d6. r12 e32 f64 g1").unwrap();
    assert!(s.entries.windows(2).all(|w| w[0].tick <= w[1].tick));
    let last = *s.entries.last().unwrap();
    assert_eq!(last.frequency, 0);
    assert_eq!(s.entries.len(), 13);
    // Total: 1/3 + 1/4 + 1/12 + 1/32 + 1/64 + 1 = 329/192 units.
    let g = s.ticks_per_unit as u128;
    let total = last.tick as u128;
    assert_eq!(total * 192, g * 329);
}

#[test]
fn short_note_mutes_at_its_start() {
    let s = compile_notes("c64").unwrap();
    // The grid becomes the least common multiple of 32 and 128.
    assert_eq!(s.ticks_per_unit, 128);
    // The note lasts 2 ticks, the gap is 4 ticks: the mute is held at the start.
    assert_eq!(s.entries, vec![entry(0, 1044), entry(0, 0), entry(2, 0)]);
}

#[test]
fn empty_voice_is_one_silence() {
    let s = compile_notes("   ").unwrap();
    assert_eq!(s.entries, vec![entry(0, 0)]);
}

#[test]
fn huge_grid_overflows() {
    assert!(matches!(compile_notes("c18446744073709551557"), Err(CompileError::ScheduleOverflow)));
    assert!(schedule_voice(&vec![note(0, 1, false); 3]).is_some());
}

#[test]
fn long_voice_overflows() {
    // A grid of 32 * (2^57 + 1) = 2^62 + 32 ticks fits; three notes of 1.5
    // units do not.
    let d = (1u64 << 57) + 1;
    let fits = vec![note(0, d, false), note(0, 1, true)];
    assert_eq!(schedule_voice(&fits).unwrap().ticks_per_unit, (1u64 << 62) + 32);
    let big = vec![note(0, d, false), note(0, 1, true), note(0, 1, true), note(0, 1, true)];
    assert!(schedule_voice(&big).is_none());
}

#[test]
fn resolve_token_carries_state() {
    let st = ResolverState { semitone: 6, octave: 2, digit: 4, dotted: false };
    let (st2, n) = resolve_token(st, b"a'2").unwrap();
    assert_eq!(st2, ResolverState { semitone: 9, octave: 3, digit: 2, dotted: false });
    assert_eq!(n, note(440 * 8, 2, false));
}

#[test]
fn voice_compiles_its_notes() {
    let v = SongVoice { instrument: "square".to_string(), notes: "c4 e4".to_string() };
    let s = v.compile().unwrap();
    assert_eq!(s.entries.len(), 5);
}

#[test]
fn grid_is_the_least_common_multiple() {
    let s = compile_notes("c3 c5 c7 c9 c11 c13 c17 c19 c23 c25 c29 c31 c37").unwrap();
    let lcm: u64 = 32 * 9 * 25 * 7 * 11 * 13 * 17 * 19 * 23 * 29 * 31 * 37;
    assert_eq!(s.ticks_per_unit, lcm);
    assert_eq!(s.entries.len(), 27);
}

#[test]
fn pitch_table_spellings_are_distinct() {
    let table = note_indices();
    for j in 0..table.len() {
        for k in j + 1..table.len() {
            assert_ne!(table[j].0, table[k].0);
        }
    }
    for i in 0..12u64 {
        let n = table.iter().filter(|e| e.1 == i).count();
        let expected = if [1, 3, 6, 8, 10].contains(&i) { 2 } else { 1 };
        assert_eq!(n, expected, "{i}");
    }
}

#[test]
fn failing_token_is_located() {
    assert_eq!(failing_token("c4 e4 g4"), None);
    assert_eq!(failing_token("c4 x4 g."), Some(1));
    assert_eq!(failing_token("  c. d"), Some(0));
    assert_eq!(failing_token("c4 d4 e0"), Some(2));
}

fn voice(notes: &str) -> SongVoice {
    SongVoice { instrument: "square".to_string(), notes: notes.to_string() }
}

#[test]
fn all_voices_compile_together() {
    let s = compile_voices(&vec![voice("c4 e4 g4 c2"), voice("c2 g2")]).unwrap();
    assert_eq!(s.len(), 2);
    assert_eq!(s[0].entries.last().unwrap().tick, 40);
    assert_eq!(s[1].entries.last().unwrap().tick, 32);
}

#[test]
fn first_failing_voice_is_reported() {
    let f = compile_voices(&vec![voice("c4"), voice("c4 d4 x4"), voice("c.")]).err().unwrap();
    assert_eq!((f.voice, f.token, f.error), (1, Some(2), CompileError::UnknownPitch));
    let f = compile_voices(&vec![voice("c18446744073709551557")]).err().unwrap();
    assert_eq!((f.voice, f.token, f.error), (0, None, CompileError::ScheduleOverflow));
}
