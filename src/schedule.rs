//! The voice scheduler: resolved notes laid out on a time grid as a list of
//! frequency changes. Time is counted in ticks, `ticks_per_unit` to one unit
//! length, where the grid is fine enough that every note duration and the
//! staccato gap of 1/32 of the unit length are whole numbers of ticks.
use vstd::prelude::*;
use crate::resolver::ResolvedNote;

verus! {

/// Set the voice's frequency (in quarters; zero is silence) at a tick.
#[derive(Debug, Clone, Copy, PartialEq, Eq, Structural)]
pub struct ScheduleEntry {
    pub tick: u64,
    pub frequency: u64,
}

/// The frequency changes of one voice, in order, and the number of ticks in
/// one unit length.
#[derive(Debug)]
pub struct Schedule {
    pub ticks_per_unit: u64,
    pub entries: Vec<ScheduleEntry>,
}

/// A note lasts `note_num / note_den` of the unit length.
pub open spec fn note_num(n: ResolvedNote) -> nat {
    if n.dotted { 3 } else { 2 }
}

pub open spec fn note_den(n: ResolvedNote) -> nat {
    2 * (n.digit as nat)
}

/// Every note of the sequence has a positive duration.
pub open spec fn positive_durations(notes: Seq<ResolvedNote>) -> bool {
    forall|k: int| 0 <= k < notes.len() ==> (#[trigger] notes[k]).digit >= 1
}

/// Greatest common divisor, by Euclid's algorithm.
pub open spec fn gcd(a: nat, b: nat) -> nat
    decreases b,
{
    if b == 0 {
        a
    } else {
        gcd(b, a % b)
    }
}

/// The grid: it starts at 32 ticks per unit and becomes the least common
/// multiple of itself and each note's denominator in turn.
pub open spec fn grid(notes: Seq<ResolvedNote>) -> nat
    decreases notes.len(),
{
    if notes.len() == 0 {
        32
    } else {
        let g = grid(notes.drop_last());
        let d = note_den(notes.last());
        g * (d / gcd(g, d))
    }
}

/// The greatest common divisor is positive and divides both arguments.
pub proof fn lemma_gcd_divides(a: nat, b: nat)
    requires
        a > 0 || b > 0,
    ensures
        gcd(a, b) > 0,
        a % gcd(a, b) == 0,
        b % gcd(a, b) == 0,
    decreases b,
{
    if b == 0 {
        vstd::arithmetic::div_mod::lemma_mod_self_0(a as int);
        vstd::arithmetic::div_mod::lemma_small_mod(0, a);
    } else {
        lemma_gcd_divides(b, a % b);
        let c = gcd(a, b);
        let r = a % b;
        vstd::arithmetic::div_mod::lemma_fundamental_div_mod(a as int, b as int);
        vstd::arithmetic::div_mod::lemma_fundamental_div_mod(b as int, c as int);
        vstd::arithmetic::div_mod::lemma_fundamental_div_mod(r as int, c as int);
        let x = b as int / c as int;
        let y = r as int / c as int;
        let q = a as int / b as int;
        assert(a == (x * q + y) * c) by (nonlinear_arith)
            requires
                a == b * q + r,
                b == c * x + 0,
                r == c * y + 0,
        ;
        vstd::arithmetic::div_mod::lemma_mod_multiples_basic(x * q + y, c as int);
    }
}

/// Multiplying a grid by `d / gcd(g, d)` never shrinks it, and the result is
/// a multiple of `d`.
proof fn lemma_lcm_step(g: nat, d: nat)
    requires
        d > 0,
    ensures
        d / gcd(g, d) >= 1,
        g <= g * (d / gcd(g, d)),
        (g * (d / gcd(g, d))) % d == 0,
{
    lemma_gcd_divides(g, d);
    let c = gcd(g, d);
    vstd::arithmetic::div_mod::lemma_fundamental_div_mod(d as int, c as int);
    vstd::arithmetic::div_mod::lemma_fundamental_div_mod(g as int, c as int);
    let q = d as int / c as int;
    let a = g as int / c as int;
    assert(q >= 1) by (nonlinear_arith)
        requires
            d == c * q + 0,
            d > 0,
            c > 0,
    ;
    assert(g <= g * q) by (nonlinear_arith)
        requires
            q >= 1,
    ;
    assert(g * q == a * d) by (nonlinear_arith)
        requires
            g == c * a + 0,
            d == c * q + 0,
    ;
    vstd::arithmetic::div_mod::lemma_mod_multiples_basic(a, d as int);
}

fn gcd_of(a: u128, b: u128) -> (r: u128)
    ensures
        r == gcd(a as nat, b as nat),
{
    let mut x = a;
    let mut y = b;
    while y != 0
        invariant
            gcd(x as nat, y as nat) == gcd(a as nat, b as nat),
        decreases y,
    {
        let t = x % y;
        x = y;
        y = t;
    }
    x
}

/// Duration of a note in ticks of grid `g`.
pub open spec fn note_ticks(n: ResolvedNote, g: nat) -> nat {
    note_num(n) * (g / note_den(n))
}

/// The sum of the durations of the notes, in ticks of grid `g`.
pub open spec fn total_ticks(notes: Seq<ResolvedNote>, g: nat) -> nat
    decreases notes.len(),
{
    if notes.len() == 0 {
        0
    } else {
        total_ticks(notes.drop_last(), g) + note_ticks(notes.last(), g)
    }
}

/// Where a note that starts at `start` and lasts `dur` falls silent: 1/32 of
/// the unit length before its end, but never before its start.
pub open spec fn mute_tick(start: nat, dur: nat, g: nat) -> nat {
    if dur >= g / 32 { (start + dur - g / 32) as nat } else { start }
}

/// Two entries per note: its frequency at its start, silence at its mute tick.
pub open spec fn note_entries(notes: Seq<ResolvedNote>, g: nat) -> Seq<ScheduleEntry>
    decreases notes.len(),
{
    if notes.len() == 0 {
        Seq::empty()
    } else {
        let p = notes.drop_last();
        let n = notes.last();
        let start = total_ticks(p, g);
        note_entries(p, g) + seq![
            ScheduleEntry { tick: start as u64, frequency: n.frequency },
            ScheduleEntry { tick: mute_tick(start, note_ticks(n, g), g) as u64, frequency: 0 },
        ]
    }
}

/// The whole schedule: the notes' entries, then silence at the end.
pub open spec fn schedule_entries(notes: Seq<ResolvedNote>, g: nat) -> Seq<ScheduleEntry> {
    note_entries(notes, g).push(ScheduleEntry { tick: total_ticks(notes, g) as u64, frequency: 0 })
}

/// The ticks of the entries never decrease.
pub open spec fn ordered(s: Seq<ScheduleEntry>) -> bool {
    forall|i: int, j: int| 0 <= i <= j < s.len() ==> s[i].tick <= s[j].tick
}

proof fn lemma_grid_grows(notes: Seq<ResolvedNote>, i: int)
    requires
        0 <= i <= notes.len(),
        positive_durations(notes),
    ensures
        grid(notes.take(i)) <= grid(notes),
    decreases notes.len(),
{
    if i < notes.len() {
        assert(notes.drop_last().take(i) =~= notes.take(i));
        lemma_grid_grows(notes.drop_last(), i);
        lemma_lcm_step(grid(notes.drop_last()), note_den(notes.last()));
    } else {
        assert(notes.take(i) =~= notes);
    }
}

proof fn lemma_total_grows(notes: Seq<ResolvedNote>, i: int, g: nat)
    requires
        0 <= i <= notes.len(),
    ensures
        total_ticks(notes.take(i), g) <= total_ticks(notes, g),
    decreases notes.len(),
{
    if i < notes.len() {
        assert(notes.drop_last().take(i) =~= notes.take(i));
        lemma_total_grows(notes.drop_last(), i, g);
    } else {
        assert(notes.take(i) =~= notes);
    }
}

/// Works out the grid of a note sequence, if it fits in 64 bits.
fn grid_of(notes: &Vec<ResolvedNote>) -> (r: Option<u64>)
    requires
        positive_durations(notes@),
    ensures
        r is Some <==> grid(notes@) <= u64::MAX,
        r matches Some(g) ==> g == grid(notes@),
{
    let mut g: u64 = 32;
    let mut i: usize = 0;
    assert(notes@.take(0) =~= Seq::<ResolvedNote>::empty());
    while i < notes.len()
        invariant
            0 <= i <= notes.len(),
            positive_durations(notes@),
            g == grid(notes@.take(i as int)),
        decreases notes.len() - i,
    {
        assert(notes@.take(i + 1).drop_last() =~= notes@.take(i as int));
        let d: u128 = 2 * (notes[i].digit as u128);
        let c = gcd_of(g as u128, d);
        proof {
            lemma_gcd_divides(g as nat, d as nat);
            lemma_lcm_step(g as nat, d as nat);
        }
        let q = d / c;
        if g as u128 > (u64::MAX as u128) / q {
            proof {
                assert(g * q > u64::MAX) by (nonlinear_arith)
                    requires
                        q >= 1,
                        g > u64::MAX as int / q as int,
                ;
                lemma_grid_grows(notes@, i + 1);
            }
            return None;
        }
        assert(g * q <= u64::MAX) by (nonlinear_arith)
            requires
                q >= 1,
                g <= u64::MAX as int / q as int,
        ;
        g = ((g as u128) * q) as u64;
        i = i + 1;
    }
    assert(notes@.take(i as int) =~= notes@);
    Some(g)
}

/// Lays out the notes of one voice on their grid, if the grid and the total
/// length fit in 64 bits.
pub fn schedule_voice(notes: &Vec<ResolvedNote>) -> (r: Option<Schedule>)
    requires
        positive_durations(notes@),
    ensures
        r is Some <==> grid(notes@) <= u64::MAX && total_ticks(notes@, grid(notes@)) <= u64::MAX,
        r matches Some(s) ==> s.ticks_per_unit == grid(notes@) && s.entries@ == schedule_entries(
            notes@,
            grid(notes@),
        ),
{
    let g = match grid_of(notes) {
        Some(g) => g,
        None => return None,
    };
    let ghost gn = g as nat;
    let gap: u64 = g / 32;
    let mut entries: Vec<ScheduleEntry> = Vec::new();
    let mut offset: u64 = 0;
    let mut i: usize = 0;
    assert(notes@.take(0) =~= Seq::<ResolvedNote>::empty());
    while i < notes.len()
        invariant
            0 <= i <= notes.len(),
            positive_durations(notes@),
            gn == g,
            gn == grid(notes@),
            gap == g / 32,
            offset == total_ticks(notes@.take(i as int), gn),
            entries@ == note_entries(notes@.take(i as int), gn),
        decreases notes.len() - i,
    {
        let ghost pre = notes@.take(i as int);
        assert(notes@.take(i + 1).drop_last() =~= pre);
        let n = notes[i];
        let num: u128 = if n.dotted { 3 } else { 2 };
        let den: u128 = 2 * (n.digit as u128);
        let part: u128 = (g as u128) / den;
        assert(part <= g) by (nonlinear_arith)
            requires
                den >= 1,
                part == g as int / den as int,
        ;
        assert(num * part <= 3 * g) by (nonlinear_arith)
            requires
                num <= 3,
                part <= g,
        ;
        let dur: u128 = num * part;
        assert(dur == note_ticks(n, gn));
        let end: u128 = offset as u128 + dur;
        assert(end == total_ticks(notes@.take(i + 1), gn));
        if end > u64::MAX as u128 {
            proof {
                lemma_total_grows(notes@, i + 1, gn);
            }
            return None;
        }
        let mute: u64 = if dur >= gap as u128 { (end - gap as u128) as u64 } else { offset };
        entries.push(ScheduleEntry { tick: offset, frequency: n.frequency });
        entries.push(ScheduleEntry { tick: mute, frequency: 0 });
        offset = end as u64;
        i = i + 1;
    }
    assert(notes@.take(i as int) =~= notes@);
    entries.push(ScheduleEntry { tick: offset, frequency: 0 });
    Some(Schedule { ticks_per_unit: g, entries })
}

/// A dot makes a note exactly half as long again as the same note undotted.
pub proof fn lemma_dot_adds_half(n: ResolvedNote, g: nat)
    ensures
        2 * note_ticks(ResolvedNote { dotted: true, ..n }, g) == 3 * note_ticks(
            ResolvedNote { dotted: false, ..n },
            g,
        ),
{
    let x = g / note_den(n);
    assert(2 * (3 * x) == 3 * (2 * x)) by (nonlinear_arith);
}

proof fn lemma_multiple_divides(g: nat, d: nat, m: nat)
    requires
        m > 0,
        g % m == 0,
    ensures
        (g * d) % m == 0,
{
    let q = g as int / m as int;
    vstd::arithmetic::div_mod::lemma_fundamental_div_mod(g as int, m as int);
    assert(g * d == (q * d) * m) by (nonlinear_arith)
        requires
            g == m * q + 0,
    ;
    vstd::arithmetic::div_mod::lemma_mod_multiples_basic(q * d, m as int);
}

/// The grid is a whole number of ticks for the staccato gap and for every
/// note, so a note of `num / den` unit lengths lasts exactly
/// `num * grid / den` ticks.
pub proof fn lemma_grid_exact(notes: Seq<ResolvedNote>)
    requires
        positive_durations(notes),
    ensures
        grid(notes) % 32 == 0,
        forall|k: int| 0 <= k < notes.len() ==> grid(notes) % note_den(#[trigger] notes[k]) == 0,
        forall|k: int| 0 <= k < notes.len() ==> note_ticks(#[trigger] notes[k], grid(notes))
            * note_den(notes[k]) == note_num(notes[k]) * grid(notes),
    decreases notes.len(),
{
    if notes.len() > 0 {
        let p = notes.drop_last();
        assert(positive_durations(p)) by {
            assert forall|k: int| 0 <= k < p.len() implies (#[trigger] p[k]).digit >= 1 by {
                assert(p[k] == notes[k]);
            }
        }
        lemma_grid_exact(p);
        let g = grid(p);
        let d = note_den(notes.last());
        let g2 = grid(notes);
        let q = d / gcd(g, d);
        assert(g2 == g * q);
        lemma_lcm_step(g, d);
        lemma_multiple_divides(g, q, 32);
        assert forall|k: int| 0 <= k < notes.len() implies g2 % note_den(#[trigger] notes[k]) == 0 by {
            if k < notes.len() - 1 {
                assert(notes[k] == p[k]);
                lemma_multiple_divides(g, q, note_den(p[k]));
            }
        }
        assert forall|k: int| 0 <= k < notes.len() implies note_ticks(#[trigger] notes[k], g2)
            * note_den(notes[k]) == note_num(notes[k]) * g2 by {
            let dk = note_den(notes[k]);
            assert(g2 % dk == 0);
            vstd::arithmetic::div_mod::lemma_fundamental_div_mod(g2 as int, dk as int);
            assert(note_num(notes[k]) * (g2 / dk) * dk == note_num(notes[k]) * g2) by (nonlinear_arith)
                requires
                    g2 == dk * (g2 / dk),
            ;
        }
    }
}

/// The entries of the notes never go backwards and all lie within the total
/// length.
proof fn lemma_note_entries_ordered(notes: Seq<ResolvedNote>, g: nat)
    requires
        total_ticks(notes, g) <= u64::MAX,
    ensures
        ordered(note_entries(notes, g)),
        note_entries(notes, g).len() == 2 * notes.len(),
        forall|k: int| 0 <= k < note_entries(notes, g).len() ==> (#[trigger] note_entries(notes, g)[k]).tick
            <= total_ticks(notes, g),
    decreases notes.len(),
{
    if notes.len() > 0 {
        let p = notes.drop_last();
        lemma_note_entries_ordered(p, g);
        let e = note_entries(p, g);
        let start = total_ticks(p, g);
        let es = note_entries(notes, g);
        assert forall|k: int| 0 <= k < es.len() implies (#[trigger] es[k]).tick <= total_ticks(notes, g) by {
            if k < e.len() {
                assert(es[k] == e[k]);
            }
        }
        assert forall|i: int, j: int| 0 <= i <= j < es.len() implies es[i].tick <= es[j].tick by {
            if j < e.len() {
                assert(es[i] == e[i] && es[j] == e[j]);
            } else if i < e.len() {
                assert(es[i] == e[i]);
                assert(e[i].tick <= start);
            }
        }
    }
}

/// Within one voice the entries never go backwards in time, and the schedule
/// ends with one entry of silence at the sum of all note durations.
pub proof fn lemma_schedule_ordered(notes: Seq<ResolvedNote>, g: nat)
    requires
        total_ticks(notes, g) <= u64::MAX,
    ensures
        ordered(schedule_entries(notes, g)),
        schedule_entries(notes, g).len() == 2 * notes.len() + 1,
        schedule_entries(notes, g).last().frequency == 0,
        schedule_entries(notes, g).last().tick == total_ticks(notes, g),
{
    lemma_note_entries_ordered(notes, g);
    let e = note_entries(notes, g);
    let es = schedule_entries(notes, g);
    assert forall|i: int, j: int| 0 <= i <= j < es.len() implies es[i].tick <= es[j].tick by {
        if j < e.len() {
            assert(es[i] == e[i] && es[j] == e[j]);
        } else if i < e.len() {
            assert(es[i] == e[i]);
        }
    }
}

} // verus!
