//! The notation tokenizer: a note string is split on whitespace, and each
//! token is read by the grammar `<letters><, or '>?<digits>?<.>?`.
use vstd::prelude::*;

verus! {

/// ASCII whitespace: space, tab, line feed, vertical tab, form feed,
/// carriage return. Other bytes, those of non-ASCII characters included,
/// belong to tokens.
pub open spec fn is_space(b: u8) -> bool {
    b == 32 || (9 <= b && b <= 13)
}

/// A lowercase ASCII letter.
pub open spec fn is_lower(b: u8) -> bool {
    97 <= b <= 122
}

/// An ASCII decimal digit.
pub open spec fn is_digit(b: u8) -> bool {
    48 <= b <= 57
}

/// End of the run of non-space bytes that starts at `i`.
pub open spec fn word_end(s: Seq<u8>, i: int) -> int
    decreases s.len() - i,
{
    if 0 <= i < s.len() && !is_space(s[i]) {
        word_end(s, i + 1)
    } else {
        i
    }
}

pub proof fn lemma_word_end_bounds(s: Seq<u8>, i: int)
    requires
        0 <= i <= s.len(),
    ensures
        i <= word_end(s, i) <= s.len(),
    decreases s.len() - i,
{
    if i < s.len() && !is_space(s[i]) {
        lemma_word_end_bounds(s, i + 1);
    }
}

/// The whitespace-separated words of `s` from position `i` on.
pub open spec fn words_from(s: Seq<u8>, i: int) -> Seq<Seq<u8>>
    decreases s.len() - i,
    via words_from_decreases
{
    if i < 0 || i >= s.len() {
        Seq::empty()
    } else if is_space(s[i]) {
        words_from(s, i + 1)
    } else {
        seq![s.subrange(i, word_end(s, i))] + words_from(s, word_end(s, i))
    }
}

#[via_fn]
proof fn words_from_decreases(s: Seq<u8>, i: int) {
    if 0 <= i < s.len() && !is_space(s[i]) {
        lemma_word_end_bounds(s, i + 1);
    }
}

/// The tokens of a note string.
pub open spec fn words(s: Seq<u8>) -> Seq<Seq<u8>> {
    words_from(s, 0)
}

/// The byte contents of a list of byte vectors.
pub open spec fn contents(v: Seq<Vec<u8>>) -> Seq<Seq<u8>> {
    v.map_values(|w: Vec<u8>| w@)
}

fn is_space_byte(b: u8) -> (r: bool)
    ensures
        r == is_space(b),
{
    b == 32 || (9 <= b && b <= 13)
}

/// Splits a note string into its whitespace-separated tokens.
pub fn split_tokens(s: &[u8]) -> (r: Vec<Vec<u8>>)
    ensures
        contents(r@) == words(s@),
{
    let mut r: Vec<Vec<u8>> = Vec::new();
    let mut i: usize = 0;
    while i < s.len()
        invariant
            0 <= i <= s.len(),
            contents(r@) + words_from(s@, i as int) == words(s@),
        decreases s.len() - i,
    {
        if is_space_byte(s[i]) {
            i = i + 1;
        } else {
            let mut w: Vec<u8> = Vec::new();
            w.push(s[i]);
            let mut j: usize = i + 1;
            while j < s.len() && !is_space_byte(s[j])
                invariant
                    i < j <= s.len(),
                    word_end(s@, j as int) == word_end(s@, i as int),
                    w@ == s@.subrange(i as int, j as int),
                decreases s.len() - j,
            {
                w.push(s[j]);
                j = j + 1;
                assert(w@ =~= s@.subrange(i as int, j as int));
            }
            assert(word_end(s@, i as int) == j);
            let ghost before = contents(r@);
            r.push(w);
            assert(contents(r@) =~= before.push(s@.subrange(i as int, j as int)));
            assert(words_from(s@, i as int) == seq![s@.subrange(i as int, j as int)]
                + words_from(s@, j as int));
            assert(contents(r@) + words_from(s@, j as int) =~= before + words_from(s@, i as int));
            i = j;
        }
    }
    assert(contents(r@) =~= contents(r@) + words_from(s@, i as int));
    r
}

/// An optional octave mark after the pitch name.
#[derive(Debug, Clone, Copy, PartialEq, Eq, Structural)]
pub enum OctaveMark {
    /// No mark.
    Keep,
    /// `,`: one octave down.
    Down,
    /// `'`: one octave up.
    Up,
}

/// One token, split into its parts; `digits` is empty when the token gives
/// no duration.
pub struct Token {
    pub name: Vec<u8>,
    pub mark: OctaveMark,
    pub digits: Vec<u8>,
    pub dotted: bool,
}

/// End of the run of lowercase letters that starts at `i`.
pub open spec fn letters_end(t: Seq<u8>, i: int) -> int
    decreases t.len() - i,
{
    if 0 <= i < t.len() && is_lower(t[i]) {
        letters_end(t, i + 1)
    } else {
        i
    }
}

/// End of the run of digits that starts at `i`.
pub open spec fn digits_end(t: Seq<u8>, i: int) -> int
    decreases t.len() - i,
{
    if 0 <= i < t.len() && is_digit(t[i]) {
        digits_end(t, i + 1)
    } else {
        i
    }
}

/// The octave mark that stands at position `i`, if any.
pub open spec fn mark_at(t: Seq<u8>, i: int) -> OctaveMark {
    if 0 <= i < t.len() && t[i] == 44 {
        OctaveMark::Down
    } else if 0 <= i < t.len() && t[i] == 39 {
        OctaveMark::Up
    } else {
        OctaveMark::Keep
    }
}

/// The parts of a token (name, octave mark, duration digits, dot), or `None`
/// where the token does not follow the grammar. A dot needs digits before it.
pub open spec fn token_parts(t: Seq<u8>) -> Option<(Seq<u8>, OctaveMark, Seq<u8>, bool)> {
    let a = letters_end(t, 0);
    let mark = mark_at(t, a);
    let b = if mark == OctaveMark::Keep { a } else { a + 1 };
    let c = digits_end(t, b);
    let dotted = 0 <= c < t.len() && t[c] == 46;
    let e = if dotted { c + 1 } else { c };
    if a > 0 && e == t.len() && !(dotted && c == b) {
        Some((t.subrange(0, a), mark, t.subrange(b, c), dotted))
    } else {
        None
    }
}

/// The number that a run of decimal digits spells.
pub open spec fn digits_value(d: Seq<u8>) -> nat
    decreases d.len(),
{
    if d.len() == 0 {
        0
    } else {
        digits_value(d.drop_last()) * 10 + (d.last() - 48) as nat
    }
}

/// Reads a token by the grammar.
pub fn parse_token(t: &[u8]) -> (r: Option<Token>)
    ensures
        r is Some <==> token_parts(t@) is Some,
        r matches Some(tk) ==> token_parts(t@) == Some((tk.name@, tk.mark, tk.digits@, tk.dotted)),
        r matches Some(tk) ==> forall|k: int| 0 <= k < tk.digits@.len() ==> is_digit(#[trigger] tk.digits@[k]),
{
    let n = t.len();
    let mut name: Vec<u8> = Vec::new();
    let mut i: usize = 0;
    while i < n && 97 <= t[i] && t[i] <= 122
        invariant
            n == t.len(),
            0 <= i <= n,
            letters_end(t@, i as int) == letters_end(t@, 0),
            name@ == t@.subrange(0, i as int),
        decreases n - i,
    {
        name.push(t[i]);
        i = i + 1;
        assert(name@ =~= t@.subrange(0, i as int));
    }
    let a = i;
    assert(letters_end(t@, 0) == a);
    let mark = if i < n && t[i] == 44 {
        OctaveMark::Down
    } else if i < n && t[i] == 39 {
        OctaveMark::Up
    } else {
        OctaveMark::Keep
    };
    if mark != OctaveMark::Keep {
        i = i + 1;
    }
    let b = i;
    let mut digits: Vec<u8> = Vec::new();
    while i < n && 48 <= t[i] && t[i] <= 57
        invariant
            n == t.len(),
            b <= i <= n,
            digits_end(t@, i as int) == digits_end(t@, b as int),
            digits@ == t@.subrange(b as int, i as int),
            forall|k: int| 0 <= k < digits@.len() ==> is_digit(#[trigger] digits@[k]),
        decreases n - i,
    {
        digits.push(t[i]);
        i = i + 1;
        assert(digits@ =~= t@.subrange(b as int, i as int));
    }
    let c = i;
    let dotted = i < n && t[i] == 46;
    if dotted {
        i = i + 1;
    }
    if a > 0 && i == n && !(dotted && c == b) {
        Some(Token { name, mark, digits, dotted })
    } else {
        None
    }
}

/// Reads a run of decimal digits as a number, if it fits in 64 bits.
pub fn parse_digits(d: &[u8]) -> (r: Option<u64>)
    requires
        forall|k: int| 0 <= k < d.len() ==> is_digit(#[trigger] d[k]),
    ensures
        r is Some <==> digits_value(d@) <= u64::MAX,
        r matches Some(v) ==> v == digits_value(d@),
{
    let mut v: u64 = 0;
    let mut too_big = false;
    let mut i: usize = 0;
    while i < d.len()
        invariant
            0 <= i <= d.len(),
            forall|k: int| 0 <= k < d.len() ==> is_digit(#[trigger] d[k]),
            too_big ==> digits_value(d@.take(i as int)) > u64::MAX,
            !too_big ==> v == digits_value(d@.take(i as int)),
        decreases d.len() - i,
    {
        assert(d@.take(i + 1).drop_last() =~= d@.take(i as int));
        let dg = (d[i] - 48) as u64;
        if !too_big {
            if v > (u64::MAX - dg) / 10 {
                too_big = true;
            } else {
                v = v * 10 + dg;
            }
        }
        i = i + 1;
    }
    assert(d@.take(d.len() as int) =~= d@);
    if too_big {
        None
    } else {
        Some(v)
    }
}

} // verus!
