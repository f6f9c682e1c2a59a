//! Extracting per-file timing records from raw test-runner report text.
//!
//! The report is handled line by line. On each line the extractor scans left
//! to right for `key="value"` attribute tokens: a run of word characters,
//! then `="`, then a non-empty run of non-quote characters, then a closing
//! `"`. Tokens never overlap; after a token the scan resumes past its closing
//! quote. Only the keys `file` and `time` are meaningful, later occurrences
//! on a line overriding earlier ones; a line contributes a timing increment
//! only when both are present. Contributions accumulate per file path, in
//! whole microseconds, saturating at `u64::MAX`.

use crate::text::chars_of;
use crate::timings::FileTiming;
use crate::timings::ParseError;
use vstd::prelude::*;

verus! {

// ---------------------------------------------------------------------------
// Characters and searching
// ---------------------------------------------------------------------------

/// A word character, as attribute keys are made of: an ASCII letter, digit,
/// or underscore.
pub open spec fn is_word_char(c: char) -> bool {
    ('a' <= c && c <= 'z') || ('A' <= c && c <= 'Z') || ('0' <= c && c <= '9') || c == '_'
}

pub open spec fn is_digit(c: char) -> bool {
    '0' <= c && c <= '9'
}

pub open spec fn digit_val(c: char) -> int {
    c as int - '0' as int
}

/// First index at or after `j` where `c` occurs in `s`, or `s.len()` if none.
pub open spec fn find_from(s: Seq<char>, j: int, c: char) -> int
    decreases s.len() - j
    when 0 <= j <= s.len()
{
    if j >= s.len() {
        s.len() as int
    } else if s[j] == c {
        j
    } else {
        find_from(s, j + 1, c)
    }
}

pub proof fn lemma_find_from(s: Seq<char>, j: int, c: char)
    requires
        0 <= j <= s.len(),
    ensures
        j <= find_from(s, j, c) <= s.len(),
        find_from(s, j, c) < s.len() ==> s[find_from(s, j, c)] == c,
        forall|i: int| j <= i < find_from(s, j, c) ==> s[i] != c,
    decreases s.len() - j,
{
    if j < s.len() && s[j] != c {
        lemma_find_from(s, j + 1, c);
    }
}

/// First index at or after `j` that does not hold a word character.
pub open spec fn word_run_end(s: Seq<char>, j: int) -> int
    decreases s.len() - j
    when 0 <= j <= s.len()
{
    if j >= s.len() {
        s.len() as int
    } else if is_word_char(s[j]) {
        word_run_end(s, j + 1)
    } else {
        j
    }
}

pub proof fn lemma_word_run_end(s: Seq<char>, j: int)
    requires
        0 <= j <= s.len(),
    ensures
        j <= word_run_end(s, j) <= s.len(),
        word_run_end(s, j) < s.len() ==> !is_word_char(s[word_run_end(s, j)]),
        forall|i: int| j <= i < word_run_end(s, j) ==> is_word_char(s[i]),
        j < s.len() && is_word_char(s[j]) ==> word_run_end(s, j) > j,
    decreases s.len() - j,
{
    if j < s.len() && is_word_char(s[j]) {
        lemma_word_run_end(s, j + 1);
    }
}

// ---------------------------------------------------------------------------
// Line structure
// ---------------------------------------------------------------------------

/// A line segment that ended in a newline sheds one trailing carriage return.
pub open spec fn strip_cr(s: Seq<char>) -> Seq<char> {
    if s.len() > 0 && s.last() == '\r' {
        s.drop_last()
    } else {
        s
    }
}

/// The lines of `s`: segments between newline characters, each shedding one
/// trailing carriage return; a final segment without a newline is kept whole,
/// and a trailing newline does not open an empty final line.
pub open spec fn lines_of(s: Seq<char>) -> Seq<Seq<char>>
    decreases s.len()
{
    if s.len() == 0 {
        Seq::empty()
    } else {
        let i = find_from(s, 0, '\n');
        proof {
            lemma_find_from(s, 0, '\n');
        }
        if i == s.len() {
            seq![s]
        } else {
            seq![strip_cr(s.subrange(0, i))] + lines_of(s.subrange(i + 1, s.len() as int))
        }
    }
}

// ---------------------------------------------------------------------------
// Attribute tokens
// ---------------------------------------------------------------------------

/// The `key="value"` tokens of `line` at or after position `j`, scanning left
/// to right without overlap: at the first word character whose run is
/// followed by `="`, a non-empty quote-free value, and a closing quote, a
/// token is read and the scan resumes past the closing quote; otherwise the
/// scan moves on.
pub open spec fn scan_attrs(line: Seq<char>, j: int) -> Seq<(Seq<char>, Seq<char>)>
    decreases line.len() - j
    when 0 <= j <= line.len()
{
    if j >= line.len() {
        Seq::empty()
    } else if !is_word_char(line[j]) {
        scan_attrs(line, j + 1)
    } else {
        let k = word_run_end(line, j);
        proof {
            lemma_word_run_end(line, j);
        }
        if k >= line.len() {
            Seq::empty()
        } else if k + 1 < line.len() && line[k] == '=' && line[k + 1] == '"' {
            let m = find_from(line, k + 2, '"');
            proof {
                lemma_find_from(line, k + 2, '"');
            }
            if m < line.len() && m > k + 2 {
                seq![(line.subrange(j, k), line.subrange(k + 2, m))] + scan_attrs(line, m + 1)
            } else {
                scan_attrs(line, k + 1)
            }
        } else {
            scan_attrs(line, k + 1)
        }
    }
}

pub open spec fn file_key() -> Seq<char> {
    seq!['f', 'i', 'l', 'e']
}

pub open spec fn time_key() -> Seq<char> {
    seq!['t', 'i', 'm', 'e']
}

/// The value of the last token named `key`, if any.
pub open spec fn last_value_of(pairs: Seq<(Seq<char>, Seq<char>)>, key: Seq<char>) -> Option<
    Seq<char>,
>
    decreases pairs.len()
{
    if pairs.len() == 0 {
        None
    } else if pairs.last().0 == key {
        Some(pairs.last().1)
    } else {
        last_value_of(pairs.drop_last(), key)
    }
}

// ---------------------------------------------------------------------------
// Time values: decimal seconds, stored in whole microseconds
// ---------------------------------------------------------------------------

pub open spec fn all_digits(s: Seq<char>) -> bool {
    forall|i: int| 0 <= i < s.len() ==> is_digit(s[i])
}

/// The integer a digit string denotes (0 for the empty string).
pub open spec fn digits_int(s: Seq<char>) -> int
    decreases s.len()
{
    if s.len() == 0 {
        0
    } else {
        10 * digits_int(s.drop_last()) + digit_val(s.last())
    }
}

pub open spec fn pow10(n: int) -> int
    decreases n
{
    if n <= 0 {
        1
    } else {
        10 * pow10(n - 1)
    }
}

/// A well-formed `time` value: an unsigned decimal number, with at least one
/// digit, optionally containing one decimal point.
pub open spec fn is_valid_time(v: Seq<char>) -> bool {
    let d = find_from(v, 0, '.');
    if d == v.len() {
        v.len() >= 1 && all_digits(v)
    } else {
        v.len() >= 2 && all_digits(v.subrange(0, d)) && all_digits(
            v.subrange(d + 1, v.len() as int),
        )
    }
}

/// Microseconds denoted by a fractional part: its first six digits, padded
/// with zeros to six places; digits beyond the sixth are dropped.
pub open spec fn frac_micros(s: Seq<char>) -> int {
    if s.len() >= 6 {
        digits_int(s.subrange(0, 6))
    } else {
        digits_int(s) * pow10(6 - s.len())
    }
}

/// The exact number of microseconds a well-formed `time` value denotes.
pub open spec fn time_micros(v: Seq<char>) -> int {
    let d = find_from(v, 0, '.');
    if d == v.len() {
        digits_int(v) * 1000000
    } else {
        digits_int(v.subrange(0, d)) * 1000000 + frac_micros(v.subrange(d + 1, v.len() as int))
    }
}

pub open spec fn clamp_u64(x: int) -> int {
    if x > u64::MAX {
        u64::MAX as int
    } else {
        x
    }
}

/// What is stored for a time value: its microseconds, saturated at `u64::MAX`.
pub open spec fn stored_time(v: Seq<char>) -> int {
    clamp_u64(time_micros(v))
}

/// A `time` token whose value is malformed.
pub open spec fn bad_pair(p: (Seq<char>, Seq<char>)) -> bool {
    p.0 == time_key() && !is_valid_time(p.1)
}

/// The value of the first `time` token whose value is malformed, if any.
pub open spec fn first_bad_time(pairs: Seq<(Seq<char>, Seq<char>)>) -> Option<Seq<char>>
    decreases pairs.len()
{
    if pairs.len() == 0 {
        None
    } else if bad_pair(pairs.first()) {
        Some(pairs.first().1)
    } else {
        first_bad_time(pairs.drop_first())
    }
}

pub proof fn lemma_first_bad_none(pairs: Seq<(Seq<char>, Seq<char>)>)
    requires
        forall|i: int| 0 <= i < pairs.len() ==> !bad_pair(#[trigger] pairs[i]),
    ensures
        first_bad_time(pairs) is None,
    decreases pairs.len(),
{
    if pairs.len() > 0 {
        assert(forall|i: int|
            0 <= i < pairs.len() - 1 ==> #[trigger] pairs.drop_first()[i] == pairs[i + 1]);
        lemma_first_bad_none(pairs.drop_first());
    }
}

pub proof fn lemma_first_bad_at(pairs: Seq<(Seq<char>, Seq<char>)>, i: int)
    requires
        0 <= i < pairs.len(),
        forall|l: int| 0 <= l < i ==> !bad_pair(#[trigger] pairs[l]),
        bad_pair(pairs[i]),
    ensures
        first_bad_time(pairs) == Some(pairs[i].1),
    decreases i,
{
    if i == 0 {
        assert(pairs.first() == pairs[0]);
    } else {
        assert(!bad_pair(pairs[0]));
        assert(forall|l: int|
            0 <= l < pairs.len() - 1 ==> #[trigger] pairs.drop_first()[l] == pairs[l + 1]);
        lemma_first_bad_at(pairs.drop_first(), i - 1);
    }
}

// ---------------------------------------------------------------------------
// Per-line contributions and the whole-text model
// ---------------------------------------------------------------------------

pub open spec fn line_file(line: Seq<char>) -> Option<Seq<char>> {
    last_value_of(scan_attrs(line, 0), file_key())
}

pub open spec fn line_time(line: Seq<char>) -> Option<Seq<char>> {
    last_value_of(scan_attrs(line, 0), time_key())
}

pub open spec fn line_bad(line: Seq<char>) -> Option<Seq<char>> {
    first_bad_time(scan_attrs(line, 0))
}

/// Add `t` microseconds to `path`'s record, saturating; a new path opens a
/// record at the end.
pub open spec fn upsert(recs: Seq<(Seq<char>, int)>, path: Seq<char>, t: int) -> Seq<
    (Seq<char>, int),
>
    decreases recs.len()
{
    if recs.len() == 0 {
        seq![(path, t)]
    } else if recs.first().0 == path {
        seq![(recs.first().0, clamp_u64(recs.first().1 + t))] + recs.drop_first()
    } else {
        seq![recs.first()] + upsert(recs.drop_first(), path, t)
    }
}

/// One line's effect on the accumulated records: nothing unless the line has
/// both a `file` and a `time` token.
pub open spec fn line_apply(recs: Seq<(Seq<char>, int)>, line: Seq<char>) -> Seq<(Seq<char>, int)> {
    if line_file(line) is Some && line_time(line) is Some {
        upsert(recs, line_file(line)->0, stored_time(line_time(line)->0))
    } else {
        recs
    }
}

pub open spec fn extract_rec(lines: Seq<Seq<char>>, acc: Seq<(Seq<char>, int)>) -> Result<
    Seq<(Seq<char>, int)>,
    Seq<char>,
>
    decreases lines.len()
{
    if lines.len() == 0 {
        Ok(acc)
    } else if line_bad(lines.first()) is Some {
        Err(line_bad(lines.first())->0)
    } else {
        extract_rec(lines.drop_first(), line_apply(acc, lines.first()))
    }
}

/// The meaning of a whole report text: its accumulated per-file records in
/// order of first appearance, or the first malformed `time` value.
pub open spec fn extract_model(text: Seq<char>) -> Result<Seq<(Seq<char>, int)>, Seq<char>> {
    extract_rec(lines_of(text), Seq::empty())
}

/// The record view of a timing: its path's characters and its microseconds.
pub open spec fn timing_rec(t: FileTiming) -> (Seq<char>, int) {
    (t.file_path@, t.total_time as int)
}

/// The record view of a whole timing vector.
pub open spec fn recs_model(s: Seq<FileTiming>) -> Seq<(Seq<char>, int)> {
    s.map_values(|t: FileTiming| timing_rec(t))
}

// ---------------------------------------------------------------------------
// The scanner
// ---------------------------------------------------------------------------

/// One `key="value"` token, as index ranges into its line.
#[derive(Clone, Copy)]
pub struct AttrSpan {
    pub key_lo: usize,
    pub key_hi: usize,
    pub val_lo: usize,
    pub val_hi: usize,
}

pub open spec fn span_wf(sp: AttrSpan, n: int) -> bool {
    sp.key_lo <= sp.key_hi <= n && sp.val_lo <= sp.val_hi <= n
}

pub open spec fn span_pair(line: Seq<char>, sp: AttrSpan) -> (Seq<char>, Seq<char>) {
    (
        line.subrange(sp.key_lo as int, sp.key_hi as int),
        line.subrange(sp.val_lo as int, sp.val_hi as int),
    )
}

pub open spec fn spans_pairs(line: Seq<char>, spans: Seq<AttrSpan>) -> Seq<(Seq<char>, Seq<char>)> {
    spans.map_values(|sp: AttrSpan| span_pair(line, sp))
}

proof fn lemma_word_run_end_is(s: Seq<char>, j: int, k: int)
    requires
        0 <= j <= k <= s.len(),
        forall|i: int| j <= i < k ==> is_word_char(s[i]),
        k < s.len() ==> !is_word_char(s[k]),
    ensures
        word_run_end(s, j) == k,
    decreases k - j,
{
    if j < k {
        lemma_word_run_end_is(s, j + 1, k);
    }
}

proof fn lemma_find_from_is(s: Seq<char>, j: int, k: int, c: char)
    requires
        0 <= j <= k <= s.len(),
        forall|i: int| j <= i < k ==> s[i] != c,
        k < s.len() ==> s[k] == c,
    ensures
        find_from(s, j, c) == k,
    decreases k - j,
{
    if j < k {
        lemma_find_from_is(s, j + 1, k, c);
    }
}

fn word_char(c: char) -> (r: bool)
    ensures
        r == is_word_char(c),
{
    ('a' <= c && c <= 'z') || ('A' <= c && c <= 'Z') || ('0' <= c && c <= '9') || c == '_'
}

/// Collects the attribute tokens of the line `chars[lo..hi]`, scanning as
/// `scan_attrs` describes.
fn scan_line(chars: &Vec<char>, lo: usize, hi: usize) -> (spans: Vec<AttrSpan>)
    requires
        lo <= hi <= chars@.len(),
    ensures
        ({
            let line = chars@.subrange(lo as int, hi as int);
            &&& spans_pairs(line, spans@) == scan_attrs(line, 0)
            &&& forall|i: int| 0 <= i < spans@.len() ==> span_wf(#[trigger] spans@[i], line.len() as int)
        }),
{
    let ghost line = chars@.subrange(lo as int, hi as int);
    let n: usize = hi - lo;
    let mut spans: Vec<AttrSpan> = Vec::new();
    let mut j: usize = 0;
    while j < n
        invariant
            lo <= hi <= chars@.len(),
            n == hi - lo,
            line == chars@.subrange(lo as int, hi as int),
            j <= n,
            spans_pairs(line, spans@) + scan_attrs(line, j as int) == scan_attrs(line, 0),
            forall|i: int| 0 <= i < spans@.len() ==> span_wf(#[trigger] spans@[i], line.len() as int),
        decreases n - j,
    {
        if !word_char(chars[lo + j]) {
            assert(scan_attrs(line, j as int) == scan_attrs(line, j + 1));
            j = j + 1;
        } else {
            // the word run [j, k)
            let mut k: usize = j + 1;
            while k < n && word_char(chars[lo + k])
                invariant
                    lo <= hi <= chars@.len(),
                    n == hi - lo,
                    line == chars@.subrange(lo as int, hi as int),
                    j < k <= n,
                    forall|i: int| j <= i < k ==> is_word_char(line[i]),
                decreases n - k,
            {
                k = k + 1;
            }
            proof {
                lemma_word_run_end_is(line, j as int, k as int);
            }
            if k >= n {
                assert(scan_attrs(line, j as int) == Seq::<(Seq<char>, Seq<char>)>::empty());
                j = n;
            } else if k + 1 < n && chars[lo + k] == '=' && chars[lo + k + 1] == '"' {
                // the value run [k + 2, m)
                let mut m: usize = k + 2;
                while m < n && chars[lo + m] != '"'
                    invariant
                        lo <= hi <= chars@.len(),
                        n == hi - lo,
                        line == chars@.subrange(lo as int, hi as int),
                        k + 2 <= m <= n,
                        forall|i: int| k + 2 <= i < m ==> line[i] != '"',
                    decreases n - m,
                {
                    m = m + 1;
                }
                proof {
                    lemma_find_from_is(line, k + 2, m as int, '"');
                }
                if m < n && m > k + 2 {
                    let sp = AttrSpan { key_lo: j, key_hi: k, val_lo: k + 2, val_hi: m };
                    let ghost old_spans = spans@;
                    spans.push(sp);
                    proof {
                        assert(scan_attrs(line, j as int) == seq![span_pair(line, sp)] + scan_attrs(
                            line,
                            m + 1,
                        ));
                        assert(spans_pairs(line, spans@) =~= spans_pairs(line, old_spans) + seq![
                            span_pair(line, sp),
                        ]);
                        assert(spans_pairs(line, spans@) + scan_attrs(line, m + 1)
                            =~= spans_pairs(line, old_spans) + scan_attrs(line, j as int));
                    }
                    j = m + 1;
                } else {
                    assert(scan_attrs(line, j as int) == scan_attrs(line, k + 1));
                    j = k + 1;
                }
            } else {
                assert(scan_attrs(line, j as int) == scan_attrs(line, k + 1));
                j = k + 1;
            }
        }
    }
    proof {
        assert(scan_attrs(line, n as int) == Seq::<(Seq<char>, Seq<char>)>::empty());
        assert(spans_pairs(line, spans@) =~= spans_pairs(line, spans@) + scan_attrs(
            line,
            n as int,
        ));
    }
    spans
}

// ---------------------------------------------------------------------------
// Reading a time value
// ---------------------------------------------------------------------------

fn digit_char(c: char) -> (r: bool)
    ensures
        r == is_digit(c),
{
    '0' <= c && c <= '9'
}

fn digit_of(c: char) -> (r: u64)
    requires
        is_digit(c),
    ensures
        r == digit_val(c),
        r <= 9,
{
    (c as u32 - '0' as u32) as u64
}

pub proof fn lemma_digits_int_bound(s: Seq<char>)
    requires
        all_digits(s),
    ensures
        0 <= digits_int(s) < pow10(s.len() as int),
    decreases s.len(),
{
    if s.len() > 0 {
        assert(all_digits(s.drop_last())) by {
            assert(forall|i: int| 0 <= i < s.len() - 1 ==> s.drop_last()[i] == s[i]);
        }
        lemma_digits_int_bound(s.drop_last());
        assert(is_digit(s.last()));
    }
}

proof fn lemma_clamp_step(prev: int, acc: int, d: int)
    requires
        0 <= prev,
        acc == clamp_u64(prev),
        0 <= d <= 9,
    ensures
        clamp_u64(acc * 10 + d) == clamp_u64(prev * 10 + d),
{
}

/// `clamp_u64(acc * 10 + d)` in executable arithmetic.
fn sat_shift_digit(acc: u64, d: u64) -> (r: u64)
    requires
        d <= 9,
    ensures
        r == clamp_u64(acc as int * 10 + d),
{
    match acc.checked_mul(10) {
        Some(x) => match x.checked_add(d) {
            Some(y) => y,
            None => u64::MAX,
        },
        None => u64::MAX,
    }
}

/// Reads the digit run `chars[lo..hi]` as an integer, saturating at
/// `u64::MAX`.
fn read_digits(chars: &Vec<char>, lo: usize, hi: usize) -> (r: u64)
    requires
        lo <= hi <= chars@.len(),
        all_digits(chars@.subrange(lo as int, hi as int)),
    ensures
        r == clamp_u64(digits_int(chars@.subrange(lo as int, hi as int))),
{
    let ghost s = chars@.subrange(lo as int, hi as int);
    let mut acc: u64 = 0;
    let mut i: usize = 0;
    while i < hi - lo
        invariant
            lo <= hi <= chars@.len(),
            s == chars@.subrange(lo as int, hi as int),
            all_digits(s),
            i <= hi - lo,
            acc == clamp_u64(digits_int(s.subrange(0, i as int))),
        decreases hi - lo - i,
    {
        let ghost prefix = s.subrange(0, i as int);
        let ghost prefix1 = s.subrange(0, i + 1);
        proof {
            assert(s[i as int] == chars@[lo + i]);
        }
        let d = digit_of(chars[lo + i]);
        proof {
            assert(prefix1.drop_last() =~= prefix);
            assert(prefix1.last() == s[i as int]);
            lemma_digits_int_bound(prefix);
            lemma_clamp_step(digits_int(prefix), acc as int, d as int);
        }
        acc = sat_shift_digit(acc, d);
        i = i + 1;
    }
    proof {
        assert(s.subrange(0, (hi - lo) as int) =~= s);
    }
    acc
}

proof fn lemma_pow10_values()
    ensures
        pow10(0) == 1,
        pow10(1) == 10,
        pow10(2) == 100,
        pow10(3) == 1000,
        pow10(4) == 10000,
        pow10(5) == 100000,
        pow10(6) == 1000000,
{
    reveal_with_fuel(pow10, 8);
}

/// Reads the value `chars[lo..hi]` of a `time` attribute: decimal seconds,
/// stored as whole microseconds saturated at `u64::MAX`, or `None` when the
/// text is not an unsigned decimal number.
fn parse_time_value(chars: &Vec<char>, lo: usize, hi: usize) -> (r: Option<u64>)
    requires
        lo <= hi <= chars@.len(),
    ensures
        ({
            let v = chars@.subrange(lo as int, hi as int);
            match r {
                Some(t) => is_valid_time(v) && t == stored_time(v),
                None => !is_valid_time(v),
            }
        }),
{
    let ghost v = chars@.subrange(lo as int, hi as int);
    let n: usize = hi - lo;
    // locate the decimal point
    let mut d: usize = 0;
    while d < n && chars[lo + d] != '.'
        invariant
            lo <= hi <= chars@.len(),
            n == hi - lo,
            v == chars@.subrange(lo as int, hi as int),
            d <= n,
            forall|i: int| 0 <= i < d ==> v[i] != '.',
        decreases n - d,
    {
        d = d + 1;
    }
    proof {
        lemma_find_from_is(v, 0, d as int, '.');
    }
    if d == n {
        if n == 0 {
            return None;
        }
    } else {
        if n < 2 {
            return None;
        }
    }
    // every character outside the decimal point must be a digit
    let mut i: usize = 0;
    while i < d
        invariant
            lo <= hi <= chars@.len(),
            n == hi - lo,
            v == chars@.subrange(lo as int, hi as int),
            d <= n,
            i <= d,
            find_from(v, 0, '.') == d,
            forall|l: int| 0 <= l < i ==> is_digit(#[trigger] v[l]),
        decreases d - i,
    {
        if !digit_char(chars[lo + i]) {
            assert(v.subrange(0, d as int)[i as int] == v[i as int]);
            assert(!all_digits(v.subrange(0, d as int)));
            assert(v.subrange(0, n as int) =~= v);
            assert(!all_digits(v));
            return None;
        }
        i = i + 1;
    }
    assert(all_digits(v.subrange(0, d as int)));
    if d < n {
        let mut i2: usize = d + 1;
        while i2 < n
            invariant
                lo <= hi <= chars@.len(),
                n == hi - lo,
                v == chars@.subrange(lo as int, hi as int),
                d < n,
                d + 1 <= i2 <= n,
                find_from(v, 0, '.') == d,
                forall|l: int| d + 1 <= l < i2 ==> is_digit(#[trigger] v[l]),
            decreases n - i2,
        {
            if !digit_char(chars[lo + i2]) {
                assert(v.subrange(d + 1, n as int)[i2 - d - 1] == v[i2 as int]);
                assert(!all_digits(v.subrange(d + 1, n as int)));
                return None;
            }
            i2 = i2 + 1;
        }
        assert(all_digits(v.subrange(d + 1, n as int))) by {
            assert(forall|l: int|
                0 <= l < n - d - 1 ==> #[trigger] v.subrange(d + 1, n as int)[l] == v[d + 1 + l]);
        }
    }
    // the integer part, in microseconds
    let int_part = read_digits(chars, lo, lo + d);
    proof {
        assert(chars@.subrange(lo as int, lo + d) =~= v.subrange(0, d as int));
        if d == n {
            assert(v.subrange(0, d as int) =~= v);
        }
    }
    // the fractional part: the first six digits, scaled to microseconds
    let frac: u64 = if d < n {
        let flen: usize = n - d - 1;
        let take: usize = if flen >= 6 {
            6
        } else {
            flen
        };
        let ghost vfrac = v.subrange(d + 1, n as int);
        let ghost ftaken = chars@.subrange(lo + d + 1, lo + d + 1 + take);
        proof {
            assert(forall|l: int| 0 <= l < take ==> #[trigger] ftaken[l] == v[d + 1 + l]);
            assert(ftaken =~= vfrac.subrange(0, take as int));
            assert(all_digits(ftaken));
            lemma_digits_int_bound(ftaken);
            lemma_pow10_values();
            if take != 6 {
                assert(vfrac.subrange(0, take as int) =~= vfrac);
            }
        }
        let fv = read_digits(chars, lo + d + 1, lo + d + 1 + take);
        proof {
            assert(digits_int(ftaken) < pow10(take as int));
        }
        if take == 6 {
            fv
        } else if take == 5 {
            assert(fv < 100000);
            fv * 10
        } else if take == 4 {
            assert(fv < 10000);
            fv * 100
        } else if take == 3 {
            assert(fv < 1000);
            fv * 1000
        } else if take == 2 {
            assert(fv < 100);
            fv * 10000
        } else if take == 1 {
            assert(fv < 10);
            fv * 100000
        } else {
            0
        }
    } else {
        0
    };
    proof {
        lemma_pow10_values();
        if d < n {
            assert(frac == frac_micros(v.subrange(d + 1, n as int)));
            assert(frac < 1000000);
        }
    }
    // combine, saturating at u64::MAX
    let ghost it = digits_int(v.subrange(0, d as int));
    proof {
        lemma_digits_int_bound(v.subrange(0, d as int));
        if it > u64::MAX {
            assert(it * 1000000 >= it) by (nonlinear_arith)
                requires
                    it >= 0,
            ;
        }
    }
    let total = match int_part.checked_mul(1000000) {
        Some(x) => match x.checked_add(frac) {
            Some(y) => y,
            None => u64::MAX,
        },
        None => u64::MAX,
    };
    assert(total == stored_time(v));
    Some(total)
}

// ---------------------------------------------------------------------------
// Summarizing one line
// ---------------------------------------------------------------------------

/// Whether `chars[a..b]` is exactly the four characters `k0 k1 k2 k3`.
fn key_equals(chars: &Vec<char>, a: usize, b: usize, k0: char, k1: char, k2: char, k3: char) -> (r:
    bool)
    requires
        a <= b <= chars@.len(),
    ensures
        r == (chars@.subrange(a as int, b as int) == seq![k0, k1, k2, k3]),
{
    let r = b - a == 4 && chars[a] == k0 && chars[a + 1] == k1 && chars[a + 2] == k2 && chars[a + 3]
        == k3;
    proof {
        let sub = chars@.subrange(a as int, b as int);
        if r {
            assert(sub =~= seq![k0, k1, k2, k3]);
        } else {
            if b - a == 4 {
                assert(sub.len() == 4);
                assert(sub[0] == chars@[a as int]);
                assert(sub[1] == chars@[a as int + 1]);
                assert(sub[2] == chars@[a as int + 2]);
                assert(sub[3] == chars@[a as int + 3]);
                assert(sub != seq![k0, k1, k2, k3]);
            } else {
                assert(sub.len() != 4);
            }
        }
    }
    r
}

/// Reads one line: the spans (global indices) of the last `file` value, the
/// stored microseconds of the last `time` value, or the span of the first
/// malformed `time` value.
fn line_summary(chars: &Vec<char>, lo: usize, hi: usize) -> (r: Result<
    (Option<(usize, usize)>, Option<u64>),
    (usize, usize),
>)
    requires
        lo <= hi <= chars@.len(),
    ensures
        ({
            let line = chars@.subrange(lo as int, hi as int);
            match r {
                Err((a, b)) => {
                    &&& lo <= a <= b <= hi
                    &&& line_bad(line) == Some(chars@.subrange(a as int, b as int))
                },
                Ok((file, time)) => {
                    &&& line_bad(line) is None
                    &&& match file {
                        None => line_file(line) is None,
                        Some((a, b)) => lo <= a <= b <= hi && line_file(line) == Some(
                            chars@.subrange(a as int, b as int),
                        ),
                    }
                    &&& match time {
                        None => line_time(line) is None,
                        Some(t) => line_time(line) is Some && is_valid_time(line_time(line)->0)
                            && t == stored_time(line_time(line)->0),
                    }
                },
            }
        }),
{
    let ghost line = chars@.subrange(lo as int, hi as int);
    let spans = scan_line(chars, lo, hi);
    let ghost pairs = spans_pairs(line, spans@);
    let n = spans.len();
    let mut file_span: Option<(usize, usize)> = None;
    let mut time_val: Option<u64> = None;
    let mut i: usize = 0;
    while i < n
        invariant
            lo <= hi <= chars@.len(),
            line == chars@.subrange(lo as int, hi as int),
            n == spans@.len(),
            pairs == spans_pairs(line, spans@),
            pairs == scan_attrs(line, 0),
            forall|l: int| 0 <= l < spans@.len() ==> span_wf(#[trigger] spans@[l], line.len() as int),
            i <= n,
            forall|l: int| 0 <= l < i ==> !bad_pair(#[trigger] pairs[l]),
            match file_span {
                None => last_value_of(pairs.take(i as int), file_key()) is None,
                Some((a, b)) => lo <= a <= b <= hi && last_value_of(pairs.take(i as int), file_key())
                    == Some(chars@.subrange(a as int, b as int)),
            },
            ({
                let lv = last_value_of(pairs.take(i as int), time_key());
                match time_val {
                    None => lv is None,
                    Some(t) => lv is Some && is_valid_time(lv->0) && t == stored_time(lv->0),
                }
            }),
        decreases n - i,
    {
        let sp = spans[i];
        proof {
            assert(pairs[i as int] == span_pair(line, spans@[i as int]));
            assert(line.subrange(sp.key_lo as int, sp.key_hi as int) =~= chars@.subrange(
                lo + sp.key_lo,
                lo + sp.key_hi,
            ));
            assert(line.subrange(sp.val_lo as int, sp.val_hi as int) =~= chars@.subrange(
                lo + sp.val_lo,
                lo + sp.val_hi,
            ));
            assert(pairs.take(i + 1).drop_last() =~= pairs.take(i as int));
            assert(pairs.take(i + 1).last() == pairs[i as int]);
        }
        let is_time = key_equals(chars, lo + sp.key_lo, lo + sp.key_hi, 't', 'i', 'm', 'e');
        proof {
            assert(time_key() =~= seq!['t', 'i', 'm', 'e']);
            assert(file_key() =~= seq!['f', 'i', 'l', 'e']);
            assert(time_key() != file_key());
        }
        if is_time {
            match parse_time_value(chars, lo + sp.val_lo, lo + sp.val_hi) {
                Some(t) => {
                    time_val = Some(t);
                },
                None => {
                    proof {
                        lemma_first_bad_at(pairs, i as int);
                    }
                    return Err((lo + sp.val_lo, lo + sp.val_hi));
                },
            }
        } else {
            let is_file = key_equals(chars, lo + sp.key_lo, lo + sp.key_hi, 'f', 'i', 'l', 'e');
            if is_file {
                file_span = Some((lo + sp.val_lo, lo + sp.val_hi));
            }
        }
        i = i + 1;
    }
    proof {
        assert(pairs.take(n as int) =~= pairs);
        lemma_first_bad_none(pairs);
    }
    Ok((file_span, time_val))
}

// ---------------------------------------------------------------------------
// Accumulating records
// ---------------------------------------------------------------------------

proof fn lemma_upsert_found(m: Seq<(Seq<char>, int)>, path: Seq<char>, t: int, i: int)
    requires
        0 <= i < m.len(),
        forall|l: int| 0 <= l < i ==> (#[trigger] m[l]).0 != path,
        m[i].0 == path,
    ensures
        upsert(m, path, t) == m.update(i, (m[i].0, clamp_u64(m[i].1 + t))),
    decreases i,
{
    if i == 0 {
        assert(m.first() == m[0]);
        assert(upsert(m, path, t) =~= m.update(0, (m[0].0, clamp_u64(m[0].1 + t))));
    } else {
        assert(m.first() == m[0]);
        assert(m[0].0 != path);
        assert(forall|l: int| 0 <= l < m.len() - 1 ==> #[trigger] m.drop_first()[l] == m[l + 1]);
        lemma_upsert_found(m.drop_first(), path, t, i - 1);
        assert(upsert(m, path, t) =~= m.update(i, (m[i].0, clamp_u64(m[i].1 + t))));
    }
}

proof fn lemma_upsert_absent(m: Seq<(Seq<char>, int)>, path: Seq<char>, t: int)
    requires
        forall|l: int| 0 <= l < m.len() ==> (#[trigger] m[l]).0 != path,
    ensures
        upsert(m, path, t) == m.push((path, t)),
    decreases m.len(),
{
    if m.len() == 0 {
        assert(upsert(m, path, t) =~= m.push((path, t)));
    } else {
        assert(m.first() == m[0]);
        assert(forall|l: int| 0 <= l < m.len() - 1 ==> #[trigger] m.drop_first()[l] == m[l + 1]);
        lemma_upsert_absent(m.drop_first(), path, t);
        assert(upsert(m, path, t) =~= m.push((path, t)));
    }
}

/// Adds `t` microseconds to `path`'s record, saturating at `u64::MAX`; an
/// unknown path opens a new record at the end.
fn add_timing(recs: &mut Vec<FileTiming>, path: String, t: u64)
    ensures
        recs_model(final(recs)@) == upsert(recs_model(old(recs)@), path@, t as int),
{
    let n = recs.len();
    let mut i: usize = 0;
    while i < n
        invariant
            recs@ == old(recs)@,
            n == recs@.len(),
            i <= n,
            forall|l: int| 0 <= l < i ==> (#[trigger] recs@[l]).file_path@ != path@,
        decreases n - i,
    {
        if recs[i].file_path == path {
            let nt = match recs[i].total_time.checked_add(t) {
                Some(x) => x,
                None => u64::MAX,
            };
            let ghost m = recs_model(recs@);
            proof {
                assert(m[i as int] == timing_rec(recs@[i as int]));
                assert(forall|l: int| 0 <= l < i ==> (#[trigger] m[l]).0 != path@);
                lemma_upsert_found(m, path@, t as int, i as int);
            }
            recs[i].total_time = nt;
            proof {
                assert(recs_model(recs@) =~= m.update(
                    i as int,
                    (m[i as int].0, clamp_u64(m[i as int].1 + t)),
                ));
            }
            return;
        }
        i = i + 1;
    }
    let ghost m = recs_model(recs@);
    proof {
        assert(forall|l: int| 0 <= l < m.len() ==> (#[trigger] m[l]).0 == recs@[l].file_path@);
        lemma_upsert_absent(m, path@, t as int);
    }
    recs.push(FileTiming { file_path: path, total_time: t });
    proof {
        assert(recs_model(recs@) =~= m.push((path@, t as int)));
    }
}

// ---------------------------------------------------------------------------
// The extractor
// ---------------------------------------------------------------------------

/// Extracts one timing record per distinct `file` path from report text, in
/// order of first appearance, accumulating `time` seconds as saturating whole
/// microseconds; fails on the first `time` value that is not an unsigned
/// decimal number.
pub fn parse_rspec_output(rspec_output: &str) -> (r: Result<Vec<FileTiming>, ParseError>)
    ensures
        match r {
            Ok(timings) => extract_model(rspec_output@) is Ok && recs_model(timings@)
                == extract_model(rspec_output@)->Ok_0,
            Err(e) => extract_model(rspec_output@) is Err && e.value@ == extract_model(
                rspec_output@,
            )->Err_0,
        },
{
    let chars = chars_of(rspec_output);
    let len = chars.len();
    let mut recs: Vec<FileTiming> = Vec::new();
    let mut pos: usize = 0;
    proof {
        assert(recs_model(recs@) =~= Seq::<(Seq<char>, int)>::empty());
        assert(chars@.skip(0) =~= chars@);
    }
    while pos < len
        invariant
            chars@ == rspec_output@,
            len == chars@.len(),
            pos <= len,
            extract_rec(lines_of(chars@.skip(pos as int)), recs_model(recs@)) == extract_model(
                rspec_output@,
            ),
        decreases len - pos,
    {
        let ghost suffix = chars@.skip(pos as int);
        // find the end of the current line
        let mut nl: usize = pos;
        while nl < len && chars[nl] != '\n'
            invariant
                len == chars@.len(),
                pos <= nl <= len,
                forall|l: int| pos <= l < nl ==> chars@[l] != '\n',
            decreases len - nl,
        {
            nl = nl + 1;
        }
        proof {
            assert(forall|l: int| 0 <= l < suffix.len() ==> #[trigger] suffix[l] == chars@[pos + l]);
            lemma_find_from_is(suffix, 0, (nl - pos) as int, '\n');
        }
        // shed one carriage return before the newline
        let lend: usize = if nl < len && nl > pos && chars[nl - 1] == '\r' {
            nl - 1
        } else {
            nl
        };
        let ghost lineg = chars@.subrange(pos as int, lend as int);
        let next_pos: usize = if nl < len {
            nl + 1
        } else {
            len
        };
        let ghost rest = lines_of(chars@.skip(next_pos as int));
        proof {
            if nl == len {
                assert(lineg =~= suffix);
                assert(lines_of(suffix) == seq![suffix]);
                assert(chars@.skip(next_pos as int) =~= Seq::<char>::empty());
                assert(rest =~= Seq::<Seq<char>>::empty());
                assert(lines_of(suffix) =~= seq![lineg] + rest);
            } else {
                let seg = suffix.subrange(0, (nl - pos) as int);
                assert(seg =~= chars@.subrange(pos as int, nl as int));
                if nl > pos && chars@[nl - 1] == '\r' {
                    assert(seg.last() == chars@[nl - 1]);
                    assert(strip_cr(seg) =~= lineg);
                } else {
                    if seg.len() > 0 {
                        assert(seg.last() == chars@[nl - 1]);
                    }
                    assert(strip_cr(seg) =~= lineg);
                }
                assert(suffix.subrange((nl - pos) + 1, suffix.len() as int) =~= chars@.skip(
                    next_pos as int,
                ));
                assert(lines_of(suffix) == seq![lineg] + rest);
            }
            assert((seq![lineg] + rest).first() == lineg);
            assert((seq![lineg] + rest).drop_first() =~= rest);
        }
        let ghost old_model = recs_model(recs@);
        match line_summary(&chars, pos, lend) {
            Err((a, b)) => {
                proof {
                    assert(extract_rec(lines_of(suffix), old_model) == Err::<Seq<(Seq<char>, int)>, Seq<char>>(line_bad(lineg)->0));
                }
                let value = String::from_str(rspec_output.substring_char(a, b));
                return Err(ParseError { value });
            },
            Ok((file_opt, time_opt)) => {
                match (file_opt, time_opt) {
                    (Some((fa, fb)), Some(t)) => {
                        let path = String::from_str(rspec_output.substring_char(fa, fb));
                        add_timing(&mut recs, path, t);
                        proof {
                            assert(recs_model(recs@) == line_apply(old_model, lineg));
                        }
                    },
                    _ => {
                        proof {
                            assert(recs_model(recs@) == line_apply(old_model, lineg));
                        }
                    },
                }
                proof {
                    assert(extract_rec(lines_of(suffix), old_model) == extract_rec(
                        rest,
                        line_apply(old_model, lineg),
                    ));
                }
                pos = next_pos;
            },
        }
    }
    proof {
        assert(chars@.skip(len as int) =~= Seq::<char>::empty());
        assert(lines_of(chars@.skip(len as int)) == Seq::<Seq<char>>::empty());
    }
    Ok(recs)
}

// ---------------------------------------------------------------------------
// Laws of the extractor
// ---------------------------------------------------------------------------

/// Whether `line` contributes a timing increment for `path`: both keys are
/// present and the last `file` value is `path`.
pub open spec fn line_gives(line: Seq<char>, path: Seq<char>) -> bool {
    line_file(line) is Some && line_time(line) is Some && line_file(line)->0 == path
}

/// Whether any of `lines` contributes a timing increment for `path`.
pub open spec fn contributes(lines: Seq<Seq<char>>, path: Seq<char>) -> bool
    decreases lines.len()
{
    if lines.len() == 0 {
        false
    } else {
        line_gives(lines.first(), path) || contributes(lines.drop_first(), path)
    }
}

/// The plain (unsaturated) sum of all increments `lines` contribute to
/// `path`.
pub open spec fn path_sum(lines: Seq<Seq<char>>, path: Seq<char>) -> int
    decreases lines.len()
{
    if lines.len() == 0 {
        0
    } else {
        (if line_gives(lines.first(), path) {
            stored_time(line_time(lines.first())->0)
        } else {
            0
        }) + path_sum(lines.drop_first(), path)
    }
}

pub open spec fn appears(m: Seq<(Seq<char>, int)>, p: Seq<char>) -> bool {
    exists|i: int| 0 <= i < m.len() && (#[trigger] m[i]).0 == p
}

/// The total recorded for `p` (meaningful where `p` appears and paths are
/// distinct).
pub open spec fn val_of(m: Seq<(Seq<char>, int)>, p: Seq<char>) -> int {
    let i = choose|i: int| 0 <= i < m.len() && (#[trigger] m[i]).0 == p;
    m[i].1
}

pub open spec fn distinct_paths(m: Seq<(Seq<char>, int)>) -> bool {
    forall|i: int, j: int| 0 <= i < j < m.len() ==> m[i].0 != m[j].0
}

pub open spec fn entries_bounded(m: Seq<(Seq<char>, int)>) -> bool {
    forall|i: int| 0 <= i < m.len() ==> 0 <= (#[trigger] m[i]).1 <= u64::MAX
}

proof fn lemma_pow10_pos(n: int)
    ensures
        pow10(n) >= 1,
    decreases
            (if n <= 0 {
                0int
            } else {
                n
            }),
{
    if n > 0 {
        lemma_pow10_pos(n - 1);
    }
}

/// A well-formed time value denotes a nonnegative number of microseconds.
pub proof fn lemma_stored_time_bounds(v: Seq<char>)
    requires
        is_valid_time(v),
    ensures
        0 <= stored_time(v) <= u64::MAX,
{
    lemma_find_from(v, 0, '.');
    let d = find_from(v, 0, '.');
    if d == v.len() {
        lemma_digits_int_bound(v);
        assert(digits_int(v) * 1000000 >= 0) by (nonlinear_arith)
            requires
                digits_int(v) >= 0,
        ;
    } else {
        let ip = v.subrange(0, d);
        let fp = v.subrange(d + 1, v.len() as int);
        lemma_digits_int_bound(ip);
        assert(digits_int(ip) * 1000000 >= 0) by (nonlinear_arith)
            requires
                digits_int(ip) >= 0,
        ;
        if fp.len() >= 6 {
            assert(forall|l: int| 0 <= l < 6 ==> #[trigger] fp.subrange(0, 6)[l] == fp[l]);
            lemma_digits_int_bound(fp.subrange(0, 6));
        } else {
            lemma_digits_int_bound(fp);
            lemma_pow10_pos(6 - fp.len());
            assert(digits_int(fp) * pow10(6 - fp.len()) >= 0) by (nonlinear_arith)
                requires
                    digits_int(fp) >= 0,
                    pow10(6 - fp.len()) >= 1,
            ;
        }
    }
}

proof fn lemma_last_value_none_all(pairs: Seq<(Seq<char>, Seq<char>)>, key: Seq<char>)
    requires
        last_value_of(pairs, key) is None,
    ensures
        forall|i: int| 0 <= i < pairs.len() ==> (#[trigger] pairs[i]).0 != key,
    decreases pairs.len(),
{
    if pairs.len() > 0 {
        lemma_last_value_none_all(pairs.drop_last(), key);
        assert(forall|i: int|
            0 <= i < pairs.len() - 1 ==> #[trigger] pairs[i] == pairs.drop_last()[i]);
        assert(pairs[pairs.len() - 1] == pairs.last());
    }
}

proof fn lemma_first_bad_none_all(pairs: Seq<(Seq<char>, Seq<char>)>)
    requires
        first_bad_time(pairs) is None,
    ensures
        forall|i: int| 0 <= i < pairs.len() ==> !bad_pair(#[trigger] pairs[i]),
    decreases pairs.len(),
{
    if pairs.len() > 0 {
        lemma_first_bad_none_all(pairs.drop_first());
        assert(forall|i: int|
            1 <= i < pairs.len() ==> #[trigger] pairs[i] == pairs.drop_first()[i - 1]);
        assert(pairs[0] == pairs.first());
    }
}

proof fn lemma_last_value_good(pairs: Seq<(Seq<char>, Seq<char>)>)
    requires
        forall|i: int| 0 <= i < pairs.len() ==> !bad_pair(#[trigger] pairs[i]),
        last_value_of(pairs, time_key()) is Some,
    ensures
        is_valid_time(last_value_of(pairs, time_key())->0),
    decreases pairs.len(),
{
    if pairs.len() > 0 {
        assert(pairs[pairs.len() - 1] == pairs.last());
        if pairs.last().0 == time_key() {
            assert(!bad_pair(pairs.last()));
        } else {
            assert(forall|i: int|
                0 <= i < pairs.len() - 1 ==> #[trigger] pairs[i] == pairs.drop_last()[i]);
            lemma_last_value_good(pairs.drop_last());
        }
    }
}

/// Tolerance law: a line lacking a `file` token or lacking a `time` token
/// contributes nothing; and a line lacking a `time` token cannot fail.
pub proof fn lemma_tolerance(acc: Seq<(Seq<char>, int)>, line: Seq<char>)
    ensures
        line_file(line) is None || line_time(line) is None ==> line_apply(acc, line) == acc,
        line_time(line) is None ==> line_bad(line) is None,
{
    if line_time(line) is None {
        lemma_last_value_none_all(scan_attrs(line, 0), time_key());
        lemma_first_bad_none(scan_attrs(line, 0));
    }
}

proof fn lemma_clamp_add(a: int, b: int)
    requires
        0 <= a,
        0 <= b,
    ensures
        clamp_u64(clamp_u64(a) + b) == clamp_u64(a + b),
{
}

proof fn lemma_upsert_props(m: Seq<(Seq<char>, int)>, path: Seq<char>, t: int)
    requires
        distinct_paths(m),
        entries_bounded(m),
        0 <= t <= u64::MAX,
    ensures
        distinct_paths(upsert(m, path, t)),
        entries_bounded(upsert(m, path, t)),
        forall|q: Seq<char>| appears(upsert(m, path, t), q) <==> (appears(m, q) || q == path),
        forall|q: Seq<char>|
            q != path && appears(m, q) ==> #[trigger] val_of(upsert(m, path, t), q) == val_of(m, q),
        val_of(upsert(m, path, t), path) == clamp_u64(
            (if appears(m, path) {
                val_of(m, path)
            } else {
                0
            }) + t,
        ),
{
    let up = upsert(m, path, t);
    if appears(m, path) {
        let i = choose|i: int| 0 <= i < m.len() && (#[trigger] m[i]).0 == path;
        assert(forall|l: int| 0 <= l < m.len() && l != i ==> (#[trigger] m[l]).0 != path);
        lemma_upsert_found(m, path, t, i);
        assert(up == m.update(i, (m[i].0, clamp_u64(m[i].1 + t))));
        assert forall|q: Seq<char>| appears(up, q) implies (appears(m, q) || q == path) by {
            let w = choose|w: int| 0 <= w < up.len() && (#[trigger] up[w]).0 == q;
            assert(m[w].0 == q || (w == i && q == path));
        }
        assert forall|q: Seq<char>| appears(m, q) || q == path implies appears(up, q) by {
            if appears(m, q) {
                let w = choose|w: int| 0 <= w < m.len() && (#[trigger] m[w]).0 == q;
                assert(up[w].0 == q);
            } else {
                assert(up[i].0 == path);
            }
        }
        assert forall|q: Seq<char>| q != path && appears(m, q) implies #[trigger] val_of(up, q)
            == val_of(m, q) by {
            let w = choose|w: int| 0 <= w < up.len() && (#[trigger] up[w]).0 == q;
            let w0 = choose|w: int| 0 <= w < m.len() && (#[trigger] m[w]).0 == q;
            assert(w != i);
            assert(m[w].0 == q);
            assert(w == w0 || m[w0].0 == m[w].0);
            assert(up[w0] == m[w0]);
        }
        assert(up[i].0 == path);
        let w = choose|w: int| 0 <= w < up.len() && (#[trigger] up[w]).0 == path;
        assert(w == i);
        assert(val_of(m, path) == m[i].1) by {
            let w0 = choose|w0: int| 0 <= w0 < m.len() && (#[trigger] m[w0]).0 == path;
            assert(w0 == i);
        }
    } else {
        assert(forall|l: int| 0 <= l < m.len() ==> (#[trigger] m[l]).0 != path);
        lemma_upsert_absent(m, path, t);
        assert(up == m.push((path, t)));
        assert(up[m.len() as int].0 == path);
        assert forall|q: Seq<char>| appears(up, q) implies (appears(m, q) || q == path) by {
            let w = choose|w: int| 0 <= w < up.len() && (#[trigger] up[w]).0 == q;
            if w < m.len() {
                assert(m[w].0 == q);
            }
        }
        assert forall|q: Seq<char>| appears(m, q) || q == path implies appears(up, q) by {
            if appears(m, q) {
                let w = choose|w: int| 0 <= w < m.len() && (#[trigger] m[w]).0 == q;
                assert(up[w].0 == q);
            }
        }
        assert forall|q: Seq<char>| q != path && appears(m, q) implies #[trigger] val_of(up, q)
            == val_of(m, q) by {
            let w = choose|w: int| 0 <= w < up.len() && (#[trigger] up[w]).0 == q;
            let w0 = choose|w: int| 0 <= w < m.len() && (#[trigger] m[w]).0 == q;
            assert(w < m.len());
            assert(up[w0] == m[w0]);
        }
        let w = choose|w: int| 0 <= w < up.len() && (#[trigger] up[w]).0 == path;
        assert(w == m.len());
    }
}

proof fn lemma_path_sum_nonneg(lines: Seq<Seq<char>>, p: Seq<char>)
    requires
        forall|i: int| 0 <= i < lines.len() ==> line_bad(#[trigger] lines[i]) is None,
    ensures
        path_sum(lines, p) >= 0,
    decreases lines.len(),
{
    if lines.len() > 0 {
        assert(lines[0] == lines.first());
        if line_gives(lines.first(), p) {
            lemma_first_bad_none_all(scan_attrs(lines.first(), 0));
            lemma_last_value_good(scan_attrs(lines.first(), 0));
            lemma_stored_time_bounds(line_time(lines.first())->0);
        }
        assert(forall|i: int|
            0 <= i < lines.len() - 1 ==> #[trigger] lines.drop_first()[i] == lines[i + 1]);
        lemma_path_sum_nonneg(lines.drop_first(), p);
    }
}

proof fn lemma_extract_acc(lines: Seq<Seq<char>>, acc: Seq<(Seq<char>, int)>)
    requires
        extract_rec(lines, acc) is Ok,
        distinct_paths(acc),
        entries_bounded(acc),
    ensures
        ({
            let out = extract_rec(lines, acc)->Ok_0;
            &&& distinct_paths(out)
            &&& entries_bounded(out)
            &&& forall|p: Seq<char>|
                #[trigger] appears(out, p) <==> (appears(acc, p) || contributes(lines, p))
            &&& forall|p: Seq<char>|
                #[trigger] appears(out, p) ==> val_of(out, p) == clamp_u64(
                    (if appears(acc, p) {
                        val_of(acc, p)
                    } else {
                        0
                    }) + path_sum(lines, p),
                )
            &&& forall|i: int| 0 <= i < lines.len() ==> line_bad(#[trigger] lines[i]) is None
        }),
    decreases lines.len(),
{
    let out = extract_rec(lines, acc)->Ok_0;
    if lines.len() == 0 {
        assert(out == acc);
        assert forall|p: Seq<char>| #[trigger] appears(out, p) implies val_of(out, p) == clamp_u64(
            (if appears(acc, p) {
                val_of(acc, p)
            } else {
                0
            }) + path_sum(lines, p),
        ) by {
            let w = choose|w: int| 0 <= w < acc.len() && (#[trigger] acc[w]).0 == p;
            assert(0 <= val_of(acc, p) <= u64::MAX);
        }
    } else {
        let line = lines.first();
        let rest = lines.drop_first();
        let acc1 = line_apply(acc, line);
        assert(forall|i: int|
            0 <= i < lines.len() - 1 ==> #[trigger] rest[i] == lines[i + 1]);
        assert(lines[0] == lines.first());
        if line_file(line) is Some && line_time(line) is Some {
            let path = line_file(line)->0;
            let t = stored_time(line_time(line)->0);
            lemma_first_bad_none_all(scan_attrs(line, 0));
            lemma_last_value_good(scan_attrs(line, 0));
            lemma_stored_time_bounds(line_time(line)->0);
            lemma_upsert_props(acc, path, t);
            lemma_extract_acc(rest, acc1);
            lemma_path_sum_nonneg(rest, path);
            assert forall|p: Seq<char>| #[trigger] appears(out, p) implies val_of(out, p)
                == clamp_u64(
                (if appears(acc, p) {
                    val_of(acc, p)
                } else {
                    0
                }) + path_sum(lines, p),
            ) by {
                if p == path {
                    let base = if appears(acc, p) {
                        val_of(acc, p)
                    } else {
                        0
                    };
                    assert(val_of(acc1, p) == clamp_u64(base + t));
                    assert(val_of(out, p) == clamp_u64(val_of(acc1, p) + path_sum(rest, p)));
                    lemma_path_sum_nonneg(rest, p);
                    if appears(acc, p) {
                        let w = choose|w: int| 0 <= w < acc.len() && (#[trigger] acc[w]).0 == p;
                        assert(0 <= base);
                    }
                    lemma_clamp_add(base + t, path_sum(rest, p));
                    assert(path_sum(lines, p) == t + path_sum(rest, p));
                } else {
                    if appears(acc1, p) {
                        assert(appears(acc, p));
                        assert(val_of(acc1, p) == val_of(acc, p));
                    }
                    assert(path_sum(lines, p) == path_sum(rest, p));
                }
            }
            assert forall|p: Seq<char>| #[trigger] appears(out, p) <==> (appears(acc, p)
                || contributes(lines, p)) by {
                assert(line_gives(line, p) <==> p == path);
            }
            assert forall|i: int| 0 <= i < lines.len() implies line_bad(
                #[trigger] lines[i],
            ) is None by {
                if i > 0 {
                    assert(rest[i - 1] == lines[i]);
                }
            }
        } else {
            assert(acc1 == acc);
            lemma_tolerance(acc, line);
            lemma_extract_acc(rest, acc1);
            assert forall|p: Seq<char>| #[trigger] appears(out, p) implies val_of(out, p)
                == clamp_u64(
                (if appears(acc, p) {
                    val_of(acc, p)
                } else {
                    0
                }) + path_sum(lines, p),
            ) by {
                assert(!line_gives(line, p));
                assert(path_sum(lines, p) == path_sum(rest, p));
            }
            assert forall|p: Seq<char>| #[trigger] appears(out, p) <==> (appears(acc, p)
                || contributes(lines, p)) by {
                assert(!line_gives(line, p));
            }
            assert forall|i: int| 0 <= i < lines.len() implies line_bad(
                #[trigger] lines[i],
            ) is None by {
                if i > 0 {
                    assert(rest[i - 1] == lines[i]);
                }
            }
        }
    }
}

/// Error law: extraction fails exactly when some line carries a malformed
/// `time` value.
pub proof fn lemma_parse_error_iff(text: Seq<char>)
    ensures
        extract_model(text) is Err <==> exists|i: int|
            0 <= i < lines_of(text).len() && line_bad(#[trigger] lines_of(text)[i]) is Some,
{
    lemma_extract_err(lines_of(text), Seq::empty());
}

proof fn lemma_extract_err(lines: Seq<Seq<char>>, acc: Seq<(Seq<char>, int)>)
    ensures
        extract_rec(lines, acc) is Err <==> exists|i: int|
            0 <= i < lines.len() && line_bad(#[trigger] lines[i]) is Some,
    decreases lines.len(),
{
    if lines.len() > 0 {
        assert(lines[0] == lines.first());
        let rest = lines.drop_first();
        assert(forall|i: int| 0 <= i < lines.len() - 1 ==> #[trigger] rest[i] == lines[i + 1]);
        if line_bad(lines.first()) is Some {
        } else {
            lemma_extract_err(rest, line_apply(acc, lines.first()));
            if exists|i: int| 0 <= i < rest.len() && line_bad(#[trigger] rest[i]) is Some {
                let w = choose|i: int| 0 <= i < rest.len() && line_bad(#[trigger] rest[i]) is Some;
                assert(line_bad(lines[w + 1]) is Some);
            }
            if exists|i: int| 0 <= i < lines.len() && line_bad(#[trigger] lines[i]) is Some {
                let w = choose|i: int|
                    0 <= i < lines.len() && line_bad(#[trigger] lines[i]) is Some;
                assert(w > 0);
                assert(line_bad(rest[w - 1]) is Some);
            }
        }
    }
}

/// Accumulation law: in a successful extraction there is exactly one record
/// per contributing path — its total the saturated sum of that path's
/// per-line increments — and no record for any other path.
pub proof fn lemma_accumulation(text: Seq<char>)
    requires
        extract_model(text) is Ok,
    ensures
        ({
            let recs = extract_model(text)->Ok_0;
            let lines = lines_of(text);
            &&& distinct_paths(recs)
            &&& forall|p: Seq<char>| #[trigger] appears(recs, p) <==> contributes(lines, p)
            &&& forall|p: Seq<char>|
                #[trigger] appears(recs, p) ==> val_of(recs, p) == clamp_u64(path_sum(lines, p))
        }),
{
    let acc = Seq::<(Seq<char>, int)>::empty();
    lemma_extract_acc(lines_of(text), acc);
    assert(forall|p: Seq<char>| !appears(acc, p));
}

} // verus!
