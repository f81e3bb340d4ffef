//! Reading an item's times from the text that `stat` prints, and fitting
//! text into a column.

use vstd::prelude::*;
use crate::text::{chars_of, trim, trim_range, string_of, string_of_range};
use crate::query::{words, split_words};
use crate::enrich::MetaResult;

verus! {

pub open spec fn is_digit(c: char) -> bool {
    48 <= c as u32 <= 57
}

pub open spec fn digit_val(c: char) -> int {
    c as u32 - 48
}

/// The number that a string of decimal digits denotes.
pub open spec fn digits_value(s: Seq<char>) -> int
    decreases s.len(),
{
    if s.len() == 0 {
        0
    } else {
        digits_value(s.drop_last()) * 10 + digit_val(s.last())
    }
}

pub open spec fn all_digits(s: Seq<char>) -> bool {
    s.len() > 0 && forall|i: int| 0 <= i < s.len() ==> is_digit(#[trigger] s[i])
}

/// The digits of a trimmed number, after an optional `+`.
pub open spec fn unsigned_body(t: Seq<char>) -> Seq<char> {
    if t.len() > 0 && t[0] == '+' {
        t.drop_first()
    } else {
        t
    }
}

/// A time read from text: a positive decimal number that fits in `i64`,
/// as `str::parse::<i64>` reads it (surrounding whitespace aside).
pub open spec fn epoch_of(s: Seq<char>) -> Option<i64> {
    let body = unsigned_body(trim(s));
    if all_digits(body) && 0 < digits_value(body) <= i64::MAX {
        Some(digits_value(body) as i64)
    } else {
        None
    }
}

pub proof fn lemma_digits_nonneg(s: Seq<char>)
    requires
        forall|i: int| 0 <= i < s.len() ==> is_digit(#[trigger] s[i]),
    ensures
        digits_value(s) >= 0,
    decreases s.len(),
{
    if s.len() > 0 {
        lemma_digits_nonneg(s.drop_last());
    }
}

/// Seconds since the epoch read from text; `None` for text that is not a
/// number and for zero or negative values, which mark a time never set.
pub fn parse_epoch(value: &str) -> (r: Option<i64>)
    ensures
        r == epoch_of(value@),
{
    let v = chars_of(value);
    let (a, b) = trim_range(&v, 0, v.len());
    assert(v@.subrange(0, v@.len() as int) == v@);
    let ghost t = v@.subrange(a as int, b as int);
    if a == b {
        return None;
    }
    let start = if v[a] == '+' {
        a + 1
    } else {
        a
    };
    let ghost body = v@.subrange(start as int, b as int);
    assert(body == unsigned_body(t));
    if start == b {
        return None;
    }
    let limit: u64 = 9223372036854775807;
    let mut mag: u64 = 0;
    let mut k = start;
    while k < b
        invariant
            start < b <= v.len(),
            start <= k <= b,
            body == v@.subrange(start as int, b as int),
            body == unsigned_body(trim(value@)),
            mag == digits_value(v@.subrange(start as int, k as int)),
            mag <= limit,
            limit == i64::MAX,
            forall|i: int| start <= i < k ==> is_digit(#[trigger] v@[i]),
        decreases b - k,
    {
        let u = v[k] as u32;
        assert(v@.subrange(start as int, k + 1).drop_last() == v@.subrange(start as int, k as int));
        if u < 48 || u > 57 {
            assert(!is_digit(body[k - start]));
            return None;
        }
        let d = (u - 48) as u64;
        if mag > (limit - d) / 10 {
            proof {
                assert(mag * 10 + d > limit) by (nonlinear_arith)
                    requires
                        mag > (limit - d) / 10,
                        d <= 9,
                        limit >= 9,
                ;
                if all_digits(body) {
                    lemma_digits_prefix_grows(body, k + 1 - start);
                    assert(body.subrange(0, k + 1 - start) == v@.subrange(start as int, k + 1));
                }
            }
            return None;
        }
        assert(mag * 10 + d <= limit) by (nonlinear_arith)
            requires
                mag <= (limit - d) / 10,
                d <= 9,
                limit >= 9,
        ;
        mag = mag * 10 + d;
        k = k + 1;
    }
    proof {
        assert forall|i: int| 0 <= i < body.len() implies is_digit(#[trigger] body[i]) by {
            assert(body[i] == v@[start + i]);
        }
    }
    if mag == 0 {
        None
    } else {
        Some(mag as i64)
    }
}

/// A digit string's value is at least that of each of its prefixes.
pub proof fn lemma_digits_prefix_grows(s: Seq<char>, n: int)
    requires
        0 <= n <= s.len(),
        forall|i: int| 0 <= i < s.len() ==> is_digit(#[trigger] s[i]),
    ensures
        digits_value(s.subrange(0, n)) <= digits_value(s),
    decreases s.len(),
{
    if n < s.len() {
        assert(s.drop_last().subrange(0, n) == s.subrange(0, n));
        lemma_digits_prefix_grows(s.drop_last(), n);
        lemma_digits_nonneg(s.drop_last());
    } else {
        assert(s.subrange(0, n) == s);
    }
}


/// The words joined by single spaces.
pub open spec fn joined_words(ws: Seq<Seq<char>>) -> Seq<char>
    decreases ws.len(),
{
    if ws.len() == 0 {
        Seq::empty()
    } else if ws.len() == 1 {
        ws[0]
    } else {
        joined_words(ws.drop_last()) + seq![' '] + ws.last()
    }
}

/// The words of a command's output, none when there is no output.
pub open spec fn output_words(output: Option<&str>) -> Seq<Seq<char>> {
    match output {
        Some(out) => words(out@),
        None => Seq::empty(),
    }
}

/// What an item's times are, read from the output of
/// `stat -f "%m %B %Sm" -t "%Y-%m-%d %H:%M"`: the modification time, the
/// creation time, then the date to show; nothing when the output is missing
/// or has fewer than three words.
pub fn fetch_metadata(index: usize, output: Option<&str>) -> (r: MetaResult)
    ensures
        r.index == index,
        output_words(output).len() >= 3 ==> {
            let ws = output_words(output);
            &&& r.modified_epoch == epoch_of(ws[0])
            &&& r.created_epoch == epoch_of(ws[1])
            &&& r.display is Some
            &&& r.display->0@ == joined_words(ws.skip(2))
        },
        output_words(output).len() < 3 ==> r.display is None && r.modified_epoch is None
            && r.created_epoch is None,
{
    let none = MetaResult { index, display: None, modified_epoch: None, created_epoch: None };
    let out = match output {
        Some(out) => out,
        None => return none,
    };
    let parts = split_words(out);
    let ghost ws = words(out@);
    assert(ws.len() == parts@.len());
    if parts.len() < 3 {
        return none;
    }
    assert(ws[0] == parts@[0]@);
    assert(ws[1] == parts@[1]@);
    let modified = string_of(&parts[0]);
    let created = string_of(&parts[1]);
    let mut text: Vec<char> = Vec::new();
    let mut k: usize = 2;
    while k < parts.len()
        invariant
            2 <= k <= parts.len(),
            ws == parts@.map_values(|w: Vec<char>| w@),
            text@ == joined_words(ws.subrange(2, k as int)),
        decreases parts.len() - k,
    {
        assert(ws.subrange(2, k + 1).drop_last() == ws.subrange(2, k as int));
        assert(ws.subrange(2, k + 1).last() == parts@[k as int]@);
        if k > 2 {
            text.push(' ');
        }
        let w = &parts[k];
        let mut j: usize = 0;
        let ghost before = text@;
        while j < w.len()
            invariant
                j <= w.len(),
                text@ == before + w@.take(j as int),
            decreases w.len() - j,
        {
            text.push(w[j]);
            assert(w@.take(j + 1) == w@.take(j as int).push(w@[j as int]));
            j = j + 1;
        }
        assert(w@.take(w.len() as int) == w@);
        assert(text@ =~= joined_words(ws.subrange(2, k + 1)));
        k = k + 1;
    }
    assert(ws.subrange(2, ws.len() as int) == ws.skip(2));
    MetaResult {
        index,
        display: Some(string_of(&text)),
        modified_epoch: parse_epoch(modified.as_str()),
        created_epoch: parse_epoch(created.as_str()),
    }
}

/// The width of the date column.
pub const DATE_WIDTH: usize = 16;

/// The date cut to the column's width, or right-aligned in it.
pub open spec fn date_cell(v: Seq<char>) -> Seq<char> {
    if v.len() > DATE_WIDTH {
        v.take(DATE_WIDTH as int)
    } else {
        Seq::new((DATE_WIDTH - v.len()) as nat, |i: int| ' ') + v
    }
}

pub fn format_date_display(value: &str) -> (r: String)
    ensures
        r@ == date_cell(value@),
{
    let v = chars_of(value);
    if v.len() > DATE_WIDTH {
        return string_of_range(&v, 0, DATE_WIDTH);
    }
    let pad = DATE_WIDTH - v.len();
    let mut out: Vec<char> = Vec::new();
    let mut k: usize = 0;
    while k < pad
        invariant
            k <= pad,
            out@ == Seq::new(k as nat, |i: int| ' '),
        decreases pad - k,
    {
        out.push(' ');
        assert(out@ =~= Seq::new((k + 1) as nat, |i: int| ' '));
        k = k + 1;
    }
    let ghost spaces = out@;
    let mut j: usize = 0;
    while j < v.len()
        invariant
            j <= v.len(),
            out@ == spaces + v@.take(j as int),
        decreases v.len() - j,
    {
        out.push(v[j]);
        assert(v@.take(j + 1) == v@.take(j as int).push(v@[j as int]));
        j = j + 1;
    }
    assert(v@.take(v.len() as int) == v@);
    string_of(&out)
}

/// The text cut to at most `max` characters, ending in `...` when it was
/// cut and there is room for more than the dots.
pub open spec fn truncated(v: Seq<char>, max: int) -> Seq<char> {
    if max == 0 {
        Seq::empty()
    } else if v.len() <= max {
        v
    } else if max <= 3 {
        v.take(max)
    } else {
        v.take(max - 3) + seq!['.', '.', '.']
    }
}

pub fn truncate_with_ellipsis(value: &str, max: usize) -> (r: String)
    ensures
        r@ == truncated(value@, max as int),
{
    if max == 0 {
        return String::new();
    }
    let v = chars_of(value);
    if v.len() <= max {
        return string_of(&v);
    }
    if max <= 3 {
        return string_of_range(&v, 0, max);
    }
    let mut out: Vec<char> = Vec::new();
    let mut k: usize = 0;
    while k < max - 3
        invariant
            k <= max - 3 < v.len(),
            out@ == v@.take(k as int),
        decreases max - 3 - k,
    {
        out.push(v[k]);
        assert(v@.take(k + 1) == v@.take(k as int).push(v@[k as int]));
        k = k + 1;
    }
    out.push('.');
    out.push('.');
    out.push('.');
    assert(out@ =~= v@.take(max - 3) + seq!['.', '.', '.']);
    string_of(&out)
}

/// The characters at positions `start .. start + len` that exist.
pub open spec fn char_slice(v: Seq<char>, start: int, len: int) -> Seq<char> {
    let lo = if start < v.len() {
        start
    } else {
        v.len() as int
    };
    let hi = if start + len < v.len() {
        start + len
    } else {
        v.len() as int
    };
    if len == 0 || lo >= hi {
        Seq::empty()
    } else {
        v.subrange(lo, hi)
    }
}

pub fn substring_by_char(value: &str, start: usize, len: usize) -> (r: String)
    ensures
        r@ == char_slice(value@, start as int, len as int),
{
    if len == 0 {
        return String::new();
    }
    let v = chars_of(value);
    if start >= v.len() {
        return String::new();
    }
    let hi = if len < v.len() - start {
        start + len
    } else {
        v.len()
    };
    string_of_range(&v, start, hi)
}

} // verus!
