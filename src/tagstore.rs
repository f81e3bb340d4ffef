//! The per-path tag file: a plain text file in which one `tags = [...]`
//! assignment holds the tags as double-quoted strings. Nothing else in the
//! file is interpreted, and a rewrite keeps every other line as it was.

use vstd::prelude::*;
use crate::text::{
    trim, trim_end, index_of, before_hash, lines_of, chars_of, split_lines, trim_range, find_char,
    contains_char, string_of, is_ws_char,
};
use crate::query::views;
use crate::order::{seq_cmp, lower_of, lowercase, compare_seqs, ord_int, lemma_seq_cmp, lemma_seq_cmp_trans};
use core::cmp::Ordering;

verus! {

pub open spec fn tags_key() -> Seq<char> {
    seq!['t', 'a', 'g', 's']
}

/// A line without its comment and surrounding whitespace.
pub open spec fn clean(l: Seq<char>) -> Seq<char> {
    trim(before_hash(l))
}

/// The trimmed key and value of an assignment `key = value`.
pub open spec fn key_value(t: Seq<char>) -> Option<(Seq<char>, Seq<char>)> {
    match index_of(t, '=') {
        Some(e) => Some((trim(t.subrange(0, e)), trim(t.subrange(e + 1, t.len() as int)))),
        None => None,
    }
}

/// `o` moved `n` places on.
pub open spec fn offset(o: Option<int>, n: int) -> Option<int> {
    match o {
        Some(c) => Some(c + n),
        None => None,
    }
}

/// The position in `t` of the first `]` that stands outside a double-quoted
/// literal, `t` starting inside one when `inq`.
pub open spec fn close_at(t: Seq<char>, inq: bool) -> Option<int>
    decreases t.len(),
{
    if t.len() == 0 {
        None
    } else if t[0] == '"' {
        offset(close_at(t.drop_first(), !inq), 1)
    } else if t[0] == ']' && !inq {
        Some(0)
    } else {
        offset(close_at(t.drop_first(), inq), 1)
    }
}

/// Whether the end of `t` lies inside a double-quoted literal, `t` starting
/// inside one when `inq`.
pub open spec fn quote_end(t: Seq<char>, inq: bool) -> bool
    decreases t.len(),
{
    if t.len() == 0 {
        inq
    } else {
        quote_end(t.drop_first(), if t[0] == '"' { !inq } else { inq })
    }
}

/// The text inside the brackets of the `tags` assignment: from the first `[`
/// of its value to the first `]` after it that stands outside a quoted
/// string, lines joined by a space; `inq` tells whether the text so far ends
/// inside a quoted string. Nothing when no line assigns `tags`, when its
/// value has no `[`, or when the bracket is never closed.
pub open spec fn scan_tags(ls: Seq<Seq<char>>, in_tags: bool, inq: bool, buf: Seq<char>) -> Seq<char>
    decreases ls.len(),
{
    if ls.len() == 0 {
        Seq::empty()
    } else {
        let t = clean(ls[0]);
        let rest = ls.drop_first();
        if t.len() == 0 {
            scan_tags(rest, in_tags, inq, buf)
        } else if in_tags {
            match close_at(t, inq) {
                Some(c) => buf + t.take(c),
                None => scan_tags(rest, true, quote_end(t, inq), buf + t.push(' ')),
            }
        } else {
            match key_value(t) {
                Some((k, v)) => if k == tags_key() {
                    match index_of(v, '[') {
                        Some(b) => {
                            let after = v.skip(b + 1);
                            match close_at(after, false) {
                                Some(c) => after.take(c),
                                None => scan_tags(rest, true, quote_end(after, false), after.push(' ')),
                            }
                        },
                        None => Seq::empty(),
                    }
                } else {
                    scan_tags(rest, false, false, buf)
                },
                None => scan_tags(rest, false, false, buf),
            }
        }
    }
}

/// The first `]` of `v[lo..hi]` outside a quoted string, counted from the
/// start of `v`, and whether `v[lo..hi]` ends inside a quoted string.
fn find_close(v: &[char], lo: usize, hi: usize, inq: bool) -> (r: (Option<usize>, bool))
    requires
        lo <= hi <= v.len(),
    ensures
        r.0 matches Some(c) ==> lo <= c < hi && close_at(v@.subrange(lo as int, hi as int), inq) == Some(
            c - lo,
        ),
        r.0 is None ==> close_at(v@.subrange(lo as int, hi as int), inq) is None && r.1 == quote_end(
            v@.subrange(lo as int, hi as int),
            inq,
        ),
{
    let ghost sub = v@.subrange(lo as int, hi as int);
    let mut q = inq;
    let mut k = lo;
    assert(sub.skip(0) == sub);
    while k < hi
        invariant
            lo <= k <= hi <= v.len(),
            sub == v@.subrange(lo as int, hi as int),
            close_at(sub, inq) == offset(close_at(sub.skip(k - lo), q), k - lo),
            quote_end(sub, inq) == quote_end(sub.skip(k - lo), q),
        decreases hi - k,
    {
        let ghost rest = sub.skip(k - lo);
        assert(rest[0] == v@[k as int]);
        assert(rest.drop_first() == sub.skip(k + 1 - lo));
        let c = v[k];
        if c == ']' && !q {
            return (Some(k), q);
        }
        if c == '"' {
            q = !q;
        }
        k = k + 1;
    }
    (None, q)
}

/// The non-empty double-quoted strings of `s` that follow the partial string
/// `cur` (inside a quote when `inside`); a quote left open ends at the end.
pub open spec fn quoted_acc(s: Seq<char>, inside: bool, cur: Seq<char>) -> Seq<Seq<char>>
    decreases s.len(),
{
    if s.len() == 0 {
        if inside && cur.len() > 0 {
            seq![cur]
        } else {
            Seq::empty()
        }
    } else if !inside {
        quoted_acc(s.drop_first(), s[0] == '"', Seq::empty())
    } else if s[0] == '"' {
        (if cur.len() > 0 {
            seq![cur]
        } else {
            Seq::empty()
        }) + quoted_acc(s.drop_first(), false, Seq::empty())
    } else {
        quoted_acc(s.drop_first(), true, cur.push(s[0]))
    }
}

pub open spec fn quoted(s: Seq<char>) -> Seq<Seq<char>> {
    quoted_acc(s, false, Seq::empty())
}

/// The tags that a tag file's text holds.
pub open spec fn tags_in(contents: Seq<char>) -> Seq<Seq<char>> {
    quoted(scan_tags(lines_of(contents), false, false, Seq::empty()))
}

/// The non-empty double-quoted strings of `value`, in order.
pub fn extract_quoted_strings(value: &str) -> (r: Vec<String>)
    ensures
        views(r@) == quoted(value@),
{
    let v = chars_of(value);
    let mut r: Vec<String> = Vec::new();
    let mut inside = false;
    let mut cur: Vec<char> = Vec::new();
    let mut i: usize = 0;
    assert(v@.skip(0) == v@);
    while i < v.len()
        invariant
            i <= v.len(),
            !inside ==> cur@.len() == 0,
            quoted(v@) == views(r@) + quoted_acc(v@.skip(i as int), inside, cur@),
        decreases v.len() - i,
    {
        assert(v@.skip(i as int).drop_first() == v@.skip(i + 1));
        assert(v@.skip(i as int)[0] == v@[i as int]);
        let c = v[i];
        if !inside {
            assert(cur@ =~= Seq::<char>::empty());
            inside = c == '"';
        } else if c == '"' {
            if cur.len() > 0 {
                let ghost before = views(r@);
                let ghost rest = quoted_acc(v@.skip(i + 1), false, Seq::empty());
                r.push(string_of(&cur));
                assert(views(r@) =~= before + seq![cur@]);
                assert(before + (seq![cur@] + rest) =~= views(r@) + rest);
            } else {
                assert(quoted_acc(v@.skip(i as int), inside, cur@) == Seq::<Seq<char>>::empty()
                    + quoted_acc(v@.skip(i + 1), false, Seq::empty()));
                assert(Seq::<Seq<char>>::empty() + quoted_acc(v@.skip(i + 1), false, Seq::empty())
                    =~= quoted_acc(v@.skip(i + 1), false, Seq::empty()));
            }
            inside = false;
            cur = Vec::new();
        } else {
            cur.push(c);
        }
        i = i + 1;
    }
    assert(v@.skip(v.len() as int).len() == 0);
    if inside && cur.len() > 0 {
        let ghost before = views(r@);
        r.push(string_of(&cur));
        assert(views(r@) =~= before + seq![cur@]);
    } else {
        assert(views(r@) =~= views(r@) + Seq::<Seq<char>>::empty());
    }
    r
}

fn append_range(buf: &mut Vec<char>, v: &[char], lo: usize, hi: usize)
    requires
        lo <= hi <= v.len(),
    ensures
        final(buf)@ == old(buf)@ + v@.subrange(lo as int, hi as int),
{
    let mut k = lo;
    while k < hi
        invariant
            lo <= k <= hi <= v.len(),
            buf@ == old(buf)@ + v@.subrange(lo as int, k as int),
        decreases hi - k,
    {
        buf.push(v[k]);
        assert(v@.subrange(lo as int, k + 1) == v@.subrange(lo as int, k as int).push(v@[k as int]));
        k = k + 1;
    }
}

fn is_tags_key(v: &[char], lo: usize, hi: usize) -> (r: bool)
    requires
        lo <= hi <= v.len(),
    ensures
        r == (v@.subrange(lo as int, hi as int) == tags_key()),
{
    if hi - lo != 4 {
        assert(v@.subrange(lo as int, hi as int).len() != tags_key().len());
        return false;
    }
    let r = v[lo] == 't' && v[lo + 1] == 'a' && v[lo + 2] == 'g' && v[lo + 3] == 's';
    assert(r ==> v@.subrange(lo as int, hi as int) =~= tags_key());
    assert(v@.subrange(lo as int, hi as int) == tags_key() ==> v@.subrange(lo as int, hi as int)[0] == 't'
        && v@.subrange(lo as int, hi as int)[1] == 'a' && v@.subrange(lo as int, hi as int)[2] == 'g'
        && v@.subrange(lo as int, hi as int)[3] == 's');
    r
}

/// The tags held by a tag file's text: the strings inside the brackets of
/// its `tags = [...]` assignment, which may run over several lines; `#`
/// starts a comment.
pub fn parse_tags_from_toml(contents: &str) -> (r: Vec<String>)
    ensures
        views(r@) == tags_in(contents@),
{
    let v = chars_of(contents);
    let ls = split_lines(&v);
    let ghost lv = ls@.map_values(|l: Vec<char>| l@);
    let mut in_tags = false;
    let mut inq = false;
    let mut done = false;
    let mut buffer: Vec<char> = Vec::new();
    let mut i: usize = 0;
    assert(lv.skip(0) == lv);
    while i < ls.len() && !done
        invariant
            i <= ls.len(),
            lv == ls@.map_values(|l: Vec<char>| l@),
            lv == lines_of(contents@),
            !in_tags && !done ==> buffer@.len() == 0 && !inq,
            done ==> scan_tags(lv, false, false, Seq::empty()) == buffer@,
            !done ==> scan_tags(lv, false, false, Seq::empty()) == scan_tags(
                lv.skip(i as int),
                in_tags,
                inq,
                buffer@,
            ),
        decreases ls.len() - i,
    {
        let line = &ls[i];
        assert(lv.skip(i as int)[0] == line@);
        assert(lv.skip(i as int).drop_first() == lv.skip(i + 1));
        let n = line.len();
        let cut = match find_char(line, 0, n, '#') {
            Some(h) => h,
            None => n,
        };
        assert(line@.subrange(0, n as int) == line@);
        assert(line@.subrange(0, cut as int) == before_hash(line@));
        let (a, b) = trim_range(line, 0, cut);
        let ghost t = line@.subrange(a as int, b as int);
        assert(t == crate::tagstore::clean(line@));
        if a < b {
            if in_tags {
                let (close, q) = find_close(line, a, b, inq);
                match close {
                    Some(c) => {
                        assert(t.take(c - a) == line@.subrange(a as int, c as int));
                        append_range(&mut buffer, line, a, c);
                        done = true;
                    },
                    None => {
                        append_range(&mut buffer, line, a, b);
                        buffer.push(' ');
                        inq = q;
                    },
                }
            } else {
                assert(buffer@ == Seq::<char>::empty());
                match find_char(line, a, b, '=') {
                    Some(e) => {
                        assert(t.subrange(0, e - a) == line@.subrange(a as int, e as int));
                        assert(t.subrange(e - a + 1, t.len() as int) == line@.subrange(e + 1, b as int));
                        let (ka, kb) = trim_range(line, a, e);
                        if is_tags_key(line, ka, kb) {
                            let (va, vb) = trim_range(line, e + 1, b);
                            let ghost val = line@.subrange(va as int, vb as int);
                            match find_char(line, va, vb, '[') {
                                Some(bi) => {
                                    assert(val.skip(bi - va + 1) == line@.subrange(bi + 1, vb as int));
                                    let (close, q) = find_close(line, bi + 1, vb, false);
                                    match close {
                                        Some(c) => {
                                            assert(line@.subrange(bi + 1, vb as int).take(c - bi - 1)
                                                == line@.subrange(bi + 1, c as int));
                                            append_range(&mut buffer, line, bi + 1, c);
                                            done = true;
                                        },
                                        None => {
                                            append_range(&mut buffer, line, bi + 1, vb);
                                            buffer.push(' ');
                                            in_tags = true;
                                            inq = q;
                                        },
                                    }
                                },
                                None => {
                                    done = true;
                                },
                            }
                        }
                    },
                    None => {},
                }
            }
        }
        i = i + 1;
    }
    if !done {
        assert(lv.skip(i as int).len() == 0);
        buffer = Vec::new();
    }
    let text = string_of(&buffer);
    extract_quoted_strings(text.as_str())
}

/// A tag with each `"` escaped by a backslash.
pub open spec fn escaped(t: Seq<char>) -> Seq<char>
    decreases t.len(),
{
    if t.len() == 0 {
        t
    } else {
        escaped(t.drop_last()) + if t.last() == '"' {
            seq!['\\', '"']
        } else {
            seq![t.last()]
        }
    }
}

pub open spec fn quote(t: Seq<char>) -> Seq<char> {
    seq!['"'] + escaped(t) + seq!['"']
}

/// The quoted tags separated by `, `.
pub open spec fn joined(ts: Seq<Seq<char>>) -> Seq<char>
    decreases ts.len(),
{
    if ts.len() == 0 {
        Seq::empty()
    } else if ts.len() == 1 {
        quote(ts[0])
    } else {
        joined(ts.drop_last()) + seq![',', ' '] + quote(ts.last())
    }
}

/// The assignment line `tags = [...]`.
pub open spec fn tags_line(ts: Seq<Seq<char>>) -> Seq<char> {
    seq!['t', 'a', 'g', 's', ' ', '=', ' ', '['] + joined(ts) + seq![']']
}

/// The cleaned line assigns the `tags` key.
pub open spec fn assigns_tags(t: Seq<char>) -> bool {
    match key_value(t) {
        Some((k, _)) => k == tags_key(),
        None => false,
    }
}

/// The line assigns the `tags` key (comments aside).
pub open spec fn is_tags_line(l: Seq<char>) -> bool {
    assigns_tags(clean(l))
}

pub open spec fn first_tags_line(ls: Seq<Seq<char>>, k: int) -> Option<int>
    decreases ls.len() - k,
{
    if k < 0 || k >= ls.len() {
        None
    } else if is_tags_line(ls[k]) {
        Some(k)
    } else {
        first_tags_line(ls, k + 1)
    }
}

pub open spec fn closes(l: Seq<char>) -> bool {
    before_hash(l).contains(']')
}

pub open spec fn first_closing(ls: Seq<Seq<char>>, k: int) -> Option<int>
    decreases ls.len() - k,
{
    if k < 0 || k >= ls.len() {
        None
    } else if closes(ls[k]) {
        Some(k)
    } else {
        first_closing(ls, k + 1)
    }
}

/// The lines joined by `\n`.
pub open spec fn joined_lines(ls: Seq<Seq<char>>) -> Seq<char>
    decreases ls.len(),
{
    if ls.len() == 0 {
        Seq::empty()
    } else if ls.len() == 1 {
        ls[0]
    } else {
        joined_lines(ls.drop_last()) + seq!['\n'] + ls.last()
    }
}

/// The last line of the existing `tags` assignment that starts at line `s`.
pub open spec fn assignment_end(ls: Seq<Seq<char>>, s: int) -> int {
    if closes(ls[s]) {
        s
    } else {
        match first_closing(ls, s + 1) {
            Some(e) => e,
            None => s,
        }
    }
}

/// A tag file's text with its tags set to `ts`: the existing assignment's
/// lines replaced by one line, or that line added at the end.
pub open spec fn written(contents: Seq<char>, ts: Seq<Seq<char>>) -> Seq<char> {
    let line = tags_line(ts);
    if trim(contents).len() == 0 {
        line.push('\n')
    } else {
        let ls = lines_of(contents);
        match first_tags_line(ls, 0) {
            None => trim_end(contents).push('\n') + line.push('\n'),
            Some(s) => {
                let e = assignment_end(ls, s);
                joined_lines(ls.subrange(0, s) + seq![line] + ls.subrange(e + 1, ls.len() as int)).push('\n')
            },
        }
    }
}

fn push_str_chars(buf: &mut Vec<char>, s: &str)
    ensures
        final(buf)@ == old(buf)@ + s@,
{
    let v = chars_of(s);
    append_range(buf, &v, 0, v.len());
    assert(v@.subrange(0, v@.len() as int) == v@);
}

/// The tags as a list of double-quoted strings separated by `, `.
pub fn format_tags(tags: &[String]) -> (r: String)
    ensures
        r@ == joined(views(tags@)),
{
    let ghost tv = views(tags@);
    let mut out: Vec<char> = Vec::new();
    let mut i: usize = 0;
    while i < tags.len()
        invariant
            i <= tags.len(),
            tv == views(tags@),
            out@ == joined(tv.take(i as int)),
        decreases tags.len() - i,
    {
        assert(tv.take(i + 1).drop_last() == tv.take(i as int));
        assert(tv.take(i + 1).last() == tags@[i as int]@);
        if i > 0 {
            out.push(',');
            out.push(' ');
        }
        let ghost before = out@;
        out.push('"');
        let t = chars_of(tags[i].as_str());
        let mut k: usize = 0;
        while k < t.len()
            invariant
                k <= t.len(),
                out@ == before + seq!['"'] + escaped(t@.take(k as int)),
            decreases t.len() - k,
        {
            assert(t@.take(k + 1).drop_last() == t@.take(k as int));
            if t[k] == '"' {
                out.push('\\');
            }
            out.push(t[k]);
            k = k + 1;
        }
        assert(t@.take(t.len() as int) == t@);
        out.push('"');
        assert(out@ =~= before + quote(t@));
        i = i + 1;
    }
    assert(tv.take(tags.len() as int) == tv);
    string_of(&out)
}

/// Appends `l` to the text of `done` lines joined by `\n`.
fn emit_line(out: &mut Vec<char>, l: &[char], first: bool, done: Ghost<Seq<Seq<char>>>)
    requires
        old(out)@ == joined_lines(done@),
        first == (done@.len() == 0),
    ensures
        final(out)@ == joined_lines(done@.push(l@)),
{
    assert(done@.push(l@).drop_last() =~= done@);
    if !first {
        out.push('\n');
    }
    append_range(out, l, 0, l.len());
    assert(l@.subrange(0, l@.len() as int) == l@);
    assert(final(out)@ =~= joined_lines(done@.push(l@)));
}

/// The text of a tag file with its tags set to `tags`.
pub fn write_tags_into_toml(contents: &str, tags: &[String]) -> (r: String)
    ensures
        r@ == written(contents@, views(tags@)),
{
    let mut line: Vec<char> = Vec::new();
    push_str_chars(&mut line, "tags = [");
    let formatted = format_tags(tags);
    push_str_chars(&mut line, formatted.as_str());
    line.push(']');
    proof {
        reveal_strlit("tags = [");
        assert(line@ =~= tags_line(views(tags@)));
    }
    let v = chars_of(contents);
    let (a, b) = trim_range(&v, 0, v.len());
    assert(v@.subrange(0, v@.len() as int) == v@);
    if a == b {
        line.push('\n');
        return string_of(&line);
    }
    let ls = split_lines(&v);
    let ghost lv = ls@.map_values(|l: Vec<char>| l@);
    let mut start: Option<usize> = None;
    let mut end: Option<usize> = None;
    let mut idx: usize = 0;
    while idx < ls.len() && end.is_none()
        invariant
            idx <= ls.len(),
            lv == ls@.map_values(|l: Vec<char>| l@),
            start is None ==> first_tags_line(lv, 0) == first_tags_line(lv, idx as int),
            start matches Some(s) ==> s < idx && first_tags_line(lv, 0) == Some(s as int),
            end is None ==> (start matches Some(s) ==> !closes(lv[s as int]) && first_closing(
                lv,
                s + 1,
            ) == first_closing(lv, idx as int)),
            end matches Some(e) ==> (start matches Some(s) && e == assignment_end(lv, s as int) && e
                < ls.len()),
        decreases ls.len() - idx,
    {
        let raw = &ls[idx];
        assert(lv[idx as int] == raw@);
        let n = raw.len();
        let cut = match find_char(raw, 0, n, '#') {
            Some(h) => h,
            None => n,
        };
        assert(raw@.subrange(0, n as int) == raw@);
        assert(raw@.subrange(0, cut as int) == before_hash(raw@));
        let closing = contains_char(raw, 0, cut, ']');
        if start.is_none() {
            let (a, b) = trim_range(raw, 0, cut);
            let ghost t = raw@.subrange(a as int, b as int);
            assert(t == clean(raw@));
            if let Some(eq) = find_char(raw, a, b, '=') {
                assert(t.subrange(0, eq - a) == raw@.subrange(a as int, eq as int));
                let (ka, kb) = trim_range(raw, a, eq);
                if is_tags_key(raw, ka, kb) {
                    start = Some(idx);
                    if closing {
                        end = Some(idx);
                    }
                }
            }
        } else if closing {
            end = Some(idx);
        }
        idx = idx + 1;
    }
    match start {
        None => {
            assert(first_tags_line(lv, ls.len() as int) is None);
            let mut kept = v.len();
            while kept > 0 && is_ws_char(v[kept - 1])
                invariant
                    kept <= v.len(),
                    trim_end(v@) == trim_end(v@.subrange(0, kept as int)),
                decreases kept,
            {
                assert(v@.subrange(0, kept as int).drop_last() == v@.subrange(0, kept - 1));
                kept = kept - 1;
            }
            let mut out: Vec<char> = Vec::new();
            append_range(&mut out, &v, 0, kept);
            out.push('\n');
            append_range(&mut out, &line, 0, line.len());
            out.push('\n');
            assert(line@.subrange(0, line@.len() as int) == line@);
            assert(out@ =~= trim_end(contents@).push('\n') + line@.push('\n'));
            string_of(&out)
        },
        Some(s) => {
            let e = match end {
                Some(e) => e,
                None => {
                    assert(first_closing(lv, ls.len() as int) is None);
                    s
                },
            };
            let ghost kept = lv.subrange(0, s as int) + seq![line@] + lv.subrange(e + 1, lv.len() as int);
            let mut out: Vec<char> = Vec::new();
            let mut k: usize = 0;
            while k < s
                invariant
                    k <= s < ls.len(),
                    lv == ls@.map_values(|l: Vec<char>| l@),
                    out@ == joined_lines(lv.subrange(0, k as int)),
                decreases s - k,
            {
                assert(lv.subrange(0, k + 1) == lv.subrange(0, k as int).push(ls@[k as int]@));
                emit_line(&mut out, &ls[k], k == 0, Ghost(lv.subrange(0, k as int)));
                k = k + 1;
            }
            emit_line(&mut out, &line, s == 0, Ghost(lv.subrange(0, s as int)));
            let ghost done = lv.subrange(0, s as int).push(line@);
            let mut k: usize = e + 1;
            while k < ls.len()
                invariant
                    e < k <= ls.len(),
                    lv == ls@.map_values(|l: Vec<char>| l@),
                    done.len() > 0,
                    out@ == joined_lines(done + lv.subrange(e + 1, k as int)),
                decreases ls.len() - k,
            {
                assert(done + lv.subrange(e + 1, k + 1) == (done + lv.subrange(e + 1, k as int)).push(ls@[k as int]@));
                emit_line(&mut out, &ls[k], false, Ghost(done + lv.subrange(e + 1, k as int)));
                k = k + 1;
            }
            assert(done + lv.subrange(e + 1, lv.len() as int) =~= kept);
            out.push('\n');
            string_of(&out)
        },
    }
}


/// Some cached tag list holds `t`.
pub open spec fn in_cache(tags: Seq<Option<Vec<String>>>, t: Seq<char>) -> bool {
    exists|i: int, j: int|
        0 <= i < tags.len() && #[trigger] tags[i] is Some && 0 <= j < tags[i]->0@.len() && #[trigger] tags[i]->0@[j]@ == t
}

pub open spec fn strictly_sorted(s: Seq<Seq<char>>) -> bool {
    forall|a: int, b: int| 0 <= a < b < s.len() ==> seq_cmp(#[trigger] s[a], #[trigger] s[b]) < 0
}

/// Inserts `t` into a strictly sorted list of tags unless it is there already.
fn insert_sorted(list: &mut Vec<String>, t: String)
    requires
        strictly_sorted(views(old(list)@)),
    ensures
        strictly_sorted(views(final(list)@)),
        forall|x: Seq<char>| #[trigger] views(final(list)@).contains(x) <==> (views(old(list)@).contains(x) || x == t@),
{
    let tc = chars_of(t.as_str());
    let mut p: usize = 0;
    let mut stop = false;
    while p < list.len() && !stop
        invariant
            p <= list.len(),
            tc@ == t@,
            strictly_sorted(views(list@)),
            list@ == old(list)@,
            forall|k: int| 0 <= k < p ==> seq_cmp(#[trigger] views(list@)[k], t@) < 0,
            stop ==> p < list.len() && seq_cmp(t@, views(list@)[p as int]) <= 0,
        decreases list.len() - p + if stop { 0int } else { 1int },
    {
        let c = compare_seqs(&chars_of(list[p].as_str()), &tc);
        proof {
            lemma_seq_cmp(views(list@)[p as int], t@);
        }
        match c {
            Ordering::Less => {
                p = p + 1;
            },
            _ => {
                stop = true;
            },
        }
    }
    let ghost lv = views(list@);
    if stop {
        let c = compare_seqs(&chars_of(list[p].as_str()), &tc);
        if let Ordering::Equal = c {
            proof {
                lemma_seq_cmp(lv[p as int], t@);
                assert(lv.contains(t@) ==> true);
                assert(lv[p as int] == t@);
            }
            return;
        }
        proof {
            lemma_seq_cmp(lv[p as int], t@);
        }
    }
    proof {
        assert forall|k: int| p <= k < lv.len() implies seq_cmp(t@, #[trigger] lv[k]) < 0 by {
            lemma_seq_cmp(lv[p as int], t@);
            if k > p {
                assert(seq_cmp(lv[p as int], lv[k]) < 0);
                lemma_seq_cmp_trans(t@, lv[p as int], lv[k]);
            }
        }
    }
    list.insert(p, t);
    proof {
        let nv = views(list@);
        assert(nv =~= lv.insert(p as int, tc@));
        assert forall|a: int, b: int| 0 <= a < b < nv.len() implies seq_cmp(#[trigger] nv[a], #[trigger] nv[b]) < 0 by {
            if a < p && b < p {
            } else if a < p && b == p {
            } else if a < p {
                assert(seq_cmp(lv[a], lv[b - 1]) < 0);
            } else if a == p {
            } else {
                assert(seq_cmp(lv[a - 1], lv[b - 1]) < 0);
            }
        }
        assert forall|x: Seq<char>| #[trigger] nv.contains(x) <==> (lv.contains(x) || x == tc@) by {
            if nv.contains(x) {
                let k = choose|k: int| 0 <= k < nv.len() && nv[k] == x;
                if k < p {
                    assert(lv[k] == x);
                } else if k > p {
                    assert(lv[k - 1] == x);
                }
            }
            if lv.contains(x) {
                let k = choose|k: int| 0 <= k < lv.len() && lv[k] == x;
                if k < p {
                    assert(nv[k] == x);
                } else {
                    assert(nv[k + 1] == x);
                }
            }
            if x == tc@ {
                assert(nv[p as int] == x);
            }
        }
    }
}

/// Every cached tag, once each, in increasing order.
pub fn collect_tag_suggestions(tags: &[Option<Vec<String>>]) -> (r: Vec<String>)
    ensures
        strictly_sorted(views(r@)),
        forall|x: Seq<char>| #[trigger] views(r@).contains(x) <==> in_cache(tags@, x),
{
    let mut list: Vec<String> = Vec::new();
    let mut i: usize = 0;
    while i < tags.len()
        invariant
            i <= tags.len(),
            strictly_sorted(views(list@)),
            forall|x: Seq<char>| #[trigger] views(list@).contains(x) <==> exists|a: int, b: int|
                0 <= a < i && #[trigger] tags@[a] is Some && 0 <= b < tags@[a]->0@.len() && #[trigger] tags@[a]->0@[b]@ == x,
        decreases tags.len() - i,
    {
        if let Some(entry) = &tags[i] {
            let mut j: usize = 0;
            while j < entry.len()
                invariant
                    i < tags.len(),
                    tags@[i as int] == Some(*entry),
                    j <= entry.len(),
                    strictly_sorted(views(list@)),
                    forall|x: Seq<char>| #[trigger] views(list@).contains(x) <==> ((exists|a: int, b: int|
                        0 <= a < i && #[trigger] tags@[a] is Some && 0 <= b < tags@[a]->0@.len() && #[trigger] tags@[a]->0@[b]@ == x)
                        || exists|b: int| 0 <= b < j && #[trigger] entry@[b]@ == x),
                decreases entry.len() - j,
            {
                let t = &entry[j];
                insert_sorted(&mut list, t.clone());
                assert forall|x: Seq<char>| #[trigger] views(list@).contains(x) <==> ((exists|a: int, b: int|
                    0 <= a < i && #[trigger] tags@[a] is Some && 0 <= b < tags@[a]->0@.len() && #[trigger] tags@[a]->0@[b]@ == x)
                    || exists|b: int| 0 <= b < j + 1 && #[trigger] entry@[b]@ == x) by {
                    if x == t@ {
                        assert(entry@[j as int]@ == x);
                    }
                }
                j = j + 1;
            }
            assert forall|x: Seq<char>| #[trigger] views(list@).contains(x) <==> exists|a: int, b: int|
                0 <= a < i + 1 && #[trigger] tags@[a] is Some && 0 <= b < tags@[a]->0@.len() && #[trigger] tags@[a]->0@[b]@ == x by {
                if exists|b: int| 0 <= b < entry@.len() && #[trigger] entry@[b]@ == x {
                    let b = choose|b: int| 0 <= b < entry@.len() && #[trigger] entry@[b]@ == x;
                    assert(tags@[i as int]->0@[b]@ == x);
                }
                if exists|a: int, b: int| 0 <= a < i + 1 && #[trigger] tags@[a] is Some && 0 <= b < tags@[a]->0@.len() && #[trigger] tags@[a]->0@[b]@ == x {
                    let (a, b) = choose|a: int, b: int| 0 <= a < i + 1 && #[trigger] tags@[a] is Some && 0 <= b < tags@[a]->0@.len() && #[trigger] tags@[a]->0@[b]@ == x;
                    if a == i {
                        assert(entry@[b]@ == x);
                    }
                }
            }
        }
        i = i + 1;
    }
    list
}


pub open spec fn is_prefix(p: Seq<char>, s: Seq<char>) -> bool {
    p.len() <= s.len() && s.take(p.len() as int) == p
}

/// The first of `cands` that starts with `p`.
pub open spec fn first_with_prefix(cands: Seq<Seq<char>>, p: Seq<char>, k: int) -> Option<int>
    decreases cands.len() - k,
{
    if k < 0 || k >= cands.len() {
        None
    } else if is_prefix(p, cands[k]) {
        Some(k)
    } else {
        first_with_prefix(cands, p, k + 1)
    }
}

pub proof fn lemma_first_with_prefix(cands: Seq<Seq<char>>, p: Seq<char>, k: int)
    requires
        0 <= k,
    ensures
        first_with_prefix(cands, p, k) matches Some(j) ==> k <= j < cands.len() && is_prefix(p, cands[j]),
    decreases cands.len() - k,
{
    if k < cands.len() && !is_prefix(p, cands[k]) {
        lemma_first_with_prefix(cands, p, k + 1);
    }
}

fn starts_with(s: &[char], p: &[char]) -> (r: bool)
    ensures
        r == is_prefix(p@, s@),
{
    if p.len() > s.len() {
        return false;
    }
    let mut k: usize = 0;
    while k < p.len()
        invariant
            k <= p.len() <= s.len(),
            forall|i: int| 0 <= i < k ==> s@[i] == p@[i],
        decreases p.len() - k,
    {
        if s[k] != p[k] {
            assert(s@.take(p.len() as int)[k as int] != p@[k as int]);
            return false;
        }
        k = k + 1;
    }
    assert(s@.take(p.len() as int) =~= p@);
    true
}

/// The position of the first suggestion that starts with the typed text,
/// both given in lower case.
pub fn pick_suggestion(lowered_suggestions: &[String], lowered: &str) -> (r: Option<usize>)
    ensures
        r matches Some(k) ==> first_with_prefix(views(lowered_suggestions@), lowered@, 0) == Some(k as int),
        r is None ==> first_with_prefix(views(lowered_suggestions@), lowered@, 0) is None,
{
    let p = chars_of(lowered);
    let mut k: usize = 0;
    while k < lowered_suggestions.len()
        invariant
            k <= lowered_suggestions.len(),
            p@ == lowered@,
            first_with_prefix(views(lowered_suggestions@), lowered@, 0) == first_with_prefix(
                views(lowered_suggestions@),
                lowered@,
                k as int,
            ),
        decreases lowered_suggestions.len() - k,
    {
        let c = chars_of(lowered_suggestions[k].as_str());
        if starts_with(&c, &p) {
            return Some(k);
        }
        k = k + 1;
    }
    None
}

/// The tag that committing `typed` adds: the first suggestion that starts
/// with it up to case, else the typed text itself.
pub open spec fn chosen_tag(typed: Seq<char>, suggestions: Seq<Seq<char>>) -> Seq<char> {
    match first_with_prefix(suggestions.map_values(|s: Seq<char>| lower_of(s)), lower_of(typed), 0) {
        Some(k) => suggestions[k],
        None => typed,
    }
}

/// Commits the tag being typed into the working tags: the input is trimmed,
/// completed from the suggestions, and added unless already present.
/// Returns whether there was anything to commit, that is whether the input
/// is to be cleared.
pub fn commit_tag_input(input: &str, tags: &mut Vec<String>, suggestions: &[String]) -> (r: bool)
    ensures
        r == (trim(input@).len() > 0),
        trim(input@).len() == 0 ==> final(tags)@ == old(tags)@,
        trim(input@).len() > 0 && views(old(tags)@).contains(chosen_tag(trim(input@), views(suggestions@)))
            ==> final(tags)@ == old(tags)@,
        trim(input@).len() > 0 && !views(old(tags)@).contains(chosen_tag(trim(input@), views(suggestions@)))
            ==> views(final(tags)@) == views(old(tags)@).push(chosen_tag(trim(input@), views(suggestions@))),
{
    let v = chars_of(input);
    let (a, b) = trim_range(&v, 0, v.len());
    assert(v@.subrange(0, v@.len() as int) == v@);
    if a == b {
        return false;
    }
    let raw = crate::text::string_of_range(&v, a, b);
    let lower = lowercase(raw.as_str());
    let mut lowered: Vec<String> = Vec::new();
    let mut k: usize = 0;
    while k < suggestions.len()
        invariant
            k <= suggestions.len(),
            views(lowered@) == views(suggestions@).take(k as int).map_values(|s: Seq<char>| lower_of(s)),
        decreases suggestions.len() - k,
    {
        let l = lowercase(suggestions[k].as_str());
        let ghost prev = lowered@;
        lowered.push(l);
        assert(views(lowered@) =~= views(prev).push(l@));
        assert(views(suggestions@).take(k + 1) =~= views(suggestions@).take(k as int).push(suggestions@[k as int]@));
        assert(views(lowered@) =~= views(suggestions@).take(k + 1).map_values(|s: Seq<char>| lower_of(s)));
        k = k + 1;
    }
    assert(views(suggestions@).take(suggestions.len() as int) == views(suggestions@));
    assert(raw@ == trim(input@));
    let picked = pick_suggestion(lowered.as_slice(), lower.as_str());
    proof {
        lemma_first_with_prefix(views(lowered@), lower@, 0);
    }
    let chosen = match picked {
        Some(k) => {
            assert(views(suggestions@)[k as int] == suggestions@[k as int]@);
            suggestions[k].clone()
        },
        None => raw,
    };
    assert(chosen@ == chosen_tag(trim(input@), views(suggestions@)));
    let cc = chars_of(chosen.as_str());
    let mut j: usize = 0;
    while j < tags.len()
        invariant
            j <= tags.len(),
            tags@ == old(tags)@,
            cc@ == chosen@,
            chosen@ == chosen_tag(trim(input@), views(suggestions@)),
            trim(input@).len() > 0,
            forall|i: int| 0 <= i < j ==> views(tags@)[i] != chosen@,
        decreases tags.len() - j,
    {
        let t = chars_of(tags[j].as_str());
        if starts_with(&t, &cc) && t.len() == cc.len() {
            assert(t@ =~= cc@);
            assert(views(tags@)[j as int] == chosen@);
            assert(views(old(tags)@).contains(chosen@));
            return true;
        }
        proof {
            if t@ == cc@ {
                assert(t@.take(cc@.len() as int) =~= cc@);
            }
        }
        assert(views(tags@)[j as int] == t@);
        j = j + 1;
    }
    let ghost prev = tags@;
    tags.push(chosen);
    assert(views(tags@) =~= views(prev).push(cc@));
    true
}

} // verus!
