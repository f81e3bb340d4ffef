//! Reading back a tag file: the tags written are the tags read.

use vstd::prelude::*;
use crate::text::{
    is_ws, trim, trim_start, trim_end, index_from, index_of, before_hash, drop_cr, lines_acc,
    lines_of, lemma_index_from,
};
use crate::tagstore::{
    clean, is_tags_line, assigns_tags, key_value, scan_tags, tags_key, quoted_acc, quoted, tags_in,
    escaped, quote, joined, tags_line, written, joined_lines, first_tags_line, first_closing, closes,
    assignment_end, close_at, quote_end, offset,
};

verus! {

pub proof fn lemma_trim_start_push(y: Seq<char>, c: char)
    ensures
        trim_start(y.push(c)) == if trim_start(y).len() == 0 {
            trim_start(seq![c])
        } else {
            trim_start(y).push(c)
        },
    decreases y.len(),
{
    if y.len() > 0 {
        if is_ws(y[0]) {
            assert(y.push(c).drop_first() == y.drop_first().push(c));
            lemma_trim_start_push(y.drop_first(), c);
        }
    } else {
        assert(y.push(c) == seq![c]);
    }
}

/// Whitespace added at the end does not change the trimmed text.
pub proof fn lemma_trim_push_ws(y: Seq<char>, c: char)
    requires
        is_ws(c),
    ensures
        trim(y.push(c)) == trim(y),
{
    lemma_trim_start_push(y, c);
    assert(seq![c].drop_first() == Seq::<char>::empty());
    assert(seq![c][0] == c);
    assert(trim_start(seq![c]) == trim_start(Seq::<char>::empty()));
    assert(trim_start(Seq::<char>::empty()) == Seq::<char>::empty());
    if trim_start(y).len() > 0 {
        let ts = trim_start(y);
        assert(ts.push(c).last() == c);
        assert(ts.push(c).drop_last() == ts);
        assert(trim_end(ts.push(c)) == trim_end(ts));
    } else {
        assert(trim_end(Seq::<char>::empty()) == Seq::<char>::empty());
    }
}

pub proof fn lemma_index_at(s: Seq<char>, c: char, k: int, h: int)
    requires
        0 <= k <= h < s.len(),
        s[h] == c,
        forall|i: int| k <= i < h ==> s[i] != c,
    ensures
        index_from(s, c, k) == Some(h),
    decreases h - k,
{
    if k < h {
        lemma_index_at(s, c, k + 1, h);
    }
}

pub proof fn lemma_index_none(s: Seq<char>, c: char, k: int)
    requires
        0 <= k,
        forall|i: int| k <= i < s.len() ==> s[i] != c,
    ensures
        index_from(s, c, k) is None,
    decreases s.len() - k,
{
    if k < s.len() {
        lemma_index_none(s, c, k + 1);
    }
}

/// Whitespace added at the end does not change a line without its comment.
pub proof fn lemma_clean_push_ws(y: Seq<char>, c: char)
    requires
        is_ws(c),
    ensures
        clean(y.push(c)) == clean(y),
{
    let z = y.push(c);
    lemma_index_from(y, '#', 0);
    match index_of(y, '#') {
        Some(h) => {
            lemma_index_at(z, '#', 0, h);
            assert(z.subrange(0, h) == y.subrange(0, h));
        },
        None => {
            lemma_index_none(z, '#', 0);
            lemma_trim_push_ws(y, c);
        },
    }
}

/// Each line that `lines_acc` gives is the partial line or a piece of `s`
/// between line breaks: none holds a `\n`.
pub proof fn lemma_lines_no_newline(s: Seq<char>, cur: Seq<char>)
    requires
        !cur.contains('\n'),
    ensures
        forall|i: int| 0 <= i < lines_acc(s, cur).len() ==> !(#[trigger] lines_acc(s, cur)[i]).contains('\n'),
    decreases s.len(),
{
    if s.len() == 0 {
        if cur.len() > 0 {
            assert(lines_acc(s, cur) == seq![cur]);
            assert(lines_acc(s, cur)[0] == cur);
        }
    } else if s[0] == '\n' {
        assert(!Seq::<char>::empty().contains('\n'));
        lemma_lines_no_newline(s.drop_first(), Seq::empty());
        let rest = lines_acc(s.drop_first(), Seq::empty());
        let first = drop_cr(cur);
        assert(lines_acc(s, cur) == seq![first] + rest);
        assert(!first.contains('\n')) by {
            if first.contains('\n') {
                let j = choose|j: int| 0 <= j < first.len() && first[j] == '\n';
                assert(cur[j] == '\n');
            }
        }
        assert forall|i: int| 0 <= i < lines_acc(s, cur).len() implies !(#[trigger] lines_acc(s, cur)[i]).contains('\n') by {
            if i > 0 {
                assert(lines_acc(s, cur)[i] == rest[i - 1]);
            }
        }
    } else {
        assert(!cur.push(s[0]).contains('\n')) by {
            if cur.push(s[0]).contains('\n') {
                let j = choose|j: int| 0 <= j < cur.push(s[0]).len() && cur.push(s[0])[j] == '\n';
                if j < cur.len() {
                    assert(cur[j] == '\n');
                }
            }
        }
        lemma_lines_no_newline(s.drop_first(), cur.push(s[0]));
        assert(lines_acc(s, cur) == lines_acc(s.drop_first(), cur.push(s[0])));
    }
}

/// Text up to a line break splits into its lines and the lines after it.
pub proof fn lemma_lines_split(s: Seq<char>, r: Seq<char>, cur: Seq<char>)
    ensures
        lines_acc(s + seq!['\n'] + r, cur) == lines_acc(s + seq!['\n'], cur) + lines_acc(r, Seq::empty()),
    decreases s.len(),
{
    if s.len() == 0 {
        assert(s + seq!['\n'] + r == seq!['\n'] + r);
        assert((seq!['\n'] + r).drop_first() == r);
        assert((s + seq!['\n']).drop_first() == Seq::<char>::empty());
        assert(lines_acc(Seq::<char>::empty(), Seq::<char>::empty()) == Seq::<Seq<char>>::empty());
        assert(seq![drop_cr(cur)] + Seq::<Seq<char>>::empty() == seq![drop_cr(cur)]);
    } else {
        assert((s + seq!['\n'] + r).drop_first() == s.drop_first() + seq!['\n'] + r);
        assert((s + seq!['\n']).drop_first() == s.drop_first() + seq!['\n']);
        assert((s + seq!['\n'] + r)[0] == s[0]);
        assert((s + seq!['\n'])[0] == s[0]);
        if s[0] == '\n' {
            lemma_lines_split(s.drop_first(), r, Seq::empty());
        } else {
            lemma_lines_split(s.drop_first(), r, cur.push(s[0]));
        }
    }
}

/// A line without a line break, followed by one, is read back as that line
/// without a final `\r`.
pub proof fn lemma_lines_one(x: Seq<char>, cur: Seq<char>)
    requires
        !x.contains('\n'),
    ensures
        lines_acc(x + seq!['\n'], cur) == seq![drop_cr(cur + x)],
    decreases x.len(),
{
    if x.len() == 0 {
        assert(x + seq!['\n'] == seq!['\n']);
        assert(seq!['\n'].drop_first() == Seq::<char>::empty());
        assert(seq!['\n'][0] == '\n');
        assert(lines_acc(Seq::<char>::empty(), Seq::<char>::empty()) == Seq::<Seq<char>>::empty());
        assert(cur + x == cur);
        assert(seq![drop_cr(cur)] + Seq::<Seq<char>>::empty() == seq![drop_cr(cur)]);
    } else {
        assert((x + seq!['\n']).drop_first() == x.drop_first() + seq!['\n']);
        assert((x + seq!['\n'])[0] == x[0]);
        assert(x[0] != '\n');
        assert(!x.drop_first().contains('\n')) by {
            if x.drop_first().contains('\n') {
                let j = choose|j: int| 0 <= j < x.drop_first().len() && x.drop_first()[j] == '\n';
                assert(x[j + 1] == '\n');
            }
        }
        lemma_lines_one(x.drop_first(), cur.push(x[0]));
        assert(cur.push(x[0]) + x.drop_first() == cur + x);
        assert(lines_acc(x + seq!['\n'], cur) == lines_acc(x.drop_first() + seq!['\n'], cur.push(x[0])));
    }
}


/// `s` has no character `c`.
pub open spec fn free_of(s: Seq<char>, c: char) -> bool {
    forall|i: int| 0 <= i < s.len() ==> s[i] != c
}

/// A tag that the file format carries: non-empty, without `"`, `#` or a
/// line break.
pub open spec fn plain_tag(t: Seq<char>) -> bool {
    t.len() > 0 && free_of(t, '"') && free_of(t, '#') && free_of(t, '\n')
}

/// Where the first unquoted `]` of two pieces of text lies, and whether
/// their end is inside a quoted string, follow from the two pieces.
pub proof fn lemma_close_concat(x: Seq<char>, y: Seq<char>, q: bool)
    ensures
        close_at(x + y, q) == match close_at(x, q) {
            Some(c) => Some(c),
            None => offset(close_at(y, quote_end(x, q)), x.len() as int),
        },
        close_at(x, q) is None ==> quote_end(x + y, q) == quote_end(y, quote_end(x, q)),
    decreases x.len(),
{
    if x.len() == 0 {
        assert(x + y == y);
        match close_at(y, q) {
            Some(c) => {},
            None => {},
        }
    } else {
        assert((x + y)[0] == x[0]);
        assert((x + y).drop_first() == x.drop_first() + y);
        let q2 = if x[0] == '"' {
            !q
        } else {
            q
        };
        lemma_close_concat(x.drop_first(), y, q2);
    }
}

/// Inside a quoted string, text without `"` closes nothing and stays quoted.
pub proof fn lemma_close_inside(t: Seq<char>)
    requires
        free_of(t, '"'),
    ensures
        close_at(t, true) is None,
        quote_end(t, true),
    decreases t.len(),
{
    if t.len() > 0 {
        assert(free_of(t.drop_first(), '"'));
        lemma_close_inside(t.drop_first());
    }
}

/// The quoted tags close no bracket and end outside any quoted string.
pub proof fn lemma_joined_unclosed(ts: Seq<Seq<char>>)
    requires
        forall|i: int| 0 <= i < ts.len() ==> plain_tag(#[trigger] ts[i]),
    ensures
        close_at(joined(ts), false) is None,
        !quote_end(joined(ts), false),
    decreases ts.len(),
{
    if ts.len() > 0 {
        let last = ts.last();
        assert(plain_tag(ts[ts.len() - 1]));
        lemma_escaped_plain(last);
        let q = quote(last);
        let dq = seq!['"'];
        assert(q == dq + (last + dq));
        lemma_close_inside(last);
        lemma_close_concat(last, dq, true);
        assert(dq.drop_first() == Seq::<char>::empty());
        assert(dq[0] == '"');
        assert(close_at(Seq::<char>::empty(), false) is None);
        assert(close_at(Seq::<char>::empty(), true) is None);
        assert(!quote_end(Seq::<char>::empty(), false));
        assert(quote_end(Seq::<char>::empty(), true));
        assert(close_at(dq, true) is None);
        assert(!quote_end(dq, true));
        lemma_close_concat(dq, last + dq, false);
        assert(close_at(dq, false) is None);
        assert(quote_end(dq, false));
        assert(close_at(q, false) is None && !quote_end(q, false));
        if ts.len() > 1 {
            let init = ts.drop_last();
            assert forall|i: int| 0 <= i < init.len() implies plain_tag(#[trigger] init[i]) by {
                assert(init[i] == ts[i]);
            }
            lemma_joined_unclosed(init);
            let sep = seq![',', ' '];
            assert(sep.drop_first() == seq![' ']);
            assert(seq![' '].drop_first() == Seq::<char>::empty());
            assert(sep[0] == ',' && seq![' '][0] == ' ');
            assert(close_at(Seq::<char>::empty(), false) is None);
            assert(!quote_end(Seq::<char>::empty(), false));
            let sp = seq![' '];
            assert(close_at(sp, false) == offset(close_at(Seq::<char>::empty(), false), 1));
            assert(close_at(sp, false) is None);
            assert(quote_end(sp, false) == quote_end(Seq::<char>::empty(), false));
            assert(close_at(sep, false) == offset(close_at(sp, false), 1));
            assert(quote_end(sep, false) == quote_end(sp, false));
            assert(close_at(sep, false) is None && !quote_end(sep, false));
            lemma_close_concat(joined(init), sep, false);
            lemma_close_concat(joined(init) + sep, q, false);
            assert(joined(ts) == joined(init) + sep + q);
        }
    }
}

pub proof fn lemma_clean_drop_cr(l: Seq<char>)
    ensures
        clean(drop_cr(l)) == clean(l),
{
    if l.len() > 0 && l.last() == '\r' {
        assert(l.drop_last().push('\r') == l);
        lemma_clean_push_ws(l.drop_last(), '\r');
    }
}

pub proof fn lemma_no_newline_free(l: Seq<char>)
    requires
        !l.contains('\n'),
    ensures
        free_of(l, '\n'),
{
    assert forall|i: int| 0 <= i < l.len() implies l[i] != '\n' by {
        if l[i] == '\n' {
            assert(l.contains('\n'));
        }
    }
}

/// Lines joined by `\n` and ended by one are read back as those lines, each
/// without a final `\r`.
pub proof fn lemma_joined_lines_read_back(ls: Seq<Seq<char>>)
    requires
        ls.len() > 0,
        forall|i: int| 0 <= i < ls.len() ==> free_of(#[trigger] ls[i], '\n'),
    ensures
        lines_of(joined_lines(ls) + seq!['\n']) == ls.map_values(|l: Seq<char>| drop_cr(l)),
    decreases ls.len(),
{
    let last = ls.last();
    assert(free_of(ls[ls.len() - 1], '\n'));
    assert(!last.contains('\n'));
    if ls.len() == 1 {
        lemma_lines_one(ls[0], Seq::empty());
        assert(Seq::<char>::empty() + ls[0] == ls[0]);
        assert(ls.map_values(|l: Seq<char>| drop_cr(l)) =~= seq![drop_cr(ls[0])]);
    } else {
        let init = ls.drop_last();
        assert forall|i: int| 0 <= i < init.len() implies free_of(#[trigger] init[i], '\n') by {
            assert(init[i] == ls[i]);
        }
        lemma_joined_lines_read_back(init);
        assert(joined_lines(ls) + seq!['\n'] == joined_lines(init) + seq!['\n'] + (last + seq!['\n']));
        lemma_lines_split(joined_lines(init), last + seq!['\n'], Seq::empty());
        lemma_lines_one(last, Seq::empty());
        assert(Seq::<char>::empty() + last == last);
        assert(ls.map_values(|l: Seq<char>| drop_cr(l)) =~= init.map_values(|l: Seq<char>| drop_cr(l)).push(
            drop_cr(last),
        ));
    }
}

/// Lines that do not assign `tags` leave the reader where it started.
pub proof fn lemma_scan_skips(p: Seq<Seq<char>>, q: Seq<Seq<char>>)
    requires
        forall|i: int| 0 <= i < p.len() ==> !is_tags_line(#[trigger] p[i]),
    ensures
        scan_tags(p + q, false, false, Seq::empty()) == scan_tags(q, false, false, Seq::empty()),
    decreases p.len(),
{
    if p.len() == 0 {
        assert(p + q == q);
    } else {
        assert((p + q)[0] == p[0]);
        assert((p + q).drop_first() == p.drop_first() + q);
        assert(!is_tags_line(p[0]));
        assert forall|i: int| 0 <= i < p.drop_first().len() implies !is_tags_line(#[trigger] p.drop_first()[i]) by {
            assert(p.drop_first()[i] == p[i + 1]);
        }
        lemma_scan_skips(p.drop_first(), q);
    }
}

pub proof fn lemma_escaped_plain(t: Seq<char>)
    requires
        free_of(t, '"'),
    ensures
        escaped(t) == t,
    decreases t.len(),
{
    if t.len() > 0 {
        assert(free_of(t.drop_last(), '"'));
        lemma_escaped_plain(t.drop_last());
        assert(t.last() != '"');
        assert(t.drop_last() + seq![t.last()] == t);
    }
}

/// The quoted tags hold no `#` or line break.
pub proof fn lemma_joined_plain(ts: Seq<Seq<char>>)
    requires
        forall|i: int| 0 <= i < ts.len() ==> plain_tag(#[trigger] ts[i]),
    ensures
        free_of(joined(ts), '#'),
        free_of(joined(ts), '\n'),
    decreases ts.len(),
{
    if ts.len() > 0 {
        let last = ts.last();
        assert(plain_tag(ts[ts.len() - 1]));
        lemma_escaped_plain(last);
        let q = quote(last);
        assert(q == seq!['"'] + last + seq!['"']);
        assert(free_of(q, '#') && free_of(q, '\n')) by {
            assert forall|i: int| 0 <= i < q.len() implies q[i] != '#' && q[i] != '\n' by {
                if 0 < i < q.len() - 1 {
                    assert(q[i] == last[i - 1]);
                }
            }
        }
        if ts.len() > 1 {
            let init = ts.drop_last();
            assert forall|i: int| 0 <= i < init.len() implies plain_tag(#[trigger] init[i]) by {
                assert(init[i] == ts[i]);
            }
            lemma_joined_plain(init);
            let j = joined(ts);
            assert(j == joined(init) + seq![',', ' '] + q);
            assert forall|i: int| 0 <= i < j.len() implies j[i] != '#' && j[i] != '\n' by {
                let n = joined(init).len();
                if i < n {
                    assert(j[i] == joined(init)[i]);
                } else if i >= n + 2 {
                    assert(j[i] == q[i - n - 2]);
                }
            }
        }
    }
}

pub proof fn lemma_quoted_inside(t: Seq<char>, r: Seq<char>, cur: Seq<char>)
    requires
        free_of(t, '"'),
    ensures
        quoted_acc(t + r, true, cur) == quoted_acc(r, true, cur + t),
    decreases t.len(),
{
    if t.len() == 0 {
        assert(t + r == r);
        assert(cur + t == cur);
    } else {
        assert((t + r)[0] == t[0]);
        assert((t + r).drop_first() == t.drop_first() + r);
        assert(free_of(t.drop_first(), '"'));
        lemma_quoted_inside(t.drop_first(), r, cur.push(t[0]));
        assert(cur.push(t[0]) + t.drop_first() == cur + t);
    }
}

pub proof fn lemma_quoted_one(t: Seq<char>, r: Seq<char>)
    requires
        t.len() > 0,
        free_of(t, '"'),
    ensures
        quoted_acc(quote(t) + r, false, Seq::empty()) == seq![t] + quoted_acc(r, false, Seq::empty()),
{
    lemma_escaped_plain(t);
    let s = quote(t) + r;
    assert(s == seq!['"'] + (t + (seq!['"'] + r)));
    assert(s[0] == '"');
    assert(s.drop_first() == t + (seq!['"'] + r));
    lemma_quoted_inside(t, seq!['"'] + r, Seq::empty());
    assert(Seq::<char>::empty() + t == t);
    assert((seq!['"'] + r)[0] == '"');
    assert((seq!['"'] + r).drop_first() == r);
}

/// The quoted strings of the joined tags are the tags.
pub proof fn lemma_quoted_joined(ts: Seq<Seq<char>>, r: Seq<char>)
    requires
        forall|i: int| 0 <= i < ts.len() ==> plain_tag(#[trigger] ts[i]),
    ensures
        quoted_acc(joined(ts) + r, false, Seq::empty()) == ts + quoted_acc(r, false, Seq::empty()),
    decreases ts.len(),
{
    if ts.len() == 0 {
        assert(joined(ts) + r == r);
        assert(ts + quoted_acc(r, false, Seq::empty()) == quoted_acc(r, false, Seq::empty()));
    } else if ts.len() == 1 {
        assert(plain_tag(ts[0]));
        lemma_quoted_one(ts[0], r);
        assert(ts == seq![ts[0]]);
    } else {
        let init = ts.drop_last();
        let last = ts.last();
        assert(plain_tag(ts[ts.len() - 1]));
        assert forall|i: int| 0 <= i < init.len() implies plain_tag(#[trigger] init[i]) by {
            assert(init[i] == ts[i]);
        }
        let tail = seq![',', ' '] + quote(last) + r;
        assert(joined(ts) + r == joined(init) + tail);
        lemma_quoted_joined(init, tail);
        assert(tail[0] == ',');
        assert(tail.drop_first()[0] == ' ');
        assert(tail.drop_first().drop_first() == quote(last) + r);
        assert(quoted_acc(tail, false, Seq::empty()) == quoted_acc(tail.drop_first(), false, Seq::empty()));
        assert(quoted_acc(tail.drop_first(), false, Seq::empty()) == quoted_acc(
            quote(last) + r,
            false,
            Seq::empty(),
        ));
        lemma_quoted_one(last, r);
        assert(init + (seq![last] + quoted_acc(r, false, Seq::empty())) == ts + quoted_acc(r, false, Seq::empty()));
    }
}

pub proof fn lemma_trim_keeps(s: Seq<char>)
    requires
        s.len() > 0,
        !is_ws(s[0]),
        !is_ws(s.last()),
    ensures
        trim(s) == s,
{
}

/// The assignment line ends the reading, and what it holds is the tags.
pub proof fn lemma_tags_line_read(ts: Seq<Seq<char>>, q: Seq<Seq<char>>)
    requires
        forall|i: int| 0 <= i < ts.len() ==> plain_tag(#[trigger] ts[i]),
    ensures
        quoted(scan_tags(seq![tags_line(ts)] + q, false, false, Seq::empty())) == ts,
{
    let line = tags_line(ts);
    let j = joined(ts);
    lemma_joined_plain(ts);
    let value = seq!['['] + j + seq![']'];
    assert(line == seq!['t', 'a', 'g', 's', ' ', '=', ' '] + value);
    assert(free_of(line, '#')) by {
        assert forall|i: int| 0 <= i < line.len() implies line[i] != '#' by {
            if 8 <= i < line.len() - 1 {
                assert(line[i] == j[i - 8]);
            }
        }
    }
    lemma_index_none(line, '#', 0);
    assert(before_hash(line) == line);
    lemma_trim_keeps(line);
    assert(clean(line) == line);
    assert forall|i: int| 0 <= i < 5 implies line[i] != '=' by {}
    lemma_index_at(line, '=', 0, 5);
    let key = line.subrange(0, 5);
    assert(key == seq!['t', 'a', 'g', 's', ' ']);
    assert(key.drop_last() == tags_key());
    assert(trim_start(key) == key);
    assert(trim_end(key) == trim_end(tags_key()));
    assert(trim(key) == tags_key());
    let rest = line.subrange(6, line.len() as int);
    assert(rest == seq![' '] + value);
    assert(rest.drop_first() == value);
    assert(trim_start(rest) == trim_start(value));
    lemma_trim_keeps(value);
    assert(trim(rest) == value);
    assert(key_value(line) == Some((tags_key(), value)));
    lemma_index_at(value, '[', 0, 0);
    let after = value.skip(1);
    assert(after == j + seq![']']);
    lemma_joined_unclosed(ts);
    lemma_close_concat(j, seq![']'], false);
    assert(close_at(seq![']'], false) == Some(0int));
    assert(after.take(j.len() as int) == j);
    let all = seq![line] + q;
    assert(all[0] == line);
    assert(scan_tags(all, false, false, Seq::empty()) == j);
    lemma_quoted_joined(ts, Seq::empty());
    assert(j + Seq::<char>::empty() == j);
    assert(quoted_acc(Seq::<char>::empty(), false, Seq::empty()) == Seq::<Seq<char>>::empty());
    assert(ts + Seq::<Seq<char>>::empty() == ts);
}


pub proof fn lemma_first_tags_line(ls: Seq<Seq<char>>, k: int)
    requires
        0 <= k,
    ensures
        first_tags_line(ls, k) matches Some(x) ==> k <= x < ls.len() && forall|j: int|
            k <= j < x ==> !is_tags_line(#[trigger] ls[j]),
        first_tags_line(ls, k) is None ==> forall|j: int| k <= j < ls.len() ==> !is_tags_line(#[trigger] ls[j]),
    decreases ls.len() - k,
{
    if k < ls.len() && !is_tags_line(ls[k]) {
        lemma_first_tags_line(ls, k + 1);
    }
}

pub proof fn lemma_first_closing(ls: Seq<Seq<char>>, k: int)
    requires
        0 <= k,
    ensures
        first_closing(ls, k) matches Some(x) ==> k <= x < ls.len(),
    decreases ls.len() - k,
{
    if k < ls.len() && !closes(ls[k]) {
        lemma_first_closing(ls, k + 1);
    }
}

pub proof fn lemma_trim_end_split(s: Seq<char>)
    ensures
        trim_end(s).len() <= s.len(),
        trim_end(s) == s.subrange(0, trim_end(s).len() as int),
        forall|i: int| trim_end(s).len() <= i < s.len() ==> is_ws(#[trigger] s[i]),
    decreases s.len(),
{
    if s.len() > 0 && is_ws(s.last()) {
        lemma_trim_end_split(s.drop_last());
        assert(s.drop_last().subrange(0, trim_end(s).len() as int) == s.subrange(0, trim_end(s).len() as int));
        assert forall|i: int| trim_end(s).len() <= i < s.len() implies is_ws(#[trigger] s[i]) by {
            if i < s.len() - 1 {
                assert(s[i] == s.drop_last()[i]);
            }
        }
    } else {
        assert(s.subrange(0, s.len() as int) == s);
    }
}

pub proof fn lemma_tags_line_not_blank(m: Seq<char>)
    ensures
        is_tags_line(m) ==> clean(m).len() > 0,
{
    if clean(m).len() == 0 {
        assert(index_from(clean(m), '=', 0) is None);
    }
}

pub proof fn lemma_clean_empty()
    ensures
        clean(Seq::<char>::empty()) == Seq::<char>::empty(),
{
    assert(index_from(Seq::<char>::empty(), '#', 0) is None);
}

/// Whitespace after a partial line leaves a line that cleans to the same text.
pub proof fn lemma_ws_keeps_line(w: Seq<char>, cur: Seq<char>)
    requires
        forall|i: int| 0 <= i < w.len() ==> is_ws(#[trigger] w[i]),
        clean(cur).len() > 0,
    ensures
        exists|j: int| 0 <= j < lines_acc(w, cur).len() && clean(#[trigger] lines_acc(w, cur)[j]) == clean(cur),
    decreases w.len(),
{
    if w.len() == 0 {
        lemma_clean_empty();
        assert(cur.len() > 0);
        assert(lines_acc(w, cur) == seq![cur]);
        assert(lines_acc(w, cur)[0] == cur);
    } else if w[0] == '\n' {
        lemma_clean_drop_cr(cur);
        assert(lines_acc(w, cur)[0] == drop_cr(cur));
    } else {
        lemma_clean_push_ws(cur, w[0]);
        assert forall|i: int| 0 <= i < w.drop_first().len() implies is_ws(#[trigger] w.drop_first()[i]) by {
            assert(w.drop_first()[i] == w[i + 1]);
        }
        lemma_ws_keeps_line(w.drop_first(), cur.push(w[0]));
        assert(lines_acc(w, cur) == lines_acc(w.drop_first(), cur.push(w[0])));
    }
}

/// Every line of `s` ended by a line break cleans to the text of some line
/// of `s` followed by whitespace, unless it cleans to nothing.
pub proof fn lemma_lines_before_ws(s: Seq<char>, w: Seq<char>, cur: Seq<char>)
    requires
        forall|i: int| 0 <= i < w.len() ==> is_ws(#[trigger] w[i]),
    ensures
        forall|i: int|
            0 <= i < lines_acc(s + seq!['\n'], cur).len() && clean(#[trigger] lines_acc(s + seq!['\n'], cur)[i]).len() > 0
                ==> exists|j: int|
                0 <= j < lines_acc(s + w, cur).len() && clean(#[trigger] lines_acc(s + w, cur)[j]) == clean(
                    lines_acc(s + seq!['\n'], cur)[i],
                ),
    decreases s.len(),
{
    let a = lines_acc(s + seq!['\n'], cur);
    let b = lines_acc(s + w, cur);
    if s.len() == 0 {
        assert(s + seq!['\n'] == seq!['\n']);
        assert(s + w == w);
        assert(seq!['\n'].drop_first() == Seq::<char>::empty());
        assert(lines_acc(Seq::<char>::empty(), Seq::<char>::empty()) == Seq::<Seq<char>>::empty());
        assert(a == seq![drop_cr(cur)]);
        lemma_clean_drop_cr(cur);
        if clean(cur).len() > 0 {
            lemma_ws_keeps_line(w, cur);
        }
    } else {
        assert((s + seq!['\n'])[0] == s[0]);
        assert((s + w)[0] == s[0]);
        assert((s + seq!['\n']).drop_first() == s.drop_first() + seq!['\n']);
        assert((s + w).drop_first() == s.drop_first() + w);
        if s[0] == '\n' {
            lemma_lines_before_ws(s.drop_first(), w, Seq::empty());
            let a2 = lines_acc(s.drop_first() + seq!['\n'], Seq::empty());
            let b2 = lines_acc(s.drop_first() + w, Seq::empty());
            assert(a == seq![drop_cr(cur)] + a2);
            assert(b == seq![drop_cr(cur)] + b2);
            assert forall|i: int| 0 <= i < a.len() && clean(#[trigger] a[i]).len() > 0 implies exists|j: int|
                0 <= j < b.len() && clean(#[trigger] b[j]) == clean(a[i]) by {
                if i == 0 {
                    assert(b[0] == a[0]);
                } else {
                    assert(a[i] == a2[i - 1]);
                    let j2 = choose|j2: int| 0 <= j2 < b2.len() && clean(#[trigger] b2[j2]) == clean(a2[i - 1]);
                    assert(b[j2 + 1] == b2[j2]);
                }
            }
        } else {
            lemma_lines_before_ws(s.drop_first(), w, cur.push(s[0]));
            assert(a == lines_acc(s.drop_first() + seq!['\n'], cur.push(s[0])));
            assert(b == lines_acc(s.drop_first() + w, cur.push(s[0])));
        }
    }
}

/// Reading back a tag file written with the tags `ts` gives `ts`, whatever
/// the file held before, when each tag is non-empty and holds no `"`, `#`
/// or line break.
pub proof fn law_tags_round_trip(contents: Seq<char>, ts: Seq<Seq<char>>)
    requires
        forall|i: int| 0 <= i < ts.len() ==> plain_tag(#[trigger] ts[i]),
    ensures
        tags_in(written(contents, ts)) == ts,
{
    let line = tags_line(ts);
    lemma_joined_plain(ts);
    let j = joined(ts);
    assert(line == seq!['t', 'a', 'g', 's', ' ', '=', ' ', '['] + j + seq![']']);
    assert(free_of(line, '\n')) by {
        assert forall|i: int| 0 <= i < line.len() implies line[i] != '\n' by {
            if 8 <= i < line.len() - 1 {
                assert(line[i] == j[i - 8]);
            }
        }
    }
    assert(!line.contains('\n'));
    assert(drop_cr(line) == line);
    lemma_lines_one(line, Seq::empty());
    assert(Seq::<char>::empty() + line == line);
    let ls = lines_of(contents);
    if trim(contents).len() == 0 {
        assert(line.push('\n') == line + seq!['\n']);
        assert(lines_of(written(contents, ts)) == seq![line]);
        lemma_tags_line_read(ts, Seq::empty());
        assert(seq![line] + Seq::<Seq<char>>::empty() == seq![line]);
    } else {
        lemma_first_tags_line(ls, 0);
        match first_tags_line(ls, 0) {
            None => {
                let a = trim_end(contents);
                lemma_trim_end_split(contents);
                let w = contents.subrange(a.len() as int, contents.len() as int);
                assert(contents == a + w);
                assert forall|i: int| 0 <= i < w.len() implies is_ws(#[trigger] w[i]) by {
                    assert(w[i] == contents[a.len() + i]);
                }
                let out = written(contents, ts);
                assert(out == a + seq!['\n'] + (line + seq!['\n']));
                lemma_lines_split(a, line + seq!['\n'], Seq::empty());
                let p = lines_acc(a + seq!['\n'], Seq::empty());
                assert(lines_of(out) == p + seq![line]);
                lemma_lines_before_ws(a, w, Seq::empty());
                assert forall|i: int| 0 <= i < p.len() implies !is_tags_line(#[trigger] p[i]) by {
                    lemma_tags_line_not_blank(p[i]);
                    if is_tags_line(p[i]) {
                        let k = choose|k: int| 0 <= k < ls.len() && clean(#[trigger] ls[k]) == clean(p[i]);
                        assert(is_tags_line(ls[k]));
                    }
                }
                lemma_scan_skips(p, seq![line]);
                lemma_tags_line_read(ts, Seq::empty());
                assert(seq![line] + Seq::<Seq<char>>::empty() == seq![line]);
            },
            Some(si) => {
                let e = assignment_end(ls, si);
                lemma_first_closing(ls, si + 1);
                assert(si <= e < ls.len());
                let pre = ls.subrange(0, si);
                let post = ls.subrange(e + 1, ls.len() as int);
                let all = pre + seq![line] + post;
                lemma_lines_no_newline(contents, Seq::empty());
                assert forall|i: int| 0 <= i < all.len() implies free_of(#[trigger] all[i], '\n') by {
                    if i < si {
                        assert(all[i] == ls[i]);
                        lemma_no_newline_free(ls[i]);
                    } else if i > si {
                        assert(all[i] == ls[e + 1 + (i - si - 1)]);
                        lemma_no_newline_free(ls[e + 1 + (i - si - 1)]);
                    }
                }
                lemma_joined_lines_read_back(all);
                let read = all.map_values(|l: Seq<char>| drop_cr(l));
                assert(written(contents, ts) == joined_lines(all) + seq!['\n']);
                let pre2 = pre.map_values(|l: Seq<char>| drop_cr(l));
                let post2 = post.map_values(|l: Seq<char>| drop_cr(l));
                assert(read == pre2 + (seq![line] + post2));
                assert forall|i: int| 0 <= i < pre2.len() implies !is_tags_line(#[trigger] pre2[i]) by {
                    lemma_clean_drop_cr(ls[i]);
                    assert(pre2[i] == drop_cr(ls[i]));
                }
                lemma_scan_skips(pre2, seq![line] + post2);
                lemma_tags_line_read(ts, post2);
            },
        }
    }
}

} // verus!
