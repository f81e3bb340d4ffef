//! Plain-text settings: the arguments for the directory-tree renderer, and
//! the configured paths before they are checked on disk.

use vstd::prelude::*;
use crate::text::{chars_of, split_lines, find_char, string_of, string_of_range, trim_range, trim, before_hash, lines_of};
use crate::query::{views, words, split_words};
use crate::selection::index_for_path;

verus! {

/// The whitespace-separated words of each line up to its `#`, line by line.
pub open spec fn config_words(ls: Seq<Seq<char>>) -> Seq<Seq<char>>
    decreases ls.len(),
{
    if ls.len() == 0 {
        Seq::empty()
    } else {
        config_words(ls.drop_last()) + words(before_hash(ls.last()))
    }
}

/// The renderer's arguments written in its settings file, comments aside.
pub fn parse_erd_config(contents: &str) -> (r: Vec<String>)
    ensures
        views(r@) == config_words(lines_of(contents@)),
{
    let v = chars_of(contents);
    let ls = split_lines(&v);
    let ghost lv = ls@.map_values(|l: Vec<char>| l@);
    let mut args: Vec<String> = Vec::new();
    let mut i: usize = 0;
    while i < ls.len()
        invariant
            i <= ls.len(),
            lv == ls@.map_values(|l: Vec<char>| l@),
            views(args@) == config_words(lv.take(i as int)),
        decreases ls.len() - i,
    {
        let line = &ls[i];
        assert(lv.take(i + 1).drop_last() == lv.take(i as int));
        assert(lv.take(i + 1).last() == line@);
        let n = line.len();
        let cut = match find_char(line, 0, n, '#') {
            Some(h) => h,
            None => n,
        };
        assert(line@.subrange(0, n as int) == line@);
        let head = string_of_range(line, 0, cut);
        assert(head@ == before_hash(line@));
        let ws = split_words(head.as_str());
        let ghost before = views(args@);
        let ghost wv = ws@.map_values(|w: Vec<char>| w@);
        let mut k: usize = 0;
        while k < ws.len()
            invariant
                k <= ws.len(),
                wv == ws@.map_values(|w: Vec<char>| w@),
                views(args@) == before + wv.take(k as int),
            decreases ws.len() - k,
        {
            let w = string_of(&ws[k]);
            assert(w@ == wv[k as int]);
            let ghost prev = args@;
            args.push(w);
            assert(views(args@) =~= views(prev).push(w@));
            assert(wv.take(k + 1) =~= wv.take(k as int).push(wv[k as int]));
            assert(views(args@) =~= before + wv.take(k + 1));
            k = k + 1;
        }
        assert(wv.take(ws.len() as int) == wv);
        assert(views(args@) == before + words(before_hash(line@)));
        i = i + 1;
    }
    assert(lv.take(ls.len() as int) == lv);
    args
}

pub open spec fn default_erd_args() -> Seq<Seq<char>> {
    seq![
        "--dir-order=first"@,
        "--icons"@,
        "--sort=name"@,
        "--level=4"@,
        "--color"@,
        "force"@,
        "--layout=inverted"@,
        "--human"@,
        "--suppress-size"@,
    ]
}

/// The renderer's arguments when its settings file gives none.
pub fn erd_default_args() -> (r: Vec<String>)
    ensures
        views(r@) == default_erd_args(),
{
    let r = vec![
        "--dir-order=first".to_string(),
        "--icons".to_string(),
        "--sort=name".to_string(),
        "--level=4".to_string(),
        "--color".to_string(),
        "force".to_string(),
        "--layout=inverted".to_string(),
        "--human".to_string(),
        "--suppress-size".to_string(),
    ];
    assert(views(r@) =~= default_erd_args());
    r
}

/// The arguments that a settings file's text, if any, gives.
pub open spec fn configured(contents: Option<&str>) -> Seq<Seq<char>> {
    match contents {
        Some(c) => config_words(lines_of(c@)),
        None => Seq::empty(),
    }
}

/// The renderer's arguments from the text of its settings file, if there is
/// one, and whether they are the defaults.
pub fn erd_args(contents: Option<&str>) -> (r: (Vec<String>, bool))
    ensures
        configured(contents).len() > 0 ==> views(r.0@) == configured(contents) && !r.1,
        configured(contents).len() == 0 ==> views(r.0@) == default_erd_args() && r.1,
{
    if let Some(c) = contents {
        let args = parse_erd_config(c);
        if args.len() > 0 {
            return (args, false);
        }
    }
    (erd_default_args(), true)
}

/// The paths in order of first occurrence, each once.
pub open spec fn deduped(s: Seq<Seq<char>>) -> Seq<Seq<char>>
    decreases s.len(),
{
    if s.len() == 0 {
        Seq::empty()
    } else if deduped(s.drop_last()).contains(s.last()) {
        deduped(s.drop_last())
    } else {
        deduped(s.drop_last()).push(s.last())
    }
}

/// The paths with later repeats of a path dropped.
pub fn dedup_paths(paths: Vec<String>) -> (r: Vec<String>)
    ensures
        views(r@) == deduped(views(paths@)),
{
    let ghost pv = views(paths@);
    let mut out: Vec<String> = Vec::new();
    let mut seen: Vec<usize> = Vec::new();
    let mut i: usize = 0;
    while i < paths.len()
        invariant
            i <= paths.len(),
            pv == views(paths@),
            views(out@) == deduped(pv.take(i as int)),
            seen@.len() == out@.len(),
            forall|k: int| 0 <= k < seen@.len() ==> #[trigger] seen@[k] == k,
        decreases paths.len() - i,
    {
        assert(pv.take(i + 1).drop_last() == pv.take(i as int));
        assert(pv.take(i + 1).last() == paths@[i as int]@);
        let p = paths[i].as_str();
        match index_for_path(out.as_slice(), seen.as_slice(), p) {
            Some(k) => {
                proof {
                    crate::selection::lemma_position_from(out@, seen@, p@, 0);
                    assert(views(out@)[k as int] == p@);
                }
            },
            None => {
                proof {
                    crate::selection::lemma_position_from(out@, seen@, p@, 0);
                    assert forall|j: int| 0 <= j < out@.len() implies views(out@)[j] != p@ by {
                        assert(!crate::selection::shows(out@, seen@, j, p@));
                    }
                }
                let ghost before = views(out@);
                let n = out.len();
                out.push(paths[i].clone());
                seen.push(n);
                assert(views(out@) =~= before.push(p@));
            },
        }
        i = i + 1;
    }
    assert(pv.take(paths.len() as int) == pv);
    out
}


pub open spec fn home_var() -> Seq<char> {
    seq!['$', 'H', 'O', 'M', 'E']
}

/// `s` with every `$HOME`, left to right, replaced by `home`.
pub open spec fn home_replaced(s: Seq<char>, home: Seq<char>) -> Seq<char>
    decreases s.len(),
{
    if s.len() == 0 {
        s
    } else if s.len() >= 5 && s.take(5) == home_var() {
        home + home_replaced(s.skip(5), home)
    } else {
        seq![s[0]] + home_replaced(s.drop_first(), home)
    }
}

/// A leading `~/` with the `~` replaced by `home`.
pub open spec fn tilde_expanded(t: Seq<char>, home: Seq<char>) -> Seq<char> {
    if t.len() >= 2 && t[0] == '~' && t[1] == '/' {
        home + t.drop_first()
    } else {
        t
    }
}

/// `p` joined onto `base` as `Path::join` does: an absolute `p` stands alone,
/// else a separator goes between unless `base` is empty or ends in one.
pub open spec fn joined_path(base: Seq<char>, p: Seq<char>) -> Seq<char> {
    if p.len() > 0 && p[0] == '/' {
        p
    } else if base.len() == 0 {
        p
    } else if base.last() == '/' {
        base + p
    } else {
        base + seq!['/'] + p
    }
}

/// A configured path written `raw`, read relative to `base`: none when blank.
pub open spec fn normalized(raw: Seq<char>, base: Seq<char>, home: Seq<char>) -> Option<Seq<char>> {
    let t = trim(raw);
    if t.len() == 0 {
        None
    } else {
        Some(joined_path(base, home_replaced(tilde_expanded(t, home), home)))
    }
}

fn append_all(out: &mut Vec<char>, v: &[char])
    ensures
        final(out)@ == old(out)@ + v@,
{
    let mut k: usize = 0;
    while k < v.len()
        invariant
            k <= v.len(),
            out@ == old(out)@ + v@.take(k as int),
        decreases v.len() - k,
    {
        out.push(v[k]);
        assert(v@.take(k + 1) == v@.take(k as int).push(v@[k as int]));
        k = k + 1;
    }
    assert(v@.take(v.len() as int) == v@);
}

/// The path that a configured entry names, before it is looked for on disk:
/// trimmed, `~/` and `$HOME` expanded, and joined onto the directory of the
/// settings file when relative; none for a blank entry.
pub fn normalize_path(raw: &str, base_dir: &str, home: &str) -> (r: Option<String>)
    ensures
        r matches Some(p) ==> normalized(raw@, base_dir@, home@) == Some(p@),
        r is None ==> normalized(raw@, base_dir@, home@) is None,
{
    let v = chars_of(raw);
    let (a, b) = trim_range(&v, 0, v.len());
    assert(v@.subrange(0, v@.len() as int) == v@);
    if a == b {
        return None;
    }
    let h = chars_of(home);
    let mut expanded: Vec<char> = Vec::new();
    if b - a >= 2 && v[a] == '~' && v[a + 1] == '/' {
        append_all(&mut expanded, &h);
        let mut k = a + 1;
        while k < b
            invariant
                a + 1 <= k <= b <= v.len(),
                expanded@ == h@ + v@.subrange(a + 1, k as int),
            decreases b - k,
        {
            expanded.push(v[k]);
            assert(v@.subrange(a + 1, k + 1) == v@.subrange(a + 1, k as int).push(v@[k as int]));
            k = k + 1;
        }
        assert(v@.subrange(a as int, b as int).drop_first() == v@.subrange(a + 1, b as int));
    } else {
        let mut k = a;
        while k < b
            invariant
                a <= k <= b <= v.len(),
                expanded@ == v@.subrange(a as int, k as int),
            decreases b - k,
        {
            expanded.push(v[k]);
            assert(v@.subrange(a as int, k + 1) == v@.subrange(a as int, k as int).push(v@[k as int]));
            k = k + 1;
        }
    }
    let ghost t = v@.subrange(a as int, b as int);
    assert(expanded@ == tilde_expanded(t, home@));
    let e = expanded;
    let mut out: Vec<char> = Vec::new();
    let mut i: usize = 0;
    assert(e@.skip(0) == e@);
    while i < e.len()
        invariant
            i <= e.len(),
            home_replaced(e@, h@) == out@ + home_replaced(e@.skip(i as int), h@),
        decreases e.len() - i,
    {
        let ghost rest = e@.skip(i as int);
        if e.len() - i >= 5 && e[i] == '$' && e[i + 1] == 'H' && e[i + 2] == 'O' && e[i + 3] == 'M' && e[i + 4] == 'E' {
            assert(rest.take(5) =~= home_var());
            assert(rest.skip(5) == e@.skip(i + 5));
            let ghost before = out@;
            append_all(&mut out, &h);
            assert(before + (h@ + home_replaced(e@.skip(i + 5), h@)) == out@ + home_replaced(e@.skip(i + 5), h@));
            i = i + 5;
        } else {
            assert(!(rest.len() >= 5 && rest.take(5) == home_var())) by {
                if rest.len() >= 5 && rest.take(5) == home_var() {
                    assert(rest.take(5)[0] == e@[i as int]);
                    assert(rest.take(5)[1] == e@[i + 1]);
                    assert(rest.take(5)[2] == e@[i + 2]);
                    assert(rest.take(5)[3] == e@[i + 3]);
                    assert(rest.take(5)[4] == e@[i + 4]);
                }
            }
            assert(rest.drop_first() == e@.skip(i + 1));
            assert(rest[0] == e@[i as int]);
            let ghost before = out@;
            out.push(e[i]);
            assert(before + (seq![e@[i as int]] + home_replaced(e@.skip(i + 1), h@)) == out@ + home_replaced(e@.skip(i + 1), h@));
            i = i + 1;
        }
    }
    assert(e@.skip(e.len() as int).len() == 0);
    assert(out@ + home_replaced(e@.skip(e.len() as int), h@) == out@);
    let base = chars_of(base_dir);
    let mut joined: Vec<char> = Vec::new();
    if out.len() > 0 && out[0] == '/' {
        append_all(&mut joined, &out);
    } else if base.len() == 0 {
        append_all(&mut joined, &out);
    } else if base[base.len() - 1] == '/' {
        append_all(&mut joined, &base);
        append_all(&mut joined, &out);
    } else {
        append_all(&mut joined, &base);
        joined.push('/');
        append_all(&mut joined, &out);
    }
    assert(joined@ =~= joined_path(base_dir@, out@));
    Some(string_of(&joined))
}

} // verus!
