//! The version-control pane's text, made from the outputs of the `git`
//! commands that describe the repository holding a path.

use vstd::prelude::*;
use crate::text::{chars_of, split_lines, trim, trim_range, lines_of, string_of, string_of_range};

verus! {

/// A line of the version-control pane.
#[derive(Debug, PartialEq, Eq)]
pub enum GitLine {
    Heading(String),
    Blank,
    Plain(String),
}

/// A pane line as its kind (0 heading, 1 blank, 2 plain) and its text.
pub open spec fn line_view(l: GitLine) -> (int, Seq<char>) {
    match l {
        GitLine::Heading(s) => (0, s@),
        GitLine::Blank => (1, Seq::empty()),
        GitLine::Plain(s) => (2, s@),
    }
}

pub open spec fn lines_view(ls: Seq<GitLine>) -> Seq<(int, Seq<char>)> {
    ls.map_values(|l: GitLine| line_view(l))
}

/// The line without any number of leading `## ` marks.
pub open spec fn unmarked(l: Seq<char>) -> Seq<char>
    decreases l.len(),
{
    if l.len() >= 3 && l[0] == '#' && l[1] == '#' && l[2] == ' ' {
        unmarked(l.skip(3))
    } else {
        l
    }
}

/// The branch line that `git status -sb` starts with, if it names one.
pub open spec fn branch_lines(status: Option<Seq<char>>) -> Seq<(int, Seq<char>)> {
    match status {
        Some(st) => if lines_of(st).len() > 0 && trim(unmarked(lines_of(st)[0])).len() > 0 {
            seq![(0int, "Branch: "@ + unmarked(lines_of(st)[0]))]
        } else {
            Seq::empty()
        },
        None => Seq::empty(),
    }
}

/// A section added after `acc`: a blank line if `acc` is not empty, the
/// heading, then at most `max` lines of the output; nothing for a blank output.
pub open spec fn with_section(acc: Seq<(int, Seq<char>)>, heading: Seq<char>, out: Option<Seq<char>>, max: nat) -> Seq<(int, Seq<char>)> {
    match out {
        Some(o) => if trim(o).len() == 0 {
            acc
        } else {
            let ls = lines_of(o);
            let shown = if ls.len() <= max { ls } else { ls.take(max as int) };
            acc + (if acc.len() > 0 { seq![(1int, Seq::<char>::empty())] } else { Seq::empty() }) + seq![(0int, heading)]
                + shown.map_values(|l: Seq<char>| (2int, l))
        },
        None => acc,
    }
}

/// The pane's lines: none outside a work tree, when the log cannot be read,
/// or when there is nothing to show.
pub open spec fn git_view(
    inside: Option<Seq<char>>,
    status: Option<Seq<char>>,
    log: Option<Seq<char>>,
    staged: Option<Seq<char>>,
    unstaged: Option<Seq<char>>,
    untracked: Option<Seq<char>>,
    max: nat,
) -> Option<Seq<(int, Seq<char>)>> {
    if !(inside matches Some(i) && trim(i) == "true"@) || log is None {
        None
    } else {
        let a = with_section(branch_lines(status), "Recent commits"@, log, max);
        let b = with_section(a, "Staged changes"@, staged, max);
        let c = with_section(b, "Unstaged changes"@, unstaged, max);
        let d = with_section(c, "Untracked"@, untracked, max);
        if d.len() == 0 {
            None
        } else {
            Some(d)
        }
    }
}

pub open spec fn opt_view(o: Option<&str>) -> Option<Seq<char>> {
    match o {
        Some(s) => Some(s@),
        None => None,
    }
}

/// Whether the answer of `git rev-parse --is-inside-work-tree` says that
/// the path lies in a work tree.
pub fn inside_work_tree(s: &str) -> (r: bool)
    ensures
        r == (trim(s@) == "true"@),
{
    proof {
        reveal_strlit("true");
    }
    let v = chars_of(s);
    let (a, b) = trim_range(&v, 0, v.len());
    assert(v@.subrange(0, v@.len() as int) == v@);
    if b - a != 4 {
        assert(v@.subrange(a as int, b as int).len() != "true"@.len());
        return false;
    }
    let r = v[a] == 't' && v[a + 1] == 'r' && v[a + 2] == 'u' && v[a + 3] == 'e';
    assert(r ==> v@.subrange(a as int, b as int) =~= "true"@);
    assert(v@.subrange(a as int, b as int) == "true"@ ==> v@.subrange(a as int, b as int)[0] == 't'
        && v@.subrange(a as int, b as int)[1] == 'r' && v@.subrange(a as int, b as int)[2] == 'u'
        && v@.subrange(a as int, b as int)[3] == 'e');
    r
}

fn branch_line(status: Option<&str>) -> (r: Vec<GitLine>)
    ensures
        lines_view(r@) == branch_lines(opt_view(status)),
{
    let mut r: Vec<GitLine> = Vec::new();
    if let Some(st) = status {
        let v = chars_of(st);
        let ls = split_lines(&v);
        if ls.len() > 0 {
            let first = &ls[0];
            let mut k: usize = 0;
            assert(first@.skip(0) == first@);
            while first.len() - k >= 3 && first[k] == '#' && first[k + 1] == '#' && first[k + 2] == ' '
                invariant
                    k <= first.len(),
                    unmarked(first@) == unmarked(first@.skip(k as int)),
                decreases first.len() - k,
            {
                assert(first@.skip(k as int).skip(3) == first@.skip(k + 3));
                k = k + 3;
            }
            assert(unmarked(first@.skip(k as int)) == first@.skip(k as int));
            let (a, b) = trim_range(first, k, first.len());
            assert(first@.subrange(k as int, first.len() as int) == first@.skip(k as int));
            if a < b {
                let mut text = String::new();
                text.append("Branch: ");
                let rest = string_of_range(first, k, first.len());
                text.append(rest.as_str());
                r.push(GitLine::Heading(text));
                assert(lines_view(r@) =~= seq![(0int, "Branch: "@ + unmarked(lines_of(st@)[0]))]);
            }
        }
    }
    r
}

fn add_section(acc: &mut Vec<GitLine>, heading: &str, out: Option<&str>, max: usize)
    ensures
        lines_view(final(acc)@) == with_section(lines_view(old(acc)@), heading@, opt_view(out), max as nat),
{
    if let Some(o) = out {
        let v = chars_of(o);
        let (a, b) = trim_range(&v, 0, v.len());
        assert(v@.subrange(0, v@.len() as int) == v@);
        if a == b {
            return;
        }
        let ls = split_lines(&v);
        let ghost lv = ls@.map_values(|l: Vec<char>| l@);
        let ghost start = lines_view(acc@);
        let ghost head = start + (if start.len() > 0 { seq![(1int, Seq::<char>::empty())] } else { Seq::empty() }) + seq![(0int, heading@)];
        if acc.len() > 0 {
            acc.push(GitLine::Blank);
        }
        acc.push(GitLine::Heading(heading.to_string()));
        assert(lines_view(acc@) =~= head);
        let n = if ls.len() <= max {
            ls.len()
        } else {
            max
        };
        let ghost shown = if lv.len() <= max { lv } else { lv.take(max as int) };
        assert(shown == lv.take(n as int));
        let mut k: usize = 0;
        while k < n
            invariant
                k <= n <= ls.len(),
                lv == ls@.map_values(|l: Vec<char>| l@),
                lines_view(acc@) == head + lv.take(k as int).map_values(|l: Seq<char>| (2int, l)),
            decreases n - k,
        {
            let ghost before = acc@;
            acc.push(GitLine::Plain(string_of(&ls[k])));
            assert(lv.take(k + 1) == lv.take(k as int).push(lv[k as int]));
            assert(lines_view(acc@) =~= lines_view(before).push((2int, lv[k as int])));
            assert(lines_view(acc@) =~= head + lv.take(k + 1).map_values(|l: Seq<char>| (2int, l)));
            k = k + 1;
        }
    }
}

/// The version-control pane's lines from the outputs of `git rev-parse
/// --is-inside-work-tree`, `status -sb`, `log`, `diff --stat --cached`,
/// `diff --stat` and `ls-files --others`, each absent when its command
/// failed; each output contributes at most `max_lines` lines.
pub fn git_text_lines(
    inside: Option<&str>,
    status: Option<&str>,
    log: Option<&str>,
    staged: Option<&str>,
    unstaged: Option<&str>,
    untracked: Option<&str>,
    max_lines: usize,
) -> (r: Option<Vec<GitLine>>)
    ensures
        r matches Some(ls) ==> git_view(
            opt_view(inside),
            opt_view(status),
            opt_view(log),
            opt_view(staged),
            opt_view(unstaged),
            opt_view(untracked),
            max_lines as nat,
        ) == Some(lines_view(ls@)),
        r is None ==> git_view(
            opt_view(inside),
            opt_view(status),
            opt_view(log),
            opt_view(staged),
            opt_view(unstaged),
            opt_view(untracked),
            max_lines as nat,
        ) is None,
{
    let inside_ok = match inside {
        Some(i) => inside_work_tree(i),
        None => false,
    };
    if !inside_ok || log.is_none() {
        return None;
    }
    let mut lines = branch_line(status);
    add_section(&mut lines, "Recent commits", log, max_lines);
    add_section(&mut lines, "Staged changes", staged, max_lines);
    add_section(&mut lines, "Unstaged changes", unstaged, max_lines);
    add_section(&mut lines, "Untracked", untracked, max_lines);
    if lines.len() == 0 {
        None
    } else {
        Some(lines)
    }
}

} // verus!
