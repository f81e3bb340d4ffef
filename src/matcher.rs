//! Fuzzy matching of a query against a text, and the score of a match.
//!
//! Case is folded the ASCII way throughout, so that a substring match and a
//! subsequence match agree on which characters are equal.

use vstd::prelude::*;
use crate::text::{is_ws, same_ci, strip_ws, eq_ci, chars_of, strip_whitespace};

verus! {

/// `(kind_penalty, span, gap, start, text_length)`, lower is better.
pub type Score = (usize, usize, usize, usize, usize);

/// The first index at or after `from` whose character equals `c` up to case,
/// or the length of `t` when there is none.
pub open spec fn first_ci_from(c: char, t: Seq<char>, from: int) -> int
    decreases t.len() - from,
{
    if from >= t.len() {
        t.len() as int
    } else if same_ci(t[from], c) {
        from
    } else {
        first_ci_from(c, t, from + 1)
    }
}

/// Where the `k`-th character of `q` lands when each character of `q` takes
/// the earliest unused matching character of `t`.
pub open spec fn greedy_pos(q: Seq<char>, t: Seq<char>, k: int) -> int
    decreases k,
{
    if k <= 0 {
        first_ci_from(q[0], t, 0)
    } else {
        first_ci_from(q[k], t, greedy_pos(q, t, k - 1) + 1)
    }
}

/// `q` occurs in `t` as a subsequence, up to case.
pub open spec fn is_subseq_ci(q: Seq<char>, t: Seq<char>) -> bool {
    q.len() == 0 || greedy_pos(q, t, q.len() - 1) < t.len()
}

/// The characters skipped between consecutive greedy positions, up to the `k`-th.
pub open spec fn gap_sum(q: Seq<char>, t: Seq<char>, k: int) -> int
    decreases k,
{
    if k <= 0 {
        0
    } else {
        gap_sum(q, t, k - 1) + greedy_pos(q, t, k) - greedy_pos(q, t, k - 1) - 1
    }
}

/// `n` occurs contiguously in `t` at offset `s`, up to case.
pub open spec fn occurs_ci_at(n: Seq<char>, t: Seq<char>, s: int) -> bool {
    &&& 0 <= s
    &&& s + n.len() <= t.len()
    &&& forall|k: int| 0 <= k < n.len() ==> same_ci(#[trigger] t[s + k], n[k])
}

/// The first offset at or after `s` where `n` occurs contiguously in `t`.
pub open spec fn find_ci_from(n: Seq<char>, t: Seq<char>, s: int) -> Option<int>
    decreases t.len() - s,
{
    if s < 0 || s + n.len() > t.len() {
        None
    } else if occurs_ci_at(n, t, s) {
        Some(s)
    } else {
        find_ci_from(n, t, s + 1)
    }
}

pub open spec fn find_ci(n: Seq<char>, t: Seq<char>) -> Option<int> {
    find_ci_from(n, t, 0)
}

/// The score of matching query `q` against text `t`, if it matches.
pub open spec fn score_of(q: Seq<char>, t: Seq<char>) -> Option<Score> {
    let qs = strip_ws(q);
    if qs.len() == 0 {
        Some((0, 0, 0, 0, t.len() as usize))
    } else {
        match find_ci(q, t) {
            Some(s) => Some((0, (qs.len() - 1) as usize, 0, s as usize, t.len() as usize)),
            None => if is_subseq_ci(qs, t) {
                let first = greedy_pos(qs, t, 0);
                let last = greedy_pos(qs, t, qs.len() - 1);
                Some(
                    (
                        1,
                        (last - first) as usize,
                        gap_sum(qs, t, qs.len() - 1) as usize,
                        first as usize,
                        t.len() as usize,
                    ),
                )
            } else {
                None
            },
        }
    }
}

pub proof fn lemma_first_ci_bounds(c: char, t: Seq<char>, from: int)
    requires
        0 <= from,
    ensures
        from <= first_ci_from(c, t, from) <= t.len() || (from > t.len() && first_ci_from(c, t, from) == t.len()),
        first_ci_from(c, t, from) < t.len() ==> same_ci(t[first_ci_from(c, t, from)], c),
    decreases t.len() - from,
{
    if from < t.len() && !same_ci(t[from], c) {
        lemma_first_ci_bounds(c, t, from + 1);
    }
}

/// The greedy positions increase, and once one runs off the end all later ones do.
pub proof fn lemma_greedy_step(q: Seq<char>, t: Seq<char>, k: int)
    requires
        0 <= k,
    ensures
        0 <= greedy_pos(q, t, k) <= t.len(),
        k > 0 && greedy_pos(q, t, k - 1) < t.len() ==> greedy_pos(q, t, k - 1) < greedy_pos(q, t, k),
        k > 0 && greedy_pos(q, t, k - 1) >= t.len() ==> greedy_pos(q, t, k) == t.len(),
        greedy_pos(q, t, k) < t.len() ==> same_ci(t[greedy_pos(q, t, k)], q[k]),
    decreases k,
{
    if k == 0 {
        lemma_first_ci_bounds(q[0], t, 0);
    } else {
        lemma_greedy_step(q, t, k - 1);
        lemma_first_ci_bounds(q[k], t, greedy_pos(q, t, k - 1) + 1);
    }
}

pub proof fn lemma_greedy_stuck(q: Seq<char>, t: Seq<char>, j: int, k: int)
    requires
        0 <= j <= k,
        greedy_pos(q, t, j) >= t.len(),
    ensures
        greedy_pos(q, t, k) == t.len(),
    decreases k - j,
{
    lemma_greedy_step(q, t, j);
    if j < k {
        lemma_greedy_step(q, t, j + 1);
        lemma_greedy_stuck(q, t, j + 1, k);
    }
}

pub fn find_case_insensitive(text: &str, needle: &str) -> (r: Option<usize>)
    ensures
        r matches Some(s) ==> find_ci(needle@, text@) == Some(s as int),
        r is None ==> find_ci(needle@, text@) is None,
{
    let t = chars_of(text);
    let n = chars_of(needle);
    if n.len() > t.len() {
        return None;
    }
    let mut s: usize = 0;
    while s <= t.len() - n.len()
        invariant
            n.len() <= t.len(),
            t@ == text@,
            n@ == needle@,
            find_ci(n@, t@) == find_ci_from(n@, t@, s as int),
        decreases t.len() - s,
    {
        let mut ok = true;
        let mut k: usize = 0;
        while k < n.len()
            invariant
                s + n.len() <= t.len(),
                k <= n.len(),
                ok == forall|k2: int| 0 <= k2 < k ==> same_ci(#[trigger] t@[s + k2], n@[k2]),
            decreases n.len() - k,
        {
            let same = eq_ci(t[s + k], n[k]);
            proof {
                if ok && same {
                    assert forall|k2: int| 0 <= k2 < k + 1 implies same_ci(#[trigger] t@[s + k2], n@[k2]) by {
                        if k2 < k {
                        }
                    }
                }
                if !same {
                    assert(t@[s + k as int] == t@[s + k]);
                }
            }
            ok = ok && same;
            k = k + 1;
        }
        if ok {
            return Some(s);
        }
        s = s + 1;
    }
    None
}

pub fn fuzzy_match(query: &str, text: &str) -> (r: bool)
    ensures
        r == is_subseq_ci(strip_ws(query@), text@),
{
    let q = strip_whitespace(query);
    if q.len() == 0 {
        return true;
    }
    let t = chars_of(text);
    let mut qi: usize = 0;
    let mut ti: usize = 0;
    while ti < t.len()
        invariant
            q@ == strip_ws(query@),
            t@ == text@,
            qi < q.len(),
            ti <= t.len(),
            qi > 0 ==> greedy_pos(q@, t@, qi - 1) < ti,
            greedy_pos(q@, t@, qi as int) == first_ci_from(q@[qi as int], t@, ti as int),
        decreases t.len() - ti,
    {
        if eq_ci(q[qi], t[ti]) {
            if qi + 1 == q.len() {
                return true;
            }
            qi = qi + 1;
        }
        ti = ti + 1;
    }
    proof {
        lemma_greedy_stuck(q@, t@, qi as int, q.len() - 1);
    }
    false
}

pub fn match_score(query: &str, text: &str) -> (r: Option<Score>)
    ensures
        r == score_of(query@, text@),
{
    let qc = strip_whitespace(query);
    let t = chars_of(text);
    let tlen = t.len();
    if qc.len() == 0 {
        return Some((0, 0, 0, 0, tlen));
    }
    if let Some(start) = find_case_insensitive(text, query) {
        return Some((0, qc.len() - 1, 0, start, tlen));
    }
    let mut qi: usize = 0;
    let mut ti: usize = 0;
    let mut first: usize = 0;
    let mut prev: usize = 0;
    let mut gaps: usize = 0;
    while ti < tlen && qi < qc.len()
        invariant
            qc@ == strip_ws(query@),
            t@ == text@,
            tlen == t.len(),
            qc.len() > 0,
            qi <= qc.len(),
            ti <= t.len(),
            qi > 0 ==> prev == greedy_pos(qc@, t@, qi - 1) && prev < ti,
            qi > 0 ==> first == greedy_pos(qc@, t@, 0),
            qi == 0 ==> gaps == 0,
            qi > 0 ==> gaps == gap_sum(qc@, t@, qi - 1),
            qi > 0 ==> gaps + first + qi - 1 == prev,
            qi < qc.len() ==> greedy_pos(qc@, t@, qi as int) == first_ci_from(
                qc@[qi as int],
                t@,
                ti as int,
            ),
        decreases t.len() - ti,
    {
        if eq_ci(qc[qi], t[ti]) {
            assert(greedy_pos(qc@, t@, qi as int) == ti);
            if qi == 0 {
                first = ti;
            } else {
                assert(gap_sum(qc@, t@, qi as int) == gap_sum(qc@, t@, qi - 1) + ti - prev - 1);
                gaps = gaps + (ti - prev - 1);
            }
            prev = ti;
            qi = qi + 1;
            if qi < qc.len() {
                assert(greedy_pos(qc@, t@, qi as int) == first_ci_from(qc@[qi as int], t@, prev + 1));
            }
        }
        ti = ti + 1;
    }
    if qi < qc.len() {
        proof {
            lemma_greedy_stuck(qc@, t@, qi as int, qc.len() - 1);
        }
        return None;
    }
    Some((1, prev - first, gaps, first, tlen))
}


/// The positions in `s` of its non-whitespace characters.
pub open spec fn nonws_idx(s: Seq<char>) -> Seq<int>
    decreases s.len(),
{
    if s.len() == 0 {
        Seq::empty()
    } else if is_ws(s.last()) {
        nonws_idx(s.drop_last())
    } else {
        nonws_idx(s.drop_last()).push(s.len() - 1)
    }
}

/// `p` places each character of `q` on a matching character of `t`, in increasing order.
pub open spec fn embeds_at(q: Seq<char>, t: Seq<char>, p: Seq<int>) -> bool {
    &&& p.len() == q.len()
    &&& forall|i: int| 0 <= i < p.len() ==> 0 <= #[trigger] p[i] < t.len() && same_ci(t[p[i]], q[i])
    &&& forall|i: int, j: int| 0 <= i < j < p.len() ==> #[trigger] p[i] < #[trigger] p[j]
}

pub proof fn lemma_nonws_idx(s: Seq<char>)
    ensures
        nonws_idx(s).len() == strip_ws(s).len(),
        forall|i: int|
            0 <= i < nonws_idx(s).len() ==> 0 <= #[trigger] nonws_idx(s)[i] < s.len() && strip_ws(
                s,
            )[i] == s[nonws_idx(s)[i]],
        forall|i: int, j: int|
            0 <= i < j < nonws_idx(s).len() ==> #[trigger] nonws_idx(s)[i] < #[trigger] nonws_idx(
                s,
            )[j],
    decreases s.len(),
{
    if s.len() > 0 {
        lemma_nonws_idx(s.drop_last());
    }
}

pub proof fn lemma_first_ci_le(c: char, t: Seq<char>, from: int, i: int)
    requires
        0 <= from <= i < t.len(),
        same_ci(t[i], c),
    ensures
        first_ci_from(c, t, from) <= i,
    decreases i - from,
{
    if from < i && !same_ci(t[from], c) {
        lemma_first_ci_le(c, t, from + 1, i);
    }
}

pub proof fn lemma_greedy_le_embedding(q: Seq<char>, t: Seq<char>, p: Seq<int>, k: int)
    requires
        embeds_at(q, t, p),
        0 <= k < q.len(),
    ensures
        greedy_pos(q, t, k) <= p[k],
    decreases k,
{
    if k == 0 {
        lemma_first_ci_le(q[0], t, 0, p[0]);
    } else {
        lemma_greedy_le_embedding(q, t, p, k - 1);
        assert(p[k - 1] < p[k]);
        lemma_greedy_step(q, t, k - 1);
        lemma_first_ci_le(q[k], t, greedy_pos(q, t, k - 1) + 1, p[k]);
    }
}

/// The greedy match finds a subsequence whenever one exists.
pub proof fn lemma_embedding_is_subseq(q: Seq<char>, t: Seq<char>, p: Seq<int>)
    requires
        embeds_at(q, t, p),
    ensures
        is_subseq_ci(q, t),
{
    if q.len() > 0 {
        lemma_greedy_le_embedding(q, t, p, q.len() - 1);
    }
}

pub proof fn lemma_find_ci_from(n: Seq<char>, t: Seq<char>, s0: int)
    requires
        0 <= s0,
    ensures
        find_ci_from(n, t, s0) matches Some(s) ==> occurs_ci_at(n, t, s) && s0 <= s && forall|
            s2: int,
        | s0 <= s2 < s ==> !#[trigger] occurs_ci_at(n, t, s2),
        find_ci_from(n, t, s0) is None ==> forall|s2: int| s0 <= s2 ==> !#[trigger] occurs_ci_at(n, t, s2),
    decreases t.len() - s0,
{
    if s0 + n.len() <= t.len() && !occurs_ci_at(n, t, s0) {
        lemma_find_ci_from(n, t, s0 + 1);
    }
}

/// A contiguous occurrence of a query makes its non-whitespace characters a subsequence.
pub proof fn lemma_occurrence_is_subseq(q: Seq<char>, t: Seq<char>, s: int)
    requires
        occurs_ci_at(q, t, s),
    ensures
        is_subseq_ci(strip_ws(q), t),
{
    lemma_nonws_idx(q);
    let idx = nonws_idx(q);
    let p = idx.map_values(|i: int| s + i);
    assert forall|i: int| 0 <= i < p.len() implies 0 <= #[trigger] p[i] < t.len() && same_ci(
        t[p[i]],
        strip_ws(q)[i],
    ) by {
        assert(same_ci(t[s + idx[i]], q[idx[i]]));
    }
    assert forall|i: int, j: int| 0 <= i < j < p.len() implies #[trigger] p[i] < #[trigger] p[j] by {
        assert(idx[i] < idx[j]);
    }
    lemma_embedding_is_subseq(strip_ws(q), t, p);
}

/// A query whose non-whitespace characters do not occur in the text as a
/// subsequence (up to case) gets no score.
pub proof fn law_no_subsequence_no_score(q: Seq<char>, t: Seq<char>)
    requires
        !is_subseq_ci(strip_ws(q), t),
    ensures
        score_of(q, t) is None,
{
    lemma_find_ci_from(q, t, 0);
    if let Some(s) = find_ci(q, t) {
        lemma_occurrence_is_subseq(q, t, s);
    }
}

/// The empty query matches every text with the zero score and the text's length.
pub proof fn law_empty_query_score(t: Seq<char>)
    ensures
        score_of(Seq::<char>::empty(), t) == Some((0usize, 0usize, 0usize, 0usize, t.len() as usize)),
{
    assert(strip_ws(Seq::<char>::empty()).len() == 0);
}

/// A query with some non-whitespace character that scores has penalty 0 exactly
/// when it occurs contiguously (up to case), and penalty 1 otherwise.
pub proof fn law_contiguous_penalty(q: Seq<char>, t: Seq<char>)
    requires
        strip_ws(q).len() > 0,
        score_of(q, t) is Some,
    ensures
        (score_of(q, t) matches Some(r) && r.0 == 0) == (exists|s: int| occurs_ci_at(q, t, s)),
        (score_of(q, t) matches Some(r) && r.0 == 1) == !(exists|s: int| occurs_ci_at(q, t, s)),
{
    lemma_find_ci_from(q, t, 0);
}

} // verus!
