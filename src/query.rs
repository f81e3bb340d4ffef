//! Query tokens and how a path with its tags is tested and scored against them.

use vstd::prelude::*;
use crate::text::{is_ws, strip_ws, entry_name_of, chars_of, is_ws_char, string_of, string_of_range, entry_name};
use crate::matcher::{Score, score_of, is_subseq_ci, fuzzy_match, match_score};

verus! {

/// The views of a list of strings.
pub open spec fn views(v: Seq<String>) -> Seq<Seq<char>> {
    v.map_values(|s: String| s@)
}

/// The maximal runs of non-whitespace characters of `s`, in order.
pub open spec fn words(s: Seq<char>) -> Seq<Seq<char>>
    decreases s.len(),
{
    if s.len() == 0 {
        Seq::empty()
    } else {
        let w = words(s.drop_last());
        if is_ws(s.last()) {
            w
        } else if s.len() >= 2 && !is_ws(s[s.len() - 2]) {
            w.update(w.len() - 1, w.last().push(s.last()))
        } else {
            w.push(seq![s.last()])
        }
    }
}

/// The bodies of the words that carry the prefix `mark` and something after it.
pub open spec fn scoped_tokens(ws: Seq<Seq<char>>, mark: char) -> Seq<Seq<char>> {
    ws.filter_map(|w: Seq<char>| if w.len() > 1 && w[0] == mark { Some(w.drop_first()) } else { None })
}

/// The words that carry neither prefix.
pub open spec fn generic_tokens(ws: Seq<Seq<char>>) -> Seq<Seq<char>> {
    ws.filter_map(|w: Seq<char>| if w.len() > 0 && w[0] != '@' && w[0] != '#' { Some(w) } else { None })
}

/// A query split into path-scoped (`@`), tag-scoped (`#`) and generic tokens.
pub struct QueryTokens {
    pub folder: Vec<String>,
    pub tags: Vec<String>,
    pub any: Vec<String>,
}

impl QueryTokens {
    /// The tokens of a query, as `parse_query_tokens` produces them.
    pub open spec fn of_query(self, q: Seq<char>) -> bool {
        &&& views(self.folder@) == scoped_tokens(words(q), '@')
        &&& views(self.tags@) == scoped_tokens(words(q), '#')
        &&& views(self.any@) == generic_tokens(words(q))
    }

    pub fn is_empty(&self) -> (r: bool)
        ensures
            r == (self.folder@.len() == 0 && self.tags@.len() == 0 && self.any@.len() == 0),
    {
        self.folder.len() == 0 && self.tags.len() == 0 && self.any.len() == 0
    }

    /// Whether tag data can change which items the query admits.
    pub fn needs_tags(&self) -> (r: bool)
        ensures
            r == (self.tags@.len() > 0 || self.any@.len() > 0),
    {
        self.tags.len() > 0 || self.any.len() > 0
    }
}

pub proof fn lemma_words_last(s: Seq<char>)
    ensures
        s.len() > 0 && !is_ws(s.last()) ==> words(s).len() > 0,
    decreases s.len(),
{
    if s.len() > 1 {
        lemma_words_last(s.drop_last());
    }
}

/// The whitespace-separated words of `s`.
pub fn split_words(s: &str) -> (r: Vec<Vec<char>>)
    ensures
        r@.map_values(|w: Vec<char>| w@) == words(s@),
{
    let v = chars_of(s);
    let mut r: Vec<Vec<char>> = Vec::new();
    let mut i: usize = 0;
    while i < v.len()
        invariant
            i <= v.len(),
            v@ == s@,
            r@.map_values(|w: Vec<char>| w@) == words(v@.take(i as int)),
        decreases v.len() - i,
    {
        let ghost pre = v@.take(i as int);
        assert(v@.take(i + 1).drop_last() == pre);
        let c = v[i];
        if !is_ws_char(c) {
            if i > 0 && !is_ws_char(v[i - 1]) {
                proof {
                    lemma_words_last(pre);
                }
                let mut last = r.pop().unwrap();
                last.push(c);
                r.push(last);
            } else {
                let mut w: Vec<char> = Vec::new();
                w.push(c);
                r.push(w);
            }
        }
        assert(r@.map_values(|w: Vec<char>| w@) =~= words(v@.take(i + 1)));
        i = i + 1;
    }
    assert(v@.take(v.len() as int) == v@);
    r
}

pub fn parse_query_tokens(query: &str) -> (r: QueryTokens)
    ensures
        r.of_query(query@),
{
    let ws = split_words(query);
    let ghost wv = ws@.map_values(|w: Vec<char>| w@);
    let mut folder: Vec<String> = Vec::new();
    let mut tags: Vec<String> = Vec::new();
    let mut any: Vec<String> = Vec::new();
    let mut i: usize = 0;
    while i < ws.len()
        invariant
            i <= ws.len(),
            wv == ws@.map_values(|w: Vec<char>| w@),
            views(folder@) == scoped_tokens(wv.take(i as int), '@'),
            views(tags@) == scoped_tokens(wv.take(i as int), '#'),
            views(any@) == generic_tokens(wv.take(i as int)),
        decreases ws.len() - i,
    {
        let w = &ws[i];
        assert(wv.take(i + 1).drop_last() == wv.take(i as int));
        assert(wv.take(i + 1).last() == w@);
        if w.len() > 0 && w[0] == '@' {
            if w.len() > 1 {
                let body = string_of_range(w, 1, w.len());
                assert(body@ == w@.drop_first());
                folder.push(body);
            }
        } else if w.len() > 0 && w[0] == '#' {
            if w.len() > 1 {
                let body = string_of_range(w, 1, w.len());
                assert(body@ == w@.drop_first());
                tags.push(body);
            }
        } else if w.len() > 0 {
            any.push(string_of(w));
        }
        assert(views(folder@) =~= scoped_tokens(wv.take(i + 1), '@'));
        assert(views(tags@) =~= scoped_tokens(wv.take(i + 1), '#'));
        assert(views(any@) =~= generic_tokens(wv.take(i + 1)));
        i = i + 1;
    }
    assert(wv.take(ws.len() as int) == wv);
    QueryTokens { folder, tags, any }
}


/// `tok`, without its whitespace, is a subsequence of `text` up to case.
pub open spec fn fuzzy(tok: Seq<char>, text: Seq<char>) -> bool {
    is_subseq_ci(strip_ws(tok), text)
}

pub open spec fn path_matches(tok: Seq<char>, path: Seq<char>) -> bool {
    fuzzy(tok, entry_name_of(path)) || fuzzy(tok, path)
}

pub open spec fn tag_matches(tok: Seq<char>, tags: Seq<Seq<char>>) -> bool {
    exists|i: int| 0 <= i < tags.len() && fuzzy(tok, #[trigger] tags[i])
}

/// Every path token matches the path, every tag token some tag, and every
/// generic token the path or some tag.
pub open spec fn tokens_match(
    folder: Seq<Seq<char>>,
    tag_toks: Seq<Seq<char>>,
    any: Seq<Seq<char>>,
    path: Seq<char>,
    tags: Seq<Seq<char>>,
) -> bool {
    &&& forall|i: int| 0 <= i < folder.len() ==> path_matches(#[trigger] folder[i], path)
    &&& forall|i: int| 0 <= i < tag_toks.len() ==> tag_matches(#[trigger] tag_toks[i], tags)
    &&& forall|i: int|
        0 <= i < any.len() ==> path_matches(#[trigger] any[i], path) || tag_matches(any[i], tags)
}

/// Lexicographic order on scores.
pub open spec fn score_lt(a: Score, b: Score) -> bool {
    ||| a.0 < b.0
    ||| a.0 == b.0 && a.1 < b.1
    ||| a.0 == b.0 && a.1 == b.1 && a.2 < b.2
    ||| a.0 == b.0 && a.1 == b.1 && a.2 == b.2 && a.3 < b.3
    ||| a.0 == b.0 && a.1 == b.1 && a.2 == b.2 && a.3 == b.3 && a.4 < b.4
}

/// The smaller of two scores; the first on a tie.
pub open spec fn min_score(a: Score, b: Score) -> Score {
    if score_lt(b, a) {
        b
    } else {
        a
    }
}

pub open spec fn min_opt(a: Option<Score>, b: Option<Score>) -> Option<Score> {
    match (a, b) {
        (Some(x), Some(y)) => Some(min_score(x, y)),
        (Some(x), None) => Some(x),
        (None, y) => y,
    }
}

pub open spec fn sat_add(a: usize, b: usize) -> usize {
    if a + b > usize::MAX {
        usize::MAX
    } else {
        (a + b) as usize
    }
}

/// The score of a token against the leaf name, or failing that against the
/// whole path with 2 added to the penalty.
pub open spec fn path_score_of(tok: Seq<char>, path: Seq<char>) -> Option<Score> {
    match score_of(tok, entry_name_of(path)) {
        Some(s) => Some(s),
        None => match score_of(tok, path) {
            Some(s) => Some((sat_add(s.0, 2), s.1, s.2, s.3, s.4)),
            None => None,
        },
    }
}

/// The least score of a token over the tags.
pub open spec fn best_tag_of(tok: Seq<char>, tags: Seq<Seq<char>>) -> Option<Score>
    decreases tags.len(),
{
    if tags.len() == 0 {
        None
    } else {
        min_opt(best_tag_of(tok, tags.drop_last()), score_of(tok, tags.last()))
    }
}

pub open spec fn generic_score_of(tok: Seq<char>, path: Seq<char>, tags: Seq<Seq<char>>) -> Option<Score> {
    min_opt(path_score_of(tok, path), best_tag_of(tok, tags))
}

/// The score of each token: path tokens, then tag tokens, then generic ones.
pub open spec fn token_scores(
    folder: Seq<Seq<char>>,
    tag_toks: Seq<Seq<char>>,
    any: Seq<Seq<char>>,
    path: Seq<char>,
    tags: Seq<Seq<char>>,
) -> Seq<Option<Score>> {
    folder.map_values(|t: Seq<char>| path_score_of(t, path)) + tag_toks.map_values(
        |t: Seq<char>| best_tag_of(t, tags),
    ) + any.map_values(|t: Seq<char>| generic_score_of(t, path, tags))
}

pub open spec fn component(s: Option<Score>, k: int) -> int {
    match s {
        Some(s) => if k == 0 {
            s.0 as int
        } else if k == 1 {
            s.1 as int
        } else if k == 2 {
            s.2 as int
        } else if k == 3 {
            s.3 as int
        } else {
            s.4 as int
        },
        None => 0,
    }
}

/// The sum of the `k`-th components.
pub open spec fn total(s: Seq<Option<Score>>, k: int) -> int
    decreases s.len(),
{
    if s.len() == 0 {
        0
    } else {
        total(s.drop_last(), k) + component(s.last(), k)
    }
}

pub open spec fn clamp(x: int) -> usize {
    if x >= usize::MAX {
        usize::MAX
    } else {
        x as usize
    }
}

/// Componentwise sums, saturated at `usize::MAX`, if every token scored.
pub open spec fn composite_of(ts: Seq<Option<Score>>) -> Option<Score> {
    if forall|i: int| 0 <= i < ts.len() ==> #[trigger] ts[i] is Some {
        Some((clamp(total(ts, 0)), clamp(total(ts, 1)), clamp(total(ts, 2)), clamp(total(ts, 3)), clamp(total(ts, 4))))
    } else {
        None
    }
}

pub open spec fn sums_to(acc: Score, pre: Seq<Option<Score>>) -> bool {
    &&& acc.0 == clamp(total(pre, 0))
    &&& acc.1 == clamp(total(pre, 1))
    &&& acc.2 == clamp(total(pre, 2))
    &&& acc.3 == clamp(total(pre, 3))
    &&& acc.4 == clamp(total(pre, 4))
}

pub proof fn lemma_total_nonneg(s: Seq<Option<Score>>, k: int)
    ensures
        total(s, k) >= 0,
    decreases s.len(),
{
    if s.len() > 0 {
        lemma_total_nonneg(s.drop_last(), k);
    }
}

pub proof fn lemma_sums_step(ts: Seq<Option<Score>>, n: int, acc: Score, s: Score)
    requires
        0 <= n < ts.len(),
        ts[n] == Some(s),
        sums_to(acc, ts.take(n)),
    ensures
        sums_to(add_spec(acc, s), ts.take(n + 1)),
{
    assert(ts.take(n + 1).drop_last() == ts.take(n));
    lemma_total_nonneg(ts.take(n), 0);
    lemma_total_nonneg(ts.take(n), 1);
    lemma_total_nonneg(ts.take(n), 2);
    lemma_total_nonneg(ts.take(n), 3);
    lemma_total_nonneg(ts.take(n), 4);
}

pub open spec fn add_spec(a: Score, b: Score) -> Score {
    (sat_add(a.0, b.0), sat_add(a.1, b.1), sat_add(a.2, b.2), sat_add(a.3, b.3), sat_add(a.4, b.4))
}

fn add_scores(a: Score, b: Score) -> (r: Score)
    ensures
        r == add_spec(a, b),
{
    (
        a.0.saturating_add(b.0),
        a.1.saturating_add(b.1),
        a.2.saturating_add(b.2),
        a.3.saturating_add(b.3),
        a.4.saturating_add(b.4),
    )
}

pub fn score_less(a: Score, b: Score) -> (r: bool)
    ensures
        r == score_lt(a, b),
{
    a.0 < b.0 || (a.0 == b.0 && a.1 < b.1) || (a.0 == b.0 && a.1 == b.1 && a.2 < b.2) || (a.0
        == b.0 && a.1 == b.1 && a.2 == b.2 && a.3 < b.3) || (a.0 == b.0 && a.1 == b.1 && a.2
        == b.2 && a.3 == b.3 && a.4 < b.4)
}

fn min_of(a: Score, b: Score) -> (r: Score)
    ensures
        r == min_score(a, b),
{
    if score_less(b, a) {
        b
    } else {
        a
    }
}

fn min_opt_of(a: Option<Score>, b: Option<Score>) -> (r: Option<Score>)
    ensures
        r == min_opt(a, b),
{
    match (a, b) {
        (Some(x), Some(y)) => Some(min_of(x, y)),
        (Some(x), None) => Some(x),
        (None, y) => y,
    }
}

pub fn matches_path_token(token: &str, path: &str) -> (r: bool)
    ensures
        r == path_matches(token@, path@),
{
    let entry = entry_name(path);
    fuzzy_match(token, entry.as_str()) || fuzzy_match(token, path)
}

fn any_tag_matches(token: &str, tags: &[String]) -> (r: bool)
    ensures
        r == tag_matches(token@, views(tags@)),
{
    let mut i: usize = 0;
    while i < tags.len()
        invariant
            i <= tags.len(),
            forall|j: int| 0 <= j < i ==> !fuzzy(token@, #[trigger] views(tags@)[j]),
        decreases tags.len() - i,
    {
        if fuzzy_match(token, tags[i].as_str()) {
            assert(fuzzy(token@, views(tags@)[i as int]));
            return true;
        }
        i = i + 1;
    }
    false
}

pub fn matches_tokens(path: &str, tags: &[String], tokens: &QueryTokens) -> (r: bool)
    ensures
        r == tokens_match(
            views(tokens.folder@),
            views(tokens.tags@),
            views(tokens.any@),
            path@,
            views(tags@),
        ),
{
    let ghost f = views(tokens.folder@);
    let ghost t = views(tokens.tags@);
    let ghost a = views(tokens.any@);
    let mut i: usize = 0;
    while i < tokens.folder.len()
        invariant
            i <= tokens.folder.len(),
            f == views(tokens.folder@),
            forall|j: int| 0 <= j < i ==> path_matches(#[trigger] f[j], path@),
        decreases tokens.folder.len() - i,
    {
        if !matches_path_token(tokens.folder[i].as_str(), path) {
            assert(!path_matches(f[i as int], path@));
            return false;
        }
        i = i + 1;
    }
    let mut i: usize = 0;
    while i < tokens.tags.len()
        invariant
            i <= tokens.tags.len(),
            t == views(tokens.tags@),
            forall|j: int| 0 <= j < i ==> tag_matches(#[trigger] t[j], views(tags@)),
        decreases tokens.tags.len() - i,
    {
        if !any_tag_matches(tokens.tags[i].as_str(), tags) {
            assert(!tag_matches(t[i as int], views(tags@)));
            return false;
        }
        i = i + 1;
    }
    let mut i: usize = 0;
    while i < tokens.any.len()
        invariant
            i <= tokens.any.len(),
            a == views(tokens.any@),
            forall|j: int|
                0 <= j < i ==> path_matches(#[trigger] a[j], path@) || tag_matches(a[j], views(tags@)),
        decreases tokens.any.len() - i,
    {
        let token = tokens.any[i].as_str();
        if !(matches_path_token(token, path) || any_tag_matches(token, tags)) {
            assert(!(path_matches(a[i as int], path@) || tag_matches(a[i as int], views(tags@))));
            return false;
        }
        i = i + 1;
    }
    true
}

pub fn match_score_for_path(token: &str, path: &str) -> (r: Option<Score>)
    ensures
        r == path_score_of(token@, path@),
{
    let entry = entry_name(path);
    if let Some(score) = match_score(token, entry.as_str()) {
        return Some(score);
    }
    if let Some(score) = match_score(token, path) {
        return Some((score.0.saturating_add(2), score.1, score.2, score.3, score.4));
    }
    None
}

pub fn best_tag_score(token: &str, tags: &[String]) -> (r: Option<Score>)
    ensures
        r == best_tag_of(token@, views(tags@)),
{
    let ghost tv = views(tags@);
    let mut best: Option<Score> = None;
    let mut i: usize = 0;
    while i < tags.len()
        invariant
            i <= tags.len(),
            tv == views(tags@),
            best == best_tag_of(token@, tv.take(i as int)),
        decreases tags.len() - i,
    {
        assert(tv.take(i + 1).drop_last() == tv.take(i as int));
        best = min_opt_of(best, match_score(token, tags[i].as_str()));
        i = i + 1;
    }
    assert(tv.take(tags.len() as int) == tv);
    best
}

/// The score of each token against a path and its tags, in token order.
fn token_score_list(tokens: &QueryTokens, path: &str, tags: &[String]) -> (r: Vec<Option<Score>>)
    ensures
        r@ == token_scores(
            views(tokens.folder@),
            views(tokens.tags@),
            views(tokens.any@),
            path@,
            views(tags@),
        ),
{
    let ghost fm = views(tokens.folder@).map_values(|x: Seq<char>| path_score_of(x, path@));
    let ghost tm = views(tokens.tags@).map_values(|x: Seq<char>| best_tag_of(x, views(tags@)));
    let ghost am = views(tokens.any@).map_values(
        |x: Seq<char>| generic_score_of(x, path@, views(tags@)),
    );
    let mut r: Vec<Option<Score>> = Vec::new();
    let mut i: usize = 0;
    while i < tokens.folder.len()
        invariant
            i <= tokens.folder.len(),
            fm == views(tokens.folder@).map_values(|x: Seq<char>| path_score_of(x, path@)),
            r@ == fm.take(i as int),
        decreases tokens.folder.len() - i,
    {
        r.push(match_score_for_path(tokens.folder[i].as_str(), path));
        assert(r@ =~= fm.take(i + 1));
        i = i + 1;
    }
    assert(fm.take(fm.len() as int) == fm);
    let mut i: usize = 0;
    while i < tokens.tags.len()
        invariant
            i <= tokens.tags.len(),
            tm == views(tokens.tags@).map_values(|x: Seq<char>| best_tag_of(x, views(tags@))),
            r@ == fm + tm.take(i as int),
        decreases tokens.tags.len() - i,
    {
        r.push(best_tag_score(tokens.tags[i].as_str(), tags));
        assert(r@ =~= fm + tm.take(i + 1));
        i = i + 1;
    }
    assert(tm.take(tm.len() as int) == tm);
    let mut i: usize = 0;
    while i < tokens.any.len()
        invariant
            i <= tokens.any.len(),
            am == views(tokens.any@).map_values(
                |x: Seq<char>| generic_score_of(x, path@, views(tags@)),
            ),
            r@ == fm + tm + am.take(i as int),
        decreases tokens.any.len() - i,
    {
        let token = tokens.any[i].as_str();
        r.push(min_opt_of(match_score_for_path(token, path), best_tag_score(token, tags)));
        assert(r@ =~= fm + tm + am.take(i + 1));
        i = i + 1;
    }
    assert(am.take(am.len() as int) == am);
    r
}

/// The componentwise saturating sum of the scores, if every one is present.
fn sum_scores(scores: &Vec<Option<Score>>) -> (r: Option<Score>)
    ensures
        r == composite_of(scores@),
{
    let mut acc: Score = (0, 0, 0, 0, 0);
    let mut i: usize = 0;
    while i < scores.len()
        invariant
            i <= scores.len(),
            sums_to(acc, scores@.take(i as int)),
            forall|j: int| 0 <= j < i ==> #[trigger] scores@[j] is Some,
        decreases scores.len() - i,
    {
        match scores[i] {
            Some(s) => {
                proof {
                    lemma_sums_step(scores@, i as int, acc, s);
                }
                acc = add_scores(acc, s);
            },
            None => {
                assert(scores@[i as int] is None);
                return None;
            },
        }
        i = i + 1;
    }
    assert(scores@.take(scores.len() as int) == scores@);
    Some(acc)
}

pub fn match_score_tokens(tokens: &QueryTokens, path: &str, tags: &[String]) -> (r: Option<Score>)
    ensures
        r == composite_of(
            token_scores(
                views(tokens.folder@),
                views(tokens.tags@),
                views(tokens.any@),
                path@,
                views(tags@),
            ),
        ),
{
    let scores = token_score_list(tokens, path, tags);
    sum_scores(&scores)
}

/// A token that matches a path's leaf name scores strictly better than any
/// token that matches another path only outside its leaf name.
pub proof fn law_leaf_match_beats_prefix_match(
    t1: Seq<char>,
    p1: Seq<char>,
    t2: Seq<char>,
    p2: Seq<char>,
)
    requires
        score_of(t1, entry_name_of(p1)) is Some,
        score_of(t2, entry_name_of(p2)) is None,
        score_of(t2, p2) is Some,
    ensures
        score_lt(path_score_of(t1, p1)->0, path_score_of(t2, p2)->0),
{
}

} // verus!
