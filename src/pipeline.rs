//! The filter/sort pipeline: which items a query admits and in what order
//! they are listed under each sort mode.

use vstd::prelude::*;
use core::cmp::Ordering;
use crate::matcher::Score;
use crate::order::{name_cmp, time_cmp, ord_int, compare_names, lemma_name_cmp, lemma_name_cmp_trans};
use crate::query::{
    views, words, scoped_tokens, generic_tokens, tokens_match, token_scores, composite_of,
    score_lt, score_less, parse_query_tokens, matches_tokens, match_score_tokens,
};

verus! {

#[derive(Clone, Copy, PartialEq, Eq, Structural, Debug)]
pub enum SortMode {
    Match,
    AlphaAsc,
    AlphaDesc,
    CreatedAsc,
    CreatedDesc,
    ModifiedAsc,
    ModifiedDesc,
}

/// Times of a path, in seconds since the epoch; absent until fetched.
#[derive(Clone, Copy, PartialEq, Eq, Structural, Debug)]
pub struct SortMeta {
    pub modified_epoch: Option<i64>,
    pub created_epoch: Option<i64>,
}

#[derive(Clone, Copy, PartialEq, Eq, Structural, Debug)]
pub enum TimeField {
    Created,
    Modified,
}

impl SortMode {
    pub open spec fn is_time(self) -> bool {
        !(self is Match || self is AlphaAsc || self is AlphaDesc)
    }

    /// The mode that follows in the cycle, back to `Match` after the last.
    pub open spec fn following(self) -> SortMode {
        match self {
            SortMode::Match => SortMode::AlphaAsc,
            SortMode::AlphaAsc => SortMode::AlphaDesc,
            SortMode::AlphaDesc => SortMode::CreatedAsc,
            SortMode::CreatedAsc => SortMode::CreatedDesc,
            SortMode::CreatedDesc => SortMode::ModifiedAsc,
            SortMode::ModifiedAsc => SortMode::ModifiedDesc,
            SortMode::ModifiedDesc => SortMode::Match,
        }
    }

    pub fn next(self) -> (r: SortMode)
        ensures
            r == self.following(),
    {
        match self {
            SortMode::Match => SortMode::AlphaAsc,
            SortMode::AlphaAsc => SortMode::AlphaDesc,
            SortMode::AlphaDesc => SortMode::CreatedAsc,
            SortMode::CreatedAsc => SortMode::CreatedDesc,
            SortMode::CreatedDesc => SortMode::ModifiedAsc,
            SortMode::ModifiedAsc => SortMode::ModifiedDesc,
            SortMode::ModifiedDesc => SortMode::Match,
        }
    }

    pub fn label(self) -> (r: &'static str)
        ensures
            r@ == match self {
                SortMode::Match => "Match"@,
                SortMode::AlphaAsc => "A->Z"@,
                SortMode::AlphaDesc => "Z->A"@,
                SortMode::CreatedAsc => "Created ^"@,
                SortMode::CreatedDesc => "Created v"@,
                SortMode::ModifiedAsc => "Modified ^"@,
                SortMode::ModifiedDesc => "Modified v"@,
            },
    {
        match self {
            SortMode::Match => "Match",
            SortMode::AlphaAsc => "A->Z",
            SortMode::AlphaDesc => "Z->A",
            SortMode::CreatedAsc => "Created ^",
            SortMode::CreatedDesc => "Created v",
            SortMode::ModifiedAsc => "Modified ^",
            SortMode::ModifiedDesc => "Modified v",
        }
    }

    /// Whether the mode orders by a timestamp.
    pub fn uses_time(self) -> (r: bool)
        ensures
            r == self.is_time(),
    {
        match self {
            SortMode::CreatedAsc | SortMode::CreatedDesc | SortMode::ModifiedAsc
            | SortMode::ModifiedDesc => true,
            _ => false,
        }
    }
}

/// The tags cached for item `i`, none when absent.
pub open spec fn tags_at(tags: Seq<Option<Vec<String>>>, i: int) -> Seq<Seq<char>> {
    if 0 <= i < tags.len() && tags[i] is Some {
        views(tags[i]->0@)
    } else {
        Seq::empty()
    }
}

/// The times cached for item `i`, absent when not fetched.
pub open spec fn meta_at(meta: Seq<Option<SortMeta>>, i: int) -> SortMeta {
    if 0 <= i < meta.len() && meta[i] is Some {
        meta[i]->0
    } else {
        SortMeta { modified_epoch: None, created_epoch: None }
    }
}

pub open spec fn time_of(m: SortMeta, field: TimeField) -> Option<i64> {
    match field {
        TimeField::Created => m.created_epoch,
        TimeField::Modified => m.modified_epoch,
    }
}

/// Present times first, ordered up or down; absent ones last either way.
pub open spec fn time_order(x: Option<i64>, y: Option<i64>, descending: bool) -> int {
    match (x, y) {
        (Some(a), Some(b)) => if descending {
            time_cmp(y, x)
        } else {
            time_cmp(x, y)
        },
        _ => time_cmp(x, y),
    }
}

pub open spec fn then(first: int, second: int) -> int {
    if first != 0 {
        first
    } else {
        second
    }
}

/// How the mode compares two paths with their times.
pub open spec fn mode_cmp(mode: SortMode, a: Seq<char>, b: Seq<char>, ma: SortMeta, mb: SortMeta) -> int {
    match mode {
        SortMode::Match | SortMode::AlphaAsc => name_cmp(a, b),
        SortMode::AlphaDesc => name_cmp(b, a),
        SortMode::CreatedAsc => then(time_order(ma.created_epoch, mb.created_epoch, false), name_cmp(a, b)),
        SortMode::CreatedDesc => then(time_order(ma.created_epoch, mb.created_epoch, true), name_cmp(a, b)),
        SortMode::ModifiedAsc => then(time_order(ma.modified_epoch, mb.modified_epoch, false), name_cmp(a, b)),
        SortMode::ModifiedDesc => then(time_order(ma.modified_epoch, mb.modified_epoch, true), name_cmp(a, b)),
    }
}

pub open spec fn idx_cmp(
    mode: SortMode,
    items: Seq<String>,
    meta: Seq<Option<SortMeta>>,
    i: int,
    j: int,
) -> int {
    mode_cmp(mode, items[i]@, items[j]@, meta_at(meta, i), meta_at(meta, j))
}

/// Item `i` is listed before item `j`: it compares lower, or equal with a lower index.
pub open spec fn before(
    mode: SortMode,
    items: Seq<String>,
    meta: Seq<Option<SortMeta>>,
    i: int,
    j: int,
) -> bool {
    let c = idx_cmp(mode, items, meta, i, j);
    c < 0 || (c == 0 && i < j)
}

pub proof fn lemma_mode_cmp(mode: SortMode, a: Seq<char>, b: Seq<char>, ma: SortMeta, mb: SortMeta)
    ensures
        mode_cmp(mode, a, b, ma, mb) == -mode_cmp(mode, b, a, mb, ma),
{
    lemma_name_cmp(a, b);
}

pub proof fn lemma_mode_cmp_trans(
    mode: SortMode,
    a: Seq<char>,
    b: Seq<char>,
    c: Seq<char>,
    ma: SortMeta,
    mb: SortMeta,
    mc: SortMeta,
)
    requires
        mode_cmp(mode, a, b, ma, mb) <= 0,
        mode_cmp(mode, b, c, mb, mc) <= 0,
    ensures
        mode_cmp(mode, a, c, ma, mc) <= 0,
        mode_cmp(mode, a, b, ma, mb) < 0 || mode_cmp(mode, b, c, mb, mc) < 0 ==> mode_cmp(
            mode,
            a,
            c,
            ma,
            mc,
        ) < 0,
{
    lemma_name_cmp(a, b);
    lemma_name_cmp(b, c);
    lemma_name_cmp(a, c);
    match mode {
        SortMode::AlphaDesc => {
            lemma_name_cmp_trans(c, b, a);
        },
        SortMode::Match | SortMode::AlphaAsc => {
            lemma_name_cmp_trans(a, b, c);
        },
        _ => {
            if name_cmp(a, b) <= 0 && name_cmp(b, c) <= 0 {
                lemma_name_cmp_trans(a, b, c);
            }
        },
    }
}

/// `before` is a strict total order on the indices of `items`.
pub proof fn lemma_before_order(
    mode: SortMode,
    items: Seq<String>,
    meta: Seq<Option<SortMeta>>,
    i: int,
    j: int,
    k: int,
)
    requires
        0 <= i < items.len(),
        0 <= j < items.len(),
        0 <= k < items.len(),
    ensures
        !before(mode, items, meta, i, i),
        before(mode, items, meta, i, j) ==> !before(mode, items, meta, j, i),
        i != j ==> before(mode, items, meta, i, j) || before(mode, items, meta, j, i),
        before(mode, items, meta, i, j) && before(mode, items, meta, j, k) ==> before(
            mode,
            items,
            meta,
            i,
            k,
        ),
{
    let (a, b, c) = (items[i]@, items[j]@, items[k]@);
    let (ma, mb, mc) = (meta_at(meta, i), meta_at(meta, j), meta_at(meta, k));
    lemma_mode_cmp(mode, a, b, ma, mb);
    lemma_mode_cmp(mode, b, c, mb, mc);
    lemma_mode_cmp(mode, a, c, ma, mc);
    lemma_mode_cmp(mode, a, a, ma, ma);
    if mode_cmp(mode, a, b, ma, mb) <= 0 && mode_cmp(mode, b, c, mb, mc) <= 0 {
        lemma_mode_cmp_trans(mode, a, b, c, ma, mb, mc);
        if mode_cmp(mode, a, b, ma, mb) == 0 && mode_cmp(mode, b, c, mb, mc) == 0 {
            lemma_mode_cmp_trans(mode, c, b, a, mc, mb, ma);
        }
    }
}


/// The query admits the path with its tags.
pub open spec fn admits(q: Seq<char>, path: Seq<char>, tags: Seq<Seq<char>>) -> bool {
    let ws = words(q);
    tokens_match(scoped_tokens(ws, '@'), scoped_tokens(ws, '#'), generic_tokens(ws), path, tags)
}

/// The composite score of the path with its tags under the query.
pub open spec fn query_score(q: Seq<char>, path: Seq<char>, tags: Seq<Seq<char>>) -> Option<Score> {
    let ws = words(q);
    composite_of(
        token_scores(scoped_tokens(ws, '@'), scoped_tokens(ws, '#'), generic_tokens(ws), path, tags),
    )
}

pub open spec fn admitted(
    items: Seq<String>,
    q: Seq<char>,
    tags: Seq<Option<Vec<String>>>,
    i: int,
) -> bool {
    admits(q, items[i]@, tags_at(tags, i))
}

/// The indices below `n` of the items that the query admits, in increasing order.
pub open spec fn kept_upto(
    items: Seq<String>,
    q: Seq<char>,
    tags: Seq<Option<Vec<String>>>,
    n: int,
) -> Seq<usize>
    decreases n,
{
    if n <= 0 {
        Seq::empty()
    } else if admitted(items, q, tags, n - 1) {
        kept_upto(items, q, tags, n - 1).push((n - 1) as usize)
    } else {
        kept_upto(items, q, tags, n - 1)
    }
}

pub open spec fn sorted_before(
    mode: SortMode,
    items: Seq<String>,
    meta: Seq<Option<SortMeta>>,
    s: Seq<usize>,
) -> bool {
    forall|a: int, b: int|
        0 <= a < b < s.len() ==> before(mode, items, meta, #[trigger] s[a] as int, #[trigger] s[b] as int)
}

pub proof fn lemma_kept_upto(items: Seq<String>, q: Seq<char>, tags: Seq<Option<Vec<String>>>, n: int)
    requires
        0 <= n <= usize::MAX,
    ensures
        forall|a: int, b: int|
            0 <= a < b < kept_upto(items, q, tags, n).len() ==> #[trigger] kept_upto(items, q, tags, n)[a]
                < #[trigger] kept_upto(items, q, tags, n)[b],
        forall|a: int|
            0 <= a < kept_upto(items, q, tags, n).len() ==> #[trigger] kept_upto(items, q, tags, n)[a]
                < n,
        forall|x: usize|
            #[trigger] kept_upto(items, q, tags, n).contains(x) <==> (x < n && admitted(
                items,
                q,
                tags,
                x as int,
            )),
    decreases n,
{
    if n > 0 {
        lemma_kept_upto(items, q, tags, n - 1);
        let prev = kept_upto(items, q, tags, n - 1);
        if admitted(items, q, tags, n - 1) {
            let cur = prev.push((n - 1) as usize);
            assert forall|x: usize| #[trigger] cur.contains(x) <==> (x < n && admitted(items, q, tags, x as int)) by {
                if x == n - 1 {
                    assert(cur[prev.len() as int] == x);
                }
                if cur.contains(x) && x != n - 1 {
                    let k = choose|k: int| 0 <= k < cur.len() && cur[k] == x;
                    assert(prev[k] == x);
                }
                if prev.contains(x) {
                    let k = choose|k: int| 0 <= k < prev.len() && prev[k] == x;
                    assert(cur[k] == x);
                }
            }
        }
    }
}

/// No item comes after one that `before` puts ahead of it.
pub open spec fn weakly_sorted(
    mode: SortMode,
    items: Seq<String>,
    meta: Seq<Option<SortMeta>>,
    s: Seq<usize>,
) -> bool {
    forall|a: int, b: int|
        0 <= a < b < s.len() ==> !before(mode, items, meta, #[trigger] s[b] as int, #[trigger] s[a] as int)
}

pub proof fn lemma_insert_sorted(
    mode: SortMode,
    items: Seq<String>,
    meta: Seq<Option<SortMeta>>,
    s: Seq<usize>,
    p: int,
    x: usize,
)
    requires
        weakly_sorted(mode, items, meta, s),
        0 <= p <= s.len(),
        forall|k: int| 0 <= k < p ==> !before(mode, items, meta, x as int, #[trigger] s[k] as int),
        forall|k: int| p <= k < s.len() ==> !before(mode, items, meta, #[trigger] s[k] as int, x as int),
    ensures
        weakly_sorted(mode, items, meta, s.insert(p, x)),
{
    let t = s.insert(p, x);
    assert forall|a: int, b: int| 0 <= a < b < t.len() implies !before(
        mode,
        items,
        meta,
        #[trigger] t[b] as int,
        #[trigger] t[a] as int,
    ) by {
        if a < p && b < p {
            assert(!before(mode, items, meta, s[b] as int, s[a] as int));
        } else if a < p && b == p {
        } else if a < p {
            assert(!before(mode, items, meta, s[b - 1] as int, s[a] as int));
        } else if a == p {
            assert(t[b] == s[b - 1]);
        } else {
            assert(!before(mode, items, meta, s[b - 1] as int, s[a - 1] as int));
        }
    }
}

pub fn compare_time(
    left: usize,
    right: usize,
    meta: &[Option<SortMeta>],
    field: TimeField,
    descending: bool,
) -> (r: Ordering)
    ensures
        ord_int(r) == time_order(
            time_of(meta_at(meta@, left as int), field),
            time_of(meta_at(meta@, right as int), field),
            descending,
        ),
{
    let none = SortMeta { modified_epoch: None, created_epoch: None };
    let left_meta = if left < meta.len() {
        match meta[left] {
            Some(m) => m,
            None => none,
        }
    } else {
        none
    };
    let right_meta = if right < meta.len() {
        match meta[right] {
            Some(m) => m,
            None => none,
        }
    } else {
        none
    };
    let (left_time, right_time) = match field {
        TimeField::Created => (left_meta.created_epoch, right_meta.created_epoch),
        TimeField::Modified => (left_meta.modified_epoch, right_meta.modified_epoch),
    };
    match (left_time, right_time) {
        (Some(a), Some(b)) => {
            let (x, y) = if descending {
                (b, a)
            } else {
                (a, b)
            };
            if x < y {
                Ordering::Less
            } else if x > y {
                Ordering::Greater
            } else {
                Ordering::Equal
            }
        },
        (Some(_), None) => Ordering::Less,
        (None, Some(_)) => Ordering::Greater,
        (None, None) => Ordering::Equal,
    }
}

pub fn compare_indices(
    left: usize,
    right: usize,
    items: &[String],
    sort_mode: SortMode,
    meta: &[Option<SortMeta>],
) -> (r: Ordering)
    requires
        left < items.len(),
        right < items.len(),
    ensures
        ord_int(r) == idx_cmp(sort_mode, items@, meta@, left as int, right as int),
{
    let left_path = items[left].as_str();
    let right_path = items[right].as_str();
    let (field, descending) = match sort_mode {
        SortMode::Match | SortMode::AlphaAsc => {
            return compare_names(left_path, right_path);
        },
        SortMode::AlphaDesc => {
            return compare_names(right_path, left_path);
        },
        SortMode::CreatedAsc => (TimeField::Created, false),
        SortMode::CreatedDesc => (TimeField::Created, true),
        SortMode::ModifiedAsc => (TimeField::Modified, false),
        SortMode::ModifiedDesc => (TimeField::Modified, true),
    };
    match compare_time(left, right, meta, field, descending) {
        Ordering::Equal => compare_names(left_path, right_path),
        other => other,
    }
}

fn is_before(
    left: usize,
    right: usize,
    items: &[String],
    sort_mode: SortMode,
    meta: &[Option<SortMeta>],
) -> (r: bool)
    requires
        left < items.len(),
        right < items.len(),
    ensures
        r == before(sort_mode, items@, meta@, left as int, right as int),
{
    match compare_indices(left, right, items, sort_mode, meta) {
        Ordering::Less => true,
        Ordering::Equal => left < right,
        Ordering::Greater => false,
    }
}

/// Sorts item indices under the mode: a permutation of the input in which no
/// index comes after one listed before it; equal items keep their index order.
pub fn sort_indices(
    indices: &mut Vec<usize>,
    items: &[String],
    sort_mode: SortMode,
    meta: &[Option<SortMeta>],
)
    requires
        forall|k: int| 0 <= k < old(indices).len() ==> #[trigger] old(indices)[k] < items.len(),
    ensures
        final(indices)@.to_multiset() == old(indices)@.to_multiset(),
        weakly_sorted(sort_mode, items@, meta@, final(indices)@),
{
    broadcast use vstd::seq_lib::group_to_multiset_ensures;

    let mut sorted: Vec<usize> = Vec::new();
    let mut i: usize = 0;
    while i < indices.len()
        invariant
            i <= indices.len(),
            forall|k: int| 0 <= k < indices.len() ==> #[trigger] indices[k] < items.len(),
            forall|k: int| 0 <= k < sorted.len() ==> #[trigger] sorted[k] < items.len(),
            sorted@.to_multiset() == indices@.take(i as int).to_multiset(),
            weakly_sorted(sort_mode, items@, meta@, sorted@),
        decreases indices.len() - i,
    {
        let x = indices[i];
        let mut p: usize = 0;
        while p < sorted.len() && !is_before(x, sorted[p], items, sort_mode, meta)
            invariant
                p <= sorted.len(),
                x < items.len(),
                forall|k: int| 0 <= k < sorted.len() ==> #[trigger] sorted[k] < items.len(),
                forall|k: int|
                    0 <= k < p ==> !before(sort_mode, items@, meta@, x as int, #[trigger] sorted[k] as int),
            decreases sorted.len() - p,
        {
            p = p + 1;
        }
        proof {
            assert forall|k: int| p <= k < sorted.len() implies !before(
                sort_mode,
                items@,
                meta@,
                #[trigger] sorted@[k] as int,
                x as int,
            ) by {
                let sp = sorted@[p as int] as int;
                lemma_before_order(sort_mode, items@, meta@, x as int, sp, x as int);
                if k > p {
                    assert(!before(sort_mode, items@, meta@, sorted@[k] as int, sp));
                    lemma_before_order(sort_mode, items@, meta@, sorted@[k] as int, x as int, sp);
                }
            }
            lemma_insert_sorted(sort_mode, items@, meta@, sorted@, p as int, x);
            vstd::seq_lib::to_multiset_insert(sorted@, p as int, x);
            assert(indices@.take(i + 1) == indices@.take(i as int).push(x));
        }
        let ghost old_sorted = sorted@;
        sorted.insert(p, x);
        proof {
            assert(sorted@ == old_sorted.insert(p as int, x));
            assert(sorted@.to_multiset() == old_sorted.to_multiset().insert(x));
            indices@.take(i as int).to_multiset_ensures();
            assert(indices@.take(i + 1) == indices@.take(i as int).push(x));
            assert(indices@.take(i + 1).to_multiset() == indices@.take(i as int).to_multiset().insert(x));
        }
        assert forall|k: int| 0 <= k < sorted.len() implies #[trigger] sorted[k] < items.len() by {
            if k < p {
                assert(sorted@[k] == old_sorted[k]);
            } else if k > p {
                assert(sorted@[k] == old_sorted[k - 1]);
            }
        }
        i = i + 1;
    }
    proof {
        assert(indices@.take(indices.len() as int) == indices@);
    }
    *indices = sorted;
}

/// The indices of the items that the query admits, in item order.
pub fn filter_indices(items: &[String], query: &str, tags: &[Option<Vec<String>>]) -> (r: Vec<usize>)
    ensures
        r@ == kept_upto(items@, query@, tags@, items.len() as int),
{
    let tokens = parse_query_tokens(query);
    let empty: Vec<String> = Vec::new();
    let mut r: Vec<usize> = Vec::new();
    let mut i: usize = 0;
    while i < items.len()
        invariant
            i <= items.len(),
            tokens.of_query(query@),
            empty@.len() == 0,
            r@ == kept_upto(items@, query@, tags@, i as int),
        decreases items.len() - i,
    {
        let item_tags: &[String] = if i < tags.len() {
            match &tags[i] {
                Some(v) => v.as_slice(),
                None => empty.as_slice(),
            }
        } else {
            empty.as_slice()
        };
        assert(views(item_tags@) == tags_at(tags@, i as int));
        if matches_tokens(items[i].as_str(), item_tags, &tokens) {
            r.push(i);
        }
        i = i + 1;
    }
    r
}


/// The query admits item `i` and gives it a composite score.
pub open spec fn ranked(items: Seq<String>, q: Seq<char>, tags: Seq<Option<Vec<String>>>, i: int) -> bool {
    admitted(items, q, tags, i) && query_score(q, items[i]@, tags_at(tags, i)) is Some
}

pub open spec fn score_at(items: Seq<String>, q: Seq<char>, tags: Seq<Option<Vec<String>>>, i: int) -> Score {
    query_score(q, items[i]@, tags_at(tags, i))->0
}

/// Lower score first, then lower index.
pub open spec fn pair_before(a: (usize, Score), b: (usize, Score)) -> bool {
    score_lt(a.1, b.1) || (a.1 == b.1 && a.0 < b.0)
}

pub open spec fn pairs_sorted(s: Seq<(usize, Score)>) -> bool {
    forall|a: int, b: int| 0 <= a < b < s.len() ==> pair_before(#[trigger] s[a], #[trigger] s[b])
}

pub proof fn lemma_pair_order(a: (usize, Score), b: (usize, Score), c: (usize, Score))
    ensures
        !pair_before(a, a),
        pair_before(a, b) ==> !pair_before(b, a),
        a.0 != b.0 ==> pair_before(a, b) || pair_before(b, a),
        pair_before(a, b) && pair_before(b, c) ==> pair_before(a, c),
{
}

pub proof fn lemma_insert_pairs_sorted(s: Seq<(usize, Score)>, p: int, x: (usize, Score))
    requires
        pairs_sorted(s),
        0 <= p <= s.len(),
        forall|k: int| 0 <= k < p ==> pair_before(#[trigger] s[k], x),
        forall|k: int| p <= k < s.len() ==> pair_before(x, #[trigger] s[k]),
    ensures
        pairs_sorted(s.insert(p, x)),
{
    let t = s.insert(p, x);
    assert forall|a: int, b: int| 0 <= a < b < t.len() implies pair_before(#[trigger] t[a], #[trigger] t[b]) by {
        if a < p && b < p {
            assert(pair_before(s[a], s[b]));
        } else if a < p && b == p {
        } else if a < p {
            assert(pair_before(s[a], s[b - 1]));
        } else if a == p {
            assert(t[b] == s[b - 1]);
        } else {
            assert(pair_before(s[a - 1], s[b - 1]));
        }
    }
}

fn pair_less(a: (usize, Score), b: (usize, Score)) -> (r: bool)
    ensures
        r == pair_before(a, b),
{
    let (x, y) = (a.1, b.1);
    let same = x.0 == y.0 && x.1 == y.1 && x.2 == y.2 && x.3 == y.3 && x.4 == y.4;
    score_less(x, y) || (same && a.0 < b.0)
}

/// The items that the query admits and scores, best score first, ties in item order.
#[verifier::rlimit(40)]
pub fn filter_and_sort_by_match(items: &[String], query: &str, tags: &[Option<Vec<String>>]) -> (r: Vec<usize>)
    ensures
        r@.no_duplicates(),
        forall|x: usize| #[trigger] r@.contains(x) <==> (x < items.len() && ranked(items@, query@, tags@, x as int)),
        forall|a: int, b: int|
            0 <= a < b < r.len() ==> pair_before(
                (#[trigger] r@[a], score_at(items@, query@, tags@, r@[a] as int)),
                (#[trigger] r@[b], score_at(items@, query@, tags@, r@[b] as int)),
            ),
{
    let tokens = parse_query_tokens(query);
    let empty: Vec<String> = Vec::new();
    let mut scored: Vec<(usize, Score)> = Vec::new();
    let mut i: usize = 0;
    while i < items.len()
        invariant
            i <= items.len(),
            tokens.of_query(query@),
            empty@.len() == 0,
            pairs_sorted(scored@),
            forall|k: int|
                0 <= k < scored.len() ==> (#[trigger] scored@[k]).0 < i && scored@[k].1 == score_at(
                    items@,
                    query@,
                    tags@,
                    scored@[k].0 as int,
                ) && ranked(items@, query@, tags@, scored@[k].0 as int),
            forall|x: usize|
                x < i && ranked(items@, query@, tags@, x as int) ==> exists|k: int|
                    0 <= k < scored.len() && (#[trigger] scored@[k]).0 == x,
        decreases items.len() - i,
    {
        let item_tags: &[String] = if i < tags.len() {
            match &tags[i] {
                Some(v) => v.as_slice(),
                None => empty.as_slice(),
            }
        } else {
            empty.as_slice()
        };
        assert(views(item_tags@) == tags_at(tags@, i as int));
        let path = items[i].as_str();
        if matches_tokens(path, item_tags, &tokens) {
            if let Some(score) = match_score_tokens(&tokens, path, item_tags) {
                let x = (i, score);
                let mut p: usize = 0;
                while p < scored.len() && !pair_less(x, scored[p])
                    invariant
                        p <= scored.len(),
                        forall|k: int| 0 <= k < p ==> !pair_before(x, #[trigger] scored@[k]),
                    decreases scored.len() - p,
                {
                    p = p + 1;
                }
                proof {
                    assert forall|k: int| 0 <= k < p implies pair_before(#[trigger] scored@[k], x) by {
                        lemma_pair_order(x, scored@[k], x);
                    }
                    assert forall|k: int| p <= k < scored.len() implies pair_before(x, #[trigger] scored@[k]) by {
                        if k > p {
                            assert(pair_before(scored@[p as int], scored@[k]));
                            lemma_pair_order(x, scored@[p as int], scored@[k]);
                        }
                    }
                    lemma_insert_pairs_sorted(scored@, p as int, x);
                }
                let ghost old_scored = scored@;
                scored.insert(p, x);
                proof {
                    assert forall|y: usize|
                        y < i + 1 && ranked(items@, query@, tags@, y as int) implies exists|k: int|
                        0 <= k < scored.len() && (#[trigger] scored@[k]).0 == y by {
                        if y == i {
                            assert(scored@[p as int].0 == y);
                        } else {
                            let k = choose|k: int| 0 <= k < old_scored.len() && (#[trigger] old_scored[k]).0 == y;
                            if k < p {
                                assert(scored@[k].0 == y);
                            } else {
                                assert(scored@[k + 1].0 == y);
                            }
                        }
                    }
                    assert forall|k: int| 0 <= k < scored.len() implies (#[trigger] scored@[k]).0 < i + 1
                        && scored@[k].1 == score_at(items@, query@, tags@, scored@[k].0 as int)
                        && ranked(items@, query@, tags@, scored@[k].0 as int) by {
                        if k < p {
                            assert(scored@[k] == old_scored[k]);
                        } else if k > p {
                            assert(scored@[k] == old_scored[k - 1]);
                        }
                    }
                }
            }
        }
        i = i + 1;
    }
    let mut r: Vec<usize> = Vec::new();
    let mut j: usize = 0;
    while j < scored.len()
        invariant
            j <= scored.len(),
            r.len() == j,
            forall|k: int| 0 <= k < j ==> #[trigger] r@[k] == scored@[k].0,
        decreases scored.len() - j,
    {
        r.push(scored[j].0);
        j = j + 1;
    }
    proof {
        assert forall|a: int, b: int| 0 <= a < b < r.len() implies r@[a] != r@[b] by {
            assert(pair_before(scored@[a], scored@[b]));
            lemma_pair_order(scored@[a], scored@[b], scored@[a]);
        }
        assert forall|x: usize| #[trigger] r@.contains(x) <==> (x < items.len() && ranked(items@, query@, tags@, x as int)) by {
            if r@.contains(x) {
                let k = choose|k: int| 0 <= k < r.len() && r@[k] == x;
                assert(scored@[k].0 == x);
            }
            if x < items.len() && ranked(items@, query@, tags@, x as int) {
                let k = choose|k: int| 0 <= k < scored.len() && (#[trigger] scored@[k]).0 == x;
                assert(r@[k] == x);
            }
        }
        assert forall|a: int, b: int| 0 <= a < b < r.len() implies pair_before(
            (#[trigger] r@[a], score_at(items@, query@, tags@, r@[a] as int)),
            (#[trigger] r@[b], score_at(items@, query@, tags@, r@[b] as int)),
        ) by {
            assert(pair_before(scored@[a], scored@[b]));
        }
    }
    r
}

/// The query has no tokens: it is blank or holds only bare `@` and `#`.
pub open spec fn no_tokens(q: Seq<char>) -> bool {
    &&& scoped_tokens(words(q), '@').len() == 0
    &&& scoped_tokens(words(q), '#').len() == 0
    &&& generic_tokens(words(q)).len() == 0
}

/// Every item index below `n`, in item order.
pub open spec fn all_items(n: int) -> Seq<usize> {
    Seq::new(n as nat, |i: int| i as usize)
}

/// `r` is the list shown for the query: every item in item order when the
/// query has no tokens, whatever the sort mode; else the items that the query
/// admits, in the order of the sort mode: by score under `Match`, else by the
/// mode's comparison; ties in item order.
pub open spec fn is_evaluation(
    items: Seq<String>,
    q: Seq<char>,
    mode: SortMode,
    meta: Seq<Option<SortMeta>>,
    tags: Seq<Option<Vec<String>>>,
    r: Seq<usize>,
) -> bool {
    if no_tokens(q) {
        r == all_items(items.len() as int)
    } else {
        sorted_evaluation(items, q, mode, meta, tags, r)
    }
}

/// The admitted items, each once, in the order of the sort mode.
pub open spec fn sorted_evaluation(
    items: Seq<String>,
    q: Seq<char>,
    mode: SortMode,
    meta: Seq<Option<SortMeta>>,
    tags: Seq<Option<Vec<String>>>,
    r: Seq<usize>,
) -> bool {
    &&& r.no_duplicates()
    &&& mode == SortMode::Match ==> (forall|x: usize| #[trigger] r.contains(x) <==> (x < items.len() && ranked(items, q, tags, x as int)))
    &&& mode == SortMode::Match ==> (forall|a: int, b: int|
        0 <= a < b < r.len() ==> pair_before(
            (#[trigger] r[a], score_at(items, q, tags, r[a] as int)),
            (#[trigger] r[b], score_at(items, q, tags, r[b] as int)),
        ))
    &&& mode != SortMode::Match ==> (forall|x: usize| #[trigger] r.contains(x) <==> (x < items.len() && admitted(items, q, tags, x as int)))
    &&& mode != SortMode::Match ==> sorted_before(mode, items, meta, r)
}

pub fn filter_and_sort(
    items: &[String],
    query: &str,
    sort_mode: SortMode,
    meta: &[Option<SortMeta>],
    tags: &[Option<Vec<String>>],
) -> (r: Vec<usize>)
    ensures
        is_evaluation(items@, query@, sort_mode, meta@, tags@, r@),
{
    let tokens = parse_query_tokens(query);
    if tokens.is_empty() {
        let mut all: Vec<usize> = Vec::new();
        let mut i: usize = 0;
        while i < items.len()
            invariant
                i <= items.len(),
                all@ == all_items(i as int),
            decreases items.len() - i,
        {
            all.push(i);
            assert(all@ =~= all_items(i + 1));
            i = i + 1;
        }
        return all;
    }
    if sort_mode == SortMode::Match {
        return filter_and_sort_by_match(items, query, tags);
    }
    let mut indices = filter_indices(items, query, tags);
    let ghost kept = indices@;
    proof {
        lemma_kept_upto(items@, query@, tags@, items.len() as int);
        assert(kept.no_duplicates()) by {
            assert forall|a: int, b: int| 0 <= a < kept.len() && 0 <= b < kept.len() && a != b implies kept[a]
                != kept[b] by {
                if a < b {
                    assert(kept[a] < kept[b]);
                } else {
                    assert(kept[b] < kept[a]);
                }
            }
        }
    }
    sort_indices(&mut indices, items, sort_mode, meta);
    proof {
        broadcast use vstd::seq_lib::group_to_multiset_ensures;

        let r = indices@;
        kept.lemma_multiset_has_no_duplicates();
        r.lemma_multiset_has_no_duplicates_conv();
        assert forall|x: usize| #[trigger] r.contains(x) <==> kept.contains(x) by {
            assert(r.to_multiset().count(x) == kept.to_multiset().count(x));
        }
        assert forall|a: int, b: int| 0 <= a < b < r.len() implies before(
            sort_mode,
            items@,
            meta@,
            #[trigger] r[a] as int,
            #[trigger] r[b] as int,
        ) by {
            assert(r.contains(r[a]) && r.contains(r[b]));
            assert(!before(sort_mode, items@, meta@, r[b] as int, r[a] as int));
            lemma_before_order(sort_mode, items@, meta@, r[a] as int, r[b] as int, r[a] as int);
        }
    }
    indices
}


/// Two duplicate-free sequences with the same elements, both sorted by the
/// same asymmetric relation, are equal.
pub proof fn lemma_sorted_unique(r1: Seq<usize>, r2: Seq<usize>, lt: spec_fn(usize, usize) -> bool)
    requires
        r1.no_duplicates(),
        r2.no_duplicates(),
        forall|x: usize| r1.contains(x) <==> r2.contains(x),
        forall|a: int, b: int| 0 <= a < b < r1.len() ==> lt(#[trigger] r1[a], #[trigger] r1[b]),
        forall|a: int, b: int| 0 <= a < b < r2.len() ==> lt(#[trigger] r2[a], #[trigger] r2[b]),
        forall|x: usize, y: usize| r1.contains(x) && r1.contains(y) && #[trigger] lt(x, y) ==> !lt(y, x),
    ensures
        r1 == r2,
    decreases r1.len(),
{
    if r1.len() == 0 {
        if r2.len() > 0 {
            assert(r2.contains(r2[0]));
        }
        assert(r1 =~= r2);
    } else {
        assert(r1.contains(r1[0]));
        assert(r2.len() > 0);
        assert(r2.contains(r2[0]));
        let k = choose|k: int| 0 <= k < r1.len() && r1[k] == r2[0];
        let j = choose|j: int| 0 <= j < r2.len() && r2[j] == r1[0];
        if k > 0 && j > 0 {
            assert(lt(r1[0], r1[k]));
            assert(lt(r2[0], r2[j]));
            assert(r1.contains(r2[0]));
        }
        assert(r1[0] == r2[0]);
        let (t1, t2) = (r1.drop_first(), r2.drop_first());
        assert forall|x: usize| t1.contains(x) <==> t2.contains(x) by {
            if t1.contains(x) {
                let a = choose|a: int| 0 <= a < t1.len() && t1[a] == x;
                assert(r1[a + 1] == x);
                assert(r1.contains(x));
                let b = choose|b: int| 0 <= b < r2.len() && r2[b] == x;
                assert(b != 0);
                assert(t2[b - 1] == x);
            }
            if t2.contains(x) {
                let a = choose|a: int| 0 <= a < t2.len() && t2[a] == x;
                assert(r2[a + 1] == x);
                assert(r2.contains(x));
                let b = choose|b: int| 0 <= b < r1.len() && r1[b] == x;
                assert(b != 0);
                assert(t1[b - 1] == x);
            }
        }
        assert forall|a: int, b: int| 0 <= a < b < t1.len() implies lt(#[trigger] t1[a], #[trigger] t1[b]) by {
            assert(lt(r1[a + 1], r1[b + 1]));
        }
        assert forall|a: int, b: int| 0 <= a < b < t2.len() implies lt(#[trigger] t2[a], #[trigger] t2[b]) by {
            assert(lt(r2[a + 1], r2[b + 1]));
        }
        assert forall|x: usize, y: usize| t1.contains(x) && t1.contains(y) && #[trigger] lt(x, y) implies !lt(y, x) by {
            let a = choose|a: int| 0 <= a < t1.len() && t1[a] == x;
            let b = choose|b: int| 0 <= b < t1.len() && t1[b] == y;
            assert(r1[a + 1] == x && r1[b + 1] == y);
            assert(r1.contains(x) && r1.contains(y));
        }
        lemma_sorted_unique(t1, t2, lt);
        assert(r1 =~= seq![r1[0]] + t1);
        assert(r2 =~= seq![r2[0]] + t2);
    }
}

/// Evaluating the same query and sort mode twice on the same caches gives
/// the same list.
pub proof fn law_evaluation_is_idempotent(
    items: Seq<String>,
    q: Seq<char>,
    mode: SortMode,
    meta: Seq<Option<SortMeta>>,
    tags: Seq<Option<Vec<String>>>,
    r1: Seq<usize>,
    r2: Seq<usize>,
)
    requires
        is_evaluation(items, q, mode, meta, tags, r1),
        is_evaluation(items, q, mode, meta, tags, r2),
    ensures
        r1 == r2,
{
    if !no_tokens(q) {
        if mode == SortMode::Match {
            let lt = |a: usize, b: usize| pair_before((a, score_at(items, q, tags, a as int)), (b, score_at(items, q, tags, b as int)));
            assert forall|x: usize, y: usize| r1.contains(x) && r1.contains(y) && #[trigger] lt(x, y) implies !lt(y, x) by {
                lemma_pair_order((x, score_at(items, q, tags, x as int)), (y, score_at(items, q, tags, y as int)), (x, score_at(items, q, tags, x as int)));
            }
            assert forall|a: int, b: int| 0 <= a < b < r1.len() implies lt(#[trigger] r1[a], #[trigger] r1[b]) by {}
            assert forall|a: int, b: int| 0 <= a < b < r2.len() implies lt(#[trigger] r2[a], #[trigger] r2[b]) by {}
            lemma_sorted_unique(r1, r2, lt);
        } else {
            let lt = |a: usize, b: usize| before(mode, items, meta, a as int, b as int);
            assert forall|x: usize, y: usize| r1.contains(x) && r1.contains(y) && #[trigger] lt(x, y) implies !lt(y, x) by {
                lemma_before_order(mode, items, meta, x as int, y as int, x as int);
            }
            assert forall|a: int, b: int| 0 <= a < b < r1.len() implies lt(#[trigger] r1[a], #[trigger] r1[b]) by {}
            assert forall|a: int, b: int| 0 <= a < b < r2.len() implies lt(#[trigger] r2[a], #[trigger] r2[b]) by {}
            lemma_sorted_unique(r1, r2, lt);
        }
    }
}

} // verus!
