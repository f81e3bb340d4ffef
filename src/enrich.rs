//! Per-item caches filled by background fetches, with at most one fetch of
//! each kind in flight per item. Items are named by their position in the
//! session's fixed item list. The caller runs each job that a request hands
//! back and reports its result; a cache entry, once written, stays.

use vstd::prelude::*;
use crate::pipeline::SortMeta;
use crate::query::views;

verus! {

/// The outcome of fetching one item's times.
pub struct MetaResult {
    pub index: usize,
    pub display: Option<String>,
    pub modified_epoch: Option<i64>,
    pub created_epoch: Option<i64>,
}

/// The outcome of reading one item's tags.
pub struct TagResult {
    pub index: usize,
    pub tags: Vec<String>,
}

pub struct Enrichment {
    /// The date shown for each item.
    pub dates: Vec<Option<String>>,
    pub meta: Vec<Option<SortMeta>>,
    pub date_in_flight: Vec<bool>,
    pub tags: Vec<Option<Vec<String>>>,
    pub tag_in_flight: Vec<bool>,
    /// Whether the one sweep over all items' tags has been started.
    pub tag_scan_started: bool,
}

/// The date shown for an item whose times could not be read.
pub const DATE_PLACEHOLDER: &'static str = "---- -- -- --:--";

/// The items of `window` that are below `n`, not cached and not in flight.
pub open spec fn wanted(window: Seq<usize>, n: int, cached: Seq<bool>, in_flight: Seq<bool>, x: usize) -> bool {
    &&& window.contains(x)
    &&& x < n
    &&& !cached[x as int]
    &&& !in_flight[x as int]
}

/// The items below `n` that are neither cached nor in flight, in increasing order.
pub open spec fn missing_upto(cached: Seq<bool>, in_flight: Seq<bool>, n: int) -> Seq<usize>
    decreases n,
{
    if n <= 0 {
        Seq::empty()
    } else if !cached[n - 1] && !in_flight[n - 1] {
        missing_upto(cached, in_flight, n - 1).push((n - 1) as usize)
    } else {
        missing_upto(cached, in_flight, n - 1)
    }
}

impl Enrichment {
    pub open spec fn len(&self) -> nat {
        self.dates@.len()
    }

    pub open spec fn wf(&self) -> bool {
        &&& self.meta@.len() == self.len()
        &&& self.date_in_flight@.len() == self.len()
        &&& self.tags@.len() == self.len()
        &&& self.tag_in_flight@.len() == self.len()
        &&& forall|i: int| 0 <= i < self.len() ==> (#[trigger] self.dates@[i] is Some) == (self.meta@[i] is Some)
        &&& forall|i: int| 0 <= i < self.len() && #[trigger] self.date_in_flight@[i] ==> self.dates@[i] is None
    }

    pub open spec fn dates_cached(&self) -> Seq<bool> {
        self.dates@.map_values(|d: Option<String>| d is Some)
    }

    pub open spec fn tags_cached(&self) -> Seq<bool> {
        self.tags@.map_values(|t: Option<Vec<String>>| t is Some)
    }

    /// Empty caches for `n` items, nothing in flight.
    pub fn new(n: usize) -> (r: Enrichment)
        ensures
            r.wf(),
            r.len() == n,
            forall|i: int| 0 <= i < n ==> #[trigger] r.dates@[i] is None && r.meta@[i] is None && r.tags@[i] is None
                && !r.date_in_flight@[i] && !r.tag_in_flight@[i],
            !r.tag_scan_started,
    {
        let mut dates: Vec<Option<String>> = Vec::new();
        let mut meta: Vec<Option<SortMeta>> = Vec::new();
        let mut date_in_flight: Vec<bool> = Vec::new();
        let mut tags: Vec<Option<Vec<String>>> = Vec::new();
        let mut tag_in_flight: Vec<bool> = Vec::new();
        let mut i: usize = 0;
        while i < n
            invariant
                i <= n,
                dates@.len() == i && meta@.len() == i && date_in_flight@.len() == i && tags@.len() == i
                    && tag_in_flight@.len() == i,
                forall|k: int| 0 <= k < i ==> #[trigger] dates@[k] is None && meta@[k] is None && tags@[k] is None
                    && !date_in_flight@[k] && !tag_in_flight@[k],
            decreases n - i,
        {
            dates.push(None);
            meta.push(None);
            date_in_flight.push(false);
            tags.push(None);
            tag_in_flight.push(false);
            i = i + 1;
        }
        Enrichment { dates, meta, date_in_flight, tags, tag_in_flight, tag_scan_started: false }
    }

    /// Marks as in flight each item of `window` whose times are neither cached
    /// nor being fetched, and returns those items, once each: one job each.
    pub fn ensure_dates_for_paths(&mut self, window: &[usize]) -> (r: Vec<usize>)
        requires
            old(self).wf(),
        ensures
            final(self).wf(),
            final(self).dates@ == old(self).dates@,
            final(self).meta@ == old(self).meta@,
            final(self).tags@ == old(self).tags@,
            final(self).tag_in_flight@ == old(self).tag_in_flight@,
            final(self).tag_scan_started == old(self).tag_scan_started,
            r@.no_duplicates(),
            forall|x: usize| #[trigger] r@.contains(x) <==> wanted(
                window@,
                old(self).len() as int,
                old(self).dates_cached(),
                old(self).date_in_flight@,
                x,
            ),
            forall|i: int| 0 <= i < old(self).len() ==> #[trigger] final(self).date_in_flight@[i] == (
                old(self).date_in_flight@[i] || r@.contains(i as usize)),
    {
        let ghost cached = old(self).dates_cached();
        let ghost start = old(self).date_in_flight@;
        let mut r: Vec<usize> = Vec::new();
        let mut k: usize = 0;
        while k < window.len()
            invariant
                k <= window.len(),
                self.wf(),
                self.len() == old(self).len(),
                self.dates@ == old(self).dates@,
                self.meta@ == old(self).meta@,
                self.tags@ == old(self).tags@,
                self.tag_in_flight@ == old(self).tag_in_flight@,
                self.tag_scan_started == old(self).tag_scan_started,
                cached == old(self).dates_cached(),
                start == old(self).date_in_flight@,
                r@.no_duplicates(),
                forall|x: usize| #[trigger] r@.contains(x) <==> wanted(
                    window@.take(k as int),
                    self.len() as int,
                    cached,
                    start,
                    x,
                ),
                forall|i: int| 0 <= i < self.len() ==> #[trigger] self.date_in_flight@[i] == (start[i]
                    || r@.contains(i as usize)),
            decreases window.len() - k,
        {
            let x = window[k];
            proof {
                assert(window@.take(k + 1) == window@.take(k as int).push(x));
                let post = window@.take(k + 1);
                let pre = window@.take(k as int);
                assert forall|y: usize| post.contains(y) <==> (pre.contains(y) || y == x) by {
                    if post.contains(y) {
                        let j = choose|j: int| 0 <= j < post.len() && post[j] == y;
                        if j < k {
                            assert(pre[j] == y);
                        }
                    }
                    if pre.contains(y) {
                        let j = choose|j: int| 0 <= j < pre.len() && pre[j] == y;
                        assert(post[j] == y);
                    }
                    if y == x {
                        assert(post[k as int] == x);
                    }
                }
            }
            let ghost r_old = r@;
            if x < self.dates.len() && self.dates[x].is_none() && !self.date_in_flight[x] {
                assert(cached[x as int] == false);
                assert(self.date_in_flight@[x as int] == (start[x as int] || r_old.contains(x)));
                self.date_in_flight.set(x, true);
                r.push(x);
                assert(r@ == r_old.push(x));
                assert forall|y: usize| #[trigger] r@.contains(y) <==> wanted(
                    window@.take(k + 1),
                    self.len() as int,
                    cached,
                    start,
                    y,
                ) by {
                    assert(r_old.contains(y) <==> wanted(window@.take(k as int), self.len() as int, cached, start, y));
                    if r@.contains(y) && y != x {
                        let j = choose|j: int| 0 <= j < r@.len() && r@[j] == y;
                        assert(r_old[j] == y);
                    }
                    if r_old.contains(y) {
                        let j = choose|j: int| 0 <= j < r_old.len() && r_old[j] == y;
                        assert(r@[j] == y);
                    }
                    if y == x {
                        assert(r@[r_old.len() as int] == x);
                    }
                }
            } else {
                proof {
                    assert forall|y: usize| #[trigger] r@.contains(y) <==> wanted(
                        window@.take(k + 1),
                        self.len() as int,
                        cached,
                        start,
                        y,
                    ) by {
                        assert(r_old.contains(y) <==> wanted(window@.take(k as int), self.len() as int, cached, start, y));
                        if y == x && x < self.len() {
                            assert(cached[x as int] == (self.dates@[x as int] is Some));
                            assert(self.date_in_flight@[x as int] == (start[x as int] || r_old.contains(x)));
                        }
                    }
                }
            }
            k = k + 1;
        }
        assert(window@.take(window.len() as int) == window@);
        r
    }

    /// Marks as in flight each item of `window` whose tags are neither cached
    /// nor being read, and returns those items, once each: one job each.
    pub fn ensure_tags_for_paths(&mut self, window: &[usize]) -> (r: Vec<usize>)
        requires
            old(self).wf(),
        ensures
            final(self).wf(),
            final(self).dates@ == old(self).dates@,
            final(self).meta@ == old(self).meta@,
            final(self).date_in_flight@ == old(self).date_in_flight@,
            final(self).tags@ == old(self).tags@,
            final(self).tag_scan_started == old(self).tag_scan_started,
            r@.no_duplicates(),
            forall|x: usize| #[trigger] r@.contains(x) <==> wanted(
                window@,
                old(self).len() as int,
                old(self).tags_cached(),
                old(self).tag_in_flight@,
                x,
            ),
            forall|i: int| 0 <= i < old(self).len() ==> #[trigger] final(self).tag_in_flight@[i] == (
                old(self).tag_in_flight@[i] || r@.contains(i as usize)),
    {
        let ghost cached = old(self).tags_cached();
        let ghost start = old(self).tag_in_flight@;
        let mut r: Vec<usize> = Vec::new();
        let mut k: usize = 0;
        while k < window.len()
            invariant
                k <= window.len(),
                self.wf(),
                self.len() == old(self).len(),
                self.dates@ == old(self).dates@,
                self.meta@ == old(self).meta@,
                self.date_in_flight@ == old(self).date_in_flight@,
                self.tags@ == old(self).tags@,
                self.tag_scan_started == old(self).tag_scan_started,
                cached == old(self).tags_cached(),
                start == old(self).tag_in_flight@,
                r@.no_duplicates(),
                forall|x: usize| #[trigger] r@.contains(x) <==> wanted(
                    window@.take(k as int),
                    self.len() as int,
                    cached,
                    start,
                    x,
                ),
                forall|i: int| 0 <= i < self.len() ==> #[trigger] self.tag_in_flight@[i] == (start[i]
                    || r@.contains(i as usize)),
            decreases window.len() - k,
        {
            let x = window[k];
            proof {
                assert(window@.take(k + 1) == window@.take(k as int).push(x));
                let post = window@.take(k + 1);
                let pre = window@.take(k as int);
                assert forall|y: usize| post.contains(y) <==> (pre.contains(y) || y == x) by {
                    if post.contains(y) {
                        let j = choose|j: int| 0 <= j < post.len() && post[j] == y;
                        if j < k {
                            assert(pre[j] == y);
                        }
                    }
                    if pre.contains(y) {
                        let j = choose|j: int| 0 <= j < pre.len() && pre[j] == y;
                        assert(post[j] == y);
                    }
                    if y == x {
                        assert(post[k as int] == x);
                    }
                }
            }
            let ghost r_old = r@;
            if x < self.tags.len() && self.tags[x].is_none() && !self.tag_in_flight[x] {
                assert(cached[x as int] == false);
                assert(self.tag_in_flight@[x as int] == (start[x as int] || r_old.contains(x)));
                self.tag_in_flight.set(x, true);
                r.push(x);
                assert(r@ == r_old.push(x));
                assert forall|y: usize| #[trigger] r@.contains(y) <==> wanted(
                    window@.take(k + 1),
                    self.len() as int,
                    cached,
                    start,
                    y,
                ) by {
                    assert(r_old.contains(y) <==> wanted(window@.take(k as int), self.len() as int, cached, start, y));
                    if r@.contains(y) && y != x {
                        let j = choose|j: int| 0 <= j < r@.len() && r@[j] == y;
                        assert(r_old[j] == y);
                    }
                    if r_old.contains(y) {
                        let j = choose|j: int| 0 <= j < r_old.len() && r_old[j] == y;
                        assert(r@[j] == y);
                    }
                    if y == x {
                        assert(r@[r_old.len() as int] == x);
                    }
                }
            } else {
                proof {
                    assert forall|y: usize| #[trigger] r@.contains(y) <==> wanted(
                        window@.take(k + 1),
                        self.len() as int,
                        cached,
                        start,
                        y,
                    ) by {
                        assert(r_old.contains(y) <==> wanted(window@.take(k as int), self.len() as int, cached, start, y));
                        if y == x && x < self.len() {
                            assert(cached[x as int] == (self.tags@[x as int] is Some));
                            assert(self.tag_in_flight@[x as int] == (start[x as int] || r_old.contains(x)));
                        }
                    }
                }
            }
            k = k + 1;
        }
        assert(window@.take(window.len() as int) == window@);
        r
    }

    /// Marks as in flight every item whose tags are neither cached nor being
    /// read, and returns them in item order: one sweep reads them all.
    pub fn spawn_bulk_tag_fetch(&mut self) -> (r: Vec<usize>)
        requires
            old(self).wf(),
        ensures
            final(self).wf(),
            final(self).dates@ == old(self).dates@,
            final(self).meta@ == old(self).meta@,
            final(self).date_in_flight@ == old(self).date_in_flight@,
            final(self).tags@ == old(self).tags@,
            final(self).tag_scan_started == old(self).tag_scan_started,
            r@ == missing_upto(old(self).tags_cached(), old(self).tag_in_flight@, old(self).len() as int),
            forall|i: int| 0 <= i < old(self).len() ==> #[trigger] final(self).tag_in_flight@[i] == (
                old(self).tag_in_flight@[i] || !old(self).tags_cached()[i]),
    {
        let ghost cached = old(self).tags_cached();
        let ghost start = old(self).tag_in_flight@;
        let mut r: Vec<usize> = Vec::new();
        let mut i: usize = 0;
        while i < self.tags.len()
            invariant
                i <= self.len(),
                self.wf(),
                self.len() == old(self).len(),
                self.dates@ == old(self).dates@,
                self.meta@ == old(self).meta@,
                self.date_in_flight@ == old(self).date_in_flight@,
                self.tags@ == old(self).tags@,
                self.tag_scan_started == old(self).tag_scan_started,
                cached == old(self).tags_cached(),
                start == old(self).tag_in_flight@,
                r@ == missing_upto(cached, start, i as int),
                forall|k: int| 0 <= k < i ==> #[trigger] self.tag_in_flight@[k] == (start[k] || !cached[k]),
                forall|k: int| i <= k < self.len() ==> #[trigger] self.tag_in_flight@[k] == start[k],
            decreases self.len() - i,
        {
            assert(cached[i as int] == (self.tags@[i as int] is Some));
            if self.tags[i].is_none() && !self.tag_in_flight[i] {
                self.tag_in_flight.set(i, true);
                r.push(i);
            }
            i = i + 1;
        }
        r
    }

    /// Marks as in flight every item whose times are neither cached nor being
    /// fetched, and returns them in item order: one sweep fetches them all.
    pub fn spawn_bulk_metadata_fetch(&mut self) -> (r: Vec<usize>)
        requires
            old(self).wf(),
        ensures
            final(self).wf(),
            final(self).dates@ == old(self).dates@,
            final(self).meta@ == old(self).meta@,
            final(self).tags@ == old(self).tags@,
            final(self).tag_in_flight@ == old(self).tag_in_flight@,
            final(self).tag_scan_started == old(self).tag_scan_started,
            r@ == missing_upto(old(self).dates_cached(), old(self).date_in_flight@, old(self).len() as int),
            forall|i: int| 0 <= i < old(self).len() ==> #[trigger] final(self).date_in_flight@[i] == (
                old(self).date_in_flight@[i] || !old(self).dates_cached()[i]),
    {
        let ghost cached = old(self).dates_cached();
        let ghost start = old(self).date_in_flight@;
        let mut r: Vec<usize> = Vec::new();
        let mut i: usize = 0;
        while i < self.dates.len()
            invariant
                i <= self.len(),
                self.wf(),
                self.len() == old(self).len(),
                self.dates@ == old(self).dates@,
                self.meta@ == old(self).meta@,
                self.tags@ == old(self).tags@,
                self.tag_in_flight@ == old(self).tag_in_flight@,
                self.tag_scan_started == old(self).tag_scan_started,
                cached == old(self).dates_cached(),
                start == old(self).date_in_flight@,
                r@ == missing_upto(cached, start, i as int),
                forall|k: int| 0 <= k < i ==> #[trigger] self.date_in_flight@[k] == (start[k] || !cached[k]),
                forall|k: int| i <= k < self.len() ==> #[trigger] self.date_in_flight@[k] == start[k],
            decreases self.len() - i,
        {
            assert(cached[i as int] == (self.dates@[i as int] is Some));
            if self.dates[i].is_none() && !self.date_in_flight[i] {
                self.date_in_flight.set(i, true);
                r.push(i);
            }
            i = i + 1;
        }
        r
    }

    /// Stores a fetched item's times: the date shown (a placeholder when the
    /// fetch failed) and the times to sort by; the item is no longer in flight.
    pub fn apply_date_result(&mut self, result: MetaResult)
        requires
            old(self).wf(),
        ensures
            final(self).wf(),
            final(self).tags@ == old(self).tags@,
            final(self).tag_in_flight@ == old(self).tag_in_flight@,
            final(self).tag_scan_started == old(self).tag_scan_started,
            result.index >= old(self).len() ==> final(self).dates@ == old(self).dates@ && final(self).meta@
                == old(self).meta@ && final(self).date_in_flight@ == old(self).date_in_flight@,
            result.index < old(self).len() ==> {
                &&& forall|j: int| 0 <= j < old(self).len() && j != result.index ==> #[trigger] final(self).dates@[j]
                    == old(self).dates@[j]
                &&& final(self).dates@[result.index as int] is Some
                &&& final(self).dates@[result.index as int]->0@ == match result.display {
                    Some(d) => d@,
                    None => DATE_PLACEHOLDER@,
                }
                &&& final(self).meta@ == old(self).meta@.update(
                    result.index as int,
                    Some(SortMeta { modified_epoch: result.modified_epoch, created_epoch: result.created_epoch }),
                )
                &&& final(self).date_in_flight@ == old(self).date_in_flight@.update(result.index as int, false)
            },
    {
        let i = result.index;
        if i < self.dates.len() {
            let display = match result.display {
                Some(d) => d,
                None => DATE_PLACEHOLDER.to_string(),
            };
            self.dates.set(i, Some(display));
            self.meta.set(
                i,
                Some(SortMeta { modified_epoch: result.modified_epoch, created_epoch: result.created_epoch }),
            );
            self.date_in_flight.set(i, false);
        }
    }

    /// Stores an item's tags as read; the item is no longer in flight.
    pub fn apply_tag_result(&mut self, result: TagResult)
        requires
            old(self).wf(),
        ensures
            final(self).wf(),
            final(self).dates@ == old(self).dates@,
            final(self).meta@ == old(self).meta@,
            final(self).date_in_flight@ == old(self).date_in_flight@,
            final(self).tag_scan_started == old(self).tag_scan_started,
            result.index >= old(self).len() ==> final(self).tags@ == old(self).tags@ && final(self).tag_in_flight@
                == old(self).tag_in_flight@,
            result.index < old(self).len() ==> final(self).tags@ == old(self).tags@.update(
                result.index as int,
                Some(result.tags),
            ) && final(self).tag_in_flight@ == old(self).tag_in_flight@.update(result.index as int, false),
    {
        let i = result.index;
        if i < self.tags.len() {
            self.tags.set(i, Some(result.tags));
            self.tag_in_flight.set(i, false);
        }
    }

    /// Stores tags that were just written to an item's tag file.
    pub fn record_tags(&mut self, index: usize, tags: Vec<String>)
        requires
            old(self).wf(),
        ensures
            final(self).wf(),
            final(self).dates@ == old(self).dates@,
            final(self).meta@ == old(self).meta@,
            final(self).date_in_flight@ == old(self).date_in_flight@,
            final(self).tag_in_flight@ == old(self).tag_in_flight@,
            final(self).tag_scan_started == old(self).tag_scan_started,
            index >= old(self).len() ==> final(self).tags@ == old(self).tags@,
            index < old(self).len() ==> final(self).tags@ == old(self).tags@.update(index as int, Some(tags)),
    {
        if index < self.tags.len() {
            self.tags.set(index, Some(tags));
        }
    }
}

/// While an item's tags are being read, a request for them starts no second
/// job; the same holds of its times.
pub proof fn law_pending_fetch_not_repeated(e: Enrichment, window: Seq<usize>, x: usize)
    requires
        e.wf(),
        x < e.len(),
    ensures
        e.tag_in_flight@[x as int] ==> !wanted(window, e.len() as int, e.tags_cached(), e.tag_in_flight@, x),
        e.date_in_flight@[x as int] ==> !wanted(window, e.len() as int, e.dates_cached(), e.date_in_flight@, x),
{
}

} // verus!
