//! The interactive session's state and how each event changes it. The
//! caller runs the loop: it reads input, draws, starts the fetch jobs that
//! these transitions hand back and reports what the jobs produced.

use vstd::prelude::*;
use crate::pipeline::{SortMode, SortMeta, filter_and_sort, is_evaluation};
use crate::query::{QueryTokens, parse_query_tokens, views, words, scoped_tokens, generic_tokens};
use crate::enrich::Enrichment;
use crate::selection::{
    resolve_selection, resolved, current_selection_path, selection_at, compute_list_window_offset,
    window_offset, visible_indices_for_window, window_of,
};
use crate::tagstore::{collect_tag_suggestions, commit_tag_input};

verus! {

/// Which pane takes the keys.
#[derive(Clone, Copy, PartialEq, Eq, Structural, Debug)]
pub enum Focus {
    Search,
    Preview,
    Git,
    TagEdit,
}

/// The navigation keys.
#[derive(Clone, Copy, PartialEq, Eq, Structural, Debug)]
pub enum Key {
    Up,
    Down,
    Left,
    Right,
    PageUp,
    PageDown,
    Home,
    End,
}

/// What to do about the preview pane this tick.
#[derive(Clone, Copy, PartialEq, Eq, Structural, Debug)]
pub enum PreviewStep {
    /// Nothing changes.
    Keep,
    /// No row is selected: show that nothing is.
    Clear,
    /// Show the cached preview of this item.
    Show(usize),
    /// Show a loading note and start fetching this item's preview.
    Fetch(usize),
    /// Show a loading note; this item's preview is already being fetched.
    Wait(usize),
}

/// The query needs tag data: it has tag-scoped or generic tokens.
pub open spec fn query_needs_tags(q: Seq<char>) -> bool {
    scoped_tokens(words(q), '#').len() > 0 || generic_tokens(words(q)).len() > 0
}

pub struct Session {
    pub items: Vec<String>,
    pub query: String,
    pub sort_mode: SortMode,
    /// The item indices listed, in order.
    pub filtered: Vec<usize>,
    /// The selected row of `filtered`.
    pub selected: usize,
    /// The first row in view.
    pub list_offset: usize,
    pub focus: Focus,
    pub caches: Enrichment,
    /// Which items' previews have arrived.
    pub preview_cached: Vec<bool>,
    /// The item whose preview (or loading note) is shown.
    pub preview_shown: Option<usize>,
    /// Which items' previews are being fetched.
    pub preview_in_flight: Vec<bool>,
    /// Whether the shown preview came with version-control text.
    pub has_git: bool,
    pub preview_scroll: usize,
    pub preview_max_scroll: usize,
    pub preview_page_step: usize,
    pub git_scroll: usize,
    pub git_max_scroll: usize,
    pub git_page_step: usize,
    /// The item whose tags are being edited.
    pub tag_edit_path: Option<usize>,
    pub tag_edit_tags: Vec<String>,
    /// The known tags, taken when editing began.
    pub tag_suggestions: Vec<String>,
}

impl Session {
    pub open spec fn wf(&self) -> bool {
        &&& self.caches.wf()
        &&& self.caches.len() == self.items@.len()
        &&& self.preview_cached@.len() == self.items@.len()
        &&& self.preview_in_flight@.len() == self.items@.len()
        &&& forall|k: int| 0 <= k < self.filtered@.len() ==> #[trigger] self.filtered@[k] < self.items@.len()
    }

    /// The list is what the pipeline gives for the session's query, mode and caches.
    pub open spec fn evaluated(&self) -> bool {
        is_evaluation(
            self.items@,
            self.query@,
            self.sort_mode,
            self.caches.meta@,
            self.caches.tags@,
            self.filtered@,
        )
    }

    /// A session over `items` with an empty query, sorted by match, nothing
    /// fetched yet and the first row selected.
    pub fn new(items: Vec<String>) -> (r: Session)
        ensures
            r.wf(),
            r.evaluated(),
            r.items@ == items@,
            r.query@.len() == 0,
            r.sort_mode == SortMode::Match,
            r.selected == 0,
            r.focus == Focus::Search,
            r.preview_shown is None,
            r.tag_edit_path is None,
            !r.caches.tag_scan_started,
            forall|i: int|
                0 <= i < items@.len() ==> r.caches.dates@[i] is None && r.caches.meta@[i] is None
                    && r.caches.tags@[i] is None && !r.caches.date_in_flight@[i] && !r.caches.tag_in_flight@[i]
                    && !r.preview_cached@[i] && !r.preview_in_flight@[i],
    {
        let n = items.len();
        let caches = Enrichment::new(n);
        let mut preview_cached: Vec<bool> = Vec::new();
        let mut preview_in_flight: Vec<bool> = Vec::new();
        let mut i: usize = 0;
        while i < n
            invariant
                i <= n,
                preview_cached@.len() == i,
                preview_in_flight@.len() == i,
                forall|k: int| 0 <= k < i ==> !#[trigger] preview_cached@[k] && !preview_in_flight@[k],
            decreases n - i,
        {
            preview_cached.push(false);
            preview_in_flight.push(false);
            i = i + 1;
        }
        let query = String::new();
        let filtered = filter_and_sort(items.as_slice(), query.as_str(), SortMode::Match, caches.meta.as_slice(), caches.tags.as_slice());
        let mut s = Session {
            items,
            query,
            sort_mode: SortMode::Match,
            filtered,
            selected: 0,
            list_offset: 0,
            focus: Focus::Search,
            caches,
            preview_cached,
            preview_shown: None,
            preview_in_flight,
            has_git: false,
            preview_scroll: 0,
            preview_max_scroll: 0,
            preview_page_step: 5,
            git_scroll: 0,
            git_max_scroll: 0,
            git_page_step: 5,
            tag_edit_path: None,
            tag_edit_tags: Vec::new(),
            tag_suggestions: Vec::new(),
        };
        proof {
            lemma_evaluation_in_range(&s);
            assert forall|i: int| 0 <= i < n implies s.caches.dates@[i] is None && s.caches.meta@[i] is None
                && s.caches.tags@[i] is None && !s.caches.date_in_flight@[i] && !s.caches.tag_in_flight@[i]
                && !s.preview_cached@[i] && !s.preview_in_flight@[i] by {
                assert(!s.preview_cached@[i]);
                assert(s.caches.dates@[i] is None);
            }
        }
        s
    }

    /// Recomputes the list for the current query, mode and caches.
    fn reevaluate(&mut self)
        requires
            old(self).caches.wf(),
            old(self).caches.len() == old(self).items@.len(),
            old(self).preview_cached@.len() == old(self).items@.len(),
            old(self).preview_in_flight@.len() == old(self).items@.len(),
        ensures
            final(self).wf(),
            final(self).evaluated(),
            *final(self) == (Session { filtered: final(self).filtered, ..*old(self) }),
    {
        self.filtered = filter_and_sort(
            self.items.as_slice(),
            self.query.as_str(),
            self.sort_mode,
            self.caches.meta.as_slice(),
            self.caches.tags.as_slice(),
        );
        proof {
            lemma_evaluation_in_range(self);
        }
    }

    /// Recomputes the list and keeps the selection on the same path, or on
    /// the same row number, clamped, when the path is gone.
    pub fn refresh_keeping_selection(&mut self)
        requires
            old(self).wf(),
        ensures
            final(self).wf(),
            final(self).evaluated(),
            final(self).selected == resolved(
                old(self).items@,
                old(self).filtered@,
                old(self).selected as int,
                final(self).filtered@,
            ),
            *final(self) == (Session { filtered: final(self).filtered, selected: final(self).selected, ..*old(self) }),
    {
        let old_list = self.filtered.clone();
        assert(old_list@ == old(self).filtered@);
        self.reevaluate();
        self.selected = resolve_selection(self.items.as_slice(), old_list.as_slice(), self.selected, self.filtered.as_slice());
    }

    /// Takes a new query; a changed query recomputes the list, keeping the
    /// selection on its path, and scrolls back to the top.
    pub fn set_query(&mut self, query: String)
        requires
            old(self).wf(),
        ensures
            final(self).wf(),
            final(self).query@ == query@,
            old(self).query@ != query@ ==> final(self).evaluated() && final(self).selected == resolved(
                old(self).items@,
                old(self).filtered@,
                old(self).selected as int,
                final(self).filtered@,
            ) && final(self).list_offset == 0,
            old(self).query@ == query@ ==> final(self).filtered == old(self).filtered && final(self).selected
                == old(self).selected,
            final(self).items == old(self).items,
            final(self).sort_mode == old(self).sort_mode,
            final(self).caches == old(self).caches,
    {
        let same = crate::selection::same_text(self.query.as_str(), query.as_str());
        self.query = query;
        if !same {
            self.refresh_keeping_selection();
            self.list_offset = 0;
        }
    }

    /// Starts the one sweep over all items' tags if the query needs tags and
    /// it has not been started; returns the items to read.
    pub fn start_tag_scan_if_needed(&mut self) -> (r: Vec<usize>)
        requires
            old(self).wf(),
        ensures
            final(self).wf(),
            final(self).caches.tag_scan_started == (old(self).caches.tag_scan_started || query_needs_tags(
                old(self).query@,
            )),
            old(self).caches.tag_scan_started || !query_needs_tags(old(self).query@) ==> r@.len() == 0
                && *final(self) == *old(self),
            !old(self).caches.tag_scan_started && query_needs_tags(old(self).query@) ==> r@
                == crate::enrich::missing_upto(
                old(self).caches.tags_cached(),
                old(self).caches.tag_in_flight@,
                old(self).items@.len() as int,
            ),
            final(self).items == old(self).items,
            final(self).query == old(self).query,
            final(self).filtered == old(self).filtered,
            final(self).selected == old(self).selected,
            final(self).sort_mode == old(self).sort_mode,
            final(self).list_offset == old(self).list_offset,
            final(self).caches.tags@ == old(self).caches.tags@,
            final(self).caches.meta@ == old(self).caches.meta@,
            final(self).caches.dates@ == old(self).caches.dates@,
            final(self).caches.date_in_flight@ == old(self).caches.date_in_flight@,
            !old(self).caches.tag_scan_started && query_needs_tags(old(self).query@) ==> forall|i: int|
                0 <= i < old(self).items@.len() ==> #[trigger] final(self).caches.tag_in_flight@[i] == (old(
                    self,
                ).caches.tag_in_flight@[i] || !old(self).caches.tags_cached()[i]),
    {
        let tokens = parse_query_tokens(self.query.as_str());
        if tokens.needs_tags() && !self.caches.tag_scan_started {
            let jobs = self.caches.spawn_bulk_tag_fetch();
            self.caches.tag_scan_started = true;
            jobs
        } else {
            Vec::new()
        }
    }

    /// Moves to the next sort mode, recomputes the list keeping the selection
    /// on its path, scrolls back to the top, and returns the items whose times
    /// and whose tags to fetch in bulk: times when the new mode orders by
    /// time, tags when the query needs them and their sweep has not run.
    pub fn cycle_sort(&mut self) -> (r: (Vec<usize>, Vec<usize>))
        requires
            old(self).wf(),
        ensures
            final(self).wf(),
            final(self).evaluated(),
            final(self).sort_mode == old(self).sort_mode.following(),
            final(self).selected == resolved(
                old(self).items@,
                old(self).filtered@,
                old(self).selected as int,
                final(self).filtered@,
            ),
            final(self).list_offset == 0,
            !final(self).sort_mode.is_time() ==> r.0@.len() == 0,
            final(self).sort_mode.is_time() ==> r.0@ == crate::enrich::missing_upto(
                old(self).caches.dates_cached(),
                old(self).caches.date_in_flight@,
                old(self).items@.len() as int,
            ),
            final(self).sort_mode.is_time() ==> forall|i: int|
                0 <= i < old(self).items@.len() ==> #[trigger] final(self).caches.date_in_flight@[i] == (old(
                    self,
                ).caches.date_in_flight@[i] || !old(self).caches.dates_cached()[i]),
            !final(self).sort_mode.is_time() ==> final(self).caches.date_in_flight@ == old(
                self,
            ).caches.date_in_flight@,
            final(self).caches.tag_scan_started == (old(self).caches.tag_scan_started || query_needs_tags(
                old(self).query@,
            )),
            old(self).caches.tag_scan_started || !query_needs_tags(old(self).query@) ==> r.1@.len() == 0
                && final(self).caches.tag_in_flight@ == old(self).caches.tag_in_flight@,
            !old(self).caches.tag_scan_started && query_needs_tags(old(self).query@) ==> r.1@
                == crate::enrich::missing_upto(
                old(self).caches.tags_cached(),
                old(self).caches.tag_in_flight@,
                old(self).items@.len() as int,
            ) && forall|i: int|
                0 <= i < old(self).items@.len() ==> #[trigger] final(self).caches.tag_in_flight@[i] == (old(
                    self,
                ).caches.tag_in_flight@[i] || !old(self).caches.tags_cached()[i]),
            final(self).caches.dates@ == old(self).caches.dates@,
            final(self).caches.tags@ == old(self).caches.tags@,
    {
        self.sort_mode = self.sort_mode.next();
        self.refresh_keeping_selection();
        self.list_offset = 0;
        let dates = if self.sort_mode.uses_time() {
            self.caches.spawn_bulk_metadata_fetch()
        } else {
            Vec::new()
        };
        let tags = self.start_tag_scan_if_needed();
        (dates, tags)
    }

    /// What a tick does once the results that arrived are in the caches:
    /// starts the tag sweep if the query needs tags and it has not run
    /// (returning the items to read), and recomputes the list, keeping the
    /// selection on its path, when times arrived under a time order or tags
    /// arrived for a query that needs them.
    pub fn after_results(&mut self, dates_arrived: bool, tags_arrived: bool) -> (r: Vec<usize>)
        requires
            old(self).wf(),
        ensures
            final(self).wf(),
            final(self).items == old(self).items,
            final(self).query == old(self).query,
            final(self).sort_mode == old(self).sort_mode,
            final(self).caches.tags@ == old(self).caches.tags@,
            final(self).caches.meta@ == old(self).caches.meta@,
            final(self).caches.tag_scan_started == (old(self).caches.tag_scan_started || query_needs_tags(
                old(self).query@,
            )),
            old(self).caches.tag_scan_started || !query_needs_tags(old(self).query@) ==> r@.len() == 0,
            !old(self).caches.tag_scan_started && query_needs_tags(old(self).query@) ==> r@
                == crate::enrich::missing_upto(
                old(self).caches.tags_cached(),
                old(self).caches.tag_in_flight@,
                old(self).items@.len() as int,
            ),
            (dates_arrived && old(self).sort_mode.is_time()) || (tags_arrived && query_needs_tags(
                old(self).query@,
            )) ==> final(self).evaluated() && final(self).selected == resolved(
                old(self).items@,
                old(self).filtered@,
                old(self).selected as int,
                final(self).filtered@,
            ),
            !((dates_arrived && old(self).sort_mode.is_time()) || (tags_arrived && query_needs_tags(
                old(self).query@,
            ))) ==> final(self).filtered == old(self).filtered && final(self).selected == old(
                self,
            ).selected,
    {
        let jobs = self.start_tag_scan_if_needed();
        let needs = parse_query_tokens(self.query.as_str()).needs_tags();
        if (dates_arrived && self.sort_mode.uses_time()) || (tags_arrived && needs) {
            self.refresh_keeping_selection();
        }
        jobs
    }

    /// Decides what the preview pane shows: nothing when no row is selected;
    /// when the selection moved to another item, its cached preview, else a
    /// loading note and a fetch unless one for that item is already under
    /// way. At most one fetch per item is ever outstanding.
    pub fn preview_step(&mut self) -> (r: PreviewStep)
        requires
            old(self).wf(),
        ensures
            final(self).wf(),
            *final(self) == (Session {
                preview_shown: final(self).preview_shown,
                preview_in_flight: final(self).preview_in_flight,
                preview_scroll: final(self).preview_scroll,
                git_scroll: final(self).git_scroll,
                ..*old(self)
            }),
            old(self).selected >= old(self).filtered@.len() ==> (if old(self).preview_shown is Some {
                r == PreviewStep::Clear && final(self).preview_shown is None && final(self).preview_in_flight@
                    == old(self).preview_in_flight@ && final(self).preview_scroll == 0 && final(self).git_scroll
                    == 0
            } else {
                r == PreviewStep::Keep && *final(self) == *old(self)
            }),
            old(self).selected < old(self).filtered@.len() ==> ({
                let i = old(self).filtered@[old(self).selected as int];
                if old(self).preview_shown == Some(i) {
                    r == PreviewStep::Keep && *final(self) == *old(self)
                } else {
                    &&& final(self).preview_shown == Some(i)
                    &&& final(self).preview_scroll == 0
                    &&& final(self).git_scroll == 0
                    &&& if old(self).preview_cached@[i as int] {
                        r == PreviewStep::Show(i) && final(self).preview_in_flight@ == old(self).preview_in_flight@
                    } else if old(self).preview_in_flight@[i as int] {
                        r == PreviewStep::Wait(i) && final(self).preview_in_flight@ == old(self).preview_in_flight@
                    } else {
                        r == PreviewStep::Fetch(i) && final(self).preview_in_flight@ == old(
                            self,
                        ).preview_in_flight@.update(i as int, true)
                    }
                }
            }),
    {
        if self.selected >= self.filtered.len() {
            if self.preview_shown.is_some() {
                self.preview_shown = None;
                self.preview_scroll = 0;
                self.git_scroll = 0;
                return PreviewStep::Clear;
            }
            return PreviewStep::Keep;
        }
        let i = self.filtered[self.selected];
        if self.preview_shown == Some(i) {
            return PreviewStep::Keep;
        }
        self.preview_scroll = 0;
        self.git_scroll = 0;
        self.preview_shown = Some(i);
        if self.preview_cached[i] {
            PreviewStep::Show(i)
        } else if self.preview_in_flight[i] {
            PreviewStep::Wait(i)
        } else {
            self.preview_in_flight.set(i, true);
            PreviewStep::Fetch(i)
        }
    }

    /// Records that an item's preview arrived; it is no longer in flight.
    /// Returns whether it is to be shown now, which it is when its item is
    /// the selected one.
    pub fn apply_preview_result(&mut self, index: usize, has_git: bool) -> (r: bool)
        requires
            old(self).wf(),
        ensures
            final(self).wf(),
            r == (old(self).selected < old(self).filtered@.len() && old(self).filtered@[old(self).selected as int]
                == index),
            index < old(self).items@.len() ==> final(self).preview_cached@ == old(self).preview_cached@.update(
                index as int,
                true,
            ) && final(self).preview_in_flight@ == old(self).preview_in_flight@.update(index as int, false),
            index >= old(self).items@.len() ==> final(self).preview_cached@ == old(self).preview_cached@
                && final(self).preview_in_flight@ == old(self).preview_in_flight@,
            r ==> final(self).preview_shown == Some(index) && final(self).has_git == has_git,
            !r ==> final(self).preview_shown == old(self).preview_shown && final(self).has_git == old(self).has_git,
    {
        if index < self.preview_cached.len() {
            self.preview_cached.set(index, true);
            self.preview_in_flight.set(index, false);
        }
        let shown = self.selected < self.filtered.len() && self.filtered[self.selected] == index;
        if shown {
            self.preview_shown = Some(index);
            self.has_git = has_git;
        }
        shown
    }

    /// Leaves a pane that has nothing to show: the version-control pane when
    /// there is no such text, tag editing when no item is being edited.
    pub fn settle_focus(&mut self)
        ensures
            *final(self) == (Session { focus: final(self).focus, ..*old(self) }),
            (old(self).focus == Focus::Git && !old(self).has_git) || (old(self).focus == Focus::TagEdit
                && old(self).tag_edit_path is None) ==> final(self).focus == Focus::Preview,
            !((old(self).focus == Focus::Git && !old(self).has_git) || (old(self).focus == Focus::TagEdit
                && old(self).tag_edit_path is None)) ==> final(self).focus == old(self).focus,
    {
        if self.focus == Focus::Git && !self.has_git {
            self.focus = Focus::Preview;
        }
        if self.focus == Focus::TagEdit && self.tag_edit_path.is_none() {
            self.focus = Focus::Preview;
        }
    }

    pub fn move_up(&mut self)
        ensures
            *final(self) == (Session { selected: final(self).selected, ..*old(self) }),
            final(self).selected == if old(self).selected > 0 {
                old(self).selected - 1
            } else {
                0
            },
    {
        if self.selected > 0 {
            self.selected = self.selected - 1;
        }
    }

    pub fn move_down(&mut self)
        ensures
            *final(self) == (Session { selected: final(self).selected, ..*old(self) }),
            final(self).selected == if old(self).selected + 1 < old(self).filtered@.len() {
                old(self).selected + 1
            } else {
                old(self).selected as int
            },
    {
        if self.selected < self.filtered.len() && self.filtered.len() - self.selected > 1 {
            self.selected = self.selected + 1;
        }
    }

    /// Scrolls the window so that the selected row is in view, for a list
    /// pane `height` rows high, and returns the items on the rows in view.
    pub fn visible_window(&mut self, height: usize) -> (r: Vec<usize>)
        ensures
            *final(self) == (Session { list_offset: final(self).list_offset, ..*old(self) }),
            final(self).list_offset == window_offset(
                old(self).selected as int,
                old(self).list_offset as int,
                height as int,
                old(self).filtered@.len() as int,
            ),
            r@ == window_of(old(self).filtered@, final(self).list_offset as int, height as int),
    {
        self.list_offset = compute_list_window_offset(self.selected, self.list_offset, height, self.filtered.len());
        visible_indices_for_window(self.filtered.as_slice(), self.list_offset, height)
    }
}


/// Where a navigation key leaves the focus, the selected row and the two
/// scroll positions, and whether the key was used (in the search pane keys
/// other than these go to the query text).
pub open spec fn after_key(s: Session, key: Key, cursor_at_end: bool) -> (Focus, usize, usize, usize, bool) {
    let (f, sel, ps, gs) = (s.focus, s.selected, s.preview_scroll, s.git_scroll);
    let n = s.filtered@.len();
    match s.focus {
        Focus::Search => match key {
            Key::Up => (f, if sel > 0 { (sel - 1) as usize } else { sel }, ps, gs, true),
            Key::Down => (f, if sel + 1 < n { (sel + 1) as usize } else { sel }, ps, gs, true),
            Key::Right => if cursor_at_end {
                (Focus::Preview, sel, ps, gs, true)
            } else {
                (f, sel, ps, gs, false)
            },
            _ => (f, sel, ps, gs, false),
        },
        Focus::Preview => match key {
            Key::Left => (Focus::Search, sel, ps, gs, true),
            Key::Right => (if s.has_git { Focus::Git } else { f }, sel, ps, gs, true),
            Key::Up => if ps > 0 {
                (f, sel, (ps - 1) as usize, gs, true)
            } else {
                (Focus::Search, sel, ps, gs, true)
            },
            Key::Down => if ps < s.preview_max_scroll {
                (f, sel, (ps + 1) as usize, gs, true)
            } else {
                (if s.has_git { Focus::Git } else { f }, sel, ps, gs, true)
            },
            Key::PageUp => (f, sel, if ps > s.preview_page_step { (ps - s.preview_page_step) as usize } else { 0 }, gs, true),
            Key::PageDown => (f, sel, if ps + s.preview_page_step < s.preview_max_scroll {
                (ps + s.preview_page_step) as usize
            } else {
                s.preview_max_scroll
            }, gs, true),
            Key::Home => (f, sel, 0, gs, true),
            Key::End => (f, sel, s.preview_max_scroll, gs, true),
        },
        Focus::Git => match key {
            Key::Left => (Focus::Search, sel, ps, gs, true),
            Key::Right => (Focus::Preview, sel, ps, gs, true),
            Key::Up => if gs > 0 {
                (f, sel, ps, (gs - 1) as usize, true)
            } else {
                (Focus::Preview, sel, ps, gs, true)
            },
            Key::Down => (f, sel, ps, if gs < s.git_max_scroll { (gs + 1) as usize } else { gs }, true),
            Key::PageUp => (f, sel, ps, if gs > s.git_page_step { (gs - s.git_page_step) as usize } else { 0 }, true),
            Key::PageDown => (f, sel, ps, if gs + s.git_page_step < s.git_max_scroll {
                (gs + s.git_page_step) as usize
            } else {
                s.git_max_scroll
            }, true),
            Key::Home => (f, sel, ps, 0, true),
            Key::End => (f, sel, ps, s.git_max_scroll, true),
        },
        Focus::TagEdit => (f, sel, ps, gs, false),
    }
}

impl Session {
    /// Applies a navigation key in the focused pane; returns whether it was used.
    pub fn navigate(&mut self, key: Key, cursor_at_end: bool) -> (r: bool)
        ensures
            (final(self).focus, final(self).selected, final(self).preview_scroll, final(self).git_scroll, r)
                == after_key(*old(self), key, cursor_at_end),
            *final(self) == (Session {
                focus: final(self).focus,
                selected: final(self).selected,
                preview_scroll: final(self).preview_scroll,
                git_scroll: final(self).git_scroll,
                ..*old(self)
            }),
    {
        match self.focus {
            Focus::Search => match key {
                Key::Up => {
                    if self.selected > 0 {
                        self.selected = self.selected - 1;
                    }
                    true
                },
                Key::Down => {
                    if self.selected < self.filtered.len() && self.filtered.len() - self.selected > 1 {
                        self.selected = self.selected + 1;
                    }
                    true
                },
                Key::Right => {
                    if cursor_at_end {
                        self.focus = Focus::Preview;
                    }
                    cursor_at_end
                },
                _ => false,
            },
            Focus::Preview => {
                match key {
                    Key::Left => {
                        self.focus = Focus::Search;
                    },
                    Key::Right => {
                        if self.has_git {
                            self.focus = Focus::Git;
                        }
                    },
                    Key::Up => {
                        if self.preview_scroll > 0 {
                            self.preview_scroll = self.preview_scroll - 1;
                        } else {
                            self.focus = Focus::Search;
                        }
                    },
                    Key::Down => {
                        if self.preview_scroll < self.preview_max_scroll {
                            self.preview_scroll = self.preview_scroll + 1;
                        } else if self.has_git {
                            self.focus = Focus::Git;
                        }
                    },
                    Key::PageUp => {
                        self.preview_scroll = self.preview_scroll.saturating_sub(self.preview_page_step);
                    },
                    Key::PageDown => {
                        let next = self.preview_scroll.saturating_add(self.preview_page_step);
                        self.preview_scroll = if next < self.preview_max_scroll {
                            next
                        } else {
                            self.preview_max_scroll
                        };
                    },
                    Key::Home => {
                        self.preview_scroll = 0;
                    },
                    Key::End => {
                        self.preview_scroll = self.preview_max_scroll;
                    },
                }
                true
            },
            Focus::Git => {
                match key {
                    Key::Left => {
                        self.focus = Focus::Search;
                    },
                    Key::Right => {
                        self.focus = Focus::Preview;
                    },
                    Key::Up => {
                        if self.git_scroll > 0 {
                            self.git_scroll = self.git_scroll - 1;
                        } else {
                            self.focus = Focus::Preview;
                        }
                    },
                    Key::Down => {
                        if self.git_scroll < self.git_max_scroll {
                            self.git_scroll = self.git_scroll + 1;
                        }
                    },
                    Key::PageUp => {
                        self.git_scroll = self.git_scroll.saturating_sub(self.git_page_step);
                    },
                    Key::PageDown => {
                        let next = self.git_scroll.saturating_add(self.git_page_step);
                        self.git_scroll = if next < self.git_max_scroll {
                            next
                        } else {
                            self.git_max_scroll
                        };
                    },
                    Key::Home => {
                        self.git_scroll = 0;
                    },
                    Key::End => {
                        self.git_scroll = self.git_max_scroll;
                    },
                }
                true
            },
            Focus::TagEdit => false,
        }
    }

    /// The item on the selected row, if any.
    pub fn selected_item(&self) -> (r: Option<usize>)
        ensures
            r == (if self.selected < self.filtered@.len() {
                Some(self.filtered@[self.selected as int])
            } else {
                None
            }),
    {
        if self.selected < self.filtered.len() {
            Some(self.filtered[self.selected])
        } else {
            None
        }
    }

    /// Opens tag editing on the selected item with the tags read from its
    /// file; the known tags are taken as suggestions. Does nothing while
    /// editing or when no row is selected; returns whether editing began.
    pub fn begin_tag_edit(&mut self, file_tags: Vec<String>) -> (r: bool)
        requires
            old(self).wf(),
        ensures
            final(self).wf(),
            r == (old(self).focus != Focus::TagEdit && old(self).selected < old(self).filtered@.len()),
            !r ==> *final(self) == *old(self),
            r ==> final(self).tag_edit_path == Some(old(self).filtered@[old(self).selected as int])
                && final(self).tag_edit_tags@ == file_tags@ && final(self).focus == Focus::TagEdit
                && final(self).preview_scroll == 0,
            r ==> crate::tagstore::strictly_sorted(views(final(self).tag_suggestions@)) && forall|x: Seq<char>|
                #[trigger] views(final(self).tag_suggestions@).contains(x) <==> crate::tagstore::in_cache(
                    old(self).caches.tags@,
                    x,
                ),
            final(self).items == old(self).items,
            final(self).filtered == old(self).filtered,
            final(self).selected == old(self).selected,
            final(self).caches == old(self).caches,
    {
        if self.focus == Focus::TagEdit || self.selected >= self.filtered.len() {
            return false;
        }
        self.tag_edit_path = Some(self.filtered[self.selected]);
        self.tag_edit_tags = file_tags;
        self.tag_suggestions = collect_tag_suggestions(self.caches.tags.as_slice());
        self.focus = Focus::TagEdit;
        self.preview_scroll = 0;
        true
    }

    /// Adds the typed tag to the tags being edited (see `commit_tag_input`).
    pub fn add_typed_tag(&mut self, input: &str) -> (r: bool)
        ensures
            r == (crate::text::trim(input@).len() > 0),
            *final(self) == (Session { tag_edit_tags: final(self).tag_edit_tags, ..*old(self) }),
            trim_empty_or_present(input@, old(self).tag_edit_tags@, old(self).tag_suggestions@)
                ==> final(self).tag_edit_tags@ == old(self).tag_edit_tags@,
            !trim_empty_or_present(input@, old(self).tag_edit_tags@, old(self).tag_suggestions@)
                ==> views(final(self).tag_edit_tags@) == views(old(self).tag_edit_tags@).push(
                crate::tagstore::chosen_tag(crate::text::trim(input@), views(old(self).tag_suggestions@)),
            ),
    {
        commit_tag_input(input, &mut self.tag_edit_tags, self.tag_suggestions.as_slice())
    }

    /// Removes the last of the tags being edited.
    pub fn pop_tag(&mut self)
        ensures
            *final(self) == (Session { tag_edit_tags: final(self).tag_edit_tags, ..*old(self) }),
            old(self).tag_edit_tags@.len() > 0 ==> final(self).tag_edit_tags@ == old(self).tag_edit_tags@.drop_last(),
            old(self).tag_edit_tags@.len() == 0 ==> final(self).tag_edit_tags@ == old(self).tag_edit_tags@,
    {
        let _ = self.tag_edit_tags.pop();
    }

    /// Ends tag editing after the tags were written to the item's file: the
    /// cache takes them, focus returns to the preview and the list is
    /// recomputed keeping the selection.
    pub fn tags_saved(&mut self)
        requires
            old(self).wf(),
        ensures
            final(self).wf(),
            final(self).evaluated(),
            final(self).focus == Focus::Preview,
            final(self).tag_edit_path is None,
            final(self).tag_edit_tags@.len() == 0,
            final(self).selected == resolved(
                old(self).items@,
                old(self).filtered@,
                old(self).selected as int,
                final(self).filtered@,
            ),
            old(self).tag_edit_path is Some && old(self).tag_edit_path->0 < old(self).items@.len()
                ==> final(self).caches.tags@ == old(self).caches.tags@.update(
                old(self).tag_edit_path->0 as int,
                Some(old(self).tag_edit_tags),
            ),
            !(old(self).tag_edit_path is Some && old(self).tag_edit_path->0 < old(self).items@.len())
                ==> final(self).caches.tags@ == old(self).caches.tags@,
            final(self).caches.dates@ == old(self).caches.dates@,
            final(self).caches.meta@ == old(self).caches.meta@,
            final(self).caches.date_in_flight@ == old(self).caches.date_in_flight@,
            final(self).caches.tag_in_flight@ == old(self).caches.tag_in_flight@,
            final(self).caches.tag_scan_started == old(self).caches.tag_scan_started,
            *final(self) == (Session {
                filtered: final(self).filtered,
                selected: final(self).selected,
                focus: Focus::Preview,
                caches: final(self).caches,
                tag_edit_path: None,
                tag_edit_tags: final(self).tag_edit_tags,
                ..*old(self)
            }),
    {
        let mut tags: Vec<String> = Vec::new();
        core::mem::swap(&mut tags, &mut self.tag_edit_tags);
        if let Some(i) = self.tag_edit_path {
            self.caches.record_tags(i, tags);
        }
        self.focus = Focus::Preview;
        self.tag_edit_path = None;
        self.refresh_keeping_selection();
    }

    /// Ends tag editing without touching the cache, as when the tags could
    /// not be written.
    pub fn abandon_tag_edit(&mut self)
        ensures
            final(self).focus == Focus::Preview,
            final(self).tag_edit_path is None,
            final(self).tag_edit_tags@.len() == 0,
            *final(self) == (Session {
                focus: Focus::Preview,
                tag_edit_path: None,
                tag_edit_tags: final(self).tag_edit_tags,
                ..*old(self)
            }),
    {
        self.focus = Focus::Preview;
        self.tag_edit_path = None;
        self.tag_edit_tags = Vec::new();
    }
}

/// Committing `input` leaves the tags as they are: it is blank, or the tag
/// it resolves to is there already.
pub open spec fn trim_empty_or_present(input: Seq<char>, tags: Seq<String>, suggestions: Seq<String>) -> bool {
    crate::text::trim(input).len() == 0 || views(tags).contains(
        crate::tagstore::chosen_tag(crate::text::trim(input), views(suggestions)),
    )
}

pub proof fn lemma_evaluation_in_range(s: &Session)
    requires
        s.caches.wf(),
        s.caches.len() == s.items@.len(),
        s.preview_cached@.len() == s.items@.len(),
        s.preview_in_flight@.len() == s.items@.len(),
        s.evaluated(),
    ensures
        s.wf(),
{
    assert forall|k: int| 0 <= k < s.filtered@.len() implies #[trigger] s.filtered@[k] < s.items@.len() by {
        if !crate::pipeline::no_tokens(s.query@) {
            assert(s.filtered@.contains(s.filtered@[k]));
        }
    }
}

} // verus!
