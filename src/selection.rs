//! The selected row and the scroll window over the ordered result list.

use vstd::prelude::*;
use crate::text::chars_of;

verus! {

/// Position `k` of the list shows an item whose path is `path`.
pub open spec fn shows(items: Seq<String>, filtered: Seq<usize>, k: int, path: Seq<char>) -> bool {
    0 <= k < filtered.len() && filtered[k] < items.len() && items[filtered[k] as int]@ == path
}

/// The first position of the list that shows `path`.
pub open spec fn position_from(items: Seq<String>, filtered: Seq<usize>, path: Seq<char>, k: int) -> Option<int>
    decreases filtered.len() - k,
{
    if k < 0 || k >= filtered.len() {
        None
    } else if shows(items, filtered, k, path) {
        Some(k)
    } else {
        position_from(items, filtered, path, k + 1)
    }
}

pub open spec fn position_of(items: Seq<String>, filtered: Seq<usize>, path: Seq<char>) -> Option<int> {
    position_from(items, filtered, path, 0)
}

/// The index clamped into the list, 0 for an empty list.
pub open spec fn clamped(current: int, len: int) -> int {
    if len == 0 {
        0
    } else if current >= len {
        len - 1
    } else {
        current
    }
}

/// The path at the selected row, if the row exists.
pub open spec fn selection_at(items: Seq<String>, filtered: Seq<usize>, selected: int) -> Option<Seq<char>> {
    if 0 <= selected < filtered.len() && filtered[selected] < items.len() {
        Some(items[filtered[selected] as int]@)
    } else {
        None
    }
}

/// Where the selection goes when the list is recomputed: to the row that shows
/// the same path, else to the old row number clamped into the new list.
pub open spec fn resolved(items: Seq<String>, old_list: Seq<usize>, selected: int, new_list: Seq<usize>) -> int {
    match selection_at(items, old_list, selected) {
        Some(p) => match position_of(items, new_list, p) {
            Some(k) => k,
            None => clamped(selected, new_list.len() as int),
        },
        None => clamped(selected, new_list.len() as int),
    }
}

pub proof fn lemma_position_from(items: Seq<String>, filtered: Seq<usize>, path: Seq<char>, k: int)
    requires
        0 <= k,
    ensures
        position_from(items, filtered, path, k) matches Some(j) ==> k <= j && shows(items, filtered, j, path)
            && forall|j2: int| k <= j2 < j ==> !#[trigger] shows(items, filtered, j2, path),
        position_from(items, filtered, path, k) is None ==> forall|j2: int|
            k <= j2 ==> !#[trigger] shows(items, filtered, j2, path),
    decreases filtered.len() - k,
{
    if k < filtered.len() && !shows(items, filtered, k, path) {
        lemma_position_from(items, filtered, path, k + 1);
    }
}

pub(crate) fn same_text(a: &str, b: &str) -> (r: bool)
    ensures
        r == (a@ == b@),
{
    let x = chars_of(a);
    let y = chars_of(b);
    if x.len() != y.len() {
        assert(x@.len() != y@.len());
        return false;
    }
    let mut i: usize = 0;
    while i < x.len()
        invariant
            i <= x.len() == y.len(),
            x@ == a@,
            y@ == b@,
            forall|k: int| 0 <= k < i ==> x@[k] == y@[k],
        decreases x.len() - i,
    {
        if x[i] != y[i] {
            assert(x@[i as int] != y@[i as int]);
            return false;
        }
        i = i + 1;
    }
    assert(x@ == y@);
    true
}

/// The first row of the list that shows `path`.
pub fn index_for_path(items: &[String], filtered: &[usize], path: &str) -> (r: Option<usize>)
    ensures
        r matches Some(k) ==> position_of(items@, filtered@, path@) == Some(k as int),
        r is None ==> position_of(items@, filtered@, path@) is None,
{
    let mut k: usize = 0;
    while k < filtered.len()
        invariant
            k <= filtered.len(),
            position_of(items@, filtered@, path@) == position_from(items@, filtered@, path@, k as int),
        decreases filtered.len() - k,
    {
        let index = filtered[k];
        if index < items.len() && same_text(items[index].as_str(), path) {
            return Some(k);
        }
        k = k + 1;
    }
    None
}

pub fn adjust_selected_index(current: usize, len: usize) -> (r: usize)
    ensures
        r == clamped(current as int, len as int),
{
    if len == 0 {
        0
    } else if current >= len {
        len - 1
    } else {
        current
    }
}

/// The first row to show so that the selected row stays in view, moving the
/// window as little as possible and never past the end of the list.
pub open spec fn window_offset(selected: int, current_offset: int, height: int, total: int) -> int {
    if total == 0 || height == 0 {
        0
    } else {
        let start = if current_offset < total - 1 {
            current_offset
        } else {
            total - 1
        };
        let moved = if selected < start {
            selected
        } else if selected >= start + height {
            selected + 1 - height
        } else {
            start
        };
        let max_offset = if total > height {
            total - height
        } else {
            0
        };
        if moved > max_offset {
            max_offset
        } else {
            moved
        }
    }
}

pub fn compute_list_window_offset(selected: usize, current_offset: usize, height: usize, total: usize) -> (r: usize)
    ensures
        r == window_offset(selected as int, current_offset as int, height as int, total as int),
        height > 0 && selected < total ==> r <= selected < r + height,
{
    if total == 0 || height == 0 {
        return 0;
    }
    let mut offset = if current_offset < total - 1 {
        current_offset
    } else {
        total - 1
    };
    if selected < offset {
        offset = selected;
    } else if selected - offset >= height {
        offset = selected - (height - 1);
    }
    let max_offset = if total > height {
        total - height
    } else {
        0
    };
    if offset > max_offset {
        offset = max_offset;
    }
    offset
}

/// The path at the selected row, if the row exists.
pub fn current_selection_path(items: &[String], filtered: &[usize], selected: usize) -> (r: Option<String>)
    ensures
        r matches Some(p) ==> selection_at(items@, filtered@, selected as int) == Some(p@),
        r is None ==> selection_at(items@, filtered@, selected as int) is None,
{
    if selected < filtered.len() && filtered[selected] < items.len() {
        Some(items[filtered[selected]].clone())
    } else {
        None
    }
}

/// The rows `offset .. offset + height` of the list, cut at its end.
pub open spec fn window_of(filtered: Seq<usize>, offset: int, height: int) -> Seq<usize> {
    let end = if offset + height < filtered.len() {
        offset + height
    } else {
        filtered.len() as int
    };
    if offset < end {
        filtered.subrange(offset, end)
    } else {
        Seq::empty()
    }
}

/// The item indices on the rows in view.
pub fn visible_indices_for_window(filtered: &[usize], offset: usize, height: usize) -> (r: Vec<usize>)
    ensures
        r@ == window_of(filtered@, offset as int, height as int),
{
    let end = if height < filtered.len() && offset < filtered.len() - height {
        offset + height
    } else {
        filtered.len()
    };
    let start = if offset < end {
        offset
    } else {
        end
    };
    let mut r: Vec<usize> = Vec::new();
    let mut k: usize = start;
    while k < end
        invariant
            start <= k <= end <= filtered.len(),
            start == offset || start == end,
            r@ == filtered@.subrange(start as int, k as int),
        decreases end - k,
    {
        r.push(filtered[k]);
        assert(filtered@.subrange(start as int, k + 1) == filtered@.subrange(start as int, k as int).push(filtered@[k as int]));
        k = k + 1;
    }
    r
}

/// The paths on the rows in view.
pub fn visible_paths_for_window(items: &[String], filtered: &[usize], offset: usize, height: usize) -> (r: Vec<String>)
    ensures
        r@.map_values(|s: String| s@) == window_of(filtered@, offset as int, height as int).filter_map(
            |i: usize| if i < items@.len() { Some(items@[i as int]@) } else { None },
        ),
{
    let window = visible_indices_for_window(filtered, offset, height);
    let ghost f = |i: usize| if i < items@.len() { Some(items@[i as int]@) } else { None };
    let mut r: Vec<String> = Vec::new();
    let mut k: usize = 0;
    while k < window.len()
        invariant
            k <= window.len(),
            f == (|i: usize| if i < items@.len() { Some(items@[i as int]@) } else { None }),
            r@.map_values(|s: String| s@) == window@.take(k as int).filter_map(f),
        decreases window.len() - k,
    {
        assert(window@.take(k + 1).drop_last() == window@.take(k as int));
        let index = window[k];
        if index < items.len() {
            let p = items[index].clone();
            r.push(p);
        }
        assert(r@.map_values(|s: String| s@) =~= window@.take(k + 1).filter_map(f));
        k = k + 1;
    }
    assert(window@.take(window.len() as int) == window@);
    r
}

/// The row to select after the list was recomputed from `old_list` into `new_list`.
pub fn resolve_selection(items: &[String], old_list: &[usize], selected: usize, new_list: &[usize]) -> (r: usize)
    ensures
        r == resolved(items@, old_list@, selected as int, new_list@),
{
    match current_selection_path(items, old_list, selected) {
        Some(path) => match index_for_path(items, new_list, path.as_str()) {
            Some(k) => k,
            None => adjust_selected_index(selected, new_list.len()),
        },
        None => adjust_selected_index(selected, new_list.len()),
    }
}

/// When the recomputed list still shows the selected path, the selection
/// lands on the row that shows it.
pub proof fn law_selection_follows_path(
    items: Seq<String>,
    old_list: Seq<usize>,
    selected: int,
    new_list: Seq<usize>,
    path: Seq<char>,
)
    requires
        selection_at(items, old_list, selected) == Some(path),
        exists|k: int| shows(items, new_list, k, path),
    ensures
        shows(items, new_list, resolved(items, old_list, selected, new_list), path),
        position_of(items, new_list, path) == Some(resolved(items, old_list, selected, new_list)),
{
    lemma_position_from(items, new_list, path, 0);
}

} // verus!
