use navgator::order::compare_names;
use navgator::pipeline::{
    compare_indices, compare_time, filter_and_sort, filter_and_sort_by_match, filter_indices,
    sort_indices, SortMeta, SortMode, TimeField,
};
use navgator::selection::{
    adjust_selected_index, compute_list_window_offset, current_selection_path, index_for_path,
    resolve_selection, visible_indices_for_window, visible_paths_for_window,
};
use std::cmp::Ordering;

fn strings(v: &[&str]) -> Vec<String> {
    v.iter().map(|s| s.to_string()).collect()
}

fn no_tags(n: usize) -> Vec<Option<Vec<String>>> {
    vec![None; n]
}

fn no_meta(n: usize) -> Vec<Option<SortMeta>> {
    vec![None; n]
}

fn modified(t: i64) -> Option<SortMeta> {
    Some(SortMeta { modified_epoch: Some(t), created_epoch: None })
}

#[test]
fn scenario_query_wid_keeps_only_widget() {
    let items = strings(&["/a/Projects", "/a/Projects/widget", "/a/Downloads"]);
    let r = filter_and_sort(&items, "wid", SortMode::Match, &no_meta(3), &no_tags(3));
    assert_eq!(r, vec![1]);
    let t = navgator::query::parse_query_tokens("wid");
    let score = navgator::query::match_score_tokens(&t, &items[1], &[]).unwrap();
    assert_eq!(score.0, 0);
}

#[test]
fn scenario_tag_query_uses_tag_cache() {
    let items = strings(&["/a/Projects", "/a/Projects/widget", "/a/Downloads"]);
    let mut tags = no_tags(3);
    tags[1] = Some(strings(&["infra", "demo"]));
    let r = filter_and_sort(&items, "#infra", SortMode::Match, &no_meta(3), &tags);
    assert_eq!(r, vec![1]);
    let r = filter_and_sort(&items, "#infra", SortMode::AlphaAsc, &no_meta(3), &tags);
    assert_eq!(r, vec![1]);
}

#[test]
fn scenario_missing_time_sorts_last_when_descending() {
    let items = strings(&["/a/Downloads", "/a/Projects"]);
    let mut meta = no_meta(2);
    meta[1] = modified(100);
    let r = filter_and_sort(&items, "a", SortMode::ModifiedDesc, &meta, &no_tags(2));
    assert_eq!(r, vec![1, 0]);
    let r = filter_and_sort(&items, "a", SortMode::ModifiedAsc, &meta, &no_tags(2));
    assert_eq!(r, vec![1, 0]);
}

#[test]
fn empty_query_keeps_item_order_in_every_mode() {
    let items = strings(&["/b", "/a", "/c"]);
    let meta = vec![modified(200), modified(100), None];
    let mut mode = SortMode::Match;
    for _ in 0..7 {
        assert_eq!(filter_and_sort(&items, "", mode, &meta, &no_tags(3)), vec![0, 1, 2]);
        assert_eq!(filter_and_sort(&items, " @ # ", mode, &meta, &no_tags(3)), vec![0, 1, 2]);
        mode = mode.next();
    }
}

#[test]
fn time_modes_order_by_value_then_name() {
    let items = strings(&["/a/c", "/a/b", "/a/a", "/a/d"]);
    let meta = vec![modified(5), modified(9), modified(5), None];
    let asc = filter_and_sort(&items, "a", SortMode::ModifiedAsc, &meta, &no_tags(4));
    assert_eq!(asc, vec![2, 0, 1, 3]);
    let desc = filter_and_sort(&items, "a", SortMode::ModifiedDesc, &meta, &no_tags(4));
    assert_eq!(desc, vec![1, 2, 0, 3]);
    let created = filter_and_sort(&items, "a", SortMode::CreatedAsc, &meta, &no_tags(4));
    assert_eq!(created, vec![2, 1, 0, 3]);
}

#[test]
fn alpha_modes_compare_leaf_names_ignoring_case() {
    let items = strings(&["/z/beta", "/y/Alpha", "/x/gamma"]);
    let asc = filter_and_sort(&items, "a", SortMode::AlphaAsc, &no_meta(3), &no_tags(3));
    assert_eq!(asc, vec![1, 0, 2]);
    let desc = filter_and_sort(&items, "a", SortMode::AlphaDesc, &no_meta(3), &no_tags(3));
    assert_eq!(desc, vec![2, 0, 1]);
}

#[test]
fn compare_names_lowercases_leaf_names() {
    assert_eq!(compare_names("/x/a", "/y/B"), Ordering::Less);
    assert_eq!(compare_names("/x/B", "/y/a"), Ordering::Greater);
    assert_eq!(compare_names("/x/a", "/y/a"), Ordering::Less);
    assert_eq!(compare_names("/x/a", "/x/a"), Ordering::Equal);
}

#[test]
fn compare_time_puts_absent_last_both_ways() {
    let meta = vec![modified(3), None];
    assert_eq!(compare_time(0, 1, &meta, TimeField::Modified, false), Ordering::Less);
    assert_eq!(compare_time(0, 1, &meta, TimeField::Modified, true), Ordering::Less);
    assert_eq!(compare_time(1, 1, &meta, TimeField::Created, true), Ordering::Equal);
    let items = strings(&["/b", "/a"]);
    assert_eq!(compare_indices(0, 1, &items, SortMode::ModifiedAsc, &meta), Ordering::Less);
}

#[test]
fn match_mode_ranks_by_score_then_index() {
    let items = strings(&["/p/xwidget", "/p/widget", "/q/w-i-d", "/r/none"]);
    let r = filter_and_sort_by_match(&items, "wid", &no_tags(4));
    assert_eq!(r, vec![1, 0, 2]);
    let all = filter_and_sort_by_match(&items, "", &no_tags(4));
    assert_eq!(all, vec![0, 1, 2, 3]);
}

#[test]
fn filter_indices_keeps_item_order() {
    let items = strings(&["/b/x", "/a/y", "/c/xx"]);
    assert_eq!(filter_indices(&items, "x", &no_tags(3)), vec![0, 2]);
    assert_eq!(filter_indices(&items, "", &no_tags(3)), vec![0, 1, 2]);
    let mut idx = vec![2, 0, 1];
    sort_indices(&mut idx, &items, SortMode::AlphaAsc, &no_meta(3));
    assert_eq!(idx, vec![0, 2, 1]);
    let mut with_repeats = vec![1, 2, 1, 0];
    sort_indices(&mut with_repeats, &items, SortMode::AlphaAsc, &no_meta(3));
    assert_eq!(with_repeats, vec![0, 2, 1, 1]);
}

#[test]
fn evaluation_is_idempotent() {
    let items = strings(&["/a/Projects", "/a/Projects/widget", "/a/Downloads", "/b/proj"]);
    let mut tags = no_tags(4);
    tags[2] = Some(strings(&["proj"]));
    let meta = vec![modified(4), None, modified(4), modified(1)];
    for mode in [SortMode::Match, SortMode::AlphaDesc, SortMode::ModifiedDesc, SortMode::CreatedAsc] {
        let a = filter_and_sort(&items, "proj", mode, &meta, &tags);
        let b = filter_and_sort(&items, "proj", mode, &meta, &tags);
        assert_eq!(a, b);
    }
}

#[test]
fn selection_follows_its_path() {
    let items = strings(&["/a", "/b", "/c"]);
    assert_eq!(resolve_selection(&items, &[0, 1, 2], 1, &[2, 1]), 1);
    assert_eq!(resolve_selection(&items, &[0, 1, 2], 2, &[2, 0, 1]), 0);
    // the path is gone: the row number is clamped
    assert_eq!(resolve_selection(&items, &[0, 1, 2], 2, &[0, 1]), 1);
    assert_eq!(resolve_selection(&items, &[0, 1, 2], 1, &[]), 0);
    assert_eq!(index_for_path(&items, &[2, 1], "/b"), Some(1));
    assert_eq!(index_for_path(&items, &[2, 1], "/a"), None);
    assert_eq!(current_selection_path(&items, &[2, 1], 0), Some("/c".to_string()));
    assert_eq!(current_selection_path(&items, &[2, 1], 2), None);
}

#[test]
fn selected_index_is_clamped() {
    assert_eq!(adjust_selected_index(5, 0), 0);
    assert_eq!(adjust_selected_index(5, 3), 2);
    assert_eq!(adjust_selected_index(1, 3), 1);
}

#[test]
fn window_keeps_selection_in_view() {
    assert_eq!(compute_list_window_offset(10, 0, 5, 20), 6);
    assert_eq!(compute_list_window_offset(2, 6, 5, 20), 2);
    assert_eq!(compute_list_window_offset(4, 3, 5, 20), 3);
    assert_eq!(compute_list_window_offset(19, 30, 5, 20), 15);
    assert_eq!(compute_list_window_offset(0, 3, 5, 0), 0);
    assert_eq!(compute_list_window_offset(0, 3, 0, 9), 0);
}

#[test]
fn visible_window_lists_rows_in_view() {
    let items = strings(&["/a", "/b", "/c", "/d"]);
    assert_eq!(visible_indices_for_window(&[3, 2, 1, 0], 1, 2), vec![2, 1]);
    assert_eq!(visible_paths_for_window(&items, &[3, 2, 1, 0], 2, 5), strings(&["/b", "/a"]));
    assert_eq!(visible_paths_for_window(&items, &[3, 2], 5, 2), Vec::<String>::new());
    assert_eq!(visible_paths_for_window(&items, &[3, 9], 0, 2), strings(&["/d"]));
}

#[test]
fn sort_modes_cycle() {
    let mut m = SortMode::Match;
    let mut labels = Vec::new();
    for _ in 0..7 {
        labels.push(m.label());
        m = m.next();
    }
    assert_eq!(m, SortMode::Match);
    assert_eq!(labels, vec!["Match", "A->Z", "Z->A", "Created ^", "Created v", "Modified ^", "Modified v"]);
    assert!(SortMode::CreatedDesc.uses_time());
    assert!(!SortMode::AlphaAsc.uses_time());
}
