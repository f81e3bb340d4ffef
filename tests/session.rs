use navgator::enrich::{MetaResult, TagResult};
use navgator::pipeline::SortMode;
use navgator::session::{Focus, Key, PreviewStep, Session};

fn strings(v: &[&str]) -> Vec<String> {
    v.iter().map(|s| s.to_string()).collect()
}

fn session() -> Session {
    Session::new(strings(&["/a/Projects", "/a/Projects/widget", "/a/Downloads"]))
}

#[test]
fn query_edits_refilter_from_the_top() {
    let mut s = session();
    assert_eq!(s.filtered, vec![0, 1, 2]);
    s.move_down();
    assert_eq!(s.selected, 1);
    s.set_query("down".to_string());
    assert_eq!(s.filtered, vec![2]);
    assert_eq!(s.selected, 0);
    s.move_down();
    assert_eq!(s.selected, 0);
}

#[test]
fn query_edit_keeps_the_selected_path() {
    let mut s = session();
    s.move_down();
    s.move_down();
    assert_eq!(s.selected_item(), Some(2));
    s.set_query("d".to_string());
    assert_eq!(s.filtered, vec![2, 1]);
    assert_eq!(s.selected_item(), Some(2));
    assert_eq!(s.list_offset, 0);
}

#[test]
fn tag_query_starts_one_sweep() {
    let mut s = session();
    s.set_query("#infra".to_string());
    assert_eq!(s.start_tag_scan_if_needed(), vec![0, 1, 2]);
    assert_eq!(s.start_tag_scan_if_needed(), Vec::<usize>::new());
    s.caches.apply_tag_result(TagResult { index: 1, tags: strings(&["infra"]) });
    let jobs = s.after_results(false, true);
    assert!(jobs.is_empty());
    assert_eq!(s.filtered, vec![1]);
}

#[test]
fn time_sort_fetches_dates_and_resorts_on_arrival() {
    let mut s = session();
    s.set_query("a".to_string());
    let (dates, tags) = s.cycle_sort();
    assert_eq!(s.sort_mode, SortMode::AlphaAsc);
    assert!(dates.is_empty());
    assert_eq!(tags, vec![0, 1, 2]);
    s.cycle_sort();
    let (dates, tags) = s.cycle_sort();
    assert!(tags.is_empty());
    assert_eq!(s.sort_mode, SortMode::CreatedAsc);
    assert_eq!(dates, vec![0, 1, 2]);
    assert_eq!(s.filtered, vec![2, 0, 1]);
    s.move_down();
    let selected_path = s.filtered[s.selected];
    assert_eq!(selected_path, 1);
    s.caches.apply_date_result(MetaResult {
        index: 1,
        display: None,
        modified_epoch: None,
        created_epoch: Some(9),
    });
    assert_eq!(s.filtered, vec![2, 0, 1]);
    s.after_results(true, false);
    assert_eq!(s.filtered, vec![1, 2, 0]);
    assert_eq!(s.filtered[s.selected], selected_path);
}

#[test]
fn preview_is_fetched_once_and_shown_from_cache() {
    let mut s = session();
    assert_eq!(s.preview_step(), PreviewStep::Fetch(0));
    assert_eq!(s.preview_step(), PreviewStep::Keep);
    s.move_down();
    assert_eq!(s.preview_step(), PreviewStep::Fetch(1));
    s.move_up();
    assert_eq!(s.preview_step(), PreviewStep::Wait(0));
    s.move_down();
    assert_eq!(s.preview_step(), PreviewStep::Wait(1));
    assert!(!s.apply_preview_result(0, false));
    s.move_up();
    assert_eq!(s.preview_step(), PreviewStep::Show(0));
    s.set_query("zzz".to_string());
    assert_eq!(s.preview_step(), PreviewStep::Clear);
}

#[test]
fn keys_move_focus_and_scroll() {
    let mut s = session();
    assert!(!s.navigate(Key::Right, false));
    assert!(s.navigate(Key::Right, true));
    assert_eq!(s.focus, Focus::Preview);
    s.preview_max_scroll = 3;
    s.navigate(Key::Down, false);
    s.navigate(Key::PageDown, false);
    assert_eq!(s.preview_scroll, 3);
    s.navigate(Key::Home, false);
    s.navigate(Key::Up, false);
    assert_eq!(s.focus, Focus::Search);
    s.focus = Focus::Git;
    s.settle_focus();
    assert_eq!(s.focus, Focus::Preview);
}

#[test]
fn tag_editing_commits_into_the_cache() {
    let mut s = session();
    s.move_down();
    assert!(s.begin_tag_edit(strings(&["old"])));
    assert_eq!(s.focus, Focus::TagEdit);
    assert!(!s.begin_tag_edit(Vec::new()));
    assert!(s.add_typed_tag(" new "));
    s.pop_tag();
    assert!(!s.add_typed_tag("   "));
    assert!(s.add_typed_tag("infra"));
    assert_eq!(s.tag_edit_tags, strings(&["old", "infra"]));
    s.tags_saved();
    assert_eq!(s.focus, Focus::Preview);
    assert_eq!(s.caches.tags[1], Some(strings(&["old", "infra"])));
    assert_eq!(s.selected_item(), Some(1));
}

#[test]
fn visible_window_follows_selection() {
    let mut s = session();
    s.move_down();
    s.move_down();
    assert_eq!(s.visible_window(2), vec![1, 2]);
    assert_eq!(s.list_offset, 1);
}
