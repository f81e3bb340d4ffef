use navgator::config::{dedup_paths, erd_args, erd_default_args, normalize_path, parse_erd_config};
use navgator::metadata::{
    fetch_metadata, format_date_display, parse_epoch, substring_by_char, truncate_with_ellipsis,
};

fn strings(v: &[&str]) -> Vec<String> {
    v.iter().map(|s| s.to_string()).collect()
}

#[test]
fn epochs_must_be_positive_numbers() {
    assert_eq!(parse_epoch("123"), Some(123));
    assert_eq!(parse_epoch(" 42\n"), Some(42));
    assert_eq!(parse_epoch("+7"), Some(7));
    assert_eq!(parse_epoch("0"), None);
    assert_eq!(parse_epoch("-5"), None);
    assert_eq!(parse_epoch("12a"), None);
    assert_eq!(parse_epoch(""), None);
    assert_eq!(parse_epoch("9223372036854775807"), Some(i64::MAX));
    assert_eq!(parse_epoch("9223372036854775808"), None);
}

#[test]
fn stat_output_gives_times_and_date() {
    let m = fetch_metadata(3, Some("100 200 2024-01-02 10:11"));
    assert_eq!(m.index, 3);
    assert_eq!(m.modified_epoch, Some(100));
    assert_eq!(m.created_epoch, Some(200));
    assert_eq!(m.display.as_deref(), Some("2024-01-02 10:11"));
    let m = fetch_metadata(0, Some("0 -1 2024-01-02"));
    assert_eq!(m.modified_epoch, None);
    assert_eq!(m.created_epoch, None);
    assert_eq!(m.display.as_deref(), Some("2024-01-02"));
    let m = fetch_metadata(0, Some("1 2"));
    assert_eq!((m.display, m.modified_epoch, m.created_epoch), (None, None, None));
    assert!(fetch_metadata(0, None).display.is_none());
}

#[test]
fn dates_fill_the_column() {
    assert_eq!(format_date_display("abc"), format!("{}abc", " ".repeat(13)));
    assert_eq!(format_date_display("2024-01-02 10:11:12"), "2024-01-02 10:11");
    assert_eq!(format_date_display("---- -- -- --:--"), "---- -- -- --:--");
}

#[test]
fn truncation_adds_dots_when_room() {
    assert_eq!(truncate_with_ellipsis("abcdefgh", 5), "ab...");
    assert_eq!(truncate_with_ellipsis("abcdefgh", 2), "ab");
    assert_eq!(truncate_with_ellipsis("abc", 3), "abc");
    assert_eq!(truncate_with_ellipsis("abc", 0), "");
}

#[test]
fn substrings_count_characters() {
    assert_eq!(substring_by_char("héllo", 1, 3), "éll");
    assert_eq!(substring_by_char("héllo", 3, 10), "lo");
    assert_eq!(substring_by_char("héllo", 9, 2), "");
    assert_eq!(substring_by_char("héllo", 0, 0), "");
}

#[test]
fn renderer_settings_ignore_comments() {
    assert_eq!(parse_erd_config("# c\n--a --b # x\n\n  --c\n"), strings(&["--a", "--b", "--c"]));
    let (args, default) = erd_args(Some("--level=2\n"));
    assert_eq!((args, default), (strings(&["--level=2"]), false));
    let (args, default) = erd_args(Some("# only a comment\n"));
    assert_eq!((args, default), (erd_default_args(), true));
    assert_eq!(erd_args(None).0.len(), 9);
    assert_eq!(erd_default_args()[0], "--dir-order=first");
}

#[test]
fn paths_are_deduplicated_in_order() {
    let paths = strings(&["/a", "/b", "/a", "/c", "/b"]);
    assert_eq!(dedup_paths(paths), strings(&["/a", "/b", "/c"]));
}

#[test]
fn configured_paths_are_expanded() {
    assert_eq!(normalize_path("  ~/code ", "/etc/nav", "/home/u"), Some("/home/u/code".to_string()));
    assert_eq!(normalize_path("$HOME/a/$HOME", "/x", "/h"), Some("/h/a//h".to_string()));
    assert_eq!(normalize_path("rel/dir", "/etc/nav", "/h"), Some("/etc/nav/rel/dir".to_string()));
    assert_eq!(normalize_path("rel", "/etc/", "/h"), Some("/etc/rel".to_string()));
    assert_eq!(normalize_path("rel", "", "/h"), Some("rel".to_string()));
    assert_eq!(normalize_path("/abs", "/etc", "/h"), Some("/abs".to_string()));
    assert_eq!(normalize_path("~x", "/b", "/h"), Some("/b/~x".to_string()));
    assert_eq!(normalize_path("   ", "/b", "/h"), None);
}
