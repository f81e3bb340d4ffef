use navgator::matcher::{find_case_insensitive, fuzzy_match, match_score};
use navgator::query::{
    best_tag_score, match_score_for_path, match_score_tokens, matches_path_token, matches_tokens,
    parse_query_tokens,
};
use navgator::text::entry_name;

fn strings(v: &[&str]) -> Vec<String> {
    v.iter().map(|s| s.to_string()).collect()
}

#[test]
fn fuzzy_match_finds_subsequence_ignoring_case_and_spaces() {
    assert!(fuzzy_match("wdg", "Widget"));
    assert!(fuzzy_match("W d G", "widget"));
    assert!(fuzzy_match("", "anything"));
    assert!(fuzzy_match("   ", ""));
    assert!(!fuzzy_match("gw", "widget"));
    assert!(!fuzzy_match("x", ""));
}

#[test]
fn no_subsequence_means_no_match_and_no_score() {
    for (q, t) in [("zz", "widget"), ("tw", "widget"), ("a b c d", "abc"), ("É", "é")] {
        assert!(!fuzzy_match(q, t));
        assert_eq!(match_score(q, t), None);
    }
}

#[test]
fn empty_query_scores_zero_with_text_length() {
    assert_eq!(match_score("", "abc"), Some((0, 0, 0, 0, 3)));
    assert_eq!(match_score("", ""), Some((0, 0, 0, 0, 0)));
    assert_eq!(match_score(" \t", "héllo"), Some((0, 0, 0, 0, 5)));
}

#[test]
fn contiguous_match_has_penalty_zero() {
    assert_eq!(match_score("wid", "widget"), Some((0, 2, 0, 0, 6)));
    assert_eq!(match_score("GET", "widget"), Some((0, 2, 0, 3, 6)));
}

#[test]
fn scattered_match_has_penalty_one_with_span_and_gaps() {
    // w at 0, d at 2, t at 5: span 5, gaps 1 + 2
    assert_eq!(match_score("wdt", "widget"), Some((1, 5, 3, 0, 6)));
    // a query with a space is searched contiguously as typed
    assert_eq!(match_score("wi d", "widget"), Some((1, 2, 0, 0, 6)));
}

#[test]
fn find_case_insensitive_returns_character_offset() {
    assert_eq!(find_case_insensitive("Hello World", "WORLD"), Some(6));
    assert_eq!(find_case_insensitive("héllo wörld", "WÖ"), None);
    assert_eq!(find_case_insensitive("héllo world", "WO"), Some(6));
    assert_eq!(find_case_insensitive("abc", ""), Some(0));
    assert_eq!(find_case_insensitive("ab", "abc"), None);
}

#[test]
fn entry_name_takes_the_last_component() {
    assert_eq!(entry_name("/a/Projects/widget"), "widget");
    assert_eq!(entry_name("/a/b/"), "b");
    assert_eq!(entry_name("/a/b/."), "b");
    assert_eq!(entry_name("plain"), "plain");
    assert_eq!(entry_name("/"), "/");
    assert_eq!(entry_name("a/.."), "a/..");
    assert_eq!(entry_name(""), "");
}

#[test]
fn leaf_match_beats_prefix_only_match() {
    let leaf = match_score_for_path("proj", "/x/Projects").unwrap();
    let prefix = match_score_for_path("proj", "/a/Projects/widget").unwrap();
    assert_eq!(leaf.0, 0);
    assert_eq!(prefix.0, 2);
    assert!(leaf < prefix);
    assert_eq!(match_score_for_path("zzz", "/a/b"), None);
}

#[test]
fn best_tag_score_takes_the_least() {
    let tags = strings(&["infrastructure", "infra", "demo"]);
    assert_eq!(best_tag_score("infra", &tags), Some((0, 4, 0, 0, 5)));
    assert_eq!(best_tag_score("xyz", &tags), None);
    assert_eq!(best_tag_score("x", &[]), None);
}

#[test]
fn query_tokens_are_classified_by_prefix() {
    let t = parse_query_tokens("  @proj #infra foo @ # bar ");
    assert_eq!(t.folder, strings(&["proj"]));
    assert_eq!(t.tags, strings(&["infra"]));
    assert_eq!(t.any, strings(&["foo", "bar"]));
    assert!(!t.is_empty());
    assert!(t.needs_tags());
    let only_path = parse_query_tokens("@a");
    assert!(!only_path.needs_tags());
    assert!(parse_query_tokens(" @ # ").is_empty());
}

#[test]
fn token_filter_checks_each_kind() {
    let tags = strings(&["infra", "demo"]);
    let t = parse_query_tokens("@wid #inf");
    assert!(matches_tokens("/a/Projects/widget", &tags, &t));
    assert!(!matches_tokens("/a/Downloads", &tags, &t));
    let generic = parse_query_tokens("demo");
    assert!(matches_tokens("/a/Downloads", &tags, &generic));
    assert!(!matches_tokens("/a/Downloads", &[], &generic));
    assert!(matches_path_token("proj", "/a/Projects/widget"));
}

#[test]
fn composite_score_sums_token_scores() {
    let tags = strings(&["infra"]);
    let t = parse_query_tokens("wid #infra");
    // path token "wid": (0,2,0,0,6); tag token "infra": (0,4,0,0,5)
    assert_eq!(match_score_tokens(&t, "/a/Projects/widget", &tags), Some((0, 6, 0, 0, 11)));
    assert_eq!(match_score_tokens(&t, "/a/Projects/widget", &[]), None);
    let empty = parse_query_tokens("");
    assert_eq!(match_score_tokens(&empty, "/a", &[]), Some((0, 0, 0, 0, 0)));
}
