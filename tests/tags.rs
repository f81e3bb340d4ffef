use navgator::tagstore::{
    collect_tag_suggestions, commit_tag_input, extract_quoted_strings, format_tags,
    parse_tags_from_toml, pick_suggestion, write_tags_into_toml,
};

fn strings(v: &[&str]) -> Vec<String> {
    v.iter().map(|s| s.to_string()).collect()
}

#[test]
fn parses_single_line_tags() {
    let text = "name = \"x\"\ntags = [\"infra\", \"demo\"] # mine\nother = 1\n";
    assert_eq!(parse_tags_from_toml(text), strings(&["infra", "demo"]));
}

#[test]
fn parses_multi_line_tags_with_comments() {
    let text = "# header\ntags = [\n  \"a\", # first\n  \"b\",\n]\ntail = [\"no\"]\n";
    assert_eq!(parse_tags_from_toml(text), strings(&["a", "b"]));
}

#[test]
fn missing_or_malformed_tags_give_nothing() {
    assert_eq!(parse_tags_from_toml(""), Vec::<String>::new());
    assert_eq!(parse_tags_from_toml("name = \"x\"\n"), Vec::<String>::new());
    assert_eq!(parse_tags_from_toml("labels = [\"x\"]\n"), Vec::<String>::new());
    assert_eq!(parse_tags_from_toml("tags = []\n"), Vec::<String>::new());
}

#[test]
fn only_the_bracketed_region_counts() {
    assert_eq!(parse_tags_from_toml("tags = \"x\"\n"), Vec::<String>::new());
    assert_eq!(parse_tags_from_toml("tags = \"x\"\ntags = [\"y\"]\n"), Vec::<String>::new());
    assert_eq!(parse_tags_from_toml("tags = \"a\" [\"b\"]\n"), strings(&["b"]));
    assert_eq!(parse_tags_from_toml("tags = [\"a\"] \"b\"\n"), strings(&["a"]));
    assert_eq!(parse_tags_from_toml("tags = [\"a\",\n\"b\"\n"), Vec::<String>::new());
    assert_eq!(parse_tags_from_toml("x = 1\ntags = [\n\"a\", \"b\"] \"c\"\n"), strings(&["a", "b"]));
    assert_eq!(parse_tags_from_toml("tags = [\"a]b\", \"]\"] \"c\"\n"), strings(&["a]b", "]"]));
    assert_eq!(parse_tags_from_toml("tags = [\n\"x]\",\n\"y\"]\n"), strings(&["x]", "y"]));
}

#[test]
fn quoted_strings_skip_empty_and_stop_at_quote() {
    assert_eq!(extract_quoted_strings("[\"a\", \"\", \"b\"]"), strings(&["a", "b"]));
    assert_eq!(extract_quoted_strings("[\"a\\\"b\"]"), strings(&["a\\", "]"]));
    assert_eq!(extract_quoted_strings("\"open"), strings(&["open"]));
}

#[test]
fn formats_tags_with_escaped_quotes() {
    assert_eq!(format_tags(&strings(&["a", "b c"])), "\"a\", \"b c\"");
    assert_eq!(format_tags(&strings(&["say \"hi\""])), "\"say \\\"hi\\\"\"");
    assert_eq!(format_tags(&[]), "");
}

#[test]
fn writes_into_empty_file() {
    assert_eq!(write_tags_into_toml("", &strings(&["a", "b"])), "tags = [\"a\", \"b\"]\n");
    assert_eq!(write_tags_into_toml("  \n", &[]), "tags = []\n");
}

#[test]
fn appends_when_no_tags_line() {
    let out = write_tags_into_toml("name = \"x\"\n\n", &strings(&["a"]));
    assert_eq!(out, "name = \"x\"\ntags = [\"a\"]\n");
}

#[test]
fn replaces_existing_multi_line_assignment() {
    let text = "a = 1\ntags = [\n \"x\",\n]\nb = 2";
    let out = write_tags_into_toml(text, &strings(&["y"]));
    assert_eq!(out, "a = 1\ntags = [\"y\"]\nb = 2\n");
}

#[test]
fn tags_round_trip_through_the_file() {
    for text in ["", "name = \"x\"\n", "a = 1\ntags = [\n \"x\",\n]\nb = 2", "tags = \"odd\"\nz = 1\n"] {
        for tags in [strings(&[]), strings(&["infra"]), strings(&["a b", "c=d", "e[f"]), strings(&["]"]), strings(&["a]b", "[x]"])] {
            let written = write_tags_into_toml(text, &tags);
            assert_eq!(parse_tags_from_toml(&written), tags);
            let again = write_tags_into_toml(&written, &parse_tags_from_toml(&written));
            assert_eq!(parse_tags_from_toml(&again), tags);
        }
    }
}

#[test]
fn suggestions_are_sorted_and_unique() {
    let cache = vec![Some(strings(&["b", "a", "org/x"])), None, Some(strings(&["a", "c", "B"]))];
    assert_eq!(collect_tag_suggestions(&cache), strings(&["B", "a", "b", "c", "org/x"]));
    assert_eq!(collect_tag_suggestions(&[]), Vec::<String>::new());
}

#[test]
fn pick_suggestion_finds_first_prefix() {
    let lowered = strings(&["demo", "infra", "infrastructure"]);
    assert_eq!(pick_suggestion(&lowered, "inf"), Some(1));
    assert_eq!(pick_suggestion(&lowered, "x"), None);
    assert_eq!(pick_suggestion(&lowered, ""), Some(0));
}

#[test]
fn commit_completes_from_suggestions() {
    let suggestions = strings(&["Infra", "demo"]);
    let mut tags = Vec::new();
    commit_tag_input("  inf ", &mut tags, &suggestions);
    assert_eq!(tags, strings(&["Infra"]));
    commit_tag_input("INFRA", &mut tags, &suggestions);
    assert_eq!(tags, strings(&["Infra"]));
    commit_tag_input("zzz", &mut tags, &suggestions);
    assert_eq!(tags, strings(&["Infra", "zzz"]));
    commit_tag_input("   ", &mut tags, &suggestions);
    assert_eq!(tags, strings(&["Infra", "zzz"]));
}
