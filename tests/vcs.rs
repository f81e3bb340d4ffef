use navgator::vcs::{git_text_lines, inside_work_tree, GitLine};

#[test]
fn no_text_outside_a_work_tree() {
    assert_eq!(git_text_lines(None, None, Some("x"), None, None, None, 5), None);
    assert_eq!(git_text_lines(Some("false\n"), None, Some("x"), None, None, None, 5), None);
    assert_eq!(git_text_lines(Some("true"), Some("## main"), None, None, None, None, 5), None);
    assert_eq!(git_text_lines(Some(" true "), None, Some("  "), None, Some(""), None, 5), None);
}

#[test]
fn sections_follow_the_branch_line() {
    let lines = git_text_lines(
        Some("true"),
        Some("## ## main...origin/main\n M a"),
        Some("fix (2 days ago)\nadd (3 days ago)"),
        Some(""),
        Some(" a | 2 +-\n 1 file changed"),
        None,
        1,
    )
    .unwrap();
    assert_eq!(
        lines,
        vec![
            GitLine::Heading("Branch: main...origin/main".to_string()),
            GitLine::Blank,
            GitLine::Heading("Recent commits".to_string()),
            GitLine::Plain("fix (2 days ago)".to_string()),
            GitLine::Blank,
            GitLine::Heading("Unstaged changes".to_string()),
            GitLine::Plain(" a | 2 +-".to_string()),
        ]
    );
}

#[test]
fn first_section_has_no_blank_line() {
    let lines = git_text_lines(Some("true"), Some("## "), Some("one"), None, None, Some("new.txt"), 9).unwrap();
    assert_eq!(
        lines,
        vec![
            GitLine::Heading("Recent commits".to_string()),
            GitLine::Plain("one".to_string()),
            GitLine::Blank,
            GitLine::Heading("Untracked".to_string()),
            GitLine::Plain("new.txt".to_string()),
        ]
    );
}

#[test]
fn work_tree_answer_is_read_trimmed() {
    assert!(inside_work_tree("true\n"));
    assert!(!inside_work_tree("false"));
    assert!(!inside_work_tree("truex"));
}
