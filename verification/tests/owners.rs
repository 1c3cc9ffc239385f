use codeowners::owners::{
    build_filter_ruleset, build_pattern_index, changed_codeowners_lines, explain_path,
    explain_patterns, resolve_matched_rule, resolve_owners, rule_for_pattern,
};
use codeowners::rules::Rules;

fn ruleset(src: &str) -> Rules {
    Rules::parse(src)
}

fn assert_index_entries(src: &str, pattern: &str, expected: &[(usize, &[&str])]) {
    let index = build_pattern_index(src);
    let entries = index
        .get(pattern)
        .unwrap_or_else(|| panic!("pattern {pattern:?} not found in index"));
    let expected: Vec<(usize, Vec<String>)> = expected
        .iter()
        .map(|(line, owners)| (*line, owners.iter().map(|s| s.to_string()).collect()))
        .collect();
    assert_eq!(entries, expected);
}

// -- build_pattern_index --------------------------------------------------

#[test]
fn index_basic() {
    assert_index_entries(
        "\
* @global
src/* @src-team",
        "src/*",
        &[(2, &["@src-team"])],
    );
}

#[test]
fn index_comments_and_blanks() {
    assert_index_entries(
        "\
# comment

* @global",
        "*",
        &[(3, &["@global"])],
    );
}

#[test]
fn index_duplicate_patterns() {
    assert_index_entries(
        "\
*.rs @team-a
*.rs @team-b",
        "*.rs",
        &[(1, &["@team-a"]), (2, &["@team-b"])],
    );
}

#[test]
fn index_no_owners() {
    assert_index_entries("*.log", "*.log", &[(1, &[])]);
}

#[test]
fn index_absent_pattern_is_none() {
    let index = build_pattern_index("* @global\n# src/* @x\n");
    assert!(index.get("src/*").is_none());
    assert!(index.get("#").is_none());
}

#[test]
fn index_crlf_and_whitespace() {
    assert_index_entries("  a/b\t@x  @y \r\n\r\n\u{a0}c @z", "a/b", &[(1, &["@x", "@y"])]);
    assert_index_entries("  a/b\t@x  @y \r\n\r\n\u{a0}c @z", "c", &[(3, &["@z"])]);
}

// -- resolve_matched_rule -------------------------------------------------

#[test]
fn resolve_matches() {
    let src = "\
* @global
src/* @src-team";
    let rs = ruleset(src);
    let index = build_pattern_index(src);
    let rule = resolve_matched_rule(&rs, &index, "src/main.rs").expect("expected match");
    assert_eq!(rule.pattern, "src/*");
    assert_eq!(rule.line, 2);
    assert_eq!(rule.owners, vec!["@src-team"]);
    assert!(rule.active);
}

#[test]
fn resolve_no_match() {
    let src = "src/* @src-team";
    let rs = ruleset(src);
    let index = build_pattern_index(src);
    assert!(resolve_matched_rule(&rs, &index, "README.md").is_none());
}

#[test]
fn resolve_duplicate_last_wins() {
    let src = "\
*.rs @team-a
*.rs @team-b";
    let rs = ruleset(src);
    let index = build_pattern_index(src);
    let rule = resolve_matched_rule(&rs, &index, "lib.rs").expect("expected match");
    assert_eq!(rule.pattern, "*.rs");
    assert_eq!(rule.line, 2);
    assert_eq!(rule.owners, vec!["@team-b"]);
}

#[test]
fn rule_for_pattern_takes_last_occurrence() {
    let index = build_pattern_index("*.rs @a\ndocs/ @d\n*.rs @b @c\n");
    let rule = rule_for_pattern(&index, &"*.rs".to_string());
    assert_eq!(rule.line, 3);
    assert_eq!(rule.pattern, "*.rs");
    assert_eq!(rule.owners, vec!["@b", "@c"]);
    assert!(rule.active);
}

#[test]
fn resolve_owners_of_paths() {
    let rs = ruleset("* @global\nsrc/* @src-team @other\ndocs/* \n");
    assert_eq!(resolve_owners(&rs, "src/main.rs"), vec!["@src-team", "@other"]);
    assert_eq!(resolve_owners(&rs, "README.md"), vec!["@global"]);
    assert!(resolve_owners(&rs, "docs/a.md").is_empty());
    assert!(resolve_owners(&ruleset("src/* @x"), "README.md").is_empty());
}

// -- explain_path ---------------------------------------------------------

fn assert_explain(src: &str, path: &str, expected: &[(usize, &str, bool)]) {
    let rs = ruleset(src);
    let index = build_pattern_index(src);
    let rules = explain_path(&rs, &index, path);
    assert_eq!(rules.len(), expected.len(), "wrong number of rules");
    for (rule, (line, pattern, active)) in rules.iter().zip(expected.iter()) {
        assert_eq!(rule.line, *line);
        assert_eq!(rule.pattern, *pattern);
        assert_eq!(rule.active, *active);
    }
}

#[test]
fn explain_single_rule() {
    assert_explain("* @global", "any/file.rs", &[(1, "*", true)]);
}

#[test]
fn explain_multiple_rules() {
    assert_explain(
        "\
* @global
src/* @src-team",
        "src/main.rs",
        &[(1, "*", false), (2, "src/*", true)],
    );
}

#[test]
fn explain_duplicate_pattern() {
    assert_explain(
        "\
*.rs @team-a
*.rs @team-b",
        "lib.rs",
        &[(1, "*.rs", false), (2, "*.rs", true)],
    );
}

#[test]
fn explain_no_match() {
    assert_explain("src/* @src-team", "README.md", &[]);
}

#[test]
fn explain_patterns_in_line_order() {
    let index = build_pattern_index("b @1\na @2\nc @3\na @4\n");
    let rules = explain_patterns(&index, &vec!["a".to_string(), "b".to_string()]);
    let lines: Vec<usize> = rules.iter().map(|r| r.line).collect();
    assert_eq!(lines, vec![1, 2, 4]);
    let active: Vec<bool> = rules.iter().map(|r| r.active).collect();
    assert_eq!(active, vec![false, false, true]);
    assert_eq!(rules[2].owners, vec!["@4"]);
    assert!(explain_patterns(&index, &vec!["z".to_string()]).is_empty());
}

// -- changed_codeowners_lines ---------------------------------------------

fn assert_changed_lines(base: &str, head: &str, expected: &[&str]) {
    let mut result = changed_codeowners_lines(base, head);
    result.sort();
    let mut expected: Vec<String> = expected.iter().map(|s| s.to_string()).collect();
    expected.sort();
    assert_eq!(result, expected);
}

#[test]
fn changed_identical() {
    assert_changed_lines("* @global", "* @global", &[]);
}

#[test]
fn changed_added_line() {
    assert_changed_lines(
        "* @global",
        "\
* @global
src/* @src-team",
        &["src/* @src-team"],
    );
}

#[test]
fn changed_removed_line() {
    assert_changed_lines(
        "\
* @global
src/* @src-team",
        "* @global",
        &["src/* @src-team"],
    );
}

#[test]
fn changed_comments_ignored() {
    assert_changed_lines(
        "* @global",
        "\
# new comment
* @global",
        &[],
    );
}

#[test]
fn changed_blanks_ignored() {
    assert_changed_lines(
        "* @global",
        "
* @global
",
        &[],
    );
}

#[test]
fn changed_counts_duplicates_and_trims() {
    assert_changed_lines("a @x\na @x\n", "  a @x\t\n", &["a @x"]);
    assert_changed_lines("a @x\nb @y\na @x", "a @x\n\nb @y\n a @x", &[]);
}

#[test]
fn changed_moved_rule() {
    assert_changed_lines(
        "* @global\nsrc/* @src-team",
        "src/* @src-team\n* @global",
        &["src/* @src-team"],
    );
    assert_changed_lines("x @a\ny @b", "y @b\nx @a", &["y @b"]);
    assert_changed_lines("y @b\nx @a", "x @a\ny @b", &["x @a"]);
    assert_changed_lines("a @1\nb @2\nc @3\nd @4", "a @1\nc @3\nb @2\nd @4", &["c @3"]);
}

#[test]
fn changed_replaced_rule() {
    let base = "* @g\nsrc/* @a\n";
    let head = "* @g\nsrc/* @b\n";
    let mut forward = changed_codeowners_lines(base, head);
    let mut backward = changed_codeowners_lines(head, base);
    forward.sort();
    backward.sort();
    assert_eq!(forward, backward);
    assert_eq!(forward, vec!["src/* @a", "src/* @b"]);
}

// -- build_filter_ruleset -------------------------------------------------

#[test]
fn filter_ruleset_matches_changed_patterns() {
    let rs = build_filter_ruleset(&["src/* @a".to_string(), "docs/ @b".to_string()]);
    assert_eq!(resolve_owners(&rs, "src/main.rs"), vec!["@__filter__"]);
    assert_eq!(resolve_owners(&rs, "docs/guide.md"), vec!["@__filter__"]);
    assert!(resolve_owners(&rs, "README.md").is_empty());
}

#[test]
fn changed_lines_ignore_padding() {
    let mut plain = changed_codeowners_lines("* @g\nsrc/* @a", "* @g\nsrc/* @b");
    let mut padded = changed_codeowners_lines(
        "# top\n\n  * @g  \n   \nsrc/* @a\n",
        "\t* @g\n# note\nsrc/* @b   \n\n",
    );
    plain.sort();
    padded.sort();
    assert_eq!(plain, padded);
}

#[test]
fn explain_contains_resolved_rule() {
    let src = "* @g\nsrc/* @s\n*.rs @r\nsrc/* @t\n";
    let rs = ruleset(src);
    let index = build_pattern_index(src);
    let resolved = resolve_matched_rule(&rs, &index, "src/main.rs").expect("expected match");
    let rows = explain_path(&rs, &index, "src/main.rs");
    let active = rows.last().expect("rows");
    assert!(active.active);
    assert_eq!((active.line, active.pattern.as_str(), &active.owners), (resolved.line, resolved.pattern.as_str(), &resolved.owners));
    assert!(rows.iter().any(|r| r.line == resolved.line && r.pattern == resolved.pattern));
}
