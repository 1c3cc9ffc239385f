use codeowners::api::{
    check_path_exists, check_paths_exist, diff_from_owners, explain_owners, get_active_matching_rule, get_diff, get_owners,
    matches_filter, parse_file_list, select_owners, MatchingRule, OwnersDiff, OwnersError,
};
use codeowners::owners::build_pattern_index;
use codeowners::rules::Rules;

fn strings(v: &[&str]) -> Vec<String> {
    v.iter().map(|s| s.to_string()).collect()
}

fn rule(line: usize, pattern: &str, owners: &[&str], active: bool) -> (usize, String, Vec<String>, bool) {
    (line, pattern.to_string(), strings(owners), active)
}

fn view(r: &MatchingRule) -> (usize, String, Vec<String>, bool) {
    (r.line, r.pattern.clone(), r.owners.clone(), r.active)
}

fn owners_view(v: &[(String, Option<MatchingRule>)]) -> Vec<(String, Option<(usize, String, Vec<String>, bool)>)> {
    v.iter().map(|(p, r)| (p.clone(), r.as_ref().map(view))).collect()
}

type Pairs = Vec<(String, Vec<String>)>;
type Triples = Vec<(String, Vec<String>, Vec<String>)>;

fn diff_view(d: &OwnersDiff) -> (Pairs, Pairs, Triples) {
    (d.added.clone(), d.removed.clone(), d.changed.clone())
}

fn pair(f: &str, owners: &[&str]) -> (String, Vec<String>) {
    (f.to_string(), strings(owners))
}

// -- get_owners -----------------------------------------------------------

#[test]
fn get_owners_basic() {
    let src = "\
* @global
src/* @src-team";
    let paths = strings(&["README.md", "src/main.rs"]);
    let result = get_owners(&paths, true, &[true, true], src, &[]).unwrap();
    assert_eq!(
        owners_view(&result),
        vec![
            ("README.md".to_string(), Some(rule(1, "*", &["@global"], true))),
            ("src/main.rs".to_string(), Some(rule(2, "src/*", &["@src-team"], true))),
        ]
    );
}

#[test]
fn get_owners_filter_by_team() {
    let src = "\
* @global
src/* @src-team";
    let paths = strings(&["README.md", "src/main.rs"]);
    let filter = strings(&["@src-team"]);
    let result = get_owners(&paths, true, &[true, true], src, &filter).unwrap();
    assert_eq!(
        owners_view(&result),
        vec![("src/main.rs".to_string(), Some(rule(2, "src/*", &["@src-team"], true)))]
    );
}

#[test]
fn get_owners_filter_unowned() {
    let paths = strings(&["README.md", "src/main.rs"]);
    let filter = strings(&["unowned"]);
    let result = get_owners(&paths, true, &[true, true], "src/* @src-team", &filter).unwrap();
    assert_eq!(owners_view(&result), vec![("README.md".to_string(), None)]);
}

#[test]
fn get_owners_unowned_path() {
    let paths = strings(&["README.md"]);
    let result = get_owners(&paths, true, &[true], "src/* @src-team", &[]).unwrap();
    assert_eq!(owners_view(&result), vec![("README.md".to_string(), None)]);
}

#[test]
fn get_owners_rejects_missing_path() {
    let paths = strings(&["does/not/exist.rs"]);
    let err = get_owners(&paths, true, &[false], "* @global", &[]).unwrap_err();
    assert!(err.message().contains("paths do not exist"));
    match err {
        OwnersError::MissingPaths(missing) => assert_eq!(missing, strings(&["does/not/exist.rs"])),
        other => panic!("unexpected error {other:?}"),
    }
}

#[test]
fn get_owners_no_check_path_skips_validation() {
    let paths = strings(&["does/not/exist.rs"]);
    let result = get_owners(&paths, false, &[false], "* @global", &[]).unwrap();
    assert_eq!(result.len(), 1);
}

#[test]
fn get_owners_sorts_by_path_and_keeps_duplicates() {
    let paths = strings(&["src/b.rs", "README.md", "src/a.rs", "README.md"]);
    let result = get_owners(&paths, false, &[true; 4], "* @g\nsrc/* @s\n", &[]).unwrap();
    let order: Vec<String> = result.iter().map(|(p, _)| p.clone()).collect();
    assert_eq!(order, strings(&["README.md", "README.md", "src/a.rs", "src/b.rs"]));
}

#[test]
fn get_owners_filter_unowned_includes_rules_without_owners() {
    let paths = strings(&["docs/a.md", "src/a.rs"]);
    let filter = strings(&["unowned", "@nobody"]);
    let result = get_owners(&paths, false, &[true, true], "src/* @s\ndocs/*\n", &filter).unwrap();
    assert_eq!(owners_view(&result), vec![("docs/a.md".to_string(), Some(rule(2, "docs/*", &[], true)))]);
}

#[test]
fn get_owners_refuses_unindexed_pattern() {
    // The parser ends the pattern at '#', the index keeps the whole token.
    let paths = strings(&["foo"]);
    let err = get_owners(&paths, false, &[true], "foo#x @a\n", &[]).unwrap_err();
    match err {
        OwnersError::UnindexedPattern(p) => assert_eq!(p, "foo"),
        other => panic!("unexpected error {other:?}"),
    }
}

#[test]
fn active_rule_checked_against_index() {
    let src = "* @g\n*.rs @r\n";
    let rs = Rules::parse(src);
    let index = build_pattern_index(src);
    let r = get_active_matching_rule(&rs, &index, "a.rs").unwrap().unwrap();
    assert_eq!(view(&r), rule(2, "*.rs", &["@r"], true));
}

#[test]
fn filter_semantics() {
    let owned = Some(MatchingRule { line: 1, pattern: "*".into(), owners: strings(&["@a", "@b"]), active: true });
    let empty = Some(MatchingRule { line: 1, pattern: "*".into(), owners: vec![], active: true });
    assert!(matches_filter(&owned, &[]));
    assert!(matches_filter(&None, &[]));
    assert!(matches_filter(&owned, &strings(&["@b"])));
    assert!(!matches_filter(&owned, &strings(&["@c", "unowned"])));
    assert!(matches_filter(&None, &strings(&["unowned"])));
    assert!(matches_filter(&empty, &strings(&["unowned"])));
    assert!(!matches_filter(&empty, &strings(&["@a"])));
}

// -- explain_owners -------------------------------------------------------

#[test]
fn explain_owners_multiple_matching_rules() {
    let src = "\
* @global
src/* @src-team";
    let (owners, rules) = explain_owners("src/main.rs", true, true, src).unwrap();
    assert_eq!(owners, strings(&["@src-team"]));
    let rules: Vec<_> = rules.iter().map(view).collect();
    assert_eq!(rules, vec![rule(1, "*", &["@global"], false), rule(2, "src/*", &["@src-team"], true)]);
}

#[test]
fn explain_owners_no_matching_rules() {
    let (owners, rules) = explain_owners("README.md", true, true, "src/* @src-team").unwrap();
    assert!(owners.is_empty());
    assert!(rules.is_empty());
}

#[test]
fn explain_owners_duplicate_pattern() {
    let src = "\
*.rs @team-a
*.rs @team-b";
    let (owners, rules) = explain_owners("lib.rs", true, true, src).unwrap();
    assert_eq!(owners, strings(&["@team-b"]));
    let rules: Vec<_> = rules.iter().map(view).collect();
    assert_eq!(rules, vec![rule(1, "*.rs", &["@team-a"], false), rule(2, "*.rs", &["@team-b"], true)]);
}

#[test]
fn explain_owners_rejects_missing_path() {
    match explain_owners("nope.rs", true, false, "* @g") {
        Err(OwnersError::MissingPath(p)) => assert_eq!(p, "nope.rs"),
        other => panic!("unexpected result {other:?}"),
    }
    assert!(explain_owners("nope.rs", false, false, "* @g").is_ok());
}

// -- get_diff -------------------------------------------------------------

#[test]
fn get_diff_no_changes() {
    let files = strings(&[".github/CODEOWNERS", "README.md"]);
    let diff = get_diff("* @global", "* @global", &files, &files);
    assert_eq!(diff_view(&diff), (vec![], vec![], vec![]));
}

#[test]
fn get_diff_ownership_change() {
    let files = strings(&[".github/CODEOWNERS", "README.md", "src/main.rs"]);
    let base = "\
* @global
src/* @team-a";
    let head = "\
* @global
src/* @team-b";
    let diff = get_diff(base, head, &files, &files);
    assert_eq!(
        diff_view(&diff),
        (vec![], vec![], vec![("src/main.rs".to_string(), strings(&["@team-a"]), strings(&["@team-b"]))])
    );
}

#[test]
fn get_diff_added_file() {
    let base_files = strings(&[".github/CODEOWNERS", "README.md"]);
    let head_files = strings(&[".github/CODEOWNERS", "README.md", "new_file.rs"]);
    let diff = get_diff("* @global", "* @global", &base_files, &head_files);
    assert_eq!(diff_view(&diff), (vec![pair("new_file.rs", &["@global"])], vec![], vec![]));
}

#[test]
fn get_diff_removed_file() {
    let base_files = strings(&[".github/CODEOWNERS", "README.md", "to_delete.rs"]);
    let head_files = strings(&[".github/CODEOWNERS", "README.md"]);
    let diff = get_diff("* @global", "* @global", &base_files, &head_files);
    assert_eq!(diff_view(&diff), (vec![], vec![pair("to_delete.rs", &["@global"])], vec![]));
}

#[test]
fn get_diff_feature_branch_against_master() {
    let base_files = strings(&[".github/CODEOWNERS", "README.md", "src/lib.rs", "src/main.rs"]);
    let head_files = strings(&[".github/CODEOWNERS", "README.md", "src/main.rs", "src/new.rs"]);
    let base = "\
* @global
src/* @team-a";
    let head = "\
* @global
src/* @team-b";
    let diff = get_diff(base, head, &base_files, &head_files);
    assert_eq!(
        diff_view(&diff),
        (
            vec![pair("src/new.rs", &["@team-b"])],
            vec![pair("src/lib.rs", &["@team-a"])],
            vec![("src/main.rs".to_string(), strings(&["@team-a"]), strings(&["@team-b"]))],
        )
    );
}

#[test]
fn diff_no_changes() {
    let files = strings(&[".github/CODEOWNERS", "README.md"]);
    let diff = get_diff("* @global", "* @global", &files, &files);
    assert!(diff.added.is_empty() && diff.removed.is_empty() && diff.changed.is_empty());
}

#[test]
fn diff_ownership_change() {
    let files = strings(&[".github/CODEOWNERS", "README.md", "src/main.rs"]);
    let diff = get_diff("* @global\nsrc/* @team-a", "* @global\nsrc/* @team-b", &files, &files);
    assert_eq!(diff.changed, vec![("src/main.rs".to_string(), strings(&["@team-a"]), strings(&["@team-b"]))]);
    assert!(diff.added.is_empty() && diff.removed.is_empty());
}

#[test]
fn diff_added_file() {
    let base_files = strings(&[".github/CODEOWNERS", "README.md"]);
    let head_files = strings(&["new_file.rs", ".github/CODEOWNERS", "README.md"]);
    let diff = get_diff("* @global", "* @global", &base_files, &head_files);
    assert_eq!(diff.added, vec![pair("new_file.rs", &["@global"])]);
    assert!(diff.removed.is_empty() && diff.changed.is_empty());
}

#[test]
fn diff_removed_file() {
    let base_files = strings(&["to_delete.rs", ".github/CODEOWNERS", "README.md"]);
    let head_files = strings(&[".github/CODEOWNERS", "README.md"]);
    let diff = get_diff("* @global", "* @global", &base_files, &head_files);
    assert_eq!(diff.removed, vec![pair("to_delete.rs", &["@global"])]);
    assert!(diff.added.is_empty() && diff.changed.is_empty());
}

#[test]
fn diff_sorted_and_deduplicated() {
    let base_files = strings(&[]);
    let head_files = strings(&["b", "a", "b", "c/d"]);
    let diff = get_diff("", "* @x", &base_files, &head_files);
    assert_eq!(diff.added, vec![pair("a", &["@x"]), pair("b", &["@x"]), pair("c/d", &["@x"])]);
}

#[test]
fn diff_swapped_versions() {
    let base_files = strings(&["a", "b"]);
    let head_files = strings(&["b", "c"]);
    let forward = get_diff("* @x", "b @y", &base_files, &head_files);
    let backward = get_diff("b @y", "* @x", &head_files, &base_files);
    assert_eq!(forward.added, backward.removed);
    assert_eq!(forward.removed, backward.added);
    assert_eq!(forward.changed, vec![("b".to_string(), strings(&["@x"]), strings(&["@y"]))]);
    assert_eq!(backward.changed, vec![("b".to_string(), strings(&["@y"]), strings(&["@x"]))]);
}

#[test]
fn file_list_skips_empty_lines() {
    assert_eq!(parse_file_list("a.rs\n\nsrc/b c.rs\r\n"), strings(&["a.rs", "src/b c.rs"]));
    assert!(parse_file_list("").is_empty());
}

#[test]
fn select_owners_filters_and_sorts() {
    let paths = strings(&["z.rs", "a.md", "m.rs", "z.rs"]);
    let r = |line, owners: &[&str]| Some(MatchingRule { line, pattern: "p".into(), owners: strings(owners), active: true });
    let rules = vec![r(3, &["@z"]), None, r(2, &[]), r(3, &["@z"])];
    let all = select_owners(&paths, &rules, &[]);
    let order: Vec<String> = all.iter().map(|(p, _)| p.clone()).collect();
    assert_eq!(order, strings(&["a.md", "m.rs", "z.rs", "z.rs"]));
    assert!(all[0].1.is_none());
    assert_eq!(all[1].1.as_ref().unwrap().line, 2);
    let unowned = select_owners(&paths, &rules, &strings(&["unowned"]));
    assert_eq!(owners_view(&unowned), vec![("a.md".to_string(), None), ("m.rs".to_string(), Some(rule(2, "p", &[], true)))]);
    let z = select_owners(&paths, &rules, &strings(&["@z"]));
    assert_eq!(z.len(), 2);
    assert!(z.iter().all(|(p, r)| p == "z.rs" && r.as_ref().unwrap().owners == strings(&["@z"])));
}

#[test]
fn diff_from_owner_tables() {
    let base_files = strings(&["b", "a", "c"]);
    let base_owners = vec![strings(&["@x"]), strings(&["@a"]), strings(&[])];
    let head_files = strings(&["c", "d", "b"]);
    let head_owners = vec![strings(&["@c"]), strings(&["@d"]), strings(&["@x"])];
    let diff = diff_from_owners(&base_files, &base_owners, &head_files, &head_owners);
    assert_eq!(diff.added, vec![pair("d", &["@d"])]);
    assert_eq!(diff.removed, vec![pair("a", &["@a"])]);
    assert_eq!(diff.changed, vec![("c".to_string(), strings(&[]), strings(&["@c"]))]);
}

#[test]
fn existence_checks() {
    let paths = strings(&["a", "b", "c"]);
    match check_paths_exist(&paths, true, &[true, false, false]) {
        Err(OwnersError::MissingPaths(m)) => assert_eq!(m, strings(&["b", "c"])),
        other => panic!("unexpected result {other:?}"),
    }
    assert!(check_paths_exist(&paths, false, &[false, false, false]).is_ok());
    assert!(check_paths_exist(&paths, true, &[true, true, true]).is_ok());
    assert!(matches!(check_path_exists("x", true, false), Err(OwnersError::MissingPath(_))));
    assert!(check_path_exists("x", false, false).is_ok());
}
