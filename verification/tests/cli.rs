use codeowners::api::{explain_owners, get_diff, get_owners, GitRef, OwnersError};
use codeowners::cli::{
    build_markdown_table, build_markdown_table_3col, check_unowned, decimal, diff_report,
    explain_report, format_owners, git_ref_label, join, owners_report, resolve_paths, to_git_ref,
};

fn strings(v: &[&str]) -> Vec<String> {
    v.iter().map(|s| s.to_string()).collect()
}

#[test]
fn cli_owners() {
    let src = "\
* @global
src/* @src-team";
    let paths = strings(&["README.md", "src/main.rs"]);
    let owners = get_owners(&paths, true, &[true, true], src, &[]).unwrap();
    let out = owners_report(&owners);
    assert_eq!(
        out,
        "\
| path          | owners    |
|---------------|-----------|
| `README.md`   | @global   |
| `src/main.rs` | @src-team |
"
    );
    assert!(check_unowned(&owners).is_ok());
}

#[test]
fn cli_explain() {
    let src = "\
* @global
src/* @src-team";
    let (owners, rules) = explain_owners("src/main.rs", true, true, src).unwrap();
    let out = explain_report(&owners, &rules);
    assert_eq!(
        out,
        "\
Owners: @src-team

|   | line | pattern | owners    |
|---|------|---------|-----------|
|   | 1    | *       | @global   |
| \u{2192} | 2    | src/*   | @src-team |
"
    );
}

#[test]
fn cli_explain_no_rules() {
    let (owners, rules) = explain_owners("README.md", false, false, "src/* @x").unwrap();
    assert_eq!(explain_report(&owners, &rules), "Owners: (unowned)\n\nNo matching rules.\n");
}

#[test]
fn cli_diff_ownership_change() {
    let files = strings(&[".github/CODEOWNERS", "README.md", "src/main.rs"]);
    let diff = get_diff("* @global\nsrc/* @team-a", "* @global\nsrc/* @team-b", &files, &files);
    let base = to_git_ref("HEAD");
    let head = to_git_ref("");
    let out = diff_report(&diff, git_ref_label(&base), git_ref_label(&head));
    assert_eq!(
        out,
        "\
## Changed ownership (1 files)

| file          | HEAD    | working tree |
|---------------|---------|--------------|
| `src/main.rs` | @team-a | @team-b      |
"
    );
}

#[test]
fn cli_diff_no_changes() {
    let files = strings(&[".github/CODEOWNERS", "README.md"]);
    let diff = get_diff("* @global", "* @global", &files, &files);
    assert_eq!(diff_report(&diff, "HEAD", "working tree"), "No ownership changes.\n");
}

#[test]
fn cli_diff_all_sections() {
    let base_files = strings(&["a.rs", "b.rs"]);
    let head_files = strings(&["b.rs", "c.rs"]);
    let diff = get_diff("* @x", "* @y", &base_files, &head_files);
    let out = diff_report(&diff, "main", "feature");
    assert_eq!(
        out,
        "\
## Added files (1 files)

| file   | owners |
|--------|--------|
| `c.rs` | @y     |

## Removed files (1 files)

| file   | owners |
|--------|--------|
| `a.rs` | @x     |

## Changed ownership (1 files)

| file   | main | feature |
|--------|------|---------|
| `b.rs` | @x   | @y      |
"
    );
}

#[test]
fn cli_check_unowned_fails() {
    let paths = strings(&["README.md", "src/main.rs"]);
    let owners = get_owners(&paths, true, &[true, true], "src/* @src-team", &[]).unwrap();
    assert_eq!(
        owners_report(&owners),
        "\
| path          | owners    |
|---------------|-----------|
| `README.md`   | (unowned) |
| `src/main.rs` | @src-team |
"
    );
    let err = check_unowned(&owners).unwrap_err();
    assert_eq!(format!("Error: {}", err.message()), "Error: 1 unowned path(s)");
}

#[test]
fn owners_formatting() {
    assert_eq!(format_owners(&[]), "(unowned)");
    assert_eq!(format_owners(&strings(&["@a"])), "@a");
    assert_eq!(format_owners(&strings(&["@a", "@b", "x@y.co"])), "@a, @b, x@y.co");
    assert_eq!(join(&strings(&["a", "", "b"]), "--"), "a----b");
}

#[test]
fn decimal_notation() {
    assert_eq!(decimal(0), "0");
    assert_eq!(decimal(7), "7");
    assert_eq!(decimal(10), "10");
    assert_eq!(decimal(1203), "1203");
    assert_eq!(decimal(usize::MAX), usize::MAX.to_string());
}

#[test]
fn git_refs_and_labels() {
    assert!(matches!(to_git_ref(""), GitRef::WorkingTree));
    assert!(matches!(to_git_ref("main"), GitRef::Ref("main")));
    assert_eq!(git_ref_label(&GitRef::WorkingTree), "working tree");
    assert_eq!(git_ref_label(&GitRef::Ref("v1.2")), "v1.2");
}

#[test]
fn paths_from_arguments_and_stdin() {
    let args = strings(&["a.rs"]);
    let lines = strings(&["", "b.rs", "", "c d.rs"]);
    assert_eq!(resolve_paths(&args, &lines).unwrap(), strings(&["a.rs", "b.rs", "c d.rs"]));
    assert_eq!(resolve_paths(&[], &lines).unwrap(), strings(&["b.rs", "c d.rs"]));
    match resolve_paths(&[], &strings(&["", ""])) {
        Err(e) => {
            assert!(matches!(e, OwnersError::NoPaths));
            assert_eq!(e.message(), "no paths provided");
        }
        Ok(v) => panic!("unexpected paths {v:?}"),
    }
}

#[test]
fn error_messages() {
    let e = OwnersError::MissingPaths(strings(&["a", "b/c"]));
    assert_eq!(e.message(), "paths do not exist:\na\nb/c");
    assert_eq!(OwnersError::MissingPath("x".into()).message(), "path does not exist: x");
    assert_eq!(OwnersError::Unowned(12).message(), "12 unowned path(s)");
}

#[test]
fn markdown_tables() {
    let rows = vec![("a".to_string(), "bb".to_string())];
    assert_eq!(build_markdown_table(&["x", "y"], &rows), "| x | y  |\n|---|----|\n| a | bb |");
    let rows3 = vec![("1".to_string(), "2".to_string(), "3".to_string())];
    assert_eq!(build_markdown_table_3col(&["a", "b", "c"], &rows3), "| a | b | c |\n|---|---|---|\n| 1 | 2 | 3 |");
}
