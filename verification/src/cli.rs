//! The text that the command line prints: owner lists, markdown tables, the
//! owners, explain and diff reports, and error messages.
use vstd::prelude::*;
use tabled::builder::Builder;
use tabled::settings::Style;
use crate::api::{GitRef, MatchingRule, OwnersDiff, OwnersError, opt_rule_view, rule_views};
use crate::owners::RuleView;
use crate::text::str_views;

verus! {

/// `xs` joined with `sep` between neighbours.
pub open spec fn spec_join(xs: Seq<Seq<char>>, sep: Seq<char>) -> Seq<char>
    decreases xs.len(),
{
    if xs.len() == 0 {
        seq![]
    } else if xs.len() == 1 {
        xs[0]
    } else {
        spec_join(xs.drop_last(), sep) + sep + xs.last()
    }
}

/// The strings of `xs` joined with `sep` between neighbours.
pub fn join(xs: &[String], sep: &str) -> (s: String)
    ensures
        s@ == spec_join(str_views(xs@), sep@),
{
    let ghost v = str_views(xs@);
    let mut s = String::new();
    let mut i: usize = 0;
    while i < xs.len()
        invariant
            i <= xs.len(),
            v == str_views(xs@),
            s@ == spec_join(v.take(i as int), sep@),
        decreases xs.len() - i,
    {
        assert(v.take(i + 1).drop_last() == v.take(i as int));
        if i > 0 {
            s.append(sep);
        }
        s.append(xs[i].as_str());
        assert(s@ =~= spec_join(v.take(i + 1), sep@));
        i = i + 1;
    }
    assert(v.take(xs.len() as int) == v);
    s
}

/// The owners as they are shown: joined with ", ", or "(unowned)" when
/// there are none.
pub open spec fn spec_format_owners(owners: Seq<Seq<char>>) -> Seq<char> {
    if owners.len() == 0 {
        "(unowned)"@
    } else {
        spec_join(owners, ", "@)
    }
}

/// Formats a list of owners for display.
pub fn format_owners(owners: &[String]) -> (s: String)
    ensures
        s@ == spec_format_owners(str_views(owners@)),
{
    if owners.len() == 0 {
        String::from_str("(unowned)")
    } else {
        join(owners, ", ")
    }
}

/// The decimal digit for `d`.
pub open spec fn digit_char(d: nat) -> char {
    if d == 0 { '0' } else if d == 1 { '1' } else if d == 2 { '2' } else if d == 3 { '3' }
    else if d == 4 { '4' } else if d == 5 { '5' } else if d == 6 { '6' } else if d == 7 { '7' }
    else if d == 8 { '8' } else { '9' }
}

/// The decimal notation of `n`, without leading zeros.
pub open spec fn spec_decimal(n: nat) -> Seq<char>
    decreases n,
{
    if n < 10 {
        seq![digit_char(n)]
    } else {
        spec_decimal(n / 10) + seq![digit_char(n % 10)]
    }
}

fn digit(d: usize) -> (c: char)
    requires
        d < 10,
    ensures
        c == digit_char(d as nat),
{
    if d == 0 { '0' } else if d == 1 { '1' } else if d == 2 { '2' } else if d == 3 { '3' }
    else if d == 4 { '4' } else if d == 5 { '5' } else if d == 6 { '6' } else if d == 7 { '7' }
    else if d == 8 { '8' } else { '9' }
}

/// The decimal notation of a number.
pub fn decimal(n: usize) -> (s: String)
    ensures
        s@ == spec_decimal(n as nat),
    decreases n,
{
    if n < 10 {
        let mut s = String::new();
        s.push(digit(n));
        assert(s@ =~= spec_decimal(n as nat));
        s
    } else {
        let mut s = decimal(n / 10);
        s.push(digit(n % 10));
        assert(s@ =~= spec_decimal(n as nat));
        s
    }
}

/// Reads a command-line ref: the empty string names the working tree.
pub fn to_git_ref(s: &str) -> (r: GitRef<'_>)
    ensures
        match r {
            GitRef::WorkingTree => s@.len() == 0,
            GitRef::Ref(name) => s@.len() > 0 && name@ == s@,
        },
{
    if s.is_empty() {
        GitRef::WorkingTree
    } else {
        GitRef::Ref(s)
    }
}

/// How a ref is labelled in the diff report.
pub open spec fn spec_ref_label(r: GitRef) -> Seq<char> {
    match r {
        GitRef::WorkingTree => "working tree"@,
        GitRef::Ref(name) => name@,
    }
}

/// The label of a ref in the diff report: its name, or "working tree".
pub fn git_ref_label<'a>(r: &GitRef<'a>) -> (label: &'a str)
    ensures
        label@ == spec_ref_label(*r),
{
    match r {
        GitRef::WorkingTree => "working tree",
        GitRef::Ref(name) => name,
    }
}

/// The paths given on the command line, then the non-empty lines read from
/// standard input.
pub open spec fn spec_collected_paths(paths: Seq<Seq<char>>, lines: Seq<Seq<char>>) -> Seq<Seq<char>>
    decreases lines.len(),
{
    if lines.len() == 0 {
        paths
    } else {
        let prev = spec_collected_paths(paths, lines.drop_last());
        if lines.last().len() > 0 {
            prev.push(lines.last())
        } else {
            prev
        }
    }
}

/// Collects the paths to look up: those given as arguments, then the
/// non-empty lines read from standard input (none when it is not read).
/// Refuses an empty result.
pub fn resolve_paths(paths: &[String], stdin_lines: &[String]) -> (r: Result<Vec<String>, OwnersError>)
    ensures
        match r {
            Ok(v) => str_views(v@) == spec_collected_paths(str_views(paths@), str_views(stdin_lines@))
                && v@.len() > 0,
            Err(OwnersError::NoPaths) => spec_collected_paths(str_views(paths@), str_views(stdin_lines@)).len() == 0,
            Err(_) => false,
        },
{
    let ghost ps = str_views(paths@);
    let ghost ls = str_views(stdin_lines@);
    let mut result = crate::owners::clone_strings(paths);
    let mut i: usize = 0;
    while i < stdin_lines.len()
        invariant
            i <= stdin_lines.len(),
            ps == str_views(paths@),
            ls == str_views(stdin_lines@),
            str_views(result@) == spec_collected_paths(ps, ls.take(i as int)),
        decreases stdin_lines.len() - i,
    {
        assert(ls.take(i + 1).drop_last() == ls.take(i as int));
        assert(ls[i as int] == stdin_lines@[i as int]@);
        if !stdin_lines[i].as_str().is_empty() {
            let line = stdin_lines[i].clone();
            let ghost before = str_views(result@);
            result.push(line);
            assert(str_views(result@) =~= before.push(ls[i as int]));
        }
        assert(str_views(result@) =~= spec_collected_paths(ps, ls.take(i + 1)));
        i = i + 1;
    }
    assert(ls.take(stdin_lines.len() as int) == ls);
    if result.len() == 0 {
        Err(OwnersError::NoPaths)
    } else {
        Ok(result)
    }
}


/// The markdown table that `tabled` renders for these records, the first
/// one being the header row.
pub uninterp spec fn spec_markdown_table(records: Seq<Seq<Seq<char>>>) -> Seq<char>;

/// The views of table records.
pub open spec fn record_views(v: Seq<Vec<String>>) -> Seq<Seq<Seq<char>>> {
    Seq::new(v.len(), |i: int| str_views(v[i]@))
}

/// Renders records with `tabled`: `Builder::from` the records, `build`, the
/// markdown style applied with `Table::with(Style::markdown())`, and
/// `to_string`. Claimed: the text is `spec_markdown_table` of the records.
#[verifier::external_body]
fn render_markdown_table(records: Vec<Vec<String>>) -> (table: String)
    ensures
        table@ == spec_markdown_table(record_views(records@)),
{
    let mut table = Builder::from(records).build();
    table.with(Style::markdown());
    table.to_string()
}

/// The views of a list of `&str`.
pub open spec fn str_slice_views(v: Seq<&str>) -> Seq<Seq<char>> {
    Seq::new(v.len(), |i: int| v[i]@)
}

/// Owned copies of a list of `&str`.
fn to_strings(v: &[&str]) -> (r: Vec<String>)
    ensures
        str_views(r@) == str_slice_views(v@),
{
    let mut r: Vec<String> = Vec::new();
    let mut i: usize = 0;
    while i < v.len()
        invariant
            i <= v.len(),
            str_views(r@) == str_slice_views(v@).take(i as int),
        decreases v.len() - i,
    {
        let ghost before = str_views(r@);
        r.push(v[i].to_owned());
        assert(str_views(r@) =~= before.push(str_slice_views(v@)[i as int]));
        assert(str_slice_views(v@).take(i + 1) =~= str_slice_views(v@).take(i as int).push(str_slice_views(v@)[i as int]));
        i = i + 1;
    }
    assert(str_slice_views(v@).take(v.len() as int) == str_slice_views(v@));
    r
}

/// The views of two-column rows.
pub open spec fn rows2_views(rows: Seq<(String, String)>) -> Seq<Seq<Seq<char>>> {
    Seq::new(rows.len(), |i: int| seq![rows[i].0@, rows[i].1@])
}

/// The views of three-column rows.
pub open spec fn rows3_views(rows: Seq<(String, String, String)>) -> Seq<Seq<Seq<char>>> {
    Seq::new(rows.len(), |i: int| seq![rows[i].0@, rows[i].1@, rows[i].2@])
}

/// A markdown table with the given header row and two-column rows.
pub fn build_markdown_table(headers: &[&str], rows: &[(String, String)]) -> (table: String)
    ensures
        table@ == spec_markdown_table(seq![str_slice_views(headers@)] + rows2_views(rows@)),
{
    let mut records: Vec<Vec<String>> = Vec::new();
    records.push(to_strings(headers));
    let mut i: usize = 0;
    while i < rows.len()
        invariant
            i <= rows.len(),
            record_views(records@) == seq![str_slice_views(headers@)] + rows2_views(rows@).take(i as int),
        decreases rows.len() - i,
    {
        let mut record: Vec<String> = Vec::new();
        record.push(rows[i].0.clone());
        record.push(rows[i].1.clone());
        let ghost before = record_views(records@);
        assert(str_views(record@) =~= seq![rows@[i as int].0@, rows@[i as int].1@]);
        records.push(record);
        assert(record_views(records@) =~= before.push(rows2_views(rows@)[i as int]));
        assert(rows2_views(rows@).take(i + 1) =~= rows2_views(rows@).take(i as int).push(rows2_views(rows@)[i as int]));
        i = i + 1;
    }
    assert(rows2_views(rows@).take(rows.len() as int) == rows2_views(rows@));
    render_markdown_table(records)
}

/// A markdown table with the given header row and three-column rows.
pub fn build_markdown_table_3col(headers: &[&str], rows: &[(String, String, String)]) -> (table: String)
    ensures
        table@ == spec_markdown_table(seq![str_slice_views(headers@)] + rows3_views(rows@)),
{
    let mut records: Vec<Vec<String>> = Vec::new();
    records.push(to_strings(headers));
    let mut i: usize = 0;
    while i < rows.len()
        invariant
            i <= rows.len(),
            record_views(records@) == seq![str_slice_views(headers@)] + rows3_views(rows@).take(i as int),
        decreases rows.len() - i,
    {
        let mut record: Vec<String> = Vec::new();
        record.push(rows[i].0.clone());
        record.push(rows[i].1.clone());
        record.push(rows[i].2.clone());
        let ghost before = record_views(records@);
        assert(str_views(record@) =~= seq![rows@[i as int].0@, rows@[i as int].1@, rows@[i as int].2@]);
        records.push(record);
        assert(record_views(records@) =~= before.push(rows3_views(rows@)[i as int]));
        assert(rows3_views(rows@).take(i + 1) =~= rows3_views(rows@).take(i as int).push(rows3_views(rows@)[i as int]));
        i = i + 1;
    }
    assert(rows3_views(rows@).take(rows.len() as int) == rows3_views(rows@));
    render_markdown_table(records)
}

/// A path shown as inline code.
pub open spec fn code_cell(p: Seq<char>) -> Seq<char> {
    "`"@ + p + "`"@
}

fn code(p: &String) -> (s: String)
    ensures
        s@ == code_cell(p@),
{
    let mut s = String::from_str("`");
    s.append(p.as_str());
    s.append("`");
    s
}

/// The owners cell of a path's row: the rule's owners, or "(unowned)".
pub open spec fn owners_cell(rule: Option<RuleView>) -> Seq<char> {
    match rule {
        Some(r) => spec_format_owners(r.2),
        None => "(unowned)"@,
    }
}

/// The rows of the owners table.
pub open spec fn owners_rows(results: Seq<(String, Option<MatchingRule>)>) -> Seq<Seq<Seq<char>>> {
    Seq::new(results.len(), |i: int| seq![code_cell(results[i].0@), owners_cell(opt_rule_view(results[i].1))])
}

/// What the owners command prints: a table of paths and their owners.
pub open spec fn spec_owners_report(results: Seq<(String, Option<MatchingRule>)>) -> Seq<char> {
    spec_markdown_table(seq![seq!["path"@, "owners"@]] + owners_rows(results)) + "\n"@
}

/// The text printed for an owners lookup: one row per path, its owners or
/// "(unowned)".
pub fn owners_report(results: &[(String, Option<MatchingRule>)]) -> (report: String)
    ensures
        report@ == spec_owners_report(results@),
{
    let mut rows: Vec<(String, String)> = Vec::new();
    let mut i: usize = 0;
    while i < results.len()
        invariant
            i <= results.len(),
            rows2_views(rows@) == owners_rows(results@).take(i as int),
        decreases results.len() - i,
    {
        let cell = match &results[i].1 {
            Some(rule) => format_owners(rule.owners.as_slice()),
            None => String::from_str("(unowned)"),
        };
        let ghost before = rows2_views(rows@);
        rows.push((code(&results[i].0), cell));
        assert(rows2_views(rows@) =~= before.push(owners_rows(results@)[i as int]));
        assert(owners_rows(results@).take(i + 1) =~= owners_rows(results@).take(i as int).push(owners_rows(results@)[i as int]));
        i = i + 1;
    }
    assert(owners_rows(results@).take(results.len() as int) == owners_rows(results@));
    let mut headers: Vec<&str> = Vec::new();
    headers.push("path");
    headers.push("owners");
    assert(str_slice_views(headers@) =~= seq!["path"@, "owners"@]);
    let mut table = build_markdown_table(headers.as_slice(), rows.as_slice());
    table.append("\n");
    table
}


/// The marker of the active rule in the explain table.
pub open spec fn active_marker(active: bool) -> Seq<char> {
    if active {
        "\u{2192}"@
    } else {
        ""@
    }
}

/// The rows of the explain table: marker, line, pattern and owners.
pub open spec fn explain_rows(rules: Seq<RuleView>) -> Seq<Seq<Seq<char>>> {
    Seq::new(rules.len(), |i: int| seq![
        active_marker(rules[i].3),
        spec_decimal(rules[i].0 as nat),
        rules[i].1,
        spec_format_owners(rules[i].2),
    ])
}

/// What the explain command prints: the owners, then the matching rules
/// (the active one marked) or "No matching rules.".
pub open spec fn spec_explain_report(owners: Seq<Seq<char>>, rules: Seq<RuleView>) -> Seq<char> {
    "Owners: "@ + spec_format_owners(owners) + "\n\n"@ + if rules.len() == 0 {
        "No matching rules.\n"@
    } else {
        spec_markdown_table(seq![seq![""@, "line"@, "pattern"@, "owners"@]] + explain_rows(rules)) + "\n"@
    }
}

/// The text printed to explain a path's ownership.
pub fn explain_report(owners: &[String], rules: &[MatchingRule]) -> (report: String)
    ensures
        report@ == spec_explain_report(str_views(owners@), rule_views(rules@)),
{
    let mut report = String::from_str("Owners: ");
    report.append(format_owners(owners).as_str());
    report.append("\n\n");
    if rules.len() == 0 {
        report.append("No matching rules.\n");
        return report;
    }
    let ghost rv = rule_views(rules@);
    let mut records: Vec<Vec<String>> = Vec::new();
    let mut header: Vec<String> = Vec::new();
    header.push(String::from_str(""));
    header.push(String::from_str("line"));
    header.push(String::from_str("pattern"));
    header.push(String::from_str("owners"));
    assert(str_views(header@) =~= seq![""@, "line"@, "pattern"@, "owners"@]);
    records.push(header);
    let mut i: usize = 0;
    while i < rules.len()
        invariant
            i <= rules.len(),
            rv == rule_views(rules@),
            record_views(records@) == seq![seq![""@, "line"@, "pattern"@, "owners"@]] + explain_rows(rv).take(i as int),
        decreases rules.len() - i,
    {
        let rule = &rules[i];
        let marker = if rule.active { String::from_str("\u{2192}") } else { String::from_str("") };
        let mut record: Vec<String> = Vec::new();
        record.push(marker);
        record.push(decimal(rule.line));
        record.push(rule.pattern.clone());
        record.push(format_owners(rule.owners.as_slice()));
        assert(str_views(record@) =~= explain_rows(rv)[i as int]);
        let ghost before = record_views(records@);
        records.push(record);
        assert(record_views(records@) =~= before.push(explain_rows(rv)[i as int]));
        assert(explain_rows(rv).take(i + 1) =~= explain_rows(rv).take(i as int).push(explain_rows(rv)[i as int]));
        i = i + 1;
    }
    assert(explain_rows(rv).take(rules.len() as int) == explain_rows(rv));
    report.append(render_markdown_table(records).as_str());
    report.append("\n");
    report
}

/// The rows of a table of files and their owners.
pub open spec fn file_rows(v: Seq<(String, Vec<String>)>) -> Seq<Seq<Seq<char>>> {
    Seq::new(v.len(), |i: int| seq![code_cell(v[i].0@), spec_format_owners(str_views(v[i].1@))])
}

/// The rows of a table of files and their owners on both sides.
pub open spec fn changed_rows(v: Seq<(String, Vec<String>, Vec<String>)>) -> Seq<Seq<Seq<char>>> {
    Seq::new(v.len(), |i: int| seq![
        code_cell(v[i].0@),
        spec_format_owners(str_views(v[i].1@)),
        spec_format_owners(str_views(v[i].2@)),
    ])
}

/// A section of the diff report: a heading with the number of files, then
/// the table.
pub open spec fn diff_section(title: Seq<char>, n: nat, table: Seq<char>) -> Seq<char> {
    "## "@ + title + " ("@ + spec_decimal(n) + " files)\n\n"@ + table + "\n"@
}

/// The sections of the diff report, for the lists that are not empty.
pub open spec fn diff_sections(d: OwnersDiff, base_label: Seq<char>, head_label: Seq<char>) -> Seq<Seq<char>> {
    let added = if d.added@.len() > 0 {
        seq![diff_section("Added files"@, d.added@.len(),
            spec_markdown_table(seq![seq!["file"@, "owners"@]] + file_rows(d.added@)))]
    } else {
        seq![]
    };
    let removed = if d.removed@.len() > 0 {
        seq![diff_section("Removed files"@, d.removed@.len(),
            spec_markdown_table(seq![seq!["file"@, "owners"@]] + file_rows(d.removed@)))]
    } else {
        seq![]
    };
    let changed = if d.changed@.len() > 0 {
        seq![diff_section("Changed ownership"@, d.changed@.len(),
            spec_markdown_table(seq![seq!["file"@, base_label, head_label]] + changed_rows(d.changed@)))]
    } else {
        seq![]
    };
    added + removed + changed
}

/// What the diff command prints: the sections separated by a blank line, or
/// "No ownership changes." when there is none.
pub open spec fn spec_diff_report(d: OwnersDiff, base_label: Seq<char>, head_label: Seq<char>) -> Seq<char> {
    let sections = diff_sections(d, base_label, head_label);
    if sections.len() == 0 {
        "No ownership changes.\n"@
    } else {
        spec_join(sections, "\n"@)
    }
}

fn file_table(v: &Vec<(String, Vec<String>)>) -> (table: String)
    ensures
        table@ == spec_markdown_table(seq![seq!["file"@, "owners"@]] + file_rows(v@)),
{
    let mut rows: Vec<(String, String)> = Vec::new();
    let mut i: usize = 0;
    while i < v.len()
        invariant
            i <= v.len(),
            rows2_views(rows@) == file_rows(v@).take(i as int),
        decreases v.len() - i,
    {
        let ghost before = rows2_views(rows@);
        rows.push((code(&v[i].0), format_owners(v[i].1.as_slice())));
        assert(rows2_views(rows@) =~= before.push(file_rows(v@)[i as int]));
        assert(file_rows(v@).take(i + 1) =~= file_rows(v@).take(i as int).push(file_rows(v@)[i as int]));
        i = i + 1;
    }
    assert(file_rows(v@).take(v.len() as int) == file_rows(v@));
    let mut headers: Vec<&str> = Vec::new();
    headers.push("file");
    headers.push("owners");
    assert(str_slice_views(headers@) =~= seq!["file"@, "owners"@]);
    build_markdown_table(headers.as_slice(), rows.as_slice())
}

fn section(title: &str, n: usize, table: String) -> (s: String)
    ensures
        s@ == diff_section(title@, n as nat, table@),
{
    let mut s = String::from_str("## ");
    s.append(title);
    s.append(" (");
    s.append(decimal(n).as_str());
    s.append(" files)\n\n");
    s.append(table.as_str());
    s.append("\n");
    s
}

/// The text printed for an ownership diff.
pub fn diff_report(diff: &OwnersDiff, base_label: &str, head_label: &str) -> (report: String)
    ensures
        report@ == spec_diff_report(*diff, base_label@, head_label@),
{
    let mut sections: Vec<String> = Vec::new();
    let ghost d = *diff;
    if diff.added.len() > 0 {
        sections.push(section("Added files", diff.added.len(), file_table(&diff.added)));
    }
    let ghost after_added = str_views(sections@);
    if diff.removed.len() > 0 {
        sections.push(section("Removed files", diff.removed.len(), file_table(&diff.removed)));
    }
    let ghost after_removed = str_views(sections@);
    if diff.changed.len() > 0 {
        let mut rows: Vec<(String, String, String)> = Vec::new();
        let mut i: usize = 0;
        while i < diff.changed.len()
            invariant
                i <= diff.changed.len(),
                rows3_views(rows@) == changed_rows(diff.changed@).take(i as int),
            decreases diff.changed.len() - i,
        {
            let c = &diff.changed[i];
            let ghost before = rows3_views(rows@);
            rows.push((code(&c.0), format_owners(c.1.as_slice()), format_owners(c.2.as_slice())));
            assert(rows3_views(rows@) =~= before.push(changed_rows(diff.changed@)[i as int]));
            assert(changed_rows(diff.changed@).take(i + 1)
                =~= changed_rows(diff.changed@).take(i as int).push(changed_rows(diff.changed@)[i as int]));
            i = i + 1;
        }
        assert(changed_rows(diff.changed@).take(diff.changed.len() as int) == changed_rows(diff.changed@));
        let mut headers: Vec<&str> = Vec::new();
        headers.push("file");
        headers.push(base_label);
        headers.push(head_label);
        assert(str_slice_views(headers@) =~= seq!["file"@, base_label@, head_label@]);
        let table = build_markdown_table_3col(headers.as_slice(), rows.as_slice());
        sections.push(section("Changed ownership", diff.changed.len(), table));
    }
    assert(str_views(sections@) =~= diff_sections(d, base_label@, head_label@));
    if sections.len() == 0 {
        String::from_str("No ownership changes.\n")
    } else {
        join(sections.as_slice(), "\n")
    }
}

/// A path is unowned when no rule matches it or its rule has no owners.
pub open spec fn is_unowned(rule: Option<RuleView>) -> bool {
    match rule {
        Some(r) => r.2.len() == 0,
        None => true,
    }
}

/// How many results are unowned.
pub open spec fn spec_unowned_count(results: Seq<(String, Option<MatchingRule>)>) -> nat
    decreases results.len(),
{
    if results.len() == 0 {
        0
    } else {
        spec_unowned_count(results.drop_last())
            + if is_unowned(opt_rule_view(results.last().1)) { 1nat } else { 0nat }
    }
}

/// Refuses a lookup result in which some paths are unowned, saying how many.
pub fn check_unowned(results: &[(String, Option<MatchingRule>)]) -> (r: Result<(), OwnersError>)
    ensures
        match r {
            Ok(()) => spec_unowned_count(results@) == 0,
            Err(OwnersError::Unowned(n)) => n == spec_unowned_count(results@) && n > 0,
            Err(_) => false,
        },
{
    let mut n: usize = 0;
    let mut i: usize = 0;
    while i < results.len()
        invariant
            i <= results.len(),
            n <= i,
            n == spec_unowned_count(results@.take(i as int)),
        decreases results.len() - i,
    {
        assert(results@.take(i + 1).drop_last() == results@.take(i as int));
        let unowned = match &results[i].1 {
            Some(rule) => rule.owners.len() == 0,
            None => true,
        };
        if unowned {
            n = n + 1;
        }
        i = i + 1;
    }
    assert(results@.take(results.len() as int) == results@);
    if n > 0 {
        Err(OwnersError::Unowned(n))
    } else {
        Ok(())
    }
}

/// The message of an error, as the command line prints it.
pub open spec fn spec_message(e: OwnersError) -> Seq<char> {
    match e {
        OwnersError::MissingPaths(paths) => "paths do not exist:\n"@ + spec_join(str_views(paths@), "\n"@),
        OwnersError::MissingPath(path) => "path does not exist: "@ + path@,
        OwnersError::UnindexedPattern(p) => "matching rule pattern must exist in index: "@ + p@,
        OwnersError::NoPaths => "no paths provided"@,
        OwnersError::Unowned(n) => spec_decimal(n as nat) + " unowned path(s)"@,
    }
}

impl OwnersError {
    /// The message that describes the error.
    pub fn message(&self) -> (m: String)
        ensures
            m@ == spec_message(*self),
    {
        match self {
            OwnersError::MissingPaths(paths) => {
                let mut m = String::from_str("paths do not exist:\n");
                m.append(join(paths.as_slice(), "\n").as_str());
                m
            },
            OwnersError::MissingPath(path) => {
                let mut m = String::from_str("path does not exist: ");
                m.append(path.as_str());
                m
            },
            OwnersError::UnindexedPattern(p) => {
                let mut m = String::from_str("matching rule pattern must exist in index: ");
                m.append(p.as_str());
                m
            },
            OwnersError::NoPaths => String::from_str("no paths provided"),
            OwnersError::Unowned(n) => {
                let mut m = decimal(*n);
                m.append(" unowned path(s)");
                m
            },
        }
    }
}

} // verus!
