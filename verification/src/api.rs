//! The library's entry points: owners of paths, the explanation of one
//! path's ownership, and the ownership diff between two versions of a
//! repository. They take what was read from disk or from git as plain values.
use vstd::prelude::*;
use crate::order::{lex_sorted, lex_strictly_sorted, sort_paths, sorted_unique};
use crate::owners::{
    MatchedRule, PatternIndex, RuleView, build_pattern_index, contains_str, explain_path,
    matched_views, occurrences, pattern_indexed, resolve_matched_rule, resolve_owners,
    spec_explain, spec_pattern_index, spec_resolve,
};
use crate::rules::{
    Rules, rule_patterns, set_matching_rule, spec_all_matching_rules, spec_matching_rule,
    spec_resolved_owners,
};
use crate::text::{chars_of, char_views, spec_lines, split_lines, str_views, string_of};

verus! {

broadcast use vstd::seq_lib::group_to_multiset_ensures;

/// A CODEOWNERS rule that matched a path, with its source line number.
#[derive(Debug)]
pub struct MatchingRule {
    pub line: usize,
    pub pattern: String,
    pub owners: Vec<String>,
    pub active: bool,
}

impl View for MatchingRule {
    type V = RuleView;

    open spec fn view(&self) -> RuleView {
        (self.line as int, self.pattern@, str_views(self.owners@), self.active)
    }
}

/// The view of an optional matching rule.
pub open spec fn opt_rule_view(r: Option<MatchingRule>) -> Option<RuleView> {
    match r {
        Some(rule) => Some(rule@),
        None => None,
    }
}

/// The views of a sequence of matching rules.
pub open spec fn rule_views(v: Seq<MatchingRule>) -> Seq<RuleView> {
    Seq::new(v.len(), |i: int| v[i]@)
}

fn to_matching_rule(r: MatchedRule) -> (m: MatchingRule)
    ensures
        m@ == r@,
{
    MatchingRule { line: r.line, pattern: r.pattern, owners: r.owners, active: r.active }
}

/// Why a request was refused.
#[derive(Debug)]
pub enum OwnersError {
    /// Some paths that were to be checked do not exist.
    MissingPaths(Vec<String>),
    /// The path that was to be checked does not exist.
    MissingPath(String),
    /// The rule that wins for a path has a pattern that no line of the
    /// CODEOWNERS file starts with, so it has no line number.
    UnindexedPattern(String),
    /// No path was given.
    NoPaths,
    /// This many paths have no owner.
    Unowned(usize),
}

/// A git ref or the working tree.
pub enum GitRef<'a> {
    Ref(&'a str),
    WorkingTree,
}

/// Whether a rule passes an owner filter: every rule passes an empty filter;
/// `"unowned"` in the filter selects paths without a rule or whose rule has
/// no owners; otherwise some owner of the rule must be in the filter.
pub open spec fn spec_matches_filter(rule: Option<RuleView>, filter: Seq<Seq<char>>) -> bool {
    if filter.len() == 0 {
        true
    } else {
        match rule {
            None => filter.contains("unowned"@),
            Some(r) => if r.2.len() == 0 {
                filter.contains("unowned"@)
            } else {
                exists|o: Seq<char>| r.2.contains(o) && filter.contains(o)
            },
        }
    }
}

/// Returns true if the rule matches the filter, or if the filter is empty.
pub fn matches_filter(rule: &Option<MatchingRule>, filter: &[String]) -> (b: bool)
    ensures
        b == spec_matches_filter(opt_rule_view(*rule), str_views(filter@)),
{
    if filter.len() == 0 {
        return true;
    }
    let unowned = String::from_str("unowned");
    match rule {
        None => contains_str(filter, &unowned),
        Some(r) => {
            if r.owners.len() == 0 {
                return contains_str(filter, &unowned);
            }
            let mut i: usize = 0;
            while i < r.owners.len()
                invariant
                    i <= r.owners.len(),
                    opt_rule_view(*rule) == Some(r@),
                    filter@.len() > 0,
                    forall|k: int| 0 <= k < i ==> !str_views(filter@).contains(#[trigger] r.owners@[k]@),
                decreases r.owners.len() - i,
            {
                if contains_str(filter, &r.owners[i]) {
                    assert(str_views(r.owners@)[i as int] == r.owners@[i as int]@);
                    assert(str_views(r.owners@).contains(r.owners@[i as int]@));
                    assert(str_views(filter@).contains(r.owners@[i as int]@));
                    return true;
                }
                i = i + 1;
            }
            assert forall|o: Seq<char>| str_views(r.owners@).contains(o) implies
                !str_views(filter@).contains(o) by {
                let k = choose|k: int| 0 <= k < r.owners@.len() && str_views(r.owners@)[k] == o;
                assert(r.owners@[k]@ == o);
            }
            false
        },
    }
}

/// The rule that the owners lookup reports for a path: the winning rule of
/// the CODEOWNERS source, at the last line where its pattern occurs.
pub open spec fn spec_active_rule(src: Seq<char>, path: Seq<char>) -> Option<RuleView> {
    spec_resolve(spec_pattern_index(src), spec_matching_rule(src, path))
}

/// The winning rule for a path, if any, has a pattern that starts a line of
/// the CODEOWNERS source.
pub open spec fn path_indexed(src: Seq<char>, path: Seq<char>) -> bool {
    pattern_indexed(spec_pattern_index(src), spec_matching_rule(src, path))
}

/// The paths whose existence was checked and found missing, in order.
pub open spec fn spec_missing(paths: Seq<Seq<char>>, exists: Seq<bool>) -> Seq<Seq<char>>
    decreases paths.len(),
{
    if paths.len() == 0 {
        seq![]
    } else {
        let prev = spec_missing(paths.drop_last(), exists);
        if exists[paths.len() - 1] {
            prev
        } else {
            prev.push(paths.last())
        }
    }
}

/// The paths whose active rule passes the filter, in order.
pub open spec fn spec_selected(src: Seq<char>, paths: Seq<Seq<char>>, filter: Seq<Seq<char>>) -> Seq<Seq<char>>
    decreases paths.len(),
{
    if paths.len() == 0 {
        seq![]
    } else {
        let prev = spec_selected(src, paths.drop_last(), filter);
        if spec_matches_filter(spec_active_rule(src, paths.last()), filter) {
            prev.push(paths.last())
        } else {
            prev
        }
    }
}

proof fn lemma_selected_subset(src: Seq<char>, paths: Seq<Seq<char>>, filter: Seq<Seq<char>>, x: Seq<char>)
    requires
        spec_selected(src, paths, filter).contains(x),
    ensures
        paths.contains(x),
    decreases paths.len(),
{
    let prev = spec_selected(src, paths.drop_last(), filter);
    if prev.contains(x) {
        lemma_selected_subset(src, paths.drop_last(), filter, x);
        let k = choose|k: int| 0 <= k < paths.drop_last().len() && paths.drop_last()[k] == x;
        assert(paths[k] == x);
    } else {
        assert(paths[paths.len() - 1] == x);
    }
}

/// The paths of an owners lookup result.
pub open spec fn result_paths(v: Seq<(String, Option<MatchingRule>)>) -> Seq<Seq<char>> {
    Seq::new(v.len(), |i: int| v[i].0@)
}

/// The paths whose existence was checked and found missing.
fn missing_paths(paths: &[String], exists: &[bool]) -> (missing: Vec<String>)
    requires
        exists@.len() == paths@.len(),
    ensures
        str_views(missing@) == spec_missing(str_views(paths@), exists@),
{
    let ghost ps = str_views(paths@);
    let mut missing: Vec<String> = Vec::new();
    let mut i: usize = 0;
    while i < paths.len()
        invariant
            i <= paths.len(),
            exists@.len() == paths@.len(),
            ps == str_views(paths@),
            str_views(missing@) == spec_missing(ps.take(i as int), exists@),
        decreases paths.len() - i,
    {
        assert(ps.take(i + 1).drop_last() == ps.take(i as int));
        if !exists[i] {
            let p = paths[i].clone();
            let ghost before = str_views(missing@);
            missing.push(p);
            assert(str_views(missing@) =~= before.push(ps[i as int]));
        }
        assert(str_views(missing@) =~= spec_missing(ps.take(i + 1), exists@));
        i = i + 1;
    }
    assert(ps.take(paths.len() as int) == ps);
    missing
}

/// When `check_paths` is set, refuses the paths that do not exist
/// (`exists[i]` tells whether `paths[i]` exists), listing them in order.
pub fn check_paths_exist(paths: &[String], check_paths: bool, exists: &[bool]) -> (r: Result<(), OwnersError>)
    requires
        exists@.len() == paths@.len(),
    ensures
        match r {
            Ok(()) => !(check_paths && spec_missing(str_views(paths@), exists@).len() > 0),
            Err(OwnersError::MissingPaths(missing)) => check_paths
                && str_views(missing@) == spec_missing(str_views(paths@), exists@)
                && missing@.len() > 0,
            Err(_) => false,
        },
{
    if check_paths {
        let missing = missing_paths(paths, exists);
        if missing.len() > 0 {
            return Err(OwnersError::MissingPaths(missing));
        }
    }
    Ok(())
}

/// When `check_path` is set, refuses a path that does not exist.
pub fn check_path_exists(path: &str, check_path: bool, path_exists: bool) -> (r: Result<(), OwnersError>)
    ensures
        match r {
            Ok(()) => !(check_path && !path_exists),
            Err(OwnersError::MissingPath(p)) => check_path && !path_exists && p@ == path@,
            Err(_) => false,
        },
{
    if check_path && !path_exists {
        Err(OwnersError::MissingPath(path.to_owned()))
    } else {
        Ok(())
    }
}

/// Resolves the active matching rule for a path using the prebuilt index, as
/// `resolve_matched_rule` does; refuses a winning rule whose pattern starts no
/// line of the CODEOWNERS file.
pub fn get_active_matching_rule(ruleset: &Rules, index: &PatternIndex, path: &str) -> (r: Result<Option<MatchingRule>, OwnersError>)
    ensures
        match r {
            Ok(rule) => pattern_indexed(index@, spec_matching_rule(ruleset@, path@))
                && opt_rule_view(rule) == spec_resolve(index@, spec_matching_rule(ruleset@, path@)),
            Err(OwnersError::UnindexedPattern(p)) => spec_matching_rule(ruleset@, path@) matches Some(w)
                && w.0 == p@ && occurrences(index@, p@).len() == 0,
            Err(_) => false,
        },
{
    match set_matching_rule(ruleset, path) {
        None => Ok(None),
        Some(winner) => {
            if index.get(winner.0.as_str()).is_none() {
                Err(OwnersError::UnindexedPattern(winner.0))
            } else {
                match resolve_matched_rule(ruleset, index, path) {
                    Some(rule) => Ok(Some(to_matching_rule(rule))),
                    None => Ok(None),
                }
            }
        },
    }
}

/// Looks up the owners of each path in the CODEOWNERS source `src`.
///
/// Returns the paths whose active rule passes `filter`, each with that rule,
/// sorted by path; `None` means the path is unowned. When `check_paths` is
/// set, `exists[i]` tells whether `paths[i]` exists, and an error lists the
/// paths that do not. When `filter` is non-empty, only paths whose owners
/// intersect it are returned; "unowned" selects the unowned paths.
pub fn get_owners(
    paths: &[String],
    check_paths: bool,
    exists: &[bool],
    src: &str,
    filter: &[String],
) -> (r: Result<Vec<(String, Option<MatchingRule>)>, OwnersError>)
    requires
        exists@.len() == paths@.len(),
    ensures
        match r {
            Err(OwnersError::MissingPaths(missing)) => check_paths
                && str_views(missing@) == spec_missing(str_views(paths@), exists@)
                && missing@.len() > 0,
            Err(OwnersError::UnindexedPattern(p)) => {
                &&& !(check_paths && spec_missing(str_views(paths@), exists@).len() > 0)
                &&& exists|i: int| 0 <= i < paths@.len()
                    && !path_indexed(src@, #[trigger] paths@[i]@)
                    && (spec_matching_rule(src@, paths@[i]@) matches Some(w) && w.0 == p@)
            },
            Err(_) => false,
            Ok(v) => {
                &&& !(check_paths && spec_missing(str_views(paths@), exists@).len() > 0)
                &&& forall|i: int| 0 <= i < paths@.len() ==> path_indexed(src@, #[trigger] paths@[i]@)
                &&& lex_sorted(result_paths(v@))
                &&& result_paths(v@).to_multiset()
                    == spec_selected(src@, str_views(paths@), str_views(filter@)).to_multiset()
                &&& forall|i: int| 0 <= i < v@.len()
                    ==> opt_rule_view(#[trigger] v@[i].1) == spec_active_rule(src@, v@[i].0@)
            },
        },
{
    match check_paths_exist(paths, check_paths, exists) {
        Err(e) => {
            return Err(e);
        },
        Ok(()) => {},
    }
    let ghost ps = str_views(paths@);
    let ghost fs = str_views(filter@);
    let ruleset = Rules::parse(src);
    let index = build_pattern_index(src);
    let mut rules: Vec<Option<MatchingRule>> = Vec::new();
    let mut i: usize = 0;
    while i < paths.len()
        invariant
            i <= paths.len(),
            ps == str_views(paths@),
            ruleset@ == src@,
            index@ == spec_pattern_index(src@),
            !(check_paths && spec_missing(ps, exists@).len() > 0),
            rules@.len() == i,
            forall|k: int| 0 <= k < i ==> path_indexed(src@, #[trigger] paths@[k]@),
            forall|k: int| 0 <= k < i ==> #[trigger] opt_rule_view(rules@[k]) == spec_active_rule(src@, ps[k]),
        decreases paths.len() - i,
    {
        assert(ps[i as int] == paths@[i as int]@);
        let rule = match get_active_matching_rule(&ruleset, &index, paths[i].as_str()) {
            Ok(rule) => rule,
            Err(e) => {
                return Err(e);
            },
        };
        rules.push(rule);
        i = i + 1;
    }
    let ghost rs = opt_rule_views(rules@);
    proof {
        assert forall|a: int, b: int| 0 <= a < ps.len() && 0 <= b < ps.len() && ps[a] == ps[b]
            implies #[trigger] rs[a] == #[trigger] rs[b] by {
            assert(rs[a] == spec_active_rule(src@, ps[a]));
            assert(rs[b] == spec_active_rule(src@, ps[b]));
        }
        assert forall|k: int| 0 <= k < ps.len() implies #[trigger] rs[k] == spec_active_rule(src@, ps[k]) by {
            assert(opt_rule_view(rules@[k]) == spec_active_rule(src@, ps[k]));
        }
        lemma_selected_with_active_rules(src@, ps, rs, fs);
    }
    let out = select_owners(paths, rules.as_slice(), filter);
    proof {
        assert forall|j: int| 0 <= j < out@.len()
            implies opt_rule_view(#[trigger] out@[j].1) == spec_active_rule(src@, out@[j].0@) by {
            let k = choose|k: int| 0 <= k < paths@.len() && paths@[k]@ == out@[j].0@
                && opt_rule_view(out@[j].1) == opt_rule_view(rules@[k]);
            assert(rs[k] == spec_active_rule(src@, ps[k]));
        }
    }
    Ok(out)
}

/// The views of the rules given for a list of paths.
pub open spec fn opt_rule_views(rules: Seq<Option<MatchingRule>>) -> Seq<Option<RuleView>> {
    Seq::new(rules.len(), |i: int| opt_rule_view(rules[i]))
}

/// The paths whose given rule (the rule at the same position) passes the
/// filter, in order.
pub open spec fn spec_selected_with(paths: Seq<Seq<char>>, rules: Seq<Option<RuleView>>, filter: Seq<Seq<char>>) -> Seq<Seq<char>>
    decreases paths.len(),
{
    if paths.len() == 0 {
        seq![]
    } else {
        let prev = spec_selected_with(paths.drop_last(), rules, filter);
        if spec_matches_filter(rules[paths.len() - 1], filter) {
            prev.push(paths.last())
        } else {
            prev
        }
    }
}

/// Each path comes with one rule: where a path occurs twice, its rule is the same.
pub open spec fn rules_consistent(paths: Seq<Seq<char>>, rules: Seq<Option<RuleView>>) -> bool {
    forall|a: int, b: int| 0 <= a < paths.len() && 0 <= b < paths.len() && paths[a] == paths[b]
        ==> #[trigger] rules[a] == #[trigger] rules[b]
}

proof fn lemma_selected_with_active_rules(src: Seq<char>, ps: Seq<Seq<char>>, rs: Seq<Option<RuleView>>, fs: Seq<Seq<char>>)
    requires
        rs.len() >= ps.len(),
        forall|k: int| 0 <= k < ps.len() ==> #[trigger] rs[k] == spec_active_rule(src, ps[k]),
    ensures
        spec_selected_with(ps, rs, fs) == spec_selected(src, ps, fs),
    decreases ps.len(),
{
    if ps.len() > 0 {
        assert forall|k: int| 0 <= k < ps.drop_last().len() implies
            #[trigger] rs[k] == spec_active_rule(src, ps.drop_last()[k]) by {
            assert(rs[k] == spec_active_rule(src, ps[k]));
        }
        lemma_selected_with_active_rules(src, ps.drop_last(), rs, fs);
        assert(rs[ps.len() - 1] == spec_active_rule(src, ps[ps.len() - 1]));
    }
}

proof fn lemma_selected_with_subset(ps: Seq<Seq<char>>, rs: Seq<Option<RuleView>>, fs: Seq<Seq<char>>, x: Seq<char>)
    requires
        spec_selected_with(ps, rs, fs).contains(x),
    ensures
        ps.contains(x),
    decreases ps.len(),
{
    let prev = spec_selected_with(ps.drop_last(), rs, fs);
    if prev.contains(x) {
        lemma_selected_with_subset(ps.drop_last(), rs, fs, x);
        let k = choose|k: int| 0 <= k < ps.drop_last().len() && ps.drop_last()[k] == x;
        assert(ps[k] == x);
    } else {
        assert(ps[ps.len() - 1] == x);
    }
}

/// A copy of an optional rule.
fn clone_rule(r: &Option<MatchingRule>) -> (c: Option<MatchingRule>)
    ensures
        opt_rule_view(c) == opt_rule_view(*r),
{
    match r {
        Some(rule) => Some(MatchingRule {
            line: rule.line,
            pattern: rule.pattern.clone(),
            owners: crate::owners::clone_strings(rule.owners.as_slice()),
            active: rule.active,
        }),
        None => None,
    }
}

/// The position of a path in a list that holds it.
fn find_path(paths: &[String], p: &String) -> (k: usize)
    requires
        str_views(paths@).contains(p@),
    ensures
        k < paths@.len(),
        paths@[k as int]@ == p@,
{
    let mut k: usize = 0;
    while k < paths.len()
        invariant
            k <= paths.len(),
            str_views(paths@).contains(p@),
            forall|j: int| 0 <= j < k ==> paths@[j]@ != p@,
        decreases paths.len() - k,
    {
        if paths[k] == *p {
            return k;
        }
        k = k + 1;
    }
    proof {
        let j = choose|j: int| 0 <= j < paths@.len() && str_views(paths@)[j] == p@;
        assert(paths@[j]@ == p@);
    }
    k
}

/// Given each path's rule (`rules[i]` for `paths[i]`), keeps the paths whose
/// rule passes the filter, sorted by path, each with its rule.
pub fn select_owners(paths: &[String], rules: &[Option<MatchingRule>], filter: &[String]) -> (v: Vec<(String, Option<MatchingRule>)>)
    requires
        rules@.len() == paths@.len(),
        rules_consistent(str_views(paths@), opt_rule_views(rules@)),
    ensures
        lex_sorted(result_paths(v@)),
        result_paths(v@).to_multiset()
            == spec_selected_with(str_views(paths@), opt_rule_views(rules@), str_views(filter@)).to_multiset(),
        forall|i: int| 0 <= i < v@.len() ==> exists|k: int| 0 <= k < paths@.len()
            && paths@[k]@ == (#[trigger] v@[i]).0@ && opt_rule_view(v@[i].1) == opt_rule_view(rules@[k]),
{
    let ghost ps = str_views(paths@);
    let ghost rs = opt_rule_views(rules@);
    let ghost fs = str_views(filter@);
    let mut selected: Vec<String> = Vec::new();
    let mut i: usize = 0;
    while i < paths.len()
        invariant
            i <= paths.len(),
            rules@.len() == paths@.len(),
            ps == str_views(paths@),
            rs == opt_rule_views(rules@),
            fs == str_views(filter@),
            str_views(selected@) == spec_selected_with(ps.take(i as int), rs, fs),
        decreases paths.len() - i,
    {
        assert(ps.take(i + 1).drop_last() == ps.take(i as int));
        assert(ps[i as int] == paths@[i as int]@);
        assert(rs[i as int] == opt_rule_view(rules@[i as int]));
        if matches_filter(&rules[i], filter) {
            let p = paths[i].clone();
            let ghost before = str_views(selected@);
            selected.push(p);
            assert(str_views(selected@) =~= before.push(ps[i as int]));
        }
        assert(str_views(selected@) =~= spec_selected_with(ps.take(i + 1), rs, fs));
        i = i + 1;
    }
    assert(ps.take(paths.len() as int) == ps);
    let sorted = sort_paths(selected.as_slice());
    let mut out: Vec<(String, Option<MatchingRule>)> = Vec::new();
    let mut k: usize = 0;
    while k < sorted.len()
        invariant
            k <= sorted.len(),
            rules@.len() == paths@.len(),
            ps == str_views(paths@),
            rs == opt_rule_views(rules@),
            str_views(sorted@).to_multiset() == str_views(selected@).to_multiset(),
            str_views(selected@) == spec_selected_with(ps, rs, fs),
            result_paths(out@) == str_views(sorted@).take(k as int),
            forall|i: int| 0 <= i < out@.len() ==> exists|j: int| 0 <= j < paths@.len()
                && paths@[j]@ == (#[trigger] out@[i]).0@ && opt_rule_view(out@[i].1) == opt_rule_view(rules@[j]),
        decreases sorted.len() - k,
    {
        proof {
            let x = sorted@[k as int]@;
            assert(str_views(sorted@)[k as int] == x);
            assert(str_views(sorted@).contains(x));
            str_views(sorted@).to_multiset_ensures();
            str_views(selected@).to_multiset_ensures();
            assert(str_views(sorted@).to_multiset().count(x) > 0);
            assert(str_views(selected@).to_multiset().count(x) > 0);
            lemma_selected_with_subset(ps, rs, fs, x);
        }
        let j = find_path(paths, &sorted[k]);
        let rule = clone_rule(&rules[j]);
        let p = sorted[k].clone();
        assert(p@ == str_views(sorted@)[k as int]);
        let ghost before = out@;
        out.push((p, rule));
        assert(result_paths(out@) =~= result_paths(before).push(str_views(sorted@)[k as int]));
        assert(str_views(sorted@).take(k + 1) =~= str_views(sorted@).take(k as int).push(str_views(sorted@)[k as int]));
        assert forall|i: int| 0 <= i < out@.len() implies exists|j2: int| 0 <= j2 < paths@.len()
            && paths@[j2]@ == (#[trigger] out@[i]).0@ && opt_rule_view(out@[i].1) == opt_rule_view(rules@[j2]) by {
            if i < before.len() {
                assert(out@[i] == before[i]);
            } else {
                assert(paths@[j as int]@ == out@[i].0@);
            }
        }
        k = k + 1;
    }
    assert(str_views(sorted@).take(sorted.len() as int) == str_views(sorted@));
    out
}

/// Finds all CODEOWNERS rules matching a path, as `explain_path` does.
pub fn get_all_matching_rules(ruleset: &Rules, index: &PatternIndex, path: &str) -> (rules: Vec<MatchingRule>)
    ensures
        rule_views(rules@) == spec_explain(index@, rule_patterns(spec_all_matching_rules(ruleset@, path@))),
{
    let mut found = explain_path(ruleset, index, path);
    let ghost target = matched_views(found@);
    let mut rules: Vec<MatchingRule> = Vec::new();
    let mut i: usize = 0;
    while i < found.len()
        invariant
            i <= found.len(),
            target == matched_views(found@),
            rule_views(rules@) == target.take(i as int),
        decreases found.len() - i,
    {
        let m = MatchedRule {
            line: found[i].line,
            pattern: found[i].pattern.clone(),
            owners: crate::owners::clone_strings(found[i].owners.as_slice()),
            active: found[i].active,
        };
        assert(m@ == target[i as int]);
        let ghost before = rule_views(rules@);
        rules.push(to_matching_rule(m));
        assert(rule_views(rules@) =~= before.push(target[i as int]));
        assert(target.take(i + 1) =~= target.take(i as int).push(target[i as int]));
        i = i + 1;
    }
    assert(target.take(found.len() as int) == target);
    rules
}

/// Explains the CODEOWNERS assignment of one path: its owners, and every
/// rule matching it with its line number (the last one active). When
/// `check_path` is set, `path_exists` tells whether the path exists, and a
/// missing path is refused.
pub fn explain_owners(path: &str, check_path: bool, path_exists: bool, src: &str) -> (r: Result<(Vec<String>, Vec<MatchingRule>), OwnersError>)
    ensures
        match r {
            Err(OwnersError::MissingPath(p)) => check_path && !path_exists && p@ == path@,
            Err(_) => false,
            Ok((owners, rules)) => {
                &&& !(check_path && !path_exists)
                &&& str_views(owners@) == spec_resolved_owners(src@, path@)
                &&& rule_views(rules@) == spec_explain(
                    spec_pattern_index(src@),
                    rule_patterns(spec_all_matching_rules(src@, path@)),
                )
            },
        },
{
    match check_path_exists(path, check_path, path_exists) {
        Err(e) => {
            return Err(e);
        },
        Ok(()) => {},
    }
    let ruleset = Rules::parse(src);
    let index = build_pattern_index(src);
    let owners = resolve_owners(&ruleset, path);
    let rules = get_all_matching_rules(&ruleset, &index, path);
    Ok((owners, rules))
}

/// The non-empty lines of a text, in order.
pub open spec fn nonempty_lines(ls: Seq<Seq<char>>) -> Seq<Seq<char>>
    decreases ls.len(),
{
    if ls.len() == 0 {
        seq![]
    } else {
        let prev = nonempty_lines(ls.drop_last());
        if ls.last().len() > 0 {
            prev.push(ls.last())
        } else {
            prev
        }
    }
}

/// The files named by a listing of tracked files, one per non-empty line.
pub fn parse_file_list(listing: &str) -> (files: Vec<String>)
    ensures
        str_views(files@) == nonempty_lines(spec_lines(listing@)),
{
    let cs = chars_of(listing);
    let lines = split_lines(&cs);
    let ghost ls = spec_lines(listing@);
    let mut files: Vec<String> = Vec::new();
    let mut i: usize = 0;
    while i < lines.len()
        invariant
            i <= lines.len(),
            ls == spec_lines(listing@),
            char_views(lines@) == ls,
            str_views(files@) == nonempty_lines(ls.take(i as int)),
        decreases lines.len() - i,
    {
        assert(ls.take(i + 1).drop_last() == ls.take(i as int));
        assert(ls[i as int] == lines@[i as int]@);
        if lines[i].len() > 0 {
            let f = string_of(&lines[i]);
            let ghost before = str_views(files@);
            files.push(f);
            assert(str_views(files@) =~= before.push(ls[i as int]));
        }
        assert(str_views(files@) =~= nonempty_lines(ls.take(i + 1)));
        i = i + 1;
    }
    assert(ls.take(lines.len() as int) == ls);
    files
}

/// Whether two lists of strings are equal.
pub fn strings_eq(a: &Vec<String>, b: &Vec<String>) -> (eq: bool)
    ensures
        eq == (str_views(a@) == str_views(b@)),
{
    if a.len() != b.len() {
        assert(str_views(a@).len() != str_views(b@).len());
        return false;
    }
    let mut i: usize = 0;
    while i < a.len()
        invariant
            i <= a.len(),
            a@.len() == b@.len(),
            forall|k: int| 0 <= k < i ==> a@[k]@ == b@[k]@,
        decreases a.len() - i,
    {
        if a[i] != b[i] {
            assert(str_views(a@)[i as int] != str_views(b@)[i as int]);
            return false;
        }
        i = i + 1;
    }
    assert(str_views(a@) =~= str_views(b@));
    true
}

/// The paths of `v` whose flag is set, in order.
fn keep_flagged(v: &Vec<String>, keep: &Vec<bool>) -> (kept: Vec<String>)
    requires
        keep@.len() == v@.len(),
        lex_strictly_sorted(str_views(v@)),
    ensures
        lex_strictly_sorted(str_views(kept@)),
        forall|p: Seq<char>| str_views(kept@).contains(p)
            <==> exists|k: int| 0 <= k < v@.len() && #[trigger] v@[k]@ == p && keep@[k],
{
    let ghost vs = str_views(v@);
    let mut kept: Vec<String> = Vec::new();
    let mut i: usize = 0;
    while i < v.len()
        invariant
            i <= v.len(),
            keep@.len() == v@.len(),
            vs == str_views(v@),
            lex_strictly_sorted(vs),
            lex_strictly_sorted(str_views(kept@)),
            forall|a: int, j: int| 0 <= a < kept@.len() && i <= j < vs.len()
                ==> crate::order::lex_lt(#[trigger] str_views(kept@)[a], #[trigger] vs[j]),
            forall|p: Seq<char>| str_views(kept@).contains(p)
                <==> exists|k: int| 0 <= k < i && #[trigger] v@[k]@ == p && keep@[k],
        decreases v.len() - i,
    {
        if keep[i] {
            let f = v[i].clone();
            let ghost before = str_views(kept@);
            kept.push(f);
            assert(str_views(kept@) =~= before.push(vs[i as int]));
            assert(lex_strictly_sorted(str_views(kept@))) by {
                assert forall|a: int, b: int| 0 <= a < b < kept@.len() implies
                    crate::order::lex_lt(#[trigger] str_views(kept@)[a], #[trigger] str_views(kept@)[b]) by {
                    assert(str_views(kept@)[a] == before[a] || a == before.len());
                    if b == before.len() {
                        assert(crate::order::lex_lt(before[a], vs[i as int]));
                    } else {
                        assert(str_views(kept@)[a] == before[a] && str_views(kept@)[b] == before[b]);
                    }
                }
            }
            assert forall|a: int, j: int| 0 <= a < kept@.len() && i + 1 <= j < vs.len()
                implies crate::order::lex_lt(#[trigger] str_views(kept@)[a], #[trigger] vs[j]) by {
                if a < before.len() {
                    assert(str_views(kept@)[a] == before[a]);
                    assert(crate::order::lex_lt(before[a], vs[j]));
                } else {
                    assert(str_views(kept@)[a] == vs[i as int]);
                }
            }
            assert forall|p: Seq<char>| str_views(kept@).contains(p)
                <==> exists|k: int| 0 <= k < i + 1 && #[trigger] v@[k]@ == p && keep@[k] by {
                if str_views(kept@).contains(p) {
                    let a = choose|a: int| 0 <= a < kept@.len() && str_views(kept@)[a] == p;
                    if a < before.len() {
                        assert(before[a] == p);
                        assert(before.contains(p));
                    } else {
                        assert(v@[i as int]@ == p);
                    }
                }
                if exists|k: int| 0 <= k < i + 1 && #[trigger] v@[k]@ == p && keep@[k] {
                    let k = choose|k: int| 0 <= k < i + 1 && #[trigger] v@[k]@ == p && keep@[k];
                    if k < i {
                        assert(before.contains(p));
                        let a = choose|a: int| 0 <= a < before.len() && before[a] == p;
                        assert(str_views(kept@)[a] == p);
                    } else {
                        assert(str_views(kept@)[before.len() as int] == p);
                    }
                }
            }
        } else {
            assert forall|p: Seq<char>| str_views(kept@).contains(p)
                <==> exists|k: int| 0 <= k < i + 1 && #[trigger] v@[k]@ == p && keep@[k] by {
                if exists|k: int| 0 <= k < i + 1 && #[trigger] v@[k]@ == p && keep@[k] {
                    let k = choose|k: int| 0 <= k < i + 1 && #[trigger] v@[k]@ == p && keep@[k];
                    assert(k < i);
                }
            }
        }
        i = i + 1;
    }
    kept
}

/// The result of diffing ownership between two refs.
#[derive(Debug)]
pub struct OwnersDiff {
    /// Files present in head but not base, with their head owners.
    pub added: Vec<(String, Vec<String>)>,
    /// Files present in base but not head, with their base owners.
    pub removed: Vec<(String, Vec<String>)>,
    /// Files with changed ownership: (path, base owners, head owners).
    pub changed: Vec<(String, Vec<String>, Vec<String>)>,
}

/// The paths of a list of (path, owners).
pub open spec fn pair_paths(v: Seq<(String, Vec<String>)>) -> Seq<Seq<char>> {
    Seq::new(v.len(), |i: int| v[i].0@)
}

/// The paths of a list of (path, base owners, head owners).
pub open spec fn triple_paths(v: Seq<(String, Vec<String>, Vec<String>)>) -> Seq<Seq<char>> {
    Seq::new(v.len(), |i: int| v[i].0@)
}

/// A file whose owners differ between the two CODEOWNERS sources.
pub open spec fn owners_differ(base_src: Seq<char>, head_src: Seq<char>, p: Seq<char>) -> bool {
    spec_resolved_owners(base_src, p) != spec_resolved_owners(head_src, p)
}

/// `d` is the ownership diff from the base files and CODEOWNERS source to
/// the head ones: the files only in head with their head owners, the files
/// only in base with their base owners, and the files in both whose owners
/// differ, each list strictly sorted by path.
pub open spec fn diff_spec(
    base_src: Seq<char>,
    head_src: Seq<char>,
    base: Seq<Seq<char>>,
    head: Seq<Seq<char>>,
    d: OwnersDiff,
) -> bool {
    &&& lex_strictly_sorted(pair_paths(d.added@))
    &&& forall|p: Seq<char>| #[trigger] pair_paths(d.added@).contains(p) <==> head.contains(p) && !base.contains(p)
    &&& forall|i: int| 0 <= i < d.added@.len()
        ==> str_views(#[trigger] d.added@[i].1@) == spec_resolved_owners(head_src, d.added@[i].0@)
    &&& lex_strictly_sorted(pair_paths(d.removed@))
    &&& forall|p: Seq<char>| #[trigger] pair_paths(d.removed@).contains(p) <==> base.contains(p) && !head.contains(p)
    &&& forall|i: int| 0 <= i < d.removed@.len()
        ==> str_views(#[trigger] d.removed@[i].1@) == spec_resolved_owners(base_src, d.removed@[i].0@)
    &&& lex_strictly_sorted(triple_paths(d.changed@))
    &&& forall|p: Seq<char>| #[trigger] triple_paths(d.changed@).contains(p)
        <==> base.contains(p) && head.contains(p) && owners_differ(base_src, head_src, p)
    &&& forall|i: int| 0 <= i < d.changed@.len() ==> {
        &&& str_views(#[trigger] d.changed@[i].1@) == spec_resolved_owners(base_src, d.changed@[i].0@)
        &&& str_views(d.changed@[i].2@) == spec_resolved_owners(head_src, d.changed@[i].0@)
    }
}

/// The owners that a table of files gives to `p` (at a position that holds
/// `p`; for a consistent table, any such position).
pub open spec fn owners_of(files: Seq<Seq<char>>, owners: Seq<Seq<Seq<char>>>, p: Seq<char>) -> Seq<Seq<char>> {
    owners[choose|k: int| 0 <= k < files.len() && files[k] == p]
}

/// A table of files and owners gives one owner list per file: where a file
/// occurs twice, its owners are the same.
pub open spec fn owners_consistent(files: Seq<Seq<char>>, owners: Seq<Seq<Seq<char>>>) -> bool {
    &&& owners.len() == files.len()
    &&& forall|a: int, b: int| 0 <= a < files.len() && 0 <= b < files.len() && files[a] == files[b]
        ==> #[trigger] owners[a] == #[trigger] owners[b]
}

/// The views of a list of owner lists.
pub open spec fn owner_lists(v: Seq<Vec<String>>) -> Seq<Seq<Seq<char>>> {
    Seq::new(v.len(), |i: int| str_views(v[i]@))
}

/// `d` is the ownership diff between two versions given as tables of files
/// and their owners: the files only in head with their head owners, the
/// files only in base with their base owners, and the files in both whose
/// owners differ, each list strictly sorted by path.
pub open spec fn diff_spec_given(
    base: Seq<Seq<char>>,
    base_owners: Seq<Seq<Seq<char>>>,
    head: Seq<Seq<char>>,
    head_owners: Seq<Seq<Seq<char>>>,
    d: OwnersDiff,
) -> bool {
    &&& lex_strictly_sorted(pair_paths(d.added@))
    &&& forall|p: Seq<char>| #[trigger] pair_paths(d.added@).contains(p) <==> head.contains(p) && !base.contains(p)
    &&& forall|i: int| 0 <= i < d.added@.len()
        ==> str_views(#[trigger] d.added@[i].1@) == owners_of(head, head_owners, d.added@[i].0@)
    &&& lex_strictly_sorted(pair_paths(d.removed@))
    &&& forall|p: Seq<char>| #[trigger] pair_paths(d.removed@).contains(p) <==> base.contains(p) && !head.contains(p)
    &&& forall|i: int| 0 <= i < d.removed@.len()
        ==> str_views(#[trigger] d.removed@[i].1@) == owners_of(base, base_owners, d.removed@[i].0@)
    &&& lex_strictly_sorted(triple_paths(d.changed@))
    &&& forall|p: Seq<char>| #[trigger] triple_paths(d.changed@).contains(p)
        <==> base.contains(p) && head.contains(p)
            && owners_of(base, base_owners, p) != owners_of(head, head_owners, p)
    &&& forall|i: int| 0 <= i < d.changed@.len() ==> {
        &&& str_views(#[trigger] d.changed@[i].1@) == owners_of(base, base_owners, d.changed@[i].0@)
        &&& str_views(d.changed@[i].2@) == owners_of(head, head_owners, d.changed@[i].0@)
    }
}

proof fn lemma_owners_of(files: Seq<Seq<char>>, owners: Seq<Seq<Seq<char>>>, k: int)
    requires
        owners_consistent(files, owners),
        0 <= k < files.len(),
    ensures
        owners_of(files, owners, files[k]) == owners[k],
{
    let j = choose|j: int| 0 <= j < files.len() && files[j] == files[k];
    assert(owners[j] == owners[k]);
}

/// Each of the selected paths with the owners that the table gives it, in order.
fn attach_owners(selected: &Vec<String>, files: &[String], owners: &[Vec<String>]) -> (v: Vec<(String, Vec<String>)>)
    requires
        owners_consistent(str_views(files@), owner_lists(owners@)),
        forall|p: Seq<char>| str_views(selected@).contains(p) ==> str_views(files@).contains(p),
    ensures
        pair_paths(v@) == str_views(selected@),
        forall|i: int| 0 <= i < v@.len() ==> str_views(#[trigger] v@[i].1@)
            == owners_of(str_views(files@), owner_lists(owners@), v@[i].0@),
{
    let ghost fs = str_views(files@);
    let ghost os = owner_lists(owners@);
    let mut v: Vec<(String, Vec<String>)> = Vec::new();
    let mut i: usize = 0;
    while i < selected.len()
        invariant
            i <= selected.len(),
            fs == str_views(files@),
            os == owner_lists(owners@),
            owners_consistent(fs, os),
            forall|p: Seq<char>| str_views(selected@).contains(p) ==> fs.contains(p),
            pair_paths(v@) == str_views(selected@).take(i as int),
            forall|j: int| 0 <= j < v@.len() ==> str_views(#[trigger] v@[j].1@) == owners_of(fs, os, v@[j].0@),
        decreases selected.len() - i,
    {
        assert(str_views(selected@)[i as int] == selected@[i as int]@);
        assert(str_views(selected@).contains(selected@[i as int]@));
        let k = find_path(files, &selected[i]);
        proof {
            lemma_owners_of(fs, os, k as int);
        }
        let f = selected[i].clone();
        let o = crate::owners::clone_strings(owners[k].as_slice());
        assert(str_views(o@) == os[k as int]);
        let ghost before = v@;
        v.push((f, o));
        assert(pair_paths(v@) =~= pair_paths(before).push(str_views(selected@)[i as int]));
        assert(str_views(selected@).take(i + 1) =~= str_views(selected@).take(i as int).push(str_views(selected@)[i as int]));
        assert forall|j: int| 0 <= j < v@.len() implies str_views(#[trigger] v@[j].1@) == owners_of(fs, os, v@[j].0@) by {
            if j < before.len() {
                assert(v@[j] == before[j]);
            }
        }
        i = i + 1;
    }
    assert(str_views(selected@).take(selected.len() as int) == str_views(selected@));
    v
}

/// Diffs ownership between two versions given as tables of files and their
/// owners (`base_owners[i]` for `base_files[i]`, `head_owners[j]` for
/// `head_files[j]`). New files get their head owners, deleted files their
/// base owners, and files present in both are reported when their owners
/// differ; each list is sorted by path.
pub fn diff_from_owners(
    base_files: &[String],
    base_owners: &[Vec<String>],
    head_files: &[String],
    head_owners: &[Vec<String>],
) -> (diff: OwnersDiff)
    requires
        owners_consistent(str_views(base_files@), owner_lists(base_owners@)),
        owners_consistent(str_views(head_files@), owner_lists(head_owners@)),
    ensures
        diff_spec_given(
            str_views(base_files@),
            owner_lists(base_owners@),
            str_views(head_files@),
            owner_lists(head_owners@),
            diff,
        ),
{
    let ghost base = str_views(base_files@);
    let ghost head = str_views(head_files@);
    let ghost bo = owner_lists(base_owners@);
    let ghost ho = owner_lists(head_owners@);
    let base_sorted = sorted_unique(base_files);
    let head_sorted = sorted_unique(head_files);

    let mut keep_added: Vec<bool> = Vec::new();
    let mut i: usize = 0;
    while i < head_sorted.len()
        invariant
            i <= head_sorted.len(),
            keep_added@.len() == i,
            base == str_views(base_files@),
            forall|k: int| 0 <= k < i ==> keep_added@[k] == !base.contains(#[trigger] head_sorted@[k]@),
        decreases head_sorted.len() - i,
    {
        keep_added.push(!contains_str(base_files, &head_sorted[i]));
        i = i + 1;
    }
    let added_files = keep_flagged(&head_sorted, &keep_added);

    let mut keep_removed: Vec<bool> = Vec::new();
    let mut keep_changed: Vec<bool> = Vec::new();
    let mut i: usize = 0;
    while i < base_sorted.len()
        invariant
            i <= base_sorted.len(),
            keep_removed@.len() == i,
            keep_changed@.len() == i,
            base == str_views(base_files@),
            head == str_views(head_files@),
            bo == owner_lists(base_owners@),
            ho == owner_lists(head_owners@),
            owners_consistent(base, bo),
            owners_consistent(head, ho),
            forall|p: Seq<char>| str_views(base_sorted@).contains(p) <==> base.contains(p),
            forall|k: int| 0 <= k < i ==> keep_removed@[k] == !head.contains(#[trigger] base_sorted@[k]@),
            forall|k: int| 0 <= k < i ==> keep_changed@[k] == (head.contains(#[trigger] base_sorted@[k]@)
                && owners_of(base, bo, base_sorted@[k]@) != owners_of(head, ho, base_sorted@[k]@)),
        decreases base_sorted.len() - i,
    {
        let in_head = contains_str(head_files, &base_sorted[i]);
        keep_removed.push(!in_head);
        if in_head {
            assert(str_views(base_sorted@)[i as int] == base_sorted@[i as int]@);
            assert(str_views(base_sorted@).contains(base_sorted@[i as int]@));
            let kb = find_path(base_files, &base_sorted[i]);
            let kh = find_path(head_files, &base_sorted[i]);
            proof {
                lemma_owners_of(base, bo, kb as int);
                lemma_owners_of(head, ho, kh as int);
            }
            keep_changed.push(!strings_eq(&base_owners[kb], &head_owners[kh]));
        } else {
            keep_changed.push(false);
        }
        i = i + 1;
    }
    let removed_files = keep_flagged(&base_sorted, &keep_removed);
    let changed_files = keep_flagged(&base_sorted, &keep_changed);

    proof {
        assert forall|p: Seq<char>| str_views(added_files@).contains(p) implies head.contains(p) by {
            let k = choose|k: int| 0 <= k < head_sorted@.len() && #[trigger] head_sorted@[k]@ == p && keep_added@[k];
            assert(str_views(head_sorted@)[k] == p);
        }
        assert forall|p: Seq<char>| str_views(removed_files@).contains(p) implies base.contains(p) by {
            let k = choose|k: int| 0 <= k < base_sorted@.len() && #[trigger] base_sorted@[k]@ == p && keep_removed@[k];
            assert(str_views(base_sorted@)[k] == p);
        }
        assert forall|p: Seq<char>| str_views(changed_files@).contains(p) implies base.contains(p) && head.contains(p) by {
            let k = choose|k: int| 0 <= k < base_sorted@.len() && #[trigger] base_sorted@[k]@ == p && keep_changed@[k];
            assert(str_views(base_sorted@)[k] == p);
        }
    }
    let added = attach_owners(&added_files, head_files, head_owners);
    let removed = attach_owners(&removed_files, base_files, base_owners);
    let changed_base = attach_owners(&changed_files, base_files, base_owners);
    let changed_head = attach_owners(&changed_files, head_files, head_owners);

    assert(pair_paths(changed_base@).len() == changed_base@.len());
    assert(pair_paths(changed_head@).len() == changed_head@.len());
    let mut changed: Vec<(String, Vec<String>, Vec<String>)> = Vec::new();
    let mut i: usize = 0;
    while i < changed_files.len()
        invariant
            i <= changed_files.len(),
            pair_paths(changed_base@) == str_views(changed_files@),
            pair_paths(changed_head@) == str_views(changed_files@),
            changed_base@.len() == changed_files@.len(),
            changed_head@.len() == changed_files@.len(),
            forall|j: int| 0 <= j < changed_base@.len() ==> str_views(#[trigger] changed_base@[j].1@)
                == owners_of(base, bo, changed_base@[j].0@),
            forall|j: int| 0 <= j < changed_head@.len() ==> str_views(#[trigger] changed_head@[j].1@)
                == owners_of(head, ho, changed_head@[j].0@),
            triple_paths(changed@) == str_views(changed_files@).take(i as int),
            forall|j: int| 0 <= j < changed@.len() ==> {
                &&& str_views(#[trigger] changed@[j].1@) == owners_of(base, bo, changed@[j].0@)
                &&& str_views(changed@[j].2@) == owners_of(head, ho, changed@[j].0@)
            },
        decreases changed_files.len() - i,
    {
        assert(pair_paths(changed_base@)[i as int] == pair_paths(changed_head@)[i as int]);
        let f = changed_files[i].clone();
        let b = crate::owners::clone_strings(changed_base[i].1.as_slice());
        let h = crate::owners::clone_strings(changed_head[i].1.as_slice());
        assert(f@ == changed_base@[i as int].0@ && f@ == changed_head@[i as int].0@);
        let ghost before = changed@;
        changed.push((f, b, h));
        assert(triple_paths(changed@) =~= triple_paths(before).push(str_views(changed_files@)[i as int]));
        assert(str_views(changed_files@).take(i + 1)
            =~= str_views(changed_files@).take(i as int).push(str_views(changed_files@)[i as int]));
        assert forall|j: int| 0 <= j < changed@.len() implies {
            &&& str_views(#[trigger] changed@[j].1@) == owners_of(base, bo, changed@[j].0@)
            &&& str_views(changed@[j].2@) == owners_of(head, ho, changed@[j].0@)
        } by {
            if j < before.len() {
                assert(changed@[j] == before[j]);
            }
        }
        i = i + 1;
    }
    assert(str_views(changed_files@).take(changed_files.len() as int) == str_views(changed_files@));

    assert(lex_strictly_sorted(pair_paths(added@)));
    assert(lex_strictly_sorted(pair_paths(removed@)));
    assert(lex_strictly_sorted(triple_paths(changed@)));
    let diff = OwnersDiff { added, removed, changed };
    proof {
        assert forall|p: Seq<char>| #[trigger] pair_paths(diff.added@).contains(p) <==> head.contains(p) && !base.contains(p) by {
            if head.contains(p) && !base.contains(p) {
                assert(str_views(head_sorted@).contains(p));
                let k = choose|k: int| 0 <= k < head_sorted@.len() && str_views(head_sorted@)[k] == p;
                assert(head_sorted@[k]@ == p);
            }
            if pair_paths(diff.added@).contains(p) {
                assert(str_views(added_files@).contains(p));
                let k = choose|k: int| 0 <= k < head_sorted@.len() && #[trigger] head_sorted@[k]@ == p && keep_added@[k];
                assert(str_views(head_sorted@)[k] == p);
            }
        }
        assert forall|p: Seq<char>| #[trigger] pair_paths(diff.removed@).contains(p) <==> base.contains(p) && !head.contains(p) by {
            if base.contains(p) && !head.contains(p) {
                assert(str_views(base_sorted@).contains(p));
                let k = choose|k: int| 0 <= k < base_sorted@.len() && str_views(base_sorted@)[k] == p;
                assert(base_sorted@[k]@ == p);
            }
            if pair_paths(diff.removed@).contains(p) {
                assert(str_views(removed_files@).contains(p));
                let k = choose|k: int| 0 <= k < base_sorted@.len() && #[trigger] base_sorted@[k]@ == p && keep_removed@[k];
                assert(str_views(base_sorted@)[k] == p);
            }
        }
        assert forall|p: Seq<char>| #[trigger] triple_paths(diff.changed@).contains(p)
            <==> base.contains(p) && head.contains(p) && owners_of(base, bo, p) != owners_of(head, ho, p) by {
            if base.contains(p) && head.contains(p) && owners_of(base, bo, p) != owners_of(head, ho, p) {
                assert(str_views(base_sorted@).contains(p));
                let k = choose|k: int| 0 <= k < base_sorted@.len() && str_views(base_sorted@)[k] == p;
                assert(base_sorted@[k]@ == p);
            }
            if triple_paths(diff.changed@).contains(p) {
                assert(str_views(changed_files@).contains(p));
                let k = choose|k: int| 0 <= k < base_sorted@.len() && #[trigger] base_sorted@[k]@ == p && keep_changed@[k];
                assert(str_views(base_sorted@)[k] == p);
            }
        }
    }
    diff
}

/// The owners of each file under a rule set, in order.
fn owners_table(files: &[String], ruleset: &Rules) -> (owners: Vec<Vec<String>>)
    ensures
        owners@.len() == files@.len(),
        forall|i: int| 0 <= i < files@.len()
            ==> #[trigger] owner_lists(owners@)[i] == spec_resolved_owners(ruleset@, files@[i]@),
{
    let mut owners: Vec<Vec<String>> = Vec::new();
    let mut i: usize = 0;
    while i < files.len()
        invariant
            i <= files.len(),
            owners@.len() == i,
            forall|j: int| 0 <= j < i
                ==> #[trigger] owner_lists(owners@)[j] == spec_resolved_owners(ruleset@, files@[j]@),
        decreases files.len() - i,
    {
        let o = resolve_owners(ruleset, files[i].as_str());
        let ghost before = owners@;
        owners.push(o);
        assert forall|j: int| 0 <= j < i + 1
            implies #[trigger] owner_lists(owners@)[j] == spec_resolved_owners(ruleset@, files@[j]@) by {
            if j < i {
                assert(owners@[j] == before[j]);
                assert(owner_lists(before)[j] == spec_resolved_owners(ruleset@, files@[j]@));
            }
        }
        i = i + 1;
    }
    owners
}

proof fn lemma_resolved_table(src: Seq<char>, files: Seq<String>, owners: Seq<Vec<String>>)
    requires
        owners.len() == files.len(),
        forall|i: int| 0 <= i < files.len() ==> #[trigger] owner_lists(owners)[i] == spec_resolved_owners(src, files[i]@),
    ensures
        owners_consistent(str_views(files), owner_lists(owners)),
        forall|p: Seq<char>| str_views(files).contains(p)
            ==> #[trigger] owners_of(str_views(files), owner_lists(owners), p) == spec_resolved_owners(src, p),
{
    assert forall|a: int, b: int| 0 <= a < files.len() && 0 <= b < files.len()
        && str_views(files)[a] == str_views(files)[b]
        implies #[trigger] owner_lists(owners)[a] == #[trigger] owner_lists(owners)[b] by {
        assert(owner_lists(owners)[a] == spec_resolved_owners(src, files[a]@));
        assert(owner_lists(owners)[b] == spec_resolved_owners(src, files[b]@));
    }
    assert forall|p: Seq<char>| str_views(files).contains(p)
        implies #[trigger] owners_of(str_views(files), owner_lists(owners), p) == spec_resolved_owners(src, p) by {
        let j = choose|j: int| 0 <= j < files.len() && str_views(files)[j] == p;
        assert(owner_lists(owners)[j] == spec_resolved_owners(src, files[j]@));
    }
}

/// Diffs code ownership between two versions of a repository, given the
/// CODEOWNERS source and the tracked files of each: looks up each file's
/// owners on its side and diffs the two tables (see `diff_from_owners`).
pub fn get_diff(base_src: &str, head_src: &str, base_files: &[String], head_files: &[String]) -> (diff: OwnersDiff)
    ensures
        diff_spec(base_src@, head_src@, str_views(base_files@), str_views(head_files@), diff),
{
    let base_rules = Rules::parse(base_src);
    let head_rules = Rules::parse(head_src);
    let base_owners = owners_table(base_files, &base_rules);
    let head_owners = owners_table(head_files, &head_rules);
    proof {
        lemma_resolved_table(base_src@, base_files@, base_owners@);
        lemma_resolved_table(head_src@, head_files@, head_owners@);
    }
    let diff = diff_from_owners(base_files, base_owners.as_slice(), head_files, head_owners.as_slice());
    let ghost base = str_views(base_files@);
    let ghost head = str_views(head_files@);
    let ghost bo = owner_lists(base_owners@);
    let ghost ho = owner_lists(head_owners@);
    proof {
        assert forall|i: int| 0 <= i < diff.added@.len()
            implies str_views(#[trigger] diff.added@[i].1@) == spec_resolved_owners(head_src@, diff.added@[i].0@) by {
            assert(pair_paths(diff.added@)[i] == diff.added@[i].0@);
            assert(pair_paths(diff.added@).contains(diff.added@[i].0@));
        }
        assert forall|i: int| 0 <= i < diff.removed@.len()
            implies str_views(#[trigger] diff.removed@[i].1@) == spec_resolved_owners(base_src@, diff.removed@[i].0@) by {
            assert(pair_paths(diff.removed@)[i] == diff.removed@[i].0@);
            assert(pair_paths(diff.removed@).contains(diff.removed@[i].0@));
        }
        assert forall|i: int| 0 <= i < diff.changed@.len() implies {
            &&& str_views(#[trigger] diff.changed@[i].1@) == spec_resolved_owners(base_src@, diff.changed@[i].0@)
            &&& str_views(diff.changed@[i].2@) == spec_resolved_owners(head_src@, diff.changed@[i].0@)
        } by {
            assert(triple_paths(diff.changed@)[i] == diff.changed@[i].0@);
            assert(triple_paths(diff.changed@).contains(diff.changed@[i].0@));
        }
        assert forall|p: Seq<char>| #[trigger] triple_paths(diff.changed@).contains(p)
            <==> base.contains(p) && head.contains(p) && owners_differ(base_src@, head_src@, p) by {
            if base.contains(p) && head.contains(p) {
                assert(owners_of(base, bo, p) == spec_resolved_owners(base_src@, p));
                assert(owners_of(head, ho, p) == spec_resolved_owners(head_src@, p));
            }
        }
    }
    diff
}

} // verus!
