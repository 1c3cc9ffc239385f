//! The CODEOWNERS rule matcher of `codeowners_rs`, held together with the
//! source text that it was parsed from.
//!
//! Parsing and glob matching are done by `codeowners_rs`; what its calls
//! return is a function of the CODEOWNERS source and the path alone, so each
//! query is stated over a name applied to those two plain values.
use vstd::prelude::*;
use codeowners_rs::RuleSet;
use crate::text::str_views;

verus! {

#[verifier::external_type_specification]
#[verifier::external_body]
pub struct ExRuleSet(codeowners_rs::RuleSet);

/// The rule that `codeowners_rs` picks for `path` in the rule set parsed
/// from `src` (its pattern and the values of its owners), if any.
pub uninterp spec fn spec_matching_rule(src: Seq<char>, path: Seq<char>) -> Option<(Seq<char>, Seq<Seq<char>>)>;

/// Every rule of the set parsed from `src` that matches `path`, each with its
/// index in the set and its pattern, in the order `codeowners_rs` gives them.
pub uninterp spec fn spec_all_matching_rules(src: Seq<char>, path: Seq<char>) -> Seq<(int, Seq<char>)>;

/// The owners that `codeowners_rs` gives for `path`: those of the matching
/// rule, or none when no rule matches.
pub open spec fn spec_resolved_owners(src: Seq<char>, path: Seq<char>) -> Seq<Seq<char>> {
    match spec_matching_rule(src, path) {
        Some(rule) => rule.1,
        None => seq![],
    }
}

/// The patterns of a sequence of matching rules.
pub open spec fn rule_patterns(m: Seq<(int, Seq<char>)>) -> Seq<Seq<char>> {
    Seq::new(m.len(), |i: int| m[i].1)
}

/// A CODEOWNERS rule set parsed by `codeowners_rs`, together with the source
/// text that it was parsed from. Its view is that source. Both fields are
/// private and set together only by `Rules::parse`, so the rule set is always
/// the one parsed from the source; the queries below are stated on that.
pub struct Rules {
    source: String,
    set: RuleSet,
}

impl View for Rules {
    type V = Seq<char>;

    closed spec fn view(&self) -> Seq<char> {
        self.source@
    }
}

/// Calls `codeowners_rs::parse` on `src` and turns the parse result into a
/// `RuleSet` with `ParseResult::into_ruleset`, which drops the parse errors.
/// Nothing is claimed of the result here: what the queries below return is
/// stated over the source that the set was parsed from.
#[verifier::external_body]
fn parse_rule_set(src: &str) -> RuleSet {
    codeowners_rs::parse(src).into_ruleset()
}

/// Calls `RuleSet::matching_rule`, and hands out the pattern and the owner
/// values of the rule it returns. Claimed: the result is
/// `spec_matching_rule` of the set's source and the path.
#[verifier::external_body]
pub(crate) fn set_matching_rule(rules: &Rules, path: &str) -> (r: Option<(String, Vec<String>)>)
    ensures
        match r {
            Some(rule) => spec_matching_rule(rules@, path@) == Some((rule.0@, str_views(rule.1@))),
            None => spec_matching_rule(rules@, path@) is None,
        },
{
    rules.set.matching_rule(path).map(|rule| (rule.pattern.clone(), rule.owners.iter().map(|o| o.value.clone()).collect()))
}

/// Calls `RuleSet::all_matching_rules`, and hands out each rule's index and
/// pattern. Claimed: the result is `spec_all_matching_rules` of the set's
/// source and the path. Its source computes this list and `matching_rule`
/// from the same `matching_patterns` of the matcher, `matching_rule` taking
/// the rule with the highest index; so also claimed: the list is empty
/// exactly when no rule wins, and otherwise a highest-index entry has the
/// winning rule's pattern.
#[verifier::external_body]
pub(crate) fn set_all_matching_rules(rules: &Rules, path: &str) -> (r: Vec<(usize, String)>)
    ensures
        r@.len() == spec_all_matching_rules(rules@, path@).len(),
        forall|i: int| 0 <= i < r@.len() ==> {
            &&& r@[i].0 as int == spec_all_matching_rules(rules@, path@)[i].0
            &&& r@[i].1@ == spec_all_matching_rules(rules@, path@)[i].1
        },
        match spec_matching_rule(rules@, path@) {
            None => r@.len() == 0,
            Some(w) => exists|k: int| 0 <= k < r@.len() && (#[trigger] r@[k]).1@ == w.0
                && forall|j: int| 0 <= j < r@.len() ==> (#[trigger] r@[j]).0 <= r@[k].0,
        },
{
    rules.set.all_matching_rules(path).into_iter().map(|(i, rule)| (i, rule.pattern.clone())).collect()
}

/// Calls `RuleSet::owners` and hands out the owner values. Its source defines
/// it as the owners of `matching_rule`, or `None` when no rule matches or the
/// matching rule has no owners; that is what is claimed.
#[verifier::external_body]
pub(crate) fn set_owners(rules: &Rules, path: &str) -> (r: Option<Vec<String>>)
    ensures
        match r {
            Some(owners) => spec_matching_rule(rules@, path@) matches Some(rule)
                && rule.1.len() > 0 && str_views(owners@) == rule.1,
            None => spec_matching_rule(rules@, path@) matches Some(rule) ==> rule.1.len() == 0,
        },
{
    rules.set.owners(path).map(|owners| owners.iter().map(|o| o.value.clone()).collect())
}

impl Rules {
    /// Parses a CODEOWNERS source into a rule set; parse errors are ignored,
    /// as `ParseResult::into_ruleset` ignores them.
    pub fn parse(src: &str) -> (rules: Rules)
        ensures
            rules@ == src@,
    {
        Rules { source: src.to_owned(), set: parse_rule_set(src) }
    }
}

} // verus!
