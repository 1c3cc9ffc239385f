//! Properties of the library that span several calls or every input.
use vstd::prelude::*;
use crate::api::{
    MatchingRule, OwnersDiff, diff_spec, owners_differ, pair_paths, spec_matches_filter,
    spec_selected, triple_paths,
};
use crate::cli::{
    changed_rows, digit_char, explain_rows, file_rows, spec_decimal, spec_format_owners, spec_join,
    spec_unowned_count,
};
use crate::order::{lemma_lex_irreflexive, lemma_lex_transitive, lex_strictly_sorted};
use crate::owners::{
    IndexEntryView, RuleView, index_entries, line_rule, count_of, diff_lines, is_changed_line, is_meaningful, lcs_len, meaningful_lines,
    spec_meaningful, lemma_index_entries_lines, lines_increasing, occurrences,
    spec_pattern_index, spec_rule_for_pattern,
};
use crate::text::{spec_lines, spec_tokens, spec_trim, str_views};

verus! {

proof fn lemma_diff_of_same(a: Seq<Seq<char>>)
    ensures
        diff_lines(a, a).len() == 0,
    decreases a.len(),
{
    if a.len() > 0 {
        lemma_diff_of_same(a.drop_last());
    }
}

/// Comparing a CODEOWNERS source with itself finds no changed line.
pub proof fn law_changed_lines_of_identical_sources(src: Seq<char>, l: Seq<char>)
    ensures
        !is_changed_line(src, src, l),
{
    lemma_diff_of_same(spec_meaningful(src));
}

proof fn lemma_count_push(s: Seq<Seq<char>>, x: Seq<char>, l: Seq<char>)
    ensures
        count_of(s.push(x), l) == count_of(s, l) + if x == l { 1nat } else { 0nat },
{
    assert(s.push(x).drop_last() =~= s);
}

proof fn lemma_count_positive_contains(s: Seq<Seq<char>>, x: Seq<char>)
    requires
        count_of(s, x) > 0,
    ensures
        s.contains(x),
    decreases s.len(),
{
    if s.last() == x {
        assert(s[s.len() - 1] == x);
    } else {
        lemma_count_positive_contains(s.drop_last(), x);
        let i = choose|i: int| 0 <= i < s.drop_last().len() && s.drop_last()[i] == x;
        assert(s[i] == x);
    }
}

proof fn lemma_diff_counts(a: Seq<Seq<char>>, b: Seq<Seq<char>>, l: Seq<char>)
    ensures
        count_of(a, l) <= count_of(diff_lines(a, b), l) + count_of(b, l),
        count_of(b, l) <= count_of(diff_lines(a, b), l) + count_of(a, l),
    decreases a.len() + b.len(),
{
    if a.len() == 0 || b.len() == 0 {
    } else if a.last() == b.last() {
        lemma_diff_counts(a.drop_last(), b.drop_last(), l);
    } else if lcs_len(a.drop_last(), b) >= lcs_len(a, b.drop_last()) {
        lemma_diff_counts(a.drop_last(), b, l);
        lemma_count_push(diff_lines(a.drop_last(), b), a.last(), l);
    } else {
        lemma_diff_counts(a, b.drop_last(), l);
        lemma_count_push(diff_lines(a, b.drop_last()), b.last(), l);
    }
}

/// A rule line that occurs a different number of times in the two sources
/// (one that was added or removed) is always reported as changed.
pub proof fn law_changed_lines_include_count_changes(base: Seq<char>, head: Seq<char>, l: Seq<char>)
    requires
        count_of(spec_meaningful(base), l) != count_of(spec_meaningful(head), l),
    ensures
        is_changed_line(base, head, l),
{
    let a = spec_meaningful(base);
    let b = spec_meaningful(head);
    lemma_diff_counts(a, b, l);
    lemma_count_positive_contains(diff_lines(a, b), l);
}

/// A line that carries no rule: blank, whitespace only, or a comment once trimmed.
pub open spec fn ignorable(l: Seq<char>) -> bool {
    !is_meaningful(spec_trim(l))
}

/// `padded` is `lines` with ignorable lines inserted anywhere and with
/// whitespace added around (or taken from) any of its lines.
pub open spec fn padded_lines(padded: Seq<Seq<char>>, lines: Seq<Seq<char>>) -> bool
    decreases padded.len(),
{
    if padded.len() == 0 {
        lines.len() == 0
    } else {
        ||| ignorable(padded.last()) && padded_lines(padded.drop_last(), lines)
        ||| lines.len() > 0 && spec_trim(padded.last()) == spec_trim(lines.last())
            && padded_lines(padded.drop_last(), lines.drop_last())
    }
}

proof fn lemma_padded_meaningful(padded: Seq<Seq<char>>, lines: Seq<Seq<char>>)
    requires
        padded_lines(padded, lines),
    ensures
        meaningful_lines(padded) == meaningful_lines(lines),
    decreases padded.len(),
{
    if padded.len() > 0 {
        if ignorable(padded.last()) && padded_lines(padded.drop_last(), lines) {
            lemma_padded_meaningful(padded.drop_last(), lines);
        } else {
            lemma_padded_meaningful(padded.drop_last(), lines.drop_last());
        }
    }
}

/// Inserting blank, whitespace-only or comment lines into either source, or
/// adding whitespace around their lines, does not change which lines count
/// as changed.
pub proof fn law_changed_lines_ignore_padding(
    base: Seq<char>,
    head: Seq<char>,
    base2: Seq<char>,
    head2: Seq<char>,
    l: Seq<char>,
)
    requires
        padded_lines(spec_lines(base2), spec_lines(base)),
        padded_lines(spec_lines(head2), spec_lines(head)),
    ensures
        is_changed_line(base2, head2, l) == is_changed_line(base, head, l),
{
    lemma_padded_meaningful(spec_lines(base2), spec_lines(base));
    lemma_padded_meaningful(spec_lines(head2), spec_lines(head));
}

/// Two results of `changed_codeowners_lines` (each without duplicates and
/// holding exactly the changed lines of its sources), for sources that
/// differ only by ignorable lines and surrounding whitespace, have the same
/// length and the same elements.
pub proof fn law_changed_lines_results_ignore_padding(
    base: Seq<char>,
    head: Seq<char>,
    base2: Seq<char>,
    head2: Seq<char>,
    changed: Seq<Seq<char>>,
    changed2: Seq<Seq<char>>,
)
    requires
        padded_lines(spec_lines(base2), spec_lines(base)),
        padded_lines(spec_lines(head2), spec_lines(head)),
        changed.no_duplicates(),
        changed2.no_duplicates(),
        forall|l: Seq<char>| changed.contains(l) <==> is_changed_line(base, head, l),
        forall|l: Seq<char>| changed2.contains(l) <==> is_changed_line(base2, head2, l),
    ensures
        changed2.len() == changed.len(),
        forall|l: Seq<char>| changed2.contains(l) <==> changed.contains(l),
{
    assert forall|l: Seq<char>| changed2.contains(l) <==> changed.contains(l) by {
        law_changed_lines_ignore_padding(base, head, base2, head2, l);
    }
    changed.unique_seq_to_set();
    changed2.unique_seq_to_set();
    assert(changed.to_set() =~= changed2.to_set());
}

/// With an empty owner filter every path is selected, in order.
pub proof fn law_empty_filter_selects_every_path(src: Seq<char>, paths: Seq<Seq<char>>)
    ensures
        spec_selected(src, paths, seq![]) == paths,
    decreases paths.len(),
{
    if paths.len() > 0 {
        law_empty_filter_selects_every_path(src, paths.drop_last());
        assert(spec_matches_filter(crate::api::spec_active_rule(src, paths.last()), seq![]));
        assert(paths.drop_last().push(paths.last()) =~= paths);
    }
}

proof fn lemma_occurrences_increasing(es: Seq<IndexEntryView>, p: Seq<char>)
    requires
        lines_increasing(es),
    ensures
        forall|a: int, b: int| 0 <= a < b < occurrences(es, p).len()
            ==> #[trigger] occurrences(es, p)[a].0 < #[trigger] occurrences(es, p)[b].0,
        forall|a: int| 0 <= a < occurrences(es, p).len()
            ==> exists|j: int| 0 <= j < es.len() && #[trigger] occurrences(es, p)[a].0 == es[j].0,
    decreases es.len(),
{
    if es.len() > 0 {
        let prev = occurrences(es.drop_last(), p);
        assert(lines_increasing(es.drop_last()));
        lemma_occurrences_increasing(es.drop_last(), p);
        assert forall|a: int| 0 <= a < prev.len()
            implies exists|j: int| 0 <= j < es.len() - 1 && #[trigger] prev[a].0 == es[j].0 by {
            let j = choose|j: int| 0 <= j < es.drop_last().len() && prev[a].0 == es.drop_last()[j].0;
            assert(es.drop_last()[j] == es[j]);
        }
        if es.last().1 == p {
            let occ = occurrences(es, p);
            assert(occ == prev.push((es.last().0, es.last().2)));
            assert forall|a: int, b: int| 0 <= a < b < occ.len() implies
                #[trigger] occ[a].0 < #[trigger] occ[b].0 by {
                if b == prev.len() {
                    let j = choose|j: int| 0 <= j < es.len() - 1 && #[trigger] prev[a].0 == es[j].0;
                    assert(es[j].0 < es[es.len() - 1].0);
                } else {
                    assert(occ[a] == prev[a] && occ[b] == prev[b]);
                }
            }
            assert forall|a: int| 0 <= a < occ.len()
                implies exists|j: int| 0 <= j < es.len() && #[trigger] occ[a].0 == es[j].0 by {
                if a == prev.len() {
                    assert(occ[a].0 == es[es.len() - 1].0);
                } else {
                    let j = choose|j: int| 0 <= j < es.len() - 1 && #[trigger] prev[a].0 == es[j].0;
                    assert(occ[a] == prev[a]);
                }
            }
        }
    }
}

/// Last match wins: the rule that a pattern resolves to is at the last line
/// where that pattern occurs in the CODEOWNERS source.
pub proof fn law_resolved_rule_is_last_occurrence(src: Seq<char>, p: Seq<char>)
    requires
        occurrences(spec_pattern_index(src), p).len() > 0,
    ensures
        forall|k: int| 0 <= k < occurrences(spec_pattern_index(src), p).len()
            ==> #[trigger] occurrences(spec_pattern_index(src), p)[k].0
                <= spec_rule_for_pattern(spec_pattern_index(src), p).0,
{
    lemma_index_entries_lines(crate::text::spec_lines(src));
    lemma_occurrences_increasing(spec_pattern_index(src), p);
    let occ = occurrences(spec_pattern_index(src), p);
    assert forall|k: int| 0 <= k < occ.len() implies #[trigger] occ[k].0 <= occ.last().0 by {
        if k < occ.len() - 1 {
            assert(occ[k].0 < occ[occ.len() - 1].0);
        }
    }
}

/// Two strictly sorted sequences with the same elements are equal.
pub proof fn lemma_strictly_sorted_unique(a: Seq<Seq<char>>, b: Seq<Seq<char>>)
    requires
        lex_strictly_sorted(a),
        lex_strictly_sorted(b),
        forall|x: Seq<char>| a.contains(x) <==> b.contains(x),
    ensures
        a == b,
    decreases a.len(),
{
    if a.len() == 0 {
        if b.len() > 0 {
            assert(b.contains(b[0]));
        }
        assert(a =~= b);
    } else if b.len() == 0 {
        assert(a.contains(a[0]));
    } else {
        if a[0] != b[0] {
            assert(a.contains(a[0]));
            let k = choose|k: int| 0 <= k < b.len() && b[k] == a[0];
            assert(b.contains(b[0]));
            let m = choose|m: int| 0 <= m < a.len() && a[m] == b[0];
            assert(k > 0 && m > 0);
            assert(crate::order::lex_lt(b[0], b[k]));
            assert(crate::order::lex_lt(a[0], a[m]));
            lemma_lex_transitive(a[0], b[0], a[0]);
            lemma_lex_irreflexive(a[0]);
        }
        let a1 = a.drop_first();
        let b1 = b.drop_first();
        assert forall|x: Seq<char>| a1.contains(x) <==> b1.contains(x) by {
            if a1.contains(x) {
                let i = choose|i: int| 0 <= i < a1.len() && a1[i] == x;
                assert(a[i + 1] == x);
                assert(crate::order::lex_lt(a[0], a[i + 1]));
                lemma_lex_irreflexive(x);
                assert(b.contains(x));
                let j = choose|j: int| 0 <= j < b.len() && b[j] == x;
                assert(j != 0);
                assert(b1[j - 1] == x);
            }
            if b1.contains(x) {
                let i = choose|i: int| 0 <= i < b1.len() && b1[i] == x;
                assert(b[i + 1] == x);
                assert(crate::order::lex_lt(b[0], b[i + 1]));
                lemma_lex_irreflexive(x);
                assert(a.contains(x));
                let j = choose|j: int| 0 <= j < a.len() && a[j] == x;
                assert(j != 0);
                assert(a1[j - 1] == x);
            }
        }
        assert(lex_strictly_sorted(a1)) by {
            assert forall|i: int, j: int| 0 <= i < j < a1.len() implies
                crate::order::lex_lt(#[trigger] a1[i], #[trigger] a1[j]) by {
                assert(a1[i] == a[i + 1] && a1[j] == a[j + 1]);
            }
        }
        assert(lex_strictly_sorted(b1)) by {
            assert forall|i: int, j: int| 0 <= i < j < b1.len() implies
                crate::order::lex_lt(#[trigger] b1[i], #[trigger] b1[j]) by {
                assert(b1[i] == b[i + 1] && b1[j] == b[j + 1]);
            }
        }
        lemma_strictly_sorted_unique(a1, b1);
        assert(a =~= b) by {
            assert forall|i: int| 0 <= i < a.len() implies a[i] == b[i] by {
                if i > 0 {
                    assert(a[i] == a1[i - 1] && b[i] == b1[i - 1]);
                }
            }
        }
    }
}

/// Diffing a version of a repository against itself reports nothing.
pub proof fn law_diff_of_identical_versions_is_empty(src: Seq<char>, files: Seq<Seq<char>>, d: OwnersDiff)
    requires
        diff_spec(src, src, files, files, d),
    ensures
        d.added@.len() == 0,
        d.removed@.len() == 0,
        d.changed@.len() == 0,
{
    if d.added@.len() > 0 {
        assert(pair_paths(d.added@).contains(pair_paths(d.added@)[0]));
    }
    if d.removed@.len() > 0 {
        assert(pair_paths(d.removed@).contains(pair_paths(d.removed@)[0]));
    }
    if d.changed@.len() > 0 {
        assert(triple_paths(d.changed@).contains(triple_paths(d.changed@)[0]));
    }
}

/// The views of a list of (path, owners).
pub open spec fn pair_views(v: Seq<(String, Vec<String>)>) -> Seq<(Seq<char>, Seq<Seq<char>>)> {
    Seq::new(v.len(), |i: int| (v[i].0@, str_views(v[i].1@)))
}

/// Swapping the two versions swaps the added and removed files, and swaps
/// the two owner lists of each changed file.
#[verifier::spinoff_prover]
pub proof fn law_diff_swapped_versions(
    base_src: Seq<char>,
    head_src: Seq<char>,
    base: Seq<Seq<char>>,
    head: Seq<Seq<char>>,
    forward: OwnersDiff,
    backward: OwnersDiff,
)
    requires
        diff_spec(base_src, head_src, base, head, forward),
        diff_spec(head_src, base_src, head, base, backward),
    ensures
        pair_views(forward.added@) == pair_views(backward.removed@),
        pair_views(forward.removed@) == pair_views(backward.added@),
        triple_paths(forward.changed@) == triple_paths(backward.changed@),
        forall|i: int| 0 <= i < forward.changed@.len() ==> {
            &&& str_views(#[trigger] forward.changed@[i].1@) == str_views(backward.changed@[i].2@)
            &&& str_views(forward.changed@[i].2@) == str_views(backward.changed@[i].1@)
        },
{
    lemma_strictly_sorted_unique(pair_paths(forward.added@), pair_paths(backward.removed@));
    lemma_strictly_sorted_unique(pair_paths(forward.removed@), pair_paths(backward.added@));
    assert forall|p: Seq<char>| triple_paths(forward.changed@).contains(p)
        <==> triple_paths(backward.changed@).contains(p) by {
        assert(owners_differ(base_src, head_src, p) == owners_differ(head_src, base_src, p));
    }
    lemma_strictly_sorted_unique(triple_paths(forward.changed@), triple_paths(backward.changed@));
    assert(pair_views(forward.added@) =~= pair_views(backward.removed@)) by {
        assert forall|i: int| 0 <= i < forward.added@.len() implies
            pair_views(forward.added@)[i] == pair_views(backward.removed@)[i] by {
            assert(pair_paths(forward.added@)[i] == pair_paths(backward.removed@)[i]);
            assert(str_views(forward.added@[i].1@) == crate::rules::spec_resolved_owners(head_src, forward.added@[i].0@));
            assert(str_views(backward.removed@[i].1@) == crate::rules::spec_resolved_owners(head_src, backward.removed@[i].0@));
        }
    }
    assert(pair_views(forward.removed@) =~= pair_views(backward.added@)) by {
        assert forall|i: int| 0 <= i < forward.removed@.len() implies
            pair_views(forward.removed@)[i] == pair_views(backward.added@)[i] by {
            assert(pair_paths(forward.removed@)[i] == pair_paths(backward.added@)[i]);
            assert(str_views(forward.removed@[i].1@) == crate::rules::spec_resolved_owners(base_src, forward.removed@[i].0@));
            assert(str_views(backward.added@[i].1@) == crate::rules::spec_resolved_owners(base_src, backward.added@[i].0@));
        }
    }
    assert forall|i: int| 0 <= i < forward.changed@.len() implies {
        &&& str_views(#[trigger] forward.changed@[i].1@) == str_views(backward.changed@[i].2@)
        &&& str_views(forward.changed@[i].2@) == str_views(backward.changed@[i].1@)
    } by {
        assert(triple_paths(forward.changed@)[i] == triple_paths(backward.changed@)[i]);
        assert(i < backward.changed@.len());
        assert(forward.changed@[i].0@ == backward.changed@[i].0@);
        assert(str_views(forward.changed@[i].1@) == crate::rules::spec_resolved_owners(base_src, forward.changed@[i].0@));
        assert(str_views(backward.changed@[i].1@) == crate::rules::spec_resolved_owners(head_src, backward.changed@[i].0@));
        assert(str_views(forward.changed@[i].2@) == crate::rules::spec_resolved_owners(head_src, forward.changed@[i].0@));
        assert(str_views(backward.changed@[i].2@) == crate::rules::spec_resolved_owners(base_src, backward.changed@[i].0@));
    }
}

/// An owner filter keeps a rule when any one of the rule's owners, at any
/// position in its owner list, is listed in the filter.
pub proof fn law_filter_keeps_rule_with_listed_owner(rule: RuleView, filter: Seq<Seq<char>>, o: Seq<char>)
    requires
        rule.2.contains(o),
        filter.contains(o),
    ensures
        spec_matches_filter(Some(rule), filter),
{
}

/// A non-empty owner filter drops a rule with owners when none of them is
/// listed in the filter.
pub proof fn law_filter_drops_rule_without_listed_owner(rule: RuleView, filter: Seq<Seq<char>>)
    requires
        filter.len() > 0,
        rule.2.len() > 0,
        forall|o: Seq<char>| rule.2.contains(o) ==> !filter.contains(o),
    ensures
        !spec_matches_filter(Some(rule), filter),
{
}

/// The filter word `unowned` selects paths that no rule matches and paths
/// whose rule lists no owner.
pub proof fn law_unowned_filter_selects_ownerless(rule: Option<RuleView>, filter: Seq<Seq<char>>)
    requires
        filter.contains("unowned"@),
        match rule {
            Some(r) => r.2.len() == 0,
            None => true,
        },
    ensures
        spec_matches_filter(rule, filter),
{
}

/// A lookup result whose rule lists no owner, or that has no rule, is
/// counted as unowned.
pub proof fn law_ownerless_result_is_counted(results: Seq<(String, Option<MatchingRule>)>, i: int)
    requires
        0 <= i < results.len(),
        match results[i].1 {
            Some(r) => r.owners@.len() == 0,
            None => true,
        },
    ensures
        spec_unowned_count(results) >= 1,
    decreases results.len(),
{
    if i < results.len() - 1 {
        assert(results.drop_last()[i] == results[i]);
        law_ownerless_result_is_counted(results.drop_last(), i);
    }
}

/// No lookup result is counted as unowned exactly when every result has a
/// rule that lists at least one owner.
pub proof fn law_no_unowned_results(results: Seq<(String, Option<MatchingRule>)>)
    ensures
        spec_unowned_count(results) == 0 <==> forall|i: int| 0 <= i < results.len() ==> {
            &&& (#[trigger] results[i]).1 is Some
            &&& results[i].1.unwrap().owners@.len() > 0
        },
    decreases results.len(),
{
    if results.len() > 0 {
        law_no_unowned_results(results.drop_last());
        let all = forall|i: int| 0 <= i < results.len() ==> {
            &&& (#[trigger] results[i]).1 is Some
            &&& results[i].1.unwrap().owners@.len() > 0
        };
        if spec_unowned_count(results) == 0 {
            assert forall|i: int| 0 <= i < results.len() implies {
                &&& (#[trigger] results[i]).1 is Some
                &&& results[i].1.unwrap().owners@.len() > 0
            } by {
                if i < results.len() - 1 {
                    assert(results.drop_last()[i] == results[i]);
                } else {
                    assert(results[i] == results.last());
                }
            }
        }
        if all {
            assert forall|i: int| 0 <= i < results.drop_last().len() implies {
                &&& (#[trigger] results.drop_last()[i]).1 is Some
                &&& results.drop_last()[i].1.unwrap().owners@.len() > 0
            } by {
                assert(results.drop_last()[i] == results[i]);
            }
            assert(results[results.len() - 1] == results.last());
        }
    }
}

/// The value of a decimal digit character.
pub open spec fn digit_value(c: char) -> int {
    (c as int) - ('0' as int)
}

/// Whether a character is a decimal digit.
pub open spec fn is_digit(c: char) -> bool {
    ('0' as int) <= (c as int) <= ('9' as int)
}

/// The number that a string of decimal digits denotes.
pub open spec fn decimal_value(s: Seq<char>) -> int
    decreases s.len(),
{
    if s.len() == 0 {
        0
    } else {
        decimal_value(s.drop_last()) * 10 + digit_value(s.last())
    }
}

proof fn lemma_digit_char(d: nat)
    requires
        d < 10,
    ensures
        is_digit(digit_char(d)),
        digit_value(digit_char(d)) == d,
{
    assert(('0' as int) == 48 && ('1' as int) == 49 && ('2' as int) == 50 && ('3' as int) == 51
        && ('4' as int) == 52 && ('5' as int) == 53 && ('6' as int) == 54 && ('7' as int) == 55
        && ('8' as int) == 56 && ('9' as int) == 57);
}

/// The decimal notation of a number is a non-empty string of digits that
/// reads back as that number.
pub proof fn law_decimal_reads_back(n: nat)
    ensures
        spec_decimal(n).len() > 0,
        forall|j: int| 0 <= j < spec_decimal(n).len() ==> is_digit(#[trigger] spec_decimal(n)[j]),
        decimal_value(spec_decimal(n)) == n,
    decreases n,
{
    lemma_digit_char(n % 10);
    if n < 10 {
        let s = spec_decimal(n);
        assert(s.drop_last().len() == 0);
        assert(decimal_value(s.drop_last()) == 0);
        assert(s.last() == digit_char(n));
    } else {
        law_decimal_reads_back(n / 10);
        let s = spec_decimal(n);
        let prefix = spec_decimal(n / 10);
        assert(s.drop_last() =~= prefix);
        assert(s.last() == digit_char(n % 10));
        assert forall|j: int| 0 <= j < s.len() implies is_digit(#[trigger] s[j]) by {
            if j < prefix.len() {
                assert(s[j] == prefix[j]);
            }
        }
        assert(decimal_value(prefix) == n / 10);
        assert(digit_value(s.last()) == n % 10);
        assert(decimal_value(s) == decimal_value(s.drop_last()) * 10 + digit_value(s.last()));
        assert((n / 10) * 10 + n % 10 == n);
    }
}

/// Each row of the explain table shows, in its line column, the line number
/// of that row's own rule, in decimal digits.
pub proof fn law_explain_line_column(rules: Seq<RuleView>, k: int)
    requires
        0 <= k < rules.len(),
        rules[k].0 >= 0,
    ensures
        forall|j: int| 0 <= j < explain_rows(rules)[k][1].len()
            ==> is_digit(#[trigger] explain_rows(rules)[k][1][j]),
        decimal_value(explain_rows(rules)[k][1]) == rules[k].0,
        explain_rows(rules)[k][2] == rules[k].1,
{
    law_decimal_reads_back(rules[k].0 as nat);
}

/// Whether `needle` occurs as a contiguous piece of `hay`.
pub open spec fn occurs_in(needle: Seq<char>, hay: Seq<char>) -> bool {
    exists|p: int| 0 <= p && p + needle.len() <= hay.len() && #[trigger] hay.subrange(p, p + needle.len()) == needle
}

proof fn lemma_occurs_at(needle: Seq<char>, hay: Seq<char>, p: int)
    requires
        0 <= p,
        p + needle.len() <= hay.len(),
        hay.subrange(p, p + needle.len()) == needle,
    ensures
        occurs_in(needle, hay),
{
}

proof fn lemma_join_lists_each(xs: Seq<Seq<char>>, sep: Seq<char>, j: int)
    requires
        0 <= j < xs.len(),
    ensures
        occurs_in(xs[j], spec_join(xs, sep)),
    decreases xs.len(),
{
    let x = xs[j];
    if xs.len() == 1 {
        assert(spec_join(xs, sep).subrange(0, 0int + x.len()) =~= x);
        lemma_occurs_at(x, spec_join(xs, sep), 0);
    } else {
        let front = spec_join(xs.drop_last(), sep);
        let whole = spec_join(xs, sep);
        assert(whole == front + sep + xs.last());
        if j == xs.len() - 1 {
            let p: int = (front.len() + sep.len()) as int;
            assert(whole.subrange(p, p + x.len()) =~= x);
            lemma_occurs_at(x, whole, p);
        } else {
            assert(xs.drop_last()[j] == x);
            lemma_join_lists_each(xs.drop_last(), sep, j);
            let p = choose|p: int| 0 <= p && p + x.len() <= front.len() && #[trigger] front.subrange(p, p + x.len()) == x;
            assert(whole.subrange(p, p + x.len()) =~= front.subrange(p, p + x.len()));
            lemma_occurs_at(x, whole, p);
        }
    }
}

/// A formatted owner list shows every owner of the list; an empty list is
/// shown as "(unowned)".
pub proof fn law_format_owners_lists_each(owners: Seq<Seq<char>>)
    ensures
        forall|j: int| 0 <= j < owners.len() ==> occurs_in(#[trigger] owners[j], spec_format_owners(owners)),
        owners.len() == 0 ==> spec_format_owners(owners) == "(unowned)"@,
{
    assert forall|j: int| 0 <= j < owners.len() implies occurs_in(#[trigger] owners[j], spec_format_owners(owners)) by {
        lemma_join_lists_each(owners, ", "@, j);
    }
}

/// In the tables of added and removed files, a file's owners cell shows
/// every owner of the file, or "(unowned)" when it has none.
pub proof fn law_file_rows_show_all_owners(v: Seq<(String, Vec<String>)>, i: int)
    requires
        0 <= i < v.len(),
    ensures
        forall|j: int| 0 <= j < v[i].1@.len() ==> occurs_in(#[trigger] v[i].1@[j]@, file_rows(v)[i][1]),
        v[i].1@.len() == 0 ==> file_rows(v)[i][1] == "(unowned)"@,
        occurs_in(v[i].0@, file_rows(v)[i][0]),
{
    let owners = str_views(v[i].1@);
    law_format_owners_lists_each(owners);
    assert forall|j: int| 0 <= j < v[i].1@.len() implies occurs_in(#[trigger] v[i].1@[j]@, file_rows(v)[i][1]) by {
        assert(owners[j] == v[i].1@[j]@);
    }
    let cell = file_rows(v)[i][0];
    reveal_strlit("`");
    assert(cell.subrange(1, 1int + v[i].0@.len()) =~= v[i].0@);
    lemma_occurs_at(v[i].0@, cell, 1);
}

/// In the table of files whose ownership changed, each owners cell shows
/// every owner on its side, or "(unowned)" when that side has none.
pub proof fn law_changed_rows_show_all_owners(v: Seq<(String, Vec<String>, Vec<String>)>, i: int)
    requires
        0 <= i < v.len(),
    ensures
        forall|j: int| 0 <= j < v[i].1@.len() ==> occurs_in(#[trigger] v[i].1@[j]@, changed_rows(v)[i][1]),
        forall|j: int| 0 <= j < v[i].2@.len() ==> occurs_in(#[trigger] v[i].2@[j]@, changed_rows(v)[i][2]),
        v[i].1@.len() == 0 ==> changed_rows(v)[i][1] == "(unowned)"@,
        v[i].2@.len() == 0 ==> changed_rows(v)[i][2] == "(unowned)"@,
{
    let before = str_views(v[i].1@);
    let after = str_views(v[i].2@);
    law_format_owners_lists_each(before);
    law_format_owners_lists_each(after);
    assert forall|j: int| 0 <= j < v[i].1@.len() implies occurs_in(#[trigger] v[i].1@[j]@, changed_rows(v)[i][1]) by {
        assert(before[j] == v[i].1@[j]@);
    }
    assert forall|j: int| 0 <= j < v[i].2@.len() implies occurs_in(#[trigger] v[i].2@[j]@, changed_rows(v)[i][2]) by {
        assert(after[j] == v[i].2@[j]@);
    }
}

proof fn lemma_index_entries_come_from_lines(lines: Seq<Seq<char>>)
    ensures
        forall|k: int| 0 <= k < index_entries(lines).len() ==> {
            let e = #[trigger] index_entries(lines)[k];
            &&& 1 <= e.0 <= lines.len()
            &&& line_rule(lines[e.0 - 1]) == Some((e.1, e.2))
        },
        forall|i: int| 0 <= i < lines.len() && (#[trigger] line_rule(lines[i])) is Some
            ==> exists|k: int| 0 <= k < index_entries(lines).len() && #[trigger] index_entries(lines)[k].0 == i + 1,
    decreases lines.len(),
{
    if lines.len() > 0 {
        let init = lines.drop_last();
        lemma_index_entries_come_from_lines(init);
        let prev = index_entries(init);
        let es = index_entries(lines);
        assert forall|k: int| 0 <= k < es.len() implies {
            let e = #[trigger] es[k];
            &&& 1 <= e.0 <= lines.len()
            &&& line_rule(lines[e.0 - 1]) == Some((e.1, e.2))
        } by {
            if k < prev.len() {
                assert(es[k] == prev[k]);
                assert(init[prev[k].0 - 1] == lines[prev[k].0 - 1]);
            } else {
                assert(lines[lines.len() - 1] == lines.last());
            }
        }
        assert forall|i: int| 0 <= i < lines.len() && (#[trigger] line_rule(lines[i])) is Some
            implies exists|k: int| 0 <= k < es.len() && #[trigger] es[k].0 == i + 1 by {
            if i < lines.len() - 1 {
                assert(init[i] == lines[i]);
                assert(line_rule(init[i]) is Some);
                let k = choose|k: int| 0 <= k < prev.len() && #[trigger] prev[k].0 == i + 1;
                assert(es[k] == prev[k]);
            } else {
                assert(lines[i] == lines.last());
                assert(es[prev.len() as int].0 == i + 1);
            }
        }
    }
}

/// The pattern index holds exactly the rule lines of the source: each entry
/// is at a line whose first whitespace-separated token (not starting with
/// '#') is the entry's pattern and whose remaining tokens, all of them and
/// in order, are the entry's owners; and every such line has an entry.
pub proof fn law_pattern_index_entries_are_rule_lines(src: Seq<char>)
    ensures
        forall|k: int| 0 <= k < spec_pattern_index(src).len() ==> {
            let e = #[trigger] spec_pattern_index(src)[k];
            let t = spec_tokens(spec_lines(src)[e.0 - 1]);
            &&& 1 <= e.0 <= spec_lines(src).len()
            &&& t.len() > 0
            &&& !(t[0].len() > 0 && t[0][0] == '#')
            &&& e.1 == t[0]
            &&& e.2 == t.drop_first()
        },
        forall|i: int| 0 <= i < spec_lines(src).len() && {
            let t = #[trigger] spec_tokens(spec_lines(src)[i]);
            t.len() > 0 && !(t[0].len() > 0 && t[0][0] == '#')
        } ==> exists|k: int| 0 <= k < spec_pattern_index(src).len() && #[trigger] spec_pattern_index(src)[k].0 == i + 1,
{
    let lines = spec_lines(src);
    lemma_index_entries_come_from_lines(lines);
    assert forall|i: int| 0 <= i < lines.len() && {
        let t = #[trigger] spec_tokens(lines[i]);
        t.len() > 0 && !(t[0].len() > 0 && t[0][0] == '#')
    } implies exists|k: int| 0 <= k < spec_pattern_index(src).len() && #[trigger] spec_pattern_index(src)[k].0 == i + 1 by {
        assert(line_rule(lines[i]) is Some);
        let k = choose|k: int| 0 <= k < index_entries(lines).len() && #[trigger] index_entries(lines)[k].0 == i + 1;
        assert(spec_pattern_index(src)[k].0 == i + 1);
    }
}

} // verus!
