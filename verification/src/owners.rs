//! Explaining CODEOWNERS matches, resolving owners through an index of the
//! file's rules, and finding the rules that changed between two versions.
use vstd::prelude::*;
use crate::rules::{
    Rules, rule_patterns, set_all_matching_rules, set_matching_rule, set_owners,
    spec_all_matching_rules, spec_matching_rule, spec_resolved_owners,
};
use crate::text::{
    chars_of, char_views, spec_lines, spec_tokens, spec_trim, split_lines, str_views, string_of,
    tokens, trim,
};

verus! {

/// Whether a trimmed line carries a rule: it is not blank and not a comment.
pub open spec fn is_meaningful(l: Seq<char>) -> bool {
    l.len() > 0 && l[0] != '#'
}

/// The trimmed lines of `ls` that are neither blank nor comments, in order.
pub open spec fn meaningful_lines(ls: Seq<Seq<char>>) -> Seq<Seq<char>>
    decreases ls.len(),
{
    if ls.len() == 0 {
        seq![]
    } else {
        let prev = meaningful_lines(ls.drop_last());
        let t = spec_trim(ls.last());
        if is_meaningful(t) {
            prev.push(t)
        } else {
            prev
        }
    }
}

/// The meaningful lines of a CODEOWNERS source.
pub open spec fn spec_meaningful(src: Seq<char>) -> Seq<Seq<char>> {
    meaningful_lines(spec_lines(src))
}

/// How many times `x` occurs in `s`.
pub open spec fn count_of(s: Seq<Seq<char>>, x: Seq<char>) -> nat
    decreases s.len(),
{
    if s.len() == 0 {
        0
    } else {
        count_of(s.drop_last(), x) + if s.last() == x { 1nat } else { 0nat }
    }
}

/// The length of a longest common subsequence of `a` and `b`.
pub open spec fn lcs_len(a: Seq<Seq<char>>, b: Seq<Seq<char>>) -> nat
    decreases a.len() + b.len(),
{
    if a.len() == 0 || b.len() == 0 {
        0
    } else if a.last() == b.last() {
        lcs_len(a.drop_last(), b.drop_last()) + 1
    } else {
        let x = lcs_len(a.drop_last(), b);
        let y = lcs_len(a, b.drop_last());
        if x >= y { x } else { y }
    }
}

/// The lines that a positional diff of `a` into `b` removes from `a` or adds
/// from `b`: a diff that keeps a longest common subsequence, read from the
/// end. Equal last lines are kept; otherwise the last line of `a` is removed
/// when that still leaves a longest common subsequence, else the last line of
/// `b` is added. A line that moved relative to the others is removed on one
/// side or added on the other.
pub open spec fn diff_lines(a: Seq<Seq<char>>, b: Seq<Seq<char>>) -> Seq<Seq<char>>
    decreases a.len() + b.len(),
{
    if a.len() == 0 {
        b
    } else if b.len() == 0 {
        a
    } else if a.last() == b.last() {
        diff_lines(a.drop_last(), b.drop_last())
    } else if lcs_len(a.drop_last(), b) >= lcs_len(a, b.drop_last()) {
        diff_lines(a.drop_last(), b).push(a.last())
    } else {
        diff_lines(a, b.drop_last()).push(b.last())
    }
}

/// A line was added, removed or moved between `base` and `head`: the
/// positional diff of their meaningful lines removes or adds it.
pub open spec fn is_changed_line(base: Seq<char>, head: Seq<char>, l: Seq<char>) -> bool {
    diff_lines(spec_meaningful(base), spec_meaningful(head)).contains(l)
}

pub proof fn lemma_lcs_len_bound(a: Seq<Seq<char>>, b: Seq<Seq<char>>)
    ensures
        lcs_len(a, b) <= a.len(),
    decreases a.len() + b.len(),
{
    if a.len() > 0 && b.len() > 0 {
        if a.last() == b.last() {
            lemma_lcs_len_bound(a.drop_last(), b.drop_last());
        } else {
            lemma_lcs_len_bound(a.drop_last(), b);
            lemma_lcs_len_bound(a, b.drop_last());
        }
    }
}

/// The meaningful (trimmed, non-blank, non-comment) lines of a source.
pub fn meaningful_of(src: &str) -> (ls: Vec<String>)
    ensures
        str_views(ls@) == spec_meaningful(src@),
{
    let cs = chars_of(src);
    let lines = split_lines(&cs);
    let mut out: Vec<String> = Vec::new();
    let mut i: usize = 0;
    while i < lines.len()
        invariant
            i <= lines.len(),
            char_views(lines@) == spec_lines(src@),
            str_views(out@) == meaningful_lines(spec_lines(src@).take(i as int)),
        decreases lines.len() - i,
    {
        let t = trim(&lines[i]);
        assert(spec_lines(src@).take(i + 1).drop_last() == spec_lines(src@).take(i as int));
        assert(spec_lines(src@)[i as int] == lines@[i as int]@);
        if t.len() > 0 && t[0] != '#' {
            out.push(string_of(&t));
        }
        assert(str_views(out@) =~= meaningful_lines(spec_lines(src@).take(i + 1)));
        i = i + 1;
    }
    assert(spec_lines(src@).take(lines.len() as int) == spec_lines(src@));
    out
}

/// Whether some string of `v` equals `s`.
pub fn contains_str(v: &[String], s: &String) -> (b: bool)
    ensures
        b == str_views(v@).contains(s@),
{
    let mut i: usize = 0;
    while i < v.len()
        invariant
            i <= v.len(),
            forall|j: int| 0 <= j < i ==> v@[j]@ != s@,
        decreases v.len() - i,
    {
        if v[i] == *s {
            assert(str_views(v@)[i as int] == s@);
            return true;
        }
        i = i + 1;
    }
    false
}

/// Adds `s` to a list without duplicates, unless it is there already.
fn add_unique(v: &mut Vec<String>, s: &String)
    requires
        str_views(old(v)@).no_duplicates(),
    ensures
        str_views(final(v)@).no_duplicates(),
        forall|x: Seq<char>| str_views(final(v)@).contains(x) <==> (str_views(old(v)@).contains(x) || x == s@),
{
    if !contains_str(v.as_slice(), s) {
        let ghost before = str_views(v@);
        v.push(s.clone());
        assert(str_views(v@) =~= before.push(s@));
        assert forall|x: Seq<char>| str_views(v@).contains(x) <==> (before.contains(x) || x == s@) by {
            if before.contains(x) {
                let k = choose|k: int| 0 <= k < before.len() && before[k] == x;
                assert(str_views(v@)[k] == x);
            }
            if x == s@ {
                assert(str_views(v@)[before.len() as int] == x);
            }
            if str_views(v@).contains(x) {
                let k = choose|k: int| 0 <= k < str_views(v@).len() && str_views(v@)[k] == x;
                if k < before.len() {
                    assert(before[k] == x);
                }
            }
        }
    }
}

/// The table of longest-common-subsequence lengths of all prefixes of `a`
/// and `b`.
fn lcs_table(a: &Vec<String>, b: &Vec<String>) -> (t: Vec<Vec<usize>>)
    ensures
        t@.len() == a@.len() + 1,
        forall|i: int| 0 <= i <= a@.len() ==> (#[trigger] t@[i])@.len() == b@.len() + 1,
        forall|i: int, j: int| #![trigger t@[i]@[j]] 0 <= i <= a@.len() && 0 <= j <= b@.len()
            ==> t@[i]@[j] as int == lcs_len(str_views(a@).take(i), str_views(b@).take(j)),
{
    let ghost sa = str_views(a@);
    let ghost sb = str_views(b@);
    let mut t: Vec<Vec<usize>> = Vec::new();
    let mut first: Vec<usize> = Vec::new();
    first.push(0);
    let mut j: usize = 0;
    while j < b.len()
        invariant
            j <= b.len(),
            first@.len() == j + 1,
            forall|c: int| 0 <= c < j + 1 ==> first@[c] == 0,
        decreases b.len() - j,
    {
        first.push(0);
        j = j + 1;
    }
    t.push(first);
    let mut ii: usize = 0;
    while ii < a.len()
        invariant
            ii <= a.len(),
            sa == str_views(a@),
            sb == str_views(b@),
            t@.len() == ii + 1,
            forall|r: int| 0 <= r < ii + 1 ==> (#[trigger] t@[r])@.len() == b@.len() + 1,
            forall|r: int, c: int| #![trigger t@[r]@[c]] 0 <= r < ii + 1 && 0 <= c <= b@.len()
                ==> t@[r]@[c] as int == lcs_len(sa.take(r), sb.take(c)),
        decreases a.len() - ii,
    {
        let i: usize = ii + 1;
        assert(sa.take(i as int).drop_last() =~= sa.take(i - 1));
        assert(sa.take(i as int).last() == sa[i - 1]);
        let mut row: Vec<usize> = Vec::new();
        row.push(0);
        let mut jj: usize = 0;
        while jj < b.len()
            invariant
                1 <= i <= a.len(),
                i == ii + 1,
                jj <= b.len(),
                sa == str_views(a@),
                sb == str_views(b@),
                t@.len() == i,
                sa.take(i as int).drop_last() == sa.take(i - 1),
                sa.take(i as int).last() == sa[i - 1],
                forall|r: int| 0 <= r < i ==> (#[trigger] t@[r])@.len() == b@.len() + 1,
                forall|r: int, c: int| #![trigger t@[r]@[c]] 0 <= r < i && 0 <= c <= b@.len()
                    ==> t@[r]@[c] as int == lcs_len(sa.take(r), sb.take(c)),
                row@.len() == jj + 1,
                forall|c: int| 0 <= c < jj + 1 ==> row@[c] as int == lcs_len(sa.take(i as int), sb.take(c)),
            decreases b.len() - jj,
        {
            let j: usize = jj + 1;
            assert(sb.take(j as int).drop_last() =~= sb.take(j - 1));
            assert(sb.take(j as int).last() == sb[j - 1]);
            assert(t@[i - 1]@[j - 1] as int == lcs_len(sa.take(i - 1), sb.take(j - 1)));
            assert(t@[i - 1]@[j as int] as int == lcs_len(sa.take(i - 1), sb.take(j as int)));
            assert(sa[i - 1] == a@[i - 1]@);
            assert(sb[j - 1] == b@[j - 1]@);
            let v: usize = if a[i - 1] == b[j - 1] {
                proof {
                    lemma_lcs_len_bound(sa.take(i - 1), sb.take(j - 1));
                }
                t[i - 1][j - 1] + 1
            } else {
                let up = t[i - 1][j];
                let left = row[j - 1];
                if up >= left { up } else { left }
            };
            row.push(v);
            jj = jj + 1;
        }
        assert(sb.take(0) =~= Seq::<Seq<char>>::empty());
        t.push(row);
        ii = ii + 1;
    }
    proof {
        assert forall|r: int, c: int| 0 <= r <= a@.len() && 0 <= c <= b@.len()
            implies #[trigger] t@[r]@[c] as int == lcs_len(sa.take(r), sb.take(c)) by {
            if r == 0 {
                assert(sa.take(0) =~= Seq::<Seq<char>>::empty());
            }
        }
    }
    t
}

/// Given the raw CODEOWNERS sources at two refs, returns the lines that were
/// added, removed or moved: the trimmed, non-blank, non-comment lines that a
/// positional (longest-common-subsequence) diff of the two sides removes or
/// adds. Two files with the same rules in a different order differ, and a
/// rule that moved position is a change. Each such line is returned once; the
/// order of the result carries no meaning.
pub fn changed_codeowners_lines(base_src: &str, head_src: &str) -> (changed: Vec<String>)
    ensures
        str_views(changed@).no_duplicates(),
        forall|l: Seq<char>|
            str_views(changed@).contains(l) <==> is_changed_line(base_src@, head_src@, l),
{
    let base_lines = meaningful_of(base_src);
    let head_lines = meaningful_of(head_src);
    let ghost sa = str_views(base_lines@);
    let ghost sb = str_views(head_lines@);
    let t = lcs_table(&base_lines, &head_lines);
    let mut changed: Vec<String> = Vec::new();
    let mut i: usize = base_lines.len();
    let mut j: usize = head_lines.len();
    assert(sa.take(i as int) =~= sa);
    assert(sb.take(j as int) =~= sb);
    while i > 0 && j > 0
        invariant
            i <= base_lines@.len(),
            j <= head_lines@.len(),
            sa == str_views(base_lines@),
            sb == str_views(head_lines@),
            t@.len() == base_lines@.len() + 1,
            forall|r: int| 0 <= r <= base_lines@.len() ==> (#[trigger] t@[r])@.len() == head_lines@.len() + 1,
            forall|r: int, c: int| #![trigger t@[r]@[c]] 0 <= r <= base_lines@.len() && 0 <= c <= head_lines@.len()
                ==> t@[r]@[c] as int == lcs_len(sa.take(r), sb.take(c)),
            str_views(changed@).no_duplicates(),
            forall|l: Seq<char>| diff_lines(sa, sb).contains(l)
                <==> (diff_lines(sa.take(i as int), sb.take(j as int)).contains(l) || str_views(changed@).contains(l)),
        decreases i + j,
    {
        let ghost ta = sa.take(i as int);
        let ghost tb = sb.take(j as int);
        assert(ta.drop_last() =~= sa.take(i - 1));
        assert(tb.drop_last() =~= sb.take(j - 1));
        assert(ta.last() == sa[i - 1] && sa[i - 1] == base_lines@[i - 1]@);
        assert(tb.last() == sb[j - 1] && sb[j - 1] == head_lines@[j - 1]@);
        if base_lines[i - 1] == head_lines[j - 1] {
            i = i - 1;
            j = j - 1;
        } else {
            assert(t@[i - 1]@[j as int] as int == lcs_len(ta.drop_last(), tb));
            assert(t@[i as int]@[j - 1] as int == lcs_len(ta, tb.drop_last()));
            if t[i - 1][j] >= t[i][j - 1] {
                let ghost d = diff_lines(ta.drop_last(), tb);
                assert(diff_lines(ta, tb) == d.push(ta.last()));
                add_unique(&mut changed, &base_lines[i - 1]);
                assert forall|l: Seq<char>| diff_lines(ta, tb).contains(l) <==> (d.contains(l) || l == ta.last()) by {
                    if diff_lines(ta, tb).contains(l) {
                        let k = choose|k: int| 0 <= k < d.len() + 1 && diff_lines(ta, tb)[k] == l;
                        if k < d.len() {
                            assert(d[k] == l);
                        }
                    }
                    if d.contains(l) {
                        let k = choose|k: int| 0 <= k < d.len() && d[k] == l;
                        assert(diff_lines(ta, tb)[k] == l);
                    }
                    if l == ta.last() {
                        assert(diff_lines(ta, tb)[d.len() as int] == l);
                    }
                }
                i = i - 1;
            } else {
                let ghost d = diff_lines(ta, tb.drop_last());
                assert(diff_lines(ta, tb) == d.push(tb.last()));
                add_unique(&mut changed, &head_lines[j - 1]);
                assert forall|l: Seq<char>| diff_lines(ta, tb).contains(l) <==> (d.contains(l) || l == tb.last()) by {
                    if diff_lines(ta, tb).contains(l) {
                        let k = choose|k: int| 0 <= k < d.len() + 1 && diff_lines(ta, tb)[k] == l;
                        if k < d.len() {
                            assert(d[k] == l);
                        }
                    }
                    if d.contains(l) {
                        let k = choose|k: int| 0 <= k < d.len() && d[k] == l;
                        assert(diff_lines(ta, tb)[k] == l);
                    }
                    if l == tb.last() {
                        assert(diff_lines(ta, tb)[d.len() as int] == l);
                    }
                }
                j = j - 1;
            }
        }
    }
    // What is left of one side is removed or added whole.
    let ghost rest = diff_lines(sa.take(i as int), sb.take(j as int));
    if i == 0 {
        assert(sa.take(0) =~= Seq::<Seq<char>>::empty());
        assert(rest == sb.take(j as int));
        assert(sb.take(j as int).subrange(0, j as int) =~= sb.take(j as int));
        let mut k: usize = 0;
        while k < j
            invariant
                k <= j,
                j <= head_lines@.len(),
                sb == str_views(head_lines@),
                str_views(changed@).no_duplicates(),
                forall|l: Seq<char>| diff_lines(sa, sb).contains(l)
                    <==> (sb.take(j as int).subrange(k as int, j as int).contains(l) || str_views(changed@).contains(l)),
            decreases j - k,
        {
            let ghost r = sb.take(j as int).subrange(k as int, j as int);
            assert(r[0] == head_lines@[k as int]@);
            add_unique(&mut changed, &head_lines[k]);
            assert forall|l: Seq<char>| r.contains(l) <==> (sb.take(j as int).subrange(k + 1, j as int).contains(l) || l == r[0]) by {
                let r2 = sb.take(j as int).subrange(k + 1, j as int);
                if r.contains(l) {
                    let q = choose|q: int| 0 <= q < r.len() && r[q] == l;
                    if q > 0 {
                        assert(r2[q - 1] == l);
                    }
                }
                if r2.contains(l) {
                    let q = choose|q: int| 0 <= q < r2.len() && r2[q] == l;
                    assert(r[q + 1] == l);
                }
            }
            k = k + 1;
        }
    } else {
        assert(j == 0);
        assert(sb.take(0) =~= Seq::<Seq<char>>::empty());
        assert(rest == sa.take(i as int));
        assert(sa.take(i as int).subrange(0, i as int) =~= sa.take(i as int));
        let mut k: usize = 0;
        while k < i
            invariant
                k <= i,
                i <= base_lines@.len(),
                sa == str_views(base_lines@),
                str_views(changed@).no_duplicates(),
                forall|l: Seq<char>| diff_lines(sa, sb).contains(l)
                    <==> (sa.take(i as int).subrange(k as int, i as int).contains(l) || str_views(changed@).contains(l)),
            decreases i - k,
        {
            let ghost r = sa.take(i as int).subrange(k as int, i as int);
            assert(r[0] == base_lines@[k as int]@);
            add_unique(&mut changed, &base_lines[k]);
            assert forall|l: Seq<char>| r.contains(l) <==> (sa.take(i as int).subrange(k + 1, i as int).contains(l) || l == r[0]) by {
                let r2 = sa.take(i as int).subrange(k + 1, i as int);
                if r.contains(l) {
                    let q = choose|q: int| 0 <= q < r.len() && r[q] == l;
                    if q > 0 {
                        assert(r2[q - 1] == l);
                    }
                }
                if r2.contains(l) {
                    let q = choose|q: int| 0 <= q < r2.len() && r2[q] == l;
                    assert(r[q + 1] == l);
                }
            }
            k = k + 1;
        }
    }
    proof {
        assert forall|l: Seq<char>| !sb.take(j as int).subrange(j as int, j as int).contains(l) by {}
        assert forall|l: Seq<char>| !sa.take(i as int).subrange(i as int, i as int).contains(l) by {}
    }
    changed
}

/// A copy of a vector of strings.
pub fn clone_strings(v: &[String]) -> (c: Vec<String>)
    ensures
        str_views(c@) == str_views(v@),
{
    let mut c: Vec<String> = Vec::new();
    let mut i: usize = 0;
    while i < v.len()
        invariant
            i <= v.len(),
            str_views(c@) == str_views(v@).take(i as int),
        decreases v.len() - i,
    {
        let s = v[i].clone();
        assert(s@ == v@[i as int]@);
        let ghost old_c = c@;
        c.push(s);
        assert(str_views(c@) =~= str_views(old_c).push(v@[i as int]@));
        assert(str_views(v@).take(i + 1) =~= str_views(v@).take(i as int).push(v@[i as int]@));
        i = i + 1;
    }
    assert(str_views(v@).take(v.len() as int) == str_views(v@));
    c
}

/// Whether a string starts with `'#'`.
pub open spec fn starts_with_hash(s: Seq<char>) -> bool {
    s.len() > 0 && s[0] == '#'
}

/// The rule that a CODEOWNERS line declares, as the pattern index reads it:
/// its first whitespace-separated token is the pattern and the other tokens
/// are the owners; a line without tokens, or whose first token starts with
/// `'#'`, declares none.
pub open spec fn line_rule(l: Seq<char>) -> Option<(Seq<char>, Seq<Seq<char>>)> {
    let t = spec_tokens(l);
    if t.len() > 0 && !starts_with_hash(t[0]) {
        Some((t[0], t.drop_first()))
    } else {
        None
    }
}

/// One occurrence of a pattern in a CODEOWNERS file: the 1-based line number,
/// the pattern and its owners.
pub type IndexEntryView = (int, Seq<char>, Seq<Seq<char>>);

/// The rules declared by `lines`, in line order, each with its 1-based line number.
pub open spec fn index_entries(lines: Seq<Seq<char>>) -> Seq<IndexEntryView>
    decreases lines.len(),
{
    if lines.len() == 0 {
        seq![]
    } else {
        let prev = index_entries(lines.drop_last());
        match line_rule(lines.last()) {
            Some(rule) => prev.push((lines.len() as int, rule.0, rule.1)),
            None => prev,
        }
    }
}

/// The index of a CODEOWNERS source: every rule line, in line order.
pub open spec fn spec_pattern_index(src: Seq<char>) -> Seq<IndexEntryView> {
    index_entries(spec_lines(src))
}

/// Line numbers that start at 1 and strictly increase.
pub open spec fn lines_increasing(es: Seq<IndexEntryView>) -> bool {
    &&& forall|i: int| 0 <= i < es.len() ==> 1 <= #[trigger] es[i].0
    &&& forall|i: int, j: int| 0 <= i < j < es.len() ==> #[trigger] es[i].0 < #[trigger] es[j].0
}

pub proof fn lemma_index_entries_lines(lines: Seq<Seq<char>>)
    ensures
        lines_increasing(index_entries(lines)),
        forall|i: int| 0 <= i < index_entries(lines).len() ==> #[trigger] index_entries(lines)[i].0 <= lines.len(),
    decreases lines.len(),
{
    if lines.len() > 0 {
        lemma_index_entries_lines(lines.drop_last());
    }
}

/// The occurrences (line number, owners) of pattern `p` in `es`, in order.
pub open spec fn occurrences(es: Seq<IndexEntryView>, p: Seq<char>) -> Seq<(int, Seq<Seq<char>>)>
    decreases es.len(),
{
    if es.len() == 0 {
        seq![]
    } else {
        let prev = occurrences(es.drop_last(), p);
        if es.last().1 == p {
            prev.push((es.last().0, es.last().2))
        } else {
            prev
        }
    }
}

/// The view of a stored index entry.
pub open spec fn entry_view(e: (usize, String, Vec<String>)) -> IndexEntryView {
    (e.0 as int, e.1@, str_views(e.2@))
}

/// The view of a list of (line number, owners) occurrences.
pub open spec fn occurrence_views(v: Seq<(usize, Vec<String>)>) -> Seq<(int, Seq<Seq<char>>)> {
    Seq::new(v.len(), |i: int| (v[i].0 as int, str_views(v[i].1@)))
}

/// Index of the patterns of a CODEOWNERS file: every occurrence of each
/// pattern with its line number and owners. Its view lists the rule lines in
/// line order.
pub struct PatternIndex {
    entries: Vec<(usize, String, Vec<String>)>,
}

impl View for PatternIndex {
    type V = Seq<IndexEntryView>;

    closed spec fn view(&self) -> Seq<IndexEntryView> {
        Seq::new(self.entries@.len(), |i: int| entry_view(self.entries@[i]))
    }
}

impl PatternIndex {
    #[verifier::type_invariant]
    closed spec fn wf(self) -> bool {
        lines_increasing(self@)
    }

    /// All occurrences of `pattern`, in line order, or `None` when the
    /// pattern does not occur.
    pub fn get(&self, pattern: &str) -> (r: Option<Vec<(usize, Vec<String>)>>)
        ensures
            match r {
                Some(v) => occurrence_views(v@) == occurrences(self@, pattern@) && v@.len() > 0,
                None => occurrences(self@, pattern@).len() == 0,
            },
    {
        let p = pattern.to_owned();
        let mut found: Vec<(usize, Vec<String>)> = Vec::new();
        let mut i: usize = 0;
        while i < self.entries.len()
            invariant
                i <= self.entries.len(),
                p@ == pattern@,
                occurrence_views(found@) == occurrences(self@.take(i as int), pattern@),
            decreases self.entries.len() - i,
        {
            assert(self@.take(i + 1).drop_last() == self@.take(i as int));
            let e = &self.entries[i];
            if e.1 == p {
                found.push((e.0, clone_strings(e.2.as_slice())));
            }
            assert(occurrence_views(found@) =~= occurrences(self@.take(i + 1), pattern@));
            i = i + 1;
        }
        assert(self@.take(self.entries.len() as int) == self@);
        if found.len() == 0 {
            None
        } else {
            Some(found)
        }
    }
}

/// Whether a string starts with `'#'`.
fn string_starts_with_hash(s: &String) -> (b: bool)
    ensures
        b == starts_with_hash(s@),
{
    let cs = chars_of(s.as_str());
    cs.len() > 0 && cs[0] == '#'
}

/// Builds the index of pattern occurrences of a CODEOWNERS source in one pass
/// over its lines. Lines are numbered from 1; blank lines and lines whose
/// first token starts with `'#'` are skipped; a pattern that occurs on several
/// lines keeps every occurrence, in line order.
pub fn build_pattern_index(src: &str) -> (index: PatternIndex)
    ensures
        index@ == spec_pattern_index(src@),
{
    let cs = chars_of(src);
    let lines = split_lines(&cs);
    let mut entries: Vec<(usize, String, Vec<String>)> = Vec::new();
    let mut i: usize = 0;
    while i < lines.len()
        invariant
            i <= lines.len(),
            char_views(lines@) == spec_lines(src@),
            Seq::new(entries@.len(), |k: int| entry_view(entries@[k]))
                == index_entries(spec_lines(src@).take(i as int)),
        decreases lines.len() - i,
    {
        assert(spec_lines(src@).take(i + 1).drop_last() == spec_lines(src@).take(i as int));
        assert(spec_lines(src@)[i as int] == lines@[i as int]@);
        let mut toks = tokens(&lines[i]);
        if toks.len() > 0 && !string_starts_with_hash(&toks[0]) {
            let ghost all = str_views(toks@);
            let pattern = toks.remove(0);
            assert(str_views(toks@) =~= all.drop_first());
            entries.push((i + 1, pattern, toks));
        }
        assert(Seq::new(entries@.len(), |k: int| entry_view(entries@[k]))
            =~= index_entries(spec_lines(src@).take(i + 1)));
        i = i + 1;
    }
    assert(spec_lines(src@).take(lines.len() as int) == spec_lines(src@));
    proof {
        lemma_index_entries_lines(spec_lines(src@));
    }
    PatternIndex { entries }
}


/// The view of a matched rule: line number, pattern, owners, and whether it
/// is the active one.
pub type RuleView = (int, Seq<char>, Seq<Seq<char>>, bool);

/// A CODEOWNERS rule that matched a path, with its source line number.
pub struct MatchedRule {
    pub line: usize,
    pub pattern: String,
    pub owners: Vec<String>,
    pub active: bool,
}

impl View for MatchedRule {
    type V = RuleView;

    open spec fn view(&self) -> RuleView {
        (self.line as int, self.pattern@, str_views(self.owners@), self.active)
    }
}

/// The views of a sequence of matched rules.
pub open spec fn matched_views(v: Seq<MatchedRule>) -> Seq<RuleView> {
    Seq::new(v.len(), |i: int| v[i]@)
}

/// The view of an optional matched rule.
pub open spec fn opt_matched_view(r: Option<MatchedRule>) -> Option<RuleView> {
    match r {
        Some(rule) => Some(rule@),
        None => None,
    }
}

/// The entries of `es` whose pattern is one of `pats`, in order.
pub open spec fn entries_with_patterns(es: Seq<IndexEntryView>, pats: Seq<Seq<char>>) -> Seq<IndexEntryView>
    decreases es.len(),
{
    if es.len() == 0 {
        seq![]
    } else {
        let prev = entries_with_patterns(es.drop_last(), pats);
        if pats.contains(es.last().1) {
            prev.push(es.last())
        } else {
            prev
        }
    }
}

/// The entries as rules, the last one active and the others superseded.
pub open spec fn mark_last_active(es: Seq<IndexEntryView>) -> Seq<RuleView> {
    Seq::new(es.len(), |i: int| (es[i].0, es[i].1, es[i].2, i == es.len() - 1))
}

/// Every occurrence in the index of the given patterns, in line order, the
/// last one active (last match wins).
pub open spec fn spec_explain(es: Seq<IndexEntryView>, pats: Seq<Seq<char>>) -> Seq<RuleView> {
    mark_last_active(entries_with_patterns(es, pats))
}

proof fn lemma_entries_with_patterns(es: Seq<IndexEntryView>, pats: Seq<Seq<char>>)
    requires
        lines_increasing(es),
    ensures
        lines_increasing(entries_with_patterns(es, pats)),
        forall|k: int| 0 <= k < entries_with_patterns(es, pats).len() ==>
            exists|j: int| 0 <= j < es.len() && #[trigger] entries_with_patterns(es, pats)[k] == es[j],
        forall|k: int| 0 <= k < entries_with_patterns(es, pats).len() ==>
            pats.contains(#[trigger] entries_with_patterns(es, pats)[k].1),
    decreases es.len(),
{
    if es.len() > 0 {
        let prev = entries_with_patterns(es.drop_last(), pats);
        assert(lines_increasing(es.drop_last()));
        lemma_entries_with_patterns(es.drop_last(), pats);
        assert forall|k: int| 0 <= k < prev.len() implies
            exists|j: int| 0 <= j < es.len() - 1 && #[trigger] prev[k] == es[j] by {
            let j = choose|j: int| 0 <= j < es.drop_last().len() && prev[k] == es.drop_last()[j];
            assert(prev[k] == es[j]);
        }
        if pats.contains(es.last().1) {
            let f = prev.push(es.last());
            assert forall|k: int| 0 <= k < f.len() implies
                exists|j: int| 0 <= j < es.len() && #[trigger] f[k] == es[j] by {
                if k == prev.len() {
                    assert(f[k] == es[es.len() - 1]);
                } else {
                    assert(f[k] == prev[k]);
                }
            }
            assert forall|a: int, b: int| 0 <= a < b < f.len() implies #[trigger] f[a].0 < #[trigger] f[b].0 by {
                if b == prev.len() {
                    let j = choose|j: int| 0 <= j < es.len() - 1 && prev[a] == es[j];
                    assert(es[j].0 < es[es.len() - 1].0);
                } else {
                    assert(f[a] == prev[a] && f[b] == prev[b]);
                }
            }
        }
    }
}

proof fn lemma_entry_kept(es: Seq<IndexEntryView>, pats: Seq<Seq<char>>, j: int)
    requires
        0 <= j < es.len(),
        pats.contains(es[j].1),
    ensures
        exists|m: int| 0 <= m < entries_with_patterns(es, pats).len()
            && #[trigger] entries_with_patterns(es, pats)[m] == es[j],
    decreases es.len(),
{
    let prev = entries_with_patterns(es.drop_last(), pats);
    if j == es.len() - 1 {
        assert(entries_with_patterns(es, pats)[prev.len() as int] == es[j]);
    } else {
        assert(es.drop_last()[j] == es[j]);
        lemma_entry_kept(es.drop_last(), pats, j);
        let m = choose|m: int| 0 <= m < prev.len() && #[trigger] prev[m] == es[j];
        assert(entries_with_patterns(es, pats)[m] == prev[m]);
    }
}

proof fn lemma_last_occurrence(es: Seq<IndexEntryView>, p: Seq<char>)
    requires
        occurrences(es, p).len() > 0,
    ensures
        exists|j: int| 0 <= j < es.len() && (#[trigger] es[j]).1 == p
            && es[j].0 == occurrences(es, p).last().0 && es[j].2 == occurrences(es, p).last().1,
    decreases es.len(),
{
    if es.last().1 == p {
        assert(es[es.len() - 1].1 == p);
    } else {
        lemma_last_occurrence(es.drop_last(), p);
        let j = choose|j: int| 0 <= j < es.drop_last().len() && (#[trigger] es.drop_last()[j]).1 == p
            && es.drop_last()[j].0 == occurrences(es.drop_last(), p).last().0
            && es.drop_last()[j].2 == occurrences(es.drop_last(), p).last().1;
        assert(es[j] == es.drop_last()[j]);
    }
}

/// The rules of the index whose pattern is one of `patterns`: every
/// occurrence, in line order, the last one marked active.
pub fn explain_patterns(index: &PatternIndex, patterns: &Vec<String>) -> (rules: Vec<MatchedRule>)
    ensures
        matched_views(rules@) == spec_explain(index@, str_views(patterns@)),
        forall|i: int, j: int| 0 <= i < j < rules@.len() ==> rules@[i].line < rules@[j].line,
        forall|i: int| 0 <= i < rules@.len() ==> (rules@[i].active <==> i == rules@.len() - 1),
{
    proof {
        use_type_invariant(index);
        lemma_entries_with_patterns(index@, str_views(patterns@));
    }
    let ghost es = index@;
    let ghost pats = str_views(patterns@);
    let mut found: Vec<MatchedRule> = Vec::new();
    let mut i: usize = 0;
    while i < index.entries.len()
        invariant
            i <= index.entries.len(),
            es == index@,
            pats == str_views(patterns@),
            found@.len() == entries_with_patterns(es.take(i as int), pats).len(),
            forall|k: int| 0 <= k < found@.len() ==> {
                let f = #[trigger] entries_with_patterns(es.take(i as int), pats)[k];
                found@[k]@ == (f.0, f.1, f.2, false)
            },
        decreases index.entries.len() - i,
    {
        assert(es.take(i + 1).drop_last() == es.take(i as int));
        assert(es.take(i + 1).last() == es[i as int]);
        let e = &index.entries[i];
        assert(es[i as int] == entry_view(*e));
        let ghost prev = entries_with_patterns(es.take(i as int), pats);
        let ghost old_found = found@;
        if contains_str(patterns.as_slice(), &e.1) {
            let pattern = e.1.clone();
            let rule = MatchedRule { line: e.0, pattern, owners: clone_strings(e.2.as_slice()), active: false };
            assert(rule@ == (es[i as int].0, es[i as int].1, es[i as int].2, false));
            found.push(rule);
            assert(entries_with_patterns(es.take(i + 1), pats) == prev.push(es[i as int]));
            assert forall|k: int| 0 <= k < found@.len() implies {
                let f = #[trigger] entries_with_patterns(es.take(i + 1), pats)[k];
                found@[k]@ == (f.0, f.1, f.2, false)
            } by {
                if k < old_found.len() {
                    assert(found@[k] == old_found[k]);
                    assert(entries_with_patterns(es.take(i + 1), pats)[k] == prev[k]);
                }
            }
        } else {
            assert(entries_with_patterns(es.take(i + 1), pats) == prev);
        }
        i = i + 1;
    }
    assert(es.take(index.entries.len() as int) == es);
    let ghost f = entries_with_patterns(es, pats);
    let ghost before = found@;
    let n = found.len();
    if n > 0 {
        let mut last = found.pop().unwrap();
        last.active = true;
        found.push(last);
        assert forall|k: int| 0 <= k < n - 1 implies found@[k] == before[k] by {}
    }
    assert(matched_views(found@) =~= spec_explain(es, pats)) by {
        assert forall|k: int| 0 <= k < found@.len() implies
            #[trigger] matched_views(found@)[k] == spec_explain(es, pats)[k] by {
            if k < n - 1 {
                assert(found@[k] == before[k]);
            }
        }
    }
    proof {
        assert forall|a: int, b: int| 0 <= a < b < found@.len() implies
            found@[a].line < found@[b].line by {
            assert(matched_views(found@)[a].0 == f[a].0);
            assert(matched_views(found@)[b].0 == f[b].0);
        }
        assert forall|a: int| 0 <= a < found@.len() implies
            (found@[a].active <==> a == found@.len() - 1) by {
            assert(matched_views(found@)[a].3 == spec_explain(es, pats)[a].3);
        }
    }
    found
}

/// Finds all CODEOWNERS rules matching a path: every occurrence in the index
/// of each pattern that `codeowners_rs` matches against the path, in line
/// order, the last one marked active (CODEOWNERS uses last-match-wins).
pub fn explain_path(ruleset: &Rules, index: &PatternIndex, path: &str) -> (rules: Vec<MatchedRule>)
    ensures
        matched_views(rules@) == spec_explain(index@, rule_patterns(spec_all_matching_rules(ruleset@, path@))),
        forall|i: int, j: int| 0 <= i < j < rules@.len() ==> rules@[i].line < rules@[j].line,
        forall|i: int| 0 <= i < rules@.len() ==> (rules@[i].active <==> i == rules@.len() - 1),
        spec_matching_rule(ruleset@, path@) is None ==> rules@.len() == 0,
        spec_matching_rule(ruleset@, path@) matches Some(w) ==> (occurrences(index@, w.0).len() > 0 ==> {
            let resolved = spec_rule_for_pattern(index@, w.0);
            exists|k: int| 0 <= k < rules@.len()
                && (#[trigger] rules@[k]).line as int == resolved.0
                && rules@[k].pattern@ == resolved.1
                && str_views(rules@[k].owners@) == resolved.2
                && rules@[k].line <= rules@[rules@.len() - 1].line
        }),
{
    let matched = set_all_matching_rules(ruleset, path);
    let ghost m = spec_all_matching_rules(ruleset@, path@);
    let mut patterns: Vec<String> = Vec::new();
    let mut i: usize = 0;
    while i < matched.len()
        invariant
            i <= matched.len(),
            m == spec_all_matching_rules(ruleset@, path@),
            matched@.len() == m.len(),
            forall|k: int| 0 <= k < matched@.len() ==> matched@[k].1@ == m[k].1,
            str_views(patterns@) == rule_patterns(m).take(i as int),
        decreases matched.len() - i,
    {
        let p = matched[i].1.clone();
        let ghost old_patterns = str_views(patterns@);
        patterns.push(p);
        assert(str_views(patterns@) =~= old_patterns.push(m[i as int].1));
        assert(rule_patterns(m).take(i + 1) =~= rule_patterns(m).take(i as int).push(m[i as int].1));
        i = i + 1;
    }
    assert(rule_patterns(m).take(matched.len() as int) == rule_patterns(m));
    let rules = explain_patterns(index, &patterns);
    proof {
        let pats = rule_patterns(m);
        use_type_invariant(index);
        lemma_entries_with_patterns(index@, pats);
        let f = entries_with_patterns(index@, pats);
        assert(matched_views(rules@) == mark_last_active(f));
        assert(rules@.len() == f.len());
        if spec_matching_rule(ruleset@, path@) is None {
            if f.len() > 0 {
                assert(pats.contains(f[0].1));
            }
        }
        if let Some(w) = spec_matching_rule(ruleset@, path@) {
            if occurrences(index@, w.0).len() > 0 {
                let k = choose|k: int| 0 <= k < matched@.len() && (#[trigger] matched@[k]).1@ == w.0
                    && forall|j: int| 0 <= j < matched@.len() ==> (#[trigger] matched@[j]).0 <= matched@[k].0;
                assert(pats[k] == w.0);
                lemma_last_occurrence(index@, w.0);
                let j = choose|j: int| 0 <= j < index@.len() && (#[trigger] index@[j]).1 == w.0
                    && index@[j].0 == occurrences(index@, w.0).last().0
                    && index@[j].2 == occurrences(index@, w.0).last().1;
                lemma_entry_kept(index@, pats, j);
                let mm = choose|mm: int| 0 <= mm < f.len() && #[trigger] f[mm] == index@[j];
                assert(matched_views(rules@)[mm] == rules@[mm]@);
                assert(rules@[mm].line as int == index@[j].0);
                if mm < rules@.len() - 1 {
                    assert(rules@[mm].line < rules@[rules@.len() - 1].line);
                }
            }
        }
    }
    rules
}

/// The rule that an indexed pattern resolves to: its last occurrence, active.
pub open spec fn spec_rule_for_pattern(es: Seq<IndexEntryView>, p: Seq<char>) -> RuleView {
    let occ = occurrences(es, p);
    (occ.last().0, p, occ.last().1, true)
}

/// The resolved rule for the winning rule `m` of a path, if there is one.
pub open spec fn spec_resolve(es: Seq<IndexEntryView>, m: Option<(Seq<char>, Seq<Seq<char>>)>) -> Option<RuleView> {
    match m {
        Some(rule) => Some(spec_rule_for_pattern(es, rule.0)),
        None => None,
    }
}

/// The winning rule, if any, has a pattern that occurs in the index.
pub open spec fn pattern_indexed(es: Seq<IndexEntryView>, m: Option<(Seq<char>, Seq<Seq<char>>)>) -> bool {
    m matches Some(rule) ==> occurrences(es, rule.0).len() > 0
}

/// The rule for a pattern that occurs in the index: its last occurrence
/// (CODEOWNERS last-match-wins), marked active.
pub fn rule_for_pattern(index: &PatternIndex, pattern: &String) -> (rule: MatchedRule)
    requires
        occurrences(index@, pattern@).len() > 0,
    ensures
        rule@ == spec_rule_for_pattern(index@, pattern@),
{
    let found = index.get(pattern.as_str());
    let mut entries = found.unwrap();
    let ghost occ = occurrence_views(entries@);
    let (line, owners) = entries.pop().unwrap();
    assert(occ.last() == (line as int, str_views(owners@)));
    MatchedRule { line, pattern: pattern.clone(), owners, active: true }
}

/// Resolves the active matching rule for a path using the prebuilt index:
/// the winning rule of `codeowners_rs`, at the last occurrence of its
/// pattern (CODEOWNERS last-match-wins). The pattern must occur in the index.
pub fn resolve_matched_rule(ruleset: &Rules, index: &PatternIndex, path: &str) -> (rule: Option<MatchedRule>)
    requires
        pattern_indexed(index@, spec_matching_rule(ruleset@, path@)),
    ensures
        opt_matched_view(rule) == spec_resolve(index@, spec_matching_rule(ruleset@, path@)),
{
    match set_matching_rule(ruleset, path) {
        Some(winner) => Some(rule_for_pattern(index, &winner.0)),
        None => None,
    }
}

/// Resolves the owners of a path, returning individual owner strings; empty
/// when no rule matches or the matching rule has no owners.
pub fn resolve_owners(ruleset: &Rules, path: &str) -> (owners: Vec<String>)
    ensures
        str_views(owners@) == spec_resolved_owners(ruleset@, path@),
{
    match set_owners(ruleset, path) {
        Some(owners) => owners,
        None => Vec::new(),
    }
}

/// The first whitespace-separated token of a line, or nothing.
pub open spec fn first_token(l: Seq<char>) -> Seq<char> {
    let t = spec_tokens(l);
    if t.len() > 0 {
        t[0]
    } else {
        seq![]
    }
}

/// The source of the filter rule set: one rule per changed line, its pattern
/// the line's first token and its owner `@__filter__`.
pub open spec fn filter_source(lines: Seq<Seq<char>>) -> Seq<char>
    decreases lines.len(),
{
    if lines.len() == 0 {
        seq![]
    } else {
        filter_source(lines.drop_last()) + first_token(lines.last()) + " @__filter__\n"@
    }
}

/// Builds a small rule set that matches any file affected by the changed
/// CODEOWNERS lines. Every line gets a dummy owner so that `matching_rule`
/// finds a rule for each affected path.
pub fn build_filter_ruleset(changed_lines: &[String]) -> (rules: Rules)
    ensures
        rules@ == filter_source(str_views(changed_lines@)),
{
    let ghost lines = str_views(changed_lines@);
    let mut src = String::new();
    let mut i: usize = 0;
    while i < changed_lines.len()
        invariant
            i <= changed_lines.len(),
            lines == str_views(changed_lines@),
            src@ == filter_source(lines.take(i as int)),
        decreases changed_lines.len() - i,
    {
        assert(lines.take(i + 1).drop_last() == lines.take(i as int));
        let toks = tokens(&chars_of(changed_lines[i].as_str()));
        if toks.len() > 0 {
            src.append(toks[0].as_str());
        }
        src.append(" @__filter__\n");
        assert(src@ =~= filter_source(lines.take(i + 1)));
        i = i + 1;
    }
    assert(lines.take(changed_lines.len() as int) == lines);
    Rules::parse(src.as_str())
}

} // verus!
