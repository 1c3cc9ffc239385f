//! Lexicographic order of paths, and sorting by it.
//!
//! Strings are ordered character by character by code point, which is the
//! order of `str`'s `Ord` (UTF-8 preserves code point order byte by byte).
use vstd::prelude::*;
use crate::text::{chars_of, str_views};

verus! {

broadcast use vstd::seq_lib::group_to_multiset_ensures;

/// `a` comes strictly before `b` in lexicographic order by code point.
pub open spec fn lex_lt(a: Seq<char>, b: Seq<char>) -> bool
    decreases a.len(),
{
    if a.len() == 0 {
        b.len() > 0
    } else if b.len() == 0 {
        false
    } else if a[0] != b[0] {
        (a[0] as int) < (b[0] as int)
    } else {
        lex_lt(a.drop_first(), b.drop_first())
    }
}

/// Ascending order (equal neighbours allowed).
pub open spec fn lex_sorted(s: Seq<Seq<char>>) -> bool {
    forall|i: int, j: int| 0 <= i < j < s.len() ==> !lex_lt(#[trigger] s[j], #[trigger] s[i])
}

/// Strictly ascending order (so no element occurs twice).
pub open spec fn lex_strictly_sorted(s: Seq<Seq<char>>) -> bool {
    forall|i: int, j: int| 0 <= i < j < s.len() ==> lex_lt(#[trigger] s[i], #[trigger] s[j])
}

/// No string comes strictly before itself.
pub proof fn lemma_lex_irreflexive(a: Seq<char>)
    ensures
        !lex_lt(a, a),
    decreases a.len(),
{
    if a.len() > 0 {
        lemma_lex_irreflexive(a.drop_first());
    }
}

/// The order is transitive.
pub proof fn lemma_lex_transitive(a: Seq<char>, b: Seq<char>, c: Seq<char>)
    requires
        lex_lt(a, b),
        lex_lt(b, c),
    ensures
        lex_lt(a, c),
    decreases a.len(),
{
    if a.len() > 0 && b.len() > 0 && c.len() > 0 && a[0] == b[0] && b[0] == c[0] {
        lemma_lex_transitive(a.drop_first(), b.drop_first(), c.drop_first());
    }
}

/// Of two different strings, one comes before the other.
pub proof fn lemma_lex_total(a: Seq<char>, b: Seq<char>)
    requires
        a != b,
    ensures
        lex_lt(a, b) || lex_lt(b, a),
    decreases a.len(),
{
    if a.len() > 0 && b.len() > 0 && a[0] == b[0] {
        if a.drop_first() == b.drop_first() {
            assert(a =~= seq![a[0]] + a.drop_first());
            assert(b =~= seq![b[0]] + b.drop_first());
        }
        lemma_lex_total(a.drop_first(), b.drop_first());
    } else if a.len() > 0 && b.len() > 0 {
        assert((a[0] as int) != (b[0] as int));
    } else if a.len() == 0 && b.len() == 0 {
        assert(a =~= b);
    }
}

/// Whether `a` comes strictly before `b`.
pub fn str_lt(a: &String, b: &String) -> (lt: bool)
    ensures
        lt == lex_lt(a@, b@),
{
    let ac = chars_of(a.as_str());
    let bc = chars_of(b.as_str());
    let mut i: usize = 0;
    assert(ac@.skip(0) == ac@ && bc@.skip(0) == bc@);
    while i < ac.len() && i < bc.len() && ac[i] == bc[i]
        invariant
            i <= ac.len(),
            i <= bc.len(),
            ac@ == a@,
            bc@ == b@,
            lex_lt(a@, b@) == lex_lt(ac@.skip(i as int), bc@.skip(i as int)),
        decreases ac.len() - i,
    {
        assert(ac@.skip(i as int).drop_first() == ac@.skip(i + 1));
        assert(bc@.skip(i as int).drop_first() == bc@.skip(i + 1));
        i = i + 1;
    }
    if i == ac.len() {
        i < bc.len()
    } else if i == bc.len() {
        false
    } else {
        assert(ac@.skip(i as int)[0] == ac@[i as int]);
        assert(bc@.skip(i as int)[0] == bc@[i as int]);
        ac[i] < bc[i]
    }
}

/// The paths in ascending order, each kept as often as it occurs.
pub fn sort_paths(v: &[String]) -> (sorted: Vec<String>)
    ensures
        str_views(sorted@).to_multiset() == str_views(v@).to_multiset(),
        lex_sorted(str_views(sorted@)),
{
    let ghost input = str_views(v@);
    let mut r: Vec<String> = Vec::new();
    let mut i: usize = 0;
    while i < v.len()
        invariant
            i <= v.len(),
            input == str_views(v@),
            str_views(r@).to_multiset() == input.take(i as int).to_multiset(),
            lex_sorted(str_views(r@)),
        decreases v.len() - i,
    {
        let x = v[i].clone();
        let ghost rs = str_views(r@);
        let mut j: usize = 0;
        while j < r.len() && !str_lt(&x, &r[j])
            invariant
                j <= r.len(),
                rs == str_views(r@),
                forall|k: int| 0 <= k < j ==> !lex_lt(x@, #[trigger] rs[k]),
            decreases r.len() - j,
        {
            j = j + 1;
        }
        proof {
            if j < r.len() {
                assert forall|k: int| j <= k < rs.len() implies !lex_lt(#[trigger] rs[k], x@) by {
                    if k > j {
                        assert(!lex_lt(rs[k], rs[j as int]));
                    }
                    if lex_lt(rs[k], x@) {
                        lemma_lex_transitive(rs[k], x@, rs[j as int]);
                        if k == j {
                            lemma_lex_irreflexive(rs[k]);
                        }
                    }
                }
            }
        }
        r.insert(j, x);
        let ghost ns = rs.insert(j as int, v@[i as int]@);
        assert(str_views(r@) =~= ns);
        assert(input.take(i + 1) =~= input.take(i as int).push(input[i as int]));
        assert(lex_sorted(ns)) by {
            assert forall|a: int, b: int| 0 <= a < b < ns.len() implies
                !lex_lt(#[trigger] ns[b], #[trigger] ns[a]) by {
                if a < j && b < j {
                    assert(ns[a] == rs[a] && ns[b] == rs[b]);
                } else if a < j && b == j {
                    assert(ns[a] == rs[a]);
                } else if a < j {
                    assert(ns[a] == rs[a] && ns[b] == rs[b - 1]);
                    if lex_lt(rs[b - 1], rs[a]) {
                        assert(false);
                    }
                } else if a == j {
                    assert(ns[b] == rs[b - 1]);
                } else {
                    assert(ns[a] == rs[a - 1] && ns[b] == rs[b - 1]);
                }
            }
        }
        i = i + 1;
    }
    assert(input.take(v.len() as int) == input);
    r
}

/// The distinct paths in strictly ascending order.
pub fn sorted_unique(v: &[String]) -> (sorted: Vec<String>)
    ensures
        lex_strictly_sorted(str_views(sorted@)),
        forall|p: Seq<char>| str_views(sorted@).contains(p) <==> str_views(v@).contains(p),
{
    let ghost input = str_views(v@);
    let mut r: Vec<String> = Vec::new();
    let mut i: usize = 0;
    while i < v.len()
        invariant
            i <= v.len(),
            input == str_views(v@),
            forall|p: Seq<char>| str_views(r@).contains(p) <==> input.take(i as int).contains(p),
            lex_strictly_sorted(str_views(r@)),
        decreases v.len() - i,
    {
        let x = v[i].clone();
        let ghost rs = str_views(r@);
        let ghost t1 = input.take(i + 1);
        assert(t1 =~= input.take(i as int).push(x@));
        let mut j: usize = 0;
        while j < r.len() && str_lt(&r[j], &x)
            invariant
                j <= r.len(),
                rs == str_views(r@),
                forall|k: int| 0 <= k < j ==> lex_lt(#[trigger] rs[k], x@),
            decreases r.len() - j,
        {
            j = j + 1;
        }
        if j < r.len() && r[j] == x {
            assert(rs[j as int] == x@);
            assert forall|p: Seq<char>| rs.contains(p) <==> t1.contains(p) by {
                if p == x@ {
                    assert(t1[i as int] == x@);
                } else if t1.contains(p) {
                    let k = choose|k: int| 0 <= k < t1.len() && t1[k] == p;
                    assert(input.take(i as int)[k] == p);
                }
            }
        } else {
            proof {
                if j < r.len() {
                    assert(rs[j as int] != x@);
                    lemma_lex_total(rs[j as int], x@);
                }
            }
            r.insert(j, x);
            let ghost ns = rs.insert(j as int, input[i as int]);
            assert(str_views(r@) =~= ns);
            assert(lex_strictly_sorted(ns)) by {
                assert forall|a: int, b: int| 0 <= a < b < ns.len() implies
                    lex_lt(#[trigger] ns[a], #[trigger] ns[b]) by {
                    if a < j && b < j {
                        assert(ns[a] == rs[a] && ns[b] == rs[b]);
                    } else if a < j && b == j {
                        assert(ns[a] == rs[a]);
                    } else if a < j {
                        assert(ns[a] == rs[a] && ns[b] == rs[b - 1]);
                    } else if a == j {
                        assert(ns[b] == rs[b - 1]);
                        if b - 1 > j {
                            lemma_lex_transitive(x@, rs[j as int], rs[b - 1]);
                        }
                    } else {
                        assert(ns[a] == rs[a - 1] && ns[b] == rs[b - 1]);
                    }
                }
            }
            assert forall|p: Seq<char>| ns.contains(p) <==> t1.contains(p) by {
                if ns.contains(p) {
                    let k = choose|k: int| 0 <= k < ns.len() && ns[k] == p;
                    if k != j {
                        if k < j {
                            assert(rs[k] == p);
                        } else {
                            assert(rs[k - 1] == p);
                        }
                        assert(rs.contains(p));
                        assert(input.take(i as int).contains(p));
                        let m = choose|m: int| 0 <= m < i && input.take(i as int)[m] == p;
                        assert(t1[m] == p);
                    } else {
                        assert(t1[i as int] == p);
                    }
                }
                if t1.contains(p) {
                    let k = choose|k: int| 0 <= k < t1.len() && t1[k] == p;
                    if k < i {
                        assert(input.take(i as int)[k] == p);
                        assert(rs.contains(p));
                        let m = choose|m: int| 0 <= m < rs.len() && rs[m] == p;
                        if m < j {
                            assert(ns[m] == p);
                        } else {
                            assert(ns[m + 1] == p);
                        }
                    } else {
                        assert(ns[j as int] == p);
                    }
                }
            }
        }
        i = i + 1;
    }
    assert(input.take(v.len() as int) == input);
    r
}

} // verus!
