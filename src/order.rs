//! Lexicographic order on tokens, by code point, and sorted token sets.

use crate::segment::chars_of;
use vstd::prelude::*;

verus! {

/// `a` comes strictly before `b`, comparing code points from the left; a
/// proper prefix comes first.
pub open spec fn lex_lt(a: Seq<char>, b: Seq<char>) -> bool
    decreases a.len(),
{
    if b.len() == 0 {
        false
    } else if a.len() == 0 {
        true
    } else if a[0] != b[0] {
        a[0] < b[0]
    } else {
        lex_lt(a.drop_first(), b.drop_first())
    }
}

/// Every token comes strictly before each later one.
pub open spec fn strictly_sorted(s: Seq<Seq<char>>) -> bool {
    forall|i: int, j: int| 0 <= i < j < s.len() ==> lex_lt(#[trigger] s[i], #[trigger] s[j])
}

pub open spec fn string_views(v: Seq<String>) -> Seq<Seq<char>> {
    v.map_values(|t: String| t@)
}

pub proof fn lemma_lex_irreflexive(a: Seq<char>)
    ensures
        !lex_lt(a, a),
    decreases a.len(),
{
    if a.len() > 0 {
        lemma_lex_irreflexive(a.drop_first());
    }
}

pub proof fn lemma_lex_transitive(a: Seq<char>, b: Seq<char>, c: Seq<char>)
    requires
        lex_lt(a, b),
        lex_lt(b, c),
    ensures
        lex_lt(a, c),
    decreases a.len(),
{
    if a.len() > 0 && a[0] == b[0] && b[0] == c[0] {
        lemma_lex_transitive(a.drop_first(), b.drop_first(), c.drop_first());
    }
}

pub proof fn lemma_lex_total(a: Seq<char>, b: Seq<char>)
    ensures
        a == b || lex_lt(a, b) || lex_lt(b, a),
    decreases a.len(),
{
    if a.len() > 0 && b.len() > 0 && a[0] == b[0] {
        lemma_lex_total(a.drop_first(), b.drop_first());
        if a.drop_first() == b.drop_first() {
            assert(a =~= seq![a[0]] + a.drop_first());
            assert(b =~= seq![b[0]] + b.drop_first());
        }
    } else if a.len() == 0 && b.len() == 0 {
        assert(a =~= b);
    }
}

pub proof fn lemma_lex_asymmetric(a: Seq<char>, b: Seq<char>)
    requires
        lex_lt(a, b),
    ensures
        !lex_lt(b, a),
{
    if lex_lt(b, a) {
        lemma_lex_transitive(a, b, a);
        lemma_lex_irreflexive(a);
    }
}

/// Two strictly sorted sequences that hold the same tokens are equal.
pub proof fn lemma_sorted_unique(x: Seq<Seq<char>>, y: Seq<Seq<char>>)
    requires
        strictly_sorted(x),
        strictly_sorted(y),
        x.to_set() == y.to_set(),
    ensures
        x == y,
    decreases x.len(),
{
    if x.len() == 0 {
        if y.len() > 0 {
            assert(y.to_set().contains(y[0]));
        }
        assert(x =~= y);
    } else {
        assert(x.to_set().contains(x[0]));
        assert(y.to_set().contains(x[0]));
        assert(y.len() > 0);
        assert(x.to_set().contains(y[0]));
        let j = choose|j: int| 0 <= j < y.len() && y[j] == x[0];
        let i = choose|i: int| 0 <= i < x.len() && x[i] == y[0];
        if j > 0 {
            assert(lex_lt(y[0], y[j]));
            if i > 0 {
                assert(lex_lt(x[0], x[i]));
                lemma_lex_asymmetric(x[0], x[i]);
            } else {
                lemma_lex_irreflexive(x[0]);
            }
        }
        assert(x[0] == y[0]);
        let xr = x.drop_first();
        let yr = y.drop_first();
        assert forall|t: Seq<char>| xr.to_set().contains(t) <==> yr.to_set().contains(t) by {
            if xr.to_set().contains(t) {
                let k = choose|k: int| 0 <= k < xr.len() && xr[k] == t;
                assert(x[k + 1] == t);
                assert(lex_lt(x[0], x[k + 1]));
                lemma_lex_irreflexive(t);
                assert(x.to_set().contains(t));
                let m = choose|m: int| 0 <= m < y.len() && y[m] == t;
                assert(m != 0);
                assert(yr[m - 1] == t);
            }
            if yr.to_set().contains(t) {
                let k = choose|k: int| 0 <= k < yr.len() && yr[k] == t;
                assert(y[k + 1] == t);
                assert(lex_lt(y[0], y[k + 1]));
                lemma_lex_irreflexive(t);
                assert(y.to_set().contains(t));
                let m = choose|m: int| 0 <= m < x.len() && x[m] == t;
                assert(m != 0);
                assert(xr[m - 1] == t);
            }
        }
        assert(xr.to_set() =~= yr.to_set());
        lemma_sorted_unique(xr, yr);
        assert(x =~= seq![x[0]] + xr);
        assert(y =~= seq![y[0]] + yr);
    }
}

/// Whether `a` comes strictly before `b`.
pub fn precedes(a: &str, b: &str) -> (r: bool)
    ensures
        r == lex_lt(a@, b@),
{
    let x = chars_of(a);
    let y = chars_of(b);
    let mut i: usize = 0;
    assert(a@.skip(0) =~= a@);
    assert(b@.skip(0) =~= b@);
    while i < x.len() && i < y.len() && x[i] == y[i]
        invariant
            x@ == a@,
            y@ == b@,
            i <= x@.len(),
            i <= y@.len(),
            lex_lt(a@.skip(i as int), b@.skip(i as int)) == lex_lt(a@, b@),
        decreases x@.len() - i,
    {
        assert(a@.skip(i as int).drop_first() =~= a@.skip(i + 1));
        assert(b@.skip(i as int).drop_first() =~= b@.skip(i + 1));
        i += 1;
    }
    if i == y.len() {
        false
    } else if i == x.len() {
        true
    } else {
        x[i] < y[i]
    }
}

/// The distinct tokens of `v`, in strictly increasing order.
pub fn sort_tokens(v: Vec<String>) -> (r: Vec<String>)
    ensures
        strictly_sorted(string_views(r@)),
        string_views(r@).to_set() == string_views(v@).to_set(),
{
    let mut out: Vec<String> = Vec::new();
    let mut k: usize = 0;
    while k < v.len()
        invariant
            k <= v@.len(),
            strictly_sorted(string_views(out@)),
            string_views(out@).to_set() == string_views(v@.subrange(0, k as int)).to_set(),
        decreases v@.len() - k,
    {
        let x = &v[k];
        let mut p: usize = 0;
        while p < out.len() && precedes(out[p].as_str(), x.as_str())
            invariant
                p <= out@.len(),
                forall|q: int| 0 <= q < p ==> lex_lt(#[trigger] out@[q]@, x@),
            decreases out@.len() - p,
        {
            p += 1;
        }
        let ghost old_out = string_views(out@);
        let ghost xv = x@;
        let ghost pre = string_views(v@.subrange(0, k as int));
        assert(string_views(v@.subrange(0, k + 1)) =~= pre.push(xv));
        if p < out.len() && out[p] == *x {
            assert(old_out[p as int] == xv);
            assert(old_out.to_set().contains(xv));
            assert forall|t: Seq<char>| #[trigger]
                old_out.to_set().contains(t) <==> pre.push(xv).to_set().contains(t) by {
                if old_out.to_set().contains(t) {
                    assert(pre.to_set().contains(t));
                    let q = choose|q: int| 0 <= q < pre.len() && pre[q] == t;
                    assert(pre.push(xv)[q] == t);
                }
                if pre.push(xv).to_set().contains(t) {
                    let m = choose|m: int| 0 <= m < pre.len() + 1 && pre.push(xv)[m] == t;
                    if m < pre.len() {
                        assert(pre[m] == t);
                        assert(pre.to_set().contains(t));
                    }
                }
            }
            assert(old_out.to_set() =~= pre.push(xv).to_set());
        } else {
            proof {
                if p < out@.len() {
                    lemma_lex_total(out@[p as int]@, xv);
                }
            }
            out.insert(p, x.clone());
            let ghost nv = string_views(out@);
            assert(nv =~= old_out.insert(p as int, xv));
            assert forall|i: int, j: int| 0 <= i < j < nv.len() implies lex_lt(
                #[trigger] nv[i],
                #[trigger] nv[j],
            ) by {
                if j < p {
                    assert(lex_lt(old_out[i], old_out[j]));
                } else if j == p {
                    assert(lex_lt(out@[i]@, xv));
                } else if i == p {
                    if j > p + 1 {
                        assert(lex_lt(old_out[p as int], old_out[j - 1]));
                        lemma_lex_transitive(xv, old_out[p as int], old_out[j - 1]);
                    }
                } else if i < p {
                    assert(lex_lt(old_out[i], old_out[j - 1]));
                } else {
                    assert(lex_lt(old_out[i - 1], old_out[j - 1]));
                }
            }
            assert forall|t: Seq<char>| #[trigger]
                nv.to_set().contains(t) <==> pre.push(xv).to_set().contains(t) by {
                if nv.to_set().contains(t) {
                    let m = choose|m: int| 0 <= m < nv.len() && nv[m] == t;
                    if m != p {
                        let m2 = if m < p { m } else { m - 1 };
                        assert(old_out[m2] == t);
                        assert(old_out.to_set().contains(t));
                        assert(pre.to_set().contains(t));
                        let q = choose|q: int| 0 <= q < pre.len() && pre[q] == t;
                        assert(pre.push(xv)[q] == t);
                    } else {
                        assert(pre.push(xv)[pre.len() as int] == t);
                    }
                }
                if pre.push(xv).to_set().contains(t) {
                    let m = choose|m: int| 0 <= m < pre.len() + 1 && pre.push(xv)[m] == t;
                    if m < pre.len() {
                        assert(pre[m] == t);
                        assert(pre.to_set().contains(t));
                        assert(old_out.to_set().contains(t));
                        let q = choose|q: int| 0 <= q < old_out.len() && old_out[q] == t;
                        if q < p {
                            assert(nv[q] == t);
                        } else {
                            assert(nv[q + 1] == t);
                        }
                    } else {
                        assert(nv[p as int] == t);
                    }
                }
            }
            assert(nv.to_set() =~= pre.push(xv).to_set());
        }
        k += 1;
    }
    assert(v@.subrange(0, v@.len() as int) =~= v@);
    out
}

} // verus!
