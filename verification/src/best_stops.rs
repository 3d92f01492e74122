//! The stops that earn the most revenue: where no bonus applies, the stops
//! that a train chooses earn at least as much as any other stops it may
//! make.
use vstd::prelude::*;
use crate::hex::HexAddress;
use crate::path::Visit;
use crate::train::{
    best_stop_seq, bonus_relevant, by_revenue, default_keep, default_stop_ixs, firsts, lemma_stops_revenue_scaled,
    must_stop_ixs, ranked_skips, skip_before, skip_candidates, sorted_by_revenue, stop_revenue, stops_revenue,
};

verus! {

/// The sum of `val` over the values of `s`.
pub open spec fn sum_of(s: Seq<usize>, val: spec_fn(usize) -> int) -> int
    decreases s.len(),
{
    if s.len() == 0 {
        0
    } else {
        sum_of(s.drop_last(), val) + val(s.last())
    }
}

/// The values of `s` for which `p` holds, in order.
pub open spec fn select(s: Seq<usize>, p: spec_fn(usize) -> bool) -> Seq<usize>
    decreases s.len(),
{
    if s.len() == 0 {
        s
    } else if p(s.last()) {
        select(s.drop_last(), p).push(s.last())
    } else {
        select(s.drop_last(), p)
    }
}

/// The values of `s` for which `p` does not hold, in order.
pub open spec fn reject(s: Seq<usize>, p: spec_fn(usize) -> bool) -> Seq<usize>
    decreases s.len(),
{
    if s.len() == 0 {
        s
    } else if p(s.last()) {
        reject(s.drop_last(), p)
    } else {
        reject(s.drop_last(), p).push(s.last())
    }
}

proof fn lemma_sum_append(a: Seq<usize>, b: Seq<usize>, val: spec_fn(usize) -> int)
    ensures
        sum_of(a + b, val) == sum_of(a, val) + sum_of(b, val),
    decreases b.len(),
{
    if b.len() == 0 {
        assert(a + b =~= a);
    } else {
        lemma_sum_append(a, b.drop_last(), val);
        assert((a + b).drop_last() =~= a + b.drop_last());
    }
}

/// Splitting a sequence by a predicate keeps its sum, its length, its
/// values and their distinctness.
proof fn lemma_split(s: Seq<usize>, p: spec_fn(usize) -> bool, val: spec_fn(usize) -> int)
    ensures
        sum_of(s, val) == sum_of(select(s, p), val) + sum_of(reject(s, p), val),
        s.len() == select(s, p).len() + reject(s, p).len(),
        forall|x: usize| #[trigger] select(s, p).contains(x) <==> s.contains(x) && p(x),
        forall|x: usize| #[trigger] reject(s, p).contains(x) <==> s.contains(x) && !p(x),
        s.no_duplicates() ==> select(s, p).no_duplicates() && reject(s, p).no_duplicates(),
    decreases s.len(),
{
    if s.len() > 0 {
        let t = s.drop_last();
        let x = s.last();
        lemma_split(t, p, val);
        assert forall|y: usize| s.contains(y) <==> t.contains(y) || y == x by {
            if s.contains(y) && y != x {
                let i = choose|i: int| 0 <= i < s.len() && s[i] == y;
                assert(t[i] == y);
            }
            if t.contains(y) {
                let i = choose|i: int| 0 <= i < t.len() && t[i] == y;
                assert(s[i] == y);
            }
        }
        assert(s[s.len() - 1] == x);
        if s.no_duplicates() {
            assert(!t.contains(x)) by {
                if t.contains(x) {
                    let i = choose|i: int| 0 <= i < t.len() && t[i] == x;
                    assert(s[i] == s[s.len() - 1]);
                }
            }
            assert(t.no_duplicates()) by {
                assert forall|i: int, j: int| 0 <= i < t.len() && 0 <= j < t.len() && i != j implies t[i] != t[j] by {
                    assert(s[i] == t[i] && s[j] == t[j]);
                }
            }
        }
        if p(x) {
            let u = select(t, p);
            assert(select(s, p) == u.push(x));
            assert(u.push(x).drop_last() =~= u);
            assert(reject(s, p) == reject(t, p));
            assert forall|y: usize| #[trigger] reject(s, p).contains(y) <==> s.contains(y) && !p(y) by {
                assert(reject(t, p).contains(y) <==> t.contains(y) && !p(y));
            }
            assert forall|y: usize| u.push(x).contains(y) <==> u.contains(y) || y == x by {
                if u.push(x).contains(y) && y != x {
                    let i = choose|i: int| 0 <= i < u.push(x).len() && u.push(x)[i] == y;
                    assert(u[i] == y);
                }
                if u.contains(y) {
                    let i = choose|i: int| 0 <= i < u.len() && u[i] == y;
                    assert(u.push(x)[i] == y);
                }
                if y == x {
                    assert(u.push(x)[u.len() as int] == x);
                }
            }
            if p(x) {
                assert forall|y: usize| #[trigger] select(s, p).contains(y) <==> s.contains(y) && p(y) by {
                    assert(select(t, p).contains(y) <==> t.contains(y) && p(y));
                }
            }
            if s.no_duplicates() {
                assert(u.push(x).no_duplicates()) by {
                    assert forall|i: int, j: int| 0 <= i < u.push(x).len() && 0 <= j < u.push(x).len() && i != j implies u.push(
                        x,
                    )[i] != u.push(x)[j] by {
                        if i < u.len() && j < u.len() {
                            assert(u.push(x)[i] == u[i] && u.push(x)[j] == u[j]);
                        } else if i < u.len() {
                            assert(u.contains(u[i]));
                        } else if j < u.len() {
                            assert(u.contains(u[j]));
                        }
                    }
                }
            }
        } else {
            let u = reject(t, p);
            assert(reject(s, p) == u.push(x));
            assert(u.push(x).drop_last() =~= u);
            assert(select(s, p) == select(t, p));
            assert forall|y: usize| #[trigger] select(s, p).contains(y) <==> s.contains(y) && p(y) by {
                assert(select(t, p).contains(y) <==> t.contains(y) && p(y));
            }

            assert forall|y: usize| u.push(x).contains(y) <==> u.contains(y) || y == x by {
                if u.push(x).contains(y) && y != x {
                    let i = choose|i: int| 0 <= i < u.push(x).len() && u.push(x)[i] == y;
                    assert(u[i] == y);
                }
                if u.contains(y) {
                    let i = choose|i: int| 0 <= i < u.len() && u[i] == y;
                    assert(u.push(x)[i] == y);
                }
                if y == x {
                    assert(u.push(x)[u.len() as int] == x);
                }
            }
            assert forall|y: usize| #[trigger] reject(s, p).contains(y) <==> s.contains(y) && !p(y) by {
                assert(reject(t, p).contains(y) <==> t.contains(y) && !p(y));
            }
            if s.no_duplicates() {
                assert(u.push(x).no_duplicates()) by {
                    assert forall|i: int, j: int| 0 <= i < u.push(x).len() && 0 <= j < u.push(x).len() && i != j implies u.push(
                        x,
                    )[i] != u.push(x)[j] by {
                        if i < u.len() && j < u.len() {
                            assert(u.push(x)[i] == u[i] && u.push(x)[j] == u[j]);
                        } else if i < u.len() {
                            assert(u.contains(u[i]));
                        } else if j < u.len() {
                            assert(u.contains(u[j]));
                        }
                    }
                }
            }
        }
    }
}


proof fn lemma_sum_remove(s: Seq<usize>, i: int, val: spec_fn(usize) -> int)
    requires
        0 <= i < s.len(),
    ensures
        sum_of(s, val) == sum_of(s.remove(i), val) + val(s[i]),
    decreases s.len(),
{
    if i == s.len() - 1 {
        assert(s.remove(i) =~= s.drop_last());
    } else {
        lemma_sum_remove(s.drop_last(), i, val);
        assert(s.remove(i).drop_last() =~= s.drop_last().remove(i));
        assert(s.remove(i).last() == s.last());
    }
}

proof fn lemma_sum_nonneg(s: Seq<usize>, val: spec_fn(usize) -> int)
    requires
        forall|j: int| 0 <= j < s.len() ==> val(#[trigger] s[j]) >= 0,
    ensures
        sum_of(s, val) >= 0,
    decreases s.len(),
{
    if s.len() > 0 {
        assert forall|j: int| 0 <= j < s.drop_last().len() implies val(#[trigger] s.drop_last()[j]) >= 0 by {
            assert(s.drop_last()[j] == s[j]);
        }
        lemma_sum_nonneg(s.drop_last(), val);
        assert(val(s[s.len() - 1]) >= 0);
    }
}

/// Two lists of distinct values that hold the same values have the same
/// length and the same sum.
proof fn lemma_same_values(s1: Seq<usize>, s2: Seq<usize>, val: spec_fn(usize) -> int)
    requires
        s1.no_duplicates(),
        s2.no_duplicates(),
        forall|x: usize| s1.contains(x) <==> s2.contains(x),
    ensures
        s1.len() == s2.len(),
        sum_of(s1, val) == sum_of(s2, val),
    decreases s1.len(),
{
    if s1.len() == 0 {
        if s2.len() > 0 {
            assert(s2.contains(s2[0]));
        }
    } else {
        let x = s1.last();
        assert(s1.contains(s1[s1.len() - 1]));
        let i = choose|i: int| 0 <= i < s2.len() && s2[i] == x;
        let t1 = s1.drop_last();
        let t2 = s2.remove(i);
        assert forall|y: usize| t1.contains(y) <==> t2.contains(y) by {
            if t1.contains(y) {
                let a = choose|a: int| 0 <= a < t1.len() && t1[a] == y;
                assert(s1[a] == y);
                assert(y != x);
                assert(s1.contains(y));
                let b = choose|b: int| 0 <= b < s2.len() && s2[b] == y;
                assert(b != i);
                if b < i {
                    assert(t2[b] == y);
                } else {
                    assert(t2[b - 1] == y);
                }
            }
            if t2.contains(y) {
                let b = choose|b: int| 0 <= b < t2.len() && t2[b] == y;
                let b2 = if b < i { b } else { b + 1 };
                assert(s2[b2] == y);
                assert(b2 != i);
                assert(y != x);
                assert(s2.contains(y));
                let a = choose|a: int| 0 <= a < s1.len() && s1[a] == y;
                assert(a != s1.len() - 1);
                assert(t1[a] == y);
            }
        }
        assert(t1.no_duplicates()) by {
            assert forall|a: int, b: int| 0 <= a < t1.len() && 0 <= b < t1.len() && a != b implies t1[a] != t1[b] by {
                assert(s1[a] == t1[a] && s1[b] == t1[b]);
            }
        }
        assert(t2.no_duplicates()) by {
            assert forall|a: int, b: int| 0 <= a < t2.len() && 0 <= b < t2.len() && a != b implies t2[a] != t2[b] by {
                let a2 = if a < i { a } else { a + 1 };
                let b2 = if b < i { b } else { b + 1 };
                assert(s2[a2] == t2[a] && s2[b2] == t2[b]);
            }
        }
        lemma_same_values(t1, t2, val);
        lemma_sum_remove(s2, i, val);
    }
}

/// A list whose values are each at most every value of another list, no
/// longer than it, and all of whose values are not negative, has at most its
/// sum.
proof fn lemma_dominated(a: Seq<usize>, b: Seq<usize>, val: spec_fn(usize) -> int)
    requires
        a.len() <= b.len(),
        forall|i: int, j: int| 0 <= i < a.len() && 0 <= j < b.len() ==> val(#[trigger] a[i]) <= val(#[trigger] b[j]),
        forall|j: int| 0 <= j < b.len() ==> val(#[trigger] b[j]) >= 0,
    ensures
        sum_of(a, val) <= sum_of(b, val),
    decreases b.len(),
{
    if a.len() == 0 {
        lemma_sum_nonneg(b, val);
    } else {
        let a2 = a.drop_last();
        let b2 = b.drop_last();
        assert forall|i: int, j: int| 0 <= i < a2.len() && 0 <= j < b2.len() implies val(#[trigger] a2[i]) <= val(
            #[trigger] b2[j],
        ) by {
            assert(a2[i] == a[i] && b2[j] == b[j]);
        }
        assert forall|j: int| 0 <= j < b2.len() implies val(#[trigger] b2[j]) >= 0 by {
            assert(b2[j] == b[j]);
        }
        lemma_dominated(a2, b2, val);
        assert(val(a[a.len() - 1]) <= val(b[b.len() - 1]));
    }
}

/// A list of distinct values, each of which lies in another list, is no
/// longer than it.
proof fn lemma_fewer(x: Seq<usize>, y: Seq<usize>)
    requires
        x.no_duplicates(),
        forall|i: int| 0 <= i < x.len() ==> y.contains(#[trigger] x[i]),
    ensures
        x.len() <= y.len(),
{
    x.unique_seq_to_set();
    y.lemma_cardinality_of_set();
    assert(x.to_set().subset_of(y.to_set())) by {
        assert forall|c: usize| x.to_set().contains(c) implies y.to_set().contains(c) by {
            let i = choose|i: int| 0 <= i < x.len() && x[i] == c;
            assert(y.contains(x[i]));
        }
    }
    vstd::set_lib::lemma_len_subset(x.to_set(), y.to_set());
}


/// A list of distinct values no longer than another, where each value only
/// in the first is at most each value only in the second, has at most the
/// other's sum (all values not negative).
proof fn lemma_top_beats(x: Seq<usize>, t: Seq<usize>, val: spec_fn(usize) -> int)
    requires
        x.no_duplicates(),
        t.no_duplicates(),
        x.len() <= t.len(),
        forall|z: usize| #[trigger] val(z) >= 0,
        forall|a: usize, b: usize|
            x.contains(a) && !t.contains(a) && t.contains(b) && !x.contains(b) ==> #[trigger] val(a) <= #[trigger] val(b),
    ensures
        sum_of(x, val) <= sum_of(t, val),
{
    let in_t = |z: usize| t.contains(z);
    let in_x = |z: usize| x.contains(z);
    lemma_split(x, in_t, val);
    lemma_split(t, in_x, val);
    let xi = select(x, in_t);
    let xo = reject(x, in_t);
    let ti = select(t, in_x);
    let to = reject(t, in_x);
    assert forall|z: usize| xi.contains(z) <==> ti.contains(z) by {
        assert(xi.contains(z) <==> x.contains(z) && in_t(z));
        assert(ti.contains(z) <==> t.contains(z) && in_x(z));
    }
    lemma_same_values(xi, ti, val);
    assert forall|i: int, j: int| 0 <= i < xo.len() && 0 <= j < to.len() implies val(#[trigger] xo[i]) <= val(
        #[trigger] to[j],
    ) by {
        assert(xo.contains(xo[i]));
        assert(to.contains(to[j]));
        assert(x.contains(xo[i]) && !t.contains(xo[i]));
        assert(t.contains(to[j]) && !x.contains(to[j]));
    }
    lemma_dominated(xo, to, val);
}


/// The revenue of each visit, by its position among `visits`.
pub open spec fn plain_rev(visits: Seq<Visit>) -> spec_fn(usize) -> int {
    |i: usize| visits[i as int].revenue as int
}

/// With no bonuses, the revenue of the first `m` stops (without a
/// multiplier) is the sum of their visits' revenues.
proof fn lemma_plain_stops(visits: Seq<Visit>, s: Seq<usize>, m: int)
    requires
        0 <= m <= s.len(),
    ensures
        stops_revenue(visits, s, Map::empty(), Map::empty(), 1, m) == sum_of(s.take(m), plain_rev(visits)),
    decreases m,
{
    if m == 0 {
        assert(s.take(0) =~= Seq::<usize>::empty());
    } else {
        lemma_plain_stops(visits, s, m - 1);
        assert(s.take(m).drop_last() =~= s.take(m - 1));
        assert(s.take(m).last() == s[m - 1]);
        let v0: Map<HexAddress, usize> = Map::empty();
        assert(!v0.contains_key(visits[s[m - 1] as int].addr));
    }
}

/// The visits that cannot be skipped are listed once each, in order.
proof fn lemma_must(cs: Seq<bool>)
    requires
        cs.len() <= usize::MAX,
    ensures
        must_stop_ixs(cs).no_duplicates(),
        forall|k: int|
            0 <= k < must_stop_ixs(cs).len() ==> #[trigger] must_stop_ixs(cs)[k] < cs.len() && !cs[must_stop_ixs(
                cs,
            )[k] as int],
        forall|i: int| 0 <= i < cs.len() && !cs[i] ==> #[trigger] must_stop_ixs(cs).contains(i as usize),
    decreases cs.len(),
{
    if cs.len() > 0 {
        let t = cs.drop_last();
        lemma_must(t);
        let m0 = must_stop_ixs(t);
        let m = must_stop_ixs(cs);
        assert forall|i: int| 0 <= i < t.len() implies t[i] == cs[i] by {}
        if cs.last() {
            assert(m =~= m0);
        } else {
            let n = (cs.len() - 1) as usize;
            assert(m =~= m0.push(n));
            assert(m[m0.len() as int] == n);
            assert forall|a: int, b: int| 0 <= a < m.len() && 0 <= b < m.len() && a != b implies m[a] != m[b] by {
                if a < m0.len() && b < m0.len() {
                    assert(m[a] == m0[a] && m[b] == m0[b]);
                } else if a < m0.len() {
                    assert(m0[a] < t.len());
                } else if b < m0.len() {
                    assert(m0[b] < t.len());
                }
            }
        }
        assert forall|k: int| 0 <= k < m.len() implies #[trigger] m[k] < cs.len() && !cs[m[k] as int] by {
            if k < m0.len() {
                assert(m[k] == m0[k]);
            }
        }
        assert forall|i: int| 0 <= i < cs.len() && !cs[i] implies #[trigger] m.contains(i as usize) by {
            if i < t.len() {
                assert(m0.contains(i as usize));
                let k = choose|k: int| 0 <= k < m0.len() && m0[k] == i as usize;
                assert(m[k] == i as usize);
            } else {
                assert(m[m.len() - 1] == i as usize);
            }
        }
    }
}

/// With no bonuses, the first `m` skip candidates are the skippable visits
/// among the first `m`, in order, each with its own revenue.
proof fn lemma_candidates(visits: Seq<Visit>, cs: Seq<bool>, m: int)
    requires
        0 <= m <= cs.len(),
        cs.len() == visits.len(),
        cs.len() <= usize::MAX,
    ensures
        ({
            let c = skip_candidates(visits, cs, Map::empty(), Map::empty(), m);
            &&& forall|k: int|
                0 <= k < c.len() ==> #[trigger] c[k].0 < m && cs[c[k].0 as int] && c[k].1 == visits[c[k].0 as int].revenue
            &&& forall|a: int, b: int| 0 <= a < b < c.len() ==> #[trigger] c[a].0 < #[trigger] c[b].0
            &&& forall|i: int| 0 <= i < m && cs[i] ==> exists|k: int| 0 <= k < c.len() && #[trigger] c[k].0 == i
        }),
    decreases m,
{
    if m > 0 {
        lemma_candidates(visits, cs, m - 1);
        let c0 = skip_candidates(visits, cs, Map::empty(), Map::empty(), m - 1);
        let c = skip_candidates(visits, cs, Map::empty(), Map::empty(), m);
        let v0: Map<HexAddress, usize> = Map::empty();
        assert(!v0.contains_key(visits[m - 1].addr));
        if cs[m - 1] {
            let e = ((m - 1) as usize, stop_revenue(visits, must_stop_ixs(cs), Map::empty(), Map::empty(), m - 1) as usize);
            assert(c =~= c0.push(e));
            assert(e.1 == visits[m - 1].revenue);
            assert(c[c0.len() as int] == e);
            assert forall|k: int| 0 <= k < c.len() implies #[trigger] c[k].0 < m && cs[c[k].0 as int] && c[k].1
                == visits[c[k].0 as int].revenue by {
                if k < c0.len() {
                    assert(c[k] == c0[k]);
                }
            }
            assert forall|a: int, b: int| 0 <= a < b < c.len() implies #[trigger] c[a].0 < #[trigger] c[b].0 by {
                assert(c[a] == c0[a]);
                if b < c0.len() {
                    assert(c[b] == c0[b]);
                }
            }
            assert forall|i: int| 0 <= i < m && cs[i] implies exists|k: int| 0 <= k < c.len() && #[trigger] c[k].0 == i by {
                if i < m - 1 {
                    let k = choose|k: int| 0 <= k < c0.len() && #[trigger] c0[k].0 == i;
                    assert(c[k] == c0[k]);
                } else {
                    assert(c[c0.len() as int].0 == i);
                }
            }
        } else {
            assert(c =~= c0);
        }
    }
}


/// Pairs in the order of [`skip_before`], each pair also before itself.
pub open spec fn skip_order(a: (usize, usize), b: (usize, usize)) -> bool {
    a == b || skip_before(a, b)
}

proof fn lemma_skip_order_total()
    ensures
        vstd::relations::total_ordering(|a: (usize, usize), b: (usize, usize)| skip_order(a, b)),
{
}

/// With no bonuses, the skippable visits ranked by revenue are a list of
/// distinct pairs, one for each skippable visit, with its own revenue, from
/// the most revenue to the least.
proof fn lemma_ranked(visits: Seq<Visit>, cs: Seq<bool>)
    requires
        cs.len() == visits.len(),
        cs.len() <= usize::MAX,
    ensures
        ({
            let r = by_revenue(skip_candidates(visits, cs, Map::empty(), Map::empty(), cs.len() as int));
            &&& sorted_by_revenue(r)
            &&& forall|k: int|
                0 <= k < r.len() ==> #[trigger] r[k].0 < cs.len() && cs[r[k].0 as int] && r[k].1 == visits[r[k].0 as int].revenue
            &&& forall|i: int| 0 <= i < cs.len() && cs[i] ==> exists|k: int| 0 <= k < r.len() && #[trigger] r[k].0 == i
            &&& forall|a: int, b: int| 0 <= a < r.len() && 0 <= b < r.len() && a != b ==> #[trigger] r[a].0 != #[trigger] r[b].0
        }),
{
    let c = skip_candidates(visits, cs, Map::empty(), Map::empty(), cs.len() as int);
    lemma_candidates(visits, cs, cs.len() as int);
    let leq = |a: (usize, usize), b: (usize, usize)| skip_order(a, b);
    lemma_skip_order_total();
    c.lemma_sort_by_ensures(leq);
    let w = c.sort_by(leq);
    assert(c.no_duplicates()) by {
        assert forall|a: int, b: int| 0 <= a < c.len() && 0 <= b < c.len() && a != b implies c[a] != c[b] by {
            if a < b {
                assert(c[a].0 < c[b].0);
            } else {
                assert(c[b].0 < c[a].0);
            }
        }
    }
    c.lemma_multiset_has_no_duplicates();
    broadcast use vstd::seq_lib::group_to_multiset_ensures;
    assert forall|x: (usize, usize)| w.to_multiset().contains(x) implies w.to_multiset().count(x) == 1 by {
        assert(c.to_multiset().contains(x));
    }
    w.lemma_multiset_has_no_duplicates_conv();
    assert(sorted_by_revenue(w)) by {
        assert forall|i: int, j: int| 0 <= i < j < w.len() implies #[trigger] skip_before(w[i], w[j]) by {
            assert(leq(w[i], w[j]));
        }
    }
    assert(w.to_set() =~= c.to_set()) by {
        assert forall|x: (usize, usize)| w.to_set().contains(x) <==> c.to_set().contains(x) by {
            assert(w.contains(x) <==> w.to_multiset().count(x) > 0);
            assert(c.contains(x) <==> c.to_multiset().count(x) > 0);
        }
    }
    let r = by_revenue(c);
    assert(sorted_by_revenue(r) && r.to_set() == c.to_set());
    assert forall|k: int| 0 <= k < r.len() implies #[trigger] r[k].0 < cs.len() && cs[r[k].0 as int] && r[k].1
        == visits[r[k].0 as int].revenue by {
        assert(r.to_set().contains(r[k]));
        assert(c.to_set().contains(r[k]));
        let q = choose|q: int| 0 <= q < c.len() && c[q] == r[k];
        assert(c[q].0 < cs.len());
    }
    assert forall|i: int| 0 <= i < cs.len() && cs[i] implies exists|k: int| 0 <= k < r.len() && #[trigger] r[k].0 == i by {
        let q = choose|q: int| 0 <= q < c.len() && #[trigger] c[q].0 == i;
        assert(c.to_set().contains(c[q]));
        assert(r.to_set().contains(c[q]));
        let k = choose|k: int| 0 <= k < r.len() && r[k] == c[q];
        assert(r[k].0 == i);
    }
    assert forall|a: int, b: int| 0 <= a < r.len() && 0 <= b < r.len() && a != b implies #[trigger] r[a].0
        != #[trigger] r[b].0 by {
        assert(r.to_set().contains(r[a]) && r.to_set().contains(r[b]));
        let qa = choose|q: int| 0 <= q < c.len() && c[q] == r[a];
        let qb = choose|q: int| 0 <= q < c.len() && c[q] == r[b];
        if r[a].0 == r[b].0 {
            if qa < qb {
                assert(c[qa].0 < c[qb].0);
            } else if qb < qa {
                assert(c[qb].0 < c[qa].0);
            }
            if a < b {
                assert(skip_before(r[a], r[b]));
            } else {
                assert(skip_before(r[b], r[a]));
            }
        }
    }
}


/// Whether `stops` is a choice of stops that a train may make along `n`
/// visits: distinct visits, among them every visit that `can_skip` does not
/// mark, and at most `max_stops` of them.
pub open spec fn feasible_stops(n: int, can_skip: Seq<bool>, max_stops: int, stops: Seq<usize>) -> bool {
    &&& stops.no_duplicates()
    &&& stops.len() <= max_stops
    &&& forall|k: int| 0 <= k < stops.len() ==> #[trigger] stops[k] < n
    &&& forall|i: int| 0 <= i < n && !can_skip[i] ==> #[trigger] stops.contains(i as usize)
}

/// Where no bonus applies, the stops that a train chooses earn the most
/// revenue: no other choice of stops that it may make, stopping at every
/// visit it cannot skip and at most its number of stops, earns more.
pub proof fn law_best_stops_earn_most(
    visits: Seq<Visit>,
    can_skip: Seq<bool>,
    max_stops: int,
    mult: int,
    stops: Seq<usize>,
)
    requires
        can_skip.len() == visits.len(),
        visits.len() <= usize::MAX,
        must_stop_ixs(can_skip).len() <= max_stops,
        mult >= 0,
        feasible_stops(visits.len() as int, can_skip, max_stops, stops),
    ensures
        ({
            let best = best_stop_seq(visits, Map::empty(), Map::empty(), can_skip, max_stops, mult);
            stops_revenue(visits, stops, Map::empty(), Map::empty(), mult, stops.len() as int) <= stops_revenue(
                visits,
                best,
                Map::empty(),
                Map::empty(),
                mult,
                best.len() as int,
            )
        }),
{
    let vb: Map<HexAddress, usize> = Map::empty();
    let cb: Map<HexAddress, (Seq<HexAddress>, usize)> = Map::empty();
    let cs = can_skip;
    let n = cs.len() as int;
    let val = plain_rev(visits);
    // No connection bonus is relevant, so the default stops are chosen.
    reveal(best_stop_seq);
    assert forall|a: HexAddress| !#[trigger] bonus_relevant(visits, crate::train::default_skip_addrs(visits, vb, cb, cs, max_stops), cb, a) by {}
    let must = must_stop_ixs(cs);
    let r = ranked_skips(visits, vb, cb, cs);
    let keep = default_keep(visits, vb, cb, cs, max_stops);
    let t = firsts(r.take(keep));
    let best = best_stop_seq(visits, vb, cb, cs, max_stops, mult);
    assert(best == default_stop_ixs(visits, vb, cb, cs, max_stops));
    assert(best == must + t);
    lemma_must(cs);
    lemma_ranked(visits, cs);
    // The stops split into those that cannot be skipped and the others.
    let is_skip = |z: usize| cs[z as int];
    lemma_split(stops, is_skip, val);
    let x = select(stops, is_skip);
    let m = reject(stops, is_skip);
    assert forall|z: usize| m.contains(z) <==> must.contains(z) by {
        if m.contains(z) {
            assert(stops.contains(z) && !is_skip(z));
            let k = choose|k: int| 0 <= k < stops.len() && stops[k] == z;
            assert(stops[k] < n);
            assert(must.contains((z as int) as usize));
        }
        if must.contains(z) {
            let k = choose|k: int| 0 <= k < must.len() && must[k] == z;
            assert(must[k] < n && !cs[must[k] as int]);
            assert(stops.contains((z as int) as usize));
        }
    }
    lemma_same_values(m, must, val);
    // The kept skippable visits.
    assert(0 <= keep <= r.len());
    assert(t.len() == keep);
    assert forall|q: int| 0 <= q < t.len() implies #[trigger] t[q] == r[q].0 by {}
    assert(t.no_duplicates()) by {
        assert forall|a: int, b: int| 0 <= a < t.len() && 0 <= b < t.len() && a != b implies t[a] != t[b] by {
            assert(t[a] == r[a].0 && t[b] == r[b].0);
        }
    }
    // No more skippable stops than are kept.
    let fr = firsts(r);
    assert forall|i: int| 0 <= i < x.len() implies fr.contains(#[trigger] x[i]) by {
        assert(x.contains(x[i]));
        assert(stops.contains(x[i]) && is_skip(x[i]));
        let k0 = choose|k: int| 0 <= k < stops.len() && stops[k] == x[i];
        assert(stops[k0] < n);
        let k = choose|k: int| 0 <= k < r.len() && #[trigger] r[k].0 == x[i] as int;
        assert(fr[k] == x[i]);
    }
    lemma_fewer(x, fr);
    assert(x.len() <= t.len());
    // Each skippable stop that is not kept earns at most each kept one.
    assert forall|a: usize, b: usize|
        x.contains(a) && !t.contains(a) && t.contains(b) && !x.contains(b) implies #[trigger] val(a) <= #[trigger] val(b) by {
        assert(stops.contains(a) && is_skip(a));
        let k0 = choose|k: int| 0 <= k < stops.len() && stops[k] == a;
        assert(stops[k0] < n);
        let p = choose|k: int| 0 <= k < r.len() && #[trigger] r[k].0 == a as int;
        let q = choose|q: int| 0 <= q < t.len() && t[q] == b;
        assert(t[q] == r[q].0);
        if p < keep {
            assert(t[p] == a);
        }
        assert(q < p);
        assert(skip_before(r[q], r[p]));
    }
    lemma_top_beats(x, t, val);
    lemma_sum_append(must, t, val);
    // The revenues, with the multiplier.
    lemma_stops_revenue_scaled(visits, stops, vb, cb, mult, stops.len() as int);
    lemma_stops_revenue_scaled(visits, best, vb, cb, mult, best.len() as int);
    lemma_plain_stops(visits, stops, stops.len() as int);
    lemma_plain_stops(visits, best, best.len() as int);
    assert(stops.take(stops.len() as int) =~= stops);
    assert(best.take(best.len() as int) =~= best);
    let lo = sum_of(stops, val);
    let hi = sum_of(best, val);
    assert(lo <= hi);
    assert(mult * lo <= mult * hi) by (nonlinear_arith)
        requires
            mult >= 0,
            lo <= hi,
    ;
}

} // verus!
