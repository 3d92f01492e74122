//! Generate permutations of, e.g., trains to allocate to paths.
use crate::comb::{below, differs_at};
use vstd::prelude::*;

verus! {

/// No value occurs twice in `s`.
pub open spec fn distinct(s: Seq<usize>) -> bool {
    forall|i: int, j: int| 0 <= i < j < s.len() ==> s[i] != s[j]
}

/// An ordered selection of `k` distinct elements of a set of size `n`.
pub open spec fn is_k_permutation(s: Seq<usize>, n: int, k: int) -> bool {
    &&& s.len() == k
    &&& distinct(s)
    &&& below(s, n)
}

/// `a` strictly precedes `b` in lexicographic order.
pub open spec fn lex_lt(a: Seq<usize>, b: Seq<usize>) -> bool {
    exists|i: int| #[trigger] differs_at(a, b, i)
}

/// The sequence `0, 1, ..., n - 1`.
pub open spec fn identity(n: int) -> Seq<usize> {
    Seq::new(n as nat, |i: int| i as usize)
}

/// `b` raised to the power `e`.
spec fn power(b: nat, e: nat) -> nat
    decreases e,
{
    if e == 0 {
        1
    } else {
        b * power(b, (e - 1) as nat)
    }
}

/// The value of `s` read as the digits of a number in base `n`.
spec fn rank(s: Seq<usize>, n: nat) -> nat
    decreases s.len(),
{
    if s.len() == 0 {
        0
    } else {
        s[0] as nat * power(n, (s.len() - 1) as nat) + rank(s.drop_first(), n)
    }
}

/// A number of `len` digits in base `n` is less than `n` to the power `len`.
proof fn lemma_rank_bound(s: Seq<usize>, n: nat)
    requires
        below(s, n as int),
    ensures
        rank(s, n) < power(n, s.len()),
    decreases s.len(),
{
    if s.len() > 0 {
        let t = s.drop_first();
        assert(below(t, n as int)) by {
            assert forall|i: int| 0 <= i < t.len() implies t[i] < n by {
                assert(t[i] == s[i + 1]);
            }
        }
        lemma_rank_bound(t, n);
        let p = power(n, t.len());
        let d = s[0] as nat;
        assert(s.len() - 1 == t.len());
        assert(power(n, s.len()) == n * p);
        assert(d * p + p <= n * p) by (nonlinear_arith)
            requires
                d < n,
        ;
    }
}

/// Lexicographic order on sequences of equal length is the order of their
/// ranks.
proof fn lemma_rank_order(a: Seq<usize>, b: Seq<usize>, n: nat, i: int)
    requires
        a.len() == b.len(),
        below(a, n as int),
        below(b, n as int),
        differs_at(a, b, i),
    ensures
        rank(a, n) < rank(b, n),
    decreases a.len(),
{
    let ta = a.drop_first();
    let tb = b.drop_first();
    assert(below(ta, n as int)) by {
        assert forall|j: int| 0 <= j < ta.len() implies ta[j] < n by {
            assert(ta[j] == a[j + 1]);
        }
    }
    assert(below(tb, n as int)) by {
        assert forall|j: int| 0 <= j < tb.len() implies tb[j] < n by {
            assert(tb[j] == b[j + 1]);
        }
    }
    let p = power(n, (a.len() - 1) as nat);
    if i == 0 {
        lemma_rank_bound(ta, n);
        let x = a[0] as nat;
        let y = b[0] as nat;
        assert(x * p + p <= y * p) by (nonlinear_arith)
            requires
                x < y,
        ;
    } else {
        assert(differs_at(ta, tb, i - 1)) by {
            assert forall|j: int| 0 <= j < i - 1 implies ta[j] == tb[j] by {
                assert(a[j + 1] == b[j + 1]);
            }
        }
        lemma_rank_order(ta, tb, n, i - 1);
        assert(a[0] == b[0]);
    }
}

/// The `k`-permutations of a set of size `n`.
pub open spec fn kperms(n: int, k: int) -> Set<Seq<usize>> {
    Set::new(|q: Seq<usize>| is_k_permutation(q, n, k))
}

/// Sequences of equal length that differ have a first position at which
/// they differ.
proof fn lemma_first_diff(a: Seq<usize>, b: Seq<usize>, i: int)
    requires
        a.len() == b.len(),
        0 <= i <= a.len(),
        forall|j: int| 0 <= j < i ==> a[j] == b[j],
        exists|j: int| i <= j < a.len() && a[j] != b[j],
    ensures
        exists|d: int| 0 <= d < a.len() && a[d] != b[d] && forall|j: int| 0 <= j < d ==> a[j] == b[j],
    decreases a.len() - i,
{
    if a[i] == b[i] {
        let w = choose|j: int| i <= j < a.len() && a[j] != b[j];
        assert(w != i);
        lemma_first_diff(a, b, i + 1);
    }
}

/// Strict lexicographic order on sequences is irreflexive, asymmetric and
/// transitive, and total on distinct sequences of equal length.
pub proof fn lemma_lex_order(a: Seq<usize>, b: Seq<usize>, c: Seq<usize>)
    ensures
        !lex_lt(a, a),
        lex_lt(a, b) ==> !lex_lt(b, a),
        lex_lt(a, b) && lex_lt(b, c) ==> lex_lt(a, c),
        a.len() == b.len() && a != b ==> lex_lt(a, b) || lex_lt(b, a),
{
    if lex_lt(a, b) && lex_lt(b, a) {
        let i = choose|i: int| #[trigger] differs_at(a, b, i);
        let j = choose|j: int| #[trigger] differs_at(b, a, j);
        if i < j {
            assert(b[i] == a[i]);
        } else if j < i {
            assert(a[j] == b[j]);
        }
    }
    if lex_lt(a, b) && lex_lt(b, c) {
        let i = choose|i: int| #[trigger] differs_at(a, b, i);
        let j = choose|j: int| #[trigger] differs_at(b, c, j);
        if i <= j {
            assert(differs_at(a, c, i));
        } else {
            assert(differs_at(a, c, j));
        }
    }
    if a.len() == b.len() && a != b {
        if forall|j: int| 0 <= j < a.len() ==> a[j] == b[j] {
            assert(a =~= b);
        }
        lemma_first_diff(a, b, 0);
        let d = choose|d: int| 0 <= d < a.len() && a[d] != b[d] && forall|j: int| 0 <= j < d ==> a[j] == b[j];
        if a[d] < b[d] {
            assert(differs_at(a, b, d));
        } else {
            assert(differs_at(b, a, d));
        }
    }
}

/// The value `v` occurs in `a`.
pub open spec fn holds(a: Seq<usize>, v: usize) -> bool {
    exists|m: int| 0 <= m < a.len() && a[m] == v
}

/// An arrangement of `n` distinct values below `n` holds every value below
/// `n`.
proof fn lemma_perm_has_all(a: Seq<usize>, n: int)
    requires
        a.len() == n,
        distinct(a),
        below(a, n),
    ensures
        forall|v: usize| v < n ==> #[trigger] holds(a, v),
{
    let ai = a.map_values(|x: usize| x as int);
    assert(ai.no_duplicates()) by {
        assert forall|i: int, j: int| 0 <= i < ai.len() && 0 <= j < ai.len() && i != j implies ai[i] != ai[j] by {
            if i < j {
                assert(a[i] != a[j]);
            } else {
                assert(a[j] != a[i]);
            }
        }
    }
    ai.unique_seq_to_set();
    let range = vstd::set_lib::set_int_range(0, n);
    vstd::set_lib::lemma_int_range(0, n);
    assert(ai.to_set().subset_of(range)) by {
        assert forall|v: int| ai.to_set().contains(v) implies range.contains(v) by {
            let m = choose|m: int| 0 <= m < ai.len() && ai[m] == v;
            assert(a[m] < n);
        }
    }
    vstd::set_lib::lemma_len_subset(ai.to_set(), range);
    vstd::set_lib::lemma_subset_equality(ai.to_set(), range);
    assert forall|v: usize| v < n implies #[trigger] holds(a, v) by {
        assert(range.contains(v as int));
        assert(ai.to_set().contains(v as int));
        let m = choose|m: int| 0 <= m < ai.len() && ai[m] == v as int;
        assert(a[m] == v);
    }
}

/// Swapping the last element of the prefix with the least greater element
/// of the ascending tail gives the least `k`-permutation after the prefix.
proof fn lemma_swap_next(a: Seq<usize>, n: int, k: int, j: int, q: Seq<usize>)
    requires
        a.len() == n,
        2 <= k <= n,
        distinct(a),
        below(a, n),
        forall|x: int, y: int| k <= x < y < n ==> a[x] < a[y],
        k <= j < n,
        a[j] > a[k - 1],
        forall|m: int| k <= m < j ==> #[trigger] a[m] < a[k - 1],
        is_k_permutation(q, n, k),
        lex_lt(a.subrange(0, k), q),
    ensures
        q == a.subrange(0, k).update(k - 1, a[j]) || lex_lt(a.subrange(0, k).update(k - 1, a[j]), q),
{
    let pre = a.subrange(0, k);
    let p = pre.update(k - 1, a[j]);
    let d = choose|d: int| #[trigger] differs_at(pre, q, d);
    if d < k - 1 {
        assert(differs_at(p, q, d));
    } else {
        let v = q[k - 1];
        lemma_perm_has_all(a, n);
        assert(holds(a, v));
        let m = choose|m: int| 0 <= m < a.len() && a[m] == v;
        if m < k - 1 {
            assert(q[m] == pre[m]);
            assert(q[m] == q[k - 1]);
        } else if m == k - 1 {
        } else {
            if m < j {
                assert(a[m] < a[k - 1]);
            } else if m == j {
                assert(q =~= p);
            } else {
                assert(a[j] < a[m]);
                assert(differs_at(p, q, k - 1));
            }
        }
    }
}

/// A prefix that descends, with every later element below it, is the last
/// `k`-permutation.
proof fn lemma_last_kperm(b: Seq<usize>, n: int, k: int, q: Seq<usize>)
    requires
        b.len() == n,
        2 <= k <= n,
        distinct(b),
        below(b, n),
        forall|x: int, y: int| 0 <= x < y < k ==> b[x] > b[y],
        forall|m: int| k <= m < n ==> #[trigger] b[m] < b[k - 1],
        is_k_permutation(q, n, k),
    ensures
        !lex_lt(b.subrange(0, k), q),
{
    let pre = b.subrange(0, k);
    if lex_lt(pre, q) {
        let d = choose|d: int| #[trigger] differs_at(pre, q, d);
        let v = q[d];
        lemma_perm_has_all(b, n);
        assert(holds(b, v));
        let m = choose|m: int| 0 <= m < b.len() && b[m] == v;
        if m < d {
            assert(q[m] == pre[m]);
        } else if m > d {
            if m < k {
                assert(b[d] > b[m]);
            } else {
                assert(b[m] < b[k - 1]);
                if d < k - 1 {
                    assert(b[d] > b[k - 1]);
                }
            }
        }
    }
}

/// After the right-most ascent at `i`, swapping `b[i]` with the least greater
/// element after it and sorting what follows gives the least `k`-permutation
/// after the prefix of `b`.
proof fn lemma_ascent_next(b: Seq<usize>, dd: Seq<usize>, n: int, k: int, i: int, j: int, q: Seq<usize>)
    requires
        b.len() == n,
        2 <= k <= n,
        distinct(b),
        below(b, n),
        0 <= i < k - 1,
        b[i] < b[i + 1],
        forall|x: int, y: int| i + 1 <= x < y < n ==> b[x] > b[y],
        i < j < n,
        b[j] > b[i],
        forall|m: int| j < m < n ==> #[trigger] b[m] <= b[i],
        dd.len() == n,
        distinct(dd),
        below(dd, n),
        forall|x: int| 0 <= x < i ==> #[trigger] dd[x] == b[x],
        dd[i] == b[j],
        forall|x: int, y: int| i + 1 <= x < y < n ==> dd[x] < dd[y],
        is_k_permutation(q, n, k),
        lex_lt(b.subrange(0, k), q),
    ensures
        q == dd.subrange(0, k) || lex_lt(dd.subrange(0, k), q),
{
    let pre = b.subrange(0, k);
    let p = dd.subrange(0, k);
    let e = choose|e: int| #[trigger] differs_at(pre, q, e);
    lemma_perm_has_all(b, n);
    if e < i {
        assert(differs_at(p, q, e));
    } else if e > i {
        let v = q[e];
        assert(holds(b, v));
        let m = choose|m: int| 0 <= m < b.len() && b[m] == v;
        if m < e {
            assert(q[m] == pre[m]);
        } else if m > e {
            assert(b[e] > b[m]);
        }
    } else {
        let v = q[i];
        assert(holds(b, v));
        let m = choose|m: int| 0 <= m < b.len() && b[m] == v;
        if m < i {
            assert(q[m] == pre[m]);
        } else if m > i {
            if m > j {
                assert(b[m] <= b[i]);
            } else if m < j {
                assert(b[m] > b[j]);
                assert(differs_at(p, q, i));
            } else if q != p {
                // q and p agree up to position i; find where they first differ.
                assert forall|x: int| 0 <= x <= i implies p[x] == q[x] by {
                    if x < i {
                        assert(q[x] == pre[x]);
                    }
                }
                if forall|x: int| 0 <= x < k ==> p[x] == q[x] {
                    assert(p =~= q);
                }
                lemma_first_diff(p, q, 0);
                let f = choose|f: int| 0 <= f < p.len() && p[f] != q[f] && forall|x: int| 0 <= x < f ==> p[x] == q[x];
                assert(f > i);
                let w = q[f];
                lemma_perm_has_all(dd, n);
                assert(holds(dd, w));
                let m2 = choose|m2: int| 0 <= m2 < dd.len() && dd[m2] == w;
                if m2 < f {
                    assert(q[m2] == p[m2]);
                } else if m2 > f {
                    assert(dd[f] < dd[m2]);
                    assert(differs_at(p, q, f));
                }
            }
        }
    }
}

/// Swaps two elements of a vector.
fn swap_items(a: &mut Vec<usize>, i: usize, j: usize)
    requires
        i < old(a)@.len(),
        j < old(a)@.len(),
    ensures
        final(a)@ == old(a)@.update(i as int, old(a)@[j as int]).update(j as int, old(a)@[i as int]),
{
    let x = a[i];
    let y = a[j];
    a.set(i, y);
    a.set(j, x);
}

/// Returns a copy of the first `k` elements of a vector.
fn prefix_copy(a: &Vec<usize>, k: usize) -> (p: Vec<usize>)
    requires
        k <= a@.len(),
    ensures
        p@ == a@.subrange(0, k as int),
{
    let mut p: Vec<usize> = Vec::with_capacity(k);
    for i in 0..k
        invariant
            k <= a@.len(),
            p@ == a@.subrange(0, i as int),
    {
        p.push(a[i]);
        assert(p@ =~= a@.subrange(0, i + 1));
    }
    p
}

/// Reverses the elements of `a` from position `start` to the end.
fn reverse_from(a: &mut Vec<usize>, start: usize)
    requires
        start <= old(a)@.len(),
    ensures
        final(a)@.len() == old(a)@.len(),
        forall|m: int| 0 <= m < start ==> #[trigger] final(a)@[m] == old(a)@[m],
        forall|m: int|
            start <= m < old(a)@.len() ==> #[trigger] final(a)@[m] == old(a)@[old(a)@.len() - 1
                - (m - start)],
{
    let n = a.len();
    let num_items = (n - start) / 2;
    for ix in 0..num_items
        invariant
            n == a@.len(),
            n == old(a)@.len(),
            num_items == (n - start) / 2,
            forall|m: int| 0 <= m < start ==> #[trigger] a@[m] == old(a)@[m],
            forall|m: int|
                start <= m < n ==> #[trigger] a@[m] == if m < start + ix || m >= n - ix {
                    old(a)@[n - 1 - (m - start)]
                } else {
                    old(a)@[m]
                },
    {
        swap_items(a, start + ix, n - ix - 1);
    }
}

/// The order in which *k*-permutations are yielded: `p` comes before `q`.
/// For *k = 1* from the largest element to the smallest, and otherwise in
/// lexicographic order.
pub open spec fn yields_before(k: int, p: Seq<usize>, q: Seq<usize>) -> bool {
    if k == 1 {
        p[0] > q[0]
    } else {
        lex_lt(p, q)
    }
}

/// The identity prefix is the least `k`-permutation.
proof fn lemma_identity_least(n: int, k: int, q: Seq<usize>)
    requires
        is_k_permutation(q, n, k),
        q != identity(k),
    ensures
        lex_lt(identity(k), q),
{
    let id = identity(k);
    if forall|x: int| 0 <= x < k ==> id[x] == q[x] {
        assert(id =~= q);
    }
    lemma_first_diff(id, q, 0);
    let d = choose|d: int| 0 <= d < id.len() && id[d] != q[d] && forall|x: int| 0 <= x < d ==> id[x] == q[x];
    if q[d] < d {
        let x = q[d] as int;
        assert(q[x] == id[x]);
        assert(q[x] == q[d]);
    }
    assert(differs_at(id, q, d));
}

/// When `next` is the least `k`-permutation after `prev`, the permutations
/// after `next` are those after `prev`, except `next`.
proof fn lemma_remaining_step(prev: Seq<usize>, next: Seq<usize>, n: int, k: int)
    requires
        is_k_permutation(next, n, k),
        lex_lt(prev, next),
        forall|q: Seq<usize>| is_k_permutation(q, n, k) && lex_lt(prev, q) && q != next ==> lex_lt(next, q),
    ensures
        Set::new(|q: Seq<usize>| is_k_permutation(q, n, k) && lex_lt(next, q)) == Set::new(
            |q: Seq<usize>| is_k_permutation(q, n, k) && lex_lt(prev, q),
        ).remove(next),
{
    let after_next = Set::new(|q: Seq<usize>| is_k_permutation(q, n, k) && lex_lt(next, q));
    let after_prev = Set::new(|q: Seq<usize>| is_k_permutation(q, n, k) && lex_lt(prev, q));
    assert forall|q: Seq<usize>| after_next.contains(q) <==> after_prev.remove(next).contains(q) by {
        lemma_lex_order(prev, next, q);
        lemma_lex_order(next, q, q);
        lemma_lex_order(q, q, q);
    }
    assert(after_next =~= after_prev.remove(next));
}

/// Iterate over *k*-permutations of a set of size *n*, for a fixed *k*.
///
/// This is an implementation of the "Simple, Efficient P(n, k) Algorithm"
/// described by Alistair Israel and published in his JCombinatorics Java
/// library under the MIT License.
pub struct KPermutations {
    n: usize,
    k: usize,
    a: Vec<usize>,
    edge: usize,
    first: bool,
}

impl KPermutations {
    /// The size of the set.
    pub closed spec fn size(&self) -> int {
        self.n as int
    }

    /// The length of each permutation.
    pub closed spec fn length(&self) -> int {
        self.k as int
    }

    /// Whether the first permutation is still to come.
    pub closed spec fn at_start(&self) -> bool {
        self.first
    }

    /// For 1-permutations, the elements still to be yielded, last first;
    /// otherwise the current arrangement, whose first `k` elements are the
    /// most recently yielded permutation.
    pub closed spec fn arrangement(&self) -> Seq<usize> {
        self.a@
    }

    /// A measure that decreases with every permutation yielded.
    pub closed spec fn progress(&self) -> nat {
        if self.k == 1 {
            self.a@.len()
        } else {
            ((power(self.n as nat, self.k as nat) - rank(self.a@.subrange(0, self.k as int), self.n as nat))
                + if self.first {
                1int
            } else {
                0int
            }) as nat
        }
    }

    /// The permutations still to be yielded.
    pub closed spec fn remaining(&self) -> Set<Seq<usize>> {
        if self.k == 1 {
            Set::new(|q: Seq<usize>| q.len() == 1 && q[0] < self.a@.len())
        } else if self.first {
            kperms(self.n as int, self.k as int)
        } else {
            Set::new(
                |q: Seq<usize>|
                    is_k_permutation(q, self.n as int, self.k as int) && lex_lt(
                        self.a@.subrange(0, self.k as int),
                        q,
                    ),
            )
        }
    }

    /// The internal state is consistent.
    pub closed spec fn wf(&self) -> bool {
        &&& self.k >= 1
        &&& self.edge == self.k - 1
        &&& if self.k == 1 {
            &&& self.a@.len() <= self.n
            &&& forall|i: int| 0 <= i < self.a@.len() ==> #[trigger] self.a@[i] == i
        } else {
            &&& self.k <= self.n
            &&& self.a@.len() == self.n
            &&& distinct(self.a@)
            &&& below(self.a@, self.n as int)
            &&& self.first ==> self.a@ == identity(self.n as int)
            &&& (ascending_from(self.a@, self.k as int) || exhausted(self.a@, self.k as int))
        }
    }

    /// Create an iterator over *k*-permutations of a set.
    pub fn new(n: usize, k: usize) -> (p: Self)
        requires
            k >= 1,
            k == 1 || k <= n,
        ensures
            p.wf(),
            p.size() == n,
            p.length() == k,
            p.at_start(),
            p.arrangement() == identity(n as int),
            p.remaining() == kperms(n as int, k as int),
    {
        let mut a: Vec<usize> = Vec::with_capacity(n);
        for i in 0..n
            invariant
                a@ == identity(i as int),
        {
            a.push(i);
            assert(a@ =~= identity(i + 1));
        }
        let p = KPermutations { n, k, a, edge: k - 1, first: true };
        proof {
            assert(p.a@ =~= identity(n as int));
            if k >= 2 {
                assert(ascending_from(p.a@, k as int));
            } else {
                assert forall|q: Seq<usize>| p.remaining().contains(q) <==> kperms(n as int, 1).contains(q) by {
                    if q.len() == 1 {
                        assert(distinct(q));
                    }
                }
                assert(p.remaining() =~= kperms(n as int, 1));
            }
        }
        p
    }

    /// Yields the next *k*-permutation, or `None` when there are no more.
    ///
    /// For *k = 1* the elements are yielded from the largest to the smallest.
    /// Otherwise the first permutation is `[0, 1, ..., k - 1]`, and each one
    /// after it is lexicographically greater than the one before.
    pub fn next(&mut self) -> (item: Option<Vec<usize>>)
        requires
            old(self).wf(),
        ensures
            final(self).wf(),
            final(self).size() == old(self).size(),
            final(self).length() == old(self).length(),
            match item {
                Some(p) => {
                    &&& is_k_permutation(p@, old(self).size(), old(self).length())
                    &&& final(self).progress() < old(self).progress()
                    &&& old(self).length() >= 2 ==> !final(self).at_start()
                    &&& old(self).length() == 1 ==> {
                        &&& p@ == seq![old(self).arrangement().last()]
                        &&& final(self).arrangement() == old(self).arrangement().drop_last()
                    }
                    &&& old(self).length() >= 2 ==> {
                        &&& p@ == final(self).arrangement().subrange(0, old(self).length())
                        &&& old(self).at_start() ==> p@ == identity(old(self).length())
                        &&& !old(self).at_start() ==> lex_lt(
                            old(self).arrangement().subrange(0, old(self).length()),
                            p@,
                        )
                    }
                    // The permutation is the first of those still to come.
                    &&& old(self).remaining().contains(p@)
                    &&& forall|q: Seq<usize>|
                        #[trigger] old(self).remaining().contains(q) && q != p@ ==> yields_before(
                            old(self).length(),
                            p@,
                            q,
                        )
                    &&& final(self).remaining() == old(self).remaining().remove(p@)
                },
                None => {
                    &&& old(self).length() == 1 ==> old(self).arrangement().len() == 0
                    &&& old(self).remaining() == Set::<Seq<usize>>::empty()
                    &&& final(self).remaining() == Set::<Seq<usize>>::empty()
                },
            },
    {
        // NOTE: all 1-permutations can be obtained by returning each element
        // of a[] in turn.
        if self.k == 1 {
            let ghost old_a = self.a@;
            return match self.a.pop() {
                Some(ix) => {
                    let v = vec![ix];
                    assert(v@ =~= seq![ix]);
                    proof {
                        assert(ix == old_a.len() - 1);
                        assert(old(self).remaining().contains(v@));
                        assert forall|q: Seq<usize>| #[trigger] self.remaining().contains(q) <==> old(self).remaining().remove(v@).contains(q) by {
                            if q.len() == 1 && q[0] == ix {
                                assert(q =~= v@);
                            }
                        }
                        assert(self.remaining() =~= old(self).remaining().remove(v@));
                        assert forall|q: Seq<usize>| #[trigger] old(self).remaining().contains(q) && q != v@ implies yields_before(1, v@, q) by {
                            if q[0] == ix {
                                assert(q =~= v@);
                            }
                        }
                    }
                    Some(v)
                },
                None => {
                    assert(old(self).remaining() =~= Set::<Seq<usize>>::empty());
                    assert(self.remaining() =~= Set::<Seq<usize>>::empty());
                    None
                },
            };
        }
        let ghost n = self.n as int;
        let ghost k = self.k as int;
        let ghost old_a = self.a@;
        // The first permutation should be returned before making any swaps.
        proof {
            lemma_sub_below(old_a, k);
            lemma_rank_bound(old_a.subrange(0, k), n as nat);
        }
        if self.first {
            self.first = false;
            let p = prefix_copy(&self.a, self.k);
            proof {
                assert(p@ =~= identity(k));
                assert(ascending_from(self.a@, k));
                let id = identity(k);
                assert(is_k_permutation(id, n, k));
                assert(old(self).remaining().contains(p@));
                assert forall|q: Seq<usize>| #[trigger] old(self).remaining().contains(q) && q != p@ implies yields_before(k, p@, q) by {
                    lemma_identity_least(n, k, q);
                }
                assert forall|q: Seq<usize>| #[trigger] self.remaining().contains(q) <==> old(self).remaining().remove(p@).contains(q) by {
                    lemma_lex_order(p@, p@, q);
                    if is_k_permutation(q, n, k) && q != p@ {
                        lemma_identity_least(n, k, q);
                    }
                }
                assert(self.remaining() =~= old(self).remaining().remove(p@));
            }
            return Some(p);
        }
        let mut j = self.k;
        while j < self.n && self.a[self.edge] >= self.a[j]
            invariant
                self.wf(),
                self.a@ == old_a,
                self.n == n,
                self.k == k,
                k >= 2,
                k <= j <= n,
                forall|m: int| k <= m < j ==> #[trigger] old_a[m] < old_a[k - 1],
            decreases self.n - j,
        {
            assert(old_a[k - 1] != old_a[j as int]);
            j += 1;
        }
        if j < self.n {
            let ghost b = self.a@;
            swap_items(&mut self.a, self.edge, j);
            proof {
                let c = self.a@;
                assert(old_a[j as int] > old_a[k - 1]);
                if exhausted(old_a, k) {
                    assert(old_a[j as int] < old_a[k - 1]);
                }
                assert(ascending_from(old_a, k));
                assert forall|x: int, y: int| 0 <= x < y < n implies c[x] != c[y] by {
                    assert(old_a[x] != old_a[y]);
                    assert(old_a[x] != old_a[j as int] && old_a[y] != old_a[j as int] || x == j || y == j);
                }
                assert(ascending_from(c, k)) by {
                    assert forall|x: int, y: int| k <= x < y < n implies c[x] < c[y] by {
                        if x == j {
                            assert(old_a[j as int] < old_a[y]);
                        } else if y == j {
                            assert(old_a[x] < old_a[k - 1]);
                        } else {
                            assert(old_a[x] < old_a[y]);
                        }
                    }
                }
                lemma_sub_below(c, k);
                assert(differs_at(old_a.subrange(0, k), c.subrange(0, k), k - 1));
                lemma_rank_order(old_a.subrange(0, k), c.subrange(0, k), n as nat, k - 1);
                lemma_rank_bound(c.subrange(0, k), n as nat);
                let pre = old_a.subrange(0, k);
                let pc = c.subrange(0, k);
                assert(pc =~= pre.update(k - 1, old_a[j as int]));
                assert forall|m: int| k <= m < j implies #[trigger] old_a[m] < old_a[k - 1] by {
                    assert(old_a[m] != old_a[k - 1]);
                }
                assert forall|q: Seq<usize>| is_k_permutation(q, n, k) && lex_lt(pre, q) && q != pc implies lex_lt(pc, q) by {
                    lemma_swap_next(old_a, n, k, j as int, q);
                }
                lemma_remaining_step(pre, pc, n, k);
            }
        } else {
            // Reverse a[k] to a[n-1].
            reverse_from(&mut self.a, self.k);
            let ghost b = self.a@;
            proof {
                lemma_reverse_keeps(old_a, b, k, n);
                assert forall|m: int| k <= m < n implies #[trigger] b[m] < b[k - 1] by {
                    assert(b[m] == old_a[n - 1 - (m - k)]);
                }
            }
            // Find the right-most ascent to the left of edge.
            let mut i = self.edge - 1;
            while self.a[i] >= self.a[i + 1]
                invariant
                    self.a@ == b,
                    self.n == n,
                    self.k == k,
                    self.edge == k - 1,
                    b.len() == n,
                    2 <= k <= n,
                    0 <= i < k - 1,
                    distinct(b),
                    below(b, n),
                    !self.first,
                    n == old(self).n,
                    k == old(self).k,
                    !old(self).first,
                    old_a == old(self).a@,
                    b.subrange(0, k) == old_a.subrange(0, k),
                    forall|m: int| k <= m < n ==> #[trigger] b[m] < b[k - 1],
                    forall|x: int, y: int| i + 1 <= x < y < k ==> b[x] > b[y],
                decreases i,
            {
                if i == 0 {
                    proof {
                        assert forall|x: int, y: int| 0 <= x < y < k implies b[x] > b[y] by {
                            if x == 0 {
                                assert(b[0] != b[1]);
                                if y > 1 {
                                    assert(b[1] > b[y]);
                                }
                            }
                        }
                        assert(exhausted(b, k));
                        assert forall|q: Seq<usize>| !old(self).remaining().contains(q) by {
                            if is_k_permutation(q, n, k) {
                                lemma_last_kperm(b, n, k, q);
                            }
                        }
                        assert(old(self).remaining() =~= Set::<Seq<usize>>::empty());
                        assert(self.remaining() =~= old(self).remaining());
                    }
                    return None;
                }
                assert(b[i as int] != b[i + 1]);
                i -= 1;
            }
            proof {
                assert(b[i as int] < b[i + 1]);
                assert(old_a[i as int] == b[i as int] && old_a[i + 1] == b[i + 1]);
                if exhausted(old_a, k) {
                    assert(old_a[i as int] > old_a[i + 1]);
                }
                assert(ascending_from(old_a, k));
                // From position i + 1 to the end, b descends.
                assert forall|x: int, y: int| i + 1 <= x < y < n implies b[x] > b[y] by {
                    if y >= k {
                        assert(b[y] == old_a[n - 1 - (y - k)]);
                        if x >= k {
                            assert(b[x] == old_a[n - 1 - (x - k)]);
                            assert(old_a[n - 1 - (y - k)] < old_a[n - 1 - (x - k)]);
                        } else {
                            assert(old_a[n - 1 - (y - k)] < old_a[k - 1]);
                            if x < k - 1 {
                                assert(b[x] > b[k - 1]);
                            }
                        }
                    }
                }
            }
            // Find j in (n-1 ... i+1) where a[j] > a[i].
            j = self.n - 1;
            while j > i && self.a[i] >= self.a[j]
                invariant
                    self.a@ == b,
                    self.n == n,
                    b.len() == n,
                    i < k - 1,
                    2 <= k <= n,
                    i + 1 <= j < n,
                    b[i as int] < b[i + 1],
                    forall|m: int| j < m < n ==> b[m] <= b[i as int],
                decreases j,
            {
                j -= 1;
            }
            swap_items(&mut self.a, i, j);
            let ghost c = self.a@;
            // Reverse a[i+1] to a[n-1].
            reverse_from(&mut self.a, i + 1);
            proof {
                let d = self.a@;
                assert(b[j as int] > b[i as int]);
                // After the swap, c still descends from position i + 1.
                assert forall|x: int, y: int| i + 1 <= x < y < n implies c[x] > c[y] by {
                    if x == j {
                        assert(b[y] <= b[i as int]);
                        assert(b[y] != b[i as int]);
                    } else if y == j {
                        assert(b[x] > b[j as int]);
                    } else {
                        assert(b[x] > b[y]);
                    }
                }
                assert forall|x: int, y: int| 0 <= x < y < n implies c[x] != c[y] by {
                    assert(b[x] != b[y]);
                    assert(b[i as int] != b[j as int]);
                    if x != i && x != j && y != i && y != j {
                    } else {
                        assert(b[x] != b[i as int] || x == i);
                        assert(b[x] != b[j as int] || x == j);
                        assert(b[y] != b[i as int] || y == i);
                        assert(b[y] != b[j as int] || y == j);
                    }
                }
                assert(below(c, n));
                lemma_reverse_keeps(c, d, i + 1, n);
                assert(ascending_from(d, k)) by {
                    assert forall|x: int, y: int| k <= x < y < n implies d[x] < d[y] by {
                        assert(d[x] == c[n - 1 - (x - (i + 1))]);
                        assert(d[y] == c[n - 1 - (y - (i + 1))]);
                    }
                }
                assert(d[i as int] == b[j as int]);
                assert(differs_at(old_a.subrange(0, k), d.subrange(0, k), i as int));
                lemma_sub_below(d, k);
                lemma_rank_order(old_a.subrange(0, k), d.subrange(0, k), n as nat, i as int);
                lemma_rank_bound(d.subrange(0, k), n as nat);
                // d is the least arrangement after b.
                assert forall|x: int, y: int| i + 1 <= x < y < n implies d[x] < d[y] by {
                    assert(d[x] == c[n - 1 - (x - (i + 1))]);
                    assert(d[y] == c[n - 1 - (y - (i + 1))]);
                }
                assert forall|x: int| 0 <= x < i implies #[trigger] d[x] == b[x] by {
                    assert(d[x] == c[x]);
                }
                let pre = old_a.subrange(0, k);
                assert(pre == b.subrange(0, k));
                assert forall|q: Seq<usize>| is_k_permutation(q, n, k) && lex_lt(pre, q) && q != d.subrange(0, k) implies lex_lt(d.subrange(0, k), q) by {
                    lemma_ascent_next(b, d, n, k, i as int, j as int, q);
                }
                assert(lex_lt(pre, d.subrange(0, k)));
                lemma_remaining_step(pre, d.subrange(0, k), n, k);
            }
        }
        Some(prefix_copy(&self.a, self.k))
    }
}

/// The elements of `a` from position `k` on are in ascending order.
spec fn ascending_from(a: Seq<usize>, k: int) -> bool {
    forall|i: int, j: int| k <= i < j < a.len() ==> a[i] < a[j]
}

/// The first `k` elements of `a` descend, and every later element is smaller
/// than the `k`-th: the last permutation has been yielded.
spec fn exhausted(a: Seq<usize>, k: int) -> bool {
    &&& forall|i: int, j: int| 0 <= i < j < k ==> a[i] > a[j]
    &&& forall|m: int| k <= m < a.len() ==> #[trigger] a[m] < a[k - 1]
}

/// Reversing a sequence from position `start` keeps its values distinct and
/// below `n`.
proof fn lemma_reverse_keeps(a: Seq<usize>, b: Seq<usize>, start: int, n: int)
    requires
        0 <= start <= n,
        a.len() == n,
        b.len() == n,
        distinct(a),
        below(a, n),
        forall|m: int| 0 <= m < start ==> #[trigger] b[m] == a[m],
        forall|m: int| start <= m < n ==> #[trigger] b[m] == a[n - 1 - (m - start)],
    ensures
        distinct(b),
        below(b, n),
{
    assert forall|x: int, y: int| 0 <= x < y < n implies b[x] != b[y] by {
        let sx = if x < start { x } else { n - 1 - (x - start) };
        let sy = if y < start { y } else { n - 1 - (y - start) };
        assert(b[x] == a[sx]);
        assert(b[y] == a[sy]);
        if sx < sy {
            assert(a[sx] != a[sy]);
        } else {
            assert(a[sy] != a[sx]);
        }
    }
    assert forall|x: int| 0 <= x < n implies b[x] < n by {
        if x >= start {
            assert(b[x] == a[n - 1 - (x - start)]);
        }
    }
}

/// The first `k` elements of a distinct sequence below `n` form a
/// `k`-permutation.
proof fn lemma_sub_below(a: Seq<usize>, k: int)
    requires
        0 <= k <= a.len(),
    ensures
        forall|n: int| below(a, n) ==> below(a.subrange(0, k), n),
        distinct(a) ==> distinct(a.subrange(0, k)),
{
}

/// The classes of the elements of a permutation, in order.
pub open spec fn class_seq(classes: Seq<usize>, item: Seq<usize>) -> Seq<usize> {
    item.map_values(|ix: usize| classes[ix as int])
}

/// Whether two vectors hold the same values.
fn same_values(a: &Vec<usize>, b: &Vec<usize>) -> (r: bool)
    ensures
        r == (a@ == b@),
{
    if a.len() != b.len() {
        return false;
    }
    let mut i: usize = 0;
    while i < a.len()
        invariant
            a@.len() == b@.len(),
            i <= a@.len(),
            forall|j: int| 0 <= j < i ==> a@[j] == b@[j],
        decreases a@.len() - i,
    {
        if a[i] != b[i] {
            return false;
        }
        i += 1;
    }
    assert(a@ =~= b@);
    true
}

/// Iterate over *k*-permutations of a set of size *n* where each element is
/// associated with a "class", returning only those permutations that produce
/// unique orderings of these classes.
pub struct KPermutationsFilter {
    /// The mapping of indices to classes.
    classes: Vec<usize>,
    /// The class permutations that have been yielded already; no two are
    /// equal.
    yielded: Vec<Vec<usize>>,
    /// The underlying permutations iterator.
    perms: KPermutations,
}

impl KPermutationsFilter {
    /// The class of each element.
    pub closed spec fn classes(&self) -> Seq<usize> {
        self.classes@
    }

    /// The orderings of classes that have been yielded already.
    pub closed spec fn seen(&self) -> Set<Seq<usize>> {
        Set::new(|c: Seq<usize>| exists|i: int| 0 <= i < self.yielded@.len() && (#[trigger] self.yielded@[i])@ == c)
    }

    /// The underlying permutations iterator.
    pub closed spec fn perms(&self) -> KPermutations {
        self.perms
    }

    /// The internal state is consistent.
    pub closed spec fn wf(&self) -> bool {
        &&& self.perms.wf()
        &&& self.perms.size() == self.classes@.len()
        &&& forall|i: int, j: int|
            0 <= i < j < self.yielded@.len() ==> (#[trigger] self.yielded@[i])@ != (#[trigger] self.yielded@[j])@
    }

    /// Create an iterator over *k*-permutations of a set where each element
    /// is associated with a "class".
    pub fn new(classes: Vec<usize>, k: usize) -> (p: Self)
        requires
            k >= 1,
            k == 1 || k <= classes@.len(),
        ensures
            p.wf(),
            p.classes() == classes@,
            p.seen() == Set::<Seq<usize>>::empty(),
            p.perms().length() == k,
            p.perms().at_start(),
            p.perms().arrangement() == identity(classes@.len() as int),
            p.perms().remaining() == kperms(classes@.len() as int, k as int),
    {
        let n = classes.len();
        let p = KPermutationsFilter { classes: classes, yielded: Vec::new(), perms: KPermutations::new(n, k) };
        assert(p.seen() =~= Set::<Seq<usize>>::empty());
        p
    }

    /// Check whether a permutation duplicates the class ordering of a
    /// previous permutation, and record its class ordering.
    fn unique_class_permutation(&mut self, item: &Vec<usize>) -> (r: bool)
        requires
            old(self).wf(),
            below(item@, old(self).classes@.len() as int),
        ensures
            final(self).wf(),
            final(self).classes == old(self).classes,
            final(self).perms == old(self).perms,
            r == !old(self).seen().contains(class_seq(old(self).classes@, item@)),
            final(self).seen() == old(self).seen().insert(class_seq(old(self).classes@, item@)),
    {
        let ghost target = class_seq(self.classes@, item@);
        let mut class_perm: Vec<usize> = Vec::with_capacity(item.len());
        for i in 0..item.len()
            invariant
                below(item@, self.classes@.len() as int),
                class_perm@ == class_seq(self.classes@, item@.subrange(0, i as int)),
        {
            class_perm.push(self.classes[item[i]]);
            assert(class_perm@ =~= class_seq(self.classes@, item@.subrange(0, i + 1)));
        }
        assert(item@.subrange(0, item@.len() as int) =~= item@);
        let mut k: usize = 0;
        while k < self.yielded.len()
            invariant
                self.wf(),
                *self == *old(self),
                class_perm@ == target,
                target == class_seq(old(self).classes@, item@),
                k <= self.yielded@.len(),
                forall|j: int| 0 <= j < k ==> (#[trigger] self.yielded@[j])@ != target,
            decreases self.yielded@.len() - k,
        {
            if same_values(&self.yielded[k], &class_perm) {
                // NOTE: the set already contains this class ordering.
                assert(self.seen().contains(target));
                assert(self.seen().insert(target) =~= self.seen());
                return false;
            }
            k += 1;
        }
        let ghost before = self.yielded@;
        self.yielded.push(class_perm);
        proof {
            assert(!old(self).seen().contains(target));
            assert forall|c: Seq<usize>| #[trigger] self.seen().contains(c) <==> old(self).seen().insert(target).contains(c) by {
                if self.seen().contains(c) {
                    let i = choose|i: int| 0 <= i < self.yielded@.len() && (#[trigger] self.yielded@[i])@ == c;
                    if i < before.len() {
                        assert(before[i] == self.yielded@[i]);
                    }
                }
                if old(self).seen().contains(c) {
                    let i = choose|i: int| 0 <= i < before.len() && (#[trigger] before[i])@ == c;
                    assert(self.yielded@[i] == before[i]);
                }
                if c == target {
                    assert(self.yielded@[before.len() as int]@ == c);
                }
            }
            assert(self.seen() =~= old(self).seen().insert(target));
        }
        true
    }

    /// Yields the next *k*-permutation whose ordering of classes has not been
    /// yielded before, or `None` when there are no more.
    pub fn next(&mut self) -> (item: Option<Vec<usize>>)
        requires
            old(self).wf(),
        ensures
            final(self).wf(),
            final(self).classes() == old(self).classes(),
            final(self).perms().length() == old(self).perms().length(),
            match item {
                Some(p) => {
                    &&& is_k_permutation(p@, old(self).classes().len() as int, old(self).perms().length())
                    &&& old(self).perms().remaining().contains(p@)
                    &&& !old(self).seen().contains(class_seq(old(self).classes(), p@))
                    &&& final(self).seen() == old(self).seen().insert(class_seq(old(self).classes(), p@))
                    // The permutations passed over repeat an ordering of classes
                    // that was yielded before.
                    &&& forall|q: Seq<usize>|
                        #[trigger] old(self).perms().remaining().contains(q) && yields_before(
                            old(self).perms().length(),
                            q,
                            p@,
                        ) ==> old(self).seen().contains(class_seq(old(self).classes(), q))
                    &&& forall|q: Seq<usize>| #[trigger]
                        final(self).perms().remaining().contains(q) <==> (old(self).perms().remaining().contains(q)
                            && q != p@ && !yields_before(old(self).perms().length(), q, p@))
                    &&& final(self).perms().progress() < old(self).perms().progress()
                },
                None => {
                    &&& final(self).seen() == old(self).seen()
                    &&& forall|q: Seq<usize>| #[trigger]
                        old(self).perms().remaining().contains(q) ==> old(self).seen().contains(
                            class_seq(old(self).classes(), q),
                        )
                    &&& final(self).perms().remaining() == Set::<Seq<usize>>::empty()
                },
            },
    {
        let ghost r0 = self.perms.remaining();
        let ghost k = self.perms.length();
        loop
            invariant
                self.wf(),
                self.classes == old(self).classes,
                self.perms.length() == old(self).perms.length(),
                k == old(self).perms().length(),
                r0 == old(self).perms().remaining(),
                self.seen() == old(self).seen(),
                self.perms.progress() <= old(self).perms.progress(),
                forall|q: Seq<usize>| #[trigger] self.perms.remaining().contains(q) ==> r0.contains(q),
                forall|q: Seq<usize>|
                    #[trigger] r0.contains(q) && !self.perms.remaining().contains(q) ==> old(self).seen().contains(
                        class_seq(old(self).classes(), q),
                    ),
                forall|q: Seq<usize>, y: Seq<usize>|
                    #![trigger r0.contains(q), self.perms.remaining().contains(y)]
                    r0.contains(q) && !self.perms.remaining().contains(q) && self.perms.remaining().contains(y)
                        ==> yields_before(k, q, y),
            decreases self.perms.progress(),
        {
            let ghost cur = self.perms.remaining();
            let item = self.perms.next();
            match item {
                None => {
                    return None;
                },
                Some(ixs) => {
                    proof {
                        lemma_yields_order(k, ixs@, ixs@);
                    }
                    if self.unique_class_permutation(&ixs) {
                        proof {
                            assert forall|q: Seq<usize>| #[trigger] self.perms.remaining().contains(q) <==> (r0.contains(q)
                                && q != ixs@ && !yields_before(k, q, ixs@)) by {
                                lemma_yields_order(k, ixs@, q);
                                if r0.contains(q) && q != ixs@ && !yields_before(k, q, ixs@) && !cur.contains(q) {
                                    assert(yields_before(k, q, ixs@));
                                }
                            }
                            assert forall|q: Seq<usize>| #[trigger] r0.contains(q) && yields_before(k, q, ixs@) implies old(self).seen().contains(
                                class_seq(old(self).classes(), q),
                            ) by {
                                lemma_yields_order(k, q, ixs@);
                                if cur.contains(q) {
                                    assert(q != ixs@);
                                    assert(yields_before(k, ixs@, q));
                                }
                            }
                        }
                        return Some(ixs);
                    }
                    proof {
                        assert forall|q: Seq<usize>, y: Seq<usize>|
                            #![trigger r0.contains(q), self.perms.remaining().contains(y)]
                            r0.contains(q) && !self.perms.remaining().contains(q) && self.perms.remaining().contains(y)
                                implies yields_before(k, q, y) by {
                            if q == ixs@ {
                                assert(cur.contains(y) && y != ixs@);
                            } else {
                                assert(!cur.contains(q));
                            }
                        }
                    }
                },
            }
        }
    }
}

/// The order in which permutations are yielded is irreflexive and
/// asymmetric.
proof fn lemma_yields_order(k: int, p: Seq<usize>, q: Seq<usize>)
    ensures
        !yields_before(k, p, p),
        yields_before(k, p, q) ==> !yields_before(k, q, p),
{
    lemma_lex_order(p, q, q);
    lemma_lex_order(p, p, p);
}


/// Each of `items` came before every other permutation remaining when it
/// was taken (`rems[i]` before the `i`th, `rems[i + 1]` after, in the order
/// of `k`-permutations), and taking it removed it and nothing else: what
/// successive calls of [`KPermutations::next`] do.
pub open spec fn perms_taken_in_order(k: int, rems: Seq<Set<Seq<usize>>>, items: Seq<Seq<usize>>) -> bool {
    &&& rems.len() == items.len() + 1
    &&& forall|i: int|
        0 <= i < items.len() ==> {
            &&& #[trigger] rems[i].contains(items[i])
            &&& forall|q: Seq<usize>| #[trigger] rems[i].contains(q) && q != items[i] ==> yields_before(k, items[i], q)
            &&& rems[i + 1] == rems[i].remove(items[i])
        }
}

proof fn lemma_perms_taken_shrink(k: int, rems: Seq<Set<Seq<usize>>>, items: Seq<Seq<usize>>, i: int, j: int)
    requires
        perms_taken_in_order(k, rems, items),
        0 <= i <= j < rems.len(),
    ensures
        rems[j].subset_of(rems[i]),
    decreases j - i,
{
    if i < j {
        lemma_perms_taken_shrink(k, rems, items, i, j - 1);
        assert(rems[j - 1].contains(items[j - 1]));
        assert(rems[j] == rems[j - 1].remove(items[j - 1]));
    }
}

/// Successive calls of `next` yield each permutation at most once, each
/// before every one yielded after it, and what they yield is exactly what
/// was remaining at the start and is no longer remaining: once `next` has
/// returned `None` (nothing remains), every permutation has been yielded.
pub proof fn law_next_yields_each_permutation_once(k: int, rems: Seq<Set<Seq<usize>>>, items: Seq<Seq<usize>>)
    requires
        perms_taken_in_order(k, rems, items),
    ensures
        forall|i: int, j: int|
            0 <= i < j < items.len() ==> #[trigger] items[i] != #[trigger] items[j] && yields_before(k, items[i], items[j]),
        forall|q: Seq<usize>|
            #[trigger] rems[0].contains(q) <==> (rems.last().contains(q) || items.contains(q)),
    decreases items.len(),
{
    assert forall|i: int, j: int| 0 <= i < j < items.len() implies #[trigger] items[i] != #[trigger] items[j]
        && yields_before(k, items[i], items[j]) by {
        lemma_perms_taken_shrink(k, rems, items, i, j);
        lemma_perms_taken_shrink(k, rems, items, i + 1, j);
        assert(rems[i].contains(items[i]));
        assert(rems[j].contains(items[j]));
        assert(rems[i].contains(items[j]));
        assert(rems[i + 1] == rems[i].remove(items[i]));
        assert(rems[i + 1].contains(items[j]));
    }
    if items.len() > 0 {
        let n = items.len() - 1;
        let rs = rems.drop_last();
        let its = items.drop_last();
        assert(perms_taken_in_order(k, rs, its)) by {
            assert forall|i: int| 0 <= i < its.len() implies {
                &&& #[trigger] rs[i].contains(its[i])
                &&& forall|q: Seq<usize>| #[trigger] rs[i].contains(q) && q != its[i] ==> yields_before(k, its[i], q)
                &&& rs[i + 1] == rs[i].remove(its[i])
            } by {
                assert(rs[i] == rems[i] && its[i] == items[i] && rs[i + 1] == rems[i + 1]);
            }
        }
        law_next_yields_each_permutation_once(k, rs, its);
        assert forall|q: Seq<usize>| #[trigger] rems[0].contains(q) <==> (rems.last().contains(q) || items.contains(q)) by {
            assert(rs[0] == rems[0]);
            assert(rs.last() == rems[n]);
            assert(rems[n].contains(items[n]));
            assert(rems.last() == rems[n].remove(items[n]));
            if its.contains(q) {
                let m = choose|m: int| 0 <= m < its.len() && its[m] == q;
                assert(items[m] == q);
            }
            if items.contains(q) {
                let m = choose|m: int| 0 <= m < items.len() && items[m] == q;
                if m < n {
                    assert(its[m] == q);
                }
            }
        }
    }
}


/// Each of `items` was remaining (`rems[i]` before the `i`th call, `rems[i + 1]`
/// after) with an ordering of classes not yet seen (`seens[i]`), which its
/// call added; the call kept no permutation that was not remaining, and each
/// permutation it passed over had an ordering of classes seen by then: what
/// successive calls of [`KPermutationsFilter::next`] do.
pub open spec fn filtered_in_order(
    classes: Seq<usize>,
    rems: Seq<Set<Seq<usize>>>,
    seens: Seq<Set<Seq<usize>>>,
    items: Seq<Seq<usize>>,
) -> bool {
    &&& rems.len() == items.len() + 1
    &&& seens.len() == items.len() + 1
    &&& forall|i: int|
        0 <= i < items.len() ==> {
            &&& #[trigger] rems[i].contains(items[i])
            &&& !seens[i].contains(class_seq(classes, items[i]))
            &&& seens[i + 1] == seens[i].insert(class_seq(classes, items[i]))
            &&& forall|q: Seq<usize>| rems[i + 1].contains(q) ==> #[trigger] rems[i].contains(q)
            &&& forall|q: Seq<usize>|
                #[trigger] rems[i].contains(q) && !rems[i + 1].contains(q) ==> seens[i + 1].contains(class_seq(classes, q))
        }
}

proof fn lemma_seen_grows(
    classes: Seq<usize>,
    rems: Seq<Set<Seq<usize>>>,
    seens: Seq<Set<Seq<usize>>>,
    items: Seq<Seq<usize>>,
    i: int,
    j: int,
)
    requires
        filtered_in_order(classes, rems, seens, items),
        0 <= i <= j < seens.len(),
    ensures
        seens[i].subset_of(seens[j]),
    decreases j - i,
{
    if i < j {
        lemma_seen_grows(classes, rems, seens, items, i, j - 1);
        assert(rems[j - 1].contains(items[j - 1]));
        assert(seens[j] == seens[j - 1].insert(class_seq(classes, items[j - 1])));
    }
}

/// Successive calls of `next` on a filter of permutations yield orderings of
/// classes that are pairwise distinct and were not seen at the start, and
/// every permutation that was remaining at the start and is no longer
/// remaining has an ordering of classes that was seen at the start or
/// yielded since: once `next` has returned `None` (nothing remains), the
/// orderings of classes of every permutation have been yielded.
pub proof fn law_filter_yields_each_ordering_once(
    classes: Seq<usize>,
    rems: Seq<Set<Seq<usize>>>,
    seens: Seq<Set<Seq<usize>>>,
    items: Seq<Seq<usize>>,
)
    requires
        filtered_in_order(classes, rems, seens, items),
    ensures
        forall|i: int, j: int|
            0 <= i < j < items.len() ==> class_seq(classes, #[trigger] items[i]) != class_seq(
                classes,
                #[trigger] items[j],
            ),
        forall|i: int| 0 <= i < items.len() ==> !seens[0].contains(class_seq(classes, #[trigger] items[i])),
        forall|c: Seq<usize>|
            #[trigger] seens.last().contains(c) <==> (seens[0].contains(c) || exists|i: int|
                0 <= i < items.len() && class_seq(classes, #[trigger] items[i]) == c),
        forall|q: Seq<usize>|
            #[trigger] rems[0].contains(q) && !rems.last().contains(q) ==> seens.last().contains(class_seq(classes, q)),
    decreases items.len(),
{
    assert forall|i: int, j: int| 0 <= i < j < items.len() implies class_seq(classes, #[trigger] items[i]) != class_seq(
        classes,
        #[trigger] items[j],
    ) by {
        lemma_seen_grows(classes, rems, seens, items, i + 1, j);
        assert(rems[i].contains(items[i]));
        assert(rems[j].contains(items[j]));
        assert(seens[i + 1].contains(class_seq(classes, items[i])));
    }
    assert forall|i: int| 0 <= i < items.len() implies !seens[0].contains(class_seq(classes, #[trigger] items[i])) by {
        lemma_seen_grows(classes, rems, seens, items, 0, i);
        assert(rems[i].contains(items[i]));
    }
    if items.len() > 0 {
        let n = items.len() - 1;
        let rs = rems.drop_last();
        let ss = seens.drop_last();
        let its = items.drop_last();
        assert(filtered_in_order(classes, rs, ss, its)) by {
            assert forall|i: int| 0 <= i < its.len() implies {
                &&& #[trigger] rs[i].contains(its[i])
                &&& !ss[i].contains(class_seq(classes, its[i]))
                &&& ss[i + 1] == ss[i].insert(class_seq(classes, its[i]))
                &&& forall|q: Seq<usize>| rs[i + 1].contains(q) ==> #[trigger] rs[i].contains(q)
                &&& forall|q: Seq<usize>|
                    #[trigger] rs[i].contains(q) && !rs[i + 1].contains(q) ==> ss[i + 1].contains(class_seq(classes, q))
            } by {
                assert(rs[i] == rems[i] && its[i] == items[i] && rs[i + 1] == rems[i + 1]);
                assert(ss[i] == seens[i] && ss[i + 1] == seens[i + 1]);
                assert(rems[i].contains(items[i]));
            }
        }
        law_filter_yields_each_ordering_once(classes, rs, ss, its);
        assert(rems[n].contains(items[n]));
        assert(seens.last() == seens[n].insert(class_seq(classes, items[n])));
        assert forall|c: Seq<usize>| #[trigger] seens.last().contains(c) <==> (seens[0].contains(c) || exists|i: int|
            0 <= i < items.len() && class_seq(classes, #[trigger] items[i]) == c) by {
            assert(ss.last() == seens[n] && ss[0] == seens[0]);
            if exists|i: int| 0 <= i < items.len() && class_seq(classes, #[trigger] items[i]) == c {
                let i = choose|i: int| 0 <= i < items.len() && class_seq(classes, #[trigger] items[i]) == c;
                if i < n {
                    assert(its[i] == items[i]);
                }
            }
            if exists|i: int| 0 <= i < its.len() && class_seq(classes, #[trigger] its[i]) == c {
                let i = choose|i: int| 0 <= i < its.len() && class_seq(classes, #[trigger] its[i]) == c;
                assert(items[i] == its[i]);
            }
        }
        assert forall|q: Seq<usize>| #[trigger] rems[0].contains(q) && !rems.last().contains(q) implies seens.last().contains(
            class_seq(classes, q),
        ) by {
            assert(rs[0] == rems[0] && rs.last() == rems[n]);
            assert(ss.last() == seens[n]);
            if rems[n].contains(q) {
                assert(seens[n + 1].contains(class_seq(classes, q)));
            } else {
                assert(ss.last().contains(class_seq(classes, q)));
            }
        }
    }
}

} // verus!
