//! Generate combinations of, e.g., paths for trains to operate.
//!
//! Each iterator yields its combinations in lexicographic order, where a
//! combination precedes every longer combination that it is a prefix of:
//! `[0]`, `[0, 1]`, `[0, 1, 2]`, `[0, 1, 3]`, ..., `[0, 2]`, ...
//! The `remaining()` view of an iterator is the set of combinations that it
//! has not yet yielded; each call to `next()` yields and removes the least.
use vstd::prelude::*;

verus! {

/// The elements of `s` strictly increase.
pub open spec fn increasing(s: Seq<usize>) -> bool {
    forall|i: int, j: int| 0 <= i < j < s.len() ==> s[i] < s[j]
}

/// Every element of `s` is less than `n`.
pub open spec fn below(s: Seq<usize>, n: int) -> bool {
    forall|i: int| 0 <= i < s.len() ==> s[i] < n
}

/// A bound on the length of the combination that an iterator is extending,
/// for a length limit `k` (no combination is extended when `k` is zero).
pub open spec fn len_limit(k: int) -> int {
    if k <= 0 {
        1
    } else {
        k
    }
}

/// `a` is a prefix of `b`.
pub open spec fn is_prefix(a: Seq<usize>, b: Seq<usize>) -> bool {
    &&& a.len() <= b.len()
    &&& forall|j: int| 0 <= j < a.len() ==> a[j] == b[j]
}

/// `a` and `b` agree before position `i`, and `a[i] < b[i]`.
pub open spec fn differs_at(a: Seq<usize>, b: Seq<usize>, i: int) -> bool {
    &&& 0 <= i < a.len()
    &&& i < b.len()
    &&& forall|j: int| 0 <= j < i ==> a[j] == b[j]
    &&& a[i] < b[i]
}

/// Lexicographic order, in which a prefix precedes its extensions.
pub open spec fn lex_le(a: Seq<usize>, b: Seq<usize>) -> bool {
    is_prefix(a, b) || exists|i: int| #[trigger] differs_at(a, b, i)
}

/// A combination of up to `k` elements (at least one) of a set of size `n`:
/// there is none where `k` is zero.
pub open spec fn is_combination(s: Seq<usize>, n: int, k: int) -> bool {
    &&& 1 <= s.len() <= k
    &&& increasing(s)
    &&& below(s, n)
}

/// A combination of exactly `k` elements of a set of size `n`: there is
/// none where `k` is zero.
pub open spec fn is_k_combination(s: Seq<usize>, n: int, k: int) -> bool {
    &&& 1 <= k
    &&& s.len() == k
    &&& increasing(s)
    &&& below(s, n)
}

/// The sequences of at most `len` values below `n`.
pub open spec fn bounded_seqs(n: int, len: int) -> Set<Seq<usize>> {
    Set::new(|s: Seq<usize>| s.len() <= len && below(s, n))
}

/// The sequences of at most `len` values, each followed by a value below
/// `m`.
spec fn extended_seqs(n: int, len: int, m: int) -> Set<Seq<usize>>
    decreases m,
{
    if m <= 0 {
        Set::empty()
    } else {
        extended_seqs(n, len, m - 1).union(
            bounded_seqs(n, len).map(|s: Seq<usize>| s.push((m - 1) as usize)),
        )
    }
}

/// Extending each of a finite set of sequences by one of `m` values gives a
/// finite set.
proof fn lemma_extended_finite(n: int, len: int, m: int)
    requires
        bounded_seqs(n, len).finite(),
    ensures
        extended_seqs(n, len, m).finite(),
        forall|s: Seq<usize>, v: usize|
            bounded_seqs(n, len).contains(s) && v < m ==> #[trigger] extended_seqs(n, len, m).contains(s.push(v)),
    decreases m,
{
    broadcast use vstd::set_lib::lemma_set_union_finite_iff;
    if m > 0 {
        lemma_extended_finite(n, len, m - 1);
        bounded_seqs(n, len).lemma_map_finite(|s: Seq<usize>| s.push((m - 1) as usize));
        assert forall|s: Seq<usize>, v: usize|
            bounded_seqs(n, len).contains(s) && v < m implies #[trigger] extended_seqs(n, len, m).contains(s.push(v)) by {
            if v == m - 1 {
                assert(bounded_seqs(n, len).map(|s: Seq<usize>| s.push((m - 1) as usize)).contains(s.push(v)));
            }
        }
    }
}

/// There are finitely many sequences of at most `len` values below `n`.
pub proof fn lemma_bounded_seqs_finite(n: int, len: int)
    requires
        0 <= n <= usize::MAX + 1,
    ensures
        bounded_seqs(n, len).finite(),
    decreases len,
{
    broadcast use vstd::set_lib::lemma_set_union_finite_iff;
    if len < 0 {
        assert(bounded_seqs(n, len) =~= Set::<Seq<usize>>::empty());
    } else if len == 0 {
        assert(bounded_seqs(n, len) =~= Set::<Seq<usize>>::empty().insert(Seq::<usize>::empty())) by {
            assert forall|s: Seq<usize>| bounded_seqs(n, len).contains(s) implies s =~= Seq::<usize>::empty() by {}
            assert(bounded_seqs(n, len).contains(Seq::<usize>::empty()));
        }
    } else {
        lemma_bounded_seqs_finite(n, len - 1);
        lemma_extended_finite(n, len - 1, n);
        let whole = bounded_seqs(n, len - 1).union(extended_seqs(n, len - 1, n));
        assert(bounded_seqs(n, len).subset_of(whole)) by {
            assert forall|s: Seq<usize>| bounded_seqs(n, len).contains(s) implies whole.contains(s) by {
                if s.len() == len {
                    let t = s.drop_last();
                    assert(bounded_seqs(n, len - 1).contains(t));
                    assert(t.push(s.last()) =~= s);
                    assert(extended_seqs(n, len - 1, n).contains(t.push(s.last())));
                }
            }
        }
        vstd::set_lib::lemma_len_subset(bounded_seqs(n, len), whole);
    }
}

/// Every combination is at least `[0]`.
proof fn lemma_start(s: Seq<usize>)
    requires
        s.len() >= 1,
    ensures
        lex_le(seq![0usize], s),
{
    if s[0] != 0 {
        assert(differs_at(seq![0usize], s, 0));
    }
}

/// No sequence of values below `n` is at least `[c]` when `c >= n`.
proof fn lemma_exhausted(s: Seq<usize>, c: usize, n: int)
    requires
        below(s, n),
        c >= n,
    ensures
        !lex_le(seq![c], s),
{
    assert(seq![c][0] == c);
    if lex_le(seq![c], s) {
        if is_prefix(seq![c], s) {
            assert(s[0] < n);
        } else {
            let i = choose|i: int| #[trigger] differs_at(seq![c], s, i);
        }
    }
}

/// Moving past an exhausted position: with `c >= n`, the sequences of values
/// below `n` that are at least `items + [p, c]` are those at least
/// `items + [p + 1]`.
proof fn lemma_pop(items: Seq<usize>, p: usize, c: usize, n: int, s: Seq<usize>)
    requires
        below(s, n),
        c >= n,
        p < n,
        n <= usize::MAX,
    ensures
        lex_le(items.push(p).push(c), s) <==> lex_le(items.push((p + 1) as usize), s),
{
    let a = items.push(p).push(c);
    let b = items.push((p + 1) as usize);
    let m = items.len() as int;
    if lex_le(a, s) {
        if is_prefix(a, s) {
            assert(s[m + 1] == c);
        } else {
            let i = choose|i: int| #[trigger] differs_at(a, s, i);
            if i == m + 1 {
                assert(s[i] < n);
            } else if i == m {
                if s[m] == p + 1 {
                    assert(is_prefix(b, s));
                } else {
                    assert(differs_at(b, s, m));
                }
            } else {
                assert(differs_at(b, s, i));
            }
        }
    }
    if lex_le(b, s) {
        if is_prefix(b, s) {
            assert(differs_at(a, s, m));
        } else {
            let i = choose|i: int| #[trigger] differs_at(b, s, i);
            assert(differs_at(a, s, i));
        }
    }
}

/// Yielding the least remaining combination `items + [c]`: what remains is
/// everything at least `next`, where `next` extends it with `c + 1` if it may
/// grow, and otherwise replaces `c` with `c + 1`.
proof fn lemma_yield(items: Seq<usize>, c: usize, n: int, limit: int, s: Seq<usize>)
    requires
        increasing(items.push(c)),
        c < n,
        n <= usize::MAX,
        items.len() + 1 <= limit,
        increasing(s),
        below(s, n),
        s.len() <= limit,
    ensures
        items.len() + 1 < limit ==> (lex_le(items.push(c), s) <==> (s == items.push(c) || lex_le(
            items.push(c).push((c + 1) as usize),
            s,
        ))),
        items.len() + 1 == limit ==> (lex_le(items.push(c), s) <==> (s == items.push(c) || lex_le(
            items.push((c + 1) as usize),
            s,
        ))),
{
    let b = items.push(c);
    let m = items.len() as int;
    let grow = b.push((c + 1) as usize);
    let step = items.push((c + 1) as usize);
    if lex_le(b, s) {
        if is_prefix(b, s) {
            if s.len() == b.len() {
                assert(s =~= b);
            } else {
                assert(s[m] < s[m + 1]);
                if m + 1 < limit {
                    if s[m + 1] == c + 1 {
                        assert(is_prefix(grow, s));
                    } else {
                        assert(differs_at(grow, s, m + 1));
                    }
                }
            }
        } else {
            let i = choose|i: int| #[trigger] differs_at(b, s, i);
            if i < m {
                assert(differs_at(grow, s, i));
                assert(differs_at(step, s, i));
            } else {
                assert(differs_at(grow, s, m));
                if s[m] == c + 1 {
                    assert(is_prefix(step, s));
                } else {
                    assert(differs_at(step, s, m));
                }
            }
        }
    }
    if s == b {
        assert(is_prefix(b, s));
    }
    assert forall|j: int| 0 <= j < m implies step[j] == b[j] && grow[j] == b[j] by {
        assert(step[j] == items[j]);
        assert(b[j] == items[j]);
    }
    assert(grow[m] == b[m]);
    if m + 1 < limit && lex_le(grow, s) {
        if is_prefix(grow, s) {
            assert(is_prefix(b, s));
        } else {
            let i = choose|i: int| #[trigger] differs_at(grow, s, i);
            if i <= m {
                assert(differs_at(b, s, i));
            } else {
                assert(is_prefix(b, s));
            }
        }
    }
    if m + 1 == limit && lex_le(step, s) {
        if is_prefix(step, s) {
            assert(differs_at(b, s, m));
        } else {
            let i = choose|i: int| #[trigger] differs_at(step, s, i);
            assert(differs_at(b, s, i));
        }
    }
}

/// Raising the last element of an increasing sequence keeps it increasing.
proof fn lemma_bump(items: Seq<usize>, c: usize, d: usize)
    requires
        increasing(items.push(c)),
        c <= d,
    ensures
        increasing(items.push(d)),
{
    let a = items.push(c);
    let b = items.push(d);
    assert forall|i: int, j: int| 0 <= i < j < b.len() implies b[i] < b[j] by {
        assert(a[i] < a[j]);
    }
}

/// Appending a value above the last element keeps a sequence increasing.
proof fn lemma_extend(b: Seq<usize>, d: usize)
    requires
        increasing(b),
        b.len() >= 1,
        b[b.len() - 1] < d,
    ensures
        increasing(b.push(d)),
{
    let c = b.push(d);
    assert forall|i: int, j: int| 0 <= i < j < c.len() implies c[i] < c[j] by {
        if j < b.len() {
            assert(b[i] < b[j]);
        } else if i < b.len() - 1 {
            assert(b[i] < b[b.len() - 1]);
        }
    }
}

/// Returns the largest value in a non-empty vector.
fn max_value(v: &Vec<usize>) -> (m: usize)
    requires
        v@.len() > 0,
    ensures
        v@.contains(m),
        forall|i: int| 0 <= i < v@.len() ==> v@[i] <= m,
{
    let mut m = v[0];
    let mut i: usize = 1;
    assert(v@.subrange(0, 1)[0] == m);
    while i < v.len()
        invariant
            1 <= i <= v@.len(),
            v@.subrange(0, i as int).contains(m),
            forall|j: int| 0 <= j < i ==> v@[j] <= m,
        decreases v@.len() - i,
    {
        if v[i] > m {
            m = v[i];
            assert(v@.subrange(0, i + 1)[i as int] == m);
        } else {
            proof {
                let k = choose|k: int| 0 <= k < i && v@.subrange(0, i as int)[k] == m;
                assert(v@.subrange(0, i + 1)[k] == m);
            }
        }
        i += 1;
    }
    proof {
        let k = choose|k: int| 0 <= k < i && v@.subrange(0, i as int)[k] == m;
        assert(v@[k] == m);
    }
    m
}

/// Iterate over *k*-combinations of a set of size *n*, for all *k* up to some
/// limit *k_max*.
pub struct Combinations {
    item_count: usize,
    max_len: usize,
    items: Vec<usize>,
    current_ix: usize,
}

impl Combinations {
    /// The smallest combination not yet yielded is at least this sequence.
    pub closed spec fn bound(&self) -> Seq<usize> {
        self.items@.push(self.current_ix)
    }

    /// The internal state is consistent.
    pub closed spec fn wf(&self) -> bool {
        &&& increasing(self.bound())
        &&& below(self.items@, self.item_count as int)
        &&& self.items@.len() < len_limit(self.max_len as int)
    }

    /// The combinations that have not yet been yielded.
    pub closed spec fn remaining(&self) -> Set<Seq<usize>> {
        Set::new(
            |s: Seq<usize>|
                is_combination(s, self.item_count as int, self.max_len as int) && lex_le(
                    self.bound(),
                    s,
                ),
        )
    }

    /// Create an iterator over *k*-combinations of a set of size *n*, for all
    /// *k* up to the limit *k_max*.
    pub fn new(n: usize, k_max: usize) -> (c: Self)
        ensures
            c.wf(),
            c.remaining() == Set::new(|s: Seq<usize>| is_combination(s, n as int, k_max as int)),
    {
        let c = Combinations {
            item_count: n,
            max_len: k_max,
            items: Vec::with_capacity(k_max),
            current_ix: 0,
        };
        proof {
            assert(c.bound() =~= seq![0usize]);
            assert forall|s: Seq<usize>| is_combination(s, n as int, k_max as int) implies lex_le(
                c.bound(),
                s,
            ) by {
                lemma_start(s);
            }
            assert(c.remaining() =~= Set::new(
                |s: Seq<usize>| is_combination(s, n as int, k_max as int),
            ));
        }
        c
    }

    /// Yields the least combination not yet yielded, or `None` once every
    /// combination has been yielded.
    pub fn next(&mut self) -> (item: Option<Vec<usize>>)
        requires
            old(self).wf(),
        ensures
            final(self).wf(),
            match item {
                Some(c) => {
                    &&& old(self).remaining().contains(c@)
                    &&& forall|s: Seq<usize>| #[trigger]
                        old(self).remaining().contains(s) ==> lex_le(c@, s)
                    &&& final(self).remaining() == old(self).remaining().remove(c@)
                },
                None => {
                    &&& old(self).remaining() == Set::<Seq<usize>>::empty()
                    &&& final(self).remaining() == Set::<Seq<usize>>::empty()
                },
            },
    {
        if self.max_len == 0 {
            // No combination has at most zero elements.
            assert(self.remaining() =~= Set::<Seq<usize>>::empty());
            return None;
        }
        let ghost n = self.item_count as int;
        let ghost k = self.max_len as int;
        loop
            invariant
                self.wf(),
                self.item_count == old(self).item_count,
                self.max_len == old(self).max_len,
                n == self.item_count,
                k == self.max_len,
                k >= 1,
                self.remaining() == old(self).remaining(),
            decreases self.items@.len(),
        {
            if self.current_ix >= self.item_count {
                // Reached the end of nesting, pop.
                let ghost before = *self;
                if let Some(prev_ix) = self.items.pop() {
                    // Move to the next sibling.
                    self.current_ix = prev_ix + 1;
                    proof {
                        assert(before.items@ =~= self.items@.push(prev_ix));
                        assert(before.bound()[self.items@.len() as int] == prev_ix);
                        assert forall|i: int, j: int|
                            0 <= i < j < self.bound().len() implies self.bound()[i] < self.bound()[j] by {
                            assert(before.bound()[i] < before.bound()[self.items@.len() as int]);
                            if j < self.items@.len() {
                                assert(before.bound()[i] < before.bound()[j]);
                            }
                        }
                        assert forall|s: Seq<usize>| #[trigger]
                            is_combination(s, n, k) implies (lex_le(before.bound(), s) <==> lex_le(
                            self.bound(),
                            s,
                        )) by {
                            lemma_pop(self.items@, prev_ix, before.current_ix, n, s);
                        }
                        assert(self.remaining() =~= before.remaining());
                    }
                } else {
                    // Have iterated over all possible combinations.
                    proof {
                        assert(before.bound() =~= seq![before.current_ix]);
                        assert forall|s: Seq<usize>| !#[trigger] before.remaining().contains(s) by {
                            if is_combination(s, n, k) {
                                lemma_exhausted(s, before.current_ix, n);
                            }
                        }
                        assert(before.remaining() =~= Set::<Seq<usize>>::empty());
                    }
                    return None;
                }
            } else {
                let ghost before = *self;
                self.items.push(self.current_ix);
                let item = self.items.clone();
                proof {
                    assert(item@ =~= before.bound());
                }
                if self.items.len() < self.max_len {
                    // Prepare to descend, starting at the smallest value that
                    // hasn't already been included in the current combination.
                    let top = max_value(&self.items);
                    proof {
                        assert(self.items@[self.items@.len() - 1] == before.current_ix);
                    }
                    self.current_ix = top + 1;
                } else {
                    // Prepare to move to the next sibling.
                    self.items.pop();
                    self.current_ix += 1;
                }
                proof {
                    assert(before.items@.push(before.current_ix) == item@);
                    assert forall|s: Seq<usize>| #[trigger]
                        is_combination(s, n, k) implies (lex_le(before.bound(), s) <==> (s
                        == item@ || lex_le(self.bound(), s))) by {
                        lemma_yield(before.items@, before.current_ix, n, len_limit(k), s);
                        if item@.len() < len_limit(k) {
                            assert(self.bound() =~= item@.push((before.current_ix + 1) as usize));
                        } else {
                            assert(self.bound() =~= before.items@.push(
                                (before.current_ix + 1) as usize,
                            ));
                        }
                    }
                    assert(self.remaining() =~= before.remaining().remove(item@));
                    assert(is_combination(item@, n, k));
                }
                return Some(item);
            }
        }
    }
}

/// The relation `rel` excludes the pair `(a, b)`: `a` may not precede `b`
/// in a combination.
pub open spec fn excludes(rel: spec_fn(usize, usize) -> bool, a: usize, b: usize) -> bool {
    rel(a, b)
}

/// The filter `f` can be called on any pair, and answers whether `rel`
/// excludes it.
pub open spec fn decided_by<F: Fn(usize, usize) -> bool>(f: F, rel: spec_fn(usize, usize) -> bool) -> bool {
    &&& forall|a: usize, b: usize| call_requires(f, (a, b))
    &&& forall|a: usize, b: usize, r: bool| call_ensures(f, (a, b), r) ==> r == rel(a, b)
}

/// The pairs that the filter `f` is known to exclude.
pub open spec fn filter_relation<F: Fn(usize, usize) -> bool>(f: F) -> spec_fn(usize, usize) -> bool {
    |a: usize, b: usize| call_ensures(f, (a, b), true)
}

/// The filter can be called on any pair and always gives the same answer.
pub open spec fn is_pure_filter<F: Fn(usize, usize) -> bool>(f: F) -> bool {
    decided_by(f, filter_relation(f))
}

/// No pair of elements of `s` is excluded by the relation.
pub open spec fn admissible(rel: spec_fn(usize, usize) -> bool, s: Seq<usize>) -> bool {
    forall|i: int, j: int| 0 <= i < j < s.len() ==> !excludes(rel, #[trigger] s[i], #[trigger] s[j])
}

/// Skipping a value that the filter excludes after one of `items`: the
/// admissible sequences at least `items + [c]` are those at least
/// `items + [c + 1]`.
proof fn lemma_skip(
    f: spec_fn(usize, usize) -> bool,
    items: Seq<usize>,
    x: int,
    c: usize,
    n: int,
    s: Seq<usize>,
)
    requires
        0 <= x < items.len(),
        excludes(f, items[x], c),
        admissible(f, s),
        c < n,
        n <= usize::MAX,
    ensures
        lex_le(items.push(c), s) <==> lex_le(items.push((c + 1) as usize), s),
{
    let a = items.push(c);
    let b = items.push((c + 1) as usize);
    let m = items.len() as int;
    assert forall|j: int| 0 <= j < m implies a[j] == b[j] && a[j] == items[j] by {}
    if lex_le(a, s) {
        if is_prefix(a, s) {
            assert(s[x] == items[x]);
            assert(s[m] == c);
            assert(!excludes(f, s[x], s[m]));
        } else {
            let i = choose|i: int| #[trigger] differs_at(a, s, i);
            if i == m && s[m] == c + 1 {
                assert(is_prefix(b, s));
            } else {
                assert(differs_at(b, s, i));
            }
        }
    }
    if lex_le(b, s) {
        if is_prefix(b, s) {
            assert(differs_at(a, s, m));
        } else {
            let i = choose|i: int| #[trigger] differs_at(b, s, i);
            assert(differs_at(a, s, i));
        }
    }
}

/// A sequence at least `[c]` starts with a value no smaller than `c`.
proof fn lemma_first_at_least(c: usize, s: Seq<usize>)
    requires
        lex_le(seq![c], s),
    ensures
        s.len() >= 1,
        s[0] >= c,
{
    assert(seq![c][0] == c);
    if !is_prefix(seq![c], s) {
        let i = choose|i: int| #[trigger] differs_at(seq![c], s, i);
    }
}

/// A non-empty sequence starting with a value no smaller than `c` is at
/// least `[c]`.
proof fn lemma_at_least_first(c: usize, s: Seq<usize>)
    requires
        s.len() >= 1,
        s[0] >= c,
    ensures
        lex_le(seq![c], s),
{
    assert(seq![c][0] == c);
    if s[0] > c {
        assert(differs_at(seq![c], s, 0));
    }
}

/// Iterate over *k*-combinations of a set of size *n*, for all *k* up to some
/// limit *k_max*, filtering out combinations that meet some criteria.
///
/// Note that filtering is done on a pairwise-comparison basis, to check for
/// pairs of values that should be excluded.
/// This means that all *1*-combinations (0..n-1, inclusive) will be returned.
/// By providing the filtering function as part of this iterator, instead of
/// filtering the output, this prunes *k*-combinations where, e.g., the
/// first two values should be excluded.
pub struct CombinationsFilter<F: Fn(usize, usize) -> bool> {
    item_count: usize,
    max_len: usize,
    items: Vec<usize>,
    current_ix: usize,
    item_filter: F,
    /// The pairs that the filter excludes.
    rel: Ghost<spec_fn(usize, usize) -> bool>,
}

impl<F: Fn(usize, usize) -> bool> CombinationsFilter<F> {
    /// The smallest combination not yet yielded is at least this sequence.
    pub closed spec fn bound(&self) -> Seq<usize> {
        self.items@.push(self.current_ix)
    }

    /// The number of items in the combination being extended.
    pub closed spec fn depth(&self) -> nat {
        self.items@.len()
    }

    /// The filter that this iterator applies.
    pub closed spec fn filter(&self) -> F {
        self.item_filter
    }

    /// The pairs that the filter excludes.
    pub closed spec fn relation(&self) -> spec_fn(usize, usize) -> bool {
        self.rel@
    }

    /// The iterator has not yet yielded anything.
    pub closed spec fn is_fresh(&self) -> bool {
        self.items@.len() == 0 && self.current_ix == 0
    }

    /// The size of the set.
    pub closed spec fn count(&self) -> int {
        self.item_count as int
    }

    /// The limit on the length of combinations.
    pub closed spec fn k_max(&self) -> int {
        self.max_len as int
    }

    /// The internal state is consistent.
    pub closed spec fn wf(&self) -> bool {
        &&& increasing(self.bound())
        &&& below(self.items@, self.item_count as int)
        &&& self.items@.len() < len_limit(self.max_len as int)
        &&& admissible(self.rel@, self.items@)
        &&& decided_by(self.item_filter, self.rel@)
    }

    /// The admissible combinations that have not yet been yielded.
    pub closed spec fn remaining(&self) -> Set<Seq<usize>> {
        Set::new(
            |s: Seq<usize>|
                is_combination(s, self.item_count as int, self.max_len as int) && admissible(
                    self.rel@,
                    s,
                ) && lex_le(self.bound(), s),
        )
    }

    /// There are finitely many combinations still to be yielded.
    pub proof fn lemma_remaining_finite(&self)
        ensures
            self.remaining().finite(),
    {
        let all = bounded_seqs(self.item_count as int, len_limit(self.max_len as int));
        lemma_bounded_seqs_finite(self.item_count as int, len_limit(self.max_len as int));
        assert(self.remaining().subset_of(all));
        vstd::set_lib::lemma_len_subset(self.remaining(), all);
    }

    /// Create an iterator over *k*-combinations of a set of size *n*, for all
    /// *k* up to the limit *k_max*, filtering out combinations for which
    /// `ignore` returns `true` for any pair of elements.
    pub fn new(n: usize, k_max: usize, ignore: F) -> (c: Self)
        requires
            is_pure_filter(ignore),
        ensures
            c.wf(),
            c.is_fresh(),
            c.filter() == ignore,
            c.relation() == filter_relation(ignore),
            c.count() == n,
            c.k_max() == k_max,
            c.remaining() == Set::new(
                |s: Seq<usize>|
                    is_combination(s, n as int, k_max as int) && admissible(filter_relation(ignore), s),
            ),
    {
        Self::with_relation(n, k_max, ignore, Ghost(filter_relation(ignore)))
    }

    /// Create an iterator over *k*-combinations of a set of size *n*, for all
    /// *k* up to the limit *k_max*, filtering out combinations that hold a
    /// pair that `rel` excludes, as `ignore` decides.
    pub fn with_relation(n: usize, k_max: usize, ignore: F, rel: Ghost<spec_fn(usize, usize) -> bool>) -> (c: Self)
        requires
            decided_by(ignore, rel@),
        ensures
            c.wf(),
            c.is_fresh(),
            c.filter() == ignore,
            c.relation() == rel@,
            c.count() == n,
            c.k_max() == k_max,
            c.remaining() == Set::new(
                |s: Seq<usize>| is_combination(s, n as int, k_max as int) && admissible(rel@, s),
            ),
    {
        let c = CombinationsFilter {
            item_count: n,
            max_len: k_max,
            items: Vec::with_capacity(k_max),
            current_ix: 0,
            item_filter: ignore,
            rel,
        };
        proof {
            assert(c.bound() =~= seq![0usize]);
            assert forall|s: Seq<usize>| is_combination(s, n as int, k_max as int) implies lex_le(
                c.bound(),
                s,
            ) by {
                lemma_start(s);
            }
            assert(c.remaining() =~= Set::new(
                |s: Seq<usize>| is_combination(s, n as int, k_max as int) && admissible(rel@, s),
            ));
        }
        c
    }

    /// Whether the filter excludes `ix` after any of the current items.
    fn excluded_after_items(&self, ix: usize) -> (r: bool)
        requires
            self.wf(),
        ensures
            r == exists|i: int| 0 <= i < self.items@.len() && excludes(self.rel@, #[trigger] self.items@[i], ix),
    {
        let mut i: usize = 0;
        while i < self.items.len()
            invariant
                self.wf(),
                i <= self.items@.len(),
                forall|j: int| 0 <= j < i ==> !excludes(self.rel@, #[trigger] self.items@[j], ix),
            decreases self.items@.len() - i,
        {
            if (self.item_filter)(self.items[i], ix) {
                return true;
            }
            i += 1;
        }
        false
    }

    /// Yields the least admissible combination not yet yielded, or `None`
    /// once every admissible combination has been yielded.
    pub fn next(&mut self) -> (item: Option<Vec<usize>>)
        requires
            old(self).wf(),
        ensures
            final(self).wf(),
            final(self).filter() == old(self).filter(),
            final(self).relation() == old(self).relation(),
            final(self).count() == old(self).count(),
            final(self).k_max() == old(self).k_max(),
            match item {
                Some(c) => {
                    &&& old(self).remaining().contains(c@)
                    &&& forall|s: Seq<usize>| #[trigger]
                        old(self).remaining().contains(s) ==> lex_le(c@, s)
                    &&& final(self).remaining() == old(self).remaining().remove(c@)
                },
                None => {
                    &&& old(self).remaining() == Set::<Seq<usize>>::empty()
                    &&& final(self).remaining() == Set::<Seq<usize>>::empty()
                },
            },
        decreases old(self).depth(),
    {
        if self.max_len == 0 {
            // No combination has at most zero elements.
            assert(self.remaining() =~= Set::<Seq<usize>>::empty());
            return None;
        }
        let ghost n = self.item_count as int;
        let ghost k = self.max_len as int;
        let ghost f = self.rel@;
        while self.current_ix < self.item_count
            invariant
                self.wf(),
                self.item_count == old(self).item_count,
                self.max_len == old(self).max_len,
                self.item_filter == old(self).item_filter,
                self.rel == old(self).rel,
                self.items@ == old(self).items@,
                n == self.item_count,
                k == self.max_len,
                k >= 1,
                f == self.rel@,
                self.remaining() == old(self).remaining(),
            decreases self.item_count - self.current_ix,
        {
            // NOTE: if we pass self.items in one go, the filter can also
            // prune combinations that no combination of trains is capable of
            // operating.
            if self.excluded_after_items(self.current_ix) {
                // NOTE: this efficiently prunes all sub-branches of the
                // depth-first search.
                let ghost before = *self;
                self.current_ix += 1;
                proof {
                    lemma_bump(before.items@, before.current_ix, self.current_ix);
                    let x = choose|x: int| 0 <= x < before.items@.len() && excludes(f, #[trigger] before.items@[x], before.current_ix);
                    assert forall|s: Seq<usize>| #[trigger]
                        is_combination(s, n, k) && admissible(f, s) implies (lex_le(before.bound(), s) <==> lex_le(
                        self.bound(),
                        s,
                    )) by {
                        lemma_skip(f, before.items@, x, before.current_ix, n, s);
                    }
                    assert(self.remaining() =~= before.remaining());
                }
                continue;
            }
            let ghost before = *self;
            self.items.push(self.current_ix);
            let item = self.items.clone();
            proof {
                assert(item@ =~= before.bound());
                assert forall|i: int, j: int| 0 <= i < j < item@.len() implies !excludes(f, #[trigger] item@[i], #[trigger] item@[j]) by {
                    if j < before.items@.len() {
                        assert(item@[i] == before.items@[i]);
                        assert(item@[j] == before.items@[j]);
                    } else {
                        assert(item@[i] == before.items@[i]);
                    }
                }
            }
            if self.items.len() < self.max_len {
                // Prepare to descend, starting at the smallest value that
                // hasn't already been included in the current combination.
                let top = max_value(&self.items);
                proof {
                    assert(self.items@[self.items@.len() - 1] == before.current_ix);
                }
                self.current_ix = top + 1;
            } else {
                // Prepare to move to the next sibling.
                self.items.pop();
                self.current_ix += 1;
            }
            proof {
                assert forall|s: Seq<usize>| #[trigger]
                    is_combination(s, n, k) && admissible(f, s) implies (lex_le(before.bound(), s) <==> (s
                    == item@ || lex_le(self.bound(), s))) by {
                    lemma_yield(before.items@, before.current_ix, n, len_limit(k), s);
                    if item@.len() < len_limit(k) {
                        assert(self.bound() =~= item@.push((before.current_ix + 1) as usize));
                    } else {
                        assert(self.bound() =~= before.items@.push(
                            (before.current_ix + 1) as usize,
                        ));
                    }
                }
                assert(self.remaining() =~= before.remaining().remove(item@));
                assert(is_combination(item@, n, k));
            }
            return Some(item);
        }
        // Reached the end of nesting, pop.
        let ghost before = *self;
        if let Some(prev_ix) = self.items.pop() {
            // Move to the next sibling, and rely on recursive searching.
            self.current_ix = prev_ix + 1;
            proof {
                assert(before.items@ =~= self.items@.push(prev_ix));
                assert(before.bound()[self.items@.len() as int] == prev_ix);
                assert forall|i: int, j: int|
                    0 <= i < j < self.bound().len() implies self.bound()[i] < self.bound()[j] by {
                    assert(before.bound()[i] < before.bound()[self.items@.len() as int]);
                    if j < self.items@.len() {
                        assert(before.bound()[i] < before.bound()[j]);
                    }
                }
                assert forall|i: int, j: int| 0 <= i < j < self.items@.len() implies !excludes(f, #[trigger] self.items@[i], #[trigger] self.items@[j]) by {
                    assert(self.items@[i] == before.items@[i]);
                    assert(self.items@[j] == before.items@[j]);
                }
                assert forall|s: Seq<usize>| #[trigger]
                    is_combination(s, n, k) implies (lex_le(before.bound(), s) <==> lex_le(
                    self.bound(),
                    s,
                )) by {
                    lemma_pop(self.items@, prev_ix, before.current_ix, n, s);
                }
                assert(self.remaining() =~= before.remaining());
            }
            self.next()
        } else {
            // Have iterated over all possible combinations.
            proof {
                assert(before.bound() =~= seq![before.current_ix]);
                assert forall|s: Seq<usize>| !#[trigger] before.remaining().contains(s) by {
                    if is_combination(s, n, k) {
                        lemma_exhausted(s, before.current_ix, n);
                    }
                }
                assert(before.remaining() =~= Set::<Seq<usize>>::empty());
            }
            None
        }
    }
}

/// In an increasing sequence, later elements exceed earlier ones by at least
/// the distance between them.
proof fn lemma_spread(s: Seq<usize>, i: int, j: int)
    requires
        increasing(s),
        0 <= i <= j < s.len(),
    ensures
        s[j] >= s[i] + (j - i),
    decreases j - i,
{
    if i < j {
        lemma_spread(s, i, j - 1);
        assert(s[j - 1] < s[j]);
    }
}

/// When fewer than the needed number of values remain from `c` up to `n`, no
/// increasing sequence of length `limit` below `n` continues `items` with a
/// value from `c` on, so `items + [c]` bounds it as `items + [n]` does.
proof fn lemma_no_room(items: Seq<usize>, c: usize, n: int, limit: int, s: Seq<usize>)
    requires
        c <= n <= usize::MAX,
        n - c < limit - items.len(),
        increasing(s),
        below(s, n),
        s.len() == limit,
    ensures
        lex_le(items.push(c), s) <==> lex_le(items.push(n as usize), s),
{
    let a = items.push(c);
    let b = items.push(n as usize);
    let m = items.len() as int;
    assert forall|j: int| 0 <= j < m implies a[j] == b[j] && a[j] == items[j] by {}
    if lex_le(a, s) {
        if is_prefix(a, s) {
            lemma_spread(s, m, limit - 1);
        } else {
            let i = choose|i: int| #[trigger] differs_at(a, s, i);
            if i == m {
                lemma_spread(s, m, limit - 1);
            } else {
                assert(differs_at(b, s, i));
            }
        }
    }
    if lex_le(b, s) {
        if is_prefix(b, s) {
            assert(s[m] < n);
        } else {
            let i = choose|i: int| #[trigger] differs_at(b, s, i);
            if i == m {
                assert(s[m] < n);
            } else {
                assert(differs_at(a, s, i));
            }
        }
    }
}

/// Iterate over *k*-combinations of a set of size *n*.
pub struct KCombinations {
    item_count: usize,
    want_len: usize,
    items: Vec<usize>,
    current_ix: usize,
}

impl KCombinations {
    /// The smallest combination not yet yielded is at least this sequence.
    pub closed spec fn bound(&self) -> Seq<usize> {
        self.items@.push(self.current_ix)
    }

    /// The internal state is consistent.
    pub closed spec fn wf(&self) -> bool {
        &&& increasing(self.bound())
        &&& below(self.items@, self.item_count as int)
        &&& self.current_ix <= self.item_count
        &&& self.items@.len() < len_limit(self.want_len as int)
    }

    /// The *k*-combinations that have not yet been yielded.
    pub closed spec fn remaining(&self) -> Set<Seq<usize>> {
        Set::new(
            |s: Seq<usize>|
                is_k_combination(s, self.item_count as int, self.want_len as int) && lex_le(
                    self.bound(),
                    s,
                ),
        )
    }

    /// Create an iterator over *k*-combinations of a set of size *n*.
    pub fn new(n: usize, k: usize) -> (c: Self)
        ensures
            c.wf(),
            c.remaining() == Set::new(|s: Seq<usize>| is_k_combination(s, n as int, k as int)),
    {
        let c = KCombinations {
            item_count: n,
            want_len: k,
            items: Vec::with_capacity(k),
            current_ix: 0,
        };
        proof {
            assert(c.bound() =~= seq![0usize]);
            assert forall|s: Seq<usize>| is_k_combination(s, n as int, k as int) implies lex_le(
                c.bound(),
                s,
            ) by {
                lemma_start(s);
            }
            assert(c.remaining() =~= Set::new(
                |s: Seq<usize>| is_k_combination(s, n as int, k as int),
            ));
        }
        c
    }

    /// Yields the least *k*-combination not yet yielded, or `None` once every
    /// *k*-combination has been yielded.
    ///
    /// Positions from which no *k*-combination can be completed are skipped
    /// without descending into them.
    pub fn next(&mut self) -> (item: Option<Vec<usize>>)
        requires
            old(self).wf(),
        ensures
            final(self).wf(),
            match item {
                Some(c) => {
                    &&& old(self).remaining().contains(c@)
                    &&& forall|s: Seq<usize>| #[trigger]
                        old(self).remaining().contains(s) ==> lex_le(c@, s)
                    &&& final(self).remaining() == old(self).remaining().remove(c@)
                },
                None => {
                    &&& old(self).remaining() == Set::<Seq<usize>>::empty()
                    &&& final(self).remaining() == Set::<Seq<usize>>::empty()
                },
            },
    {
        if self.want_len == 0 {
            // No combination has at most zero elements.
            assert(self.remaining() =~= Set::<Seq<usize>>::empty());
            return None;
        }
        let ghost n = self.item_count as int;
        let ghost k = self.want_len as int;
        let limit = if self.want_len == 0 {
            1
        } else {
            self.want_len
        };
        // Move back up until there is room to complete a combination.
        loop
            invariant
                self.wf(),
                self.item_count == old(self).item_count,
                self.want_len == old(self).want_len,
                n == self.item_count,
                k == self.want_len,
                limit == len_limit(k),
                self.remaining() == old(self).remaining(),
            ensures
                self.wf(),
                self.item_count == old(self).item_count,
                self.want_len == old(self).want_len,
                n == self.item_count,
                k == self.want_len,
                self.current_ix < self.item_count,
                limit - self.items@.len() <= self.item_count - self.current_ix,
                self.remaining() == old(self).remaining(),
            decreases self.items@.len(),
        {
            if self.current_ix < self.item_count && limit - self.items.len() <= self.item_count
                - self.current_ix {
                break;
            }
            let ghost before = *self;
            proof {
                assert forall|s: Seq<usize>| #[trigger]
                    is_k_combination(s, n, k) implies (lex_le(before.bound(), s) <==> lex_le(
                    before.items@.push(n as usize),
                    s,
                )) by {
                    if before.current_ix < n {
                        lemma_no_room(before.items@, before.current_ix, n, limit as int, s);
                    } else {
                        assert(before.bound() =~= before.items@.push(n as usize));
                    }
                }
            }
            if let Some(prev_ix) = self.items.pop() {
                // Move to the next sibling.
                self.current_ix = prev_ix + 1;
                proof {
                    assert(before.items@ =~= self.items@.push(prev_ix));
                    assert(before.bound()[self.items@.len() as int] == prev_ix);
                    assert forall|i: int, j: int|
                        0 <= i < j < self.bound().len() implies self.bound()[i] < self.bound()[j] by {
                        assert(before.bound()[i] < before.bound()[self.items@.len() as int]);
                        if j < self.items@.len() {
                            assert(before.bound()[i] < before.bound()[j]);
                        }
                    }
                    assert forall|s: Seq<usize>| #[trigger]
                        is_k_combination(s, n, k) implies (lex_le(before.bound(), s) <==> lex_le(
                        self.bound(),
                        s,
                    )) by {
                        lemma_pop(self.items@, prev_ix, n as usize, n, s);
                    }
                    assert(self.remaining() =~= before.remaining());
                }
            } else {
                // Have iterated over all possible combinations.
                proof {
                    assert(before.items@.push(n as usize) =~= seq![n as usize]);
                    assert forall|s: Seq<usize>| !#[trigger] before.remaining().contains(s) by {
                        if is_k_combination(s, n, k) {
                            lemma_exhausted(s, n as usize, n);
                        }
                    }
                    assert(before.remaining() =~= Set::<Seq<usize>>::empty());
                }
                return None;
            }
        }
        // Descend, starting at the smallest value that hasn't already been
        // included in the current combination.
        while self.items.len() + 1 < limit
            invariant
                self.wf(),
                self.item_count == old(self).item_count,
                self.want_len == old(self).want_len,
                n == self.item_count,
                k == self.want_len,
                limit == len_limit(k),
                self.current_ix < self.item_count,
                limit - self.items@.len() <= self.item_count - self.current_ix,
                self.remaining() == old(self).remaining(),
            decreases limit - self.items@.len(),
        {
            let ghost before = *self;
            self.items.push(self.current_ix);
            self.current_ix += 1;
            proof {
                assert(self.items@ =~= before.bound());
                assert(self.bound() =~= before.bound().push(self.current_ix));
                lemma_extend(before.bound(), self.current_ix);
                assert forall|s: Seq<usize>| #[trigger]
                    is_k_combination(s, n, k) implies (lex_le(before.bound(), s) <==> lex_le(
                    self.bound(),
                    s,
                )) by {
                    lemma_yield(before.items@, before.current_ix, n, limit as int, s);
                    if s == before.bound() {
                        assert(s.len() < limit);
                    }
                }
                assert(self.remaining() =~= before.remaining());
            }
        }
        let ghost before = *self;
        self.items.push(self.current_ix);
        let item = self.items.clone();
        // Prepare to move to the next sibling.
        self.items.pop();
        self.current_ix += 1;
        proof {
            assert(item@ =~= before.bound());
            assert(self.items@ =~= before.items@);
            assert forall|s: Seq<usize>| #[trigger]
                is_k_combination(s, n, k) implies (lex_le(before.bound(), s) <==> (s == item@
                || lex_le(self.bound(), s))) by {
                lemma_yield(before.items@, before.current_ix, n, limit as int, s);
            }
            assert(self.remaining() =~= before.remaining().remove(item@));
            assert(is_k_combination(item@, n, k));
            lemma_bump(before.items@, before.current_ix, self.current_ix);
        }
        Some(item)
    }
}

impl<F: Fn(usize, usize) -> bool + Send + Sync> CombinationsFilter<F> {
    /// Converts this iterator, which must not have yielded anything yet, into
    /// one whose work can be divided between threads.
    pub fn into_par_iter(self) -> (p: CombFilt<F>)
        requires
            self.wf(),
            self.is_fresh(),
        ensures
            p.wf(),
            p.remaining() == self.remaining(),
    {
        let p = CombFilt {
            item_count: self.item_count,
            max_len: self.max_len,
            current_ix: self.current_ix,
            item_filter: self.item_filter,
            ix0_max: self.item_count,
            rel: self.rel,
        };
        proof {
            assert(self.bound() =~= seq![0usize]);
            assert forall|s: Seq<usize>| #[trigger] p.remaining().contains(s) <==> self.remaining().contains(s) by {
                if is_combination(s, self.item_count as int, self.max_len as int) {
                    lemma_start(s);
                    lemma_at_least_first(0, s);
                }
            }
            assert(p.remaining() =~= self.remaining());
        }
        p
    }
}

/// Filtered *k*-combinations whose first elements lie in a range that can be
/// divided between threads; see [CombFiltProducer].
pub struct CombFilt<F: Fn(usize, usize) -> bool + Send + Sync> {
    item_count: usize,
    max_len: usize,
    current_ix: usize,
    ix0_max: usize,
    item_filter: F,
    rel: Ghost<spec_fn(usize, usize) -> bool>,
}

impl<F: Fn(usize, usize) -> bool + Send + Sync> CombFilt<F> {
    /// The internal state is consistent.
    pub closed spec fn wf(&self) -> bool {
        &&& self.current_ix <= self.ix0_max <= self.item_count
        &&& decided_by(self.item_filter, self.rel@)
    }

    /// The admissible combinations whose first element lies in the range.
    pub closed spec fn remaining(&self) -> Set<Seq<usize>> {
        Set::new(
            |s: Seq<usize>|
                is_combination(s, self.item_count as int, self.max_len as int) && admissible(
                    self.rel@,
                    s,
                ) && self.current_ix <= s[0] < self.ix0_max,
        )
    }

    /// Returns a producer that yields every combination of this iterator.
    pub fn producer(&self) -> (p: CombFiltProducer<'_, F>)
        requires
            self.wf(),
        ensures
            p.wf(),
            !p.in_progress(),
            p.remaining() == self.remaining(),
    {
        let p = CombFiltProducer {
            item_count: self.item_count,
            max_len: self.max_len,
            items: Vec::new(),
            current_ix: self.current_ix,
            ix0_max: self.ix0_max,
            item_filter: &self.item_filter,
            rel: self.rel,
        };
        proof {
            assert(p.bound() =~= seq![self.current_ix]);
            assert forall|s: Seq<usize>| #[trigger] p.remaining().contains(s) <==> self.remaining().contains(s) by {
                if is_combination(s, self.item_count as int, self.max_len as int) {
                    if lex_le(p.bound(), s) {
                        lemma_first_at_least(self.current_ix, s);
                    }
                    if s[0] >= self.current_ix {
                        lemma_at_least_first(self.current_ix, s);
                    }
                }
            }
            assert(p.remaining() =~= self.remaining());
        }
        p
    }
}

/// Yields filtered *k*-combinations whose first element lies in a range,
/// and can split that range to share the work with another producer.
pub struct CombFiltProducer<'a, F: Fn(usize, usize) -> bool + Send + Sync> {
    item_count: usize,
    max_len: usize,
    items: Vec<usize>,
    current_ix: usize,
    ix0_max: usize,
    item_filter: &'a F,
    rel: Ghost<spec_fn(usize, usize) -> bool>,
}

impl<'a, F: Fn(usize, usize) -> bool + Send + Sync> CombFiltProducer<'a, F> {
    /// The smallest combination not yet yielded is at least this sequence.
    pub closed spec fn bound(&self) -> Seq<usize> {
        self.items@.push(self.current_ix)
    }

    /// The producer has begun a combination.
    pub closed spec fn in_progress(&self) -> bool {
        self.items@.len() > 0
    }

    /// The next candidate value.
    pub closed spec fn current(&self) -> int {
        self.current_ix as int
    }

    /// The first elements of the combinations lie below this value.
    pub closed spec fn first_limit(&self) -> int {
        self.ix0_max as int
    }

    /// The next candidate value and the limit on first elements each fit in
    /// a `usize`.
    pub proof fn lemma_values_fit(&self)
        ensures
            0 <= self.current() <= usize::MAX,
            0 <= self.first_limit() <= usize::MAX,
    {
    }

    /// The number of items in the combination being extended.
    pub closed spec fn depth(&self) -> nat {
        self.items@.len()
    }

    /// The internal state is consistent.
    pub closed spec fn wf(&self) -> bool {
        &&& increasing(self.bound())
        &&& below(self.items@, self.item_count as int)
        &&& self.items@.len() < len_limit(self.max_len as int)
        &&& admissible(self.rel@, self.items@)
        &&& decided_by(*self.item_filter, self.rel@)
        &&& self.ix0_max <= self.item_count
        &&& self.items@.len() > 0 ==> self.items@[0] < self.ix0_max
        &&& self.items@.len() == 0 ==> self.current_ix <= self.ix0_max
    }

    /// The admissible combinations that have not yet been yielded.
    pub closed spec fn remaining(&self) -> Set<Seq<usize>> {
        Set::new(
            |s: Seq<usize>|
                is_combination(s, self.item_count as int, self.max_len as int) && admissible(
                    self.rel@,
                    s,
                ) && lex_le(self.bound(), s) && s[0] < self.ix0_max,
        )
    }

    /// Determine where to split the interval `[a, b]` of values for the
    /// first element of each *k*-combination: at its midpoint, if it holds
    /// more than one value and no combination has been started.
    pub fn split_at(&self) -> (r: Option<usize>)
        requires
            self.current() <= self.first_limit(),
        ensures
            r == if self.first_limit() - self.current() <= 1 || self.in_progress() {
                None::<usize>
            } else {
                Some((self.current() + (self.first_limit() - self.current()) / 2) as usize)
            },
            r matches Some(m) ==> self.current() < m < self.first_limit(),
    {
        // We cannot split this interval if there's only a single valid
        // value for the first element.
        let too_narrow = self.ix0_max - self.current_ix <= 1;
        // Perhaps we can split this if we clone self.items?
        let not_empty = !self.items.is_empty();
        if too_narrow || not_empty {
            None
        } else {
            // NOTE: the second half starts at the value split_at.
            let split_at = self.current_ix + (self.ix0_max - self.current_ix) / 2;
            Some(split_at)
        }
    }

    /// Splits this producer in two, where possible: the first yields the
    /// combinations that start below the split point, the second those that
    /// start at or above it.
    pub fn split(self) -> (r: (Self, Option<Self>))
        requires
            self.wf(),
            self.current() <= self.first_limit(),
        ensures
            r.0.wf(),
            match r.1 {
                None => r.0 == self,
                Some(high) => {
                    &&& high.wf()
                    &&& !r.0.in_progress()
                    &&& !high.in_progress()
                    &&& forall|s: Seq<usize>| #[trigger] self.remaining().contains(s) <==> (r.0.remaining().contains(s)
                        || high.remaining().contains(s))
                    &&& forall|s: Seq<usize>, t: Seq<usize>|
                        #![trigger r.0.remaining().contains(s), high.remaining().contains(t)]
                        r.0.remaining().contains(s) && high.remaining().contains(t) ==> s[0] < t[0]
                },
            },
    {
        proof {
            if self.items@.len() > 0 {
                assert(self.items@[0] < self.ix0_max);
                assert(self.bound()[0] < self.bound()[self.items@.len() as int]);
            }
        }
        if let Some(split_at) = self.split_at() {
            let low = Self {
                item_count: self.item_count,
                max_len: self.max_len,
                items: Vec::new(),
                current_ix: self.current_ix,
                item_filter: self.item_filter,
                ix0_max: split_at,
                rel: self.rel,
            };
            let high = Self {
                item_count: self.item_count,
                max_len: self.max_len,
                items: Vec::new(),
                current_ix: split_at,
                item_filter: self.item_filter,
                ix0_max: self.ix0_max,
                rel: self.rel,
            };
            proof {
                assert(self.bound() =~= seq![self.current_ix]);
                assert(low.bound() =~= seq![self.current_ix]);
                assert(high.bound() =~= seq![split_at]);
                assert forall|s: Seq<usize>| #[trigger] self.remaining().contains(s) <==> (low.remaining().contains(s)
                    || high.remaining().contains(s)) by {
                    if is_combination(s, self.item_count as int, self.max_len as int) {
                        if lex_le(self.bound(), s) {
                            lemma_first_at_least(self.current_ix, s);
                            if s[0] >= split_at {
                                lemma_at_least_first(split_at, s);
                            }
                        }
                        if lex_le(high.bound(), s) {
                            lemma_first_at_least(split_at, s);
                            lemma_at_least_first(self.current_ix, s);
                        }
                    }
                }
                assert forall|s: Seq<usize>, t: Seq<usize>|
                    #![trigger low.remaining().contains(s), high.remaining().contains(t)]
                    low.remaining().contains(s) && high.remaining().contains(t) implies s[0] < t[0] by {
                    lemma_first_at_least(split_at, t);
                }
            }
            (low, Some(high))
        } else {
            (self, None)
        }
    }

    /// Yields the least admissible combination not yet yielded, or `None`
    /// once every admissible combination has been yielded.
    pub fn next(&mut self) -> (item: Option<Vec<usize>>)
        requires
            old(self).wf(),
        ensures
            final(self).wf(),
            match item {
                Some(c) => {
                    &&& old(self).remaining().contains(c@)
                    &&& forall|s: Seq<usize>| #[trigger]
                        old(self).remaining().contains(s) ==> lex_le(c@, s)
                    &&& final(self).remaining() == old(self).remaining().remove(c@)
                },
                None => {
                    &&& old(self).remaining() == Set::<Seq<usize>>::empty()
                    &&& final(self).remaining() == Set::<Seq<usize>>::empty()
                },
            },
        decreases old(self).depth(),
    {
        if self.max_len == 0 {
            // No combination has at most zero elements.
            assert(self.remaining() =~= Set::<Seq<usize>>::empty());
            return None;
        }
        let ghost n = self.item_count as int;
        let ghost k = self.max_len as int;
        let ghost f = self.rel@;
        let ix_ub = if self.items.is_empty() {
            // Use a different upper limit for the first element.
            self.ix0_max
        } else {
            self.item_count
        };
        while self.current_ix < ix_ub
            invariant
                self.wf(),
                self.item_count == old(self).item_count,
                self.max_len == old(self).max_len,
                self.ix0_max == old(self).ix0_max,
                self.item_filter == old(self).item_filter,
                self.rel == old(self).rel,
                self.items@ == old(self).items@,
                ix_ub == if self.items@.len() == 0 {
                    self.ix0_max
                } else {
                    self.item_count
                },
                n == self.item_count,
                k == self.max_len,
                k >= 1,
                f == self.rel@,
                self.remaining() == old(self).remaining(),
            decreases ix_ub - self.current_ix,
        {
            let ghost before = *self;
            let mut excluded = false;
            let mut i: usize = 0;
            while i < self.items.len()
                invariant
                    self.wf(),
                    *self == before,
                    f == self.rel@,
                    i <= self.items@.len(),
                    excluded ==> exists|x: int| 0 <= x < self.items@.len() && excludes(f, #[trigger] self.items@[x], self.current_ix),
                    !excluded ==> forall|j: int| 0 <= j < i ==> !excludes(f, #[trigger] self.items@[j], self.current_ix),
                ensures
                    *self == before,
                    excluded ==> exists|x: int| 0 <= x < self.items@.len() && excludes(f, #[trigger] self.items@[x], self.current_ix),
                    !excluded ==> forall|j: int| 0 <= j < self.items@.len() ==> !excludes(f, #[trigger] self.items@[j], self.current_ix),
                decreases self.items@.len() - i,
            {
                if (self.item_filter)(self.items[i], self.current_ix) {
                    excluded = true;
                    break;
                }
                i += 1;
            }
            if excluded {
                // NOTE: this efficiently prunes all sub-branches of the
                // depth-first search.
                self.current_ix += 1;
                proof {
                    lemma_bump(before.items@, before.current_ix, self.current_ix);
                    let x = choose|x: int| 0 <= x < before.items@.len() && excludes(f, #[trigger] before.items@[x], before.current_ix);
                    assert forall|s: Seq<usize>| #[trigger]
                        is_combination(s, n, k) && admissible(f, s) implies (lex_le(before.bound(), s) <==> lex_le(
                        self.bound(),
                        s,
                    )) by {
                        lemma_skip(f, before.items@, x, before.current_ix, n, s);
                    }
                    assert(self.remaining() =~= before.remaining());
                }
                continue;
            }
            self.items.push(self.current_ix);
            let item = self.items.clone();
            proof {
                assert(item@ =~= before.bound());
                assert forall|i: int, j: int| 0 <= i < j < item@.len() implies !excludes(f, #[trigger] item@[i], #[trigger] item@[j]) by {
                    if j < before.items@.len() {
                        assert(item@[i] == before.items@[i]);
                        assert(item@[j] == before.items@[j]);
                    } else {
                        assert(item@[i] == before.items@[i]);
                    }
                }
                if before.items@.len() > 0 {
                    assert(item@[0] == before.items@[0]);
                }
            }
            if self.items.len() < self.max_len {
                // Prepare to descend, starting at the smallest value that
                // hasn't already been included in the current combination.
                let top = max_value(&self.items);
                proof {
                    assert(self.items@[self.items@.len() - 1] == before.current_ix);
                }
                self.current_ix = top + 1;
            } else {
                // Prepare to move to the next sibling.
                self.items.pop();
                self.current_ix += 1;
            }
            proof {
                assert forall|s: Seq<usize>| #[trigger]
                    is_combination(s, n, k) && admissible(f, s) implies (lex_le(before.bound(), s) <==> (s
                    == item@ || lex_le(self.bound(), s))) by {
                    lemma_yield(before.items@, before.current_ix, n, len_limit(k), s);
                    if item@.len() < len_limit(k) {
                        assert(self.bound() =~= item@.push((before.current_ix + 1) as usize));
                    } else {
                        assert(self.bound() =~= before.items@.push(
                            (before.current_ix + 1) as usize,
                        ));
                    }
                }
                assert(self.remaining() =~= before.remaining().remove(item@));
                assert(is_combination(item@, n, k));
            }
            return Some(item);
        }
        // Reached the end of nesting, pop.
        let ghost before = *self;
        if let Some(prev_ix) = self.items.pop() {
            // Move to the next sibling, and rely on recursive searching.
            self.current_ix = prev_ix + 1;
            proof {
                assert(before.items@ =~= self.items@.push(prev_ix));
                assert(before.bound()[self.items@.len() as int] == prev_ix);
                assert forall|i: int, j: int|
                    0 <= i < j < self.bound().len() implies self.bound()[i] < self.bound()[j] by {
                    assert(before.bound()[i] < before.bound()[self.items@.len() as int]);
                    if j < self.items@.len() {
                        assert(before.bound()[i] < before.bound()[j]);
                    }
                }
                assert forall|i: int, j: int| 0 <= i < j < self.items@.len() implies !excludes(f, #[trigger] self.items@[i], #[trigger] self.items@[j]) by {
                    assert(self.items@[i] == before.items@[i]);
                    assert(self.items@[j] == before.items@[j]);
                }
                if self.items@.len() > 0 {
                    assert(self.items@[0] == before.items@[0]);
                } else {
                    assert(prev_ix == before.items@[0]);
                }
                assert forall|s: Seq<usize>| #[trigger]
                    is_combination(s, n, k) implies (lex_le(before.bound(), s) <==> lex_le(
                    self.bound(),
                    s,
                )) by {
                    lemma_pop(self.items@, prev_ix, before.current_ix, n, s);
                }
                assert(self.remaining() =~= before.remaining());
            }
            self.next()
        } else {
            proof {
                assert(before.bound() =~= seq![before.current_ix]);
                assert forall|s: Seq<usize>| !#[trigger] before.remaining().contains(s) by {
                    if lex_le(before.bound(), s) {
                        lemma_first_at_least(before.current_ix, s);
                    }
                }
                assert(before.remaining() =~= Set::<Seq<usize>>::empty());
            }
            None
        }
    }
}


/// Each of `items` was the least of the combinations remaining before it
/// was taken (`rems[k]` before the `k`th, `rems[k + 1]` after), and taking
/// it removed it and nothing else: what successive calls of `next` on any
/// of the iterators of this module do.
pub open spec fn taken_in_order(rems: Seq<Set<Seq<usize>>>, items: Seq<Seq<usize>>) -> bool {
    &&& rems.len() == items.len() + 1
    &&& forall|k: int|
        0 <= k < items.len() ==> {
            &&& #[trigger] rems[k].contains(items[k])
            &&& forall|s: Seq<usize>| #[trigger] rems[k].contains(s) ==> lex_le(items[k], s)
            &&& rems[k + 1] == rems[k].remove(items[k])
        }
}

proof fn lemma_taken_shrinks(rems: Seq<Set<Seq<usize>>>, items: Seq<Seq<usize>>, i: int, j: int)
    requires
        taken_in_order(rems, items),
        0 <= i <= j < rems.len(),
    ensures
        rems[j].subset_of(rems[i]),
    decreases j - i,
{
    if i < j {
        lemma_taken_shrinks(rems, items, i, j - 1);
        assert(rems[j - 1].contains(items[j - 1]));
        assert(rems[j] == rems[j - 1].remove(items[j - 1]));
    }
}

/// Successive calls of `next` yield combinations in strictly increasing
/// lexicographic order, so none twice, and what they yield is exactly what
/// was remaining at the start and is no longer remaining: once `next` has
/// returned `None` (nothing remains), every combination has been yielded.
pub proof fn law_next_enumerates_in_order(rems: Seq<Set<Seq<usize>>>, items: Seq<Seq<usize>>)
    requires
        taken_in_order(rems, items),
    ensures
        forall|i: int, j: int|
            0 <= i < j < items.len() ==> lex_le(#[trigger] items[i], #[trigger] items[j]) && items[i] != items[j],
        forall|s: Seq<usize>|
            #[trigger] rems[0].contains(s) <==> (rems.last().contains(s) || items.contains(s)),
    decreases items.len(),
{
    assert forall|i: int, j: int| 0 <= i < j < items.len() implies lex_le(#[trigger] items[i], #[trigger] items[j])
        && items[i] != items[j] by {
        lemma_taken_shrinks(rems, items, i, j);
        lemma_taken_shrinks(rems, items, i + 1, j);
        assert(rems[i].contains(items[i]));
        assert(rems[j].contains(items[j]));
        assert(rems[i].contains(items[j]));
        assert(rems[i + 1] == rems[i].remove(items[i]));
        assert(rems[i + 1].contains(items[j]));
    }
    if items.len() > 0 {
        let n = items.len() - 1;
        let rs = rems.drop_last();
        let its = items.drop_last();
        assert(taken_in_order(rs, its)) by {
            assert forall|k: int| 0 <= k < its.len() implies {
                &&& #[trigger] rs[k].contains(its[k])
                &&& forall|s: Seq<usize>| #[trigger] rs[k].contains(s) ==> lex_le(its[k], s)
                &&& rs[k + 1] == rs[k].remove(its[k])
            } by {
                assert(rs[k] == rems[k] && its[k] == items[k] && rs[k + 1] == rems[k + 1]);
            }
        }
        law_next_enumerates_in_order(rs, its);
        assert forall|s: Seq<usize>| #[trigger] rems[0].contains(s) <==> (rems.last().contains(s) || items.contains(s)) by {
            assert(rs[0] == rems[0]);
            assert(rs.last() == rems[n]);
            assert(rems[n].contains(items[n]));
            assert(rems.last() == rems[n].remove(items[n]));
            if its.contains(s) {
                let k = choose|k: int| 0 <= k < its.len() && its[k] == s;
                assert(items[k] == s);
            }
            if items.contains(s) {
                let k = choose|k: int| 0 <= k < items.len() && items[k] == s;
                if k < n {
                    assert(its[k] == s);
                }
            }
        }
    }
}

} // verus!
