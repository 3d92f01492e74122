//! Calculate maximum network flows using the Edmonds-Karp algorithm.
//!
//! A flow network is described by a `N x N` [Matrix], which is indexed by
//! `(row, column)` tuples.
//! The element in row `i` and column `j` defines the maximum flow allowed
//! from node `i` to node `j`.
//!
//! - Each element must be zero or a positive integer.
//! - If element `(i, j)` is non-zero, element `(j, i)` must be zero.
//! - The source node has index `0`.
//! - The sink node has index `N - 1`.
use std::collections::VecDeque;
use vstd::prelude::*;

verus! {

/// `r * n + c` lies inside a flat `n * n` table when `r` and `c` are less than `n`.
proof fn lemma_flat_index(n: int, r: int, c: int)
    requires
        0 <= r < n,
        0 <= c < n,
    ensures
        0 <= r * n + c < n * n,
{
    assert(0 <= r * n + c < n * n) by (nonlinear_arith)
        requires
            0 <= r < n,
            0 <= c < n,
    ;
}

/// Distinct cells of an `n * n` table have distinct flat indices.
proof fn lemma_flat_index_unique(n: int, r1: int, c1: int, r2: int, c2: int)
    requires
        0 <= r1 < n,
        0 <= c1 < n,
        0 <= r2 < n,
        0 <= c2 < n,
        r1 * n + c1 == r2 * n + c2,
    ensures
        r1 == r2,
        c1 == c2,
{
    if r1 < r2 {
        assert(r1 * n + n <= r2 * n) by (nonlinear_arith)
            requires
                r1 + 1 <= r2,
                0 <= n,
        ;
    } else if r2 < r1 {
        assert(r2 * n + n <= r1 * n) by (nonlinear_arith)
            requires
                r2 + 1 <= r1,
                0 <= n,
        ;
    }
}

/// Defines the capacity graph for a maximum-flow problem.
#[derive(Debug, Clone, PartialEq, Eq)]
pub struct Matrix {
    rows: usize,
    cols: usize,
    vals: Vec<usize>,
}

impl Matrix {
    /// The matrix is square and holds one value for each cell.
    pub closed spec fn wf(&self) -> bool {
        &&& self.rows == self.cols
        &&& self.vals@.len() == self.rows * self.cols
        &&& self.rows * self.cols <= usize::MAX
    }

    /// The number of rows (and columns).
    pub closed spec fn size(&self) -> nat {
        self.rows as nat
    }

    /// The value in row `r` and column `c`.
    pub closed spec fn at(&self, r: int, c: int) -> nat {
        self.vals@[r * self.rows + c] as nat
    }

    /// Whether `(r, c)` identifies a cell of this matrix.
    pub open spec fn has_cell(&self, r: int, c: int) -> bool {
        0 <= r < self.size() && 0 <= c < self.size()
    }

    /// The sum of the first `k` values in row `r`.
    pub open spec fn row_sum_upto(&self, r: int, k: int) -> int
        decreases k,
    {
        if k <= 0 {
            0
        } else {
            self.row_sum_upto(r, k - 1) + self.at(r, k - 1)
        }
    }

    /// The sum of the first `k` values in column `c`.
    pub open spec fn col_sum_upto(&self, c: int, k: int) -> int
        decreases k,
    {
        if k <= 0 {
            0
        } else {
            self.col_sum_upto(c, k - 1) + self.at(k - 1, c)
        }
    }

    /// The total of row `r`: the capacity (or flow) out of node `r`.
    pub open spec fn row_sum(&self, r: int) -> int {
        self.row_sum_upto(r, self.size() as int)
    }

    /// The total of column `c`: the capacity (or flow) into node `c`.
    pub open spec fn col_sum(&self, c: int) -> int {
        self.col_sum_upto(c, self.size() as int)
    }

    /// A set of nodes that holds the source but not the sink, such that no
    /// edge with positive capacity leaves the set.
    pub open spec fn is_saturated_cut(&self, s: Set<int>) -> bool {
        &&& s.contains(0)
        &&& !s.contains(self.size() - 1)
        &&& forall|i: int, j: int|
            #![trigger s.contains(i), self.at(i, j)]
            0 <= i < self.size() && 0 <= j < self.size() && s.contains(i) && self.at(i, j) > 0
                ==> s.contains(j)
    }

    /// The limits under which [max_flow()](Self::max_flow) runs without
    /// overflow: the source's capacity, and the capacity of each pair of
    /// opposite edges, fit in a `usize`; a one-node network has no loop.
    pub open spec fn fits(&self) -> bool {
        &&& self.row_sum(0) <= usize::MAX
        &&& forall|i: int, j: int|
            #![trigger self.at(i, j)]
            self.has_cell(i, j) && i != j ==> self.at(i, j) + self.at(j, i) <= usize::MAX
        &&& self.size() == 1 ==> self.at(0, 0) == 0
    }

    /// A flow network as the module documentation defines it: wherever an
    /// edge has positive capacity, the opposite edge has none, and the
    /// source's capacity fits in a `usize`.
    pub open spec fn is_network(&self) -> bool {
        &&& self.row_sum(0) <= usize::MAX
        &&& forall|i: int, j: int|
            #![trigger self.at(i, j)]
            self.has_cell(i, j) && self.at(i, j) > 0 ==> self.at(j, i) == 0
    }

    /// A cut between the source and the sink that `flows` saturates: every
    /// edge out of the set carries its full capacity and every edge into it
    /// carries nothing, so no more flow can reach the sink.
    pub open spec fn is_min_cut(&self, flows: Matrix, s: Set<int>) -> bool {
        &&& s.contains(0)
        &&& !s.contains(self.size() - 1)
        &&& forall|i: int, j: int|
            #![trigger s.contains(i), s.contains(j), flows.at(i, j)]
            0 <= i < self.size() && 0 <= j < self.size() && s.contains(i) && !s.contains(j)
                ==> flows.at(i, j) == self.at(i, j) && flows.at(j, i) == 0
    }

    /// Returns a square matrix with `n` rows and `n` columns.
    pub fn square(n: usize) -> (m: Self)
        requires
            n * n <= usize::MAX,
        ensures
            m.wf(),
            m.size() == n,
            forall|r: int, c: int| m.has_cell(r, c) ==> #[trigger] m.at(r, c) == 0,
    {
        let len = n * n;
        let mut vals: Vec<usize> = Vec::with_capacity(len);
        for i in 0..len
            invariant
                vals@.len() == i,
                forall|j: int| 0 <= j < i ==> #[trigger] vals@[j] == 0,
        {
            vals.push(0);
        }
        let m = Matrix { rows: n, cols: n, vals };
        proof {
            assert forall|r: int, c: int| m.has_cell(r, c) implies #[trigger] m.at(r, c) == 0 by {
                lemma_flat_index(n as int, r, c);
            }
        }
        m
    }

    /// Returns the number of rows in this matrix.
    pub fn rows(&self) -> (r: usize)
        ensures
            r == self.size(),
    {
        self.rows
    }

    /// Returns the number of columns in this matrix.
    pub fn cols(&self) -> (c: usize)
        requires
            self.wf(),
        ensures
            c == self.size(),
    {
        self.cols
    }

    /// Returns the index into `self.vals` for the given 2D index.
    fn _index(&self, index: (usize, usize)) -> (ix: usize)
        requires
            self.wf(),
            index.0 < self.size(),
            index.1 < self.size(),
        ensures
            ix == index.0 * self.rows + index.1,
            ix < self.vals@.len(),
    {
        proof {
            lemma_flat_index(self.rows as int, index.0 as int, index.1 as int);
        }
        let (row, col) = index;
        row * self.rows + col
    }

    /// Returns the value at `(row, column)`.
    pub fn get(&self, index: (usize, usize)) -> (v: usize)
        requires
            self.wf(),
            index.0 < self.size(),
            index.1 < self.size(),
        ensures
            v == self.at(index.0 as int, index.1 as int),
    {
        let ix = self._index(index);
        self.vals[ix]
    }

    /// Replaces the value at `(row, column)`.
    pub fn set(&mut self, index: (usize, usize), val: usize)
        requires
            old(self).wf(),
            index.0 < old(self).size(),
            index.1 < old(self).size(),
        ensures
            final(self).wf(),
            final(self).size() == old(self).size(),
            final(self).at(index.0 as int, index.1 as int) == val,
            forall|r: int, c: int|
                final(self).has_cell(r, c) && (r != index.0 || c != index.1)
                    ==> #[trigger] final(self).at(r, c) == old(self).at(r, c),
    {
        let ix = self._index(index);
        self.vals.set(ix, val);
        proof {
            let n = self.rows as int;
            assert forall|r: int, c: int|
                self.has_cell(r, c) && (r != index.0 || c != index.1) implies #[trigger] self.at(
                r,
                c,
            ) == old(self).at(r, c) by {
                lemma_flat_index(n, r, c);
                if r * n + c == ix {
                    lemma_flat_index_unique(n, r, c, index.0 as int, index.1 as int);
                }
            }
        }
    }

    /// Returns a copy of this matrix.
    fn duplicate(&self) -> (m: Matrix)
        ensures
            m.wf() == self.wf(),
            m.size() == self.size(),
            forall|r: int, c: int| #[trigger] m.at(r, c) == self.at(r, c),
    {
        let len = self.vals.len();
        let mut vals: Vec<usize> = Vec::with_capacity(len);
        for i in 0..len
            invariant
                len == self.vals@.len(),
                vals@ == self.vals@.subrange(0, i as int),
        {
            vals.push(self.vals[i]);
            assert(vals@ =~= self.vals@.subrange(0, i + 1));
        }
        assert(vals@ =~= self.vals@);
        Matrix { rows: self.rows, cols: self.cols, vals }
    }
}

impl Matrix {
    /// Returns the maximum flow through this graph.
    ///
    /// Note that this mutates the matrix, which is left holding the residual
    /// capacity of each edge.
    /// If this is not desirable, use [max_flow_mat()](Self::max_flow_mat)
    /// instead.
    pub fn max_flow(&mut self) -> (flow: usize)
        requires
            old(self).wf(),
            old(self).fits(),
        ensures
            final(self).wf(),
            final(self).size() == old(self).size(),
            flow == old(self).row_sum(0) - final(self).row_sum(0),
            forall|i: int, j: int|
                #![trigger final(self).at(i, j)]
                old(self).has_cell(i, j) ==> final(self).at(i, j) + final(self).at(j, i) == old(
                    self,
                ).at(i, j) + old(self).at(j, i),
            forall|v: int|
                0 < v < old(self).size() - 1 ==> #[trigger] final(self).row_sum(v) == old(
                    self,
                ).row_sum(v),
            old(self).size() >= 2 ==> final(self).row_sum(old(self).size() - 1) == old(
                self,
            ).row_sum(old(self).size() - 1) + flow,
            old(self).size() >= 2 ==> exists|s: Set<int>| final(self).is_saturated_cut(s),
    {
        let n = self.rows();
        let mut flow: usize = 0;
        let ghost init = *self;
        proof {
            lemma_row_sum_nonneg(*self, 0, n as int);
        }
        loop
            invariant
                init == *old(self),
                self.wf(),
                init.wf(),
                self.size() == n,
                init.size() == n,
                init.fits(),
                flow == init.row_sum(0) - self.row_sum(0),
                forall|i: int, j: int|
                    #![trigger self.at(i, j)]
                    init.has_cell(i, j) ==> self.at(i, j) + self.at(j, i) == init.at(i, j)
                        + init.at(j, i),
                forall|v: int| 0 < v < n - 1 ==> #[trigger] self.row_sum(v) == init.row_sum(v),
                n >= 2 ==> self.row_sum(n - 1) == init.row_sum(n - 1) + flow,
                self.row_sum(0) >= 0,
            decreases self.row_sum(0),
        {
            let found = bfs(self);
            match found {
                None => {
                    return flow;
                },
                Some((new_flow, parents)) => {
                    proof {
                        if n == 1 {
                            assert(init.at(0, 0) + init.at(0, 0) == self.at(0, 0) + self.at(0, 0));
                        }
                    }
                    let ghost (depth, lim) = choose|d: Seq<int>, l: Seq<int>|
                        augmenting(*self, parents@, new_flow as int, d, l);
                    let ghost mid = *self;
                    let mut curr_ix = n - 1;
                    while curr_ix > 0
                        invariant
                            self.wf(),
                            mid.wf(),
                            init.wf(),
                            self.size() == n,
                            mid.size() == n,
                            init.size() == n,
                            init.fits(),
                            augmenting(mid, parents@, new_flow as int, depth, lim),
                            curr_ix < n,
                            curr_ix != 0 ==> parents@[curr_ix as int] is Some,
                            curr_ix != 0 ==> new_flow <= lim[curr_ix as int],
                            forall|x: int|
                                0 < x < n && (#[trigger] parents@[x]) is Some && depth[x] <= depth[curr_ix as int]
                                    ==> self.at(parents@[x]->0 as int, x) == mid.at(
                                    parents@[x]->0 as int,
                                    x,
                                ),
                            forall|i: int, j: int|
                                #![trigger self.at(i, j)]
                                init.has_cell(i, j) ==> self.at(i, j) + self.at(j, i) == mid.at(i, j)
                                    + mid.at(j, i),
                            forall|i: int, j: int|
                                #![trigger mid.at(i, j)]
                                init.has_cell(i, j) ==> mid.at(i, j) + mid.at(j, i) == init.at(i, j)
                                    + init.at(j, i),
                            forall|v: int|
                                0 <= v < n ==> #[trigger] self.row_sum(v) == mid.row_sum(v) + (if v == n - 1 {
                                    new_flow as int
                                } else {
                                    0
                                }) - (if v == curr_ix {
                                    new_flow as int
                                } else {
                                    0
                                }),
                        decreases depth[curr_ix as int],
                    {
                        let prev_ix = parents[curr_ix].unwrap();
                        proof {
                            assert(link_ok(mid, parents@, depth, lim, curr_ix as int));
                        }
                        let ghost before = *self;
                        let cap = self.get((prev_ix, curr_ix));
                        self.set((prev_ix, curr_ix), cap - new_flow);
                        let ghost between = *self;
                        let back = self.get((curr_ix, prev_ix));
                        proof {
                            assert(before.at(curr_ix as int, prev_ix as int) + before.at(prev_ix as int, curr_ix as int)
                                == mid.at(curr_ix as int, prev_ix as int) + mid.at(prev_ix as int, curr_ix as int));
                            assert(init.at(curr_ix as int, prev_ix as int) + init.at(prev_ix as int, curr_ix as int) <= usize::MAX);
                        }
                        self.set((curr_ix, prev_ix), back + new_flow);
                        proof {
                            let p = prev_ix as int;
                            let c = curr_ix as int;
                            assert forall|v: int| 0 <= v < n implies #[trigger] self.row_sum(v) == mid.row_sum(v) + (if v == n - 1 {
                                    new_flow as int
                                } else {
                                    0
                                }) - (if v == p {
                                    new_flow as int
                                } else {
                                    0
                                }) by {
                                lemma_sums_after_set(before, between, p, c, v, n as int);
                                lemma_sums_after_set(between, *self, c, p, v, n as int);
                                assert(before.row_sum(v) == mid.row_sum(v) + (if v == n - 1 {
                                    new_flow as int
                                } else {
                                    0
                                }) - (if v == c {
                                    new_flow as int
                                } else {
                                    0
                                }));
                            }
                            assert forall|i: int, j: int|
                                #![trigger self.at(i, j)]
                                init.has_cell(i, j) implies self.at(i, j) + self.at(j, i) == mid.at(i, j)
                                    + mid.at(j, i) by {
                                assert(before.at(i, j) + before.at(j, i) == mid.at(i, j) + mid.at(j, i));
                            }
                            assert forall|x: int|
                                0 < x < n && (#[trigger] parents@[x]) is Some && depth[x] <= depth[p]
                                    implies self.at(parents@[x]->0 as int, x) == mid.at(
                                    parents@[x]->0 as int,
                                    x,
                                ) by {
                                assert(link_ok(mid, parents@, depth, lim, x));
                                if p != 0 {
                                    assert(link_ok(mid, parents@, depth, lim, p));
                                }
                            }
                        }
                        curr_ix = prev_ix;
                    }
                    proof {
                        lemma_row_sum_nonneg(*self, 0, n as int);
                        assert(self.row_sum(0) == mid.row_sum(0) - new_flow);
                        assert(init.row_sum(0) <= usize::MAX);
                    }
                    flow = flow + new_flow;
                },
            }
        }
    }

    /// Returns the maximum flow through this graph, and the matrix of flows
    /// within the graph.
    ///
    /// The flows respect each edge's capacity, are conserved at every node
    /// but the source and the sink, and saturate a cut between the source and
    /// the sink: no flow can be added.
    pub fn max_flow_mat(&self) -> (res: (usize, Matrix))
        requires
            self.wf(),
            self.is_network(),
        ensures
            res.1.wf(),
            res.1.size() == self.size(),
            forall|r: int, c: int| self.has_cell(r, c) ==> #[trigger] res.1.at(r, c) <= self.at(r, c),
            res.0 == res.1.row_sum(0) - res.1.col_sum(0),
            forall|v: int| 0 < v < self.size() - 1 ==> #[trigger] res.1.row_sum(v) == res.1.col_sum(v),
            self.size() >= 2 ==> res.1.col_sum(self.size() - 1) - res.1.row_sum(self.size() - 1) == res.0,
            self.size() >= 2 ==> exists|s: Set<int>| self.is_min_cut(res.1, s),
            // No flow through the network carries more: this is a maximum flow.
            self.size() >= 2 ==> forall|g: Matrix| #[trigger] carries(*self, g) ==> g.row_sum(0) - g.col_sum(0) <= res.0,
    {
        let mut output = self.duplicate();
        proof {
            lemma_same_sums(*self, output);
            assert forall|i: int, j: int| #![trigger output.at(i, j)]
                output.has_cell(i, j) && i != j implies output.at(i, j) + output.at(j, i) <= usize::MAX by {
                assert(self.at(i, j) > 0 ==> self.at(j, i) == 0);
            }
            if output.size() == 1 {
                assert(self.at(0, 0) > 0 ==> self.at(0, 0) == 0);
            }
        }
        let ghost dup = output;
        let flow = output.max_flow();
        let ghost resid = output;
        let n = output.rows();
        // There can only be flow along edges that had non-zero capacity to begin
        // with, so we can calculate the flow along each edge by subtracting the
        // remaining capacity from the original capacity, but only where the
        // original capacity is strictly positive (i.e., `> 0`).
        for r in 0..n
            invariant
                output.wf(),
                resid.wf(),
                self.wf(),
                output.size() == n,
                resid.size() == n,
                self.size() == n,
                self.is_network(),
                forall|i: int, j: int|
                    #![trigger resid.at(i, j)]
                    self.has_cell(i, j) ==> resid.at(i, j) + resid.at(j, i) == self.at(i, j) + self.at(j, i),
                forall|i: int, j: int|
                    #![trigger output.at(i, j)]
                    self.has_cell(i, j) ==> output.at(i, j) == if i < r {
                        flow_along(*self, resid, i, j)
                    } else {
                        resid.at(i, j) as int
                    },
        {
            for c in 0..n
                invariant
                    output.wf(),
                    resid.wf(),
                    self.wf(),
                    output.size() == n,
                    resid.size() == n,
                    self.size() == n,
                    self.is_network(),
                    r < n,
                    forall|i: int, j: int|
                        #![trigger resid.at(i, j)]
                        self.has_cell(i, j) ==> resid.at(i, j) + resid.at(j, i) == self.at(i, j) + self.at(j, i),
                    forall|i: int, j: int|
                        #![trigger output.at(i, j)]
                        self.has_cell(i, j) ==> output.at(i, j) == if i < r || (i == r && j < c) {
                            flow_along(*self, resid, i, j)
                        } else {
                            resid.at(i, j) as int
                        },
            {
                let index = (r, c);
                let orig = self.get(index);
                if orig > 0 {
                    let left = output.get(index);
                    proof {
                        assert(resid.at(r as int, c as int) + resid.at(c as int, r as int) == self.at(r as int, c as int) + self.at(c as int, r as int));
                        assert(self.at(c as int, r as int) == 0);
                    }
                    output.set(index, orig - left);
                } else {
                    output.set(index, 0);
                }
            }
        }
        proof {
            lemma_flow_sums(*self, resid, output);
            assert forall|v: int| 0 < v < n - 1 implies #[trigger] output.row_sum(v) == output.col_sum(v) by {
                assert(resid.row_sum(v) == dup.row_sum(v));
                assert(dup.row_sum_upto(v, n as int) == self.row_sum_upto(v, n as int));
                assert(resid.row_sum(v) == self.row_sum(v) - output.row_sum(v) + output.col_sum(v));
            }
            if n >= 2 {
                assert(resid.row_sum(n - 1) == dup.row_sum(n - 1) + flow);
                assert(dup.row_sum_upto(n - 1, n as int) == self.row_sum_upto(n - 1, n as int));
                assert(resid.row_sum(n - 1) == self.row_sum(n - 1) - output.row_sum(n - 1) + output.col_sum(n - 1));
            }
            assert(dup.row_sum_upto(0, n as int) == self.row_sum_upto(0, n as int));
            if n >= 1 {
                assert(resid.row_sum(0) == self.row_sum(0) - output.row_sum(0) + output.col_sum(0));
            }
            if n >= 2 {
                lemma_min_cut(*self, resid, output);
                let s = choose|s: Set<int>| self.is_min_cut(output, s);
                lemma_flow_value_is_cut_capacity(*self, output, s);
                assert forall|g: Matrix| #[trigger] carries(*self, g) implies g.row_sum(0) - g.col_sum(0) <= flow by {
                    lemma_flow_value_at_most_cut_capacity(*self, g, s);
                }
            }
        }
        (flow, output)
    }
}

/// A saturated cut of the residual matrix is a minimum cut of the flows.
proof fn lemma_min_cut(cap: Matrix, resid: Matrix, flows: Matrix)
    requires
        cap.is_network(),
        cap.size() >= 2,
        resid.size() == cap.size(),
        flows.size() == cap.size(),
        exists|s: Set<int>| resid.is_saturated_cut(s),
        forall|i: int, j: int|
            #![trigger resid.at(i, j)]
            cap.has_cell(i, j) ==> resid.at(i, j) + resid.at(j, i) == cap.at(i, j) + cap.at(j, i),
        forall|i: int, j: int|
            #![trigger flows.at(i, j)]
            cap.has_cell(i, j) ==> flows.at(i, j) == flow_along(cap, resid, i, j),
    ensures
        exists|s: Set<int>| cap.is_min_cut(flows, s),
{
    let n = cap.size();
    let s = choose|s: Set<int>| resid.is_saturated_cut(s);
    assert forall|i: int, j: int|
        #![trigger s.contains(i), s.contains(j), flows.at(i, j)]
        0 <= i < n && 0 <= j < n && s.contains(i) && !s.contains(j)
        implies flows.at(i, j) == cap.at(i, j) && flows.at(j, i) == 0 by {
        assert(cap.has_cell(i, j) && cap.has_cell(j, i));
        assert(flows.at(j, i) == flow_along(cap, resid, j, i));
        assert(resid.at(i, j) + resid.at(j, i) == cap.at(i, j) + cap.at(j, i));
        lemma_residual_identity(cap, resid, flows, i, j);
        assert(!(resid.at(i, j) > 0));
    }
    assert(cap.is_min_cut(flows, s));
}

/// The sum of `g(j)` for `j` in `0 .. k`.
pub open spec fn sum_to(k: int, g: spec_fn(int) -> int) -> int
    decreases k,
{
    if k <= 0 {
        0
    } else {
        sum_to(k - 1, g) + g(k - 1)
    }
}

impl Matrix {
    /// The capacity of the edges that leave the set of nodes `s`.
    pub open spec fn cut_capacity(&self, s: Set<int>) -> int {
        let n = self.size() as int;
        sum_to(
            n,
            |i: int|
                if s.contains(i) {
                    sum_to(n, |j: int| if s.contains(j) { 0 } else { self.at(i, j) as int })
                } else {
                    0
                },
        )
    }
}

/// Sums of functions that agree on the summed range are equal.
pub proof fn lemma_sum_ext(k: int, g: spec_fn(int) -> int, h: spec_fn(int) -> int)
    requires
        forall|i: int| 0 <= i < k ==> #[trigger] g(i) == h(i),
    ensures
        sum_to(k, g) == sum_to(k, h),
    decreases k,
{
    if k > 0 {
        lemma_sum_ext(k - 1, g, h);
    }
}

/// The sum of two functions is the sum of their sums.
pub proof fn lemma_sum_add(k: int, g: spec_fn(int) -> int, h: spec_fn(int) -> int)
    ensures
        sum_to(k, |i: int| g(i) + h(i)) == sum_to(k, g) + sum_to(k, h),
    decreases k,
{
    if k > 0 {
        lemma_sum_add(k - 1, g, h);
    }
}

/// The sum of a negated function is the negated sum.
pub proof fn lemma_sum_neg(k: int, g: spec_fn(int) -> int)
    ensures
        sum_to(k, |i: int| -g(i)) == -sum_to(k, g),
    decreases k,
{
    if k > 0 {
        lemma_sum_neg(k - 1, g);
    }
}

/// A sum whose only nonzero term is its first is that term.
proof fn lemma_sum_first(k: int, g: spec_fn(int) -> int)
    requires
        k >= 1,
        forall|i: int| 1 <= i < k ==> #[trigger] g(i) == 0,
    ensures
        sum_to(k, g) == g(0),
    decreases k,
{
    assert(sum_to(0, g) == 0);
    if k > 1 {
        lemma_sum_first(k - 1, g);
        assert(g(k - 1) == 0);
    }
}

/// The order in which a double sum is taken does not matter.
pub proof fn lemma_sum_swap(a: int, b: int, g: spec_fn(int, int) -> int)
    ensures
        sum_to(a, |i: int| sum_to(b, |j: int| g(i, j))) == sum_to(b, |j: int| sum_to(a, |i: int| g(i, j))),
    decreases a,
{
    if a > 0 {
        lemma_sum_swap(a - 1, b, g);
        let prev = |j: int| sum_to(a - 1, |i: int| g(i, j));
        let last = |j: int| g(a - 1, j);
        let whole = |j: int| sum_to(a, |i: int| g(i, j));
        let parts = |i: int| prev(i) + last(i);
        assert forall|j: int| 0 <= j < b implies #[trigger] whole(j) == parts(j) by {}
        lemma_sum_ext(b, whole, parts);
        lemma_sum_add(b, prev, last);
        let rows = |i: int| sum_to(b, |j: int| g(i, j));
        assert(sum_to(a, rows) == sum_to(a - 1, rows) + rows(a - 1));
    } else {
        let rows = |i: int| sum_to(b, |j: int| g(i, j));
        let cols = |j: int| sum_to(a, |i: int| g(i, j));
        assert forall|j: int| 0 <= j < b implies #[trigger] cols(j) == 0 by {}
        lemma_sum_ext(b, cols, |j: int| 0int);
        lemma_sum_zero(b);
    }
}

/// A sum of zeros is zero.
pub proof fn lemma_sum_zero(k: int)
    ensures
        sum_to(k, |j: int| 0int) == 0,
    decreases k,
{
    if k > 0 {
        lemma_sum_zero(k - 1);
    }
}

/// A row sum is the sum of the row's values.
proof fn lemma_row_sum_is_sum(m: Matrix, r: int, k: int)
    ensures
        m.row_sum_upto(r, k) == sum_to(k, |j: int| m.at(r, j) as int),
        m.col_sum_upto(r, k) == sum_to(k, |j: int| m.at(j, r) as int),
    decreases k,
{
    if k > 0 {
        lemma_row_sum_is_sum(m, r, k - 1);
    }
}

/// The net flow out of node `v` is its flow to the nodes of `s` less the
/// flow back from them, plus the same outside `s`.
proof fn lemma_net_flow_split(flows: Matrix, s: Set<int>, v: int, n: int)
    requires
        n == flows.size(),
    ensures
        flows.row_sum(v) - flows.col_sum(v) == sum_to(
            n,
            |j: int| if s.contains(j) { flows.at(v, j) as int - flows.at(j, v) as int } else { 0 },
        ) + sum_to(n, |j: int| if s.contains(j) { 0 } else { flows.at(v, j) as int - flows.at(j, v) as int }),
{
    lemma_row_sum_is_sum(flows, v, n);
    let out = |j: int| flows.at(v, j) as int;
    let back = |j: int| flows.at(j, v) as int;
    let nback = |i: int| -back(i);
    lemma_sum_neg(n, back);
    lemma_sum_add(n, out, nback);
    let ins = |j: int| if s.contains(j) { flows.at(v, j) as int - flows.at(j, v) as int } else { 0 };
    let outs = |j: int| if s.contains(j) { 0 } else { flows.at(v, j) as int - flows.at(j, v) as int };
    lemma_sum_add(n, ins, outs);
    let both = |i: int| out(i) + nback(i);
    let split = |i: int| ins(i) + outs(i);
    assert forall|j: int| 0 <= j < n implies #[trigger] both(j) == split(j) by {}
    lemma_sum_ext(n, both, split);
}

/// A minimum cut's edges out of the set carry their capacity, and its edges
/// into the set carry nothing.
proof fn lemma_cut_edge(cap: Matrix, flows: Matrix, s: Set<int>, i: int, j: int)
    requires
        cap.is_min_cut(flows, s),
        cap.has_cell(i, j),
        s.contains(i),
        !s.contains(j),
    ensures
        flows.at(i, j) == cap.at(i, j),
        flows.at(j, i) == 0,
{
    assert(0 <= i < cap.size() && 0 <= j < cap.size() && s.contains(i) && !s.contains(j) ==> flows.at(i, j)
        == cap.at(i, j) && flows.at(j, i) == 0);
}

/// The net flow from node `i`, where it lies in the set of nodes `s`, to
/// the nodes outside `s`; nothing where it lies outside.
pub open spec fn flow_out_of(flows: Matrix, s: Set<int>, i: int) -> int {
    if s.contains(i) {
        sum_to(
            flows.size() as int,
            |j: int| if s.contains(j) { 0 } else { flows.at(i, j) as int - flows.at(j, i) as int },
        )
    } else {
        0
    }
}

/// The net flow from the nodes of `s` to the nodes outside it.
pub open spec fn net_flow_out_of(flows: Matrix, s: Set<int>) -> int {
    sum_to(flows.size() as int, |i: int| flow_out_of(flows, s, i))
}

/// Whether `flows` is a flow through the network `cap`: of the same size,
/// within each edge's capacity, and conserved at every node but the source
/// and the sink.
pub open spec fn carries(cap: Matrix, flows: Matrix) -> bool {
    &&& flows.size() == cap.size()
    &&& forall|i: int, j: int| cap.has_cell(i, j) ==> #[trigger] flows.at(i, j) <= cap.at(i, j)
    &&& forall|v: int| 0 < v < cap.size() - 1 ==> #[trigger] flows.row_sum(v) == flows.col_sum(v)
}

/// Where flows are conserved at every node but the source and the sink,
/// the flow out of the source is the net flow out of any set of nodes that
/// holds the source but not the sink.
proof fn lemma_value_is_net_flow_out(flows: Matrix, s: Set<int>)
    requires
        flows.size() >= 2,
        forall|v: int| 0 < v < flows.size() - 1 ==> #[trigger] flows.row_sum(v) == flows.col_sum(v),
        s.contains(0),
        !s.contains(flows.size() - 1),
    ensures
        flows.row_sum(0) - flows.col_sum(0) == net_flow_out_of(flows, s),
{
    let n = flows.size() as int;
    let f = |i: int, j: int| flows.at(i, j) as int;
    // The net flow out of each node of the cut.
    let net = |i: int| if s.contains(i) { flows.row_sum(i) - flows.col_sum(i) } else { 0 };
    assert forall|i: int| 1 <= i < n implies #[trigger] net(i) == 0 by {
        if s.contains(i) {
            assert(i != n - 1);
        }
    }
    lemma_sum_first(n, net);
    // Split each node's net flow into the flow within the cut and the flow
    // across it.
    let inner = |i: int, j: int| if s.contains(i) && s.contains(j) { f(i, j) - f(j, i) } else { 0 };
    let across = |i: int, j: int| if s.contains(i) && !s.contains(j) { f(i, j) - f(j, i) } else { 0 };
    let inner_sum = |i: int| sum_to(n, |j: int| inner(i, j));
    let across_sum = |i: int| sum_to(n, |j: int| across(i, j));
    let parts = |i: int| inner_sum(i) + across_sum(i);
    assert forall|v: int| 0 <= v < n implies #[trigger] net(v) == parts(v) by {
        if s.contains(v) {
            lemma_net_flow_split(flows, s, v, n);
            lemma_sum_ext(
                n,
                |j: int| if s.contains(j) { flows.at(v, j) as int - flows.at(j, v) as int } else { 0 },
                |j: int| inner(v, j),
            );
            lemma_sum_ext(
                n,
                |j: int| if s.contains(j) { 0 } else { flows.at(v, j) as int - flows.at(j, v) as int },
                |j: int| across(v, j),
            );
        } else {
            lemma_sum_ext(n, |j: int| inner(v, j), |j: int| 0int);
            lemma_sum_ext(n, |j: int| across(v, j), |j: int| 0int);
            lemma_sum_zero(n);
        }
    }
    lemma_sum_ext(n, net, parts);
    lemma_sum_add(n, inner_sum, across_sum);
    // The flows within the cut cancel out.
    lemma_sum_swap(n, n, inner);
    let swapped = |j: int| sum_to(n, |i: int| inner(i, j));
    let negated = |i: int| -inner_sum(i);
    assert forall|j: int| 0 <= j < n implies #[trigger] swapped(j) == negated(j) by {
        let row = |i: int| inner(j, i);
        lemma_sum_neg(n, row);
        let col = |i: int| inner(i, j);
        let nrow = |i: int| -row(i);
        assert forall|i: int| 0 <= i < n implies #[trigger] col(i) == nrow(i) by {}
        lemma_sum_ext(n, col, nrow);
    }
    lemma_sum_ext(n, swapped, negated);
    lemma_sum_neg(n, inner_sum);
    assert(sum_to(n, inner_sum) == 0);
    // What is left is the flow across the cut.
    assert forall|i: int| 0 <= i < n implies #[trigger] across_sum(i) == flow_out_of(flows, s, i) by {
        if s.contains(i) {
            lemma_sum_ext(
                n,
                |j: int| across(i, j),
                |j: int| if s.contains(j) { 0 } else { flows.at(i, j) as int - flows.at(j, i) as int },
            );
        } else {
            lemma_sum_ext(n, |j: int| across(i, j), |j: int| 0int);
            lemma_sum_zero(n);
        }
    }
    lemma_sum_ext(n, across_sum, |i: int| flow_out_of(flows, s, i));
}

/// Sums of functions each term of which is at most the other's are in the
/// same order.
proof fn lemma_sum_le(k: int, g: spec_fn(int) -> int, h: spec_fn(int) -> int)
    requires
        forall|i: int| 0 <= i < k ==> #[trigger] g(i) <= h(i),
    ensures
        sum_to(k, g) <= sum_to(k, h),
    decreases k,
{
    if k > 0 {
        lemma_sum_le(k - 1, g, h);
    }
}

/// Flow conservation: where flows are conserved at every node but the source
/// and the sink, and saturate a cut, the flow out of the source equals the
/// capacity of the cut.
pub proof fn lemma_flow_value_is_cut_capacity(cap: Matrix, flows: Matrix, s: Set<int>)
    requires
        cap.size() >= 2,
        flows.size() == cap.size(),
        forall|v: int| 0 < v < cap.size() - 1 ==> #[trigger] flows.row_sum(v) == flows.col_sum(v),
        cap.is_min_cut(flows, s),
    ensures
        flows.row_sum(0) - flows.col_sum(0) == cap.cut_capacity(s),
{
    let n = cap.size() as int;
    lemma_value_is_net_flow_out(flows, s);
    let row_cap = |i: int|
        if s.contains(i) {
            sum_to(n, |j: int| if s.contains(j) { 0 } else { cap.at(i, j) as int })
        } else {
            0
        };
    assert forall|i: int| 0 <= i < n implies #[trigger] flow_out_of(flows, s, i) == row_cap(i) by {
        if s.contains(i) {
            let a = |j: int| if s.contains(j) { 0 } else { flows.at(i, j) as int - flows.at(j, i) as int };
            let c = |j: int| if s.contains(j) { 0 } else { cap.at(i, j) as int };
            assert forall|j: int| 0 <= j < n implies #[trigger] a(j) == c(j) by {
                if !s.contains(j) {
                    lemma_cut_edge(cap, flows, s, i, j);
                }
            }
            lemma_sum_ext(n, a, c);
        }
    }
    lemma_sum_ext(n, |i: int| flow_out_of(flows, s, i), row_cap);
}

/// Weak duality: no flow through a network carries more out of the source
/// than the capacity of any cut between the source and the sink.
pub proof fn lemma_flow_value_at_most_cut_capacity(cap: Matrix, flows: Matrix, s: Set<int>)
    requires
        cap.size() >= 2,
        carries(cap, flows),
        s.contains(0),
        !s.contains(cap.size() - 1),
    ensures
        flows.row_sum(0) - flows.col_sum(0) <= cap.cut_capacity(s),
{
    let n = cap.size() as int;
    lemma_value_is_net_flow_out(flows, s);
    let row_cap = |i: int|
        if s.contains(i) {
            sum_to(n, |j: int| if s.contains(j) { 0 } else { cap.at(i, j) as int })
        } else {
            0
        };
    assert forall|i: int| 0 <= i < n implies #[trigger] flow_out_of(flows, s, i) <= row_cap(i) by {
        if s.contains(i) {
            let a = |j: int| if s.contains(j) { 0 } else { flows.at(i, j) as int - flows.at(j, i) as int };
            let c = |j: int| if s.contains(j) { 0 } else { cap.at(i, j) as int };
            assert forall|j: int| 0 <= j < n implies #[trigger] a(j) <= c(j) by {
                if !s.contains(j) {
                    assert(cap.has_cell(i, j));
                    assert(flows.at(i, j) <= cap.at(i, j));
                }
            }
            lemma_sum_le(n, a, c);
        }
    }
    lemma_sum_le(n, |i: int| flow_out_of(flows, s, i), row_cap);
}

/// The flow along edge `(i, j)`, given its capacity and its residual capacity.
spec fn flow_along(cap: Matrix, resid: Matrix, i: int, j: int) -> int {
    if cap.at(i, j) > 0 {
        cap.at(i, j) - resid.at(i, j)
    } else {
        0
    }
}

/// Where the capacities form a network and opposite residuals add up to
/// opposite capacities, the residual of an edge is its capacity less its flow,
/// plus the flow along the opposite edge.
proof fn lemma_residual_identity(cap: Matrix, resid: Matrix, flows: Matrix, i: int, j: int)
    requires
        cap.is_network(),
        cap.has_cell(i, j),
        resid.at(i, j) + resid.at(j, i) == cap.at(i, j) + cap.at(j, i),
        flows.at(i, j) == flow_along(cap, resid, i, j),
        flows.at(j, i) == flow_along(cap, resid, j, i),
    ensures
        resid.at(i, j) == cap.at(i, j) - flows.at(i, j) + flows.at(j, i),
{
    assert(cap.at(i, j) > 0 ==> cap.at(j, i) == 0);
    assert(cap.has_cell(j, i));
    assert(cap.at(j, i) > 0 ==> cap.at(i, j) == 0);
}

/// Sums of the residual matrix in terms of sums of capacities and flows.
proof fn lemma_flow_sums(cap: Matrix, resid: Matrix, flows: Matrix)
    requires
        cap.is_network(),
        cap.size() == resid.size(),
        cap.size() == flows.size(),
        forall|i: int, j: int|
            #![trigger resid.at(i, j)]
            cap.has_cell(i, j) ==> resid.at(i, j) + resid.at(j, i) == cap.at(i, j) + cap.at(j, i),
        forall|i: int, j: int|
            #![trigger flows.at(i, j)]
            cap.has_cell(i, j) ==> flows.at(i, j) == flow_along(cap, resid, i, j),
    ensures
        forall|v: int|
            0 <= v < cap.size() ==> #[trigger] resid.row_sum(v) == cap.row_sum(v) - flows.row_sum(v)
                + flows.col_sum(v),
{
    assert forall|v: int| 0 <= v < cap.size() implies #[trigger] resid.row_sum(v) == cap.row_sum(v)
        - flows.row_sum(v) + flows.col_sum(v) by {
        lemma_flow_sums_upto(cap, resid, flows, v, cap.size() as int);
    }
}

proof fn lemma_flow_sums_upto(cap: Matrix, resid: Matrix, flows: Matrix, v: int, k: int)
    requires
        cap.is_network(),
        cap.size() == resid.size(),
        cap.size() == flows.size(),
        0 <= v < cap.size(),
        0 <= k <= cap.size(),
        forall|i: int, j: int|
            #![trigger resid.at(i, j)]
            cap.has_cell(i, j) ==> resid.at(i, j) + resid.at(j, i) == cap.at(i, j) + cap.at(j, i),
        forall|i: int, j: int|
            #![trigger flows.at(i, j)]
            cap.has_cell(i, j) ==> flows.at(i, j) == flow_along(cap, resid, i, j),
    ensures
        resid.row_sum_upto(v, k) == cap.row_sum_upto(v, k) - flows.row_sum_upto(v, k)
            + flows.col_sum_upto(v, k),
    decreases k,
{
    if k > 0 {
        lemma_flow_sums_upto(cap, resid, flows, v, k - 1);
        assert(cap.has_cell(v, k - 1));
        assert(cap.has_cell(k - 1, v));
        assert(flows.at(v, k - 1) == flow_along(cap, resid, v, k - 1));
        assert(flows.at(k - 1, v) == flow_along(cap, resid, k - 1, v));
        lemma_residual_identity(cap, resid, flows, v, k - 1);
    }
}

/// Two matrices with the same size and the same values have the same sums.
proof fn lemma_same_sums(a: Matrix, b: Matrix)
    requires
        a.size() == b.size(),
        forall|r: int, c: int| #[trigger] a.at(r, c) == b.at(r, c),
    ensures
        forall|v: int, k: int| #[trigger] a.row_sum_upto(v, k) == b.row_sum_upto(v, k),
        forall|v: int, k: int| #[trigger] a.col_sum_upto(v, k) == b.col_sum_upto(v, k),
{
    assert forall|v: int, k: int| #[trigger] a.row_sum_upto(v, k) == b.row_sum_upto(v, k) by {
        lemma_same_sums_upto(a, b, v, k);
    }
    assert forall|v: int, k: int| #[trigger] a.col_sum_upto(v, k) == b.col_sum_upto(v, k) by {
        lemma_same_sums_upto(a, b, v, k);
    }
}

proof fn lemma_same_sums_upto(a: Matrix, b: Matrix, v: int, k: int)
    requires
        forall|r: int, c: int| #[trigger] a.at(r, c) == b.at(r, c),
    ensures
        a.row_sum_upto(v, k) == b.row_sum_upto(v, k),
        a.col_sum_upto(v, k) == b.col_sum_upto(v, k),
    decreases k,
{
    if k > 0 {
        lemma_same_sums_upto(a, b, v, k - 1);
    }
}

/// The sum of the first `k` values of a row is never negative.
proof fn lemma_row_sum_nonneg(m: Matrix, r: int, k: int)
    ensures
        m.row_sum_upto(r, k) >= 0,
    decreases k,
{
    if k > 0 {
        lemma_row_sum_nonneg(m, r, k - 1);
    }
}

/// Changing one cell changes the sums of its row and column by the same amount,
/// and no other row or column sum.
proof fn lemma_sums_after_set(a: Matrix, b: Matrix, r0: int, c0: int, x: int, k: int)
    requires
        a.size() == b.size(),
        a.has_cell(r0, c0),
        0 <= x < a.size(),
        0 <= k <= a.size(),
        forall|r: int, c: int|
            a.has_cell(r, c) && (r != r0 || c != c0) ==> #[trigger] b.at(r, c) == a.at(r, c),
    ensures
        b.row_sum_upto(x, k) == a.row_sum_upto(x, k) + (if x == r0 && c0 < k {
            b.at(r0, c0) - a.at(r0, c0)
        } else {
            0
        }),
        b.col_sum_upto(x, k) == a.col_sum_upto(x, k) + (if x == c0 && r0 < k {
            b.at(r0, c0) - a.at(r0, c0)
        } else {
            0
        }),
    decreases k,
{
    if k > 0 {
        lemma_sums_after_set(a, b, r0, c0, x, k - 1);
        assert(a.has_cell(x, k - 1));
        assert(a.has_cell(k - 1, x));
    }
}

/// The links found by a breadth-first search describe an augmenting path from
/// the source to the sink, with room for a flow of `f` along every edge.
///
/// `depth` strictly increases along each link, so following the links from
/// the sink reaches the source; `lim` bounds the flow that reaches each node.
spec fn augmenting(
    m: Matrix,
    parents: Seq<Option<usize>>,
    f: int,
    depth: Seq<int>,
    lim: Seq<int>,
) -> bool {
    let n = m.size() as int;
    &&& n >= 2
    &&& parents.len() == n
    &&& depth.len() == n
    &&& lim.len() == n
    &&& f >= 1
    &&& depth[0] == 0
    &&& parents[n - 1] is Some
    &&& f <= lim[n - 1]
    &&& forall|i: int| 0 < i < n && (#[trigger] parents[i]) is Some ==> link_ok(m, parents, depth, lim, i)
}

/// The link from node `i` back to its parent in the search.
spec fn link_ok(m: Matrix, parents: Seq<Option<usize>>, depth: Seq<int>, lim: Seq<int>, i: int) -> bool {
    let p = parents[i]->0 as int;
    &&& 0 <= p < m.size()
    &&& (p == 0 || parents[p] is Some)
    &&& 0 <= depth[p] < depth[i]
    &&& m.at(p, i) >= lim[i]
    &&& (p != 0 ==> lim[i] <= lim[p])
}

/// Whether node `v` has been reached by the search.
spec fn reached(parents: Seq<Option<usize>>, v: int) -> bool {
    v == 0 || parents[v] is Some
}

/// Returns a vector of `n` empty links.
fn no_links(n: usize) -> (v: Vec<Option<usize>>)
    ensures
        v@.len() == n,
        forall|i: int| 0 <= i < n ==> #[trigger] v@[i] is None,
{
    let mut v: Vec<Option<usize>> = Vec::with_capacity(n);
    for i in 0..n
        invariant
            v@.len() == i,
            forall|j: int| 0 <= j < i ==> #[trigger] v@[j] is None,
    {
        v.push(None);
    }
    v
}

/// The number of empty links.
spec fn count_none(s: Seq<Option<usize>>) -> nat
    decreases s.len(),
{
    if s.len() == 0 {
        0
    } else {
        count_none(s.drop_last()) + if s.last() is None {
            1nat
        } else {
            0nat
        }
    }
}

/// Filling an empty link leaves one fewer empty link.
proof fn lemma_count_none_fill(s: Seq<Option<usize>>, i: int, v: Option<usize>)
    requires
        0 <= i < s.len(),
        s[i] is None,
        v is Some,
    ensures
        count_none(s.update(i, v)) + 1 == count_none(s),
    decreases s.len(),
{
    if i == s.len() - 1 {
        assert(s.update(i, v).drop_last() =~= s.drop_last());
    } else {
        assert(s.update(i, v).drop_last() =~= s.drop_last().update(i, v));
        lemma_count_none_fill(s.drop_last(), i, v);
    }
}

/// Whether node `v` is waiting in the search queue.
spec fn in_queue(q: Seq<(usize, usize)>, v: int) -> bool {
    exists|k: int| 0 <= k < q.len() && (#[trigger] q[k]).0 == v
}

/// Searches for a path of positive capacity from the source to the sink,
/// returning the flow it can carry and the link to each node's parent.
fn bfs(capacity: &Matrix) -> (res: Option<(usize, Vec<Option<usize>>)>)
    requires
        capacity.wf(),
    ensures
        match res {
            None => capacity.size() >= 2 ==> exists|s: Set<int>| capacity.is_saturated_cut(s),
            Some((f, parents)) => {
                ||| capacity.size() == 1 && capacity.at(0, 0) > 0
                ||| exists|d: Seq<int>, l: Seq<int>| augmenting(*capacity, parents@, f as int, d, l)
            },
        },
{
    let n = capacity.rows();
    let mut parents: Vec<Option<usize>> = no_links(n);
    // Records (node_index, flow) tuples.
    let mut queue: VecDeque<(usize, usize)> = VecDeque::with_capacity(n);
    // Start at the source (node 0) with maximum flow.
    queue.push_back((0, usize::MAX));
    let ghost mut depth: Seq<int> = Seq::new(n as nat, |i: int| 0int);
    let ghost mut lim: Seq<int> = Seq::new(n as nat, |i: int| 0int);
    let ghost mut done: Set<int> = Set::empty();
    assert(queue@[0].0 == 0);

    loop
        invariant
            capacity.wf(),
            capacity.size() == n,
            parents@.len() == n,
            depth.len() == n,
            lim.len() == n,
            n >= 1 ==> depth[0] == 0,
            n >= 1 ==> parents@[n - 1] is None,
            forall|i: int| 0 <= i < n ==> #[trigger] depth[i] >= 0,
            forall|i: int|
                0 < i < n && (#[trigger] parents@[i]) is Some ==> link_ok(
                    *capacity,
                    parents@,
                    depth,
                    lim,
                    i,
                ),
            forall|k: int|
                0 <= k < queue@.len() ==> n == 0 || queue_entry_ok(
                    parents@,
                    lim,
                    #[trigger] queue@[k],
                ),
            forall|v: int|
                0 <= v < n && #[trigger] reached(parents@, v) ==> done.contains(v) || in_queue(
                    queue@,
                    v,
                ),
            forall|v: int| #[trigger] done.contains(v) ==> 0 <= v < n && reached(parents@, v),
            forall|v: int, j: int|
                #![trigger done.contains(v), capacity.at(v, j)]
                done.contains(v) && 0 <= j < n && capacity.at(v, j) > 0 ==> reached(parents@, j),
        decreases count_none(parents@), queue@.len(),
    {
        let ghost old_parents = parents@;
        let ghost old_queue = queue@;
        let front = queue.pop_front();
        match front {
            None => {
                proof {
                    assert forall|v: int|
                        0 <= v < n && #[trigger] reached(parents@, v) implies done.contains(v) by {
                        if !done.contains(v) {
                            let k = choose|k: int|
                                0 <= k < old_queue.len() && (#[trigger] old_queue[k]).0 == v;
                        }
                    }
                    if n >= 2 {
                        let s = Set::new(|v: int| 0 <= v < n && reached(parents@, v));
                        assert(reached(parents@, 0));
                        assert(capacity.is_saturated_cut(s));
                    }
                }
                return None;
            },
            Some((node_ix, flow)) => {
                proof {
                    assert(old_queue[0] == (node_ix, flow));
                    assert forall|v: int|
                        0 <= v < n && #[trigger] reached(parents@, v) implies done.contains(v) || v
                        == node_ix || in_queue(queue@, v) by {
                        if !done.contains(v) && v != node_ix {
                            let k = choose|k: int|
                                0 <= k < old_queue.len() && (#[trigger] old_queue[k]).0 == v;
                            assert(k != 0);
                            assert(queue@[k - 1] == old_queue[k]);
                        }
                    }
                    assert forall|k: int| 0 <= k < queue@.len() implies n == 0 || queue_entry_ok(
                        parents@,
                        lim,
                        #[trigger] queue@[k],
                    ) by {
                        assert(queue@[k] == old_queue[k + 1]);
                    }
                    if n > 0 {
                        assert(queue_entry_ok(parents@, lim, old_queue[0]));
                    }
                }
                for i in 0..n
                    invariant
                        capacity.wf(),
                        capacity.size() == n,
                        parents@.len() == n,
                        depth.len() == n,
                        lim.len() == n,
                        n >= 1 ==> depth[0] == 0,
                        n >= 1 ==> parents@[n - 1] is None,
                        n >= 1 ==> queue_entry_ok(parents@, lim, (node_ix, flow)),
                        forall|i: int| 0 <= i < n ==> #[trigger] depth[i] >= 0,
                        forall|i: int|
                            0 < i < n && (#[trigger] parents@[i]) is Some ==> link_ok(
                                *capacity,
                                parents@,
                                depth,
                                lim,
                                i,
                            ),
                        forall|k: int|
                            0 <= k < queue@.len() ==> n == 0 || queue_entry_ok(
                                parents@,
                                lim,
                                #[trigger] queue@[k],
                            ),
                        forall|v: int|
                            0 <= v < n && #[trigger] reached(parents@, v) ==> done.contains(v) || v
                                == node_ix || in_queue(queue@, v),
                        forall|v: int| #[trigger] done.contains(v) ==> 0 <= v < n && reached(parents@, v),
                        forall|v: int, j: int|
                            #![trigger done.contains(v), capacity.at(v, j)]
                            done.contains(v) && 0 <= j < n && capacity.at(v, j) > 0 ==> reached(
                                parents@,
                                j,
                            ),
                        forall|j: int|
                            0 <= j < i && #[trigger] capacity.at(node_ix as int, j) > 0 ==> reached(
                                parents@,
                                j,
                            ),
                        count_none(parents@) < count_none(old_parents) || (count_none(parents@)
                            == count_none(old_parents) && queue@.len() < old_queue.len()),
                {
                    if capacity.get((node_ix, i)) > 0 && parents[i].is_none() {
                        // Visit this node.
                        proof {
                            lemma_count_none_fill(parents@, i as int, Some(node_ix));
                        }
                        let ghost prev_parents = parents@;
                        let ghost prev_depth = depth;
                        let ghost prev_lim = lim;
                        let ghost prev_queue = queue@;
                        parents.set(i, Some(node_ix));
                        let c = capacity.get((node_ix, i));
                        let flow = if flow < c {
                            flow
                        } else {
                            c
                        };
                        proof {
                            if i != 0 {
                                depth = depth.update(i as int, depth[node_ix as int] + 1);
                                lim = lim.update(i as int, flow as int);
                            }
                            assert forall|j: int|
                                0 < j < n && (#[trigger] parents@[j]) is Some implies link_ok(
                                *capacity,
                                parents@,
                                depth,
                                lim,
                                j,
                            ) by {
                                if j != i {
                                    assert(prev_parents[j] is Some);
                                    assert(link_ok(*capacity, prev_parents, prev_depth, prev_lim, j));
                                }
                            }
                            assert forall|k: int|
                                0 <= k < queue@.len() implies n == 0 || queue_entry_ok(
                                parents@,
                                lim,
                                #[trigger] queue@[k],
                            ) by {
                                assert(queue_entry_ok(prev_parents, prev_lim, queue@[k]));
                            }
                            assert(queue_entry_ok(prev_parents, prev_lim, (node_ix, flow)));
                            assert forall|v: int| #[trigger] done.contains(v) implies 0 <= v < n
                                && reached(parents@, v) by {
                                assert(reached(prev_parents, v));
                            }
                            assert forall|v: int, j: int|
                                #![trigger done.contains(v), capacity.at(v, j)]
                                done.contains(v) && 0 <= j < n && capacity.at(v, j) > 0 implies reached(
                                parents@,
                                j,
                            ) by {
                                assert(reached(prev_parents, j));
                            }
                            assert forall|j: int|
                                0 <= j < i + 1 && #[trigger] capacity.at(node_ix as int, j)
                                    > 0 implies reached(parents@, j) by {
                                if j < i {
                                    assert(reached(prev_parents, j));
                                }
                            }
                        }
                        if i == (n - 1) {
                            proof {
                                if n >= 2 {
                                    assert(augmenting(*capacity, parents@, flow as int, depth, lim));
                                    assert(exists|d: Seq<int>, l: Seq<int>|
                                        augmenting(*capacity, parents@, flow as int, d, l));
                                } else {
                                    assert(node_ix == 0);
                                    assert(capacity.at(0, 0) > 0);
                                }
                            }
                            let ghost pv = parents@;
                            assert(capacity.size() == 1 && capacity.at(0, 0) > 0 || exists|d: Seq<int>, l: Seq<int>|
                                        augmenting(*capacity, pv, flow as int, d, l));
                            let res = Some((flow, parents));
                            assert(match res {
                                None => true,
                                Some((f, ps)) => ps@ == pv && f == flow,
                            });
                            return res;
                        }
                        queue.push_back((i, flow));
                        proof {
                            assert(queue@[queue@.len() - 1].0 == i);
                            assert forall|v: int|
                                0 <= v < n && #[trigger] reached(parents@, v) implies done.contains(v)
                                || v == node_ix || in_queue(queue@, v) by {
                                if v != i && !done.contains(v) && v != node_ix {
                                    assert(reached(prev_parents, v));
                                    let k = choose|k: int|
                                        0 <= k < prev_queue.len() && (#[trigger] prev_queue[k]).0 == v;
                                    assert(queue@[k] == prev_queue[k]);
                                }
                            }
                            assert forall|k: int|
                                0 <= k < queue@.len() implies n == 0 || queue_entry_ok(
                                parents@,
                                lim,
                                #[trigger] queue@[k],
                            ) by {
                                if k < prev_queue.len() {
                                    assert(queue@[k] == prev_queue[k]);
                                }
                            }
                        }
                    }
                }
                proof {
                    if n > 0 {
                        done = done.insert(node_ix as int);
                    }
                }
            },
        }
    }
}

/// An entry of the search queue: a reached node, and the positive flow that
/// can reach it.
spec fn queue_entry_ok(parents: Seq<Option<usize>>, lim: Seq<int>, e: (usize, usize)) -> bool {
    let (v, fl) = e;
    &&& v < parents.len()
    &&& reached(parents, v as int)
    &&& fl >= 1
    &&& (v != 0 ==> fl <= lim[v as int])
}

} // verus!
