//! The Compressed Sparse Row (CSR) adjacency matrix and its constructors.
//!
//! Row `r` of a CSR matrix with `n` nodes holds the entries at storage
//! positions `row_ptrs[r] .. row_ptrs[r + 1]`; entry `k` is the edge
//! `r -> col_indices[k]` with weight `values[k]`. The weight type `V` is a
//! parameter: the structure never looks inside a weight, it only moves
//! weights and, where one row names a column twice, adds them.
use core::ops::Add;
use vstd::prelude::*;
use crate::canonical::{
    strictly_increasing, cell_span, span_merge_defined, canonical_of, span_canonical,
    canonical_parts, rows_sorted_check, lemma_sorted_is_canonical,
};
use crate::memory::{try_reserve_exact, reservation_refused};
use crate::laws::sort_indices_idempotent;
use crate::error::{
    FastRPError, fails_with, fails_oom, err_row_ptrs_length, err_lengths_differ, err_first_row_ptr,
    err_last_row_ptr, err_row_ptrs_descend, err_column_out_of_bounds, err_target_out_of_bounds,
    err_not_square, msg_row_ptrs_length, msg_lengths_differ, msg_first_row_ptr, msg_last_row_ptr,
    msg_row_ptrs_descend, msg_column_out_of_bounds, msg_target_out_of_bounds, msg_not_square,
};

verus! {

/// The mathematical content of a [`CsrMatrix`]: its node count and its three
/// storage arrays.
pub struct CsrView<V> {
    pub num_nodes: nat,
    pub row_ptrs: Seq<usize>,
    pub col_indices: Seq<usize>,
    pub values: Seq<V>,
}

impl<V> CsrView<V> {
    /// The matrix that the given node count and storage arrays describe.
    pub open spec fn from_parts(num_nodes: nat, row_ptrs: Seq<usize>, col_indices: Seq<usize>, values: Seq<V>) -> Self {
        CsrView { num_nodes, row_ptrs, col_indices, values }
    }

    /// First storage position of row `r`.
    pub open spec fn row_start(self, r: int) -> int {
        self.row_ptrs[r] as int
    }

    /// One past the last storage position of row `r`.
    pub open spec fn row_end(self, r: int) -> int {
        self.row_ptrs[r + 1] as int
    }

    /// The structural invariant of a CSR matrix: `n + 1` row pointers that
    /// start at zero, never decrease and end at the number of stored
    /// entries; one weight per column index; every column index below `n`.
    pub open spec fn wf(self) -> bool {
        &&& self.row_ptrs.len() == self.num_nodes + 1
        &&& self.row_ptrs[0] == 0
        &&& forall|i: int, j: int|
            0 <= i <= j <= self.num_nodes ==> #[trigger] self.row_ptrs[i] <= #[trigger] self.row_ptrs[j]
        &&& self.row_ptrs[self.num_nodes as int] == self.col_indices.len()
        &&& self.col_indices.len() == self.values.len()
        &&& forall|k: int|
            0 <= k < self.col_indices.len() ==> #[trigger] self.col_indices[k] < self.num_nodes
    }

    /// The column indices of row `r`, in storage order.
    pub open spec fn row_cols(self, r: int) -> Seq<usize> {
        self.col_indices.subrange(self.row_start(r), self.row_end(r))
    }

    /// Every row lists its columns in strictly increasing order, so no
    /// column appears twice in a row.
    pub open spec fn rows_sorted(self) -> bool {
        forall|r: int| 0 <= r < self.num_nodes ==> strictly_increasing(#[trigger] self.row_cols(r))
    }

    /// The weights that row `r` stores for column `c`, in storage order.
    pub open spec fn cell(self, r: int, c: usize) -> Seq<V> {
        cell_span(self.col_indices, self.values, self.row_start(r), self.row_end(r), c)
    }

    /// Merging the repeated columns of every row only performs allowed
    /// additions (see [`span_merge_defined`]).
    pub open spec fn merge_defined(self) -> bool where V: Add<Output = V> {
        forall|r: int|
            0 <= r < self.num_nodes ==> #[trigger] span_merge_defined(
                self.col_indices,
                self.values,
                self.row_start(r),
                self.row_end(r),
            )
    }

    /// No row stores the same column twice.
    pub open spec fn no_repeated_columns(self) -> bool {
        forall|r: int, c: usize| 0 <= r < self.num_nodes ==> (#[trigger] self.cell(r, c)).len() <= 1
    }
}

/// Row pointer `i + 1` is not below row pointer `i`.
pub open spec fn step_ok(row_ptrs: Seq<usize>, i: int) -> bool {
    row_ptrs[i] <= row_ptrs[i + 1]
}

/// The raw arrays pass every check of [`CsrMatrix::build_from_csr`]: `n + 1`
/// row pointers, as many weights as column indices, a first row pointer of
/// zero, a last row pointer equal to the number of column indices, row
/// pointers that never decrease, and every column index below `n`.
pub open spec fn parts_valid(row_ptrs: Seq<usize>, col_indices: Seq<usize>, num_values: nat, n: nat) -> bool {
    &&& row_ptrs.len() == n + 1
    &&& col_indices.len() == num_values
    &&& row_ptrs[0] == 0
    &&& row_ptrs[n as int] == col_indices.len()
    &&& forall|i: int| 0 <= i < n ==> #[trigger] step_ok(row_ptrs, i)
    &&& forall|k: int| 0 <= k < col_indices.len() ==> #[trigger] col_indices[k] < n
}

/// `i` is the first position where the row pointers decrease.
pub open spec fn first_descent(row_ptrs: Seq<usize>, i: int) -> bool {
    &&& 0 <= i < row_ptrs.len() - 1
    &&& row_ptrs[i] > row_ptrs[i + 1]
    &&& forall|j: int| 0 <= j < i ==> #[trigger] step_ok(row_ptrs, j)
}

/// `i` is the first position whose column index is not below `n`.
pub open spec fn first_column_out_of_bounds(col_indices: Seq<usize>, n: nat, i: int) -> bool {
    &&& 0 <= i < col_indices.len()
    &&& col_indices[i] >= n
    &&& forall|j: int| 0 <= j < i ==> #[trigger] col_indices[j] < n
}

/// The number of edges listed in `adj`.
pub open spec fn total_edges<V>(adj: Seq<Vec<(usize, V)>>) -> nat
    decreases adj.len(),
{
    if adj.len() == 0 {
        0
    } else {
        total_edges(adj.drop_last()) + adj.last()@.len()
    }
}

/// The targets of all edges of `adj`, row after row.
pub open spec fn flat_targets<V>(adj: Seq<Vec<(usize, V)>>) -> Seq<usize>
    decreases adj.len(),
{
    if adj.len() == 0 {
        Seq::empty()
    } else {
        flat_targets(adj.drop_last()) + adj.last()@.map_values(|e: (usize, V)| e.0)
    }
}

/// The weights of all edges of `adj`, row after row.
pub open spec fn flat_weights<V>(adj: Seq<Vec<(usize, V)>>) -> Seq<V>
    decreases adj.len(),
{
    if adj.len() == 0 {
        Seq::empty()
    } else {
        flat_weights(adj.drop_last()) + adj.last()@.map_values(|e: (usize, V)| e.1)
    }
}

/// The CSR arrays of an adjacency list before canonical ordering: one row
/// per list entry, the edges of a row in list order, weights as given.
pub open spec fn adjacency_view<V>(adj: Seq<Vec<(usize, V)>>) -> CsrView<V> {
    CsrView::from_parts(
        adj.len(),
        Seq::new(adj.len() + 1, |r: int| total_edges(adj.take(r)) as usize),
        flat_targets(adj),
        flat_weights(adj),
    )
}

/// Every edge target of `adj` names one of its `n` nodes.
pub open spec fn targets_in_bounds<V>(adj: Seq<Vec<(usize, V)>>, n: nat) -> bool {
    forall|r: int, j: int| 0 <= r < adj.len() && 0 <= j < adj[r]@.len() ==> (#[trigger] adj[r]@[j]).0 < n
}

/// Edge `j` of row `r` is, in row-major order, the first whose target does
/// not name one of the `n` nodes.
pub open spec fn first_target_out_of_bounds<V>(adj: Seq<Vec<(usize, V)>>, n: nat, r: int, j: int) -> bool {
    &&& 0 <= r < adj.len()
    &&& 0 <= j < adj[r]@.len()
    &&& adj[r]@[j].0 >= n
    &&& forall|rr: int, jj: int| 0 <= rr < r && 0 <= jj < adj[rr]@.len() ==> (#[trigger] adj[rr]@[jj]).0 < n
    &&& forall|jj: int| 0 <= jj < j ==> (#[trigger] adj[r]@[jj]).0 < n
}

pub(crate) proof fn lemma_flat_step<V>(adj: Seq<Vec<(usize, V)>>, r: int)
    requires
        0 <= r < adj.len(),
    ensures
        flat_targets(adj.take(r + 1)) == flat_targets(adj.take(r)) + adj[r]@.map_values(|e: (usize, V)| e.0),
        flat_weights(adj.take(r + 1)) == flat_weights(adj.take(r)) + adj[r]@.map_values(|e: (usize, V)| e.1),
        total_edges(adj.take(r + 1)) == total_edges(adj.take(r)) + adj[r]@.len(),
{
    assert(adj.take(r + 1).drop_last() =~= adj.take(r));
    assert(adj.take(r + 1).last() == adj[r]);
}

pub(crate) proof fn lemma_flat_len<V>(adj: Seq<Vec<(usize, V)>>)
    ensures
        flat_targets(adj).len() == total_edges(adj),
        flat_weights(adj).len() == total_edges(adj),
    decreases adj.len(),
{
    if adj.len() > 0 {
        lemma_flat_len(adj.drop_last());
    }
}

pub(crate) proof fn lemma_total_edges_prefix<V>(adj: Seq<Vec<(usize, V)>>, r: int)
    requires
        0 <= r <= adj.len(),
    ensures
        total_edges(adj.take(r)) <= total_edges(adj),
    decreases adj.len() - r,
{
    if r < adj.len() {
        lemma_flat_step(adj, r);
        lemma_total_edges_prefix(adj, r + 1);
    } else {
        assert(adj.take(r) =~= adj);
    }
}

/// The columns of the non-empty cells among the first `p` cells of a
/// row-major grid with `n` columns, in grid order.
pub open spec fn dense_targets<V>(cells: Seq<Option<V>>, n: nat, p: int) -> Seq<usize>
    decreases p,
{
    if p <= 0 {
        Seq::empty()
    } else {
        let prev = dense_targets(cells, n, p - 1);
        if cells[p - 1] is Some {
            prev.push(((p - 1) % (n as int)) as usize)
        } else {
            prev
        }
    }
}

/// The weights of the non-empty cells among the first `p` cells of a
/// row-major grid, in grid order.
pub open spec fn dense_weights<V>(cells: Seq<Option<V>>, p: int) -> Seq<V>
    decreases p,
{
    if p <= 0 {
        Seq::empty()
    } else {
        let prev = dense_weights(cells, p - 1);
        if cells[p - 1] is Some {
            prev.push(cells[p - 1]->0)
        } else {
            prev
        }
    }
}

/// The CSR form of an `n` by `n` row-major grid whose empty cells are
/// absent edges: row `r` holds the non-empty cells of grid row `r`, left to
/// right, with their weights.
pub open spec fn dense_view<V>(cells: Seq<Option<V>>, n: nat) -> CsrView<V> {
    CsrView::from_parts(
        n,
        Seq::new(n + 1, |r: int| dense_targets(cells, n, r * n).len() as usize),
        dense_targets(cells, n, (n * n) as int),
        dense_weights(cells, (n * n) as int),
    )
}

proof fn lemma_first_descent_unique(row_ptrs: Seq<usize>, i: int)
    requires
        first_descent(row_ptrs, i),
    ensures
        forall|k: int| #[trigger] first_descent(row_ptrs, k) ==> k == i,
{
    assert forall|k: int| #[trigger] first_descent(row_ptrs, k) implies k == i by {
        if k < i {
            assert(step_ok(row_ptrs, k));
        } else if k > i {
            assert(step_ok(row_ptrs, i));
        }
    }
}

proof fn lemma_first_column_unique(col_indices: Seq<usize>, n: nat, i: int)
    requires
        first_column_out_of_bounds(col_indices, n, i),
    ensures
        forall|t: int| #[trigger] first_column_out_of_bounds(col_indices, n, t) ==> t == i,
{
    assert forall|t: int| #[trigger] first_column_out_of_bounds(col_indices, n, t) implies t == i by {
        if t < i {
            assert(col_indices[t] < n);
        } else if t > i {
            assert(col_indices[i] < n);
        }
    }
}

/// A CSR adjacency matrix whose weights have type `V`.
#[derive(Debug)]
pub struct CsrMatrix<V> {
    pub(crate) row_ptrs: Vec<usize>,
    pub(crate) col_indices: Vec<usize>,
    pub(crate) values: Vec<V>,
    pub(crate) num_nodes: usize,
}

impl<V> View for CsrMatrix<V> {
    type V = CsrView<V>;

    closed spec fn view(&self) -> CsrView<V> {
        CsrView {
            num_nodes: self.num_nodes as nat,
            row_ptrs: self.row_ptrs@,
            col_indices: self.col_indices@,
            values: self.values@,
        }
    }
}

/// Adjacent non-decrease of the row pointers gives non-decrease between
/// any two of them.
pub(crate) proof fn lemma_adjacent_monotone(s: Seq<usize>, n: int)
    requires
        s.len() == n + 1,
        forall|i: int| 0 <= i < n ==> #[trigger] step_ok(s, i),
    ensures
        forall|i: int, j: int| 0 <= i <= j <= n ==> #[trigger] s[i] <= #[trigger] s[j],
{
    assert forall|i: int, j: int| 0 <= i <= j <= n implies #[trigger] s[i] <= #[trigger] s[j] by {
        lemma_adjacent_monotone_range(s, n, i, j);
    }
}

proof fn lemma_adjacent_monotone_range(s: Seq<usize>, n: int, i: int, j: int)
    requires
        s.len() == n + 1,
        forall|k: int| 0 <= k < n ==> #[trigger] step_ok(s, k),
        0 <= i <= j <= n,
    ensures
        s[i] <= s[j],
    decreases j - i,
{
    if i < j {
        lemma_adjacent_monotone_range(s, n, i, j - 1);
        assert(step_ok(s, j - 1));
    }
}

impl<V> CsrMatrix<V> {
    #[verifier::type_invariant]
    spec fn well_formed(self) -> bool {
        self@.wf()
    }

    /// The row pointers: row `r` occupies positions
    /// `row_ptrs[r] .. row_ptrs[r + 1]`.
    pub fn row_ptrs(&self) -> (r: &[usize])
        ensures
            r@ == self@.row_ptrs,
            self@.wf(),
    {
        proof {
            use_type_invariant(self);
        }
        self.row_ptrs.as_slice()
    }

    /// The column index of every stored entry.
    pub fn col_indices(&self) -> (r: &[usize])
        ensures
            r@ == self@.col_indices,
            self@.wf(),
    {
        proof {
            use_type_invariant(self);
        }
        self.col_indices.as_slice()
    }

    /// The weight of every stored entry.
    pub fn values(&self) -> (r: &[V])
        ensures
            r@ == self@.values,
            self@.wf(),
    {
        proof {
            use_type_invariant(self);
        }
        self.values.as_slice()
    }

    /// The number of nodes: the matrix is `num_nodes` by `num_nodes`.
    pub fn num_nodes(&self) -> (r: usize)
        ensures
            r == self@.num_nodes,
            self@.wf(),
    {
        proof {
            use_type_invariant(self);
        }
        self.num_nodes
    }

}

impl<V: Copy + Add<Output = V>> CsrMatrix<V> {
    /// Puts every row in canonical form: columns in strictly increasing
    /// order, with the weights of a column that a row names more than once
    /// added together (from left to right, in storage order). A matrix whose
    /// rows are already strictly sorted is left untouched, and the result can
    /// always be sorted again.
    pub fn sort_indices(&mut self)
        requires
            old(self)@.merge_defined(),
        ensures
            canonical_of(final(self)@, old(self)@),
            final(self)@.rows_sorted(),
            final(self)@.merge_defined(),
            old(self)@.rows_sorted() ==> final(self)@ == old(self)@,
    {
        proof {
            use_type_invariant(&*self);
        }
        let ghost start = self@;
        let n = self.num_nodes;
        if rows_sorted_check(&self.row_ptrs, &self.col_indices, n) {
            proof {
                assert forall|r: int| 0 <= r < self@.num_nodes implies strictly_increasing(
                    #[trigger] self@.row_cols(r),
                ) by {
                    assert(self@.row_cols(r) == self.col_indices@.subrange(
                        self.row_ptrs@[r] as int,
                        self.row_ptrs@[r + 1] as int,
                    ));
                }
                lemma_sorted_is_canonical(self@);
                sort_indices_idempotent(self@, start);
            }
            return;
        }
        proof {
            let r = choose|r: int| 0 <= r < n && !strictly_increasing(
                #[trigger] self.col_indices@.subrange(self.row_ptrs@[r] as int, self.row_ptrs@[r + 1] as int),
            );
            assert(self@.row_cols(r) == self.col_indices@.subrange(
                self.row_ptrs@[r] as int,
                self.row_ptrs@[r + 1] as int,
            ));
        }
        let (rp, cols, vals) = canonical_parts(&self.row_ptrs, &self.col_indices, &self.values, n);
        *self = CsrMatrix { row_ptrs: rp, col_indices: cols, values: vals, num_nodes: n };
        proof {
            assert forall|r: int| 0 <= r < self@.num_nodes implies strictly_increasing(#[trigger] self@.row_cols(r)) by {
                assert(span_canonical(self@.col_indices, self@.values, self@.row_start(r), self@.row_end(r),
                    old(self)@.col_indices, old(self)@.values, old(self)@.row_start(r), old(self)@.row_end(r)));
            }
            sort_indices_idempotent(self@, old(self)@);
        }
    }
}

/// Checks raw CSR arrays against the rules of
/// [`CsrMatrix::build_from_csr`], reporting the first rule broken.
fn validate_parts(
    row_ptrs: &Vec<usize>,
    col_indices: &Vec<usize>,
    num_values: usize,
    num_nodes: usize,
) -> (r: Result<(), FastRPError>)
    requires
        num_nodes < usize::MAX,
    ensures
        (r is Ok) <==> parts_valid(row_ptrs@, col_indices@, num_values as nat, num_nodes as nat),
        row_ptrs@.len() != num_nodes + 1 ==> fails_with(
            r,
            msg_row_ptrs_length(row_ptrs@.len(), (num_nodes + 1) as nat),
        ),
        row_ptrs@.len() == num_nodes + 1 && col_indices@.len() != num_values ==> fails_with(
            r,
            msg_lengths_differ(),
        ),
        row_ptrs@.len() == num_nodes + 1 && col_indices@.len() == num_values
            && row_ptrs@[0] != 0 ==> fails_with(r, msg_first_row_ptr(row_ptrs@[0] as nat)),
        row_ptrs@.len() == num_nodes + 1 && col_indices@.len() == num_values
            && row_ptrs@[0] == 0 && row_ptrs@[num_nodes as int] != col_indices@.len()
            ==> fails_with(
            r,
            msg_last_row_ptr(row_ptrs@[num_nodes as int] as nat, col_indices@.len()),
        ),
        forall|i: int|
            row_ptrs@.len() == num_nodes + 1 && col_indices@.len() == num_values
                && row_ptrs@[0] == 0 && row_ptrs@[num_nodes as int] == col_indices@.len()
                && #[trigger] first_descent(row_ptrs@, i) ==> fails_with(
                r,
                msg_row_ptrs_descend(row_ptrs@[i] as nat, row_ptrs@[i + 1] as nat),
            ),
        forall|i: int|
            row_ptrs@.len() == num_nodes + 1 && col_indices@.len() == num_values
                && row_ptrs@[0] == 0 && row_ptrs@[num_nodes as int] == col_indices@.len()
                && (forall|j: int| 0 <= j < num_nodes ==> #[trigger] step_ok(row_ptrs@, j))
                && #[trigger] first_column_out_of_bounds(col_indices@, num_nodes as nat, i)
                ==> fails_with(
                r,
                msg_column_out_of_bounds(i as nat, col_indices@[i] as nat, num_nodes as nat),
            ),
{
    let rp_len = row_ptrs.len();
    if rp_len != num_nodes + 1 {
        return Err(err_row_ptrs_length(rp_len, num_nodes + 1));
    }
    if col_indices.len() != num_values {
        return Err(err_lengths_differ());
    }
    if row_ptrs[0] != 0 {
        return Err(err_first_row_ptr(row_ptrs[0]));
    }
    let last_ptr = row_ptrs[num_nodes];
    if last_ptr != col_indices.len() {
        return Err(err_last_row_ptr(last_ptr, col_indices.len()));
    }
    let mut i: usize = 0;
    while i < num_nodes
        invariant
            i <= num_nodes,
            row_ptrs@.len() == num_nodes + 1,
            col_indices@.len() == num_values,
            row_ptrs@[0] == 0,
            row_ptrs@[num_nodes as int] == col_indices@.len(),
            forall|j: int| 0 <= j < i ==> #[trigger] step_ok(row_ptrs@, j),
        decreases num_nodes - i,
    {
        if row_ptrs[i] > row_ptrs[i + 1] {
            proof {
                assert(!step_ok(row_ptrs@, i as int));
                assert(first_descent(row_ptrs@, i as int));
                lemma_first_descent_unique(row_ptrs@, i as int);
            }
            return Err(err_row_ptrs_descend(row_ptrs[i], row_ptrs[i + 1]));
        }
        i = i + 1;
    }
    proof {
        assert forall|k: int| !#[trigger] first_descent(row_ptrs@, k) by {
            if 0 <= k < num_nodes {
                assert(step_ok(row_ptrs@, k));
            }
        }
    }
    let num_cols = col_indices.len();
    let mut k: usize = 0;
    while k < num_cols
        invariant
            k <= num_cols,
            num_cols == col_indices@.len(),
            row_ptrs@.len() == num_nodes + 1,
            col_indices@.len() == num_values,
            row_ptrs@[0] == 0,
            row_ptrs@[num_nodes as int] == col_indices@.len(),
            forall|j: int| 0 <= j < num_nodes ==> #[trigger] step_ok(row_ptrs@, j),
            forall|t: int| !#[trigger] first_descent(row_ptrs@, t),
            forall|j: int| 0 <= j < k ==> #[trigger] col_indices@[j] < num_nodes,
        decreases num_cols - k,
    {
        let col = col_indices[k];
        if col >= num_nodes {
            proof {
                assert(first_column_out_of_bounds(col_indices@, num_nodes as nat, k as int));
                lemma_first_column_unique(col_indices@, num_nodes as nat, k as int);
            }
            return Err(err_column_out_of_bounds(k, col, num_nodes));
        }
        k = k + 1;
    }
    proof {
        assert forall|t: int| !#[trigger] first_column_out_of_bounds(col_indices@, num_nodes as nat, t) by {
            if 0 <= t < num_cols {
                assert(col_indices@[t] < num_nodes);
            }
        }
        lemma_adjacent_monotone(row_ptrs@, num_nodes as int);
    }
    Ok(())
}

impl<V: Copy + Add<Output = V>> CsrMatrix<V> {
    /// Builds a matrix from raw CSR arrays, checking in this order that
    /// there are `num_nodes + 1` row pointers, as many weights as column
    /// indices, a first row pointer of zero, a last row pointer equal to the
    /// number of column indices, row pointers that never decrease, and
    /// column indices below `num_nodes`; the first broken rule is reported.
    /// The accepted matrix is returned in canonical form (see
    /// [`CsrMatrix::sort_indices`]).
    pub fn build_from_csr(
        row_ptrs: Vec<usize>,
        col_indices: Vec<usize>,
        values: Vec<V>,
        num_nodes: usize,
    ) -> (r: Result<Self, FastRPError>)
        requires
            num_nodes < usize::MAX,
            parts_valid(row_ptrs@, col_indices@, values@.len(), num_nodes as nat) ==> CsrView::from_parts(
                num_nodes as nat,
                row_ptrs@,
                col_indices@,
                values@,
            ).merge_defined(),
        ensures
            (r is Ok) <==> parts_valid(row_ptrs@, col_indices@, values@.len(), num_nodes as nat),
            r matches Ok(m) ==> canonical_of(
                m@,
                CsrView::from_parts(num_nodes as nat, row_ptrs@, col_indices@, values@),
            ),
            r matches Ok(m) ==> (CsrView::from_parts(
                num_nodes as nat,
                row_ptrs@,
                col_indices@,
                values@,
            ).rows_sorted() ==> m@ == CsrView::from_parts(
                num_nodes as nat,
                row_ptrs@,
                col_indices@,
                values@,
            )),
            row_ptrs@.len() != num_nodes + 1 ==> fails_with(
                r,
                msg_row_ptrs_length(row_ptrs@.len(), (num_nodes + 1) as nat),
            ),
            row_ptrs@.len() == num_nodes + 1 && col_indices@.len() != values@.len() ==> fails_with(
                r,
                msg_lengths_differ(),
            ),
            row_ptrs@.len() == num_nodes + 1 && col_indices@.len() == values@.len()
                && row_ptrs@[0] != 0 ==> fails_with(r, msg_first_row_ptr(row_ptrs@[0] as nat)),
            row_ptrs@.len() == num_nodes + 1 && col_indices@.len() == values@.len()
                && row_ptrs@[0] == 0 && row_ptrs@[num_nodes as int] != col_indices@.len()
                ==> fails_with(
                r,
                msg_last_row_ptr(row_ptrs@[num_nodes as int] as nat, col_indices@.len()),
            ),
            forall|i: int|
                row_ptrs@.len() == num_nodes + 1 && col_indices@.len() == values@.len()
                    && row_ptrs@[0] == 0 && row_ptrs@[num_nodes as int] == col_indices@.len()
                    && #[trigger] first_descent(row_ptrs@, i) ==> fails_with(
                    r,
                    msg_row_ptrs_descend(row_ptrs@[i] as nat, row_ptrs@[i + 1] as nat),
                ),
            forall|i: int|
                row_ptrs@.len() == num_nodes + 1 && col_indices@.len() == values@.len()
                    && row_ptrs@[0] == 0 && row_ptrs@[num_nodes as int] == col_indices@.len()
                    && (forall|j: int| 0 <= j < num_nodes ==> #[trigger] step_ok(row_ptrs@, j))
                    && #[trigger] first_column_out_of_bounds(col_indices@, num_nodes as nat, i)
                    ==> fails_with(
                    r,
                    msg_column_out_of_bounds(i as nat, col_indices@[i] as nat, num_nodes as nat),
                ),
    {
        match validate_parts(&row_ptrs, &col_indices, values.len(), num_nodes) {
            Err(e) => return Err(e),
            Ok(()) => {},
        }
        proof {
            lemma_adjacent_monotone(row_ptrs@, num_nodes as int);
        }
        let mut matrix = CsrMatrix { row_ptrs, col_indices, values, num_nodes };
        matrix.sort_indices();
        Ok(matrix)
    }
}

/// The storage that [`CsrMatrix::build_from_adj_list`] reserves for
/// `adj_list`: `adj_list.len() + 1` row pointers (the first of the pair),
/// and one column index and one weight per listed edge (the second).
pub fn adjacency_storage<V>(adj_list: &Vec<Vec<(usize, V)>>) -> (s: (usize, usize))
    requires
        adj_list@.len() < usize::MAX,
        total_edges(adj_list@) <= usize::MAX,
    ensures
        s.0 == adj_list@.len() + 1,
        s.1 == total_edges(adj_list@),
{
    let ghost adj = adj_list@;
    let num_nodes = adj_list.len();
    let mut total: usize = 0;
    let mut r: usize = 0;
    while r < num_nodes
        invariant
            adj == adj_list@,
            num_nodes == adj.len(),
            r <= num_nodes,
            total_edges(adj) <= usize::MAX,
            total == total_edges(adj.take(r as int)),
        decreases num_nodes - r,
    {
        proof {
            lemma_flat_step(adj, r as int);
            lemma_total_edges_prefix(adj, r + 1);
        }
        total = total + adj_list[r].len();
        r = r + 1;
    }
    proof {
        assert(adj.take(num_nodes as int) =~= adj);
    }
    (num_nodes + 1, total)
}

/// The number of non-empty cells of a row-major grid with `n` columns: the
/// number of entries that [`CsrMatrix::build_from_dense`] reserves room for.
pub fn dense_entry_count<V>(cells: &Vec<Option<V>>, n: usize) -> (k: usize)
    ensures
        k == dense_targets(cells@, n as nat, cells@.len() as int).len(),
{
    let ghost g = cells@;
    let total = cells.len();
    let mut nnz: usize = 0;
    let mut p: usize = 0;
    while p < total
        invariant
            g == cells@,
            total == g.len(),
            p <= total,
            nnz <= p,
            nnz == dense_targets(g, n as nat, p as int).len(),
        decreases total - p,
    {
        if cells[p].is_some() {
            nnz = nnz + 1;
        }
        p = p + 1;
    }
    nnz
}

impl<V: Copy + Add<Output = V>> CsrMatrix<V> {
    /// Builds a matrix from an adjacency list: entry `r` lists the edges
    /// `(target, weight)` leaving node `r`, and the list's length is the
    /// number of nodes. Weights are stored as given. Storage is reserved
    /// first, in the amounts of [`adjacency_storage`] (a refused reservation
    /// is [`FastRPError::Oom`], and that error comes from nothing else); then
    /// the first
    /// edge, in row-major order, whose target is not a node is reported.
    /// The matrix is returned in canonical form (see
    /// [`CsrMatrix::sort_indices`]).
    pub fn build_from_adj_list(adj_list: Vec<Vec<(usize, V)>>) -> (r: Result<Self, FastRPError>)
        requires
            adj_list@.len() < usize::MAX,
            total_edges(adj_list@) <= usize::MAX,
            targets_in_bounds(adj_list@, adj_list@.len()) ==> adjacency_view(adj_list@).merge_defined(),
        ensures
            r is Ok ==> targets_in_bounds(adj_list@, adj_list@.len()),
            targets_in_bounds(adj_list@, adj_list@.len()) ==> (r is Ok || fails_oom(r)),
            forall|i: int, j: int|
                #[trigger] first_target_out_of_bounds(adj_list@, adj_list@.len(), i, j) ==> (fails_oom(r)
                    || fails_with(
                    r,
                    msg_target_out_of_bounds(adj_list@[i]@[j].0 as nat, adj_list@.len()),
                )),
            r matches Ok(m) ==> canonical_of(m@, adjacency_view(adj_list@)),
            r matches Ok(m) ==> (adjacency_view(adj_list@).rows_sorted() ==> m@ == adjacency_view(
                adj_list@,
            )),
            fails_oom(r) ==> reservation_refused::<usize>(adj_list@.len() + 1int)
                || reservation_refused::<usize>(total_edges(adj_list@) as int)
                || reservation_refused::<V>(total_edges(adj_list@) as int),
    {
        let (ptr_count, total) = adjacency_storage(&adj_list);
        let mut row_ptrs: Vec<usize> = Vec::new();
        match try_reserve_exact(&mut row_ptrs, ptr_count) {
            Ok(()) => {},
            Err(e) => return Err(FastRPError::Oom(e)),
        }
        let mut col_indices: Vec<usize> = Vec::new();
        match try_reserve_exact(&mut col_indices, total) {
            Ok(()) => {},
            Err(e) => return Err(FastRPError::Oom(e)),
        }
        let mut values: Vec<V> = Vec::new();
        match try_reserve_exact(&mut values, total) {
            Ok(()) => {},
            Err(e) => return Err(FastRPError::Oom(e)),
        }
        Self::fill_from_adj_list(&adj_list, row_ptrs, col_indices, values)
    }

    /// The part of [`CsrMatrix::build_from_adj_list`] that follows the
    /// reservations: fills the three empty vectors from `adj_list`, row after
    /// row, reporting the first edge (in row-major order) whose target is not
    /// a node, and returns the matrix in canonical form. It cannot run out of
    /// memory in a way that it reports: it fails only on a target.
    pub fn fill_from_adj_list(
        adj_list: &Vec<Vec<(usize, V)>>,
        row_ptrs: Vec<usize>,
        col_indices: Vec<usize>,
        values: Vec<V>,
    ) -> (r: Result<Self, FastRPError>)
        requires
            row_ptrs@.len() == 0,
            col_indices@.len() == 0,
            values@.len() == 0,
            adj_list@.len() < usize::MAX,
            total_edges(adj_list@) <= usize::MAX,
            targets_in_bounds(adj_list@, adj_list@.len()) ==> adjacency_view(adj_list@).merge_defined(),
        ensures
            (r is Ok) <==> targets_in_bounds(adj_list@, adj_list@.len()),
            !fails_oom(r),
            forall|i: int, j: int|
                #[trigger] first_target_out_of_bounds(adj_list@, adj_list@.len(), i, j) ==> fails_with(
                    r,
                    msg_target_out_of_bounds(adj_list@[i]@[j].0 as nat, adj_list@.len()),
                ),
            r matches Ok(m) ==> canonical_of(m@, adjacency_view(adj_list@)),
            r matches Ok(m) ==> (adjacency_view(adj_list@).rows_sorted() ==> m@ == adjacency_view(
                adj_list@,
            )),
    {
        let mut row_ptrs = row_ptrs;
        let mut col_indices = col_indices;
        let mut values = values;
        let ghost adj = adj_list@;
        let num_nodes = adj_list.len();
        proof {
            assert(adj.take(0) =~= Seq::<Vec<(usize, V)>>::empty());
            assert(col_indices@ =~= flat_targets(adj.take(0)));
            assert(values@ =~= flat_weights(adj.take(0)));
        }
        let mut current_ptr: usize = 0;
        row_ptrs.push(current_ptr);
        let mut r: usize = 0;
        while r < num_nodes
            invariant
                adj == adj_list@,
                num_nodes == adj.len(),
                r <= num_nodes,
                total_edges(adj) <= usize::MAX,
                row_ptrs@.len() == r + 1,
                forall|i: int| 0 <= i <= r ==> #[trigger] row_ptrs@[i] == total_edges(adj.take(i)),
                current_ptr == total_edges(adj.take(r as int)),
                col_indices@ == flat_targets(adj.take(r as int)),
                values@ == flat_weights(adj.take(r as int)),
                forall|k: int| 0 <= k < col_indices@.len() ==> #[trigger] col_indices@[k] < num_nodes,
                forall|rr: int, jj: int|
                    0 <= rr < r && 0 <= jj < adj[rr]@.len() ==> (#[trigger] adj[rr]@[jj]).0 < num_nodes,
            decreases num_nodes - r,
        {
            let neighbors = &adj_list[r];
            let deg = neighbors.len();
            proof {
                lemma_flat_step(adj, r as int);
                lemma_total_edges_prefix(adj, r + 1);
            }
            let mut j: usize = 0;
            while j < deg
                invariant
                    adj == adj_list@,
                    num_nodes == adj.len(),
                    r < num_nodes,
                    neighbors@ == adj[r as int]@,
                    deg == neighbors@.len(),
                    j <= deg,
                    total_edges(adj.take(r + 1)) <= usize::MAX,
                    total_edges(adj.take(r + 1)) == total_edges(adj.take(r as int)) + deg,
                    current_ptr == total_edges(adj.take(r as int)) + j,
                    col_indices@ == flat_targets(adj.take(r as int)) + neighbors@.take(j as int).map_values(
                        |e: (usize, V)| e.0,
                    ),
                    values@ == flat_weights(adj.take(r as int)) + neighbors@.take(j as int).map_values(
                        |e: (usize, V)| e.1,
                    ),
                    forall|k: int| 0 <= k < col_indices@.len() ==> #[trigger] col_indices@[k] < num_nodes,
                    forall|rr: int, jj: int|
                        0 <= rr < r && 0 <= jj < adj[rr]@.len() ==> (#[trigger] adj[rr]@[jj]).0 < num_nodes,
                    forall|jj: int| 0 <= jj < j ==> (#[trigger] adj[r as int]@[jj]).0 < num_nodes,
                decreases deg - j,
            {
                let (target, weight) = neighbors[j];
                if target >= num_nodes {
                    proof {
                        assert(first_target_out_of_bounds(adj, num_nodes as nat, r as int, j as int));
                        assert forall|i: int, jj: int|
                            #[trigger] first_target_out_of_bounds(adj, num_nodes as nat, i, jj) implies i == r
                            && jj == j by {
                            if i < r {
                                assert((adj[i]@[jj]).0 < num_nodes);
                            } else if i > r {
                                assert((adj[r as int]@[j as int]).0 < num_nodes);
                            } else if jj < j {
                                assert((adj[r as int]@[jj]).0 < num_nodes);
                            } else if jj > j {
                                assert((adj[r as int]@[j as int]).0 < num_nodes);
                            }
                        }
                        assert(!targets_in_bounds(adj, num_nodes as nat)) by {
                            assert((adj[r as int]@[j as int]).0 >= num_nodes);
                        }
                    }
                    return Err(err_target_out_of_bounds(target, num_nodes));
                }
                proof {
                    assert(neighbors@.take(j + 1).map_values(|e: (usize, V)| e.0) =~= neighbors@.take(
                        j as int,
                    ).map_values(|e: (usize, V)| e.0).push(target));
                    assert(neighbors@.take(j + 1).map_values(|e: (usize, V)| e.1) =~= neighbors@.take(
                        j as int,
                    ).map_values(|e: (usize, V)| e.1).push(weight));
                }
                col_indices.push(target);
                values.push(weight);
                current_ptr = current_ptr + 1;
                proof {
                    assert(col_indices@ =~= flat_targets(adj.take(r as int)) + neighbors@.take(j + 1).map_values(
                        |e: (usize, V)| e.0,
                    ));
                    assert(values@ =~= flat_weights(adj.take(r as int)) + neighbors@.take(j + 1).map_values(
                        |e: (usize, V)| e.1,
                    ));
                }
                j = j + 1;
            }
            proof {
                assert(neighbors@.take(deg as int) =~= neighbors@);
            }
            row_ptrs.push(current_ptr);
            r = r + 1;
        }
        proof {
            assert(adj.take(num_nodes as int) =~= adj);
            let raw = adjacency_view(adj);
            assert(row_ptrs@ =~= raw.row_ptrs);
            assert(adj.take(0) =~= Seq::<Vec<(usize, V)>>::empty());
            lemma_flat_len(adj);
            assert forall|i: int, j: int| 0 <= i <= j <= num_nodes implies #[trigger] row_ptrs@[i]
                <= #[trigger] row_ptrs@[j] by {
                lemma_total_edges_prefix(adj.take(j), i);
                assert(adj.take(j).take(i) =~= adj.take(i));
            }
            assert forall|i: int, j: int|
                0 <= i < adj.len() && 0 <= j < adj[i]@.len() implies !#[trigger] first_target_out_of_bounds(
                adj,
                num_nodes as nat,
                i,
                j,
            ) by {
                assert((adj[i]@[j]).0 < num_nodes);
            }
        }
        let mut matrix = CsrMatrix { row_ptrs, col_indices, values, num_nodes };
        matrix.sort_indices();
        Ok(matrix)
    }
}

impl<V: Copy> CsrMatrix<V> {
    /// Builds a matrix from a dense `num_rows` by `num_cols` grid given in
    /// row-major order, where `None` marks an absent edge and `Some(w)` an
    /// edge of weight `w`. The grid must be square
    /// (`"Adjacency matrix must be square"`); storage is reserved exactly
    /// (`num_rows + 1` row pointers and [`dense_entry_count`] entries), and a
    /// refused reservation is [`FastRPError::Oom`], which comes from nothing
    /// else. Rows come out
    /// sorted, since a grid row is scanned left to right.
    pub fn build_from_dense(num_rows: usize, num_cols: usize, cells: &Vec<Option<V>>) -> (r: Result<
        Self,
        FastRPError,
    >)
        requires
            cells@.len() == num_rows * num_cols,
        ensures
            num_rows != num_cols ==> fails_with(r, msg_not_square()),
            num_rows == num_cols ==> (r is Ok || fails_oom(r)),
            r matches Ok(m) ==> m@ == dense_view(cells@, num_rows as nat) && m@.rows_sorted(),
            fails_oom(r) ==> reservation_refused::<usize>(num_rows + 1)
                || reservation_refused::<usize>(dense_targets(cells@, num_rows as nat, cells@.len() as int).len() as int)
                || reservation_refused::<V>(dense_targets(cells@, num_rows as nat, cells@.len() as int).len() as int),
    {
        if num_rows != num_cols {
            return Err(err_not_square());
        }
        let n = num_rows;
        let total = cells.len();
        proof {
            assert(n < usize::MAX) by (nonlinear_arith)
                requires
                    total == n * n,
                    total <= usize::MAX,
                    usize::MAX > 1,
            ;
        }
        let mut row_ptrs: Vec<usize> = Vec::new();
        match try_reserve_exact(&mut row_ptrs, n + 1) {
            Ok(()) => {},
            Err(e) => return Err(FastRPError::Oom(e)),
        }
        let nnz = dense_entry_count(cells, n);
        let mut col_indices: Vec<usize> = Vec::new();
        match try_reserve_exact(&mut col_indices, nnz) {
            Ok(()) => {},
            Err(e) => return Err(FastRPError::Oom(e)),
        }
        let mut values: Vec<V> = Vec::new();
        match try_reserve_exact(&mut values, nnz) {
            Ok(()) => {},
            Err(e) => return Err(FastRPError::Oom(e)),
        }
        Ok(Self::fill_from_dense(n, cells, row_ptrs, col_indices, values))
    }

    /// The part of [`CsrMatrix::build_from_dense`] that follows the
    /// reservations: scans the `n` by `n` grid row by row, left to right,
    /// into the three empty vectors. It always succeeds.
    pub fn fill_from_dense(
        n: usize,
        cells: &Vec<Option<V>>,
        row_ptrs: Vec<usize>,
        col_indices: Vec<usize>,
        values: Vec<V>,
    ) -> (m: Self)
        requires
            cells@.len() == n * n,
            row_ptrs@.len() == 0,
            col_indices@.len() == 0,
            values@.len() == 0,
        ensures
            m@ == dense_view(cells@, n as nat),
            m@.rows_sorted(),
    {
        let mut row_ptrs = row_ptrs;
        let mut col_indices = col_indices;
        let mut values = values;
        let ghost g = cells@;
        let total = cells.len();
        proof {
            assert(n * n == total);
            assert(col_indices@ =~= dense_targets(g, n as nat, 0));
            assert(values@ =~= dense_weights(g, 0));
        }
        row_ptrs.push(0);
        let mut p: usize = 0;
        let mut r: usize = 0;
        while r < n
            invariant
                g == cells@,
                g.len() == n * n,
                n * n <= usize::MAX,
                r <= n,
                p == r * n,
                col_indices@.len() == values@.len(),
                col_indices@ == dense_targets(g, n as nat, p as int),
                values@ == dense_weights(g, p as int),
                row_ptrs@.len() == r + 1,
                forall|i: int| 0 <= i <= r ==> #[trigger] row_ptrs@[i] == dense_targets(g, n as nat, i * n).len(),
                forall|i: int, j: int| 0 <= i <= j <= r ==> #[trigger] row_ptrs@[i] <= #[trigger] row_ptrs@[j],
                row_ptrs@[r as int] == col_indices@.len(),
                forall|k: int| 0 <= k < col_indices@.len() ==> #[trigger] col_indices@[k] < n,
                forall|rr: int|
                    0 <= rr < r ==> strictly_increasing(
                        #[trigger] col_indices@.subrange(row_ptrs@[rr] as int, row_ptrs@[rr + 1] as int),
                    ),
            decreases n - r,
        {
            let ghost row_start = col_indices@.len();
            let mut c: usize = 0;
            while c < n
                invariant
                    g == cells@,
                    g.len() == n * n,
                    n * n <= usize::MAX,
                    r < n,
                    c <= n,
                    col_indices@.len() == values@.len(),
                    p == r * n + c,
                    col_indices@ == dense_targets(g, n as nat, p as int),
                    values@ == dense_weights(g, p as int),
                    row_ptrs@.len() == r + 1,
                    row_ptrs@[r as int] == row_start,
                    row_start <= col_indices@.len(),
                    forall|k: int| 0 <= k < col_indices@.len() ==> #[trigger] col_indices@[k] < n,
                    forall|k: int| row_start <= k < col_indices@.len() ==> #[trigger] col_indices@[k] < c,
                    strictly_increasing(col_indices@.subrange(row_start as int, col_indices@.len() as int)),
                    forall|i: int, j: int| 0 <= i <= j <= r ==> #[trigger] row_ptrs@[i] <= #[trigger] row_ptrs@[j],
                    forall|rr: int|
                        0 <= rr < r ==> strictly_increasing(
                            #[trigger] col_indices@.subrange(row_ptrs@[rr] as int, row_ptrs@[rr + 1] as int),
                        ),
                decreases n - c,
            {
                proof {
                    assert(r * n + c < n * n) by (nonlinear_arith)
                        requires
                            r < n,
                            c < n,
                    ;
                    vstd::arithmetic::div_mod::lemma_fundamental_div_mod_converse(
                        p as int,
                        n as int,
                        r as int,
                        c as int,
                    );
                }
                let ghost prev_cols = col_indices@;
                match cells[p] {
                    Some(w) => {
                        col_indices.push(c);
                        values.push(w);
                        proof {
                            let ns = col_indices@.subrange(row_start as int, col_indices@.len() as int);
                            let ps = prev_cols.subrange(row_start as int, prev_cols.len() as int);
                            assert forall|i: int, j: int| 0 <= i < j < ns.len() implies #[trigger] ns[i]
                                < #[trigger] ns[j] by {
                                if j < ns.len() - 1 {
                                    assert(ns[i] == ps[i] && ns[j] == ps[j]);
                                } else {
                                    assert(ns[i] == prev_cols[row_start + i]);
                                }
                            }
                            assert forall|rr: int| 0 <= rr < r implies strictly_increasing(
                                #[trigger] col_indices@.subrange(row_ptrs@[rr] as int, row_ptrs@[rr + 1] as int),
                            ) by {
                                assert(row_ptrs@[rr] <= row_ptrs@[rr + 1]);
                                assert(row_ptrs@[rr + 1] <= row_ptrs@[r as int]);
                                assert(col_indices@.subrange(row_ptrs@[rr] as int, row_ptrs@[rr + 1] as int)
                                    =~= prev_cols.subrange(row_ptrs@[rr] as int, row_ptrs@[rr + 1] as int));
                            }
                        }
                    },
                    None => {},
                }
                p = p + 1;
                c = c + 1;
            }
            proof {
                assert(p == (r + 1) * n) by (nonlinear_arith)
                    requires
                        p == r * n + c,
                        c == n,
                ;
            }
            let ghost prev_rp = row_ptrs@;
            row_ptrs.push(col_indices.len());
            proof {
                assert forall|i: int, j: int| 0 <= i <= j <= r + 1 implies #[trigger] row_ptrs@[i]
                    <= #[trigger] row_ptrs@[j] by {
                    if j <= r {
                        assert(row_ptrs@[i] == prev_rp[i] && row_ptrs@[j] == prev_rp[j]);
                    } else if i <= r {
                        assert(row_ptrs@[i] == prev_rp[i]);
                        assert(prev_rp[i] <= prev_rp[r as int]);
                    }
                }
                assert forall|i: int| 0 <= i <= r + 1 implies #[trigger] row_ptrs@[i] == dense_targets(
                    g,
                    n as nat,
                    i * n,
                ).len() by {
                    if i <= r {
                        assert(row_ptrs@[i] == prev_rp[i]);
                    }
                }
                assert forall|rr: int| 0 <= rr < r + 1 implies strictly_increasing(
                    #[trigger] col_indices@.subrange(row_ptrs@[rr] as int, row_ptrs@[rr + 1] as int),
                ) by {
                    if rr < r {
                        assert(row_ptrs@[rr] == prev_rp[rr] && row_ptrs@[rr + 1] == prev_rp[rr + 1]);
                    }
                }
            }
            r = r + 1;
        }
        let matrix = CsrMatrix { row_ptrs, col_indices, values, num_nodes: n };
        proof {
            let d = dense_view(g, n as nat);
            assert(0 * n == 0);
            assert(matrix@.row_ptrs =~= d.row_ptrs);
            assert(matrix@ == d);
        }
        matrix
    }
}

} // verus!
