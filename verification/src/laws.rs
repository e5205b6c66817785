//! Properties of the CSR constructors that relate several calls: the
//! canonical form is idempotent and unique, and the dense-grid and
//! adjacency-list entry points agree.
use core::ops::Add;
use vstd::prelude::*;
use vstd::std_specs::ops::AddSpec;
use crate::canonical::{
    strictly_increasing, cell_span, merged, cell_merge_defined, span_merge_defined, span_canonical,
    canonical_of, lemma_cell_span_empty, lemma_cell_span_sorted, lemma_cell_span_agree,
    lemma_sorted_is_canonical,
};
use crate::csr::{
    CsrView, parts_valid, step_ok, total_edges, flat_targets, flat_weights, adjacency_view, targets_in_bounds,
    dense_targets, dense_weights, dense_view, lemma_flat_step, lemma_flat_len,
    lemma_total_edges_prefix,
};

verus! {

/// Two strictly increasing sequences with the same elements are equal.
proof fn lemma_sorted_same_elements(s: Seq<usize>, t: Seq<usize>)
    requires
        strictly_increasing(s),
        strictly_increasing(t),
        forall|x: usize| s.contains(x) <==> t.contains(x),
    ensures
        s == t,
    decreases s.len(),
{
    if s.len() == 0 {
        if t.len() > 0 {
            assert(t.contains(t[0]));
        }
        assert(t =~= s);
    } else {
        assert(s.contains(s[0]));
        assert(t.len() > 0);
        assert(t.contains(t[0]));
        let i = choose|i: int| 0 <= i < t.len() && t[i] == s[0];
        let j = choose|j: int| 0 <= j < s.len() && s[j] == t[0];
        if i > 0 {
            assert(t[0] < t[i]);
            if j > 0 {
                assert(s[0] < s[j]);
            }
        }
        assert(s[0] == t[0]);
        let s1 = s.drop_first();
        let t1 = t.drop_first();
        assert forall|x: usize| s1.contains(x) <==> t1.contains(x) by {
            if s1.contains(x) {
                let a = choose|a: int| 0 <= a < s1.len() && s1[a] == x;
                assert(s[a + 1] == x && s[0] < s[a + 1]);
                assert(t.contains(x));
                let b = choose|b: int| 0 <= b < t.len() && t[b] == x;
                assert(b != 0);
                assert(t1[b - 1] == x);
            }
            if t1.contains(x) {
                let a = choose|a: int| 0 <= a < t1.len() && t1[a] == x;
                assert(t[a + 1] == x && t[0] < t[a + 1]);
                assert(s.contains(x));
                let b = choose|b: int| 0 <= b < s.len() && s[b] == x;
                assert(b != 0);
                assert(s1[b - 1] == x);
            }
        }
        assert forall|a: int, b: int| 0 <= a < b < s1.len() implies #[trigger] s1[a] < #[trigger] s1[b] by {
            assert(s[a + 1] < s[b + 1]);
        }
        assert forall|a: int, b: int| 0 <= a < b < t1.len() implies #[trigger] t1[a] < #[trigger] t1[b] by {
            assert(t[a + 1] < t[b + 1]);
        }
        lemma_sorted_same_elements(s1, t1);
        assert(s =~= seq![s[0]] + s1);
        assert(t =~= seq![t[0]] + t1);
    }
}

/// A column is listed in row `r` exactly when its cell is non-empty.
proof fn lemma_row_cols_contains<V>(m: CsrView<V>, r: int, c: usize)
    requires
        m.wf(),
        0 <= r < m.num_nodes,
    ensures
        m.row_cols(r).contains(c) <==> m.cell(r, c).len() > 0,
{
    assert(m.row_ptrs[r] <= m.row_ptrs[r + 1]);
    assert(m.row_ptrs[r + 1] <= m.row_ptrs[m.num_nodes as int]);
    lemma_cell_span_empty(m.col_indices, m.values, m.row_start(r), m.row_end(r), c);
    let lo = m.row_start(r);
    if m.row_cols(r).contains(c) {
        let a = choose|a: int| 0 <= a < m.row_cols(r).len() && m.row_cols(r)[a] == c;
        assert(m.col_indices[lo + a] == c);
    }
    if m.cell(r, c).len() > 0 {
        let p = choose|p: int| m.row_start(r) <= p < m.row_end(r) && #[trigger] m.col_indices[p] == c;
        assert(m.row_cols(r)[p - lo] == c);
    }
}

/// Every stored position belongs to some row.
proof fn lemma_position_in_row<V>(m: CsrView<V>, k: int) -> (r: int)
    requires
        m.wf(),
        0 <= k < m.col_indices.len(),
    ensures
        0 <= r < m.num_nodes,
        m.row_start(r) <= k < m.row_end(r),
{
    lemma_position_in_row_from(m, k, m.num_nodes as int)
}

proof fn lemma_position_in_row_from<V>(m: CsrView<V>, k: int, top: int) -> (r: int)
    requires
        m.wf(),
        0 <= k,
        0 < top <= m.num_nodes,
        k < m.row_ptrs[top],
    ensures
        0 <= r < top,
        m.row_start(r) <= k < m.row_end(r),
    decreases top,
{
    if m.row_ptrs[top - 1] <= k {
        top - 1
    } else {
        assert(top - 1 > 0) by {
            if top - 1 == 0 {
                assert(m.row_ptrs[0] == 0);
            }
        }
        lemma_position_in_row_from(m, k, top - 1)
    }
}

/// Sorting a matrix that is already in canonical form changes nothing:
/// [`CsrMatrix::sort_indices`] is idempotent. A canonical form repeats no
/// column, so sorting it again is allowed for any weight type.
pub proof fn sort_indices_idempotent<V: Add<Output = V>>(n: CsrView<V>, o: CsrView<V>)
    requires
        canonical_of(n, o),
    ensures
        n.rows_sorted(),
        n.merge_defined(),
        canonical_of(n, n),
{
    assert forall|r: int| 0 <= r < n.num_nodes implies strictly_increasing(#[trigger] n.row_cols(r)) by {
        assert(span_canonical(
            n.col_indices,
            n.values,
            n.row_start(r),
            n.row_end(r),
            o.col_indices,
            o.values,
            o.row_start(r),
            o.row_end(r),
        ));
    }
    lemma_sorted_is_canonical(n);
    sorted_rows_repeat_no_column(n);
    no_repeats_merge_defined(n);
}

/// The canonical form of a matrix is unique: two canonical forms of the
/// same matrix have the same row pointers and column indices, and the same
/// weights whenever no row repeats a column or weights add in the ordinary
/// way.
pub proof fn canonical_form_unique<V: Add<Output = V>>(a: CsrView<V>, b: CsrView<V>, o: CsrView<V>)
    requires
        canonical_of(a, o),
        canonical_of(b, o),
    ensures
        a.row_ptrs == b.row_ptrs,
        a.col_indices == b.col_indices,
        o.no_repeated_columns() || V::obeys_add_spec() ==> a.values == b.values,
{
    let n = o.num_nodes;
    // Row by row, both forms list the same columns.
    assert forall|r: int| 0 <= r < n implies #[trigger] a.row_cols(r) == b.row_cols(r) by {
        let sa = span_canonical(a.col_indices, a.values, a.row_start(r), a.row_end(r), o.col_indices, o.values, o.row_start(r), o.row_end(r));
        let sb = span_canonical(b.col_indices, b.values, b.row_start(r), b.row_end(r), o.col_indices, o.values, o.row_start(r), o.row_end(r));
        assert(sa && sb);
        assert forall|x: usize| a.row_cols(r).contains(x) <==> b.row_cols(r).contains(x) by {
            lemma_row_cols_contains(a, r, x);
            lemma_row_cols_contains(b, r, x);
            assert(a.cell(r, x).len() > 0 <==> o.cell(r, x).len() > 0);
            assert(b.cell(r, x).len() > 0 <==> o.cell(r, x).len() > 0);
        }
        lemma_sorted_same_elements(a.row_cols(r), b.row_cols(r));
    }
    // Hence the row pointers agree.
    assert forall|r: int| 0 <= r <= n implies #[trigger] a.row_ptrs[r] == b.row_ptrs[r] by {
        lemma_row_ptrs_agree(a, b, n as int, r);
    }
    assert(a.row_ptrs =~= b.row_ptrs);
    // And every stored position holds the same column (and weight).
    assert forall|k: int|
        #![trigger a.col_indices[k]]
        #![trigger a.values[k]]
        0 <= k < a.col_indices.len() implies a.col_indices[k] == b.col_indices[k]
        && (o.no_repeated_columns() || V::obeys_add_spec() ==> a.values[k] == b.values[k]) by {
        let r = lemma_position_in_row(a, k);
        let lo = a.row_start(r);
        assert(a.row_cols(r)[k - lo] == b.row_cols(r)[k - lo]);
        let c = a.col_indices[k];
        assert(b.col_indices[k] == c);
        if o.no_repeated_columns() || V::obeys_add_spec() {
            assert(span_canonical(a.col_indices, a.values, a.row_start(r), a.row_end(r), o.col_indices, o.values, o.row_start(r), o.row_end(r)));
            assert(span_canonical(b.col_indices, b.values, b.row_start(r), b.row_end(r), o.col_indices, o.values, o.row_start(r), o.row_end(r)));
            assert(a.row_ptrs[r + 1] <= a.row_ptrs[n as int]);
            lemma_cell_span_sorted(a.col_indices, a.values, a.row_start(r), a.row_end(r), k);
            lemma_cell_span_sorted(b.col_indices, b.values, b.row_start(r), b.row_end(r), k);
            assert(a.cell(r, c) == seq![a.values[k]]);
            assert(b.cell(r, c) == seq![b.values[k]]);
            assert(o.cell(r, c).len() > 0);
            if o.no_repeated_columns() {
                assert(o.cell(r, c).len() <= 1);
                assert(a.cell(r, c) == o.cell(r, c));
                assert(b.cell(r, c) == o.cell(r, c));
            } else {
                assert(a.cell(r, c) == seq![merged(o.cell(r, c))]);
                assert(b.cell(r, c) == seq![merged(o.cell(r, c))]);
            }
            assert(a.cell(r, c)[0] == b.cell(r, c)[0]);
        }
    }
    assert(a.col_indices =~= b.col_indices);
    if o.no_repeated_columns() || V::obeys_add_spec() {
        assert(a.values =~= b.values);
    }
}

proof fn lemma_row_ptrs_agree<V>(a: CsrView<V>, b: CsrView<V>, n: int, r: int)
    requires
        a.wf(),
        b.wf(),
        a.num_nodes == n,
        b.num_nodes == n,
        0 <= r <= n,
        forall|rr: int| 0 <= rr < n ==> #[trigger] a.row_cols(rr) == b.row_cols(rr),
    ensures
        a.row_ptrs[r] == b.row_ptrs[r],
    decreases r,
{
    if r > 0 {
        lemma_row_ptrs_agree(a, b, n, r - 1);
        assert(a.row_cols(r - 1) == b.row_cols(r - 1));
        assert(a.row_ptrs[r - 1] <= a.row_ptrs[r]);
        assert(b.row_ptrs[r - 1] <= b.row_ptrs[r]);
        assert(a.row_ptrs[r] <= a.row_ptrs[n]);
        assert(b.row_ptrs[r] <= b.row_ptrs[n]);
    }
}

/// No row of `adj` lists the same target twice.
pub open spec fn targets_distinct<V>(adj: Seq<Vec<(usize, V)>>) -> bool {
    forall|r: int, i: int, j: int|
        0 <= r < adj.len() && 0 <= i < j < adj[r]@.len() ==> (#[trigger] adj[r]@[i]).0 != (
        #[trigger] adj[r]@[j]).0
}

/// Row `r` of `adj` has an edge to `c`.
pub open spec fn has_edge<V>(adj: Seq<Vec<(usize, V)>>, r: int, c: int) -> bool {
    exists|j: int| 0 <= j < adj[r]@.len() && (#[trigger] adj[r]@[j]).0 == c
}

/// The dense `n` by `n` grid that an adjacency list over `n` nodes
/// describes, in row-major order: cell `(r, c)` holds the weight of the
/// edge `r -> c`, or nothing where there is no such edge.
pub open spec fn adjacency_grid<V>(adj: Seq<Vec<(usize, V)>>) -> Seq<Option<V>> {
    let n = adj.len() as int;
    Seq::new(
        (n * n) as nat,
        |p: int|
            if has_edge(adj, p / n, p % n) {
                Some(
                    adj[p / n]@[choose|j: int|
                        0 <= j < adj[p / n]@.len() && (#[trigger] adj[p / n]@[j]).0 == p % n].1,
                )
            } else {
                None
            },
    )
}

/// In a span whose columns are pairwise distinct, the cell of a present
/// column is the single weight stored at its position.
proof fn lemma_cell_span_distinct<V>(cols: Seq<usize>, vals: Seq<V>, lo: int, hi: int, p: int)
    requires
        0 <= lo <= p < hi <= cols.len(),
        forall|i: int, j: int| lo <= i < j < hi ==> #[trigger] cols[i] != #[trigger] cols[j],
    ensures
        cell_span(cols, vals, lo, hi, cols[p]) == seq![vals[p]],
    decreases hi - lo,
{
    let c = cols[p];
    if p == hi - 1 {
        assert forall|q: int| lo <= q < hi - 1 implies #[trigger] cols[q] != c by {
        }
        lemma_cell_span_empty(cols, vals, lo, hi - 1, c);
        assert(cell_span(cols, vals, lo, hi - 1, c) =~= Seq::<V>::empty());
        assert(Seq::<V>::empty().push(vals[p]) =~= seq![vals[p]]);
    } else {
        assert(cols[p] != cols[hi - 1]);
        lemma_cell_span_distinct(cols, vals, lo, hi - 1, p);
    }
}

/// A cell can be read off the span moved to the front.
proof fn lemma_cell_span_shift<V>(cols: Seq<usize>, vals: Seq<V>, lo: int, hi: int, c: usize)
    requires
        0 <= lo <= hi <= cols.len(),
        hi <= vals.len(),
    ensures
        cell_span(cols, vals, lo, hi, c) == cell_span(
            cols.subrange(lo, hi),
            vals.subrange(lo, hi),
            0,
            hi - lo,
            c,
        ),
    decreases hi - lo,
{
    if lo < hi {
        lemma_cell_span_shift(cols, vals, lo, hi - 1, c);
        lemma_cell_span_agree(
            cols.subrange(lo, hi - 1),
            vals.subrange(lo, hi - 1),
            cols.subrange(lo, hi),
            vals.subrange(lo, hi),
            0,
            hi - 1 - lo,
            c,
        );
    }
}

/// The flattened edges of the first `k` rows are a prefix of all of them.
proof fn lemma_flat_prefix<V>(adj: Seq<Vec<(usize, V)>>, k: int)
    requires
        0 <= k <= adj.len(),
    ensures
        flat_targets(adj).subrange(0, flat_targets(adj.take(k)).len() as int) == flat_targets(adj.take(k)),
        flat_weights(adj).subrange(0, flat_weights(adj.take(k)).len() as int) == flat_weights(adj.take(k)),
        flat_targets(adj.take(k)).len() <= flat_targets(adj).len(),
        flat_weights(adj.take(k)).len() <= flat_weights(adj).len(),
    decreases adj.len(),
{
    if k == adj.len() {
        assert(adj.take(k) =~= adj);
        assert(flat_targets(adj).subrange(0, flat_targets(adj).len() as int) =~= flat_targets(adj));
        assert(flat_weights(adj).subrange(0, flat_weights(adj).len() as int) =~= flat_weights(adj));
    } else {
        let d = adj.drop_last();
        assert(d.take(k) =~= adj.take(k));
        lemma_flat_prefix(d, k);
        assert(flat_targets(adj).subrange(0, flat_targets(d).len() as int) =~= flat_targets(d));
        assert(flat_weights(adj).subrange(0, flat_weights(d).len() as int) =~= flat_weights(d));
        assert(flat_targets(adj).subrange(0, flat_targets(adj.take(k)).len() as int) =~= flat_targets(
            d,
        ).subrange(0, flat_targets(adj.take(k)).len() as int));
        assert(flat_weights(adj).subrange(0, flat_weights(adj.take(k)).len() as int) =~= flat_weights(
            d,
        ).subrange(0, flat_weights(adj.take(k)).len() as int));
    }
}

/// A cell of the adjacency matrix: the weight of the edge `r -> c` when
/// there is one (targets being distinct), nothing otherwise.
proof fn lemma_adjacency_cell<V>(adj: Seq<Vec<(usize, V)>>, r: int, c: usize)
    requires
        0 <= r < adj.len(),
        targets_distinct(adj),
        total_edges(adj) <= usize::MAX,
    ensures
        has_edge(adj, r, c as int) ==> forall|j: int|
            0 <= j < adj[r]@.len() && (#[trigger] adj[r]@[j]).0 == c ==> adjacency_view(adj).cell(r, c)
                == seq![adj[r]@[j].1],
        !has_edge(adj, r, c as int) ==> adjacency_view(adj).cell(r, c).len() == 0,
{
    let a = adjacency_view(adj);
    let row = adj[r]@;
    let rc = row.map_values(|e: (usize, V)| e.0);
    let rv = row.map_values(|e: (usize, V)| e.1);
    lemma_flat_step(adj, r);
    lemma_flat_len(adj.take(r));
    lemma_flat_len(adj.take(r + 1));
    lemma_flat_prefix(adj, r);
    lemma_flat_prefix(adj, r + 1);
    lemma_total_edges_prefix(adj, r + 1);
    lemma_total_edges_prefix(adj, r);
    let lo = total_edges(adj.take(r)) as int;
    let hi = total_edges(adj.take(r + 1)) as int;
    assert(a.row_start(r) == lo);
    assert(a.row_end(r) == hi);
    lemma_cell_span_shift(a.col_indices, a.values, lo, hi, c);
    assert(a.col_indices.subrange(lo, hi) =~= rc) by {
        assert(a.col_indices.subrange(0, hi) == flat_targets(adj.take(r)) + rc);
        assert forall|i: int| 0 <= i < hi - lo implies a.col_indices.subrange(lo, hi)[i] == rc[i] by {
            assert(a.col_indices.subrange(0, hi)[lo + i] == a.col_indices[lo + i]);
        }
    }
    assert(a.values.subrange(lo, hi) =~= rv) by {
        assert(a.values.subrange(0, hi) == flat_weights(adj.take(r)) + rv);
        assert forall|i: int| 0 <= i < hi - lo implies a.values.subrange(lo, hi)[i] == rv[i] by {
            assert(a.values.subrange(0, hi)[lo + i] == a.values[lo + i]);
        }
    }
    assert forall|i: int, j: int| 0 <= i < j < rc.len() implies #[trigger] rc[i] != #[trigger] rc[j] by {
        assert((adj[r]@[i]).0 != (adj[r]@[j]).0);
    }
    if has_edge(adj, r, c as int) {
        assert forall|j: int| 0 <= j < adj[r]@.len() && (#[trigger] adj[r]@[j]).0 == c implies a.cell(r, c)
            == seq![adj[r]@[j].1] by {
            assert(rc[j] == c);
            lemma_cell_span_distinct(rc, rv, 0, rc.len() as int, j);
        }
    } else {
        lemma_cell_span_empty(rc, rv, 0, rc.len() as int, c);
        assert forall|q: int| 0 <= q < rc.len() implies #[trigger] rc[q] != c by {
            if rc[q] == c {
                assert((adj[r]@[q]).0 == c);
            }
        }
    }
}

/// The scanned columns and weights have the same length, at most the
/// number of cells scanned.
proof fn lemma_dense_len<V>(g: Seq<Option<V>>, n: nat, q: int)
    requires
        0 <= q,
    ensures
        dense_targets(g, n, q).len() == dense_weights(g, q).len(),
        dense_targets(g, n, q).len() <= q,
    decreases q,
{
    if q > 0 {
        lemma_dense_len(g, n, q - 1);
    }
}

/// Scanning more grid cells only appends to the scanned columns and weights.
proof fn lemma_dense_prefix<V>(g: Seq<Option<V>>, n: nat, p: int, q: int)
    requires
        0 <= p <= q,
    ensures
        dense_targets(g, n, q).subrange(0, dense_targets(g, n, p).len() as int) == dense_targets(g, n, p),
        dense_weights(g, q).subrange(0, dense_weights(g, p).len() as int) == dense_weights(g, p),
        dense_targets(g, n, p).len() <= dense_targets(g, n, q).len(),
        dense_targets(g, n, q).len() == dense_weights(g, q).len(),
        dense_targets(g, n, q).len() <= q,
    decreases q - p,
{
    lemma_dense_len(g, n, p);
    lemma_dense_len(g, n, q);
    if q > p {
        lemma_dense_prefix(g, n, p, q - 1);
        lemma_dense_len(g, n, q - 1);
        let k = dense_targets(g, n, p).len() as int;
        assert(dense_targets(g, n, q).subrange(0, k) =~= dense_targets(g, n, q - 1).subrange(0, k));
        assert(dense_weights(g, q).subrange(0, k) =~= dense_weights(g, q - 1).subrange(0, k));
    } else {
        assert(dense_targets(g, n, q).subrange(0, dense_targets(g, n, q).len() as int) =~= dense_targets(
            g,
            n,
            q,
        ));
        assert(dense_weights(g, q).subrange(0, dense_weights(g, q).len() as int) =~= dense_weights(g, q));
    }
}

/// Scanning the first `c` cells of grid row `r` appends their non-empty
/// columns in increasing order, each with its own weight.
proof fn lemma_dense_row<V>(g: Seq<Option<V>>, n: nat, r: int, c: int)
    requires
        n > 0,
        n <= usize::MAX,
        0 <= r < n,
        0 <= c <= n,
        g.len() == n * n,
    ensures
        ({
            let p0 = r * n;
            let t = dense_targets(g, n, p0 + c);
            let w = dense_weights(g, p0 + c);
            let base = dense_targets(g, n, p0).len() as int;
            &&& strictly_increasing(t.subrange(base, t.len() as int))
            &&& forall|k: int| base <= k < t.len() ==> #[trigger] t[k] < c
            &&& forall|x: usize|
                #[trigger] cell_span(t, w, base, t.len() as int, x) == (if x < c && g[p0 + x] is Some {
                    seq![g[p0 + x]->0]
                } else {
                    Seq::empty()
                })
        }),
    decreases c,
{
    let p0 = r * n;
    let base = dense_targets(g, n, p0).len() as int;
    if c == 0 {
        let t = dense_targets(g, n, p0);
        let w = dense_weights(g, p0);
        assert forall|x: usize| #[trigger] cell_span(t, w, base, t.len() as int, x) == Seq::<V>::empty() by {
        }
        assert(t.subrange(base, t.len() as int) =~= Seq::<usize>::empty());
    } else {
        lemma_dense_row(g, n, r, c - 1);
        lemma_dense_prefix(g, n, p0, p0 + c - 1);
        let p = p0 + c - 1;
        let t0 = dense_targets(g, n, p);
        let w0 = dense_weights(g, p);
        let t = dense_targets(g, n, p + 1);
        let w = dense_weights(g, p + 1);
        vstd::arithmetic::div_mod::lemma_fundamental_div_mod_converse(p, n as int, r, c - 1);
        assert(r * n + c - 1 < n * n) by (nonlinear_arith)
            requires
                r < n,
                c <= n,
        ;
        if g[p] is Some {
            assert(t == t0.push((c - 1) as usize));
            assert(w == w0.push(g[p]->0));
            let ns = t.subrange(base, t.len() as int);
            let ps = t0.subrange(base, t0.len() as int);
            assert(forall|k: int| base <= k < t0.len() ==> #[trigger] t0[k] < c - 1);
            assert(strictly_increasing(ps));
            assert forall|i: int, j: int| 0 <= i < j < ns.len() implies #[trigger] ns[i] < #[trigger] ns[j] by {
                if j < ns.len() - 1 {
                    assert(ns[i] == ps[i] && ns[j] == ps[j]);
                } else {
                    assert(ns[i] == t0[base + i]);
                    assert(t0[base + i] < c - 1);
                    assert(ns[j] == c - 1);
                }
            }
            assert forall|x: usize|
                #[trigger] cell_span(t, w, base, t.len() as int, x) == (if x < c && g[p0 + x] is Some {
                    seq![g[p0 + x]->0]
                } else {
                    Seq::empty()
                }) by {
                lemma_cell_span_agree(t, w, t0, w0, base, t0.len() as int, x);
                assert(t.len() == t0.len() + 1);
                assert(t[t0.len() as int] == c - 1);
                assert(w[t0.len() as int] == g[p]->0);
                assert(cell_span(t, w, base, t.len() as int, x) == (if t[t0.len() as int] == x {
                    cell_span(t, w, base, t0.len() as int, x).push(w[t0.len() as int])
                } else {
                    cell_span(t, w, base, t0.len() as int, x)
                }));
                assert(cell_span(t0, w0, base, t0.len() as int, x) == (if x < c - 1 && g[p0 + x] is Some {
                    seq![g[p0 + x]->0]
                } else {
                    Seq::empty()
                }));
                if x == c - 1 {
                    assert(Seq::<V>::empty().push(g[p]->0) =~= seq![g[p]->0]);
                }
            }
        } else {
            assert(t == t0);
            assert(w == w0);
        }
    }
}

/// The dense scan of a grid is a well-formed matrix.
proof fn lemma_dense_view_wf<V>(g: Seq<Option<V>>, n: nat)
    requires
        g.len() == n * n,
        n * n <= usize::MAX,
    ensures
        dense_view(g, n).wf(),
{
    let d = dense_view(g, n);
    let nn = (n * n) as int;
    assert forall|i: int| 0 <= i <= n implies #[trigger] d.row_ptrs[i] == dense_targets(g, n, i * n).len() by {
        assert(i * n <= n * n) by (nonlinear_arith)
            requires
                i <= n,
        ;
        lemma_dense_prefix(g, n, i * n, nn);
    }
    assert(0 * n == 0);
    assert forall|i: int, j: int| 0 <= i <= j <= n implies #[trigger] d.row_ptrs[i] <= #[trigger] d.row_ptrs[j] by {
        assert(i * n <= j * n) by (nonlinear_arith)
            requires
                i <= j,
                n >= 0,
        ;
        lemma_dense_prefix(g, n, i * n, j * n);
    }
    lemma_dense_prefix(g, n, nn, nn);
    assert forall|k: int| 0 <= k < d.col_indices.len() implies #[trigger] d.col_indices[k] < n by {
        if n == 0 {
            assert(nn == 0);
        } else {
            lemma_dense_targets_below(g, n, nn, k);
        }
    }
}

proof fn lemma_dense_targets_below<V>(g: Seq<Option<V>>, n: nat, p: int, k: int)
    requires
        n > 0,
        0 <= k < dense_targets(g, n, p).len(),
    ensures
        dense_targets(g, n, p)[k] < n,
    decreases p,
{
    if p > 0 {
        let prev = dense_targets(g, n, p - 1);
        if k < prev.len() {
            lemma_dense_targets_below(g, n, p - 1, k);
        } else {
            assert((p - 1) % (n as int) < n);
        }
    }
}

/// The two ingestion paths agree: the dense grid that an adjacency list
/// describes scans to the canonical form of that list, so
/// [`CsrMatrix::build_from_dense`] on the grid and
/// [`CsrMatrix::build_from_adj_list`] on the list build the same matrix
/// (see [`canonical_form_unique`]). This needs every target to be a node and
/// no row to list a target twice (the grid keeps one weight per cell); such a
/// list meets the merging precondition of `build_from_adj_list` whatever the
/// weight type.
pub proof fn dense_grid_matches_adjacency_list<V: Add<Output = V>>(adj: Seq<Vec<(usize, V)>>)
    requires
        targets_in_bounds(adj, adj.len()),
        targets_distinct(adj),
        total_edges(adj) <= usize::MAX,
        adj.len() * adj.len() <= usize::MAX,
    ensures
        canonical_of(dense_view(adjacency_grid(adj), adj.len()), adjacency_view(adj)),
        adjacency_view(adj).no_repeated_columns(),
        adjacency_view(adj).merge_defined(),
{
    let n = adj.len();
    let g = adjacency_grid(adj);
    let d = dense_view(g, n);
    let a = adjacency_view(adj);
    let nn = (n * n) as int;
    lemma_dense_view_wf(g, n);
    assert forall|r: int| 0 <= r < n implies #[trigger] span_canonical(
        d.col_indices,
        d.values,
        d.row_start(r),
        d.row_end(r),
        a.col_indices,
        a.values,
        a.row_start(r),
        a.row_end(r),
    ) by {
        let p0 = r * n;
        assert(n <= nn) by (nonlinear_arith)
            requires
                n > 0,
                nn == n * n,
        ;
        assert((r + 1) * n == p0 + n && p0 + n <= nn) by (nonlinear_arith)
            requires
                r < n,
                p0 == r * n,
                nn == n * n,
        ;
        lemma_dense_row(g, n, r, n as int);
        lemma_dense_prefix(g, n, p0 + n, nn);
        lemma_dense_prefix(g, n, p0, p0 + n);
        let t = dense_targets(g, n, p0 + n);
        let w = dense_weights(g, p0 + n);
        let lo = d.row_start(r);
        let hi = d.row_end(r);
        assert(d.row_ptrs[r] == dense_targets(g, n, p0).len());
        assert(d.row_ptrs[r + 1] == t.len());
        assert(d.col_indices.subrange(lo, hi) =~= t.subrange(lo, hi)) by {
            assert forall|i: int| 0 <= i < hi - lo implies d.col_indices.subrange(lo, hi)[i] == t.subrange(lo, hi)[i] by {
                assert(d.col_indices.subrange(0, t.len() as int)[lo + i] == d.col_indices[lo + i]);
            }
        }
        assert forall|x: usize| #[trigger] cell_span(d.col_indices, d.values, lo, hi, x) == cell_span(t, w, lo, hi, x) by {
            assert forall|q: int| lo <= q < hi implies d.col_indices[q] == t[q] && d.values[q] == w[q] by {
                assert(d.col_indices.subrange(0, t.len() as int)[q] == d.col_indices[q]);
                assert(d.values.subrange(0, w.len() as int)[q] == d.values[q]);
            }
            lemma_cell_span_agree(d.col_indices, d.values, t, w, lo, hi, x);
        }
        assert forall|x: usize| #[trigger] cell_span(d.col_indices, d.values, lo, hi, x) == a.cell(r, x) by {
            lemma_adjacency_cell(adj, r, x);
            if x < n {
                let p = p0 + x;
                vstd::arithmetic::div_mod::lemma_fundamental_div_mod_converse(p, n as int, r, x as int);
                assert(p < nn) by (nonlinear_arith)
                    requires
                        p == r * n + x,
                        x < n,
                        r < n,
                        nn == n * n,
                ;
                if has_edge(adj, r, x as int) {
                    let j = choose|j: int| 0 <= j < adj[r]@.len() && (#[trigger] adj[r]@[j]).0 == x;
                    assert(g[p] == Some(adj[r]@[j].1));
                } else {
                    assert(g[p] is None);
                }
            } else {
                if has_edge(adj, r, x as int) {
                    let j = choose|j: int| 0 <= j < adj[r]@.len() && (#[trigger] adj[r]@[j]).0 == x;
                    assert((adj[r]@[j]).0 < n);
                }
            }
        }
        assert forall|x: usize| #[trigger] a.cell(r, x).len() <= 1 by {
            lemma_adjacency_cell(adj, r, x);
            if has_edge(adj, r, x as int) {
                let j = choose|j: int| 0 <= j < adj[r]@.len() && (#[trigger] adj[r]@[j]).0 == x;
            }
        }
        assert forall|x: usize| a.cell(r, x).len() > 0 implies #[trigger] a.cell(r, x) == seq![merged(a.cell(r, x))] by {
            assert(a.cell(r, x).len() <= 1);
            assert(a.cell(r, x) =~= seq![a.cell(r, x)[0]]);
        }
        assert(t.subrange(lo, hi) =~= t.subrange(lo, t.len() as int));
    }
    distinct_targets_merge_defined(adj);
}

/// A well-formed matrix whose rows are sorted repeats no column in a row.
pub proof fn sorted_rows_repeat_no_column<V>(m: CsrView<V>)
    requires
        m.wf(),
        m.rows_sorted(),
    ensures
        m.no_repeated_columns(),
{
    assert forall|r: int, c: usize| 0 <= r < m.num_nodes implies (#[trigger] m.cell(r, c)).len() <= 1 by {
        assert(m.row_ptrs[r] <= m.row_ptrs[r + 1]);
        assert(m.row_ptrs[r + 1] <= m.row_ptrs[m.num_nodes as int]);
        assert(strictly_increasing(m.row_cols(r)));
        lemma_cell_span_empty(m.col_indices, m.values, m.row_start(r), m.row_end(r), c);
        if m.cell(r, c).len() > 0 {
            let p = choose|p: int| m.row_start(r) <= p < m.row_end(r) && #[trigger] m.col_indices[p] == c;
            lemma_cell_span_sorted(m.col_indices, m.values, m.row_start(r), m.row_end(r), p);
        }
    }
}

/// An adjacency list that names no target twice in a row gives a matrix
/// that repeats no column, so building from it never adds weights and is
/// allowed for any weight type.
pub proof fn distinct_targets_merge_defined<V: Add<Output = V>>(adj: Seq<Vec<(usize, V)>>)
    requires
        targets_distinct(adj),
        total_edges(adj) <= usize::MAX,
    ensures
        adjacency_view(adj).no_repeated_columns(),
        adjacency_view(adj).merge_defined(),
{
    let a = adjacency_view(adj);
    assert forall|r: int, c: usize| 0 <= r < a.num_nodes implies (#[trigger] a.cell(r, c)).len() <= 1 by {
        lemma_adjacency_cell(adj, r, c);
        if has_edge(adj, r, c as int) {
            let j = choose|j: int| 0 <= j < adj[r]@.len() && (#[trigger] adj[r]@[j]).0 == c;
        }
    }
    no_repeats_merge_defined(a);
}

/// Where no row repeats a column nothing is ever added, so merging is
/// defined for any weight type, floating-point weights included.
pub proof fn no_repeats_merge_defined<V: Add<Output = V>>(m: CsrView<V>)
    requires
        m.no_repeated_columns(),
    ensures
        m.merge_defined(),
{
    assert forall|r: int| 0 <= r < m.num_nodes implies #[trigger] span_merge_defined(
        m.col_indices,
        m.values,
        m.row_start(r),
        m.row_end(r),
    ) by {
        assert forall|c: usize| #[trigger] cell_merge_defined(
            cell_span(m.col_indices, m.values, m.row_start(r), m.row_end(r), c),
        ) by {
            assert(m.cell(r, c).len() <= 1);
        }
    }
}

/// Reading a matrix's arrays back and building from them restores it: the
/// parts of a well-formed matrix with sorted rows pass every check of
/// [`CsrMatrix::build_from_csr`](crate::csr::CsrMatrix::build_from_csr),
/// and such a matrix is its own canonical form, which that constructor then
/// returns unchanged.
pub proof fn csr_parts_round_trip<V: Add<Output = V>>(m: CsrView<V>)
    requires
        m.wf(),
        m.rows_sorted(),
    ensures
        parts_valid(m.row_ptrs, m.col_indices, m.values.len(), m.num_nodes),
        m == CsrView::from_parts(m.num_nodes, m.row_ptrs, m.col_indices, m.values),
        canonical_of(m, m),
{
    assert forall|i: int| 0 <= i < m.num_nodes implies #[trigger] step_ok(m.row_ptrs, i) by {
        assert(m.row_ptrs[i] <= m.row_ptrs[i + 1]);
    }
    lemma_sorted_is_canonical(m);
}

} // verus!
