//! The canonical form of CSR rows: columns strictly increasing, each
//! repeated column merged into one entry whose weight is the left-to-right
//! sum of the weights it replaces.
use core::ops::Add;
use vstd::prelude::*;
use vstd::std_specs::ops::AddSpec;
use crate::csr::CsrView;

verus! {

/// Every element of `s` is smaller than every element after it.
pub open spec fn strictly_increasing(s: Seq<usize>) -> bool {
    forall|i: int, j: int| 0 <= i < j < s.len() ==> #[trigger] s[i] < #[trigger] s[j]
}

/// The weights stored at positions `lo .. hi` whose column is `c`, in
/// storage order.
pub open spec fn cell_span<V>(cols: Seq<usize>, vals: Seq<V>, lo: int, hi: int, c: usize) -> Seq<V>
    decreases hi - lo,
{
    if hi <= lo {
        Seq::empty()
    } else {
        let prev = cell_span(cols, vals, lo, hi - 1, c);
        if cols[hi - 1] == c {
            prev.push(vals[hi - 1])
        } else {
            prev
        }
    }
}

/// The sum of a non-empty sequence of weights, added from left to right.
pub open spec fn merged<V: Add<Output = V>>(s: Seq<V>) -> V
    decreases s.len(),
{
    if s.len() <= 1 {
        s[0]
    } else {
        merged(s.drop_last()).add_spec(s.last())
    }
}

/// Adding two weights is always allowed (as it is for floating-point
/// weights).
pub open spec fn addition_total<V: Add<Output = V>>() -> bool {
    forall|a: V, b: V| #[trigger] a.add_req(b)
}

/// Adding up `s` from left to right only performs allowed additions.
pub open spec fn sums_defined<V: Add<Output = V>>(s: Seq<V>) -> bool {
    forall|i: int| 1 <= i < s.len() ==> #[trigger] merged(s.take(i)).add_req(s[i])
}

/// Merging the weights `s` of one cell only performs allowed additions:
/// either the cell holds at most one weight, so nothing is added, or adding
/// has its ordinary meaning and the left-to-right sum stays defined.
pub open spec fn cell_merge_defined<V: Add<Output = V>>(s: Seq<V>) -> bool {
    s.len() <= 1 || (V::obeys_add_spec() && sums_defined(s))
}

/// Every addition that merging the repeated columns of the span
/// `lo .. hi` performs is allowed: either additions never fail, or every
/// cell of the span can be merged (see [`cell_merge_defined`]).
pub open spec fn span_merge_defined<V: Add<Output = V>>(cols: Seq<usize>, vals: Seq<V>, lo: int, hi: int) -> bool {
    addition_total::<V>() || forall|c: usize|
        #[trigger] cell_merge_defined(cell_span(cols, vals, lo, hi, c))
}

/// Positions `nlo .. nhi` of `(ncols, nvals)` are the canonical form of
/// positions `olo .. ohi` of `(ocols, ovals)`: the new columns strictly
/// increase; a column is present in the new span exactly when it is present
/// in the old one; a column stored once keeps its weight; and, where adding
/// weights has its ordinary meaning, every column carries the left-to-right
/// sum of the weights that the old span stores for it.
pub open spec fn span_canonical<V: Add<Output = V>>(
    ncols: Seq<usize>,
    nvals: Seq<V>,
    nlo: int,
    nhi: int,
    ocols: Seq<usize>,
    ovals: Seq<V>,
    olo: int,
    ohi: int,
) -> bool {
    &&& strictly_increasing(ncols.subrange(nlo, nhi))
    &&& forall|c: usize|
        #![trigger cell_span(ncols, nvals, nlo, nhi, c)]
        #![trigger cell_span(ocols, ovals, olo, ohi, c)]
        (cell_span(ncols, nvals, nlo, nhi, c).len() > 0 <==> cell_span(ocols, ovals, olo, ohi, c).len() > 0)
    &&& forall|c: usize|
        #![trigger cell_span(ncols, nvals, nlo, nhi, c)]
        #![trigger cell_span(ocols, ovals, olo, ohi, c)]
        cell_span(ocols, ovals, olo, ohi, c).len() == 1 ==> cell_span(ncols, nvals, nlo, nhi, c)
            == cell_span(ocols, ovals, olo, ohi, c)
    &&& V::obeys_add_spec() ==> forall|c: usize|
        #![trigger cell_span(ncols, nvals, nlo, nhi, c)]
        #![trigger cell_span(ocols, ovals, olo, ohi, c)]
        cell_span(ocols, ovals, olo, ohi, c).len() > 0 ==> cell_span(ncols, nvals, nlo, nhi, c)
            == seq![merged(cell_span(ocols, ovals, olo, ohi, c))]
}

/// `n` is the canonical form of `o`: a well-formed matrix over the same
/// nodes whose every row is the canonical form of the same row of `o` (see
/// [`span_canonical`]). Canonical forms are what the constructors return.
pub open spec fn canonical_of<V: Add<Output = V>>(n: CsrView<V>, o: CsrView<V>) -> bool {
    &&& n.wf()
    &&& n.num_nodes == o.num_nodes
    &&& forall|r: int|
        0 <= r < o.num_nodes ==> #[trigger] span_canonical(
            n.col_indices,
            n.values,
            n.row_start(r),
            n.row_end(r),
            o.col_indices,
            o.values,
            o.row_start(r),
            o.row_end(r),
        )
}

/// A cell is empty exactly when no position of the span has its column.
pub(crate) proof fn lemma_cell_span_empty<V>(cols: Seq<usize>, vals: Seq<V>, lo: int, hi: int, c: usize)
    requires
        0 <= lo <= hi,
    ensures
        (cell_span(cols, vals, lo, hi, c).len() == 0) <==> (forall|p: int|
            lo <= p < hi ==> #[trigger] cols[p] != c),
    decreases hi - lo,
{
    if lo < hi {
        lemma_cell_span_empty(cols, vals, lo, hi - 1, c);
        if (forall|p: int| lo <= p < hi ==> #[trigger] cols[p] != c) {
            assert(cols[hi - 1] != c);
        }
    }
}

/// In a strictly increasing span the cell of a present column is the single
/// weight stored at its position.
pub(crate) proof fn lemma_cell_span_sorted<V>(cols: Seq<usize>, vals: Seq<V>, lo: int, hi: int, p: int)
    requires
        0 <= lo <= p < hi <= cols.len(),
        strictly_increasing(cols.subrange(lo, hi)),
    ensures
        cell_span(cols, vals, lo, hi, cols[p]) == seq![vals[p]],
    decreases hi - lo,
{
    let c = cols[p];
    if p == hi - 1 {
        assert forall|q: int| lo <= q < hi - 1 implies #[trigger] cols[q] != c by {
            assert(cols.subrange(lo, hi)[q - lo] < cols.subrange(lo, hi)[p - lo]);
        }
        lemma_cell_span_empty(cols, vals, lo, hi - 1, c);
        assert(cell_span(cols, vals, lo, hi - 1, c) =~= Seq::<V>::empty());
        assert(Seq::<V>::empty().push(vals[p]) =~= seq![vals[p]]);
    } else {
        assert(cols.subrange(lo, hi)[p - lo] < cols.subrange(lo, hi)[hi - 1 - lo]);
        assert(cols.subrange(lo, hi - 1) =~= cols.subrange(lo, hi).subrange(0, hi - 1 - lo));
        lemma_cell_span_sorted(cols, vals, lo, hi - 1, p);
    }
}

/// A cell only depends on the positions of its span.
pub(crate) proof fn lemma_cell_span_agree<V>(
    a: Seq<usize>,
    va: Seq<V>,
    b: Seq<usize>,
    vb: Seq<V>,
    lo: int,
    hi: int,
    c: usize,
)
    requires
        forall|p: int| lo <= p < hi ==> a[p] == b[p] && va[p] == vb[p],
    ensures
        cell_span(a, va, lo, hi, c) == cell_span(b, vb, lo, hi, c),
    decreases hi - lo,
{
    if lo < hi {
        lemma_cell_span_agree(a, va, b, vb, lo, hi - 1, c);
    }
}

/// Appending to the storage arrays leaves the canonical form of an earlier
/// span as it was.
proof fn lemma_span_canonical_extend<V: Add<Output = V>>(
    nc: Seq<usize>,
    nv: Seq<V>,
    nc2: Seq<usize>,
    nv2: Seq<V>,
    nlo: int,
    nhi: int,
    oc: Seq<usize>,
    ov: Seq<V>,
    olo: int,
    ohi: int,
)
    requires
        0 <= nlo <= nhi <= nc.len(),
        nc.len() == nv.len(),
        nc.len() <= nc2.len(),
        nc2.len() == nv2.len(),
        nc2.subrange(0, nc.len() as int) == nc,
        nv2.subrange(0, nv.len() as int) == nv,
        span_canonical(nc, nv, nlo, nhi, oc, ov, olo, ohi),
    ensures
        span_canonical(nc2, nv2, nlo, nhi, oc, ov, olo, ohi),
{
    assert forall|p: int| nlo <= p < nhi implies nc[p] == nc2[p] && nv[p] == nv2[p] by {
        assert(nc2.subrange(0, nc.len() as int)[p] == nc2[p]);
        assert(nv2.subrange(0, nv.len() as int)[p] == nv2[p]);
    }
    assert(nc2.subrange(nlo, nhi) =~= nc.subrange(nlo, nhi));
    assert forall|c: usize| #[trigger] cell_span(nc2, nv2, nlo, nhi, c) == cell_span(nc, nv, nlo, nhi, c) by {
        lemma_cell_span_agree(nc2, nv2, nc, nv, nlo, nhi, c);
    }
}

/// Strict increase between neighbours gives strict increase throughout.
proof fn lemma_adjacent_strict(s: Seq<usize>)
    requires
        forall|k: int| 0 <= k < s.len() - 1 ==> #[trigger] s[k] < s[k + 1],
    ensures
        strictly_increasing(s),
{
    assert forall|i: int, j: int| 0 <= i < j < s.len() implies #[trigger] s[i] < #[trigger] s[j] by {
        lemma_adjacent_strict_range(s, i, j);
    }
}

proof fn lemma_adjacent_strict_range(s: Seq<usize>, i: int, j: int)
    requires
        forall|k: int| 0 <= k < s.len() - 1 ==> #[trigger] s[k] < s[k + 1],
        0 <= i < j < s.len(),
    ensures
        s[i] < s[j],
    decreases j - i,
{
    if i + 1 < j {
        lemma_adjacent_strict_range(s, i, j - 1);
        assert(s[j - 1] < s[j]);
    }
}

/// A matrix whose rows are already sorted is its own canonical form.
pub(crate) proof fn lemma_sorted_is_canonical<V: Add<Output = V>>(o: CsrView<V>)
    requires
        o.wf(),
        o.rows_sorted(),
    ensures
        canonical_of(o, o),
{
    assert forall|r: int| 0 <= r < o.num_nodes implies #[trigger] span_canonical(
        o.col_indices,
        o.values,
        o.row_start(r),
        o.row_end(r),
        o.col_indices,
        o.values,
        o.row_start(r),
        o.row_end(r),
    ) by {
        let lo = o.row_start(r);
        let hi = o.row_end(r);
        assert(o.row_ptrs[r] <= o.row_ptrs[r + 1]);
        assert(o.row_ptrs[r + 1] <= o.row_ptrs[o.num_nodes as int]);
        assert(strictly_increasing(o.row_cols(r)));
        assert forall|c: usize| #[trigger] cell_span(o.col_indices, o.values, lo, hi, c).len() > 0
            implies cell_span(o.col_indices, o.values, lo, hi, c) == seq![
            merged(cell_span(o.col_indices, o.values, lo, hi, c))] by {
            lemma_cell_span_empty(o.col_indices, o.values, lo, hi, c);
            let p = choose|p: int| lo <= p < hi && #[trigger] o.col_indices[p] == c;
            lemma_cell_span_sorted(o.col_indices, o.values, lo, hi, p);
        }
    }
}

/// Orders pairs of integers first by their first component, then by their
/// second: the order that std gives tuples.
pub open spec fn pair_le(x: (usize, usize), y: (usize, usize)) -> bool {
    x.0 < y.0 || (x.0 == y.0 && x.1 <= y.1)
}

/// Calls `sort_unstable` on a vector of integer pairs. Its documentation
/// promises that the slice comes out sorted in ascending order (tuples
/// compare lexicographically) and that sorting only reorders the elements;
/// integers are totally ordered, so it does not panic.
#[verifier::external_body]
fn sort_pairs(v: &mut Vec<(usize, usize)>)
    ensures
        final(v)@.to_multiset() == old(v)@.to_multiset(),
        forall|i: int, j: int|
            0 <= i < j < final(v)@.len() ==> pair_le(#[trigger] final(v)@[i], #[trigger] final(v)@[j]),
{
    v.sort_unstable();
}

/// `keys` lists each position `p` of the span `lo .. hi` once, as the pair
/// `(cols[p], p)`, in ascending order of column and then position.
spec fn sorted_keys(keys: Seq<(usize, usize)>, cols: Seq<usize>, lo: int, hi: int) -> bool {
    &&& 0 <= lo <= hi <= cols.len()
    &&& keys.len() == hi - lo
    &&& keys.no_duplicates()
    &&& forall|i: int, j: int| 0 <= i < j < keys.len() ==> pair_le(#[trigger] keys[i], #[trigger] keys[j])
    &&& forall|t: int|
        0 <= t < keys.len() ==> lo <= (#[trigger] keys[t]).1 < hi && keys[t].0 == cols[keys[t].1 as int]
    &&& forall|q: int| lo <= q < hi ==> keys.contains((#[trigger] cols[q], q as usize))
}

/// Sorting the pairs `(cols[p], p)` of a span gives [`sorted_keys`].
proof fn lemma_sorted_keys(orig: Seq<(usize, usize)>, keys: Seq<(usize, usize)>, cols: Seq<usize>, lo: int, hi: int)
    requires
        0 <= lo <= hi <= cols.len(),
        hi <= usize::MAX,
        orig.len() == hi - lo,
        forall|k: int| 0 <= k < orig.len() ==> #[trigger] orig[k] == (cols[lo + k], (lo + k) as usize),
        keys.to_multiset() == orig.to_multiset(),
        forall|i: int, j: int| 0 <= i < j < keys.len() ==> pair_le(#[trigger] keys[i], #[trigger] keys[j]),
    ensures
        sorted_keys(keys, cols, lo, hi),
{
    broadcast use vstd::seq_lib::group_to_multiset_ensures;

    assert forall|i: int, j: int| 0 <= i < orig.len() && 0 <= j < orig.len() && i != j implies orig[i]
        != orig[j] by {
        assert(orig[i].1 != orig[j].1);
    }
    orig.lemma_multiset_has_no_duplicates();
    keys.lemma_multiset_has_no_duplicates_conv();
    assert(keys.len() == orig.len()) by {
        assert(keys.len() == keys.to_multiset().len());
        assert(orig.len() == orig.to_multiset().len());
    }
    assert forall|t: int| 0 <= t < keys.len() implies lo <= (#[trigger] keys[t]).1 < hi && keys[t].0
        == cols[keys[t].1 as int] by {
        assert(keys.contains(keys[t]));
        assert(orig.to_multiset().count(keys[t]) > 0);
        assert(orig.contains(keys[t]));
        let k = choose|k: int| 0 <= k < orig.len() && orig[k] == keys[t];
        assert(orig[k] == (cols[lo + k], (lo + k) as usize));
    }
    assert forall|q: int| lo <= q < hi implies keys.contains((#[trigger] cols[q], q as usize)) by {
        let k = q - lo;
        assert(orig[k] == (cols[q], q as usize));
        assert(orig.contains(orig[k]));
        assert(keys.to_multiset().count(orig[k]) > 0);
    }
}

/// The cell of column `c` in the span `lo .. hi` is the sequence of weights
/// stored at `ps`, when `ps` lists, in increasing order, exactly the
/// positions of that span that hold column `c`.
proof fn lemma_cell_span_positions<V>(cols: Seq<usize>, vals: Seq<V>, lo: int, hi: int, c: usize, ps: Seq<int>)
    requires
        lo <= hi,
        forall|i: int, j: int| 0 <= i < j < ps.len() ==> #[trigger] ps[i] < #[trigger] ps[j],
        forall|i: int| 0 <= i < ps.len() ==> lo <= #[trigger] ps[i] < hi && cols[ps[i]] == c,
        forall|p: int| lo <= p < hi && #[trigger] cols[p] == c ==> ps.contains(p),
    ensures
        cell_span(cols, vals, lo, hi, c).len() == ps.len(),
        forall|i: int| 0 <= i < ps.len() ==> cell_span(cols, vals, lo, hi, c)[i] == vals[#[trigger] ps[i]],
    decreases hi - lo,
{
    if hi == lo {
        if ps.len() > 0 {
            assert(lo <= ps[0] < hi);
        }
    } else if cols[hi - 1] == c {
        assert(ps.contains(hi - 1));
        let t = choose|t: int| 0 <= t < ps.len() && ps[t] == hi - 1;
        if t < ps.len() - 1 {
            assert(ps[t] < ps[t + 1]);
            assert(ps[t + 1] < hi);
        }
        let ps2 = ps.drop_last();
        assert forall|p: int| lo <= p < hi - 1 && #[trigger] cols[p] == c implies ps2.contains(p) by {
            assert(ps.contains(p));
            let u = choose|u: int| 0 <= u < ps.len() && ps[u] == p;
            assert(u != t);
            assert(ps2[u] == p);
        }
        assert forall|i: int| 0 <= i < ps2.len() implies lo <= #[trigger] ps2[i] < hi - 1 && cols[ps2[i]] == c by {
            assert(ps2[i] == ps[i]);
            assert(ps[i] < ps[t]);
        }
        assert forall|i: int, j: int| 0 <= i < j < ps2.len() implies #[trigger] ps2[i] < #[trigger] ps2[j] by {
            assert(ps2[i] == ps[i] && ps2[j] == ps[j]);
        }
        lemma_cell_span_positions(cols, vals, lo, hi - 1, c, ps2);
        assert forall|i: int| 0 <= i < ps.len() implies cell_span(cols, vals, lo, hi, c)[i] == vals[
            #[trigger] ps[i]] by {
            if i < ps.len() - 1 {
                assert(ps2[i] == ps[i]);
            }
        }
    } else {
        assert forall|i: int| 0 <= i < ps.len() implies lo <= #[trigger] ps[i] < hi - 1 && cols[ps[i]] == c by {
            if ps[i] == hi - 1 {
                assert(cols[ps[i]] == c);
            }
        }
        lemma_cell_span_positions(cols, vals, lo, hi - 1, c, ps);
    }
}

/// Merges the group of equal columns that starts at `keys[a]`: returns the
/// end of the group and the weights of that column, added from left to right
/// in storage order.
fn merge_group<V: Copy + Add<Output = V>>(
    cols: &Vec<usize>,
    vals: &Vec<V>,
    keys: &Vec<(usize, usize)>,
    lo: usize,
    hi: usize,
    a: usize,
) -> (res: (usize, V))
    requires
        cols@.len() == vals@.len(),
        sorted_keys(keys@, cols@, lo as int, hi as int),
        a < keys@.len(),
        a > 0 ==> keys@[a - 1].0 < keys@[a as int].0,
        span_merge_defined(cols@, vals@, lo as int, hi as int),
    ensures
        a < res.0 <= keys@.len(),
        forall|t: int| a <= t < res.0 ==> (#[trigger] keys@[t]).0 == keys@[a as int].0,
        res.0 < keys@.len() ==> keys@[a as int].0 < keys@[res.0 as int].0,
        cell_span(cols@, vals@, lo as int, hi as int, keys@[a as int].0).len() == res.0 - a,
        cell_span(cols@, vals@, lo as int, hi as int, keys@[a as int].0).len() == 1 ==> res.1 == cell_span(
            cols@,
            vals@,
            lo as int,
            hi as int,
            keys@[a as int].0,
        )[0],
        V::obeys_add_spec() ==> res.1 == merged(
            cell_span(cols@, vals@, lo as int, hi as int, keys@[a as int].0),
        ),
{
    let len = keys.len();
    let c = keys[a].0;
    let mut b = a + 1;
    while b < len && keys[b].0 == c
        invariant
            a < b <= len,
            len == keys@.len(),
            c == keys@[a as int].0,
            forall|t: int| a <= t < b ==> (#[trigger] keys@[t]).0 == c,
        decreases len - b,
    {
        b = b + 1;
    }
    let ghost k = keys@;
    let ghost ps = Seq::new((b - a) as nat, |i: int| k[a + i].1 as int);
    let ghost cell = cell_span(cols@, vals@, lo as int, hi as int, c);
    proof {
        if b < len {
            assert(pair_le(k[a as int], k[b as int]));
        }
        assert forall|i: int, j: int| 0 <= i < j < ps.len() implies #[trigger] ps[i] < #[trigger] ps[j] by {
            assert(pair_le(k[a + i], k[a + j]));
            assert(k[a + i] != k[a + j]);
            assert(k[a + i].0 == c && k[a + j].0 == c);
        }
        assert forall|i: int| 0 <= i < ps.len() implies lo <= #[trigger] ps[i] < hi && cols@[ps[i]] == c by {
            assert(k[a + i].0 == c);
        }
        assert forall|p: int| lo <= p < hi && #[trigger] cols@[p] == c implies ps.contains(p) by {
            assert(k.contains((cols@[p], p as usize)));
            let t = choose|t: int| 0 <= t < k.len() && k[t] == (cols@[p], p as usize);
            if t < a {
                assert(k[a - 1].0 < c);
                if t < a - 1 {
                    assert(pair_le(k[t], k[a - 1]));
                }
            }
            if t >= b {
                assert(k[b as int].0 > c);
                if t > b {
                    assert(pair_le(k[b as int], k[t]));
                }
            }
            assert(ps[t - a] == p);
        }
        lemma_cell_span_positions(cols@, vals@, lo as int, hi as int, c, ps);
        assert forall|i: int| 0 <= i < b - a implies cell[i] == vals@[k[a + i].1 as int] by {
            assert(ps[i] == k[a + i].1);
        }
        if !addition_total::<V>() {
            assert(cell_merge_defined(cell));
        }
        assert(cell.take(1)[0] == cell[0]);
    }
    let mut x = vals[keys[a].1];
    let mut j = a + 1;
    while j < b
        invariant
            a < j <= b <= len,
            len == keys@.len(),
            k == keys@,
            cols@.len() == vals@.len(),
            sorted_keys(k, cols@, lo as int, hi as int),
            cell == cell_span(cols@, vals@, lo as int, hi as int, c),
            cell.len() == b - a,
            forall|i: int| 0 <= i < b - a ==> cell[i] == vals@[k[a + i].1 as int],
            addition_total::<V>() || cell_merge_defined(cell),
            j - a == 1 ==> x == cell[0],
            V::obeys_add_spec() ==> x == merged(cell.take(j - a)),
        decreases b - j,
    {
        let v = vals[keys[j].1];
        proof {
            assert(v == cell[j - a]);
            if !addition_total::<V>() {
                assert(cell.len() > 1);
                assert(merged(cell.take(j - a)).add_req(cell[j - a]));
            }
        }
        x = x + v;
        proof {
            assert(cell.take(j - a + 1).drop_last() =~= cell.take(j - a));
            assert(cell.take(j - a + 1).last() == cell[j - a]);
        }
        j = j + 1;
    }
    proof {
        assert(cell.take(b - a) =~= cell);
        assert(cell.take(1)[0] == cell[0]);
    }
    (b, x)
}

/// Column `c` occurs in `s` at or after position `base`.
spec fn occurs_from(s: Seq<usize>, base: int, c: usize) -> bool {
    exists|p: int| base <= p < s.len() && s[p] == c
}

/// Once every column of the old span has been emitted, in increasing order
/// and with its merged weight, the emitted span is the canonical form.
proof fn lemma_finish_row<V: Add<Output = V>>(
    nc: Seq<usize>,
    nv: Seq<V>,
    base: int,
    oc: Seq<usize>,
    ov: Seq<V>,
    lo: int,
    hi: int,
)
    requires
        0 <= base <= nc.len(),
        nc.len() == nv.len(),
        0 <= lo <= hi <= oc.len(),
        strictly_increasing(nc.subrange(base, nc.len() as int)),
        forall|p: int| base <= p < nc.len() ==> cell_span(oc, ov, lo, hi, #[trigger] nc[p]).len() > 0,
        forall|p: int|
            base <= p < nc.len() && cell_span(oc, ov, lo, hi, #[trigger] nc[p]).len() == 1 ==> nv[p]
                == cell_span(oc, ov, lo, hi, nc[p])[0],
        V::obeys_add_spec() ==> forall|p: int|
            base <= p < nc.len() ==> nv[p] == merged(cell_span(oc, ov, lo, hi, #[trigger] nc[p])),
        forall|q: int| lo <= q < hi ==> occurs_from(nc, base, #[trigger] oc[q]),
    ensures
        span_canonical(nc, nv, base, nc.len() as int, oc, ov, lo, hi),
{
    let len = nc.len() as int;
    assert forall|c: usize|
        #![trigger cell_span(nc, nv, base, len, c)]
        #![trigger cell_span(oc, ov, lo, hi, c)]
        cell_span(oc, ov, lo, hi, c).len() > 0 implies exists|p: int|
            base <= p < len && nc[p] == c && cell_span(nc, nv, base, len, c) == seq![nv[p]] by {
        lemma_cell_span_empty(oc, ov, lo, hi, c);
        let q = choose|q: int| lo <= q < hi && #[trigger] oc[q] == c;
        assert(occurs_from(nc, base, oc[q]));
        let p = choose|p: int| base <= p < nc.len() && nc[p] == oc[q];
        lemma_cell_span_sorted(nc, nv, base, len, p);
    }
    assert forall|c: usize|
        #![trigger cell_span(nc, nv, base, len, c)]
        #![trigger cell_span(oc, ov, lo, hi, c)]
        (cell_span(nc, nv, base, len, c).len() > 0 <==> cell_span(oc, ov, lo, hi, c).len() > 0) by {
        if cell_span(nc, nv, base, len, c).len() > 0 {
            lemma_cell_span_empty(nc, nv, base, len, c);
            let p = choose|p: int| base <= p < len && #[trigger] nc[p] == c;
            assert(cell_span(oc, ov, lo, hi, nc[p]).len() > 0);
        }
        if cell_span(oc, ov, lo, hi, c).len() > 0 {
            let p = choose|p: int|
                base <= p < len && nc[p] == c && cell_span(nc, nv, base, len, c) == seq![nv[p]];
        }
    }
    assert forall|c: usize|
        #![trigger cell_span(nc, nv, base, len, c)]
        #![trigger cell_span(oc, ov, lo, hi, c)]
        cell_span(oc, ov, lo, hi, c).len() == 1 implies cell_span(nc, nv, base, len, c) == cell_span(
            oc,
            ov,
            lo,
            hi,
            c,
        ) by {
        let p = choose|p: int|
            base <= p < len && nc[p] == c && cell_span(nc, nv, base, len, c) == seq![nv[p]];
        assert(cell_span(oc, ov, lo, hi, nc[p]).len() == 1);
        assert(cell_span(oc, ov, lo, hi, c) =~= seq![cell_span(oc, ov, lo, hi, c)[0]]);
    }
    if V::obeys_add_spec() {
        assert forall|c: usize|
            #![trigger cell_span(nc, nv, base, len, c)]
            #![trigger cell_span(oc, ov, lo, hi, c)]
            cell_span(oc, ov, lo, hi, c).len() > 0 implies cell_span(nc, nv, base, len, c) == seq![
                merged(cell_span(oc, ov, lo, hi, c))] by {
            let p = choose|p: int|
                base <= p < len && nc[p] == c && cell_span(nc, nv, base, len, c) == seq![nv[p]];
            assert(nv[p] == merged(cell_span(oc, ov, lo, hi, nc[p])));
        }
    }
}

/// Appends the canonical form of the span `lo .. hi` to `out_cols` and
/// `out_vals`: the positions of the span are sorted by column (and then by
/// position), and each run of equal columns becomes one entry.
fn canonical_row<V: Copy + Add<Output = V>>(
    cols: &Vec<usize>,
    vals: &Vec<V>,
    lo: usize,
    hi: usize,
    n: usize,
    out_cols: &mut Vec<usize>,
    out_vals: &mut Vec<V>,
)
    requires
        lo <= hi <= cols@.len(),
        cols@.len() == vals@.len(),
        forall|p: int| lo <= p < hi ==> #[trigger] cols@[p] < n,
        old(out_cols)@.len() == old(out_vals)@.len(),
        span_merge_defined(cols@, vals@, lo as int, hi as int),
    ensures
        final(out_cols)@.len() == final(out_vals)@.len(),
        old(out_cols)@.len() <= final(out_cols)@.len(),
        final(out_cols)@.subrange(0, old(out_cols)@.len() as int) == old(out_cols)@,
        final(out_vals)@.subrange(0, old(out_vals)@.len() as int) == old(out_vals)@,
        forall|p: int|
            old(out_cols)@.len() <= p < final(out_cols)@.len() ==> #[trigger] final(out_cols)@[p] < n,
        span_canonical(
            final(out_cols)@,
            final(out_vals)@,
            old(out_cols)@.len() as int,
            final(out_cols)@.len() as int,
            cols@,
            vals@,
            lo as int,
            hi as int,
        ),
{
    let ghost oc = out_cols@;
    let ghost ov = out_vals@;
    let base = out_cols.len();
    let mut keys: Vec<(usize, usize)> = Vec::new();
    let mut i = lo;
    while i < hi
        invariant
            lo <= i <= hi <= cols@.len(),
            keys@.len() == i - lo,
            forall|k: int| 0 <= k < keys@.len() ==> #[trigger] keys@[k] == (cols@[lo + k], (lo + k) as usize),
        decreases hi - i,
    {
        keys.push((cols[i], i));
        i = i + 1;
    }
    let ghost orig = keys@;
    sort_pairs(&mut keys);
    proof {
        lemma_sorted_keys(orig, keys@, cols@, lo as int, hi as int);
    }
    let len = keys.len();
    let mut a: usize = 0;
    while a < len
        invariant
            lo <= hi <= cols@.len(),
            cols@.len() == vals@.len(),
            forall|p: int| lo <= p < hi ==> #[trigger] cols@[p] < n,
            span_merge_defined(cols@, vals@, lo as int, hi as int),
            sorted_keys(keys@, cols@, lo as int, hi as int),
            len == keys@.len(),
            a <= len,
            base == oc.len(),
            oc.len() == ov.len(),
            out_cols@.len() == out_vals@.len(),
            base <= out_cols@.len(),
            out_cols@.subrange(0, base as int) == oc,
            out_vals@.subrange(0, base as int) == ov,
            strictly_increasing(out_cols@.subrange(base as int, out_cols@.len() as int)),
            forall|p: int| base <= p < out_cols@.len() ==> #[trigger] out_cols@[p] < n,
            forall|p: int|
                base <= p < out_cols@.len() ==> cell_span(
                    cols@,
                    vals@,
                    lo as int,
                    hi as int,
                    #[trigger] out_cols@[p],
                ).len() > 0,
            forall|p: int|
                base <= p < out_cols@.len() && cell_span(
                    cols@,
                    vals@,
                    lo as int,
                    hi as int,
                    #[trigger] out_cols@[p],
                ).len() == 1 ==> out_vals@[p] == cell_span(
                    cols@,
                    vals@,
                    lo as int,
                    hi as int,
                    out_cols@[p],
                )[0],
            V::obeys_add_spec() ==> forall|p: int|
                base <= p < out_cols@.len() ==> out_vals@[p] == merged(
                    cell_span(cols@, vals@, lo as int, hi as int, #[trigger] out_cols@[p]),
                ),
            (a == 0) <==> (out_cols@.len() == base),
            a > 0 ==> out_cols@[out_cols@.len() - 1] == keys@[a - 1].0,
            0 < a < len ==> keys@[a - 1].0 < keys@[a as int].0,
            forall|t: int| 0 <= t < a ==> occurs_from(out_cols@, base as int, (#[trigger] keys@[t]).0),
        decreases len - a,
    {
        let c = keys[a].0;
        let (b, x) = merge_group(cols, vals, &keys, lo, hi, a);
        let ghost prev_cols = out_cols@;
        proof {
            let p0 = keys@[a as int].1 as int;
            assert(cols@[p0] == c);
            if a > 0 {
                let l = keys@[a - 1].0;
                assert forall|i: int| base <= i < prev_cols.len() implies #[trigger] prev_cols[i] <= l by {
                    if i < prev_cols.len() - 1 {
                        assert(prev_cols.subrange(base as int, prev_cols.len() as int)[i - base]
                            < prev_cols.subrange(base as int, prev_cols.len() as int)[prev_cols.len() - 1 - base]);
                    }
                }
            }
        }
        out_cols.push(c);
        out_vals.push(x);
        proof {
            assert(out_cols@.subrange(0, base as int) =~= oc) by {
                assert(out_cols@.subrange(0, base as int) =~= prev_cols.subrange(0, base as int));
            }
            assert(out_vals@.subrange(0, base as int) =~= ov);
            let ns = out_cols@.subrange(base as int, out_cols@.len() as int);
            let ps = prev_cols.subrange(base as int, prev_cols.len() as int);
            assert forall|i: int, j: int| 0 <= i < j < ns.len() implies #[trigger] ns[i] < #[trigger] ns[j] by {
                if j < ns.len() - 1 {
                    assert(ns[i] == ps[i] && ns[j] == ps[j]);
                } else {
                    assert(ns[i] == prev_cols[base + i]);
                }
            }
            assert forall|t: int| 0 <= t < b implies occurs_from(out_cols@, base as int, (#[trigger] keys@[t]).0) by {
                if t < a {
                    assert(occurs_from(prev_cols, base as int, keys@[t].0));
                    let pp = choose|pp: int| base <= pp < prev_cols.len() && prev_cols[pp] == keys@[t].0;
                    assert(out_cols@[pp] == prev_cols[pp]);
                } else {
                    assert(out_cols@[out_cols@.len() - 1] == keys@[t].0);
                }
            }
            if b > 0 {
                assert(keys@[b - 1].0 == c);
            }
        }
        a = b;
    }
    proof {
        assert forall|q: int| lo <= q < hi implies occurs_from(out_cols@, base as int, #[trigger] cols@[q]) by {
            assert(keys@.contains((cols@[q], q as usize)));
            let t = choose|t: int| 0 <= t < keys@.len() && keys@[t] == (cols@[q], q as usize);
            assert(occurs_from(out_cols@, base as int, keys@[t].0));
        }
        lemma_finish_row(out_cols@, out_vals@, base as int, cols@, vals@, lo as int, hi as int);
    }
}

/// The canonical form of a well-formed matrix, as three new storage arrays.
pub(crate) fn canonical_parts<V: Copy + Add<Output = V>>(
    row_ptrs: &Vec<usize>,
    cols: &Vec<usize>,
    vals: &Vec<V>,
    n: usize,
) -> (res: (Vec<usize>, Vec<usize>, Vec<V>))
    requires
        (CsrView { num_nodes: n as nat, row_ptrs: row_ptrs@, col_indices: cols@, values: vals@ }).wf(),
        (CsrView { num_nodes: n as nat, row_ptrs: row_ptrs@, col_indices: cols@, values: vals@ }).merge_defined(),
    ensures
        canonical_of(
            CsrView { num_nodes: n as nat, row_ptrs: res.0@, col_indices: res.1@, values: res.2@ },
            CsrView { num_nodes: n as nat, row_ptrs: row_ptrs@, col_indices: cols@, values: vals@ },
        ),
{
    let ghost o = CsrView { num_nodes: n as nat, row_ptrs: row_ptrs@, col_indices: cols@, values: vals@ };
    let mut new_rp: Vec<usize> = Vec::new();
    new_rp.push(0);
    let mut out_cols: Vec<usize> = Vec::new();
    let mut out_vals: Vec<V> = Vec::new();
    let mut r: usize = 0;
    while r < n
        invariant
            o == (CsrView { num_nodes: n as nat, row_ptrs: row_ptrs@, col_indices: cols@, values: vals@ }),
            o.wf(),
            o.merge_defined(),
            r <= n,
            new_rp@.len() == r + 1,
            new_rp@[0] == 0,
            new_rp@[r as int] == out_cols@.len(),
            out_cols@.len() == out_vals@.len(),
            forall|i: int, j: int| 0 <= i <= j <= r ==> #[trigger] new_rp@[i] <= #[trigger] new_rp@[j],
            forall|k: int| 0 <= k < out_cols@.len() ==> #[trigger] out_cols@[k] < n,
            forall|rr: int|
                0 <= rr < r ==> #[trigger] span_canonical(
                    out_cols@,
                    out_vals@,
                    new_rp@[rr] as int,
                    new_rp@[rr + 1] as int,
                    cols@,
                    vals@,
                    o.row_start(rr),
                    o.row_end(rr),
                ),
        decreases n - r,
    {
        let lo = row_ptrs[r];
        let hi = row_ptrs[r + 1];
        proof {
            assert(o.row_ptrs[r as int] <= o.row_ptrs[r + 1]);
            assert(o.row_ptrs[r + 1] <= o.row_ptrs[n as int]);
        }
        let ghost prev_cols = out_cols@;
        let ghost prev_vals = out_vals@;
        let ghost prev_rp = new_rp@;
        proof {
            assert(span_merge_defined(cols@, vals@, o.row_start(r as int), o.row_end(r as int)));
        }
        canonical_row(cols, vals, lo, hi, n, &mut out_cols, &mut out_vals);
        new_rp.push(out_cols.len());
        proof {
            assert forall|rr: int| 0 <= rr < r + 1 implies #[trigger] span_canonical(
                out_cols@,
                out_vals@,
                new_rp@[rr] as int,
                new_rp@[rr + 1] as int,
                cols@,
                vals@,
                o.row_start(rr),
                o.row_end(rr),
            ) by {
                if rr < r {
                    assert(new_rp@[rr] == prev_rp[rr] && new_rp@[rr + 1] == prev_rp[rr + 1]);
                    assert(prev_rp[rr] <= prev_rp[rr + 1]);
                    assert(prev_rp[rr + 1] <= prev_rp[r as int]);
                    lemma_span_canonical_extend(
                        prev_cols,
                        prev_vals,
                        out_cols@,
                        out_vals@,
                        prev_rp[rr] as int,
                        prev_rp[rr + 1] as int,
                        cols@,
                        vals@,
                        o.row_start(rr),
                        o.row_end(rr),
                    );
                }
            }
            assert forall|i: int, j: int| 0 <= i <= j <= r + 1 implies #[trigger] new_rp@[i] <= #[trigger] new_rp@[j] by {
                if j <= r {
                    assert(new_rp@[i] == prev_rp[i] && new_rp@[j] == prev_rp[j]);
                } else if i <= r {
                    assert(new_rp@[i] == prev_rp[i]);
                    assert(prev_rp[i] <= prev_rp[r as int]);
                }
            }
            assert forall|k: int| 0 <= k < out_cols@.len() implies #[trigger] out_cols@[k] < n by {
                if k < prev_cols.len() {
                    assert(out_cols@.subrange(0, prev_cols.len() as int)[k] == out_cols@[k]);
                }
            }
        }
        r = r + 1;
    }
    (new_rp, out_cols, out_vals)
}

/// Whether every row lists its columns in strictly increasing order.
pub(crate) fn rows_sorted_check(row_ptrs: &Vec<usize>, cols: &Vec<usize>, n: usize) -> (b: bool)
    requires
        row_ptrs@.len() == n + 1,
        forall|i: int, j: int| 0 <= i <= j <= n ==> #[trigger] row_ptrs@[i] <= #[trigger] row_ptrs@[j],
        row_ptrs@[n as int] == cols@.len(),
    ensures
        b == (forall|r: int| 0 <= r < n ==> strictly_increasing(
            #[trigger] cols@.subrange(row_ptrs@[r] as int, row_ptrs@[r + 1] as int),
        )),
{
    let mut r: usize = 0;
    while r < n
        invariant
            row_ptrs@.len() == n + 1,
            forall|i: int, j: int| 0 <= i <= j <= n ==> #[trigger] row_ptrs@[i] <= #[trigger] row_ptrs@[j],
            row_ptrs@[n as int] == cols@.len(),
            r <= n,
            forall|rr: int| 0 <= rr < r ==> strictly_increasing(
                #[trigger] cols@.subrange(row_ptrs@[rr] as int, row_ptrs@[rr + 1] as int),
            ),
        decreases n - r,
    {
        let start = row_ptrs[r];
        let end = row_ptrs[r + 1];
        proof {
            assert(row_ptrs@[r as int] <= row_ptrs@[r + 1]);
            assert(row_ptrs@[r + 1] <= row_ptrs@[n as int]);
        }
        let ghost row = cols@.subrange(start as int, end as int);
        if end > start {
            let mut i = start + 1;
            while i < end
                invariant
                    start < i <= end <= cols@.len(),
                    r < n,
                    row == cols@.subrange(start as int, end as int),
                    row == cols@.subrange(row_ptrs@[r as int] as int, row_ptrs@[r + 1] as int),
                    forall|k: int| 0 <= k < i - 1 - start ==> #[trigger] row[k] < row[k + 1],
                decreases end - i,
            {
                if cols[i - 1] >= cols[i] {
                    assert(row[i - 1 - start] >= row[i - start]);
                    assert(!strictly_increasing(
                        cols@.subrange(row_ptrs@[r as int] as int, row_ptrs@[r + 1] as int),
                    ));
                    return false;
                }
                i = i + 1;
            }
        }
        proof {
            lemma_adjacent_strict(row);
        }
        r = r + 1;
    }
    true
}

} // verus!
