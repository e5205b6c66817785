use fastrp::CsrMatrix;

#[test]
fn test_build_from_csr_sorted_input_is_kept() {
    // Node 0 -> {1, 2}, Node 1 -> {0}, Node 2 -> {0}
    let m = CsrMatrix::build_from_csr(vec![0, 2, 3, 4], vec![1, 2, 0, 0], vec![1.0, 1.0, 1.0, 1.0], 3)
        .expect("valid CSR input");
    assert_eq!(m.num_nodes(), 3);
    assert_eq!(m.row_ptrs(), &[0, 2, 3, 4]);
    assert_eq!(m.col_indices(), &[1, 2, 0, 0]);
    assert_eq!(m.values(), &[1.0, 1.0, 1.0, 1.0]);
}

#[test]
fn test_build_from_csr_sorts_rows_and_sums_duplicates() {
    // Row 0 lists columns 2, 0, 2; row 1 is empty; row 2 lists 1, 0.
    let m = CsrMatrix::build_from_csr(
        vec![0, 3, 3, 5],
        vec![2, 0, 2, 1, 0],
        vec![1.5, 2.0, 3.0, 4.0, 5.0],
        3,
    )
    .expect("valid CSR input");
    assert_eq!(m.row_ptrs(), &[0, 2, 2, 4]);
    assert_eq!(m.col_indices(), &[0, 2, 0, 1]);
    assert_eq!(m.values(), &[2.0, 4.5, 5.0, 4.0]);
}

#[test]
fn test_build_from_csr_empty_graph() {
    let m = CsrMatrix::<f64>::build_from_csr(vec![0], vec![], vec![], 0).expect("empty graph");
    assert_eq!(m.num_nodes(), 0);
    assert_eq!(m.row_ptrs(), &[0]);
    assert!(m.col_indices().is_empty());
    assert!(m.values().is_empty());
}

#[test]
fn test_canonical_form_does_not_depend_on_entry_order() {
    let a = CsrMatrix::build_from_csr(vec![0, 3, 4], vec![1, 0, 1, 0], vec![1.0, 2.0, 3.0, 4.0], 2)
        .expect("valid");
    let b = CsrMatrix::build_from_csr(vec![0, 3, 4], vec![0, 1, 1, 0], vec![2.0, 1.0, 3.0, 4.0], 2)
        .expect("valid");
    assert_eq!(a.row_ptrs(), b.row_ptrs());
    assert_eq!(a.col_indices(), b.col_indices());
    assert_eq!(a.values(), b.values());
    assert_eq!(a.row_ptrs(), &[0, 2, 3]);
    assert_eq!(a.col_indices(), &[0, 1, 0]);
    assert_eq!(a.values(), &[2.0, 4.0, 4.0]);
}

#[test]
fn test_sort_indices_is_idempotent() {
    let mut m = CsrMatrix::build_from_csr(vec![0, 3, 3], vec![1, 0, 1], vec![1.0, 2.0, 3.0], 2)
        .expect("valid");
    let rp = m.row_ptrs().to_vec();
    let ci = m.col_indices().to_vec();
    let vals = m.values().to_vec();
    m.sort_indices();
    assert_eq!(m.row_ptrs(), rp.as_slice());
    assert_eq!(m.col_indices(), ci.as_slice());
    assert_eq!(m.values(), vals.as_slice());
}

#[test]
fn test_integer_weights_are_summed_exactly() {
    let m = CsrMatrix::build_from_csr(vec![0, 4], vec![0, 0, 0, 0], vec![1u64, 2, 3, 4], 1).expect("valid");
    assert_eq!(m.row_ptrs(), &[0, 1]);
    assert_eq!(m.col_indices(), &[0]);
    assert_eq!(m.values(), &[10u64]);
}

#[test]
fn test_build_from_adj_list_readme_graph() {
    let adj_list = vec![
        vec![(1, 1.0), (2, 1.0)], // Node 0 connects to Node 1 and Node 2
        vec![(0, 1.0)],           // Node 1 connects to Node 0
        vec![(0, 1.0)],           // Node 2 connects to Node 0
    ];
    let m = CsrMatrix::build_from_adj_list(adj_list).expect("valid adjacency list");
    assert_eq!(m.num_nodes(), 3);
    assert_eq!(m.row_ptrs(), &[0, 2, 3, 4]);
    assert_eq!(m.col_indices(), &[1, 2, 0, 0]);
    assert_eq!(m.values(), &[1.0, 1.0, 1.0, 1.0]);
}

#[test]
fn test_build_from_adj_list_keeps_raw_weights_and_sorts() {
    let adj_list = vec![vec![(2, 0.25), (1, 4.0), (2, 0.5)], vec![], vec![(0, -3.0)]];
    let m = CsrMatrix::build_from_adj_list(adj_list).expect("valid adjacency list");
    assert_eq!(m.row_ptrs(), &[0, 2, 2, 3]);
    assert_eq!(m.col_indices(), &[1, 2, 0]);
    assert_eq!(m.values(), &[4.0, 0.75, -3.0]);
}

#[test]
fn test_build_from_adj_list_empty_graph() {
    let adj_list: Vec<Vec<(usize, f64)>> = vec![];
    let m = CsrMatrix::build_from_adj_list(adj_list).expect("empty graph");
    assert_eq!(m.num_nodes(), 0);
    assert_eq!(m.row_ptrs(), &[0]);
}

#[test]
fn test_build_from_dense_scans_rows_left_to_right() {
    // [0.0, 1.5, 2.0]
    // [3.0, 0.0, 0.0]
    // [0.0, 0.0, 0.0]
    let cells = vec![None, Some(1.5), Some(2.0), Some(3.0), None, None, None, None, None];
    let m = CsrMatrix::build_from_dense(3, 3, &cells).expect("square grid");
    assert_eq!(m.num_nodes(), 3);
    assert_eq!(m.row_ptrs(), &[0, 2, 3, 3]);
    assert_eq!(m.col_indices(), &[1, 2, 0]);
    assert_eq!(m.values(), &[1.5, 2.0, 3.0]);
}

#[test]
fn test_build_from_dense_empty_grid() {
    let cells: Vec<Option<f64>> = vec![];
    let m = CsrMatrix::build_from_dense(0, 0, &cells).expect("empty grid");
    assert_eq!(m.num_nodes(), 0);
    assert_eq!(m.row_ptrs(), &[0]);
    assert!(m.col_indices().is_empty());
}

#[test]
fn test_dense_grid_and_adjacency_list_agree() {
    let adj_list = vec![
        vec![(2, 1.0), (1, 1.0)],
        vec![(0, 1.0), (3, 1.0)],
        vec![(0, 1.0)],
        vec![(1, 2.5)],
    ];
    let n = adj_list.len();
    let mut cells: Vec<Option<f64>> = vec![None; n * n];
    for (i, neighbors) in adj_list.iter().enumerate() {
        for &(target, w) in neighbors {
            cells[i * n + target] = Some(w);
        }
    }
    let from_list = CsrMatrix::build_from_adj_list(adj_list).expect("valid list");
    let from_dense = CsrMatrix::build_from_dense(n, n, &cells).expect("square grid");
    assert_eq!(from_list.num_nodes(), from_dense.num_nodes());
    assert_eq!(from_list.row_ptrs(), from_dense.row_ptrs());
    assert_eq!(from_list.col_indices(), from_dense.col_indices());
    assert_eq!(from_list.values(), from_dense.values());
}

#[test]
fn test_every_built_matrix_is_well_formed() {
    let m = CsrMatrix::build_from_adj_list(vec![vec![(3, 1.0), (0, 1.0)], vec![], vec![(1, 1.0)], vec![(2, 1.0), (2, 1.0)]])
        .expect("valid");
    let rp = m.row_ptrs();
    let n = m.num_nodes();
    assert_eq!(rp.len(), n + 1);
    assert_eq!(rp[0], 0);
    assert_eq!(rp[n], m.col_indices().len());
    assert_eq!(m.col_indices().len(), m.values().len());
    for r in 0..n {
        assert!(rp[r] <= rp[r + 1]);
        for k in rp[r] + 1..rp[r + 1] {
            assert!(m.col_indices()[k - 1] < m.col_indices()[k]);
        }
    }
    assert!(m.col_indices().iter().all(|&c| c < n));
}

#[test]
fn test_parts_round_trip() {
    let m = CsrMatrix::build_from_adj_list(vec![vec![(2, 1.5), (0, 2.5)], vec![(1, 3.0)], vec![]]).expect("valid");
    let again = CsrMatrix::build_from_csr(
        m.row_ptrs().to_vec(),
        m.col_indices().to_vec(),
        m.values().to_vec(),
        m.num_nodes(),
    )
    .expect("the parts of a matrix are valid");
    assert_eq!(again.num_nodes(), m.num_nodes());
    assert_eq!(again.row_ptrs(), m.row_ptrs());
    assert_eq!(again.col_indices(), m.col_indices());
    assert_eq!(again.values(), m.values());
}

#[test]
fn test_adjacency_storage_counts_rows_and_edges() {
    let adj: Vec<Vec<(usize, f64)>> = vec![vec![(1, 1.0), (2, 0.5)], vec![], vec![(0, 2.0)]];
    assert_eq!(fastrp::csr::adjacency_storage(&adj), (4, 3));
    let empty: Vec<Vec<(usize, f64)>> = vec![];
    assert_eq!(fastrp::csr::adjacency_storage(&empty), (1, 0));
}

#[test]
fn test_dense_entry_count_counts_non_empty_cells() {
    let cells: Vec<Option<f64>> = vec![None, Some(1.0), Some(2.0), None];
    assert_eq!(fastrp::csr::dense_entry_count(&cells, 2), 2);
    let none: Vec<Option<u32>> = vec![None; 9];
    assert_eq!(fastrp::csr::dense_entry_count(&none, 3), 0);
    let empty: Vec<Option<u32>> = vec![];
    assert_eq!(fastrp::csr::dense_entry_count(&empty, 0), 0);
}

#[test]
fn test_fill_from_adj_list_builds_canonical_matrix() {
    let adj: Vec<Vec<(usize, f64)>> = vec![vec![(2, 0.5), (1, 1.0)], vec![], vec![(0, 2.0)]];
    let m = CsrMatrix::fill_from_adj_list(&adj, Vec::new(), Vec::new(), Vec::new()).expect("targets in range");
    assert_eq!(m.num_nodes(), 3);
    assert_eq!(m.row_ptrs(), &[0, 2, 2, 3]);
    assert_eq!(m.col_indices(), &[1, 2, 0]);
    assert_eq!(m.values(), &[1.0, 0.5, 2.0]);
}

#[test]
fn test_fill_from_adj_list_reports_first_bad_target() {
    let adj: Vec<Vec<(usize, f64)>> = vec![vec![(0, 1.0)], vec![(5, 1.0), (7, 1.0)]];
    match CsrMatrix::fill_from_adj_list(&adj, Vec::new(), Vec::new(), Vec::new()) {
        Err(fastrp::FastRPError::ShapeMismatch(msg)) => {
            assert_eq!(msg, "Target node ID 5 is out of bounds for graph with 2 nodes")
        }
        _ => panic!("expected a shape mismatch"),
    }
}

#[test]
fn test_fill_from_dense_scans_grid() {
    let cells: Vec<Option<u32>> = vec![None, Some(4), Some(7), None];
    let m = CsrMatrix::fill_from_dense(2, &cells, Vec::new(), Vec::new(), Vec::new());
    assert_eq!(m.num_nodes(), 2);
    assert_eq!(m.row_ptrs(), &[0, 1, 2]);
    assert_eq!(m.col_indices(), &[1, 0]);
    assert_eq!(m.values(), &[4, 7]);
}

#[test]
fn test_sort_indices_long_reversed_row_with_repeats() {
    // One hub row naming every column twice, in descending order.
    let n: usize = 20_000;
    let mut cols: Vec<usize> = Vec::new();
    let mut vals: Vec<u64> = Vec::new();
    for c in (0..n).rev() {
        cols.push(c);
        vals.push(c as u64);
        cols.push(c);
        vals.push(1);
    }
    let mut row_ptrs = vec![2 * n; n + 1];
    row_ptrs[0] = 0;
    let m = CsrMatrix::build_from_csr(row_ptrs, cols, vals, n).expect("valid CSR input");
    assert_eq!(m.row_ptrs()[1], n);
    let expected_cols: Vec<usize> = (0..n).collect();
    let expected_vals: Vec<u64> = (0..n as u64).map(|c| c + 1).collect();
    assert_eq!(m.col_indices(), expected_cols.as_slice());
    assert_eq!(m.values(), expected_vals.as_slice());
}
