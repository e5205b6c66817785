use fastrp::{CsrMatrix, FastRPError};

#[test]
fn test_csr_row_ptrs_not_starting_at_zero() {
    let result = CsrMatrix::build_from_csr(
        vec![1, 2, 3], // row_ptrs[0] = 1, should be 0
        vec![0, 1],
        vec![1.0, 1.0],
        2,
    );
    assert!(result.is_err());
    match result.unwrap_err() {
        FastRPError::ShapeMismatch(msg) => {
            assert!(msg.contains("row_ptrs[0] must be 0"), "Unexpected message: {}", msg);
        }
        err => panic!("Expected ShapeMismatch, got {:?}", err),
    }
}

#[test]
fn test_csr_row_ptrs_non_monotonic() {
    // row_ptrs = [0, 2, 1, 2]: last element = 2 matches col_indices.len(),
    // but the pair (2, 1) violates monotonicity.
    let result = CsrMatrix::build_from_csr(vec![0, 2, 1, 2], vec![0, 1], vec![1.0, 1.0], 3);
    assert!(result.is_err());
    match result.unwrap_err() {
        FastRPError::ShapeMismatch(msg) => {
            assert!(msg.contains("monotonically non-decreasing"), "Unexpected message: {}", msg);
        }
        err => panic!("Expected ShapeMismatch, got {:?}", err),
    }
}

#[test]
fn test_csr_row_ptrs_overshoot() {
    let result = CsrMatrix::build_from_csr(
        vec![0, 5], // last ptr = 5, but col_indices has only 2 elements
        vec![0, 1],
        vec![1.0, 1.0],
        1,
    );
    assert!(result.is_err());
    match result.unwrap_err() {
        FastRPError::ShapeMismatch(msg) => {
            assert!(msg.contains("must equal col_indices length"), "Unexpected message: {}", msg);
        }
        err => panic!("Expected ShapeMismatch, got {:?}", err),
    }
}

#[test]
fn test_csr_col_indices_out_of_bounds() {
    let result = CsrMatrix::build_from_csr(
        vec![0, 2],
        vec![0, 99], // col index 99 is out of bounds for 1-node graph
        vec![1.0, 1.0],
        1,
    );
    assert!(result.is_err());
    match result.unwrap_err() {
        FastRPError::ShapeMismatch(msg) => {
            assert!(msg.contains("out of bounds"), "Unexpected message: {}", msg);
        }
        err => panic!("Expected ShapeMismatch, got {:?}", err),
    }
}

fn shape_message<T>(r: Result<T, FastRPError>) -> String {
    match r {
        Err(FastRPError::ShapeMismatch(msg)) => msg,
        Err(other) => panic!("Expected ShapeMismatch, got {:?}", other),
        Ok(_) => panic!("Expected an error"),
    }
}

#[test]
fn test_csr_error_messages_are_exact() {
    assert_eq!(
        shape_message(CsrMatrix::build_from_csr(vec![0, 1], vec![0], vec![1.0], 3)),
        "row_ptrs length 2 must be num_nodes + 1 (4)"
    );
    assert_eq!(
        shape_message(CsrMatrix::build_from_csr(vec![0, 1], vec![0], vec![1.0, 2.0], 1)),
        "col_indices and values must have the same length"
    );
    assert_eq!(
        shape_message(CsrMatrix::build_from_csr(vec![4, 1], vec![0], vec![1.0], 1)),
        "row_ptrs[0] must be 0, got 4"
    );
    assert_eq!(
        shape_message(CsrMatrix::build_from_csr(vec![0, 5], vec![0, 1], vec![1.0, 1.0], 1)),
        "row_ptrs last element (5) must equal col_indices length (2)"
    );
    assert_eq!(
        shape_message(CsrMatrix::build_from_csr(vec![0, 2, 1, 2], vec![0, 1], vec![1.0, 1.0], 3)),
        "row_ptrs must be monotonically non-decreasing, found 2 followed by 1"
    );
    assert_eq!(
        shape_message(CsrMatrix::build_from_csr(vec![0, 2], vec![0, 99], vec![1.0, 1.0], 1)),
        "col_indices[1] = 99 is out of bounds for graph with 1 nodes"
    );
}

#[test]
fn test_csr_first_broken_rule_is_reported() {
    // Both the length of row_ptrs and the weight count are wrong: the length
    // is checked first.
    assert_eq!(
        shape_message(CsrMatrix::build_from_csr(vec![0], vec![0], vec![1.0, 2.0], 1)),
        "row_ptrs length 1 must be num_nodes + 1 (2)"
    );
    // Two descents: the first one is named.
    assert_eq!(
        shape_message(CsrMatrix::build_from_csr(
            vec![0, 3, 2, 1, 3],
            vec![0, 0, 0],
            vec![1.0, 1.0, 1.0],
            4
        )),
        "row_ptrs must be monotonically non-decreasing, found 3 followed by 2"
    );
    // Two columns out of range: the first one is named.
    assert_eq!(
        shape_message(CsrMatrix::build_from_csr(vec![0, 3], vec![0, 7, 8], vec![1.0, 1.0, 1.0], 1)),
        "col_indices[1] = 7 is out of bounds for graph with 1 nodes"
    );
}

#[test]
fn test_adj_list_target_out_of_bounds() {
    let adj: Vec<Vec<(usize, f64)>> = vec![vec![(1, 1.0)], vec![(0, 1.0), (5, 2.0), (9, 1.0)], vec![]];
    assert_eq!(
        shape_message(CsrMatrix::build_from_adj_list(adj)),
        "Target node ID 5 is out of bounds for graph with 3 nodes"
    );
}

#[test]
fn test_dense_must_be_square() {
    let cells: Vec<Option<f64>> = vec![None; 6];
    assert_eq!(
        shape_message(CsrMatrix::build_from_dense(2, 3, &cells)),
        "Adjacency matrix must be square"
    );
    let cells: Vec<Option<f64>> = vec![];
    assert_eq!(
        shape_message(CsrMatrix::build_from_dense(0, 3, &cells)),
        "Adjacency matrix must be square"
    );
}

#[test]
fn test_from_try_reserve_error() {
    let mut v: Vec<u8> = Vec::new();
    let err = v.try_reserve(usize::MAX).unwrap_err();
    match FastRPError::from(err) {
        FastRPError::Oom(_) => {}
        other => panic!("Expected Oom, got {:?}", other),
    }
}

#[test]
fn test_shape_mismatch_text() {
    let e = FastRPError::ShapeMismatch("Adjacency matrix must be square".to_string());
    assert_eq!(e.shape_mismatch_text(), Some("Shape mismatch: Adjacency matrix must be square".to_string()));
    let mut v: Vec<u64> = Vec::new();
    let oom = FastRPError::from(v.try_reserve_exact(usize::MAX).unwrap_err());
    assert_eq!(oom.shape_mismatch_text(), None);
}
