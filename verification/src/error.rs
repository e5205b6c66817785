//! The error type of the library and the exact text of its messages.
use std::collections::TryReserveError;
use vstd::prelude::*;
use vstd::string::*;
use crate::text::{decimal, decimal_string};

verus! {

/// What can go wrong while building a graph or its embeddings.
#[derive(Debug)]
pub enum FastRPError {
    /// An allocation could not be satisfied; the allocator's report is kept.
    Oom(TryReserveError),
    /// The input does not describe a well-formed graph or buffer; the text
    /// says which rule it breaks.
    ShapeMismatch(String),
}

impl From<TryReserveError> for FastRPError {
    fn from(err: TryReserveError) -> (r: Self)
        ensures
            r == FastRPError::Oom(err),
    {
        FastRPError::Oom(err)
    }
}

impl vstd::std_specs::convert::FromSpecImpl<TryReserveError> for FastRPError {
    open spec fn obeys_from_spec() -> bool {
        true
    }

    open spec fn from_spec(v: TryReserveError) -> Self {
        FastRPError::Oom(v)
    }
}

impl FastRPError {
    /// The error is a [`FastRPError::ShapeMismatch`] whose text is `msg`.
    pub open spec fn is_shape_mismatch_with(self, msg: Seq<char>) -> bool {
        self matches FastRPError::ShapeMismatch(s) && s@ == msg
    }

    /// The displayed text of a [`FastRPError::ShapeMismatch`]:
    /// `"Shape mismatch: "` followed by its message. An out-of-memory error
    /// has no such text (`None`).
    pub fn shape_mismatch_text(&self) -> (r: Option<String>)
        ensures
            match self {
                FastRPError::ShapeMismatch(m) => r matches Some(t) && t@ == "Shape mismatch: "@ + m@,
                FastRPError::Oom(_) => r is None,
            },
    {
        match self {
            FastRPError::ShapeMismatch(m) => Some(String::from_str("Shape mismatch: ").concat(m.as_str())),
            FastRPError::Oom(_) => None,
        }
    }
}

/// `r` is a [`FastRPError::ShapeMismatch`] error whose text is `msg`.
pub open spec fn fails_with<T>(r: Result<T, FastRPError>, msg: Seq<char>) -> bool {
    r matches Err(e) && e.is_shape_mismatch_with(msg)
}

/// `r` is a [`FastRPError::Oom`] error.
pub open spec fn fails_oom<T>(r: Result<T, FastRPError>) -> bool {
    r matches Err(FastRPError::Oom(_))
}

/// `"Capacity overflow"`
pub open spec fn msg_capacity_overflow() -> Seq<char> {
    "Capacity overflow"@
}

/// `"row_ptrs length {len} must be num_nodes + 1 ({expected})"`
pub open spec fn msg_row_ptrs_length(len: nat, expected: nat) -> Seq<char> {
    "row_ptrs length "@ + decimal(len) + " must be num_nodes + 1 ("@ + decimal(expected) + ")"@
}

/// `"col_indices and values must have the same length"`
pub open spec fn msg_lengths_differ() -> Seq<char> {
    "col_indices and values must have the same length"@
}

/// `"row_ptrs[0] must be 0, got {first}"`
pub open spec fn msg_first_row_ptr(first: nat) -> Seq<char> {
    "row_ptrs[0] must be 0, got "@ + decimal(first)
}

/// `"row_ptrs last element ({last}) must equal col_indices length ({len})"`
pub open spec fn msg_last_row_ptr(last: nat, len: nat) -> Seq<char> {
    "row_ptrs last element ("@ + decimal(last) + ") must equal col_indices length ("@ + decimal(len)
        + ")"@
}

/// `"row_ptrs must be monotonically non-decreasing, found {a} followed by {b}"`
pub open spec fn msg_row_ptrs_descend(a: nat, b: nat) -> Seq<char> {
    "row_ptrs must be monotonically non-decreasing, found "@ + decimal(a) + " followed by "@
        + decimal(b)
}

/// `"col_indices[{i}] = {col} is out of bounds for graph with {n} nodes"`
pub open spec fn msg_column_out_of_bounds(i: nat, col: nat, n: nat) -> Seq<char> {
    "col_indices["@ + decimal(i) + "] = "@ + decimal(col) + " is out of bounds for graph with "@
        + decimal(n) + " nodes"@
}

/// `"Target node ID {target} is out of bounds for graph with {n} nodes"`
pub open spec fn msg_target_out_of_bounds(target: nat, n: nat) -> Seq<char> {
    "Target node ID "@ + decimal(target) + " is out of bounds for graph with "@ + decimal(n)
        + " nodes"@
}

/// `"Adjacency matrix must be square"`
pub open spec fn msg_not_square() -> Seq<char> {
    "Adjacency matrix must be square"@
}

pub(crate) fn err_capacity_overflow() -> (e: FastRPError)
    ensures
        e.is_shape_mismatch_with(msg_capacity_overflow()),
{
    FastRPError::ShapeMismatch(String::from_str("Capacity overflow"))
}

pub(crate) fn err_row_ptrs_length(len: usize, expected: usize) -> (e: FastRPError)
    ensures
        e.is_shape_mismatch_with(msg_row_ptrs_length(len as nat, expected as nat)),
{
    let s = String::from_str("row_ptrs length ").concat(decimal_string(len).as_str()).concat(
        " must be num_nodes + 1 (",
    ).concat(decimal_string(expected).as_str()).concat(")");
    FastRPError::ShapeMismatch(s)
}

pub(crate) fn err_lengths_differ() -> (e: FastRPError)
    ensures
        e.is_shape_mismatch_with(msg_lengths_differ()),
{
    FastRPError::ShapeMismatch(String::from_str("col_indices and values must have the same length"))
}

pub(crate) fn err_first_row_ptr(first: usize) -> (e: FastRPError)
    ensures
        e.is_shape_mismatch_with(msg_first_row_ptr(first as nat)),
{
    let s = String::from_str("row_ptrs[0] must be 0, got ").concat(decimal_string(first).as_str());
    FastRPError::ShapeMismatch(s)
}

pub(crate) fn err_last_row_ptr(last: usize, len: usize) -> (e: FastRPError)
    ensures
        e.is_shape_mismatch_with(msg_last_row_ptr(last as nat, len as nat)),
{
    let s = String::from_str("row_ptrs last element (").concat(decimal_string(last).as_str()).concat(
        ") must equal col_indices length (",
    ).concat(decimal_string(len).as_str()).concat(")");
    FastRPError::ShapeMismatch(s)
}

pub(crate) fn err_row_ptrs_descend(a: usize, b: usize) -> (e: FastRPError)
    ensures
        e.is_shape_mismatch_with(msg_row_ptrs_descend(a as nat, b as nat)),
{
    let s = String::from_str("row_ptrs must be monotonically non-decreasing, found ").concat(
        decimal_string(a).as_str(),
    ).concat(" followed by ").concat(decimal_string(b).as_str());
    FastRPError::ShapeMismatch(s)
}

pub(crate) fn err_column_out_of_bounds(i: usize, col: usize, n: usize) -> (e: FastRPError)
    ensures
        e.is_shape_mismatch_with(msg_column_out_of_bounds(i as nat, col as nat, n as nat)),
{
    let s = String::from_str("col_indices[").concat(decimal_string(i).as_str()).concat("] = ").concat(
        decimal_string(col).as_str(),
    ).concat(" is out of bounds for graph with ").concat(decimal_string(n).as_str()).concat(" nodes");
    FastRPError::ShapeMismatch(s)
}

pub(crate) fn err_target_out_of_bounds(target: usize, n: usize) -> (e: FastRPError)
    ensures
        e.is_shape_mismatch_with(msg_target_out_of_bounds(target as nat, n as nat)),
{
    let s = String::from_str("Target node ID ").concat(decimal_string(target).as_str()).concat(
        " is out of bounds for graph with ",
    ).concat(decimal_string(n).as_str()).concat(" nodes");
    FastRPError::ShapeMismatch(s)
}

pub(crate) fn err_not_square() -> (e: FastRPError)
    ensures
        e.is_shape_mismatch_with(msg_not_square()),
{
    FastRPError::ShapeMismatch(String::from_str("Adjacency matrix must be square"))
}

} // verus!
