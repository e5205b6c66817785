//! Fast Random Projection (FastRP) graph embeddings: the verified core.
//!
//! This crate holds the parts of FastRP whose behaviour is exact and
//! integer-valued: the Compressed Sparse Row (CSR) adjacency structure with
//! its validating constructors and its canonical row ordering, the sizing and
//! allocation of the embedding buffers, the per-row seed schedule of the
//! random projection, and the text of the error messages.
pub mod algorithm;
pub mod canonical;
pub mod csr;
pub mod error;
pub mod laws;
mod memory;
pub mod text;

pub use csr::CsrMatrix;
pub use error::FastRPError;
pub use text::decimal_string;
