# fastrp

Fast Random Projection (FastRP) graph embeddings, with a verified core.

- `src/` (verified with Verus) holds the exact, integer-valued parts:
  - `csr`: the generic CSR adjacency matrix `CsrMatrix<V>`, its invariant,
    its accessors and its constructors from raw CSR arrays, adjacency lists
    and dense grids, each with the exact error it reports;
  - `canonical`: the canonical row form (sorted columns, repeated columns
    merged) that `CsrMatrix::sort_indices` produces;
  - `laws`: properties relating several calls (idempotence and uniqueness of
    the canonical form, agreement of the dense and adjacency-list paths);
  - `algorithm`: embedding-buffer sizing and allocation, per-row seeds;
  - `error`, `text`: the error type, its messages, decimal rendering and the
    reading of the requested size out of an allocator report.
- `app/` holds what works on floating point or on `ndarray`, `sprs`, `rand`
  and `rayon` values: the FastRP iterations, the random initial projection,
  the dense `ndarray` entry point, `M + M^T` through `sprs`, the builder and
  the `Display` of errors.
- `tests/` exercises the library on concrete inputs.
