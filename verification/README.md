# sprs (construction routines)

Compressed sparse matrices (CSR and CSC) and their construction: stacking
matrices vertically or horizontally, assembling a matrix from a grid of
optional blocks, and compressing a dense matrix. The library is written in
Verus; every function in `src/` carries a contract that Verus proves.

Layout:

- `src/errors.rs`: the error type and the description of each error.
- `src/sparse/lanes.rs`: the model of one outer lane (pairs of inner index
  and value) and lemmas on looking values up in lanes.
- `src/sparse/csmat.rs`: `CsMat`, its model `CsMatModel` (orientation,
  shape, lanes), the structure check, conversions between orientations,
  transposition, and the laws that make the representation canonical.
- `src/sparse/dense.rs`: `DenseMatrix`, a row-major dense matrix.
- `src/sparse/construct.rs`: `same_storage_fast_stack`, `vstack`, `hstack`,
  `bmat`, `csr_from_dense`, `csc_from_dense`, the argument checks, and laws
  relating them.
- `app/lib.rs`: `ndarray` and `num-traits` adapters (dense views with an
  `epsilon` threshold), stacking entry points that panic on invalid
  arguments, and an error type with `Display` and `Error`.
