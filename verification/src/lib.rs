//! Construction of compressed sparse matrices: stacking, assembly from
//! blocks, and compression of dense matrices.
pub mod errors;
pub mod sparse;

pub use errors::SprsError;
pub use sparse::csmat::{CompressedStorage, CsMat, CsMatModel};
pub use sparse::dense::{DenseMatrix, DenseModel};
pub use sparse::construct::{
    bmat, check_bmat, check_hstack, check_same_storage_stack, check_vstack, csc_from_dense,
    csr_from_dense, hstack, same_storage_fast_stack, vstack,
};
