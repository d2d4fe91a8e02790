//! Compressed sparse matrices and their construction.
pub mod lanes;
pub mod csmat;
pub mod dense;
pub mod construct;
