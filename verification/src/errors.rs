//! Error type of the library.
use vstd::prelude::*;

verus! {

/// The ways in which an operation of the library can fail.
#[derive(PartialEq, Eq, Structural, Debug, Clone, Copy)]
pub enum SprsError {
    IncompatibleDimensions,
    BadWorkspaceDimensions,
    IncompatibleStorages,
    BadStorageType,
    EmptyStackingList,
    NotImplemented,
    EmptyBmatRow,
    EmptyBmatCol,
    NonSortedIndices,
    OutOfBoundsIndex,
    BadIndptrLength,
    DataIndicesMismatch,
    BadNnzCount,
    OutOfBoundsIndptr,
    UnsortedIndptr,
    EmptyBlock,
    SingularMatrix,
}

/// The human-readable description of each error.
pub open spec fn spec_descr(e: SprsError) -> Seq<char> {
    match e {
        SprsError::IncompatibleDimensions => "matrices dimensions do not agree"@,
        SprsError::BadWorkspaceDimensions => "workspace dimension does not match requirements"@,
        SprsError::IncompatibleStorages => "incompatible storages"@,
        SprsError::BadStorageType => "wrong storage type"@,
        SprsError::EmptyStackingList => "stacking list is empty"@,
        SprsError::NotImplemented => "this method is not yet implemented"@,
        SprsError::EmptyBmatRow => "empty row in bmat argument"@,
        SprsError::EmptyBmatCol => "empty column in bmat argument"@,
        SprsError::NonSortedIndices => "a vector's indices are not sorted"@,
        SprsError::OutOfBoundsIndex => "an element in indices is out of bounds"@,
        SprsError::BadIndptrLength => "inpdtr's length doesn't agree with dimensions"@,
        SprsError::DataIndicesMismatch => "data and indices lengths differ"@,
        SprsError::BadNnzCount => "the nnz count and indptr do not agree"@,
        SprsError::OutOfBoundsIndptr => "some indptr values are out of bounds"@,
        SprsError::UnsortedIndptr => "indptr is not sorted"@,
        SprsError::EmptyBlock => "tried to create an empty block"@,
        SprsError::SingularMatrix => "matrix is singular"@,
    }
}

impl SprsError {
    /// Describes the error in words.
    pub fn descr(&self) -> (s: &'static str)
        ensures
            s@ == spec_descr(*self),
    {
        match *self {
            SprsError::IncompatibleDimensions => "matrices dimensions do not agree",
            SprsError::BadWorkspaceDimensions => "workspace dimension does not match requirements",
            SprsError::IncompatibleStorages => "incompatible storages",
            SprsError::BadStorageType => "wrong storage type",
            SprsError::EmptyStackingList => "stacking list is empty",
            SprsError::NotImplemented => "this method is not yet implemented",
            SprsError::EmptyBmatRow => "empty row in bmat argument",
            SprsError::EmptyBmatCol => "empty column in bmat argument",
            SprsError::NonSortedIndices => "a vector's indices are not sorted",
            SprsError::OutOfBoundsIndex => "an element in indices is out of bounds",
            SprsError::BadIndptrLength => "inpdtr's length doesn't agree with dimensions",
            SprsError::DataIndicesMismatch => "data and indices lengths differ",
            SprsError::BadNnzCount => "the nnz count and indptr do not agree",
            SprsError::OutOfBoundsIndptr => "some indptr values are out of bounds",
            SprsError::UnsortedIndptr => "indptr is not sorted",
            SprsError::EmptyBlock => "tried to create an empty block",
            SprsError::SingularMatrix => "matrix is singular",
        }
    }
}

} // verus!
