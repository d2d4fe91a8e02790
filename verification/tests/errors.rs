use sprs::SprsError;

#[test]
fn descr_of_each_error() {
    let cases = [
        (SprsError::IncompatibleDimensions, "matrices dimensions do not agree"),
        (SprsError::BadWorkspaceDimensions, "workspace dimension does not match requirements"),
        (SprsError::IncompatibleStorages, "incompatible storages"),
        (SprsError::BadStorageType, "wrong storage type"),
        (SprsError::EmptyStackingList, "stacking list is empty"),
        (SprsError::NotImplemented, "this method is not yet implemented"),
        (SprsError::EmptyBmatRow, "empty row in bmat argument"),
        (SprsError::EmptyBmatCol, "empty column in bmat argument"),
        (SprsError::NonSortedIndices, "a vector's indices are not sorted"),
        (SprsError::OutOfBoundsIndex, "an element in indices is out of bounds"),
        (SprsError::BadIndptrLength, "inpdtr's length doesn't agree with dimensions"),
        (SprsError::DataIndicesMismatch, "data and indices lengths differ"),
        (SprsError::BadNnzCount, "the nnz count and indptr do not agree"),
        (SprsError::OutOfBoundsIndptr, "some indptr values are out of bounds"),
        (SprsError::UnsortedIndptr, "indptr is not sorted"),
        (SprsError::EmptyBlock, "tried to create an empty block"),
        (SprsError::SingularMatrix, "matrix is singular"),
    ];
    for (e, text) in cases.iter() {
        assert_eq!(e.descr(), *text);
    }
}

#[test]
fn errors_compare_by_variant() {
    assert_eq!(SprsError::EmptyBmatRow, SprsError::EmptyBmatRow);
    assert_ne!(SprsError::EmptyBmatRow, SprsError::EmptyBmatCol);
}
