use vstd::prelude::*;

verus! {

/// Why an operation on a store or a handle was refused.
#[derive(Clone, Copy, Debug, PartialEq, Eq, Structural)]
pub enum StoreError {
    /// A dimension of zero was given where a store had to be created.
    InvalidDimension,
    /// A vector, a query or a file disagrees with the store's dimension.
    DimensionMismatch,
    /// The bytes are not a well-formed index file.
    CorruptFile,
    /// The file system failed while the file was read or written.
    IoError,
}

} // verus!
