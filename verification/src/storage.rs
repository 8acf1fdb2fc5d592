//! What can go wrong in a store.
use vstd::prelude::*;

verus! {

#[derive(Debug, Clone, Copy, PartialEq, Eq, Structural)]
pub enum StorageError {
    /// There is no room left for the entry.
    Full,
    /// The entry, or what was read back, is not well formed.
    Corrupt,
    /// The entry is not there.
    NotFound,
    /// The medium refused the operation.
    Unavailable,
}

impl StorageError {
    pub open spec fn text(self) -> Seq<char> {
        match self {
            StorageError::Full => "storage is full"@,
            StorageError::Corrupt => "stored data is corrupt"@,
            StorageError::NotFound => "stored entry was not found"@,
            StorageError::Unavailable => "storage is unavailable"@,
        }
    }

    pub fn message(&self) -> (r: &'static str)
        ensures
            r@ == self.text(),
    {
        match self {
            StorageError::Full => "storage is full",
            StorageError::Corrupt => "stored data is corrupt",
            StorageError::NotFound => "stored entry was not found",
            StorageError::Unavailable => "storage is unavailable",
        }
    }
}

} // verus!
