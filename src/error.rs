//! What can go wrong in the store.
use vstd::prelude::*;

verus! {

/// The store's error kinds.
#[derive(Debug, Clone, Copy, PartialEq, Eq, Structural)]
pub enum StoreError {
    /// The key is empty, too long, or holds a byte that is not an ASCII
    /// letter or digit.
    InvalidKey,
    /// The key is in neither the memtable nor any segment.
    NotFound,
    /// A file is shorter than a record it should hold.
    Io,
    /// A record does not hold the key that led to it.
    Corruption,
}

/// The views of a result that carries bytes.
pub open spec fn bytes_result(r: Result<Vec<u8>, StoreError>) -> Result<Seq<u8>, StoreError> {
    match r {
        Ok(v) => Ok(v@),
        Err(e) => Err(e),
    }
}

} // verus!
