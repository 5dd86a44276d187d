//! The errors of the library.

use vstd::prelude::*;

verus! {

/// Everything that can go wrong in this library.
#[derive(Debug)]
pub enum TrailError {
    /// The storage engine failed; nothing of the operation was kept.
    Store(redb::Error),
    /// Committing a write failed; whether its records were kept is not known.
    Commit(redb::Error),
    /// A stored value could not be read back as a trail.
    Corrupted,
    /// A text that should describe a position is not a FEN.
    ParseFen,
    /// An opening table misses a first move or holds an unnamed opening.
    InvalidCatalog,
}

} // verus!
