//! Error values returned by the arena and the map.

use vstd::prelude::*;

verus! {

/// An allocation did not fit into what is left of the arena.
#[derive(Debug, Clone, Copy, PartialEq, Eq, Structural)]
pub enum ArenaError {
    /// The arena cannot hold `requested` more bytes (padding and reserve
    /// included); `remaining` bytes were still free.
    InsufficientSpace { requested: u64, remaining: u64 },
}

impl ArenaError {
    /// The error in words.
    pub fn to_string(&self) -> (s: String)
        ensures
            s@ == "allocation failed because arena is full"@,
    {
        "allocation failed because arena is full".to_owned()
    }
}

/// Why a map operation failed.
#[derive(Debug, Clone, Copy, PartialEq, Eq, Structural)]
pub enum Error {
    /// The arena is full.
    Arena(ArenaError),
    /// The key is longer than the map accepts.
    KeyTooLarge { size: u64, max: u64 },
    /// The value is longer than the map accepts.
    ValueTooLarge { size: u64, max: u64 },
    /// The map was opened read-only.
    ReadOnly,
    /// The bytes are not the persisted form of a map.
    Corrupt,
}

} // verus!
