pub mod chunker;
pub mod codec;
pub mod data;
pub mod hashing;
pub mod model;
pub mod put;
pub mod store;
pub mod strlex;
pub mod sub;
pub mod version;

use vstd::prelude::*;

verus! {

/// A 32-byte opaque identifier for an object version.
pub type Uuid = [u8; 32];

/// A 32-byte content hash of a block of data.
pub type BlockHash = [u8; 32];

/// Build-time configuration of the write path.
pub struct Config {
    /// Size of each content-addressed block, in bytes (the last block of a
    /// body may be shorter).
    pub block_size: usize,
    /// Bodies strictly smaller than this are stored inline in the object
    /// version record instead of going through block storage.
    pub inline_threshold: usize,
}

impl Config {
    /// A usable configuration: blocks are non-empty, and anything small
    /// enough to be inlined fits in a single block.
    pub open spec fn wf(&self) -> bool {
        1 <= self.block_size && self.inline_threshold <= self.block_size
    }
}

/// Errors surfaced by the write path.
pub enum Error {
    /// The request itself is invalid; carries a short message.
    BadRequest(String),
}

impl Error {
    /// The message carried by this error.
    pub fn message(&self) -> (r: &String)
        ensures
            self matches Error::BadRequest(m) && r == m,
    {
        match self {
            Error::BadRequest(m) => m,
        }
    }
}

} // verus!
