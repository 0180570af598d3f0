//! Older on-disk record shapes kept for table round-trips.

use vstd::prelude::*;
use crate::Uuid;
use crate::BlockHash;

verus! {

/// A split point of a bucket's key range.
#[derive(Debug)]
pub struct SplitpointMeta {
    pub bucket: String,
    pub key: String,
    pub timestamp: u64,
    pub uuid: Uuid,
    pub deleted: bool,
}

/// Metadata of one object version, in the flat shape tables store.
#[derive(Debug)]
pub struct VersionMeta {
    pub bucket: String,
    pub key: String,
    pub timestamp: u64,
    pub uuid: Uuid,
    pub deleted: bool,
    pub mime_type: String,
    pub size: u64,
    pub is_complete: bool,
    pub data: VersionData,
}

/// Where a flat version's content lives: inline bytes, or the hash of its
/// first block.
#[derive(Debug)]
pub enum VersionData {
    Inline(Vec<u8>),
    FirstBlock(BlockHash),
}

/// One block of a version, in the flat shape.
#[derive(Debug)]
pub struct BlockMeta {
    pub version_uuid: Uuid,
    pub offset: u64,
    pub hash: BlockHash,
}

/// Reverse index from a block to the versions that reference it.
#[derive(Debug)]
pub struct BlockReverseMeta {
    pub versions: Vec<Uuid>,
    pub deleted_versions: Vec<Uuid>,
}

} // verus!
