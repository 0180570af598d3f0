//! Content hashing of blocks.
//!
//! Blocks are keyed in storage by a collision-resistant digest of their
//! bytes; the digest itself is computed by an outside crate and is only
//! named here, never restated.

use vstd::prelude::*;
use crate::BlockHash;

verus! {

/// The content hash of a byte string. The digest is a pure function of the
/// bytes alone; nothing more is assumed of it.
pub uninterp spec fn hash_of(b: Seq<u8>) -> BlockHash;

/// Relies on sha2::Sha256::digest: a pure digest whose output depends on the
/// input bytes alone, 32 bytes long.
#[verifier::external_body]
fn sha256(data: &[u8]) -> (r: BlockHash)
    ensures
        r == hash_of(data@),
{
    let digest = <sha2::Sha256 as sha2::Digest>::digest(data);
    let mut out = [0u8; 32];
    out.copy_from_slice(&digest);
    out
}

/// Content hash of a byte string, as used to key the block store.
pub fn hash_bytes(data: &[u8]) -> (r: BlockHash)
    ensures
        r == hash_of(data@),
{
    sha256(data)
}

} // verus!
