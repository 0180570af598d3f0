//! The object write path: simple upload, multipart upload, delete marker.
//!
//! Handlers work against one node's `Store`. What the surrounding process
//! supplies — the request body as bytes, a fresh uuid, the clock — comes in
//! as plain arguments, so every decision in here is checked.

use vstd::prelude::*;
use crate::{BlockHash, Config, Error, Uuid};
use crate::chunker::{BodyChunker, chunk_head, chunk_tail, chunks_of, lemma_chunks_round_trip};
use crate::hashing::{hash_bytes, hash_of};
use crate::model::{Object, ObjectVersion, ObjectVersionData, ObjectVersionState, VersionDataModel,
    add_version, add_versions, data_model, find_version, lemma_find_after_add, pending,
    ts_bounded};
use crate::store::{Store, find_object, find_record, find_ref, find_stored};
use crate::version::{BlockRef, Version, VersionBlock, block_key_lt, blocks_sorted, insert_block,
    insert_blocks, lemma_insert_blocks_all_greater, lemma_part_blocks_batch, part_blocks,
    sum_block_sizes};

verus! {

/// The block metadata a body's chunks give rise to: one entry per chunk,
/// offsets contiguous from `start`, each keyed by the hash of its chunk.
pub open spec fn blocks_from(chunks: Seq<Seq<u8>>, part: u64, start: int) -> Seq<VersionBlock>
    decreases chunks.len(),
{
    if chunks.len() == 0 {
        Seq::empty()
    } else {
        seq![
            VersionBlock {
                part_number: part,
                offset: start as u64,
                hash: hash_of(chunks[0]),
                size: chunks[0].len() as u64,
            },
        ] + blocks_from(chunks.skip(1), part, start + chunks[0].len())
    }
}

/// Part ordering, within one part: the blocks of one part's chunks are
/// strictly sorted by offset, contiguous from `start`, and carry the hash
/// and size of their own chunk.
pub proof fn lemma_blocks_from_layout(chunks: Seq<Seq<u8>>, part: u64, start: int)
    requires
        0 <= start,
        forall|i: int| 0 <= i < chunks.len() ==> 1 <= (#[trigger] chunks[i]).len(),
        start + total_len(chunks) <= u64::MAX,
    ensures
        blocks_from(chunks, part, start).len() == chunks.len(),
        forall|i: int|
            0 <= i < chunks.len() ==> {
                let b = #[trigger] blocks_from(chunks, part, start)[i];
                b.part_number == part && b.hash == hash_of(chunks[i]) && b.size == chunks[i].len()
                    && start <= b.offset
            },
        chunks.len() > 0 ==> blocks_from(chunks, part, start)[0].offset == start,
        forall|i: int|
            0 <= i < chunks.len() - 1 ==> (#[trigger] blocks_from(chunks, part, start)[i + 1]).offset
                == blocks_from(chunks, part, start)[i].offset + blocks_from(chunks, part, start)[i].size,
        blocks_sorted(blocks_from(chunks, part, start)),
    decreases chunks.len(),
{
    if chunks.len() > 0 {
        assert(total_len(chunks) == chunks[0].len() + total_len(chunks.skip(1)));
        lemma_total_len_nonneg(chunks.skip(1));
        lemma_blocks_from_layout(chunks.skip(1), part, start + chunks[0].len() as int);
        let bs = blocks_from(chunks, part, start);
        let rec = blocks_from(chunks.skip(1), part, start + chunks[0].len() as int);
        assert(bs.len() == 1 + rec.len());
        assert(forall|i: int| 0 <= i < rec.len() ==> bs[i + 1] == rec[i]);
        assert(forall|i: int| 0 <= i < rec.len() ==> chunks.skip(1)[i] == chunks[i + 1]);
        assert forall|x: int, y: int| 0 <= x < y < bs.len() implies block_key_lt(bs[x], bs[y]) by {
            if x == 0 {
                assert(bs[y] == rec[y - 1]);
                assert(start + chunks[0].len() <= rec[y - 1].offset);
            } else {
                assert(block_key_lt(rec[x - 1], rec[y - 1]));
            }
        }
    }
}

/// Total bytes over a list of chunks.
pub open spec fn total_len(chunks: Seq<Seq<u8>>) -> int
    decreases chunks.len(),
{
    if chunks.len() == 0 {
        0
    } else {
        chunks[0].len() + total_len(chunks.skip(1))
    }
}

/// Chunks never cover a negative number of bytes.
pub proof fn lemma_total_len_nonneg(chunks: Seq<Seq<u8>>)
    ensures
        total_len(chunks) >= 0,
    decreases chunks.len(),
{
    if chunks.len() > 0 {
        lemma_total_len_nonneg(chunks.skip(1));
    }
}

/// Part ordering across a multipart upload: merging one part's blocks into
/// a sorted record that holds nothing for that part yet lays the part out
/// exactly as its chunks — one block per chunk, offsets contiguous from
/// zero (see `lemma_blocks_from_layout`) — and leaves every other part's
/// blocks untouched. The record stays strictly sorted, so ascending
/// `(part_number, offset)` is the stored order itself.
pub proof fn lemma_multipart_part_layout(s: Seq<VersionBlock>, chunks: Seq<Seq<u8>>, p: u64)
    requires
        blocks_sorted(s),
        part_blocks(s, p).len() == 0,
        forall|i: int| 0 <= i < chunks.len() ==> 1 <= (#[trigger] chunks[i]).len(),
        total_len(chunks) <= u64::MAX,
    ensures
        part_blocks(insert_blocks(s, blocks_from(chunks, p, 0)), p) == blocks_from(chunks, p, 0),
        forall|q: u64|
            q != p ==> #[trigger] part_blocks(insert_blocks(s, blocks_from(chunks, p, 0)), q)
                == part_blocks(s, q),
        blocks_sorted(insert_blocks(s, blocks_from(chunks, p, 0))),
{
    let bs = blocks_from(chunks, p, 0);
    lemma_blocks_from_layout(chunks, p, 0);
    assert(forall|i: int| 0 <= i < bs.len() ==> (#[trigger] bs[i]).part_number == p);
    lemma_part_blocks_batch(s, bs, p);
    assert(part_blocks(s, p) =~= Seq::<VersionBlock>::empty());
    lemma_insert_blocks_all_greater(Seq::<VersionBlock>::empty(), bs);
    assert(Seq::<VersionBlock>::empty() + bs =~= bs);
}

/// Whether `h` is the content hash of one of these chunks.
pub open spec fn is_chunk_hash(chunks: Seq<Seq<u8>>, h: Seq<u8>) -> bool {
    exists|i: int| 0 <= i < chunks.len() && h == hash_of(#[trigger] chunks[i])@
}

/// Write the metadata of one block: a single-block `Version` record merged
/// into the version table, and a reference row from the block's hash back
/// to the version.
pub fn put_block_meta(
    store: &mut Store,
    version: &Version,
    part_number: u64,
    offset: u64,
    h: BlockHash,
    size: u64,
)
    requires
        old(store).wf(),
        version.spec_blocks().len() == 0,
        !version.deleted,
    ensures
        final(store).wf(),
        ({
            let vb = VersionBlock { part_number, offset, hash: h, size };
            match find_record(old(store).spec_versions(), version.uuid@) {
                Some(pv) => find_record(final(store).spec_versions(), version.uuid@)
                    matches Some(v2) && v2.uuid == pv.uuid && v2.bucket == pv.bucket && v2.key
                    == pv.key && v2.deleted == pv.deleted && v2.spec_blocks() == insert_block(
                    pv.spec_blocks(),
                    vb,
                ),
                None => find_record(final(store).spec_versions(), version.uuid@) matches Some(v2)
                    && v2.uuid@ == version.uuid@ && v2.bucket@ == version.bucket@ && v2.key@
                    == version.key@ && v2.deleted == version.deleted && v2.spec_blocks() == seq![vb],
            }
        }),
        forall|u2: Seq<u8>|
            u2 != version.uuid@ ==> #[trigger] find_record(final(store).spec_versions(), u2)
                == find_record(old(store).spec_versions(), u2),
        find_ref(final(store).spec_block_refs(), h@, version.uuid@) is Some,
        find_ref(old(store).spec_block_refs(), h@, version.uuid@) is Some ==> find_ref(
            final(store).spec_block_refs(),
            h@,
            version.uuid@,
        ) == find_ref(old(store).spec_block_refs(), h@, version.uuid@),
        find_ref(old(store).spec_block_refs(), h@, version.uuid@) is None ==> find_ref(
            final(store).spec_block_refs(),
            h@,
            version.uuid@,
        ) == Some(BlockRef { block: h, version: version.uuid, deleted: false }),
        forall|h2: Seq<u8>, u2: Seq<u8>|
            !(h2 == h@ && u2 == version.uuid@) ==> #[trigger] find_ref(
                final(store).spec_block_refs(),
                h2,
                u2,
            ) == find_ref(old(store).spec_block_refs(), h2, u2),
        final(store).spec_objects() == old(store).spec_objects(),
        final(store).spec_blocks() == old(store).spec_blocks(),
    {
        let vb = VersionBlock { part_number, offset, hash: h, size };
        let mut bv: Vec<VersionBlock> = Vec::new();
        bv.push(vb);
        assert(bv@ =~= seq![vb]);
        let single = Version::new(
            version.uuid,
            version.bucket.clone(),
            version.key.clone(),
            version.deleted,
            bv,
        );
        proof {
            assert(seq![vb].skip(1) =~= Seq::<VersionBlock>::empty());
            assert(seq![vb][0] == vb);
            match find_record(store.spec_versions(), version.uuid@) {
                Some(pv) => {
                    assert(insert_blocks(pv.spec_blocks(), seq![vb]) == insert_blocks(
                        insert_block(pv.spec_blocks(), vb),
                        seq![vb].skip(1),
                    ));
                    assert(insert_blocks(insert_block(pv.spec_blocks(), vb), Seq::<
                        VersionBlock,
                    >::empty()) == insert_block(pv.spec_blocks(), vb));
                },
                None => {},
            }
        }
        store.version_insert(single);
        let block_ref = BlockRef { block: h, version: version.uuid, deleted: false };
        store.block_ref_insert(block_ref);
    }

/// Persist the first block and every further block the chunker yields:
/// block data into the content store, block metadata into the version and
/// reference tables. Returns the total bytes persisted.
pub fn read_and_put_blocks(
    store: &mut Store,
    version: &Version,
    part_number: u64,
    first_block: Vec<u8>,
    first_block_hash: BlockHash,
    chunker: &mut BodyChunker,
) -> (total: u64)
    requires
        old(store).wf(),
        old(chunker).wf(),
        version.spec_blocks().len() == 0,
        !version.deleted,
        first_block_hash == hash_of(first_block@),
        1 <= first_block@.len(),
        first_block@.len() + old(chunker).remaining().len() <= u64::MAX,
        first_block@.len() + old(chunker).remaining().len() <= usize::MAX,
    ensures
        final(store).wf(),
        final(chunker).remaining().len() == 0,
        total == first_block@.len() + old(chunker).remaining().len(),
        ({
            let chunks = seq![first_block@] + chunks_of(
                old(chunker).remaining(),
                old(chunker).spec_block_size(),
            );
            let bs = blocks_from(chunks, part_number, 0);
            &&& match find_record(old(store).spec_versions(), version.uuid@) {
                Some(pv) => find_record(final(store).spec_versions(), version.uuid@)
                    matches Some(v2) && v2.uuid == pv.uuid && v2.bucket == pv.bucket && v2.key
                    == pv.key && v2.deleted == pv.deleted && v2.spec_blocks() == insert_blocks(
                    pv.spec_blocks(),
                    bs,
                ),
                None => find_record(final(store).spec_versions(), version.uuid@) matches Some(v2)
                    && v2.uuid@ == version.uuid@ && v2.bucket@ == version.bucket@ && v2.key@
                    == version.key@ && v2.deleted == version.deleted && v2.spec_blocks()
                    == insert_blocks(Seq::empty(), bs),
            }
            &&& forall|i: int|
                0 <= i < chunks.len() ==> match find_ref(
                    old(store).spec_block_refs(),
                    hash_of(#[trigger] chunks[i])@,
                    version.uuid@,
                ) {
                    Some(x) => find_ref(
                        final(store).spec_block_refs(),
                        hash_of(chunks[i])@,
                        version.uuid@,
                    ) == Some(x),
                    None => find_ref(
                        final(store).spec_block_refs(),
                        hash_of(chunks[i])@,
                        version.uuid@,
                    ) matches Some(x) && x.block@ == hash_of(chunks[i])@ && x.version@
                        == version.uuid@ && !x.deleted,
                }
            &&& forall|i: int|
                0 <= i < chunks.len() ==> #[trigger] find_stored(
                    final(store).spec_blocks(),
                    hash_of(chunks[i])@,
                ) is Some
            &&& forall|h2: Seq<u8>, u2: Seq<u8>|
                !(u2 == version.uuid@ && is_chunk_hash(chunks, h2)) ==> #[trigger] find_ref(
                    final(store).spec_block_refs(),
                    h2,
                    u2,
                ) == find_ref(old(store).spec_block_refs(), h2, u2)
            &&& forall|h2: Seq<u8>|
                !is_chunk_hash(chunks, h2) ==> #[trigger] find_stored(
                    final(store).spec_blocks(),
                    h2,
                ) == find_stored(old(store).spec_blocks(), h2)
        }),
        forall|u2: Seq<u8>|
            u2 != version.uuid@ ==> #[trigger] find_record(final(store).spec_versions(), u2)
                == find_record(old(store).spec_versions(), u2),
        forall|h2: Seq<u8>, u2: Seq<u8>|
            find_ref(old(store).spec_block_refs(), h2, u2) is Some ==> #[trigger] find_ref(
                final(store).spec_block_refs(),
                h2,
                u2,
            ) == find_ref(old(store).spec_block_refs(), h2, u2),
        forall|h2: Seq<u8>|
            find_stored(old(store).spec_blocks(), h2) is Some ==> #[trigger] find_stored(
                final(store).spec_blocks(),
                h2,
            ) == find_stored(old(store).spec_blocks(), h2),
        final(store).spec_objects() == old(store).spec_objects(),
{
    let ghost k = old(chunker).spec_block_size();
    let ghost orig_rem = old(chunker).remaining();
    let ghost chunks = seq![first_block@] + chunks_of(orig_rem, k);
    let ghost u = version.uuid@;
    let ghost prior = find_record(old(store).spec_versions(), u);
    let ghost prior_blocks = match prior {
        Some(pv) => pv.spec_blocks(),
        None => Seq::<VersionBlock>::empty(),
    };
    let ghost target = insert_blocks(prior_blocks, blocks_from(chunks, part_number, 0));
    let ghost body_len = first_block@.len() + orig_rem.len();

    let mut next_offset: usize = first_block.len();
    let ghost vb0 = VersionBlock {
        part_number,
        offset: 0,
        hash: first_block_hash,
        size: first_block@.len() as u64,
    };
    proof {
        assert(chunks[0] == first_block@);
        assert(chunks.skip(1) =~= chunks_of(orig_rem, k));
        assert(blocks_from(chunks, part_number, 0) == seq![vb0] + blocks_from(
            chunks.skip(1),
            part_number,
            first_block@.len() as int,
        ));
        assert((seq![vb0] + blocks_from(chunks.skip(1), part_number, first_block@.len() as int))[0]
            == vb0);
        assert((seq![vb0] + blocks_from(chunks.skip(1), part_number, first_block@.len() as int))
            .skip(1) =~= blocks_from(chunks.skip(1), part_number, first_block@.len() as int));
    }
    put_block_meta(store, version, part_number, 0, first_block_hash, first_block.len() as u64);
    store.block_put(first_block_hash, first_block);
    proof {
        assert(chunks.take(1).len() == 1);
        assert(chunks.take(1)[0] == chunks[0]);
    }
    let ghost mut done: int = 1;
    loop
        invariant
            1 <= done <= chunks.len(),
            store.wf(),
            chunker.wf(),
            chunker.spec_block_size() == k,
            u == version.uuid@,
            version.spec_blocks().len() == 0,
            !version.deleted,
            chunks[0] == first_block@,
            chunks.skip(done) =~= chunks_of(chunker.remaining(), k),
            chunker.remaining().len() <= orig_rem.len(),
            next_offset as int == body_len - chunker.remaining().len(),
            body_len <= u64::MAX,
            body_len <= usize::MAX,
            find_record(store.spec_versions(), u) matches Some(v2) && (match prior {
                Some(pv) => v2.uuid == pv.uuid && v2.bucket == pv.bucket && v2.key == pv.key
                    && v2.deleted == pv.deleted,
                None => v2.uuid@ == version.uuid@ && v2.bucket@ == version.bucket@ && v2.key@
                    == version.key@ && v2.deleted == version.deleted,
            }) && insert_blocks(
                v2.spec_blocks(),
                blocks_from(chunks.skip(done), part_number, next_offset as int),
            ) == target,
            forall|i: int|
                0 <= i < done ==> match find_ref(
                    old(store).spec_block_refs(),
                    hash_of(#[trigger] chunks[i])@,
                    u,
                ) {
                    Some(x) => find_ref(store.spec_block_refs(), hash_of(chunks[i])@, u) == Some(
                        x,
                    ),
                    None => find_ref(store.spec_block_refs(), hash_of(chunks[i])@, u)
                        matches Some(x) && x.block@ == hash_of(chunks[i])@ && x.version@ == u
                        && !x.deleted,
                },
            forall|i: int|
                0 <= i < done ==> #[trigger] find_stored(
                    store.spec_blocks(),
                    hash_of(chunks[i])@,
                ) is Some,
            forall|h2: Seq<u8>, u2: Seq<u8>|
                !(u2 == u && is_chunk_hash(chunks.take(done), h2)) ==> #[trigger] find_ref(
                    store.spec_block_refs(),
                    h2,
                    u2,
                ) == find_ref(old(store).spec_block_refs(), h2, u2),
            forall|h2: Seq<u8>|
                !is_chunk_hash(chunks.take(done), h2) ==> #[trigger] find_stored(
                    store.spec_blocks(),
                    h2,
                ) == find_stored(old(store).spec_blocks(), h2),
            forall|u2: Seq<u8>|
                u2 != u ==> #[trigger] find_record(store.spec_versions(), u2) == find_record(
                    old(store).spec_versions(),
                    u2,
                ),
            forall|h2: Seq<u8>, u2: Seq<u8>|
                find_ref(old(store).spec_block_refs(), h2, u2) is Some ==> #[trigger] find_ref(
                    store.spec_block_refs(),
                    h2,
                    u2,
                ) == find_ref(old(store).spec_block_refs(), h2, u2),
            forall|h2: Seq<u8>|
                find_stored(old(store).spec_blocks(), h2) is Some ==> #[trigger] find_stored(
                    store.spec_blocks(),
                    h2,
                ) == find_stored(old(store).spec_blocks(), h2),
            store.spec_objects() == old(store).spec_objects(),
        ensures
            store.wf(),
            chunker.wf(),
            chunker.remaining().len() == 0,
            next_offset as int == body_len,
            find_record(store.spec_versions(), u) matches Some(v2) && (match prior {
                Some(pv) => v2.uuid == pv.uuid && v2.bucket == pv.bucket && v2.key == pv.key
                    && v2.deleted == pv.deleted,
                None => v2.uuid@ == version.uuid@ && v2.bucket@ == version.bucket@ && v2.key@
                    == version.key@ && v2.deleted == version.deleted,
            }) && v2.spec_blocks() == target,
            forall|i: int|
                0 <= i < chunks.len() ==> match find_ref(
                    old(store).spec_block_refs(),
                    hash_of(#[trigger] chunks[i])@,
                    u,
                ) {
                    Some(x) => find_ref(store.spec_block_refs(), hash_of(chunks[i])@, u) == Some(
                        x,
                    ),
                    None => find_ref(store.spec_block_refs(), hash_of(chunks[i])@, u)
                        matches Some(x) && x.block@ == hash_of(chunks[i])@ && x.version@ == u
                        && !x.deleted,
                },
            forall|i: int|
                0 <= i < chunks.len() ==> #[trigger] find_stored(
                    store.spec_blocks(),
                    hash_of(chunks[i])@,
                ) is Some,
            forall|h2: Seq<u8>, u2: Seq<u8>|
                !(u2 == u && is_chunk_hash(chunks, h2)) ==> #[trigger] find_ref(
                    store.spec_block_refs(),
                    h2,
                    u2,
                ) == find_ref(old(store).spec_block_refs(), h2, u2),
            forall|h2: Seq<u8>|
                !is_chunk_hash(chunks, h2) ==> #[trigger] find_stored(
                    store.spec_blocks(),
                    h2,
                ) == find_stored(old(store).spec_blocks(), h2),
            forall|u2: Seq<u8>|
                u2 != u ==> #[trigger] find_record(store.spec_versions(), u2) == find_record(
                    old(store).spec_versions(),
                    u2,
                ),
            forall|h2: Seq<u8>, u2: Seq<u8>|
                find_ref(old(store).spec_block_refs(), h2, u2) is Some ==> #[trigger] find_ref(
                    store.spec_block_refs(),
                    h2,
                    u2,
                ) == find_ref(old(store).spec_block_refs(), h2, u2),
            forall|h2: Seq<u8>|
                find_stored(old(store).spec_blocks(), h2) is Some ==> #[trigger] find_stored(
                    store.spec_blocks(),
                    h2,
                ) == find_stored(old(store).spec_blocks(), h2),
            store.spec_objects() == old(store).spec_objects(),
        decreases chunker.remaining().len(),
    {
        let next_block = chunker.next();
        match next_block {
            Some(block) => {
                proof {
                    assert(chunks.skip(done).len() > 0);
                    assert(chunks.skip(done)[0] == block@);
                    assert(chunks[done] == block@);
                    assert(chunks.skip(done).skip(1) =~= chunks.skip(done + 1));
                }
                let block_hash = hash_bytes(block.as_slice());
                let block_len = block.len();
                let ghost nb = VersionBlock {
                    part_number,
                    offset: next_offset as u64,
                    hash: block_hash,
                    size: block_len as u64,
                };
                proof {
                    let rest = blocks_from(chunks.skip(done), part_number, next_offset as int);
                    assert(rest == seq![nb] + blocks_from(
                        chunks.skip(done + 1),
                        part_number,
                        next_offset + block_len,
                    ));
                    assert(rest[0] == nb);
                    assert(rest.skip(1) =~= blocks_from(
                        chunks.skip(done + 1),
                        part_number,
                        next_offset + block_len,
                    ));
                }
                put_block_meta(
                    store,
                    version,
                    part_number,
                    next_offset as u64,
                    block_hash,
                    block_len as u64,
                );
                store.block_put(block_hash, block);
                next_offset = next_offset + block_len;
                proof {
                    assert(forall|i: int|
                        0 <= i < done + 1 ==> chunks.take(done + 1)[i] == chunks[i]);
                    assert(forall|i: int| 0 <= i < done ==> chunks.take(done)[i] == chunks[i]);
                    done = done + 1;
                }
            },
            None => {
                proof {
                    assert(chunks.skip(done).len() == 0);
                    assert(done == chunks.len());
                    assert(blocks_from(chunks.skip(done), part_number, next_offset as int)
                        =~= Seq::<VersionBlock>::empty());
                    let v2 = find_record(store.spec_versions(), u)->Some_0;
                    assert(insert_blocks(v2.spec_blocks(), Seq::<VersionBlock>::empty())
                        == v2.spec_blocks());
                    assert(v2.spec_blocks() == target);
                    assert(chunks.take(done) =~= chunks);
                }
                break ;
            },
        }
    }
    proof {
        assert(chunker.remaining().len() == 0);
    }
    next_offset as u64
}

/// Chunks cover exactly the bytes they concatenate to.
pub proof fn lemma_total_len_concat(chunks: Seq<Seq<u8>>)
    ensures
        total_len(chunks) == crate::chunker::concat_bytes(chunks).len(),
    decreases chunks.len(),
{
    if chunks.len() > 0 {
        lemma_total_len_concat(chunks.skip(1));
    }
}

/// Simple upload: split the body into blocks, store them, and commit one
/// new `Complete` version under the key.
///
/// A body below the inline threshold is committed in a single insert with
/// its bytes inline, and no block, version or reference rows are written.
/// A larger body first publishes an `Uploading` placeholder pointing at the
/// first block's hash, then persists every block, then commits the same
/// version as `Complete` with the total size.
pub fn handle_put(
    store: &mut Store,
    cfg: &Config,
    bucket: &str,
    key: &str,
    mime_type: String,
    body: Vec<u8>,
    version_uuid: Uuid,
    now: u64,
) -> (r: Result<Uuid, Error>)
    requires
        old(store).wf(),
        cfg.wf(),
        now < u64::MAX,
        body@.len() <= u64::MAX,
        body@.len() <= usize::MAX,
        find_record(old(store).spec_versions(), version_uuid@) is None,
        match find_object(old(store).spec_objects(), bucket@, key@) {
            Some(o) => find_version(o.versions@, version_uuid@) is None,
            None => true,
        },
    ensures
        final(store).wf(),
        body@.len() == 0 ==> (r matches Err(e) && (e matches Error::BadRequest(m) && m@
            == "Empty body"@) && *final(store) == *old(store)),
        body@.len() > 0 ==> (r matches Ok(u) && u == version_uuid),
        body@.len() > 0 ==> ({
            let prior_vs = match find_object(old(store).spec_objects(), bucket@, key@) {
                Some(o) => o.versions@,
                None => Seq::<ObjectVersion>::empty(),
            };
            &&& find_object(final(store).spec_objects(), bucket@, key@) matches Some(o2)
                && o2.bucket@ == bucket@ && o2.key@ == key@ && (find_version(
                o2.versions@,
                version_uuid@,
            ) matches Some(v) && v.uuid@ == version_uuid@ && v.timestamp == now && v.mime_type@
                == mime_type@ && v.size == body@.len() && v.state is Complete && data_model(v.data)
                == (if body@.len() < cfg.inline_threshold {
                VersionDataModel::Inline(body@)
            } else {
                VersionDataModel::FirstBlock(
                    hash_of(chunks_of(body@, cfg.block_size as nat)[0]),
                )
            })) && (forall|u2: Seq<u8>|
                u2 != version_uuid@ ==> #[trigger] find_version(o2.versions@, u2) == find_version(
                    prior_vs,
                    u2,
                ))
        }),
        forall|b2: Seq<char>, k2: Seq<char>|
            !(b2 == bucket@ && k2 == key@) ==> #[trigger] find_object(
                final(store).spec_objects(),
                b2,
                k2,
            ) == find_object(old(store).spec_objects(), b2, k2),
        body@.len() > 0 && body@.len() < cfg.inline_threshold ==> final(store).spec_versions()
            == old(store).spec_versions() && final(store).spec_block_refs() == old(
            store,
        ).spec_block_refs() && final(store).spec_blocks() == old(store).spec_blocks(),
        body@.len() >= cfg.inline_threshold && body@.len() > 0 ==> ({
            let chunks = chunks_of(body@, cfg.block_size as nat);
            &&& find_record(final(store).spec_versions(), version_uuid@) matches Some(vr)
                && vr.bucket@ == bucket@ && vr.key@ == key@ && !vr.deleted && vr.spec_blocks()
                == blocks_from(chunks, 1, 0)
            &&& forall|i: int|
                0 <= i < chunks.len() ==> match find_ref(
                    old(store).spec_block_refs(),
                    hash_of(#[trigger] chunks[i])@,
                    version_uuid@,
                ) {
                    Some(x) => find_ref(
                        final(store).spec_block_refs(),
                        hash_of(chunks[i])@,
                        version_uuid@,
                    ) == Some(x),
                    None => find_ref(
                        final(store).spec_block_refs(),
                        hash_of(chunks[i])@,
                        version_uuid@,
                    ) matches Some(x) && x.block@ == hash_of(chunks[i])@ && x.version@
                        == version_uuid@ && !x.deleted,
                }
            &&& forall|i: int|
                0 <= i < chunks.len() ==> #[trigger] find_stored(
                    final(store).spec_blocks(),
                    hash_of(chunks[i])@,
                ) is Some
            &&& forall|h2: Seq<u8>, u2: Seq<u8>|
                !(u2 == version_uuid@ && is_chunk_hash(chunks, h2)) ==> #[trigger] find_ref(
                    final(store).spec_block_refs(),
                    h2,
                    u2,
                ) == find_ref(old(store).spec_block_refs(), h2, u2)
            &&& forall|h2: Seq<u8>|
                !is_chunk_hash(chunks, h2) ==> #[trigger] find_stored(
                    final(store).spec_blocks(),
                    h2,
                ) == find_stored(old(store).spec_blocks(), h2)
            &&& forall|u2: Seq<u8>|
                u2 != version_uuid@ ==> #[trigger] find_record(final(store).spec_versions(), u2)
                    == find_record(old(store).spec_versions(), u2)
        }),
{
    let ghost k = cfg.block_size as nat;
    let ghost prior_obj = find_object(old(store).spec_objects(), bucket@, key@);
    let ghost prior_vs = match prior_obj {
        Some(o) => o.versions@,
        None => Seq::<ObjectVersion>::empty(),
    };
    let mut chunker = BodyChunker::new(body, cfg.block_size);
    let first_block = match chunker.next() {
        None => {
            return Err(Error::BadRequest("Empty body".to_owned()));
        },
        Some(x) => x,
    };
    proof {
        lemma_chunks_round_trip(body@, k);
        assert(chunks_of(body@, k)[0] == chunk_head(body@, k));
        assert(chunks_of(body@, k).skip(1) =~= chunks_of(chunk_tail(body@, k), k));
        if prior_obj is Some {
            crate::store::lemma_find_object_found(old(store).spec_objects(), bucket@, key@);
        }
    }
    if first_block.len() < cfg.inline_threshold {
        proof {
            assert(body@.len() == first_block@.len());
        }
        let size = first_block.len() as u64;
        let ov = ObjectVersion {
            uuid: version_uuid,
            timestamp: now,
            mime_type,
            size,
            state: ObjectVersionState::Complete,
            data: ObjectVersionData::Inline(first_block),
        };
        let ghost ovg = ov;
        let mut vl: Vec<ObjectVersion> = Vec::new();
        vl.push(ov);
        proof {
            assert(vl@ =~= seq![ovg]);
        }
        let obj = Object::new(bucket.to_owned(), key.to_owned(), vl);
        store.object_insert(obj);
        proof {
            assert(seq![ovg][0] == ovg);
            assert(seq![ovg].skip(1) =~= Seq::<ObjectVersion>::empty());
            assert(add_versions(prior_vs, seq![ovg]) == add_versions(
                add_version(prior_vs, ovg),
                seq![ovg].skip(1),
            ));
            assert(add_versions(add_version(prior_vs, ovg), Seq::<ObjectVersion>::empty())
                == add_version(prior_vs, ovg));
            lemma_find_after_add(prior_vs, ovg, version_uuid@);
            assert forall|u2: Seq<u8>| u2 != version_uuid@ implies #[trigger] find_version(
                add_version(prior_vs, ovg),
                u2,
            ) == find_version(prior_vs, u2) by {
                lemma_find_after_add(prior_vs, ovg, u2);
            }
        }
        return Ok(version_uuid);
    }
    let first_block_hash = hash_bytes(first_block.as_slice());
    let placeholder = ObjectVersion {
        uuid: version_uuid,
        timestamp: now,
        mime_type: mime_type.clone(),
        size: first_block.len() as u64,
        state: ObjectVersionState::Uploading,
        data: ObjectVersionData::FirstBlock(first_block_hash),
    };
    let ghost pg = placeholder;
    let mut vl: Vec<ObjectVersion> = Vec::new();
    vl.push(placeholder);
    proof {
        assert(vl@ =~= seq![pg]);
    }
    let obj = Object::new(bucket.to_owned(), key.to_owned(), vl);
    store.object_insert(obj);
    let ghost mid_vs = add_version(prior_vs, pg);
    proof {
        assert(seq![pg][0] == pg);
        assert(seq![pg].skip(1) =~= Seq::<ObjectVersion>::empty());
        assert(add_versions(prior_vs, seq![pg]) == add_versions(
            add_version(prior_vs, pg),
            seq![pg].skip(1),
        ));
        assert(add_versions(add_version(prior_vs, pg), Seq::<ObjectVersion>::empty())
            == add_version(prior_vs, pg));
    }
    let version = Version::new(version_uuid, bucket.to_owned(), key.to_owned(), false, Vec::new());
    let total_size = read_and_put_blocks(
        store,
        &version,
        1,
        first_block,
        first_block_hash,
        &mut chunker,
    );
    let commit = ObjectVersion {
        uuid: version_uuid,
        timestamp: now,
        mime_type,
        size: total_size,
        state: ObjectVersionState::Complete,
        data: ObjectVersionData::FirstBlock(first_block_hash),
    };
    let ghost cg = commit;
    let mut vl2: Vec<ObjectVersion> = Vec::new();
    vl2.push(commit);
    proof {
        assert(vl2@ =~= seq![cg]);
    }
    let obj2 = Object::new(bucket.to_owned(), key.to_owned(), vl2);
    store.object_insert(obj2);
    proof {
        assert(seq![cg][0] == cg);
        assert(seq![cg].skip(1) =~= Seq::<ObjectVersion>::empty());
        assert(add_versions(mid_vs, seq![cg]) == add_versions(
            add_version(mid_vs, cg),
            seq![cg].skip(1),
        ));
        assert(add_versions(add_version(mid_vs, cg), Seq::<ObjectVersion>::empty())
            == add_version(mid_vs, cg));
        lemma_find_after_add(prior_vs, pg, version_uuid@);
        lemma_find_after_add(mid_vs, cg, version_uuid@);
        assert forall|u2: Seq<u8>| u2 != version_uuid@ implies #[trigger] find_version(
            add_version(mid_vs, cg),
            u2,
        ) == find_version(prior_vs, u2) by {
            lemma_find_after_add(prior_vs, pg, u2);
            lemma_find_after_add(mid_vs, cg, u2);
        }
        let chunks = chunks_of(body@, k);
        lemma_total_len_concat(chunks);
        lemma_blocks_from_layout(chunks, 1, 0);
        lemma_insert_blocks_all_greater(Seq::<VersionBlock>::empty(), blocks_from(chunks, 1, 0));
    }
    Ok(version_uuid)
}

/// A well-formed part number: a positive decimal, with one optional
/// leading plus sign, whose value fits in a `u64`.
pub open spec fn valid_part_number(s: Seq<char>) -> bool {
    ({
        let d = crate::codec::dec_digits(s);
        d.len() > 0 && crate::codec::all_dec(d) && 1 <= crate::codec::dec_val(d)
            && crate::codec::dec_val(d) <= u64::MAX
    })
}

/// A well-formed upload id: 64 hex digits.
pub open spec fn valid_upload_id(s: Seq<char>) -> bool {
    s.len() == 64 && crate::codec::all_hex(s)
}

/// The uuid a well-formed upload id denotes.
pub open spec fn upload_uuid(s: Seq<char>) -> Seq<u8> {
    crate::codec::bytes_of_hex(s)
}

/// Whether an object holds a version under this uuid that still awaits
/// multipart data.
pub open spec fn has_pending(obj: Option<Object>, u: Seq<u8>) -> bool {
    match obj {
        Some(o) => match find_version(o.versions@, u) {
            Some(v) => pending(v),
            None => false,
        },
        None => false,
    }
}

/// Begin a multipart upload: record an `Uploading` placeholder version
/// under the key. The upload id handed to the client is the hex spelling
/// of the returned uuid.
pub fn handle_create_multipart_upload(
    store: &mut Store,
    bucket: &str,
    key: &str,
    mime_type: String,
    version_uuid: Uuid,
    now: u64,
) -> (r: Uuid)
    requires
        old(store).wf(),
        now < u64::MAX,
        match find_object(old(store).spec_objects(), bucket@, key@) {
            Some(o) => find_version(o.versions@, version_uuid@) is None,
            None => true,
        },
    ensures
        final(store).wf(),
        r == version_uuid,
        ({
            let prior_vs = match find_object(old(store).spec_objects(), bucket@, key@) {
                Some(o) => o.versions@,
                None => Seq::<ObjectVersion>::empty(),
            };
            &&& find_object(final(store).spec_objects(), bucket@, key@) matches Some(o2)
                && o2.bucket@ == bucket@ && o2.key@ == key@ && (find_version(
                o2.versions@,
                version_uuid@,
            ) matches Some(v) && v.uuid@ == version_uuid@ && v.timestamp == now && v.mime_type@
                == mime_type@ && v.size == 0 && pending(v)) && (forall|u2: Seq<u8>|
                u2 != version_uuid@ ==> #[trigger] find_version(o2.versions@, u2) == find_version(
                    prior_vs,
                    u2,
                ))
        }),
        forall|b2: Seq<char>, k2: Seq<char>|
            !(b2 == bucket@ && k2 == key@) ==> #[trigger] find_object(
                final(store).spec_objects(),
                b2,
                k2,
            ) == find_object(old(store).spec_objects(), b2, k2),
        final(store).spec_versions() == old(store).spec_versions(),
        final(store).spec_block_refs() == old(store).spec_block_refs(),
        final(store).spec_blocks() == old(store).spec_blocks(),
{
    let ghost prior_obj = find_object(old(store).spec_objects(), bucket@, key@);
    let ghost prior_vs = match prior_obj {
        Some(o) => o.versions@,
        None => Seq::<ObjectVersion>::empty(),
    };
    proof {
        if prior_obj is Some {
            crate::store::lemma_find_object_found(old(store).spec_objects(), bucket@, key@);
        }
    }
    let ov = ObjectVersion {
        uuid: version_uuid,
        timestamp: now,
        mime_type,
        size: 0,
        state: ObjectVersionState::Uploading,
        data: ObjectVersionData::Uploading,
    };
    let ghost ovg = ov;
    let mut vl: Vec<ObjectVersion> = Vec::new();
    vl.push(ov);
    proof {
        assert(vl@ =~= seq![ovg]);
    }
    let obj = Object::new(bucket.to_owned(), key.to_owned(), vl);
    store.object_insert(obj);
    proof {
        assert(seq![ovg][0] == ovg);
        assert(seq![ovg].skip(1) =~= Seq::<ObjectVersion>::empty());
        assert(add_versions(prior_vs, seq![ovg]) == add_versions(
            add_version(prior_vs, ovg),
            seq![ovg].skip(1),
        ));
        assert(add_versions(add_version(prior_vs, ovg), Seq::<ObjectVersion>::empty())
            == add_version(prior_vs, ovg));
        lemma_find_after_add(prior_vs, ovg, version_uuid@);
        assert forall|u2: Seq<u8>| u2 != version_uuid@ implies #[trigger] find_version(
            add_version(prior_vs, ovg),
            u2,
        ) == find_version(prior_vs, u2) by {
            lemma_find_after_add(prior_vs, ovg, u2);
        }
    }
    version_uuid
}

/// Upload one part of a multipart upload: the body's blocks are persisted
/// under the upload's version uuid with the given part number. The object
/// table is not touched; parts only add block metadata.
pub fn handle_put_part(
    store: &mut Store,
    cfg: &Config,
    bucket: &str,
    key: &str,
    part_number_str: &str,
    upload_id: &str,
    body: Vec<u8>,
) -> (r: Result<(), Error>)
    requires
        old(store).wf(),
        cfg.wf(),
        body@.len() <= u64::MAX,
        body@.len() <= usize::MAX,
    ensures
        final(store).wf(),
        ({
            let pn_ok = valid_part_number(part_number_str@);
            let id_ok = valid_upload_id(upload_id@);
            let u = upload_uuid(upload_id@);
            let obj = find_object(old(store).spec_objects(), bucket@, key@);
            let ok = pn_ok && id_ok && body@.len() > 0 && obj is Some && has_pending(obj, u);
            &&& !pn_ok ==> (r matches Err(e) && (e matches Error::BadRequest(m) && m@
                == "Invalid part number"@) && *final(store) == *old(store))
            &&& pn_ok && !id_ok ==> (r matches Err(e) && (e matches Error::BadRequest(m) && m@
                == "Invalid upload ID"@) && *final(store) == *old(store))
            &&& pn_ok && id_ok && body@.len() == 0 ==> (r matches Err(e) && (e
                matches Error::BadRequest(m) && m@ == "Empty body"@) && *final(store) == *old(
                store,
            ))
            &&& pn_ok && id_ok && body@.len() > 0 && obj is None ==> (r matches Err(e) && (e
                matches Error::BadRequest(m) && m@ == "Object not found"@) && *final(store)
                == *old(store))
            &&& pn_ok && id_ok && body@.len() > 0 && obj is Some && !has_pending(obj, u) ==> (r
                matches Err(e) && (e matches Error::BadRequest(m) && m@
                == "Multipart upload does not exist or is otherwise invalid"@) && *final(store)
                == *old(store))
            &&& ok ==> r is Ok
            &&& ok ==> ({
                let pn = crate::codec::dec_val(crate::codec::dec_digits(part_number_str@)) as u64;
                let chunks = chunks_of(body@, cfg.block_size as nat);
                let bs = blocks_from(chunks, pn, 0);
                &&& match find_record(old(store).spec_versions(), u) {
                    Some(pv) => find_record(final(store).spec_versions(), u) matches Some(v2)
                        && v2.uuid == pv.uuid && v2.bucket == pv.bucket && v2.key == pv.key
                        && v2.deleted == pv.deleted && v2.spec_blocks() == insert_blocks(
                        pv.spec_blocks(),
                        bs,
                    ),
                    None => find_record(final(store).spec_versions(), u) matches Some(v2)
                        && v2.uuid@ == u && v2.bucket@ == bucket@ && v2.key@ == key@
                        && !v2.deleted && v2.spec_blocks() == bs,
                }
                &&& forall|i: int|
                    0 <= i < chunks.len() ==> match find_ref(
                        old(store).spec_block_refs(),
                        hash_of(#[trigger] chunks[i])@,
                        u,
                    ) {
                        Some(x) => find_ref(
                            final(store).spec_block_refs(),
                            hash_of(chunks[i])@,
                            u,
                        ) == Some(x),
                        None => find_ref(
                            final(store).spec_block_refs(),
                            hash_of(chunks[i])@,
                            u,
                        ) matches Some(x) && x.block@ == hash_of(chunks[i])@ && x.version@ == u
                            && !x.deleted,
                    }
                &&& forall|i: int|
                    0 <= i < chunks.len() ==> #[trigger] find_stored(
                        final(store).spec_blocks(),
                        hash_of(chunks[i])@,
                    ) is Some
                &&& forall|h2: Seq<u8>, u2: Seq<u8>|
                    !(u2 == u && is_chunk_hash(chunks, h2)) ==> #[trigger] find_ref(
                        final(store).spec_block_refs(),
                        h2,
                        u2,
                    ) == find_ref(old(store).spec_block_refs(), h2, u2)
                &&& forall|h2: Seq<u8>|
                    !is_chunk_hash(chunks, h2) ==> #[trigger] find_stored(
                        final(store).spec_blocks(),
                        h2,
                    ) == find_stored(old(store).spec_blocks(), h2)
                &&& forall|u2: Seq<u8>|
                    u2 != u ==> #[trigger] find_record(final(store).spec_versions(), u2)
                        == find_record(old(store).spec_versions(), u2)
                &&& final(store).spec_objects() == old(store).spec_objects()
            })
        }),
{
    let part_number = match crate::codec::parse_u64(part_number_str) {
        None => {
            return Err(Error::BadRequest("Invalid part number".to_owned()));
        },
        Some(x) => x,
    };
    if part_number == 0 {
        return Err(Error::BadRequest("Invalid part number".to_owned()));
    }
    let version_uuid = match crate::codec::uuid_from_str(upload_id) {
        Err(_) => {
            return Err(Error::BadRequest("Invalid upload ID".to_owned()));
        },
        Ok(u) => u,
    };
    let ghost k = cfg.block_size as nat;
    let mut chunker = BodyChunker::new(body, cfg.block_size);
    let first_block = match chunker.next() {
        None => {
            return Err(Error::BadRequest("Empty body".to_owned()));
        },
        Some(x) => x,
    };
    let pending_found: bool = {
        match store.object_get(bucket, key) {
            None => {
                return Err(Error::BadRequest("Object not found".to_owned()));
            },
            Some(o) => match o.find_version_ref(&version_uuid) {
                Some(v) => crate::model::is_pending(v),
                None => false,
            },
        }
    };
    if !pending_found {
        return Err(
            Error::BadRequest("Multipart upload does not exist or is otherwise invalid".to_owned()),
        );
    }
    proof {
        lemma_chunks_round_trip(body@, k);
        assert(chunks_of(body@, k)[0] == chunk_head(body@, k));
        assert(chunks_of(body@, k).skip(1) =~= chunks_of(chunk_tail(body@, k), k));
    }
    let first_block_hash = hash_bytes(first_block.as_slice());
    let version = Version::new(version_uuid, bucket.to_owned(), key.to_owned(), false, Vec::new());
    let _total = read_and_put_blocks(
        store,
        &version,
        part_number,
        first_block,
        first_block_hash,
        &mut chunker,
    );
    proof {
        let chunks = chunks_of(body@, k);
        lemma_total_len_concat(chunks);
        lemma_blocks_from_layout(chunks, part_number, 0);
        lemma_insert_blocks_all_greater(
            Seq::<VersionBlock>::empty(),
            blocks_from(chunks, part_number, 0),
        );
    }
    Ok(())
}

/// Complete a multipart upload: total the recorded blocks and commit the
/// pending version as `Complete`, its content pointing at the first
/// block in `(part_number, offset)` order.
pub fn handle_complete_multipart_upload(
    store: &mut Store,
    bucket: &str,
    key: &str,
    upload_id: &str,
) -> (r: Result<(), Error>)
    requires
        old(store).wf(),
        valid_upload_id(upload_id@) ==> (match find_record(
            old(store).spec_versions(),
            upload_uuid(upload_id@),
        ) {
            Some(pv) => sum_block_sizes(pv.spec_blocks()) <= u64::MAX,
            None => true,
        }),
    ensures
        final(store).wf(),
        ({
            let id_ok = valid_upload_id(upload_id@);
            let u = upload_uuid(upload_id@);
            let obj = find_object(old(store).spec_objects(), bucket@, key@);
            let rec = find_record(old(store).spec_versions(), u);
            &&& !id_ok ==> (r matches Err(e) && (e matches Error::BadRequest(m) && m@
                == "Invalid upload ID"@) && *final(store) == *old(store))
            &&& id_ok && obj is None ==> (r matches Err(e) && (e matches Error::BadRequest(m)
                && m@ == "Object not found"@) && *final(store) == *old(store))
            &&& id_ok && obj is Some && !has_pending(obj, u) ==> (r matches Err(e) && (e
                matches Error::BadRequest(m) && m@
                == "Multipart upload does not exist or has already been completed"@) && *final(store) == *old(store))
            &&& id_ok && has_pending(obj, u) && rec is None ==> (r matches Err(e) && (e
                matches Error::BadRequest(m) && m@ == "Version not found"@) && *final(store)
                == *old(store))
            &&& id_ok && has_pending(obj, u) && (rec matches Some(vr) && vr.spec_blocks().len()
                == 0) ==> (r matches Err(e) && (e matches Error::BadRequest(m) && m@
                == "No data was uploaded"@) && *final(store) == *old(store))
            &&& id_ok && has_pending(obj, u) && (rec matches Some(vr) && vr.spec_blocks().len()
                > 0) ==> (r is Ok && ({
                let prior_vs = obj->Some_0.versions@;
                let pend_v = find_version(prior_vs, u)->Some_0;
                let vr = rec->Some_0;
                &&& find_object(final(store).spec_objects(), bucket@, key@) matches Some(o2)
                    && o2.bucket@ == bucket@ && o2.key@ == key@ && (find_version(o2.versions@, u)
                    matches Some(v) && v.uuid@ == u && v.timestamp == pend_v.timestamp
                    && v.mime_type@ == pend_v.mime_type@ && v.size == sum_block_sizes(
                    vr.spec_blocks(),
                ) && v.state is Complete && data_model(v.data) == VersionDataModel::FirstBlock(
                    vr.spec_blocks()[0].hash,
                )) && (forall|u2: Seq<u8>|
                    u2 != u ==> #[trigger] find_version(o2.versions@, u2) == find_version(
                        prior_vs,
                        u2,
                    ))
                &&& final(store).spec_versions() == old(store).spec_versions()
                &&& final(store).spec_block_refs() == old(store).spec_block_refs()
                &&& final(store).spec_blocks() == old(store).spec_blocks()
            }))
        }),
        forall|b2: Seq<char>, k2: Seq<char>|
            !(b2 == bucket@ && k2 == key@) ==> #[trigger] find_object(
                final(store).spec_objects(),
                b2,
                k2,
            ) == find_object(old(store).spec_objects(), b2, k2),
{
    let version_uuid = match crate::codec::uuid_from_str(upload_id) {
        Err(_) => {
            return Err(Error::BadRequest("Invalid upload ID".to_owned()));
        },
        Ok(u) => u,
    };
    let ghost prior_obj = find_object(old(store).spec_objects(), bucket@, key@);
    let pend_info: (u64, String) = {
        let o = match store.object_get(bucket, key) {
            None => {
                return Err(Error::BadRequest("Object not found".to_owned()));
            },
            Some(o) => o,
        };
        match o.find_version_ref(&version_uuid) {
            Some(v) => {
                if crate::model::is_pending(v) {
                    (v.timestamp, v.mime_type.clone())
                } else {
                    return Err(
                        Error::BadRequest(
                            "Multipart upload does not exist or has already been completed".to_owned(),
                        ),
                    );
                }
            },
            None => {
                return Err(
                    Error::BadRequest(
                        "Multipart upload does not exist or has already been completed".to_owned(),
                    ),
                );
            },
        }
    };
    let (total_size, first_hash): (u64, BlockHash) = {
        let vr = match store.version_get(&version_uuid) {
            None => {
                return Err(Error::BadRequest("Version not found".to_owned()));
            },
            Some(x) => x,
        };
        let blocks = vr.blocks();
        if blocks.len() == 0 {
            return Err(Error::BadRequest("No data was uploaded".to_owned()));
        }
        let ghost bseq = blocks@;
        let mut sum: u64 = 0;
        let mut i: usize = 0;
        proof {
            assert(bseq.take(0) =~= Seq::<VersionBlock>::empty());
        }
        while i < blocks.len()
            invariant
                i <= bseq.len(),
                blocks@ == bseq,
                sum == sum_block_sizes(bseq.take(i as int)),
                sum_block_sizes(bseq) <= u64::MAX,
            decreases bseq.len() - i,
        {
            proof {
                crate::version::lemma_sum_split(bseq, i + 1);
                crate::version::lemma_sum_nonneg(bseq.skip(i + 1));
                crate::version::lemma_sum_split(bseq.take(i + 1), i as int);
                assert(bseq.take(i + 1).take(i as int) =~= bseq.take(i as int));
                assert(bseq.take(i + 1).skip(i as int) =~= seq![bseq[i as int]]);
                assert(sum_block_sizes(Seq::<VersionBlock>::empty()) == 0);
                assert(seq![bseq[i as int]][0] == bseq[i as int]);
                assert(seq![bseq[i as int]].skip(1) =~= Seq::<VersionBlock>::empty());
                assert(sum_block_sizes(seq![bseq[i as int]]) == bseq[i as int].size + sum_block_sizes(
                    seq![bseq[i as int]].skip(1),
                ));
                assert(sum_block_sizes(seq![bseq[i as int]]) == bseq[i as int].size);
            }
            sum = sum + blocks[i].size;
            i += 1;
        }
        proof {
            assert(bseq.take(i as int) =~= bseq);
        }
        (sum, blocks[0].hash)
    };
    let commit = ObjectVersion {
        uuid: version_uuid,
        timestamp: pend_info.0,
        mime_type: pend_info.1,
        size: total_size,
        state: ObjectVersionState::Complete,
        data: ObjectVersionData::FirstBlock(first_hash),
    };
    let ghost cg = commit;
    let ghost prior_vs = prior_obj->Some_0.versions@;
    proof {
        crate::store::lemma_find_object_found(old(store).spec_objects(), bucket@, key@);
        store.lemma_object_at_wf(bucket@, key@);
        crate::model::lemma_find_version_element(prior_vs, version_uuid@);
        let i = choose|i: int|
            0 <= i < prior_vs.len() && prior_vs[i] == find_version(prior_vs, version_uuid@)->Some_0
                && prior_vs[i].uuid@ == version_uuid@;
        assert(prior_vs[i].timestamp < u64::MAX);
    }
    let mut vl: Vec<ObjectVersion> = Vec::new();
    vl.push(commit);
    proof {
        assert(vl@ =~= seq![cg]);
    }
    let obj = Object::new(bucket.to_owned(), key.to_owned(), vl);
    store.object_insert(obj);
    proof {
        assert(seq![cg][0] == cg);
        assert(seq![cg].skip(1) =~= Seq::<ObjectVersion>::empty());
        assert(add_versions(prior_vs, seq![cg]) == add_versions(
            add_version(prior_vs, cg),
            seq![cg].skip(1),
        ));
        assert(add_versions(add_version(prior_vs, cg), Seq::<ObjectVersion>::empty())
            == add_version(prior_vs, cg));
        lemma_find_after_add(prior_vs, cg, version_uuid@);
        assert forall|u2: Seq<u8>| u2 != version_uuid@ implies #[trigger] find_version(
            add_version(prior_vs, cg),
            u2,
        ) == find_version(prior_vs, u2) by {
            lemma_find_after_add(prior_vs, cg, u2);
        }
    }
    Ok(())
}

/// Abort a multipart upload: the pending version becomes `Aborted` and can
/// never be completed. Blocks already written stay until garbage
/// collection reclaims them through the reference rows.
pub fn handle_abort_multipart_upload(
    store: &mut Store,
    bucket: &str,
    key: &str,
    upload_id: &str,
) -> (r: Result<(), Error>)
    requires
        old(store).wf(),
    ensures
        final(store).wf(),
        ({
            let id_ok = valid_upload_id(upload_id@);
            let u = upload_uuid(upload_id@);
            let obj = find_object(old(store).spec_objects(), bucket@, key@);
            &&& !id_ok ==> (r matches Err(e) && (e matches Error::BadRequest(m) && m@
                == "Invalid upload ID"@) && *final(store) == *old(store))
            &&& id_ok && obj is None ==> (r matches Err(e) && (e matches Error::BadRequest(m)
                && m@ == "Object not found"@) && *final(store) == *old(store))
            &&& id_ok && obj is Some && !has_pending(obj, u) ==> (r matches Err(e) && (e
                matches Error::BadRequest(m) && m@
                == "Multipart upload does not exist or has already been completed"@) && *final(store) == *old(store))
            &&& id_ok && has_pending(obj, u) ==> (r is Ok && ({
                let prior_vs = obj->Some_0.versions@;
                let pend_v = find_version(prior_vs, u)->Some_0;
                &&& find_object(final(store).spec_objects(), bucket@, key@) matches Some(o2)
                    && o2.bucket@ == bucket@ && o2.key@ == key@ && (find_version(o2.versions@, u)
                    matches Some(v) && v.uuid@ == u && v.timestamp == pend_v.timestamp
                    && v.mime_type@ == pend_v.mime_type@ && v.size == pend_v.size && v.state
                    is Aborted && v.data is Uploading) && (forall|u2: Seq<u8>|
                    u2 != u ==> #[trigger] find_version(o2.versions@, u2) == find_version(
                        prior_vs,
                        u2,
                    ))
                &&& final(store).spec_versions() == old(store).spec_versions()
                &&& final(store).spec_block_refs() == old(store).spec_block_refs()
                &&& final(store).spec_blocks() == old(store).spec_blocks()
            }))
        }),
        forall|b2: Seq<char>, k2: Seq<char>|
            !(b2 == bucket@ && k2 == key@) ==> #[trigger] find_object(
                final(store).spec_objects(),
                b2,
                k2,
            ) == find_object(old(store).spec_objects(), b2, k2),
{
    let version_uuid = match crate::codec::uuid_from_str(upload_id) {
        Err(_) => {
            return Err(Error::BadRequest("Invalid upload ID".to_owned()));
        },
        Ok(u) => u,
    };
    let ghost prior_obj = find_object(old(store).spec_objects(), bucket@, key@);
    let pend_info: (u64, String, u64) = {
        let o = match store.object_get(bucket, key) {
            None => {
                return Err(Error::BadRequest("Object not found".to_owned()));
            },
            Some(o) => o,
        };
        match o.find_version_ref(&version_uuid) {
            Some(v) => {
                if crate::model::is_pending(v) {
                    (v.timestamp, v.mime_type.clone(), v.size)
                } else {
                    return Err(
                        Error::BadRequest(
                            "Multipart upload does not exist or has already been completed".to_owned(),
                        ),
                    );
                }
            },
            None => {
                return Err(
                    Error::BadRequest(
                        "Multipart upload does not exist or has already been completed".to_owned(),
                    ),
                );
            },
        }
    };
    let aborted = ObjectVersion {
        uuid: version_uuid,
        timestamp: pend_info.0,
        mime_type: pend_info.1,
        size: pend_info.2,
        state: ObjectVersionState::Aborted,
        data: ObjectVersionData::Uploading,
    };
    let ghost ag = aborted;
    let ghost prior_vs = prior_obj->Some_0.versions@;
    proof {
        crate::store::lemma_find_object_found(old(store).spec_objects(), bucket@, key@);
        store.lemma_object_at_wf(bucket@, key@);
        crate::model::lemma_find_version_element(prior_vs, version_uuid@);
        let i = choose|i: int|
            0 <= i < prior_vs.len() && prior_vs[i] == find_version(prior_vs, version_uuid@)->Some_0
                && prior_vs[i].uuid@ == version_uuid@;
        assert(prior_vs[i].timestamp < u64::MAX);
    }
    let mut vl: Vec<ObjectVersion> = Vec::new();
    vl.push(aborted);
    proof {
        assert(vl@ =~= seq![ag]);
    }
    let obj = Object::new(bucket.to_owned(), key.to_owned(), vl);
    store.object_insert(obj);
    proof {
        assert(seq![ag][0] == ag);
        assert(seq![ag].skip(1) =~= Seq::<ObjectVersion>::empty());
        assert(add_versions(prior_vs, seq![ag]) == add_versions(
            add_version(prior_vs, ag),
            seq![ag].skip(1),
        ));
        assert(add_versions(add_version(prior_vs, ag), Seq::<ObjectVersion>::empty())
            == add_version(prior_vs, ag));
        lemma_find_after_add(prior_vs, ag, version_uuid@);
        assert forall|u2: Seq<u8>| u2 != version_uuid@ implies #[trigger] find_version(
            add_version(prior_vs, ag),
            u2,
        ) == find_version(prior_vs, u2) by {
            lemma_find_after_add(prior_vs, ag, u2);
        }
    }
    Ok(())
}

/// The all-zero uuid, returned when a delete had nothing to do.
pub open spec fn zero_uuid_seq() -> Seq<u8> {
    Seq::new(32, |i: int| 0u8)
}

/// A version a delete marker tombstones: anything that is neither a
/// marker itself nor aborted.
pub open spec fn delete_target(v: ObjectVersion) -> bool {
    !(v.data is DeleteMarker) && !(v.state is Aborted)
}

/// Whether a delete marker would tombstone this version.
pub fn is_delete_target(v: &ObjectVersion) -> (r: bool)
    ensures
        r == delete_target(*v),
{
    let marker = match &v.data {
        ObjectVersionData::DeleteMarker => true,
        _ => false,
    };
    let aborted = match &v.state {
        ObjectVersionState::Aborted => true,
        _ => false,
    };
    !marker && !aborted
}

/// Delete: if the key holds any version worth tombstoning, record a delete
/// marker whose timestamp strictly postdates every one of them; otherwise
/// do nothing and return the zero uuid.
pub fn handle_delete(
    store: &mut Store,
    bucket: &str,
    key: &str,
    marker_uuid: Uuid,
    now: u64,
) -> (r: Uuid)
    requires
        old(store).wf(),
        now < u64::MAX,
        marker_uuid@ != zero_uuid_seq(),
        match find_object(old(store).spec_objects(), bucket@, key@) {
            Some(o) => find_version(o.versions@, marker_uuid@) is None && (forall|i: int|
                0 <= i < o.versions@.len() && delete_target(#[trigger] o.versions@[i])
                    ==> o.versions@[i].timestamp + 1 < u64::MAX),
            None => true,
        },
    ensures
        final(store).wf(),
        ({
            let obj = find_object(old(store).spec_objects(), bucket@, key@);
            let any_target = match obj {
                Some(o) => exists|i: int|
                    0 <= i < o.versions@.len() && delete_target(#[trigger] o.versions@[i]),
                None => false,
            };
            &&& !any_target ==> (r@ == zero_uuid_seq() && *final(store) == *old(store))
            &&& any_target ==> (r == marker_uuid && ({
                let prior_vs = obj->Some_0.versions@;
                &&& find_object(final(store).spec_objects(), bucket@, key@) matches Some(o2)
                    && o2.bucket@ == bucket@ && o2.key@ == key@ && (find_version(
                    o2.versions@,
                    marker_uuid@,
                ) matches Some(m) && m.uuid@ == marker_uuid@ && m.size == 0 && m.state is Complete
                    && m.data is DeleteMarker && m.mime_type@ == "application/x-delete-marker"@
                    && now <= m.timestamp && (forall|i: int|
                    0 <= i < prior_vs.len() && delete_target(#[trigger] prior_vs[i])
                        ==> prior_vs[i].timestamp < m.timestamp) && (m.timestamp == now || exists|i: int|
                    0 <= i < prior_vs.len() && delete_target(#[trigger] prior_vs[i])
                        && m.timestamp == prior_vs[i].timestamp + 1)) && (forall|u2: Seq<u8>|
                    u2 != marker_uuid@ ==> #[trigger] find_version(o2.versions@, u2)
                        == find_version(prior_vs, u2))
                &&& final(store).spec_versions() == old(store).spec_versions()
                &&& final(store).spec_block_refs() == old(store).spec_block_refs()
                &&& final(store).spec_blocks() == old(store).spec_blocks()
            }))
        }),
        forall|b2: Seq<char>, k2: Seq<char>|
            !(b2 == bucket@ && k2 == key@) ==> #[trigger] find_object(
                final(store).spec_objects(),
                b2,
                k2,
            ) == find_object(old(store).spec_objects(), b2, k2),
{
    let ghost prior_obj = find_object(old(store).spec_objects(), bucket@, key@);
    let (must_delete, timestamp): (bool, u64) = {
        let o = match store.object_get(bucket, key) {
            None => {
                let z: Uuid = [
                    0u8, 0u8, 0u8, 0u8, 0u8, 0u8, 0u8, 0u8, 0u8, 0u8, 0u8, 0u8, 0u8, 0u8, 0u8,
                    0u8, 0u8, 0u8, 0u8, 0u8, 0u8, 0u8, 0u8, 0u8, 0u8, 0u8, 0u8, 0u8, 0u8, 0u8,
                    0u8, 0u8,
                ];
                proof {
                    assert(z@ =~= zero_uuid_seq());
                }
                return z;
            },
            Some(o) => o,
        };
        proof {
            crate::store::lemma_find_object_found(old(store).spec_objects(), bucket@, key@);
            store.lemma_object_at_wf(bucket@, key@);
        }
        let vs = o.versions();
        let ghost vseq = vs@;
        let mut must: bool = false;
        let mut ts: u64 = now;
        let mut i: usize = 0;
        while i < vs.len()
            invariant
                i <= vseq.len(),
                vs@ == vseq,
                ts_bounded(vseq),
                now < u64::MAX,
                now <= ts,
                ts < u64::MAX,
                forall|j: int|
                    0 <= j < vseq.len() && delete_target(#[trigger] vseq[j]) ==> vseq[j].timestamp
                        + 1 < u64::MAX,
                must ==> exists|j: int| 0 <= j < i && delete_target(#[trigger] vseq[j]),
                !must ==> forall|j: int| 0 <= j < i ==> !delete_target(#[trigger] vseq[j]),
                forall|j: int|
                    0 <= j < i && delete_target(#[trigger] vseq[j]) ==> vseq[j].timestamp < ts,
                ts == now || exists|j: int|
                    0 <= j < i && delete_target(#[trigger] vseq[j]) && ts == vseq[j].timestamp + 1,
            decreases vseq.len() - i,
        {
            let v = &vs[i];
            if is_delete_target(v) {
                must = true;
                if v.timestamp >= ts {
                    ts = v.timestamp + 1;
                }
            }
            i += 1;
        }
        (must, ts)
    };
    if !must_delete {
        let z: Uuid = [
            0u8, 0u8, 0u8, 0u8, 0u8, 0u8, 0u8, 0u8, 0u8, 0u8, 0u8, 0u8, 0u8, 0u8, 0u8, 0u8, 0u8,
            0u8, 0u8, 0u8, 0u8, 0u8, 0u8, 0u8, 0u8, 0u8, 0u8, 0u8, 0u8, 0u8, 0u8, 0u8,
        ];
        proof {
            assert(z@ =~= zero_uuid_seq());
        }
        return z;
    }
    let marker = ObjectVersion {
        uuid: marker_uuid,
        timestamp,
        mime_type: "application/x-delete-marker".to_owned(),
        size: 0,
        state: ObjectVersionState::Complete,
        data: ObjectVersionData::DeleteMarker,
    };
    let ghost mg = marker;
    let ghost prior_vs = prior_obj->Some_0.versions@;
    let mut vl: Vec<ObjectVersion> = Vec::new();
    vl.push(marker);
    proof {
        assert(vl@ =~= seq![mg]);
    }
    let obj = Object::new(bucket.to_owned(), key.to_owned(), vl);
    store.object_insert(obj);
    proof {
        assert(seq![mg][0] == mg);
        assert(seq![mg].skip(1) =~= Seq::<ObjectVersion>::empty());
        assert(add_versions(prior_vs, seq![mg]) == add_versions(
            add_version(prior_vs, mg),
            seq![mg].skip(1),
        ));
        assert(add_versions(add_version(prior_vs, mg), Seq::<ObjectVersion>::empty())
            == add_version(prior_vs, mg));
        lemma_find_after_add(prior_vs, mg, marker_uuid@);
        assert forall|u2: Seq<u8>| u2 != marker_uuid@ implies #[trigger] find_version(
            add_version(prior_vs, mg),
            u2,
        ) == find_version(prior_vs, u2) by {
            lemma_find_after_add(prior_vs, mg, u2);
        }
    }
    marker_uuid
}

} // verus!
