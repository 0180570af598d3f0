//! The replicated tables, modelled on one node.
//!
//! Three metadata tables (objects, version records, block references) and
//! the content-addressed block store. Every insert merges with what is
//! already there, the way the replicated store's CRDT rules do: object
//! versions merge by state priority, version blocks by set union, and
//! block-data writes are idempotent.

use vstd::prelude::*;
use crate::Uuid;
use crate::BlockHash;
use crate::hashing::hash_of;
use crate::model::{Object, ObjectVersion, add_version, add_versions, ts_bounded, uuid_eq,
    uuids_unique};
use crate::strlex::str_eq;
use crate::version::{BlockRef, Version, VersionBlock, blocks_sorted, insert_block, insert_blocks,
    lemma_insert_blocks_push};

verus! {

/// One block of content, keyed by its hash.
pub struct StoredBlock {
    pub hash: BlockHash,
    pub bytes: Vec<u8>,
}

/// The first object recorded under a bucket and key.
pub open spec fn find_object(os: Seq<Object>, b: Seq<char>, k: Seq<char>) -> Option<Object>
    decreases os.len(),
{
    if os.len() == 0 {
        None
    } else if os[0].bucket@ == b && os[0].key@ == k {
        Some(os[0])
    } else {
        find_object(os.skip(1), b, k)
    }
}

/// The first version record with the uuid.
pub open spec fn find_record(vs: Seq<Version>, u: Seq<u8>) -> Option<Version>
    decreases vs.len(),
{
    if vs.len() == 0 {
        None
    } else if vs[0].uuid@ == u {
        Some(vs[0])
    } else {
        find_record(vs.skip(1), u)
    }
}

/// The first stored block with the hash.
pub open spec fn find_stored(bs: Seq<StoredBlock>, h: Seq<u8>) -> Option<StoredBlock>
    decreases bs.len(),
{
    if bs.len() == 0 {
        None
    } else if bs[0].hash@ == h {
        Some(bs[0])
    } else {
        find_stored(bs.skip(1), h)
    }
}

/// The first reference row for a block and a version.
pub open spec fn find_ref(rs: Seq<BlockRef>, h: Seq<u8>, u: Seq<u8>) -> Option<BlockRef>
    decreases rs.len(),
{
    if rs.len() == 0 {
        None
    } else if rs[0].block@ == h && rs[0].version@ == u {
        Some(rs[0])
    } else {
        find_ref(rs.skip(1), h, u)
    }
}

/// Appending an object leaves every key readable as before, except a key
/// that was absent and is the new object's own.
pub proof fn lemma_find_object_push(os: Seq<Object>, o: Object, b: Seq<char>, k: Seq<char>)
    ensures
        find_object(os.push(o), b, k) == (match find_object(os, b, k) {
            Some(x) => Some(x),
            None => if o.bucket@ == b && o.key@ == k {
                Some(o)
            } else {
                None
            },
        }),
    decreases os.len(),
{
    if os.len() == 0 {
        assert(os.push(o)[0] == o);
        assert(os.push(o).skip(1) =~= os);
    } else {
        lemma_find_object_push(os.skip(1), o, b, k);
        assert(os.push(o)[0] == os[0]);
        assert(os.push(o).skip(1) =~= os.skip(1).push(o));
    }
}

/// Rewriting the first object of some key changes how that key alone
/// reads.
pub proof fn lemma_find_object_update(
    os: Seq<Object>,
    j: int,
    o2: Object,
    b: Seq<char>,
    k: Seq<char>,
)
    requires
        0 <= j < os.len(),
        o2.bucket@ == os[j].bucket@,
        o2.key@ == os[j].key@,
        forall|i: int|
            0 <= i < j ==> !((#[trigger] os[i]).bucket@ == os[j].bucket@ && os[i].key@
                == os[j].key@),
    ensures
        find_object(os.update(j, o2), b, k) == (if os[j].bucket@ == b && os[j].key@ == k {
            Some(o2)
        } else {
            find_object(os, b, k)
        }),
    decreases j,
{
    let res = os.update(j, o2);
    if j == 0 {
        assert(res[0] == o2);
        assert(res.skip(1) =~= os.skip(1));
    } else {
        lemma_find_object_update(os.skip(1), j - 1, o2, b, k);
        assert(res[0] == os[0]);
        assert(res.skip(1) =~= os.skip(1).update(j - 1, o2));
    }
}

/// Appending a version record leaves every uuid readable as before, except
/// a uuid that was absent and is the new record's own.
pub proof fn lemma_find_record_push(vs: Seq<Version>, v: Version, u: Seq<u8>)
    ensures
        find_record(vs.push(v), u) == (match find_record(vs, u) {
            Some(x) => Some(x),
            None => if v.uuid@ == u {
                Some(v)
            } else {
                None
            },
        }),
    decreases vs.len(),
{
    if vs.len() == 0 {
        assert(vs.push(v)[0] == v);
        assert(vs.push(v).skip(1) =~= vs);
    } else {
        lemma_find_record_push(vs.skip(1), v, u);
        assert(vs.push(v)[0] == vs[0]);
        assert(vs.push(v).skip(1) =~= vs.skip(1).push(v));
    }
}

/// Rewriting the first record of some uuid changes how that uuid alone
/// reads.
pub proof fn lemma_find_record_update(vs: Seq<Version>, j: int, v2: Version, u: Seq<u8>)
    requires
        0 <= j < vs.len(),
        v2.uuid@ == vs[j].uuid@,
        forall|i: int| 0 <= i < j ==> (#[trigger] vs[i]).uuid@ != vs[j].uuid@,
    ensures
        find_record(vs.update(j, v2), u) == (if vs[j].uuid@ == u {
            Some(v2)
        } else {
            find_record(vs, u)
        }),
    decreases j,
{
    let res = vs.update(j, v2);
    if j == 0 {
        assert(res[0] == v2);
        assert(res.skip(1) =~= vs.skip(1));
    } else {
        lemma_find_record_update(vs.skip(1), j - 1, v2, u);
        assert(res[0] == vs[0]);
        assert(res.skip(1) =~= vs.skip(1).update(j - 1, v2));
    }
}

/// Appending a stored block leaves every hash readable as before, except a
/// hash that was absent and is the new block's own.
pub proof fn lemma_find_stored_push(bs: Seq<StoredBlock>, sb: StoredBlock, h: Seq<u8>)
    ensures
        find_stored(bs.push(sb), h) == (match find_stored(bs, h) {
            Some(x) => Some(x),
            None => if sb.hash@ == h {
                Some(sb)
            } else {
                None
            },
        }),
    decreases bs.len(),
{
    if bs.len() == 0 {
        assert(bs.push(sb)[0] == sb);
        assert(bs.push(sb).skip(1) =~= bs);
    } else {
        lemma_find_stored_push(bs.skip(1), sb, h);
        assert(bs.push(sb)[0] == bs[0]);
        assert(bs.push(sb).skip(1) =~= bs.skip(1).push(sb));
    }
}

/// Appending a reference row leaves every pair readable as before, except a
/// pair that was absent and is the new row's own.
pub proof fn lemma_find_ref_push(rs: Seq<BlockRef>, r: BlockRef, h: Seq<u8>, u: Seq<u8>)
    ensures
        find_ref(rs.push(r), h, u) == (match find_ref(rs, h, u) {
            Some(x) => Some(x),
            None => if r.block@ == h && r.version@ == u {
                Some(r)
            } else {
                None
            },
        }),
    decreases rs.len(),
{
    if rs.len() == 0 {
        assert(rs.push(r)[0] == r);
        assert(rs.push(r).skip(1) =~= rs);
    } else {
        lemma_find_ref_push(rs.skip(1), r, h, u);
        assert(rs.push(r)[0] == rs[0]);
        assert(rs.push(r).skip(1) =~= rs.skip(1).push(r));
    }
}

/// A found object sits under the key it was looked up by.
pub proof fn lemma_find_object_found(os: Seq<Object>, b: Seq<char>, k: Seq<char>)
    requires
        find_object(os, b, k) is Some,
    ensures
        find_object(os, b, k)->Some_0.bucket@ == b,
        find_object(os, b, k)->Some_0.key@ == k,
    decreases os.len(),
{
    if os.len() > 0 && !(os[0].bucket@ == b && os[0].key@ == k) {
        lemma_find_object_found(os.skip(1), b, k);
    }
}

/// A found record carries the uuid it was looked up by.
pub proof fn lemma_find_record_found(vs: Seq<Version>, u: Seq<u8>)
    requires
        find_record(vs, u) is Some,
    ensures
        find_record(vs, u)->Some_0.uuid@ == u,
    decreases vs.len(),
{
    if vs.len() > 0 && vs[0].uuid@ != u {
        lemma_find_record_found(vs.skip(1), u);
    }
}

/// What an object lookup returns is one of the stored objects.
pub proof fn lemma_find_object_element(os: Seq<Object>, b: Seq<char>, k: Seq<char>)
    requires
        find_object(os, b, k) is Some,
    ensures
        exists|i: int| 0 <= i < os.len() && os[i] == find_object(os, b, k)->Some_0,
    decreases os.len(),
{
    if os.len() > 0 && !(os[0].bucket@ == b && os[0].key@ == k) {
        lemma_find_object_element(os.skip(1), b, k);
        let i = choose|i: int|
            0 <= i < os.skip(1).len() && os.skip(1)[i] == find_object(os.skip(1), b, k)->Some_0;
        assert(os[i + 1] == os.skip(1)[i]);
    }
}

/// What a record lookup returns is one of the stored records.
pub proof fn lemma_find_record_element(vs: Seq<Version>, u: Seq<u8>)
    requires
        find_record(vs, u) is Some,
    ensures
        exists|i: int| 0 <= i < vs.len() && vs[i] == find_record(vs, u)->Some_0,
    decreases vs.len(),
{
    if vs.len() > 0 && vs[0].uuid@ != u {
        lemma_find_record_element(vs.skip(1), u);
        let i = choose|i: int|
            0 <= i < vs.skip(1).len() && vs.skip(1)[i] == find_record(vs.skip(1), u)->Some_0;
        assert(vs[i + 1] == vs.skip(1)[i]);
    }
}

/// One node's view of the replicated tables and the block store.
pub struct Store {
    objects: Vec<Object>,
    versions: Vec<Version>,
    block_refs: Vec<BlockRef>,
    blocks: Vec<StoredBlock>,
}

impl Store {
    /// The object table.
    pub closed spec fn spec_objects(&self) -> Seq<Object> {
        self.objects@
    }

    /// The version table.
    pub closed spec fn spec_versions(&self) -> Seq<Version> {
        self.versions@
    }

    /// The block reference table.
    pub closed spec fn spec_block_refs(&self) -> Seq<BlockRef> {
        self.block_refs@
    }

    /// The content-addressed block store.
    pub closed spec fn spec_blocks(&self) -> Seq<StoredBlock> {
        self.blocks@
    }

    /// The object recorded under a key.
    pub open spec fn spec_object_at(&self, b: Seq<char>, k: Seq<char>) -> Option<Object> {
        find_object(self.spec_objects(), b, k)
    }

    /// The version record of a uuid.
    pub open spec fn spec_record_at(&self, u: Seq<u8>) -> Option<Version> {
        find_record(self.spec_versions(), u)
    }

    /// Each table keyed once, each object and record well formed, and every
    /// stored block keyed by the hash of its own bytes.
    pub closed spec fn wf(&self) -> bool {
        &&& forall|i: int, j: int|
            0 <= i < j < self.objects@.len() ==> !((#[trigger] self.objects@[i]).bucket@ == (
            #[trigger] self.objects@[j]).bucket@ && self.objects@[i].key@ == self.objects@[j].key@)
        &&& forall|i: int|
            0 <= i < self.objects@.len() ==> (#[trigger] self.objects@[i]).wf() && ts_bounded(
                self.objects@[i].versions@,
            )
        &&& forall|i: int, j: int|
            0 <= i < j < self.versions@.len() ==> (#[trigger] self.versions@[i]).uuid@ != (
            #[trigger] self.versions@[j]).uuid@
        &&& forall|i: int| 0 <= i < self.versions@.len() ==> (#[trigger] self.versions@[i]).wf()
        &&& forall|i: int, j: int|
            0 <= i < j < self.blocks@.len() ==> (#[trigger] self.blocks@[i]).hash@ != (
            #[trigger] self.blocks@[j]).hash@
        &&& forall|i: int|
            0 <= i < self.blocks@.len() ==> (#[trigger] self.blocks@[i]).hash == hash_of(
                self.blocks@[i].bytes@,
            )
    }

    /// An object a lookup returns is well formed: its uuids are unique and
    /// its timestamps leave headroom.
    pub proof fn lemma_object_at_wf(&self, b: Seq<char>, k: Seq<char>)
        requires
            self.wf(),
            self.spec_object_at(b, k) is Some,
        ensures
            self.spec_object_at(b, k)->Some_0.wf(),
            ts_bounded(self.spec_object_at(b, k)->Some_0.versions@),
    {
        lemma_find_object_element(self.objects@, b, k);
    }

    /// A version record a lookup returns keeps its blocks strictly sorted
    /// by `(part_number, offset)`: parts stand in ascending part order, and
    /// the record's own order is already the sorted one.
    pub proof fn lemma_record_at_wf(&self, u: Seq<u8>)
        requires
            self.wf(),
            self.spec_record_at(u) is Some,
        ensures
            self.spec_record_at(u)->Some_0.wf(),
    {
        lemma_find_record_element(self.versions@, u);
    }

    /// An empty node: nothing stored yet.
    pub fn new() -> (s: Store)
        ensures
            s.wf(),
            s.spec_objects() == Seq::<Object>::empty(),
            s.spec_versions() == Seq::<Version>::empty(),
            s.spec_block_refs() == Seq::<BlockRef>::empty(),
            s.spec_blocks() == Seq::<StoredBlock>::empty(),
    {
        Store { objects: Vec::new(), versions: Vec::new(), block_refs: Vec::new(), blocks: Vec::new() }
    }

    /// Read one object.
    pub fn object_get(&self, bucket: &str, key: &str) -> (r: Option<&Object>)
        ensures
            match r {
                Some(o) => self.spec_object_at(bucket@, key@) == Some(*o),
                None => self.spec_object_at(bucket@, key@) is None,
            },
    {
        let ghost os = self.objects@;
        let mut i: usize = 0;
        proof {
            assert(os.skip(0) =~= os);
        }
        while i < self.objects.len()
            invariant
                i <= os.len(),
                self.objects@ == os,
                find_object(os, bucket@, key@) == find_object(os.skip(i as int), bucket@, key@),
            decreases os.len() - i,
        {
            proof {
                assert(os.skip(i as int)[0] == os[i as int]);
                assert(os.skip(i as int).skip(1) =~= os.skip(i + 1));
            }
            if str_eq(self.objects[i].bucket.as_str(), bucket) && str_eq(
                self.objects[i].key.as_str(),
                key,
            ) {
                return Some(&self.objects[i]);
            }
            i += 1;
        }
        proof {
            assert(os.skip(i as int) =~= Seq::<Object>::empty());
        }
        None
    }

    /// Read one version record.
    pub fn version_get(&self, u: &Uuid) -> (r: Option<&Version>)
        ensures
            match r {
                Some(v) => self.spec_record_at(u@) == Some(*v),
                None => self.spec_record_at(u@) is None,
            },
    {
        let ghost vs = self.versions@;
        let mut i: usize = 0;
        proof {
            assert(vs.skip(0) =~= vs);
        }
        while i < self.versions.len()
            invariant
                i <= vs.len(),
                self.versions@ == vs,
                find_record(vs, u@) == find_record(vs.skip(i as int), u@),
            decreases vs.len() - i,
        {
            proof {
                assert(vs.skip(i as int)[0] == vs[i as int]);
                assert(vs.skip(i as int).skip(1) =~= vs.skip(i + 1));
            }
            if uuid_eq(&self.versions[i].uuid, u) {
                return Some(&self.versions[i]);
            }
            i += 1;
        }
        proof {
            assert(vs.skip(i as int) =~= Seq::<Version>::empty());
        }
        None
    }

    /// Read the bytes stored under a hash.
    pub fn block_bytes(&self, h: &BlockHash) -> (r: Option<&Vec<u8>>)
        ensures
            match r {
                Some(bytes) => find_stored(self.spec_blocks(), h@) matches Some(sb) && sb.bytes@
                    == bytes@,
                None => find_stored(self.spec_blocks(), h@) is None,
            },
    {
        let ghost bs = self.blocks@;
        let mut i: usize = 0;
        proof {
            assert(bs.skip(0) =~= bs);
        }
        while i < self.blocks.len()
            invariant
                i <= bs.len(),
                self.blocks@ == bs,
                find_stored(bs, h@) == find_stored(bs.skip(i as int), h@),
                forall|j: int| 0 <= j < i ==> (#[trigger] bs[j]).hash@ != h@,
            decreases bs.len() - i,
        {
            proof {
                assert(bs.skip(i as int)[0] == bs[i as int]);
                assert(bs.skip(i as int).skip(1) =~= bs.skip(i + 1));
            }
            if uuid_eq(&self.blocks[i].hash, h) {
                return Some(&self.blocks[i].bytes);
            }
            i += 1;
        }
        proof {
            assert(bs.skip(i as int) =~= Seq::<StoredBlock>::empty());
        }
        None
    }

    /// Whether a reference row exists for this block and version.
    pub fn block_ref_exists(&self, h: &BlockHash, u: &Uuid) -> (r: bool)
        ensures
            r == (find_ref(self.spec_block_refs(), h@, u@) is Some),
    {
        let ghost rs = self.block_refs@;
        let mut i: usize = 0;
        proof {
            assert(rs.skip(0) =~= rs);
        }
        while i < self.block_refs.len()
            invariant
                i <= rs.len(),
                self.block_refs@ == rs,
                find_ref(rs, h@, u@) == find_ref(rs.skip(i as int), h@, u@),
            decreases rs.len() - i,
        {
            proof {
                assert(rs.skip(i as int)[0] == rs[i as int]);
                assert(rs.skip(i as int).skip(1) =~= rs.skip(i + 1));
            }
            if uuid_eq(&self.block_refs[i].block, h) && uuid_eq(&self.block_refs[i].version, u) {
                return true;
            }
            i += 1;
        }
        proof {
            assert(rs.skip(i as int) =~= Seq::<BlockRef>::empty());
        }
        false
    }

    /// Insert an object, merging it with what the table already holds
    /// under its key: version sets merge by union, same-uuid records by
    /// state priority.
    pub fn object_insert(&mut self, obj: Object)
        requires
            old(self).wf(),
            obj.wf(),
            ts_bounded(obj.versions@),
        ensures
            final(self).wf(),
            match find_object(old(self).spec_objects(), obj.bucket@, obj.key@) {
                Some(po) => find_object(final(self).spec_objects(), obj.bucket@, obj.key@)
                    matches Some(o2) && o2.bucket == po.bucket && o2.key == po.key && o2.versions@
                    == add_versions(po.versions@, obj.versions@),
                None => find_object(final(self).spec_objects(), obj.bucket@, obj.key@) == Some(
                    obj,
                ),
            },
            forall|b2: Seq<char>, k2: Seq<char>|
                !(b2 == obj.bucket@ && k2 == obj.key@) ==> #[trigger] find_object(
                    final(self).spec_objects(),
                    b2,
                    k2,
                ) == find_object(old(self).spec_objects(), b2, k2),
            final(self).spec_versions() == old(self).spec_versions(),
            final(self).spec_block_refs() == old(self).spec_block_refs(),
            final(self).spec_blocks() == old(self).spec_blocks(),
    {
        let ghost os = old(self).objects@;
        let ghost ib = obj.bucket@;
        let ghost ik = obj.key@;
        let mut i: usize = 0;
        proof {
            assert(os.skip(0) =~= os);
        }
        while i < self.objects.len()
            invariant
                i <= os.len(),
                *self == *old(self),
                old(self).wf(),
                obj.wf(),
                ts_bounded(obj.versions@),
                ib == obj.bucket@,
                ik == obj.key@,
                self.objects@ == os,
                os == old(self).objects@,
                find_object(os, ib, ik) == find_object(os.skip(i as int), ib, ik),
                forall|j: int|
                    0 <= j < i ==> !((#[trigger] os[j]).bucket@ == ib && os[j].key@ == ik),
            decreases os.len() - i,
        {
            proof {
                assert(os.skip(i as int)[0] == os[i as int]);
                assert(os.skip(i as int).skip(1) =~= os.skip(i + 1));
            }
            if str_eq(self.objects[i].bucket.as_str(), obj.bucket.as_str()) && str_eq(
                self.objects[i].key.as_str(),
                obj.key.as_str(),
            ) {
                proof {
                    assert(find_object(os, ib, ik) == Some(os[i as int]));
                }
                let ghost orig = os[i as int];
                let Object { bucket: _ib, key: _ik, versions: mut nvs } = obj;
                let ghost all_new = nvs@;
                let dst = &mut self.objects[i];
                while nvs.len() > 0
                    invariant
                        dst.wf(),
                        ts_bounded(dst.versions@),
                        ts_bounded(nvs@),
                        dst.bucket == orig.bucket,
                        dst.key == orig.key,
                        add_versions(dst.versions@, nvs@) == add_versions(orig.versions@, all_new),
                    decreases nvs@.len(),
                {
                    let ghost rem = nvs@;
                    let v = nvs.remove(0);
                    proof {
                        assert(nvs@ =~= rem.skip(1));
                        assert(v == rem[0]);
                        assert(forall|x: int|
                            0 <= x < nvs@.len() ==> nvs@[x] == rem[x + 1]);
                    }
                    dst.merge_version_entry(v);
                }
                proof {
                    assert(add_versions(dst.versions@, nvs@) == dst.versions@);
                    assert(dst.versions@ == add_versions(orig.versions@, all_new));
                }
                proof {
                    assert(self.objects@ == os.update(i as int, *dst));
                    assert forall|b2: Seq<char>, k2: Seq<char>|
                        !(b2 == ib && k2 == ik) implies #[trigger] find_object(
                        self.objects@,
                        b2,
                        k2,
                    ) == find_object(os, b2, k2) by {
                        lemma_find_object_update(os, i as int, self.objects@[i as int], b2, k2);
                    }
                    lemma_find_object_update(os, i as int, self.objects@[i as int], ib, ik);
                }
                return ;
            }
            i += 1;
        }
        proof {
            assert(os.skip(i as int) =~= Seq::<Object>::empty());
        }
        let ghost pushed = obj;
        self.objects.push(obj);
        proof {
            assert(self.objects@ == os.push(pushed));
            assert forall|b2: Seq<char>, k2: Seq<char>|
                !(b2 == ib && k2 == ik) implies #[trigger] find_object(self.objects@, b2, k2)
                == find_object(os, b2, k2) by {
                lemma_find_object_push(os, pushed, b2, k2);
            }
            lemma_find_object_push(os, pushed, ib, ik);
        }
    }

    /// Insert a version record, merging its blocks into what the table
    /// already holds for its uuid.
    pub fn version_insert(&mut self, v: Version)
        requires
            old(self).wf(),
            v.wf(),
        ensures
            final(self).wf(),
            match find_record(old(self).spec_versions(), v.uuid@) {
                Some(pv) => find_record(final(self).spec_versions(), v.uuid@) matches Some(v2)
                    && v2.uuid == pv.uuid && v2.bucket == pv.bucket && v2.key == pv.key
                    && v2.deleted == (pv.deleted || v.deleted) && v2.spec_blocks()
                    == insert_blocks(pv.spec_blocks(), v.spec_blocks()),
                None => find_record(final(self).spec_versions(), v.uuid@) == Some(v),
            },
            forall|u2: Seq<u8>|
                u2 != v.uuid@ ==> #[trigger] find_record(final(self).spec_versions(), u2)
                    == find_record(old(self).spec_versions(), u2),
            final(self).spec_objects() == old(self).spec_objects(),
            final(self).spec_block_refs() == old(self).spec_block_refs(),
            final(self).spec_blocks() == old(self).spec_blocks(),
    {
        let ghost vs = old(self).versions@;
        let mut i: usize = 0;
        proof {
            assert(vs.skip(0) =~= vs);
        }
        while i < self.versions.len()
            invariant
                i <= vs.len(),
                *self == *old(self),
                old(self).wf(),
                v.wf(),
                self.versions@ == vs,
                vs == old(self).versions@,
                find_record(vs, v.uuid@) == find_record(vs.skip(i as int), v.uuid@),
                forall|j: int| 0 <= j < i ==> (#[trigger] vs[j]).uuid@ != v.uuid@,
            decreases vs.len() - i,
        {
            proof {
                assert(vs.skip(i as int)[0] == vs[i as int]);
                assert(vs.skip(i as int).skip(1) =~= vs.skip(i + 1));
            }
            if uuid_eq(&self.versions[i].uuid, &v.uuid) {
                proof {
                    assert(find_record(vs, v.uuid@) == Some(vs[i as int]));
                }
                let ghost orig = vs[i as int];
                let dst = &mut self.versions[i];
                if v.deleted {
                    dst.deleted = true;
                }
                let nb = v.blocks.len();
                let mut k: usize = 0;
                while k < nb
                    invariant
                        k <= nb,
                        nb == v.spec_blocks().len(),
                        dst.wf(),
                        dst.uuid == orig.uuid,
                        dst.bucket == orig.bucket,
                        dst.key == orig.key,
                        dst.deleted == (orig.deleted || v.deleted),
                        dst.spec_blocks() == insert_blocks(
                            orig.spec_blocks(),
                            v.spec_blocks().take(k as int),
                        ),
                    decreases nb - k,
                {
                    let b = v.blocks[k];
                    proof {
                        lemma_insert_blocks_push(
                            orig.spec_blocks(),
                            v.spec_blocks().take(k as int),
                            b,
                        );
                        assert(v.spec_blocks().take(k as int).push(b) =~= v.spec_blocks().take(
                            k + 1,
                        ));
                    }
                    dst.add_block(b);
                    k += 1;
                }
                proof {
                    assert(v.spec_blocks().take(nb as int) =~= v.spec_blocks());
                    assert(self.versions@ == vs.update(i as int, *dst));
                    assert forall|u2: Seq<u8>| u2 != v.uuid@ implies #[trigger] find_record(
                        self.versions@,
                        u2,
                    ) == find_record(vs, u2) by {
                        lemma_find_record_update(vs, i as int, self.versions@[i as int], u2);
                    }
                    lemma_find_record_update(vs, i as int, self.versions@[i as int], v.uuid@);
                }
                return ;
            }
            i += 1;
        }
        proof {
            assert(vs.skip(i as int) =~= Seq::<Version>::empty());
        }
        let ghost pushed = v;
        self.versions.push(v);
        proof {
            assert(self.versions@ == vs.push(pushed));
            assert forall|u2: Seq<u8>| u2 != pushed.uuid@ implies #[trigger] find_record(
                self.versions@,
                u2,
            ) == find_record(vs, u2) by {
                lemma_find_record_push(vs, pushed, u2);
            }
            lemma_find_record_push(vs, pushed, pushed.uuid@);
        }
    }

    /// Insert a block reference row; a pair already present stays as it
    /// is.
    pub fn block_ref_insert(&mut self, r: BlockRef)
        requires
            old(self).wf(),
        ensures
            final(self).wf(),
            match find_ref(old(self).spec_block_refs(), r.block@, r.version@) {
                Some(x) => find_ref(final(self).spec_block_refs(), r.block@, r.version@) == Some(
                    x,
                ),
                None => find_ref(final(self).spec_block_refs(), r.block@, r.version@) == Some(r),
            },
            find_ref(final(self).spec_block_refs(), r.block@, r.version@) is Some,
            forall|h2: Seq<u8>, u2: Seq<u8>|
                !(h2 == r.block@ && u2 == r.version@) ==> #[trigger] find_ref(
                    final(self).spec_block_refs(),
                    h2,
                    u2,
                ) == find_ref(old(self).spec_block_refs(), h2, u2),
            final(self).spec_objects() == old(self).spec_objects(),
            final(self).spec_versions() == old(self).spec_versions(),
            final(self).spec_blocks() == old(self).spec_blocks(),
    {
        let ghost rs = old(self).block_refs@;
        let mut i: usize = 0;
        proof {
            assert(rs.skip(0) =~= rs);
        }
        while i < self.block_refs.len()
            invariant
                i <= rs.len(),
                *self == *old(self),
                old(self).wf(),
                self.block_refs@ == rs,
                rs == old(self).block_refs@,
                find_ref(rs, r.block@, r.version@) == find_ref(
                    rs.skip(i as int),
                    r.block@,
                    r.version@,
                ),
                forall|j: int|
                    0 <= j < i ==> !((#[trigger] rs[j]).block@ == r.block@ && rs[j].version@
                        == r.version@),
            decreases rs.len() - i,
        {
            proof {
                assert(rs.skip(i as int)[0] == rs[i as int]);
                assert(rs.skip(i as int).skip(1) =~= rs.skip(i + 1));
            }
            if uuid_eq(&self.block_refs[i].block, &r.block) && uuid_eq(
                &self.block_refs[i].version,
                &r.version,
            ) {
                proof {
                    assert(find_ref(rs.skip(i as int), r.block@, r.version@) == Some(
                        rs.skip(i as int)[0],
                    ));
                    assert(self.wf());
                }
                return ;
            }
            i += 1;
        }
        proof {
            assert(rs.skip(i as int) =~= Seq::<BlockRef>::empty());
        }
        self.block_refs.push(r);
        proof {
            assert(self.block_refs@ == rs.push(r));
            assert forall|h2: Seq<u8>, u2: Seq<u8>|
                !(h2 == r.block@ && u2 == r.version@) implies #[trigger] find_ref(
                self.block_refs@,
                h2,
                u2,
            ) == find_ref(rs, h2, u2) by {
                lemma_find_ref_push(rs, r, h2, u2);
            }
            lemma_find_ref_push(rs, r, r.block@, r.version@);
        }
    }

    /// Store the bytes of one content-addressed block. The write is
    /// idempotent: a hash already stored keeps the bytes it has.
    pub fn block_put(&mut self, h: BlockHash, bytes: Vec<u8>)
        requires
            old(self).wf(),
            h == hash_of(bytes@),
        ensures
            final(self).wf(),
            find_stored(final(self).spec_blocks(), h@) is Some,
            find_stored(old(self).spec_blocks(), h@) is Some ==> final(self).spec_blocks() == old(
                self,
            ).spec_blocks(),
            find_stored(old(self).spec_blocks(), h@) is None ==> (find_stored(
                final(self).spec_blocks(),
                h@,
            ) matches Some(sb) && sb.bytes@ == bytes@),
            forall|h2: Seq<u8>|
                h2 != h@ ==> #[trigger] find_stored(final(self).spec_blocks(), h2) == find_stored(
                    old(self).spec_blocks(),
                    h2,
                ),
            final(self).spec_objects() == old(self).spec_objects(),
            final(self).spec_versions() == old(self).spec_versions(),
            final(self).spec_block_refs() == old(self).spec_block_refs(),
    {
        let ghost bs = old(self).blocks@;
        let mut i: usize = 0;
        proof {
            assert(bs.skip(0) =~= bs);
        }
        while i < self.blocks.len()
            invariant
                i <= bs.len(),
                *self == *old(self),
                old(self).wf(),
                self.blocks@ == bs,
                bs == old(self).blocks@,
                find_stored(bs, h@) == find_stored(bs.skip(i as int), h@),
                forall|j: int| 0 <= j < i ==> (#[trigger] bs[j]).hash@ != h@,
            decreases bs.len() - i,
        {
            proof {
                assert(bs.skip(i as int)[0] == bs[i as int]);
                assert(bs.skip(i as int).skip(1) =~= bs.skip(i + 1));
            }
            if uuid_eq(&self.blocks[i].hash, &h) {
                proof {
                    assert(find_stored(bs.skip(i as int), h@) == Some(bs.skip(i as int)[0]));
                    assert(self.wf());
                }
                return ;
            }
            i += 1;
        }
        proof {
            assert(bs.skip(i as int) =~= Seq::<StoredBlock>::empty());
        }
        let sb = StoredBlock { hash: h, bytes };
        let ghost pushed = sb;
        self.blocks.push(sb);
        proof {
            assert(self.blocks@ == bs.push(pushed));
            assert forall|h2: Seq<u8>| h2 != h@ implies #[trigger] find_stored(self.blocks@, h2)
                == find_stored(bs, h2) by {
                lemma_find_stored_push(bs, pushed, h2);
            }
            lemma_find_stored_push(bs, pushed, h@);
        }
    }

    /// How many objects are recorded.
    pub fn objects_count(&self) -> (r: usize)
        ensures
            r == self.spec_objects().len(),
    {
        self.objects.len()
    }

    /// How many version records are recorded.
    pub fn versions_count(&self) -> (r: usize)
        ensures
            r == self.spec_versions().len(),
    {
        self.versions.len()
    }

    /// How many block reference rows are recorded.
    pub fn block_refs_count(&self) -> (r: usize)
        ensures
            r == self.spec_block_refs().len(),
    {
        self.block_refs.len()
    }

    /// How many content blocks are stored.
    pub fn blocks_count(&self) -> (r: usize)
        ensures
            r == self.spec_blocks().len(),
    {
        self.blocks.len()
    }
}

} // verus!
