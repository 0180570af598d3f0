//! The object version model and its merge rules.
//!
//! An object holds a set of versions keyed by uuid. Concurrent inserts of
//! the same object key merge by union of the version sets; two records of
//! the same version merge by state priority: `Complete` and `Aborted` both
//! beat `Uploading`, and a version never leaves a terminal state.

use vstd::prelude::*;
use crate::Uuid;
use crate::BlockHash;

verus! {

/// Lifecycle state of one object version.
#[derive(Clone, Copy, PartialEq, Eq, Structural)]
pub enum ObjectVersionState {
    Uploading,
    Complete,
    Aborted,
}

/// Where the content of one object version lives.
pub enum ObjectVersionData {
    /// Content not yet known: a multipart upload in progress.
    Uploading,
    /// Content stored inline in the version record itself.
    Inline(Vec<u8>),
    /// Content in block storage; the hash of its first block.
    FirstBlock(BlockHash),
    /// No content: the version tombstones everything before it.
    DeleteMarker,
}

/// The mathematical shape of `ObjectVersionData`.
pub enum VersionDataModel {
    Uploading,
    Inline(Seq<u8>),
    FirstBlock(BlockHash),
    DeleteMarker,
}

/// The model of a data field.
pub open spec fn data_model(d: ObjectVersionData) -> VersionDataModel {
    match d {
        ObjectVersionData::Uploading => VersionDataModel::Uploading,
        ObjectVersionData::Inline(b) => VersionDataModel::Inline(b@),
        ObjectVersionData::FirstBlock(h) => VersionDataModel::FirstBlock(h),
        ObjectVersionData::DeleteMarker => VersionDataModel::DeleteMarker,
    }
}

/// One immutable-once-committed snapshot of an object.
pub struct ObjectVersion {
    pub uuid: Uuid,
    /// Milliseconds since the epoch; fixed when the upload starts.
    pub timestamp: u64,
    pub mime_type: String,
    pub size: u64,
    pub state: ObjectVersionState,
    pub data: ObjectVersionData,
}

/// Merge priority of a version state: both terminal states beat
/// `Uploading`, and `Complete` is never displaced.
pub open spec fn state_rank(s: ObjectVersionState) -> int {
    match s {
        ObjectVersionState::Uploading => 0,
        ObjectVersionState::Aborted => 1,
        ObjectVersionState::Complete => 2,
    }
}

/// Two records of the same version merge by state priority; on equal
/// priority the record already stored wins.
pub open spec fn merge_version(cur: ObjectVersion, new: ObjectVersion) -> ObjectVersion {
    if state_rank(new.state) > state_rank(cur.state) {
        new
    } else {
        cur
    }
}

/// One version merged into a version list: the first record with the same
/// uuid is merged in place, or the version is appended.
pub open spec fn add_version(vs: Seq<ObjectVersion>, v: ObjectVersion) -> Seq<ObjectVersion>
    decreases vs.len(),
{
    if vs.len() == 0 {
        seq![v]
    } else if vs[0].uuid@ == v.uuid@ {
        seq![merge_version(vs[0], v)] + vs.skip(1)
    } else {
        seq![vs[0]] + add_version(vs.skip(1), v)
    }
}

/// A whole list of versions merged in, one after the other.
pub open spec fn add_versions(vs: Seq<ObjectVersion>, new: Seq<ObjectVersion>) -> Seq<ObjectVersion>
    decreases new.len(),
{
    if new.len() == 0 {
        vs
    } else {
        add_versions(add_version(vs, new[0]), new.skip(1))
    }
}

/// The first version with the given uuid.
pub open spec fn find_version(vs: Seq<ObjectVersion>, uuid: Seq<u8>) -> Option<ObjectVersion>
    decreases vs.len(),
{
    if vs.len() == 0 {
        None
    } else if vs[0].uuid@ == uuid {
        Some(vs[0])
    } else {
        find_version(vs.skip(1), uuid)
    }
}

/// No two versions share a uuid.
pub open spec fn uuids_unique(vs: Seq<ObjectVersion>) -> bool {
    forall|i: int, j: int| 0 <= i < j < vs.len() ==> vs[i].uuid@ != vs[j].uuid@
}

/// A version awaiting multipart data: uploading in both state and content.
pub open spec fn pending(v: ObjectVersion) -> bool {
    v.state is Uploading && v.data is Uploading
}

/// Whether two uuids hold the same bytes.
pub fn uuid_eq(a: &Uuid, b: &Uuid) -> (r: bool)
    ensures
        r == (a@ == b@),
{
    let mut i: usize = 0;
    while i < 32
        invariant
            i <= 32,
            forall|j: int| 0 <= j < i ==> a@[j] == b@[j],
        decreases 32 - i,
    {
        if a[i] != b[i] {
            assert(a@[i as int] != b@[i as int]);
            return false;
        }
        i += 1;
    }
    assert(a@ =~= b@);
    true
}

/// Merge priority of a state, as executable code.
pub fn state_rank_exec(s: &ObjectVersionState) -> (r: u8)
    ensures
        r as int == state_rank(*s),
{
    match s {
        ObjectVersionState::Uploading => 0,
        ObjectVersionState::Aborted => 1,
        ObjectVersionState::Complete => 2,
    }
}

/// Whether a version awaits multipart data.
pub fn is_pending(v: &ObjectVersion) -> (r: bool)
    ensures
        r == pending(*v),
{
    match (&v.state, &v.data) {
        (ObjectVersionState::Uploading, ObjectVersionData::Uploading) => true,
        _ => false,
    }
}

/// Merging a version whose uuid appears nowhere appends it.
pub proof fn lemma_add_version_no_match(vs: Seq<ObjectVersion>, v: ObjectVersion)
    requires
        forall|i: int| 0 <= i < vs.len() ==> (#[trigger] vs[i]).uuid@ != v.uuid@,
    ensures
        add_version(vs, v) == vs.push(v),
    decreases vs.len(),
{
    if vs.len() == 0 {
        assert(add_version(vs, v) =~= vs.push(v));
    } else {
        lemma_add_version_no_match(vs.skip(1), v);
        assert(add_version(vs, v) =~= vs.push(v));
    }
}

/// Merging a version whose uuid first appears at `j` rewrites that entry
/// alone.
pub proof fn lemma_add_version_match_at(vs: Seq<ObjectVersion>, v: ObjectVersion, j: int)
    requires
        0 <= j < vs.len(),
        vs[j].uuid@ == v.uuid@,
        forall|i: int| 0 <= i < j ==> (#[trigger] vs[i]).uuid@ != v.uuid@,
    ensures
        add_version(vs, v) == vs.update(j, merge_version(vs[j], v)),
    decreases j,
{
    if j == 0 {
        assert(add_version(vs, v) =~= vs.update(0, merge_version(vs[0], v)));
    } else {
        lemma_add_version_match_at(vs.skip(1), v, j - 1);
        assert(vs.skip(1).update(j - 1, merge_version(vs[j], v)) =~= vs.update(
            j,
            merge_version(vs[j], v),
        ).skip(1));
        assert(add_version(vs, v) =~= vs.update(j, merge_version(vs[j], v)));
    }
}

/// How a lookup reads after one merge: the merged uuid now holds the merge
/// of what was there (or the new version), and every other uuid is
/// untouched.
pub proof fn lemma_find_after_add(vs: Seq<ObjectVersion>, v: ObjectVersion, u: Seq<u8>)
    ensures
        find_version(add_version(vs, v), u) == (if u == v.uuid@ {
            match find_version(vs, u) {
                Some(c) => Some(merge_version(c, v)),
                None => Some(v),
            }
        } else {
            find_version(vs, u)
        }),
    decreases vs.len(),
{
    if vs.len() == 0 {
        let res = seq![v];
        assert(add_version(vs, v) == res);
        assert(res[0] == v);
        if u == v.uuid@ {
            assert(find_version(res, u) == Some(v));
        } else {
            assert(find_version(res, u) == find_version(res.skip(1), u));
            assert(res.skip(1) =~= Seq::<ObjectVersion>::empty());
        }
    } else if vs[0].uuid@ == v.uuid@ {
        let merged = merge_version(vs[0], v);
        assert(merged.uuid@ == v.uuid@);
        let res = seq![merged] + vs.skip(1);
        assert(add_version(vs, v) == res);
        assert(res[0] == merged);
        assert(res.skip(1) =~= vs.skip(1));
        if u == v.uuid@ {
            assert(find_version(res, u) == Some(merged));
            assert(find_version(vs, u) == Some(vs[0]));
        } else {
            assert(find_version(res, u) == find_version(vs.skip(1), u));
            assert(find_version(vs, u) == find_version(vs.skip(1), u));
        }
    } else {
        lemma_find_after_add(vs.skip(1), v, u);
        let res = seq![vs[0]] + add_version(vs.skip(1), v);
        assert(add_version(vs, v) == res);
        assert(res[0] == vs[0]);
        assert(res.skip(1) =~= add_version(vs.skip(1), v));
        if u == vs[0].uuid@ {
            assert(find_version(res, u) == Some(vs[0]));
            assert(find_version(vs, u) == Some(vs[0]));
        } else {
            assert(find_version(res, u) == find_version(add_version(vs.skip(1), v), u));
            assert(find_version(vs, u) == find_version(vs.skip(1), u));
        }
    }
}

/// Every version's timestamp leaves room for a strictly later one.
pub open spec fn ts_bounded(vs: Seq<ObjectVersion>) -> bool {
    forall|i: int| 0 <= i < vs.len() ==> (#[trigger] vs[i]).timestamp < u64::MAX
}

/// What a lookup returns is one of the entries.
pub proof fn lemma_find_version_element(vs: Seq<ObjectVersion>, u: Seq<u8>)
    requires
        find_version(vs, u) is Some,
    ensures
        exists|i: int|
            0 <= i < vs.len() && vs[i] == find_version(vs, u)->Some_0 && vs[i].uuid@ == u,
    decreases vs.len(),
{
    if vs.len() > 0 && vs[0].uuid@ != u {
        lemma_find_version_element(vs.skip(1), u);
        let i = choose|i: int|
            0 <= i < vs.skip(1).len() && vs.skip(1)[i] == find_version(vs.skip(1), u)->Some_0
                && vs.skip(1)[i].uuid@ == u;
        assert(vs[i + 1] == vs.skip(1)[i]);
    }
}

/// An object of the store: a key and the versions recorded under it.
pub struct Object {
    pub bucket: String,
    pub key: String,
    /// The recorded versions; no uuid appears twice (see `wf`).
    pub versions: Vec<ObjectVersion>,
}

impl Object {
    /// The recorded versions.
    pub open spec fn spec_versions(&self) -> Seq<ObjectVersion> {
        self.versions@
    }

    pub open spec fn wf(&self) -> bool {
        uuids_unique(self.versions@)
    }

    pub fn new(bucket: String, key: String, versions: Vec<ObjectVersion>) -> (r: Object)
        requires
            uuids_unique(versions@),
        ensures
            r.bucket == bucket,
            r.key == key,
            r.versions@ == versions@,
            r.wf(),
    {
        Object { bucket, key, versions }
    }

    /// The recorded versions.
    pub fn versions(&self) -> (r: &Vec<ObjectVersion>)
        ensures
            r@ == self.spec_versions(),
    {
        &self.versions
    }

    /// The version recorded under a uuid, if any.
    pub fn find_version_ref(&self, u: &Uuid) -> (r: Option<&ObjectVersion>)
        ensures
            match r {
                Some(v) => find_version(self.spec_versions(), u@) == Some(*v),
                None => find_version(self.spec_versions(), u@) is None,
            },
    {
        let mut i: usize = 0;
        proof {
            assert(self.versions@.skip(0) =~= self.versions@);
        }
        while i < self.versions.len()
            invariant
                i <= self.versions@.len(),
                find_version(self.versions@, u@) == find_version(self.versions@.skip(i as int), u@),
            decreases self.versions@.len() - i,
        {
            if uuid_eq(&self.versions[i].uuid, u) {
                proof {
                    assert(self.versions@.skip(i as int)[0] == self.versions@[i as int]);
                }
                return Some(&self.versions[i]);
            }
            proof {
                assert(self.versions@.skip(i as int)[0] == self.versions@[i as int]);
                assert(self.versions@.skip(i as int).skip(1) =~= self.versions@.skip(i + 1));
            }
            i += 1;
        }
        proof {
            assert(self.versions@.skip(i as int) =~= Seq::<ObjectVersion>::empty());
        }
        None
    }

    /// Merge one version record into this object, by the state-priority
    /// rule.
    pub fn merge_version_entry(&mut self, v: ObjectVersion)
        requires
            old(self).wf(),
        ensures
            final(self).versions@ == add_version(old(self).versions@, v),
            final(self).wf(),
            final(self).bucket == old(self).bucket,
            final(self).key == old(self).key,
            ts_bounded(old(self).versions@) && v.timestamp < u64::MAX ==> ts_bounded(
                final(self).versions@,
            ),
    {
        let ghost s = old(self).versions@;
        let mut i: usize = 0;
        while i < self.versions.len()
            invariant
                i <= s.len(),
                self.versions@ == s,
                s == old(self).versions@,
                self.bucket == old(self).bucket,
                self.key == old(self).key,
                uuids_unique(s),
                forall|j: int| 0 <= j < i ==> (#[trigger] s[j]).uuid@ != v.uuid@,
            decreases s.len() - i,
        {
            if uuid_eq(&self.versions[i].uuid, &v.uuid) {
                proof {
                    lemma_add_version_match_at(s, v, i as int);
                }
                let cur_rank = state_rank_exec(&self.versions[i].state);
                let new_rank = state_rank_exec(&v.state);
                if new_rank > cur_rank {
                    proof {
                        assert(merge_version(s[i as int], v) == v);
                    }
                    self.versions[i] = v;
                } else {
                    proof {
                        assert(merge_version(s[i as int], v) == s[i as int]);
                        assert(s.update(i as int, s[i as int]) =~= s);
                    }
                }
                return ;
            }
            i += 1;
        }
        proof {
            lemma_add_version_no_match(s, v);
        }
        self.versions.push(v);
    }
}

/// Commit atomicity, seen from a reader: once a lookup of the object table
/// shows a version as `Complete`, no later merge ever shows that version as
/// `Uploading` or `Aborted` again; the committed record does not change at
/// all.
pub proof fn lemma_complete_never_regresses(
    vs: Seq<ObjectVersion>,
    news: Seq<ObjectVersion>,
    u: Seq<u8>,
)
    requires
        find_version(vs, u) matches Some(c) && c.state is Complete,
    ensures
        find_version(add_versions(vs, news), u) == find_version(vs, u),
    decreases news.len(),
{
    if news.len() > 0 {
        lemma_find_after_add(vs, news[0], u);
        lemma_complete_never_regresses(add_version(vs, news[0]), news.skip(1), u);
    }
}

} // verus!
