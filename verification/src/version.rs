//! Block metadata of one object version.
//!
//! A `Version` record carries the set of blocks uploaded for one version,
//! keyed by `(part_number, offset)` and kept sorted by that key. Concurrent
//! inserts merge by set union; a block already recorded is never displaced.

use vstd::prelude::*;
use crate::Uuid;
use crate::BlockHash;

verus! {

/// One block of one part: where it sits and what it holds.
#[derive(Clone, Copy)]
pub struct VersionBlock {
    pub part_number: u64,
    /// Byte offset within the part.
    pub offset: u64,
    /// Content hash of the block's bytes.
    pub hash: BlockHash,
    /// Length of the block's bytes.
    pub size: u64,
}

/// Reverse index row: this version references this block.
#[derive(Clone, Copy)]
pub struct BlockRef {
    pub block: BlockHash,
    pub version: Uuid,
    pub deleted: bool,
}

/// Order on blocks: by part, then by offset within the part.
pub open spec fn block_key_lt(a: VersionBlock, b: VersionBlock) -> bool {
    a.part_number < b.part_number || (a.part_number == b.part_number && a.offset < b.offset)
}

/// Two blocks at the same position.
pub open spec fn block_key_eq(a: VersionBlock, b: VersionBlock) -> bool {
    a.part_number == b.part_number && a.offset == b.offset
}

/// Strictly sorted by `(part_number, offset)`: sorted, and no position
/// recorded twice.
pub open spec fn blocks_sorted(s: Seq<VersionBlock>) -> bool {
    forall|i: int, j: int| 0 <= i < j < s.len() ==> block_key_lt(s[i], s[j])
}

/// One block merged into a sorted list: placed at its position, unless that
/// position is already taken, in which case the list is unchanged.
pub open spec fn insert_block(s: Seq<VersionBlock>, b: VersionBlock) -> Seq<VersionBlock>
    decreases s.len(),
{
    if s.len() == 0 {
        seq![b]
    } else if block_key_lt(b, s[0]) {
        seq![b] + s
    } else if block_key_eq(b, s[0]) {
        s
    } else {
        seq![s[0]] + insert_block(s.skip(1), b)
    }
}

/// A whole list of blocks merged in, one after the other.
pub open spec fn insert_blocks(s: Seq<VersionBlock>, new: Seq<VersionBlock>) -> Seq<VersionBlock>
    decreases new.len(),
{
    if new.len() == 0 {
        s
    } else {
        insert_blocks(insert_block(s, new[0]), new.skip(1))
    }
}

/// Total bytes covered by a list of blocks.
pub open spec fn sum_block_sizes(s: Seq<VersionBlock>) -> int
    decreases s.len(),
{
    if s.len() == 0 {
        0
    } else {
        s[0].size + sum_block_sizes(s.skip(1))
    }
}

/// Inserting a block whose position is already taken changes nothing.
pub proof fn lemma_insert_block_eq_at(s: Seq<VersionBlock>, b: VersionBlock, j: int)
    requires
        blocks_sorted(s),
        0 <= j < s.len(),
        block_key_eq(b, s[j]),
        forall|i: int| 0 <= i < j ==> block_key_lt(#[trigger] s[i], b),
    ensures
        insert_block(s, b) == s,
    decreases j,
{
    if j == 0 {
        assert(!block_key_lt(b, s[0]));
    } else {
        assert(block_key_lt(s[0], b));
        lemma_insert_block_eq_at(s.skip(1), b, j - 1);
        assert(insert_block(s, b) =~= seq![s[0]] + insert_block(s.skip(1), b));
        assert(seq![s[0]] + s.skip(1) =~= s);
    }
}

/// Inserting a block at a free position splices it in, and keeps the list
/// sorted.
pub proof fn lemma_insert_block_at(s: Seq<VersionBlock>, b: VersionBlock, j: int)
    requires
        blocks_sorted(s),
        0 <= j <= s.len(),
        forall|i: int| 0 <= i < j ==> block_key_lt(#[trigger] s[i], b),
        j < s.len() ==> block_key_lt(b, s[j]),
    ensures
        insert_block(s, b) == s.take(j) + seq![b] + s.skip(j),
        blocks_sorted(insert_block(s, b)),
    decreases j,
{
    if s.len() == 0 {
        assert(insert_block(s, b) =~= s.take(j) + seq![b] + s.skip(j));
    } else if j == 0 {
        assert(block_key_lt(b, s[0]));
        assert(insert_block(s, b) =~= s.take(0) + seq![b] + s.skip(0));
    } else {
        assert(block_key_lt(s[0], b));
        assert(!block_key_lt(b, s[0]) && !block_key_eq(b, s[0]));
        lemma_insert_block_at(s.skip(1), b, j - 1);
        assert(insert_block(s, b) =~= seq![s[0]] + insert_block(s.skip(1), b));
        assert(seq![s[0]] + (s.skip(1).take(j - 1) + seq![b] + s.skip(1).skip(j - 1)) =~= s.take(j)
            + seq![b] + s.skip(j));
    }
    let res = s.take(j) + seq![b] + s.skip(j);
    assert forall|x: int, y: int| 0 <= x < y < res.len() implies block_key_lt(res[x], res[y]) by {
        assert(forall|i: int| 0 <= i < j ==> res[i] == s[i]);
        assert(res[j] == b);
        assert(forall|i: int| j < i < res.len() ==> res[i] == s[i - 1]);
        if x < j && y == j {
            assert(block_key_lt(s[x], b));
        } else if x == j && y > j {
            assert(block_key_lt(b, s[j]));
            if y - 1 > j {
                assert(block_key_lt(s[j], s[y - 1]));
            }
        } else if x < j && y > j {
            if x == y - 1 {
                assert(false);
            } else {
                assert(block_key_lt(s[x], s[y - 1]));
            }
        }
    }
}

/// Merging blocks one more at the end of the batch.
pub proof fn lemma_insert_blocks_push(s: Seq<VersionBlock>, new: Seq<VersionBlock>, b: VersionBlock)
    ensures
        insert_blocks(s, new.push(b)) == insert_block(insert_blocks(s, new), b),
    decreases new.len(),
{
    if new.len() == 0 {
        assert(new.push(b)[0] == b);
        assert(new.push(b).skip(1) =~= Seq::<VersionBlock>::empty());
        assert(insert_blocks(s, new.push(b)) == insert_blocks(
            insert_block(s, b),
            new.push(b).skip(1),
        ));
        assert(insert_blocks(insert_block(s, b), new.push(b).skip(1)) == insert_block(s, b));
        assert(insert_blocks(s, new) == s);
    } else {
        lemma_insert_blocks_push(insert_block(s, new[0]), new.skip(1), b);
        assert(new.push(b)[0] == new[0]);
        assert(new.push(b).skip(1) =~= new.skip(1).push(b));
        assert(insert_blocks(s, new.push(b)) == insert_blocks(
            insert_block(s, new[0]),
            new.skip(1).push(b),
        ));
        assert(insert_blocks(insert_block(s, new[0]), new.skip(1).push(b)) == insert_block(
            insert_blocks(insert_block(s, new[0]), new.skip(1)),
            b,
        ));
        assert(insert_blocks(s, new) == insert_blocks(insert_block(s, new[0]), new.skip(1)));
    }
}

/// Merging a sorted batch of blocks that all sit past the end of a sorted
/// list simply appends the batch.
pub proof fn lemma_insert_blocks_all_greater(s: Seq<VersionBlock>, new: Seq<VersionBlock>)
    requires
        blocks_sorted(s),
        blocks_sorted(new),
        forall|i: int, j: int|
            0 <= i < s.len() && 0 <= j < new.len() ==> block_key_lt(
                #[trigger] s[i],
                #[trigger] new[j],
            ),
    ensures
        insert_blocks(s, new) == s + new,
        blocks_sorted(s + new),
    decreases new.len(),
{
    if new.len() == 0 {
        assert(s + new =~= s);
    } else {
        lemma_insert_block_at(s, new[0], s.len() as int);
        assert(insert_block(s, new[0]) =~= s.push(new[0]));
        assert(blocks_sorted(s.push(new[0])));
        assert(forall|i: int, j: int|
            0 <= i < s.push(new[0]).len() && 0 <= j < new.skip(1).len() ==> block_key_lt(
                #[trigger] s.push(new[0])[i],
                #[trigger] new.skip(1)[j],
            ));
        lemma_insert_blocks_all_greater(s.push(new[0]), new.skip(1));
        assert(s.push(new[0]) + new.skip(1) =~= s + new);
    }
}

/// The blocks a record holds for one part, in their stored order.
pub open spec fn part_blocks(s: Seq<VersionBlock>, p: u64) -> Seq<VersionBlock> {
    s.filter(|b: VersionBlock| b.part_number == p)
}

/// No blocks, no parts.
proof fn lemma_part_blocks_empty(p: u64)
    ensures
        part_blocks(Seq::<VersionBlock>::empty(), p) == Seq::<VersionBlock>::empty(),
{
    reveal(Seq::filter);
}

/// One block belongs to its own part and to no other.
proof fn lemma_part_blocks_single(x: VersionBlock, p: u64)
    ensures
        part_blocks(seq![x], p) == (if x.part_number == p {
            seq![x]
        } else {
            Seq::<VersionBlock>::empty()
        }),
{
    reveal_with_fuel(Seq::filter, 2);
    assert(seq![x].drop_last() =~= Seq::<VersionBlock>::empty());
    assert(seq![x].last() == x);
    if x.part_number == p {
        assert(part_blocks(seq![x], p) =~= seq![x]);
    } else {
        assert(part_blocks(seq![x], p) =~= Seq::<VersionBlock>::empty());
    }
}

/// A part's blocks split over concatenation.
proof fn lemma_part_blocks_add(a: Seq<VersionBlock>, b: Seq<VersionBlock>, p: u64)
    ensures
        part_blocks(a + b, p) == part_blocks(a, p) + part_blocks(b, p),
{
    broadcast use vstd::seq::Seq::filter_distributes_over_add;

}

/// Whatever a part holds was in the record.
proof fn lemma_part_blocks_elements(s: Seq<VersionBlock>, p: u64)
    ensures
        forall|i: int|
            0 <= i < part_blocks(s, p).len() ==> s.contains(#[trigger] part_blocks(s, p)[i]),
    decreases s.len(),
{
    reveal(Seq::filter);
    if s.len() > 0 {
        lemma_part_blocks_elements(s.drop_last(), p);
        assert(forall|i: int| 0 <= i < s.drop_last().len() ==> s.drop_last()[i] == s[i]);
        assert forall|i: int| 0 <= i < part_blocks(s, p).len() implies s.contains(
            #[trigger] part_blocks(s, p)[i],
        ) by {
            let f = part_blocks(s, p);
            let fd = part_blocks(s.drop_last(), p);
            if i < fd.len() {
                assert(fd[i] == f[i]);
                assert(s.drop_last().contains(fd[i]));
                let j = choose|j: int| 0 <= j < s.drop_last().len() && s.drop_last()[j] == fd[i];
                assert(s[j] == f[i]);
            } else {
                assert(f[i] == s.last());
                assert(s[s.len() - 1] == s.last());
            }
        }
    }
}

/// Inserting keeps the list sorted, and adds nothing but the new block.
pub proof fn lemma_insert_block_sorted(s: Seq<VersionBlock>, b: VersionBlock)
    requires
        blocks_sorted(s),
    ensures
        blocks_sorted(insert_block(s, b)),
        forall|i: int|
            0 <= i < insert_block(s, b).len() ==> insert_block(s, b)[i] == b || s.contains(
                #[trigger] insert_block(s, b)[i],
            ),
    decreases s.len(),
{
    let res = insert_block(s, b);
    if s.len() == 0 {
        assert(res =~= seq![b]);
    } else if block_key_lt(b, s[0]) {
        assert(res =~= seq![b] + s);
        assert forall|x: int, y: int| 0 <= x < y < res.len() implies block_key_lt(
            res[x],
            res[y],
        ) by {
            if x == 0 {
                assert(res[y] == s[y - 1]);
                if y > 1 {
                    assert(block_key_lt(s[0], s[y - 1]));
                }
            } else {
                assert(block_key_lt(s[x - 1], s[y - 1]));
            }
        }
        assert forall|i: int| 0 <= i < res.len() implies res[i] == b || s.contains(
            #[trigger] res[i],
        ) by {
            if i > 0 {
                assert(res[i] == s[i - 1]);
            }
        }
    } else if block_key_eq(b, s[0]) {
        assert(res == s);
        assert(forall|i: int| 0 <= i < s.len() ==> s.contains(#[trigger] s[i]));
    } else {
        assert(block_key_lt(s[0], b));
        assert(blocks_sorted(s.skip(1))) by {
            assert(forall|i: int| 0 <= i < s.skip(1).len() ==> s.skip(1)[i] == s[i + 1]);
        }
        lemma_insert_block_sorted(s.skip(1), b);
        let rec = insert_block(s.skip(1), b);
        assert(res =~= seq![s[0]] + rec);
        assert forall|x: int, y: int| 0 <= x < y < res.len() implies block_key_lt(
            res[x],
            res[y],
        ) by {
            if x == 0 {
                assert(res[y] == rec[y - 1]);
                assert(rec[y - 1] == b || s.skip(1).contains(rec[y - 1]));
                if rec[y - 1] != b {
                    let j = choose|j: int|
                        0 <= j < s.skip(1).len() && s.skip(1)[j] == rec[y - 1];
                    assert(s[j + 1] == rec[y - 1]);
                    assert(block_key_lt(s[0], s[j + 1]));
                }
            } else {
                assert(block_key_lt(rec[x - 1], rec[y - 1]));
            }
        }
        assert forall|i: int| 0 <= i < res.len() implies res[i] == b || s.contains(
            #[trigger] res[i],
        ) by {
            if i == 0 {
                assert(s.contains(s[0]));
            } else {
                assert(res[i] == rec[i - 1]);
                if rec[i - 1] != b {
                    let j = choose|j: int|
                        0 <= j < s.skip(1).len() && s.skip(1)[j] == rec[i - 1];
                    assert(s[j + 1] == rec[i - 1]);
                }
            }
        }
    }
}

/// Sorted insertion touches one part alone: the new block's part gains it
/// at its sorted place, every other part reads as before.
pub proof fn lemma_part_blocks_insert(s: Seq<VersionBlock>, b: VersionBlock, p: u64)
    requires
        blocks_sorted(s),
    ensures
        part_blocks(insert_block(s, b), p) == (if b.part_number == p {
            insert_block(part_blocks(s, p), b)
        } else {
            part_blocks(s, p)
        }),
    decreases s.len(),
{
    let res = insert_block(s, b);
    if s.len() == 0 {
        assert(s =~= Seq::<VersionBlock>::empty());
        lemma_part_blocks_empty(p);
        lemma_part_blocks_single(b, p);
        assert(res == seq![b]);
    } else {
        let tail = s.skip(1);
        assert(s =~= seq![s[0]] + tail);
        assert(blocks_sorted(tail)) by {
            assert(forall|i: int| 0 <= i < tail.len() ==> tail[i] == s[i + 1]);
        }
        lemma_part_blocks_add(seq![s[0]], tail, p);
        lemma_part_blocks_single(s[0], p);
        let f = part_blocks(s, p);
        if block_key_lt(b, s[0]) {
            assert(res == seq![b] + s);
            lemma_part_blocks_add(seq![b], s, p);
            lemma_part_blocks_single(b, p);
            if b.part_number == p {
                assert(part_blocks(res, p) == seq![b] + f);
                if f.len() == 0 {
                    assert(insert_block(f, b) =~= seq![b] + f);
                } else {
                    lemma_part_blocks_elements(s, p);
                    assert(s.contains(f[0]));
                    let j = choose|j: int| 0 <= j < s.len() && s[j] == f[0];
                    if j > 0 {
                        assert(block_key_lt(s[0], s[j]));
                    }
                    assert(block_key_lt(b, f[0]));
                    assert(insert_block(f, b) == seq![b] + f);
                }
            } else {
                assert(part_blocks(res, p) == f);
            }
        } else if block_key_eq(b, s[0]) {
            assert(res == s);
            if b.part_number == p {
                assert(s[0].part_number == p);
                assert(f == seq![s[0]] + part_blocks(tail, p));
                assert(f[0] == s[0]);
                assert(!block_key_lt(b, f[0]) && block_key_eq(b, f[0]));
                assert(insert_block(f, b) == f);
            }
        } else {
            assert(block_key_lt(s[0], b));
            lemma_part_blocks_insert(tail, b, p);
            assert(res == seq![s[0]] + insert_block(tail, b));
            lemma_part_blocks_add(seq![s[0]], insert_block(tail, b), p);
            let pt = part_blocks(tail, p);
            if s[0].part_number == p {
                assert(f == seq![s[0]] + pt);
                assert(f[0] == s[0]);
                if b.part_number == p {
                    assert(part_blocks(res, p) == seq![s[0]] + insert_block(pt, b));
                    assert(!block_key_lt(b, f[0]) && !block_key_eq(b, f[0]));
                    assert(insert_block(f, b) == seq![f[0]] + insert_block(f.skip(1), b));
                    assert(f.skip(1) =~= pt);
                    assert(seq![f[0]] + insert_block(pt, b) =~= seq![s[0]] + insert_block(
                        pt,
                        b,
                    ));
                } else {
                    assert(part_blocks(res, p) == seq![s[0]] + pt);
                }
            } else {
                assert(f =~= pt);
                if b.part_number == p {
                    assert(part_blocks(res, p) == insert_block(pt, b));
                } else {
                    assert(part_blocks(res, p) == pt);
                }
            }
        }
    }
}

/// Merging a whole batch of one part's blocks touches that part alone.
pub proof fn lemma_part_blocks_batch(s: Seq<VersionBlock>, new: Seq<VersionBlock>, p: u64)
    requires
        blocks_sorted(s),
        forall|i: int| 0 <= i < new.len() ==> (#[trigger] new[i]).part_number == p,
    ensures
        part_blocks(insert_blocks(s, new), p) == insert_blocks(part_blocks(s, p), new),
        forall|q: u64|
            q != p ==> #[trigger] part_blocks(insert_blocks(s, new), q) == part_blocks(s, q),
        blocks_sorted(insert_blocks(s, new)),
    decreases new.len(),
{
    if new.len() == 0 {
        assert(insert_blocks(s, new) == s);
        assert(insert_blocks(part_blocks(s, p), new) == part_blocks(s, p));
    } else {
        lemma_part_blocks_insert(s, new[0], p);
        lemma_insert_block_sorted(s, new[0]);
        let s1 = insert_block(s, new[0]);
        assert(forall|i: int| 0 <= i < new.skip(1).len() ==> new.skip(1)[i] == new[i + 1]);
        lemma_part_blocks_batch(s1, new.skip(1), p);
        assert(insert_blocks(s, new) == insert_blocks(s1, new.skip(1)));
        assert(insert_blocks(part_blocks(s, p), new) == insert_blocks(
            insert_block(part_blocks(s, p), new[0]),
            new.skip(1),
        ));
        assert(part_blocks(s1, p) == insert_block(part_blocks(s, p), new[0]));
        assert forall|q: u64| q != p implies #[trigger] part_blocks(insert_blocks(s, new), q)
            == part_blocks(s, q) by {
            lemma_part_blocks_insert(s, new[0], q);
        }
    }
}

/// A block list's total size splits at any cut point.
pub proof fn lemma_sum_split(s: Seq<VersionBlock>, i: int)
    requires
        0 <= i <= s.len(),
    ensures
        sum_block_sizes(s) == sum_block_sizes(s.take(i)) + sum_block_sizes(s.skip(i)),
    decreases i,
{
    if i == 0 {
        assert(s.take(0) =~= Seq::<VersionBlock>::empty());
        assert(s.skip(0) =~= s);
    } else {
        lemma_sum_split(s.skip(1), i - 1);
        let t = s.skip(1).take(i - 1);
        assert(s.take(i) =~= seq![s[0]] + t);
        assert((seq![s[0]] + t).skip(1) =~= t);
        assert(sum_block_sizes(s.take(i)) == s[0].size + sum_block_sizes(t));
        assert(s.skip(1).skip(i - 1) =~= s.skip(i));
    }
}

/// No list of blocks covers a negative number of bytes.
pub proof fn lemma_sum_nonneg(s: Seq<VersionBlock>)
    ensures
        sum_block_sizes(s) >= 0,
    decreases s.len(),
{
    if s.len() > 0 {
        lemma_sum_nonneg(s.skip(1));
    }
}

/// The first position in a sorted block list not strictly before `b`.
fn scan_block_pos(blocks: &Vec<VersionBlock>, b: &VersionBlock) -> (j: usize)
    ensures
        j <= blocks@.len(),
        forall|i: int| 0 <= i < j ==> block_key_lt(#[trigger] blocks@[i], *b),
        j < blocks@.len() ==> !block_key_lt(blocks@[j as int], *b),
{
    let mut j: usize = 0;
    while j < blocks.len()
        invariant
            j <= blocks@.len(),
            forall|i: int| 0 <= i < j ==> block_key_lt(#[trigger] blocks@[i], *b),
        decreases blocks@.len() - j,
    {
        let c = blocks[j];
        if !(c.part_number < b.part_number || (c.part_number == b.part_number && c.offset
            < b.offset)) {
            return j;
        }
        j += 1;
    }
    j
}

/// The block metadata record of one version.
pub struct Version {
    pub uuid: Uuid,
    pub bucket: String,
    pub key: String,
    pub deleted: bool,
    /// The recorded blocks; kept strictly sorted by position (see `wf`).
    pub blocks: Vec<VersionBlock>,
}

impl Version {
    /// The recorded blocks, in `(part_number, offset)` order.
    pub open spec fn spec_blocks(&self) -> Seq<VersionBlock> {
        self.blocks@
    }

    /// Blocks are strictly sorted by their position.
    pub open spec fn wf(&self) -> bool {
        blocks_sorted(self.spec_blocks())
    }

    pub fn new(uuid: Uuid, bucket: String, key: String, deleted: bool, blocks: Vec<VersionBlock>) -> (
        r: Version)
        requires
            blocks_sorted(blocks@),
        ensures
            r.uuid == uuid,
            r.bucket == bucket,
            r.key == key,
            r.deleted == deleted,
            r.spec_blocks() == blocks@,
            r.wf(),
    {
        Version { uuid, bucket, key, deleted, blocks }
    }

    /// The recorded blocks.
    pub fn blocks(&self) -> (r: &Vec<VersionBlock>)
        ensures
            r@ == self.spec_blocks(),
    {
        &self.blocks
    }

    /// Record one more block, unless its position is already taken.
    pub fn add_block(&mut self, b: VersionBlock)
        requires
            old(self).wf(),
        ensures
            final(self).wf(),
            final(self).spec_blocks() == insert_block(old(self).spec_blocks(), b),
            final(self).uuid == old(self).uuid,
            final(self).bucket == old(self).bucket,
            final(self).key == old(self).key,
            final(self).deleted == old(self).deleted,
    {
        let ghost s = self.blocks@;
        let j = scan_block_pos(&self.blocks, &b);
        if j < self.blocks.len() {
            let c = self.blocks[j];
            if c.part_number == b.part_number && c.offset == b.offset {
                proof {
                    lemma_insert_block_eq_at(s, b, j as int);
                }
                return ;
            }
            proof {
                assert(!block_key_lt(s[j as int], b) && !block_key_eq(b, s[j as int]));
                assert(block_key_lt(b, s[j as int]));
                lemma_insert_block_at(s, b, j as int);
            }
            self.blocks.insert(j, b);
            proof {
                assert(self.blocks@ =~= s.take(j as int) + seq![b] + s.skip(j as int));
            }
        } else {
            proof {
                lemma_insert_block_at(s, b, j as int);
                assert(s.take(j as int) + seq![b] + s.skip(j as int) =~= s.push(b));
            }
            self.blocks.push(b);
        }
    }
}

} // verus!
