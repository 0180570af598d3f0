//! Splitting a body into fixed-size blocks.
//!
//! A body is cut into blocks of exactly `block_size` bytes, except the last
//! block, which may be shorter but never empty. An empty body yields no
//! blocks at all.

use vstd::prelude::*;

verus! {

/// The first block cut from `s`: all of it if it fits in one block.
pub open spec fn chunk_head(s: Seq<u8>, k: nat) -> Seq<u8> {
    if s.len() <= k {
        s
    } else {
        s.take(k as int)
    }
}

/// What remains of `s` after its first block.
pub open spec fn chunk_tail(s: Seq<u8>, k: nat) -> Seq<u8> {
    if s.len() <= k {
        Seq::empty()
    } else {
        s.skip(k as int)
    }
}

/// The blocks a body is cut into.
pub open spec fn chunks_of(s: Seq<u8>, k: nat) -> Seq<Seq<u8>>
    recommends
        k >= 1,
    decreases s.len(),
{
    if k == 0 || s.len() == 0 {
        Seq::empty()
    } else {
        seq![chunk_head(s, k)] + chunks_of(chunk_tail(s, k), k)
    }
}

/// All blocks laid end to end.
pub open spec fn concat_bytes(ss: Seq<Seq<u8>>) -> Seq<u8>
    decreases ss.len(),
{
    if ss.len() == 0 {
        Seq::empty()
    } else {
        ss[0] + concat_bytes(ss.skip(1))
    }
}

/// Chunking round-trip: for any body and any block size at least one,
/// concatenating the blocks gives the body back; every block except the last
/// holds exactly `k` bytes, and the last holds between one and `k`.
pub proof fn lemma_chunks_round_trip(s: Seq<u8>, k: nat)
    requires
        k >= 1,
    ensures
        concat_bytes(chunks_of(s, k)) == s,
        forall|i: int|
            0 <= i < chunks_of(s, k).len() - 1 ==> (#[trigger] chunks_of(s, k)[i]).len() == k,
        chunks_of(s, k).len() > 0 ==> 1 <= chunks_of(s, k).last().len() <= k,
        forall|i: int|
            0 <= i < chunks_of(s, k).len() ==> 1 <= (#[trigger] chunks_of(s, k)[i]).len() <= k,
        s.len() == 0 <==> chunks_of(s, k).len() == 0,
    decreases s.len(),
{
    if s.len() == 0 {
        assert(concat_bytes(chunks_of(s, k)) =~= s);
    } else {
        let cs = chunks_of(s, k);
        lemma_chunks_round_trip(chunk_tail(s, k), k);
        assert(cs.skip(1) =~= chunks_of(chunk_tail(s, k), k));
        assert(concat_bytes(cs) =~= chunk_head(s, k) + concat_bytes(cs.skip(1)));
        assert(chunk_head(s, k) + chunk_tail(s, k) =~= s);
    }
}

/// A pull-based producer of the blocks of one body.
pub struct BodyChunker {
    body: Vec<u8>,
    pos: usize,
    block_size: usize,
}

impl BodyChunker {
    /// The bytes not yet handed out.
    pub closed spec fn remaining(&self) -> Seq<u8> {
        self.body@.skip(self.pos as int)
    }

    /// The block size this chunker cuts at.
    pub closed spec fn spec_block_size(&self) -> nat {
        self.block_size as nat
    }

    pub closed spec fn wf(&self) -> bool {
        self.pos <= self.body.len() && 1 <= self.block_size
    }

    pub fn new(body: Vec<u8>, block_size: usize) -> (c: Self)
        requires
            1 <= block_size,
        ensures
            c.wf(),
            c.remaining() == body@,
            c.spec_block_size() == block_size as nat,
    {
        let c = BodyChunker { body, pos: 0, block_size };
        proof {
            assert(c.remaining() =~= c.body@);
        }
        c
    }

    /// The next block: `None` only once everything has been handed out.
    pub fn next(&mut self) -> (r: Option<Vec<u8>>)
        requires
            old(self).wf(),
        ensures
            final(self).wf(),
            final(self).spec_block_size() == old(self).spec_block_size(),
            match r {
                None => old(self).remaining().len() == 0 && final(self).remaining() == old(
                    self,
                ).remaining(),
                Some(block) => {
                    &&& old(self).remaining().len() > 0
                    &&& block@ == chunk_head(old(self).remaining(), old(self).spec_block_size())
                    &&& final(self).remaining() == chunk_tail(
                        old(self).remaining(),
                        old(self).spec_block_size(),
                    )
                    &&& 1 <= block@.len() <= old(self).spec_block_size()
                },
            },
    {
        if self.pos >= self.body.len() {
            return None;
        }
        let avail = self.body.len() - self.pos;
        let n = if avail <= self.block_size {
            avail
        } else {
            self.block_size
        };
        let mut block: Vec<u8> = Vec::new();
        let mut i: usize = 0;
        while i < n
            invariant
                i <= n,
                self.pos + n <= self.body.len(),
                block@ =~= self.body@.subrange(self.pos as int, self.pos + i as int),
            decreases n - i,
        {
            block.push(self.body[self.pos + i]);
            i += 1;
        }
        proof {
            let rem = self.remaining();
            let k = self.spec_block_size();
            assert(block@ =~= chunk_head(rem, k));
            assert(self.body@.skip(self.pos + n as int) =~= chunk_tail(rem, k));
        }
        self.pos = self.pos + n;
        Some(block)
    }
}

} // verus!
