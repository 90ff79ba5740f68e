//! The hybrid run-length / bit-packed index stream that a dictionary-encoded
//! page stores. The stream is a finite sequence of chunks; each chunk either
//! repeats one index (run-length) or carries a run of bit-packed indices. Its
//! mathematical content is the flat sequence of `u32` indices it emits, capped
//! by a limit that callers may lower before decoding.

use vstd::prelude::*;

verus! {

/// One chunk of the stream: `length` copies of one index, or a bit-packed run.
pub enum HybridRleChunk {
    Rle(u32, usize),
    Bitpacked(Vec<u32>),
}

/// The indices one chunk emits.
pub open spec fn chunk_indices(c: HybridRleChunk) -> Seq<u32> {
    match c {
        HybridRleChunk::Rle(value, length) => Seq::new(length as nat, |i: int| value),
        HybridRleChunk::Bitpacked(indices) => indices@,
    }
}

/// The indices a sequence of chunks emits, in order.
pub open spec fn chunks_indices(cs: Seq<HybridRleChunk>) -> Seq<u32>
    decreases cs.len(),
{
    if cs.len() == 0 {
        Seq::empty()
    } else {
        chunks_indices(cs.drop_last()) + chunk_indices(cs.last())
    }
}

pub proof fn lemma_chunks_indices_take_step(cs: Seq<HybridRleChunk>, i: int)
    requires
        0 <= i < cs.len(),
    ensures
        chunks_indices(cs.take(i + 1)) == chunks_indices(cs.take(i)) + chunk_indices(cs[i]),
{
    assert(cs.take(i + 1).drop_last() =~= cs.take(i));
    assert(cs.take(i + 1).last() == cs[i]);
}

/// The indices of a chunk prefix are a prefix of the indices of the whole.
pub proof fn lemma_chunks_indices_prefix(cs: Seq<HybridRleChunk>, i: int)
    requires
        0 <= i <= cs.len(),
    ensures
        chunks_indices(cs.take(i)).len() <= chunks_indices(cs).len(),
        chunks_indices(cs).take(chunks_indices(cs.take(i)).len() as int) == chunks_indices(
            cs.take(i),
        ),
    decreases cs.len() - i,
{
    if i == cs.len() {
        assert(cs.take(i) =~= cs);
        assert(chunks_indices(cs).take(chunks_indices(cs).len() as int) =~= chunks_indices(cs));
    } else {
        lemma_chunks_indices_prefix(cs, i + 1);
        lemma_chunks_indices_take_step(cs, i);
        let pre_i = chunks_indices(cs.take(i));
        let pre_i1 = chunks_indices(cs.take(i + 1));
        assert(pre_i1.take(pre_i.len() as int) =~= pre_i);
        assert(chunks_indices(cs).take(pre_i.len() as int) =~= chunks_indices(cs).take(
            pre_i1.len() as int,
        ).take(pre_i.len() as int));
    }
}

/// Within the limited stream, the indices that follow the chunks before `ci`
/// are the first `t` indices of chunk `ci` itself.
pub proof fn lemma_stream_segment(cs: Seq<HybridRleChunk>, limit: int, ci: int, t: int)
    requires
        0 <= ci < cs.len(),
        0 <= limit <= chunks_indices(cs).len(),
        chunks_indices(cs.take(ci)).len() + t <= limit,
        0 <= t <= chunk_indices(cs[ci]).len(),
    ensures
        chunks_indices(cs).take(limit).take(chunks_indices(cs.take(ci)).len() + t)
            == chunks_indices(cs.take(ci)) + chunk_indices(cs[ci]).take(t),
{
    let pre = chunks_indices(cs.take(ci));
    let chunk = chunk_indices(cs[ci]);
    lemma_chunks_indices_prefix(cs, ci);
    lemma_chunks_indices_prefix(cs, ci + 1);
    lemma_chunks_indices_take_step(cs, ci);
    let pre1 = chunks_indices(cs.take(ci + 1));
    assert(pre1 == pre + chunk);
    assert(chunks_indices(cs).take(pre1.len() as int) == pre1);
    assert forall|k: int| 0 <= k < pre.len() + t implies chunks_indices(cs).take(limit)[k] == (pre
        + chunk.take(t))[k] by {
        assert(chunks_indices(cs).take(limit)[k] == chunks_indices(cs)[k]);
        assert(chunks_indices(cs)[k] == chunks_indices(cs).take(pre1.len() as int)[k]);
        assert(pre1[k] == (pre + chunk)[k]);
    }
    assert(chunks_indices(cs).take(limit).take(pre.len() + t) =~= pre + chunk.take(t));
}

/// A lazy producer of index chunks, with the total index count known up front
/// and a limit that clamps how many indices it will emit.
pub struct HybridRleDecoder {
    chunks: Vec<HybridRleChunk>,
    limit: usize,
}

impl View for HybridRleDecoder {
    type V = Seq<u32>;

    /// The indices this decoder emits: the chunks' indices, capped at the limit.
    closed spec fn view(&self) -> Seq<u32> {
        chunks_indices(self.chunks@).take(self.limit as int)
    }
}

impl HybridRleDecoder {
    /// The limit never exceeds the indices the chunks can emit.
    pub closed spec fn wf(&self) -> bool {
        self.limit <= chunks_indices(self.chunks@).len()
    }

    pub closed spec fn spec_chunks(&self) -> Seq<HybridRleChunk> {
        self.chunks@
    }

    pub closed spec fn spec_limit(&self) -> nat {
        self.limit as nat
    }

    pub proof fn lemma_view_is_chunks_prefix(&self)
        requires
            self.wf(),
        ensures
            self@ == chunks_indices(self.spec_chunks()).take(self.spec_limit() as int),
            self@.len() == self.spec_limit(),
            self.spec_limit() <= chunks_indices(self.spec_chunks()).len(),
    {
    }

    /// Wrap a chunk list. Fails only when the chunks would emit more indices
    /// than a machine length can hold.
    pub fn new(chunks: Vec<HybridRleChunk>) -> (r: Option<HybridRleDecoder>)
        ensures
            match r {
                Some(d) => d.wf() && d@ == chunks_indices(chunks@) && chunks_indices(
                    chunks@,
                ).len() <= usize::MAX,
                None => chunks_indices(chunks@).len() > usize::MAX,
            },
    {
        let n = chunks.len();
        let mut total: usize = 0;
        let mut i: usize = 0;
        while i < n
            invariant
                0 <= i <= n,
                n == chunks@.len(),
                total == chunks_indices(chunks@.take(i as int)).len(),
            decreases n - i,
        {
            proof {
                lemma_chunks_indices_take_step(chunks@, i as int);
            }
            let chunk_len = match &chunks[i] {
                HybridRleChunk::Rle(_, length) => *length,
                HybridRleChunk::Bitpacked(indices) => indices.len(),
            };
            if chunk_len > usize::MAX - total {
                proof {
                    lemma_chunks_indices_prefix(chunks@, i + 1);
                }
                return None;
            }
            total = total + chunk_len;
            i = i + 1;
        }
        proof {
            assert(chunks@.take(n as int) =~= chunks@);
            assert(chunks_indices(chunks@).take(total as int) =~= chunks_indices(chunks@));
        }
        Some(HybridRleDecoder { chunks, limit: total })
    }

    /// How many indices remain to be emitted.
    pub fn len(&self) -> (r: usize)
        requires
            self.wf(),
        ensures
            r == self@.len(),
    {
        self.limit
    }

    /// Clamp future output to at most `n` indices.
    pub fn limit_to(&mut self, n: usize)
        requires
            old(self).wf(),
        ensures
            final(self).wf(),
            final(self)@ == if n <= old(self)@.len() {
                old(self)@.take(n as int)
            } else {
                old(self)@
            },
    {
        if n < self.limit {
            self.limit = n;
            proof {
                assert(chunks_indices(self.chunks@).take(n as int) =~= chunks_indices(
                    self.chunks@,
                ).take(old(self).limit as int).take(n as int));
            }
        } else {
            proof {
                assert(self@.take(self.limit as int) =~= self@);
            }
        }
    }

    /// The number of chunks.
    pub(crate) fn chunk_count(&self) -> (r: usize)
        ensures
            r == self.spec_chunks().len(),
    {
        self.chunks.len()
    }

    /// The chunk at position `i`.
    pub(crate) fn get_chunk(&self, i: usize) -> (r: &HybridRleChunk)
        requires
            i < self.spec_chunks().len(),
        ensures
            *r == self.spec_chunks()[i as int],
    {
        &self.chunks[i]
    }
}

} // verus!
