use vstd::prelude::*;
use crate::networking::chunk::{Chunk, CHUNK_SIZE};
use crate::networking::chunkpool::ChunkPool;

verus! {

/// The bytes held by a sequence of chunks, in order.
pub open spec fn joined(chunks: Seq<Chunk>) -> Seq<u8>
    decreases chunks.len(),
{
    if chunks.len() == 0 {
        Seq::empty()
    } else {
        joined(chunks.drop_last()) + chunks.last().content()
    }
}

proof fn lemma_joined_push(chunks: Seq<Chunk>, c: Chunk)
    ensures
        joined(chunks.push(c)) == joined(chunks) + c.content(),
{
    assert(chunks.push(c).drop_last() =~= chunks);
}

proof fn lemma_joined_update_last(chunks: Seq<Chunk>, c: Chunk)
    requires
        chunks.len() > 0,
    ensures
        joined(chunks.update(chunks.len() - 1, c)) == joined(chunks.drop_last()) + c.content(),
{
    assert(chunks.update(chunks.len() - 1, c).drop_last() =~= chunks.drop_last());
}

proof fn lemma_joined_front(chunks: Seq<Chunk>)
    requires
        chunks.len() > 0,
    ensures
        joined(chunks) == chunks[0].content() + joined(chunks.subrange(1, chunks.len() as int)),
    decreases chunks.len(),
{
    if chunks.len() == 1 {
        assert(chunks.drop_last() =~= Seq::<Chunk>::empty());
        assert(chunks.subrange(1, 1) =~= Seq::<Chunk>::empty());
        assert(joined(Seq::<Chunk>::empty()) =~= Seq::<u8>::empty());
        assert(chunks[0].content() + Seq::<u8>::empty() =~= chunks[0].content());
    } else {
        lemma_joined_front(chunks.drop_last());
        let rest = chunks.subrange(1, chunks.len() as int);
        assert(rest.drop_last() =~= chunks.drop_last().subrange(1, chunks.drop_last().len() as int));
        assert(rest.last() == chunks.last());
        assert(joined(chunks) =~= chunks[0].content() + joined(rest));
    }
}

proof fn lemma_joined_update_front(chunks: Seq<Chunk>, c: Chunk)
    requires
        chunks.len() > 0,
    ensures
        joined(chunks.update(0, c)) == c.content() + joined(chunks.subrange(1, chunks.len() as int)),
{
    lemma_joined_front(chunks.update(0, c));
    assert(chunks.update(0, c).subrange(1, chunks.len() as int) =~= chunks.subrange(1, chunks.len() as int));
}

/// A dynamically sized, buffered FIFO byte queue made of chunks. Data is appended to the last
/// chunk and read from the first one. There is always at least one chunk.
pub struct Buffer {
    chunks: Vec<Chunk>,
}

impl View for Buffer {
    type V = Seq<u8>;

    /// The queued bytes, oldest first.
    open spec fn view(&self) -> Seq<u8> {
        joined(self.chunk_seq())
    }
}

impl Buffer {
    pub closed spec fn chunk_seq(&self) -> Seq<Chunk> {
        self.chunks@
    }

    /// At least one chunk, and every chunk is well formed.
    pub open spec fn wf(&self) -> bool {
        &&& self.chunk_seq().len() > 0
        &&& forall|k: int| 0 <= k < self.chunk_seq().len() ==> #[trigger] self.chunk_seq()[k].wf()
    }

    /// A new buffer holding one chunk from the pool, with whatever that chunk holds (nothing,
    /// for a chunk that was drained before it was reclaimed).
    pub fn new(pool: &mut ChunkPool) -> (buffer: Buffer)
        requires
            old(pool).wf(),
        ensures
            final(pool).wf(),
            buffer.wf(),
            buffer.chunk_seq().len() == 1,
            buffer@ == buffer.chunk_seq()[0].content(),
            buffer@ == old(pool).next_content(),
            old(pool).chunks().len() > 0 ==> final(pool).chunks() == old(pool).chunks().drop_last(),
            old(pool).chunks().len() == 0 ==> final(pool).chunks() == old(pool).chunks(),
    {
        let chunk = pool.allocate();
        let mut chunks = Vec::new();
        chunks.push(chunk);
        let buffer = Buffer { chunks };
        proof {
            lemma_joined_push(Seq::<Chunk>::empty(), chunk);
            assert(buffer.chunk_seq() =~= Seq::<Chunk>::empty().push(chunk));
            assert(Seq::<u8>::empty() + chunk.content() =~= chunk.content());
        }
        buffer
    }

    /// Number of chunks in use.
    pub fn chunk_count(&self) -> (n: usize)
        ensures
            n == self.chunk_seq().len(),
    {
        self.chunks.len()
    }

    /// The bytes to send next: the data of the first chunk.
    pub fn front_data(&self) -> (bytes: &[u8])
        requires
            self.wf(),
        ensures
            bytes@ == self.chunk_seq()[0].content(),
    {
        self.chunks[0].data_slice()
    }

    /// Free space of the last chunk: how many bytes the next read may bring in.
    pub fn free_space(&self) -> (n: usize)
        requires
            self.wf(),
        ensures
            n == CHUNK_SIZE - self.chunk_seq().last().tail(),
    {
        let last = self.chunks.len() - 1;
        self.chunks[last].capacity()
    }

    /// Account for `count` bytes of the front chunk having been sent. A fully sent front chunk is
    /// returned to the pool, emptied, unless it is the only one. Returns `true` when the buffer
    /// holds no more data, that is, when nothing is left to send.
    pub fn consume(&mut self, count: usize, pool: &mut ChunkPool) -> (drained: bool)
        requires
            old(self).wf(),
            old(pool).wf(),
            count <= old(self).chunk_seq()[0].content().len(),
        ensures
            final(self).wf(),
            final(pool).wf(),
            final(self)@ == old(self)@.skip(count as int),
            drained == (final(self).chunk_seq().len() == 1 && final(self)@.len() == 0),
            count == old(self).chunk_seq()[0].content().len() && old(self).chunk_seq().len() > 1 ==> {
                &&& final(pool).chunks().len() == old(pool).chunks().len() + 1
                &&& final(pool).chunks().drop_last() == old(pool).chunks()
                &&& final(pool).chunks().last().storage() == old(self).chunk_seq()[0].storage()
                &&& final(pool).chunks().last().head() == 0
                &&& final(pool).chunks().last().tail() == 0
                &&& final(self).chunk_seq() == old(self).chunk_seq().subrange(1, old(self).chunk_seq().len() as int)
            },
            !(count == old(self).chunk_seq()[0].content().len() && old(self).chunk_seq().len() > 1)
                ==> final(pool).chunks() == old(pool).chunks(),
    {
        let ghost before = self.chunks@;
        proof {
            lemma_joined_front(before);
        }
        let mut front = self.chunks.remove(0);
        let ghost rest = self.chunks@;
        assert(rest =~= before.subrange(1, before.len() as int));
        assert(front.wf()) by {
            assert(before[0].wf());
        }
        proof {
            front.lemma_wf();
        }
        front.advance(count);
        proof {
            front.lemma_wf();
        }
        let done = front.remaining_data() == 0;
        if done && self.chunks.len() > 0 {
            pool.reclaim(front);
            proof {
                assert forall|k: int| 0 <= k < self.chunk_seq().len() implies #[trigger] self.chunk_seq()[k].wf() by {
                    assert(self.chunk_seq()[k] == before[k + 1]);
                }
                assert(front.content() =~= Seq::<u8>::empty());
                assert(old(self)@.skip(count as int) =~= joined(rest));
                assert(self.chunk_seq() =~= before.subrange(1, before.len() as int));
                assert(pool.chunks().drop_last() =~= old(pool).chunks());
            }
            self.is_drained()
        } else {
            self.chunks.insert(0, front);
            proof {
                assert(self.chunks@ =~= before.update(0, front));
                lemma_joined_update_front(before, front);
                assert forall|k: int| 0 <= k < self.chunk_seq().len() implies #[trigger] self.chunk_seq()[k].wf() by {
                    if k > 0 {
                        assert(self.chunk_seq()[k] == before[k]);
                    }
                }
                assert(old(self)@.skip(count as int) =~= front.content() + joined(rest));
                if rest.len() == 0 {
                    assert(joined(rest) =~= Seq::<u8>::empty());
                }
            }
            self.is_drained()
        }
    }

    /// Does the buffer hold nothing but one empty chunk?
    pub fn is_drained(&self) -> (b: bool)
        requires
            self.wf(),
        ensures
            b == (self.chunk_seq().len() == 1 && self@.len() == 0),
    {
        proof {
            assert(self.chunk_seq()[0].wf());
            self.chunk_seq()[0].lemma_wf();
            if self.chunk_seq().len() == 1 {
                assert(self.chunk_seq().drop_last() =~= Seq::<Chunk>::empty());
                assert(joined(Seq::<Chunk>::empty()) =~= Seq::<u8>::empty());
                assert(self@ =~= self.chunk_seq()[0].content());
            }
        }
        self.chunks.len() == 1 && self.chunks[0].remaining_data() == 0
    }

    /// Append bytes that were read into the buffer. When the last chunk fills up, a chunk from
    /// the pool is added, as it is, to receive further data.
    pub fn produce(&mut self, bytes: &[u8], pool: &mut ChunkPool)
        requires
            old(self).wf(),
            old(pool).wf(),
            bytes@.len() <= CHUNK_SIZE - old(self).chunk_seq().last().tail(),
        ensures
            final(self).wf(),
            final(pool).wf(),
            old(self).chunk_seq().last().tail() + bytes@.len() < CHUNK_SIZE ==> {
                &&& final(self)@ == old(self)@ + bytes@
                &&& final(pool).chunks() == old(pool).chunks()
                &&& final(self).chunk_seq().len() == old(self).chunk_seq().len()
            },
            old(self).chunk_seq().last().tail() + bytes@.len() == CHUNK_SIZE ==> {
                &&& final(self)@ == old(self)@ + bytes@ + old(pool).next_content()
                &&& final(self).chunk_seq().len() == old(self).chunk_seq().len() + 1
                &&& old(pool).chunks().len() > 0 ==> final(pool).chunks() == old(pool).chunks().drop_last()
                &&& old(pool).chunks().len() == 0 ==> final(pool).chunks() == old(pool).chunks()
            },
    {
        let ghost before = self.chunks@;
        let mut last = self.chunks.pop().unwrap();
        assert(last.wf()) by {
            assert(before[before.len() - 1].wf());
        }
        last.write(bytes);
        let full = last.capacity() == 0;
        self.chunks.push(last);
        proof {
            assert(self.chunks@ =~= before.update(before.len() - 1, last));
            lemma_joined_update_last(before, last);
            assert(joined(before) == joined(before.drop_last()) + before.last().content());
            assert(old(self)@ + bytes@ =~= joined(before.drop_last()) + last.content());
            assert forall|k: int| 0 <= k < self.chunk_seq().len() implies #[trigger] self.chunk_seq()[k].wf() by {
                if k < before.len() - 1 {
                    assert(self.chunk_seq()[k] == before[k]);
                }
            }
        }
        if full {
            let fresh = pool.allocate();
            let ghost mid = self.chunks@;
            self.chunks.push(fresh);
            proof {
                lemma_joined_push(mid, fresh);
                assert forall|k: int| 0 <= k < self.chunk_seq().len() implies #[trigger] self.chunk_seq()[k].wf() by {
                    if k < mid.len() {
                        assert(self.chunk_seq()[k] == mid[k]);
                    }
                }
            }
        }
    }
}

/// The buffer is first in, first out: after bytes are appended (`produce`) and `count` of the
/// bytes that were already there are taken from the front (`consume`), what is left is the rest
/// of the old bytes followed by the new ones.
pub proof fn law_buffer_fifo(before: Buffer, written: Buffer, consumed: Buffer, bytes: Seq<u8>, count: int)
    requires
        written@ == before@ + bytes,
        consumed@ == written@.skip(count),
        0 <= count <= before@.len(),
    ensures
        consumed@ == before@.skip(count) + bytes,
{
    assert(consumed@ =~= before@.skip(count) + bytes);
}

} // verus!
