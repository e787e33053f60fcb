use vstd::prelude::*;
use crate::networking::chunk::{Chunk, CHUNK_SIZE};

verus! {

/// Simple pool of chunks.
pub struct ChunkPool {
    pool: Vec<Chunk>,
}

impl ChunkPool {
    /// The chunks available for reuse, the next one handed out last.
    pub closed spec fn chunks(&self) -> Seq<Chunk> {
        self.pool@
    }

    /// Every pooled chunk is well formed.
    pub open spec fn wf(&self) -> bool {
        forall|k: int| 0 <= k < self.chunks().len() ==> #[trigger] self.chunks()[k].wf()
    }

    /// The data held by the chunk `allocate` hands out next: a pooled chunk is handed out as it
    /// was reclaimed, a new chunk holds nothing.
    pub open spec fn next_content(&self) -> Seq<u8> {
        if self.chunks().len() > 0 {
            self.chunks().last().content()
        } else {
            Seq::empty()
        }
    }

    pub fn new() -> (pool: ChunkPool)
        ensures
            pool.wf(),
            pool.chunks() == Seq::<Chunk>::empty(),
    {
        ChunkPool { pool: Vec::new() }
    }

    /// Creates a new chunk if there are none available. Provides an existing one otherwise.
    pub fn allocate(&mut self) -> (chunk: Chunk)
        requires
            old(self).wf(),
        ensures
            final(self).wf(),
            chunk.wf(),
            chunk.content() == old(self).next_content(),
            old(self).chunks().len() > 0 ==> chunk == old(self).chunks().last()
                && final(self).chunks() == old(self).chunks().drop_last(),
            old(self).chunks().len() == 0 ==> final(self).chunks() == old(self).chunks()
                && chunk.head() == 0 && chunk.tail() == 0 && chunk.storage() == Seq::new(
                CHUNK_SIZE as nat,
                |i: int| 0u8,
            ),
    {
        match self.pool.pop() {
            Some(chunk) => {
                proof {
                    assert(old(self).chunks()[old(self).chunks().len() - 1].wf());
                }
                chunk
            },
            None => {
                let chunk = Chunk::new();
                proof {
                    chunk.lemma_wf();
                    assert(chunk.content() =~= Seq::<u8>::empty());
                }
                chunk
            },
        }
    }

    /// Reclaim the supplied chunk into the pool, as it is.
    pub fn reclaim(&mut self, chunk: Chunk)
        requires
            old(self).wf(),
            chunk.wf(),
        ensures
            final(self).wf(),
            final(self).chunks() == old(self).chunks().push(chunk),
    {
        self.pool.push(chunk);
        proof {
            assert forall|k: int| 0 <= k < self.chunks().len() implies #[trigger] self.chunks()[k].wf()
                by {
                if k < old(self).chunks().len() {
                    assert(self.chunks()[k] == old(self).chunks()[k]);
                }
            }
        }
    }

    /// Number of chunks available for reuse.
    pub fn len(&self) -> (n: usize)
        ensures
            n == self.chunks().len(),
    {
        self.pool.len()
    }
}

} // verus!
