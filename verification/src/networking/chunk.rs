use vstd::prelude::*;
use vstd::slice::slice_subrange;

verus! {

/// Size in bytes of every chunk.
pub const CHUNK_SIZE: usize = 8192;

/// A linear byte memory pool. Consuming data from the chunk will advance the start cursor, while
/// writing to the chunk will advance the end cursor. When the start cursor reaches the same
/// position as the end cursor, the chunk is assumed to be fully consumed (and thus empty).
pub struct Chunk {
    data: Vec<u8>,
    start: usize,
    end: usize,
}

impl Chunk {
    /// The storage has the chunk size and the cursors lie within it, reset together when
    /// they meet.
    pub closed spec fn wf(&self) -> bool {
        &&& self.data@.len() == CHUNK_SIZE
        &&& self.start <= self.end <= CHUNK_SIZE
        &&& self.start == self.end ==> self.start == 0
    }

    /// All the bytes of the chunk's storage.
    pub closed spec fn storage(&self) -> Seq<u8> {
        self.data@
    }

    /// Position of the start (read) cursor.
    pub closed spec fn head(&self) -> nat {
        self.start as nat
    }

    /// Position of the end (write) cursor.
    pub closed spec fn tail(&self) -> nat {
        self.end as nat
    }

    /// The data available for reading.
    pub open spec fn content(&self) -> Seq<u8> {
        self.storage().subrange(self.head() as int, self.tail() as int)
    }

    /// What well-formedness tells about the cursors and the storage.
    pub proof fn lemma_wf(&self)
        requires
            self.wf(),
        ensures
            self.storage().len() == CHUNK_SIZE,
            self.head() <= self.tail() <= CHUNK_SIZE,
            self.head() == self.tail() ==> self.head() == 0,
            self.content().len() == self.tail() - self.head(),
    {
    }

    /// An empty chunk with zeroed storage.
    pub fn new() -> (chunk: Chunk)
        ensures
            chunk.wf(),
            chunk.storage() == Seq::new(CHUNK_SIZE as nat, |i: int| 0u8),
            chunk.head() == 0,
            chunk.tail() == 0,
    {
        let mut data: Vec<u8> = Vec::new();
        let mut i: usize = 0;
        while i < CHUNK_SIZE
            invariant
                i <= CHUNK_SIZE,
                data@ == Seq::new(i as nat, |k: int| 0u8),
            decreases CHUNK_SIZE - i,
        {
            data.push(0);
            i = i + 1;
            proof {
                assert(data@ =~= Seq::new(i as nat, |k: int| 0u8));
            }
        }
        Chunk { data, start: 0, end: 0 }
    }

    /// Free capacity in the chunk.
    pub fn capacity(&self) -> (free: usize)
        requires
            self.wf(),
        ensures
            free == CHUNK_SIZE - self.tail(),
    {
        CHUNK_SIZE - self.end
    }

    /// Remaining data in the chunk.
    pub fn remaining_data(&self) -> (count: usize)
        requires
            self.wf(),
        ensures
            count == self.tail() - self.head(),
            count == self.content().len(),
    {
        self.end - self.start
    }

    /// Position of the start cursor.
    pub fn start(&self) -> (pos: usize)
        ensures
            pos == self.head(),
    {
        self.start
    }

    /// Position of the end cursor.
    pub fn end(&self) -> (pos: usize)
        ensures
            pos == self.tail(),
    {
        self.end
    }

    /// The whole storage of the chunk.
    pub fn raw_data(&self) -> (bytes: &[u8])
        ensures
            bytes@ == self.storage(),
    {
        self.data.as_slice()
    }

    /// The data available for reading.
    pub fn data_slice(&self) -> (bytes: &[u8])
        requires
            self.wf(),
        ensures
            bytes@ == self.content(),
    {
        slice_subrange(self.data.as_slice(), self.start, self.end)
    }

    /// The free capacity of the chunk, where the next write lands.
    pub fn free_slice(&self) -> (bytes: &[u8])
        requires
            self.wf(),
        ensures
            bytes@ == self.storage().subrange(self.tail() as int, CHUNK_SIZE as int),
            bytes@.len() == CHUNK_SIZE - self.tail(),
    {
        slice_subrange(self.data.as_slice(), self.end, CHUNK_SIZE)
    }

    /// Reset both cursors in case the start cursor caught up with the end.
    fn check_clear(&mut self)
        requires
            old(self).head() <= old(self).tail(),
        ensures
            final(self).storage() == old(self).storage(),
            old(self).head() == old(self).tail() ==> final(self).head() == 0 && final(self).tail()
                == 0,
            old(self).head() != old(self).tail() ==> final(self).head() == old(self).head()
                && final(self).tail() == old(self).tail(),
    {
        if self.start == self.end {
            self.start = 0;
            self.end = 0;
        }
    }

    /// Advance the start cursor, as if a read has happened. Returns the original position of
    /// the start cursor.
    pub fn advance(&mut self, count: usize) -> (orig_start: usize)
        requires
            old(self).wf(),
            old(self).head() + count <= old(self).tail(),
        ensures
            final(self).wf(),
            orig_start == old(self).head(),
            final(self).storage() == old(self).storage(),
            final(self).content() == old(self).content().subrange(count as int, old(self).content().len() as int),
            old(self).head() + count == old(self).tail() ==> final(self).head() == 0
                && final(self).tail() == 0,
            old(self).head() + count < old(self).tail() ==> final(self).head() == old(self).head()
                + count && final(self).tail() == old(self).tail(),
    {
        let orig_start = self.start;
        let new_start = self.start + count;
        if new_start == self.end {
            self.start = 0;
            self.end = 0;
        } else {
            self.start = new_start;
        }
        proof {
            assert(self.content() =~= old(self).content().subrange(count as int, old(self).content().len() as int));
        }
        orig_start
    }

    /// Read `count` bytes of data from the chunk and advance the start cursor.
    pub fn read(&mut self, count: usize) -> (bytes: Vec<u8>)
        requires
            old(self).wf(),
            old(self).head() + count <= old(self).tail(),
        ensures
            final(self).wf(),
            bytes@ == old(self).content().subrange(0, count as int),
            final(self).storage() == old(self).storage(),
            final(self).content() == old(self).content().subrange(count as int, old(self).content().len() as int),
            old(self).head() + count == old(self).tail() ==> final(self).head() == 0
                && final(self).tail() == 0,
            old(self).head() + count < old(self).tail() ==> final(self).head() == old(self).head()
                + count && final(self).tail() == old(self).tail(),
    {
        let orig_start = self.start;
        let bytes = vstd::slice::slice_to_vec(slice_subrange(self.data.as_slice(), orig_start, orig_start + count));
        self.advance(count);
        proof {
            assert(bytes@ =~= old(self).content().subrange(0, count as int));
        }
        bytes
    }

    /// Write data to the chunk and advance the end cursor.
    pub fn write(&mut self, slice: &[u8])
        requires
            old(self).wf(),
            old(self).tail() + slice@.len() <= CHUNK_SIZE,
        ensures
            final(self).wf(),
            final(self).head() == old(self).head(),
            final(self).tail() == old(self).tail() + slice@.len(),
            final(self).storage() == old(self).storage().take(old(self).tail() as int) + slice@
                + old(self).storage().skip((old(self).tail() + slice@.len()) as int),
            final(self).content() == old(self).content() + slice@,
    {
        let end = self.end;
        let n = slice.len();
        if n == 0 {
            proof {
                assert(self.storage() =~= old(self).storage().take(old(self).tail() as int) + slice@
                + old(self).storage().skip((old(self).tail() + slice@.len()) as int));
                assert(self.content() =~= old(self).content() + slice@);
            }
            return;
        }
        let mut i: usize = 0;
        while i < n
            invariant
                n == slice@.len(),
                end + n <= CHUNK_SIZE,
                end == old(self).tail(),
                i <= n,
                self.data@.len() == CHUNK_SIZE,
                self.start == old(self).head(),
                self.end == end,
                self.data@ == old(self).storage().take(end as int) + slice@.take(i as int)
                    + old(self).storage().skip(end + i),
                old(self).storage().len() == CHUNK_SIZE,
            decreases n - i,
        {
            self.data.set(end + i, slice[i]);
            proof {
                assert(self.data@ =~= old(self).storage().take(end as int) + slice@.take(i + 1)
                    + old(self).storage().skip(end + i + 1));
            }
            i = i + 1;
        }
        proof {
            assert(slice@.take(n as int) =~= slice@);
        }
        self.end = end + n;
        proof {
            assert(self.content() =~= old(self).content() + slice@);
        }
    }

    /// Mark `count` bytes of the free capacity as written data, advancing the end cursor.
    pub fn expand(&mut self, count: usize)
        requires
            old(self).wf(),
            old(self).tail() + count <= CHUNK_SIZE,
        ensures
            final(self).wf(),
            final(self).storage() == old(self).storage(),
            final(self).tail() == old(self).tail() + count,
            final(self).head() == old(self).head(),
    {
        self.end = self.end + count;
    }
}

} // verus!
