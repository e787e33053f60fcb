use vstd::prelude::*;
use slice_deque::SliceDeque;

verus! {

/// Declares the mirrored-memory double-ended queue of the `slice_deque` crate.
#[verifier::external_type_specification]
#[verifier::external_body]
#[verifier::reject_recursive_types(T)]
pub struct ExSliceDeque<T>(SliceDeque<T>);

/// The bytes held by a byte deque, front first.
pub uninterp spec fn deque_bytes(deque: SliceDeque<u8>) -> Seq<u8>;

/// Buffer sizes are multiples of this.
pub const BUF_SIZE_INCREMENT: usize = 65536;

/// Largest number of bytes a buffer can be asked to hold on this machine: one allocation spans
/// at most `isize::MAX` bytes, the deque maps twice its capacity, and it grows by doubling, so
/// its contents stay within an eighth of the address range.
pub const MAX_BUF_BYTES: usize = usize::MAX / 8;

/// `SliceDeque::new`: an empty deque.
#[verifier::external_body]
fn deque_new() -> (deque: SliceDeque<u8>)
    ensures
        deque_bytes(deque) == Seq::<u8>::empty(),
{
    SliceDeque::new()
}

/// `SliceDeque::reserve`: makes room for `additional` more bytes; the contents stay as they are.
/// The capacity it leaves depends on the page size and the allocator and is not claimed.
#[verifier::external_body]
fn deque_reserve(deque: &mut SliceDeque<u8>, additional: usize)
    requires
        deque_bytes(*old(deque)).len() + additional <= MAX_BUF_BYTES,
    ensures
        deque_bytes(*final(deque)) == deque_bytes(*old(deque)),
{
    deque.reserve(additional)
}

/// `SliceDeque::len`: the number of bytes held.
#[verifier::external_body]
fn deque_len(deque: &SliceDeque<u8>) -> (n: usize)
    ensures
        n == deque_bytes(*deque).len(),
{
    deque.len()
}

/// `SliceDeque::capacity`: how many bytes the deque holds without reallocating, never fewer
/// than it holds. Its exact value depends on the allocator.
#[verifier::external_body]
fn deque_capacity(deque: &SliceDeque<u8>) -> (n: usize)
    ensures
        n >= deque_bytes(*deque).len(),
{
    deque.capacity()
}

/// `SliceDeque::as_slice`: the bytes held, as one contiguous slice.
#[verifier::external_body]
fn deque_slice(deque: &SliceDeque<u8>) -> (bytes: &[u8])
    ensures
        bytes@ == deque_bytes(*deque),
{
    deque.as_slice()
}

/// `SliceDeque::truncate_front`: keeps the last `len` bytes, dropping the ones before them; a
/// deque of at most `len` bytes is left as it is.
#[verifier::external_body]
fn deque_truncate_front(deque: &mut SliceDeque<u8>, len: usize)
    ensures
        len >= deque_bytes(*old(deque)).len() ==> deque_bytes(*final(deque)) == deque_bytes(*old(deque)),
        len < deque_bytes(*old(deque)).len() ==> deque_bytes(*final(deque)) == deque_bytes(*old(deque)).skip(
            deque_bytes(*old(deque)).len() - len,
        ),
{
    deque.truncate_front(len)
}

/// `SliceDeque::extend_from_slice`: appends the bytes at the back.
#[verifier::external_body]
fn deque_extend(deque: &mut SliceDeque<u8>, bytes: &[u8])
    requires
        deque_bytes(*old(deque)).len() + bytes@.len() <= MAX_BUF_BYTES,
    ensures
        deque_bytes(*final(deque)) == deque_bytes(*old(deque)) + bytes@,
{
    deque.extend_from_slice(bytes)
}

/// `SliceDeque::clear`: drops every byte.
#[verifier::external_body]
fn deque_clear(deque: &mut SliceDeque<u8>)
    ensures
        deque_bytes(*final(deque)) == Seq::<u8>::empty(),
{
    deque.clear()
}

/// The room left in a store of `capacity` items that holds `len` of them.
pub open spec fn free_of_spec(capacity: int, len: int) -> int {
    capacity - len
}

/// The room left in a store of `capacity` items that holds `len` of them.
pub fn free_of(capacity: usize, len: usize) -> (n: usize)
    requires
        len <= capacity,
    ensures
        n == capacity - len,
        n == free_of_spec(capacity as int, len as int),
{
    capacity - len
}

/// What a read from the network did to a buffer.
#[derive(Debug, Clone, Copy, PartialEq, Eq, Structural)]
pub enum Ingress {
    /// The reader had nothing more to give: reading is done.
    Drained,
    /// The bytes were taken and there is room for more.
    More,
    /// The bytes were taken and the buffer reached its size: it overran.
    Overrun,
}

/// A dynamically sized, double-ended and buffered FIFO byte queue. Data is appended at the
/// back and read from the front.
pub struct Buffer {
    data: SliceDeque<u8>,
    size: usize,
    capacity: usize,
}

impl View for Buffer {
    type V = Seq<u8>;

    /// The bytes in the buffer, oldest first.
    closed spec fn view(&self) -> Seq<u8> {
        deque_bytes(self.data)
    }
}

impl Buffer {
    /// The size the buffer was made for.
    pub closed spec fn limit(&self) -> nat {
        self.size as nat
    }

    /// How many bytes the deque holds without reallocating, as it reported after the buffer
    /// last changed.
    pub closed spec fn held_capacity(&self) -> nat {
        self.capacity as nat
    }

    /// Holds at most the largest size a buffer is asked to hold, and knows the deque's capacity,
    /// which is never below what it holds.
    pub closed spec fn wf(&self) -> bool {
        &&& self.size <= MAX_BUF_BYTES
        &&& deque_bytes(self.data).len() <= MAX_BUF_BYTES
        &&& self.capacity >= deque_bytes(self.data).len()
    }

    /// An empty buffer of `size` bytes, which has to be a multiple of the size increment.
    pub fn new(size: usize) -> (buffer: Buffer)
        requires
            size % BUF_SIZE_INCREMENT == 0,
            size <= MAX_BUF_BYTES,
        ensures
            buffer.wf(),
            buffer@ == Seq::<u8>::empty(),
            buffer.limit() == size,
    {
        let mut data = deque_new();
        deque_reserve(&mut data, size);
        let capacity = deque_capacity(&data);
        Buffer { data, size, capacity }
    }

    /// How many bytes the deque holds without reallocating.
    pub fn capacity(&self) -> (n: usize)
        ensures
            n == self.held_capacity(),
    {
        self.capacity
    }

    /// The size the buffer was made for.
    pub fn size(&self) -> (n: usize)
        ensures
            n == self.limit(),
    {
        self.size
    }

    /// The number of bytes in the buffer.
    pub fn len(&self) -> (n: usize)
        ensures
            n == self@.len(),
    {
        deque_len(&self.data)
    }

    /// Whether the buffer is empty.
    pub fn is_empty(&self) -> (b: bool)
        ensures
            b == (self@.len() == 0),
    {
        deque_len(&self.data) == 0
    }

    /// Remaining free capacity in the buffer: what the deque holds without reallocating, less
    /// what it holds. With the bytes held, it makes up the deque's capacity.
    pub fn free_capacity(&self) -> (n: usize)
        ensures
            exists|capacity: usize| capacity >= self@.len() && #[trigger] free_of_spec(capacity as int, self@.len() as int) == n,
            self.wf() ==> n + self@.len() == self.held_capacity(),
    {
        let len = deque_len(&self.data);
        if len <= self.capacity {
            let n = free_of(self.capacity, len);
            proof {
                assert(free_of_spec(self.capacity as int, self@.len() as int) == n);
            }
            n
        } else {
            let capacity = deque_capacity(&self.data);
            let n = free_of(capacity, len);
            proof {
                assert(free_of_spec(capacity as int, self@.len() as int) == n);
            }
            n
        }
    }

    /// Drops the first `count` bytes.
    pub fn move_head(&mut self, count: usize)
        requires
            old(self).wf(),
            count <= old(self)@.len(),
        ensures
            final(self).wf(),
            final(self)@ == old(self)@.skip(count as int),
            final(self).limit() == old(self).limit(),
    {
        let len = deque_len(&self.data);
        if count > 0 {
            deque_truncate_front(&mut self.data, len - count);
            self.capacity = deque_capacity(&self.data);
        } else {
            proof {
                assert(old(self)@.skip(0) =~= old(self)@);
            }
        }
    }

    /// Appends bytes at the back.
    pub fn write(&mut self, bytes: &[u8])
        requires
            old(self).wf(),
            old(self)@.len() + bytes@.len() <= MAX_BUF_BYTES,
        ensures
            final(self).wf(),
            final(self)@ == old(self)@ + bytes@,
            final(self).limit() == old(self).limit(),
    {
        deque_extend(&mut self.data, bytes);
        self.capacity = deque_capacity(&self.data);
    }

    /// The bytes in the buffer, oldest first.
    pub fn read_slice(&self) -> (bytes: &[u8])
        ensures
            bytes@ == self@,
    {
        deque_slice(&self.data)
    }

    /// Drops every byte.
    pub fn clear(&mut self)
        ensures
            final(self)@ == Seq::<u8>::empty(),
            final(self).limit() == old(self).limit(),
            old(self).wf() ==> final(self).wf(),
    {
        deque_clear(&mut self.data);
        self.capacity = deque_capacity(&self.data);
    }

    /// Whether the buffer is below its size, so that reading into it goes on.
    pub fn has_room(&self) -> (b: bool)
        ensures
            b == (self@.len() < self.limit()),
    {
        deque_len(&self.data) < self.size
    }

    /// A writer took the first `count` bytes of the buffer. Taking none means the writer made
    /// no progress: nothing changes and `false` comes back. Otherwise the bytes leave the
    /// buffer.
    pub fn written(&mut self, count: usize) -> (progress: bool)
        requires
            old(self).wf(),
            count <= old(self)@.len(),
        ensures
            final(self).wf(),
            progress == (count > 0),
            final(self)@ == old(self)@.skip(count as int),
            final(self).limit() == old(self).limit(),
    {
        if count == 0 {
            proof {
                assert(old(self)@.skip(0) =~= old(self)@);
            }
            return false;
        }
        self.move_head(count);
        true
    }

    /// A reader gave `bytes`. None means the reader is drained. Otherwise the bytes are
    /// appended, and reading goes on while the buffer stays below its size; reaching it is an
    /// overrun.
    pub fn received(&mut self, bytes: &[u8]) -> (step: Ingress)
        requires
            old(self).wf(),
            old(self)@.len() + bytes@.len() <= MAX_BUF_BYTES,
        ensures
            final(self).wf(),
            final(self).limit() == old(self).limit(),
            bytes@.len() == 0 ==> step == Ingress::Drained && final(self)@ == old(self)@,
            bytes@.len() > 0 ==> final(self)@ == old(self)@ + bytes@,
            bytes@.len() > 0 && old(self)@.len() + bytes@.len() < old(self).limit() ==> step == Ingress::More,
            bytes@.len() > 0 && old(self)@.len() + bytes@.len() >= old(self).limit() ==> step == Ingress::Overrun,
    {
        if bytes.len() == 0 {
            return Ingress::Drained;
        }
        self.write(bytes);
        if self.has_room() {
            Ingress::More
        } else {
            Ingress::Overrun
        }
    }
}

/// The buffer is first in, first out: after bytes are appended (`write`) and `count` of the
/// bytes that were already there are taken from the front (`move_head`), what is left is the rest
/// of the old bytes followed by the new ones.
pub proof fn law_buffer_fifo(before: Buffer, written: Buffer, consumed: Buffer, bytes: Seq<u8>, count: int)
    requires
        written@ == before@ + bytes,
        consumed@ == written@.skip(count),
        0 <= count <= before@.len(),
    ensures
        consumed@ == before@.skip(count) + bytes,
{
    assert(consumed@ =~= before@.skip(count) + bytes);
}

/// What a writer was handed while the buffer went through `states`, taking `counts[i]` bytes
/// from the front of `states[i]` at step `i`, over the first `k` steps.
pub open spec fn handed_out(states: Seq<Buffer>, counts: Seq<int>, k: int) -> Seq<u8>
    decreases k,
{
    if k <= 0 {
        Seq::empty()
    } else {
        handed_out(states, counts, k - 1) + states[k - 1]@.take(counts[k - 1])
    }
}

proof fn lemma_handed_out(states: Seq<Buffer>, counts: Seq<int>, k: int)
    requires
        states.len() == counts.len() + 1,
        0 <= k <= counts.len(),
        forall|i: int| 0 <= i < counts.len() ==> 0 <= #[trigger] counts[i] <= states[i]@.len()
            && states[i + 1]@ == states[i]@.skip(counts[i]),
    ensures
        handed_out(states, counts, k) + states[k]@ == states[0]@,
    decreases k,
{
    if k == 0 {
        assert(Seq::<u8>::empty() + states[0]@ =~= states[0]@);
    } else {
        lemma_handed_out(states, counts, k - 1);
        let c = counts[k - 1];
        assert(states[k]@ == states[k - 1]@.skip(c));
        assert(states[k - 1]@.take(c) + states[k - 1]@.skip(c) =~= states[k - 1]@);
        assert(handed_out(states, counts, k) + states[k]@ =~= handed_out(states, counts, k - 1) + states[k - 1]@);
    }
}

/// Draining a buffer hands out exactly its bytes, in order: when each step takes bytes from the
/// front (`read_slice`, then `written` or `move_head` with the number taken), the bytes taken so
/// far followed by what is left are the bytes the buffer held at first; once the buffer is
/// empty, the bytes taken are those bytes.
pub proof fn law_drain_hands_out_bytes_in_order(states: Seq<Buffer>, counts: Seq<int>)
    requires
        states.len() == counts.len() + 1,
        forall|i: int| 0 <= i < counts.len() ==> 0 <= #[trigger] counts[i] <= states[i]@.len()
            && states[i + 1]@ == states[i]@.skip(counts[i]),
    ensures
        handed_out(states, counts, counts.len() as int) + states.last()@ == states[0]@,
        states.last()@.len() == 0 ==> handed_out(states, counts, counts.len() as int) == states[0]@,
{
    lemma_handed_out(states, counts, counts.len() as int);
    if states.last()@.len() == 0 {
        assert(handed_out(states, counts, counts.len() as int) + states.last()@
            =~= handed_out(states, counts, counts.len() as int));
    }
}

} // verus!
