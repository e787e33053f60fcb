use vstd::prelude::*;
use std::sync::Arc;
use std::sync::atomic::AtomicI64;

verus! {

/// Why a lock could not be taken.
#[derive(Debug, Clone, Copy, PartialEq, Eq, Structural)]
pub enum LockError {
    /// A writer holds the lock.
    WriteLocked,
    /// Readers or a writer hold the lock.
    Locked,
    /// The lock changed between observing and updating it; trying again may succeed.
    Contended,
}

/// A fail-fast read-write cell with similar semantics to a RefCell. There can be any number of
/// readers, or a single writer, counted in a guard that may be shared with other cells: a
/// positive count is the number of readers, -1 marks a writer and 0 a free lock.
pub struct RwCell<T> {
    item: T,
    guard: Arc<AtomicI64>,
}

/// Read access to the contents of a cell; the reader count goes down when it is dropped.
pub struct ReadGuard<'a, T> {
    item: &'a T,
    guard: Arc<AtomicI64>,
}

/// Write access to the contents of a cell, through `item`; the lock is freed when the guard is
/// dropped.
pub struct RwGuard<'a, T> {
    pub item: &'a mut T,
    pub lock: WriteLock,
}

/// The write lock a guard holds; dropping it frees the lock.
pub struct WriteLock {
    guard: Arc<AtomicI64>,
}

impl<T> RwCell<T> {
    /// The contents of the cell.
    pub closed spec fn value(&self) -> T {
        self.item
    }

    pub fn new(item: T, guard: Arc<AtomicI64>) -> (cell: RwCell<T>)
        ensures
            cell.value() == item,
    {
        RwCell { item, guard }
    }

    /// One attempt to get read-only access: a written lock refuses it, and a lock that changed
    /// while taking it reports contention, in which case nothing was taken. Which of these comes
    /// depends on the shared count, which other cells and threads change: the answer is
    /// `read_answer`'s for the count observed and the outcome of exchanging it for
    /// `readers_after(observed)`.
    pub fn read(&self) -> (r: Result<ReadGuard<'_, T>, LockError>)
        ensures
            r matches Ok(g) ==> g.value() == self.value(),
            exists|observed: i64, exchanged: bool| {
                &&& (exchanged ==> 0 <= observed < i64::MAX)
                &&& (r is Ok <==> #[trigger] read_answer(observed, exchanged) is Ok)
                &&& (r matches Err(e) ==> read_answer(observed, exchanged) == Err::<(), LockError>(e))
            },
    {
        let observed = self.guard.load(std::sync::atomic::Ordering::Acquire);
        let exchanged = if 0 <= observed && observed < i64::MAX {
            let next = readers_after(observed);
            self.guard.compare_exchange(
                observed,
                next,
                std::sync::atomic::Ordering::AcqRel,
                std::sync::atomic::Ordering::Acquire,
            ).is_ok()
        } else {
            false
        };
        let answer = read_outcome(observed, exchanged);
        proof {
            assert(read_answer(observed, exchanged) == answer);
        }
        match answer {
            Ok(()) => Ok(ReadGuard { item: &self.item, guard: self.guard.clone() }),
            Err(e) => Err(e),
        }
    }

    /// One attempt to get read-write access: it succeeds only on a free lock, which it marks
    /// written. Whether the lock is free depends on the shared count, which other cells and
    /// threads change: the answer is `write_answer`'s for the outcome of exchanging
    /// `LOCK_FREE` for `WRITER_MARK`.
    pub fn write(&mut self) -> (r: Result<RwGuard<'_, T>, LockError>)
        ensures
            r matches Ok(g) ==> *g.item == old(self).value() && final(self).value() == *final(g.item),
            r is Err ==> final(self).value() == old(self).value(),
            exists|exchanged: bool| {
                &&& (r is Ok <==> #[trigger] write_answer(exchanged) is Ok)
                &&& (r matches Err(e) ==> write_answer(exchanged) == Err::<(), LockError>(e))
            },
    {
        let exchanged = self.guard.compare_exchange(
            LOCK_FREE,
            WRITER_MARK,
            std::sync::atomic::Ordering::AcqRel,
            std::sync::atomic::Ordering::Acquire,
        ).is_ok();
        let answer = write_outcome(exchanged);
        proof {
            assert(write_answer(exchanged) == answer);
        }
        match answer {
            Ok(()) => Ok(RwGuard { item: &mut self.item, lock: WriteLock { guard: self.guard.clone() } }),
            Err(e) => Err(e),
        }
    }
}

/// The count of a lock that nobody holds.
pub const LOCK_FREE: i64 = 0;

/// The count of a lock that a writer holds.
pub const WRITER_MARK: i64 = -1;

/// The reader count once one more reader has taken a lock that `observed` readers held.
pub fn readers_after(observed: i64) -> (n: i64)
    requires
        0 <= observed < i64::MAX,
    ensures
        n == observed + 1,
{
    observed + 1
}

/// The answer to one attempt at a read lock, from the reader count observed and whether
/// exchanging it for one more reader went through (tried only on a count that admits one more
/// reader): a writer's mark refuses the reader, a full count reports the lock taken, and an
/// exchange that did not go through reports contention.
pub open spec fn read_answer(observed: i64, exchanged: bool) -> Result<(), LockError> {
    if observed < LOCK_FREE {
        Err(LockError::WriteLocked)
    } else if observed == i64::MAX {
        Err(LockError::Locked)
    } else if exchanged {
        Ok(())
    } else {
        Err(LockError::Contended)
    }
}

/// The answer to one attempt at the write lock, from whether exchanging a free count for the
/// writer's mark went through: if it did not, the lock was held.
pub open spec fn write_answer(exchanged: bool) -> Result<(), LockError> {
    if exchanged {
        Ok(())
    } else {
        Err(LockError::Locked)
    }
}

/// `read_answer`, computed.
pub fn read_outcome(observed: i64, exchanged: bool) -> (r: Result<(), LockError>)
    ensures
        r == read_answer(observed, exchanged),
{
    if observed < LOCK_FREE {
        Err(LockError::WriteLocked)
    } else if observed == i64::MAX {
        Err(LockError::Locked)
    } else if exchanged {
        Ok(())
    } else {
        Err(LockError::Contended)
    }
}

/// `write_answer`, computed.
pub fn write_outcome(exchanged: bool) -> (r: Result<(), LockError>)
    ensures
        r == write_answer(exchanged),
{
    if exchanged {
        Ok(())
    } else {
        Err(LockError::Locked)
    }
}

impl<'a, T> ReadGuard<'a, T> {
    /// The value read.
    pub closed spec fn value(&self) -> T {
        *self.item
    }

    /// Shared access to the value.
    pub fn get(&self) -> (v: &T)
        ensures
            *v == self.value(),
    {
        self.item
    }
}

impl<'a, T> RwGuard<'a, T> {
    /// The value held.
    pub open spec fn value(&self) -> T {
        *self.item
    }

    /// Shared access to the value.
    pub fn get(&self) -> (v: &T)
        ensures
            *v == self.value(),
    {
        self.item
    }

    /// Replace the value.
    pub fn set(&mut self, value: T)
        ensures
            *final(self).item == value,
            *final(final(self).item) == *final(old(self).item),
    {
        *self.item = value;
    }
}

/// `AtomicI64::fetch_sub` with relaxed ordering: takes `amount` off the shared count. The
/// standard library documents it as an atomic operation that wraps around and does not panic;
/// nothing is claimed of the count.
#[verifier::external_body]
fn count_sub(guard: &AtomicI64, amount: i64)
    opens_invariants none
    no_unwind
{
    guard.fetch_sub(amount, std::sync::atomic::Ordering::Relaxed);
}

/// `AtomicI64::store` with sequentially consistent ordering: sets the shared count to `value`.
/// The standard library documents it as an atomic operation that does not panic.
#[verifier::external_body]
fn count_store(guard: &AtomicI64, value: i64)
    opens_invariants none
    no_unwind
{
    guard.store(value, std::sync::atomic::Ordering::SeqCst);
}

impl<'a, T> Drop for ReadGuard<'a, T> {
    fn drop(&mut self)
        opens_invariants none
        no_unwind
    {
        count_sub(&self.guard, 1);
    }
}

impl Drop for WriteLock {
    fn drop(&mut self)
        opens_invariants none
        no_unwind
    {
        count_store(&self.guard, LOCK_FREE);
    }
}

} // verus!
