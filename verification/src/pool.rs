use vstd::prelude::*;

verus! {

/// A pool allocator that keeps all items in an efficient dense vector. New elements will be
/// used to fill up holes created by previous reclamation.
pub struct VecPool<T> {
    store: Vec<T>,
    queue: Vec<usize>,
}

impl<T> VecPool<T> {
    /// The stored items, by slot.
    pub closed spec fn items(&self) -> Seq<T> {
        self.store@
    }

    /// The reclaimed slots, most recently reclaimed last.
    pub closed spec fn free(&self) -> Seq<usize> {
        self.queue@
    }

    /// Every reclaimed slot lies inside the storage.
    pub open spec fn wf(&self) -> bool {
        forall|k: int| 0 <= k < self.free().len() ==> #[trigger] self.free()[k] < self.items().len()
    }

    pub fn new() -> (pool: Self)
        ensures
            pool.wf(),
            pool.items() == Seq::<T>::empty(),
            pool.free() == Seq::<usize>::empty(),
    {
        VecPool { store: Vec::new(), queue: Vec::new() }
    }

    /// Reclaim the value at supplied index. The slot is only queued: the next push fills it.
    pub fn reclaim(&mut self, index: usize)
        ensures
            final(self).items() == old(self).items(),
            final(self).free() == old(self).free().push(index),
            old(self).wf() && index < old(self).items().len() ==> final(self).wf(),
    {
        self.queue.push(index);
        proof {
            if old(self).wf() && index < old(self).items().len() {
                assert forall|k: int| 0 <= k < self.free().len() implies #[trigger] self.free()[k]
                    < self.items().len() by {
                    if k < old(self).free().len() {
                        assert(self.free()[k] == old(self).free()[k]);
                    }
                }
            }
        }
    }

    /// Push a new value into the storage. The pool will attempt to use any reclaimed slots
    /// before appending to the end of the storage vector.
    pub fn push(&mut self, value: T) -> (index: usize)
        requires
            old(self).free().len() > 0 ==> old(self).free().last() < old(self).items().len(),
            old(self).free().len() == 0 ==> old(self).items().len() < usize::MAX,
        ensures
            old(self).wf() ==> final(self).wf(),
            old(self).free().len() > 0 ==> {
                &&& index == old(self).free().last()
                &&& final(self).items() == old(self).items().update(index as int, value)
                &&& final(self).free() == old(self).free().drop_last()
            },
            old(self).free().len() == 0 ==> {
                &&& index == old(self).items().len()
                &&& final(self).items() == old(self).items().push(value)
                &&& final(self).free() == old(self).free()
            },
    {
        if let Some(index) = self.queue.pop() {
            self.store.set(index, value);
            index
        } else {
            self.store.push(value);
            self.store.len() - 1
        }
    }

    /// Number of slots in the storage, reclaimed ones included.
    pub fn len(&self) -> (n: usize)
        ensures
            n == self.items().len(),
    {
        self.store.len()
    }

    /// The value in slot `index`.
    pub fn get(&self, index: usize) -> (value: &T)
        requires
            index < self.items().len(),
        ensures
            *value == self.items()[index as int],
    {
        &self.store[index]
    }

    /// Mutable access to the value in slot `index`.
    pub fn get_mut(&mut self, index: usize) -> (value: &mut T)
        requires
            index < old(self).items().len(),
        ensures
            *value == old(self).items()[index as int],
            final(self).items() == old(self).items().update(index as int, *final(value)),
            final(self).free() == old(self).free(),
    {
        &mut self.store[index]
    }
}

/// A slot based allocator that supports testing for the presence of values in the pool.
pub struct SlotPool<T> {
    store: Vec<Option<T>>,
    queue: Vec<usize>,
}

impl<T> SlotPool<T> {
    /// The slots: `None` for a slot without a value.
    pub closed spec fn slots(&self) -> Seq<Option<T>> {
        self.store@
    }

    /// The reclaimed slots, most recently reclaimed last.
    pub closed spec fn free(&self) -> Seq<usize> {
        self.queue@
    }

    /// Every reclaimed slot lies inside the storage.
    pub open spec fn wf(&self) -> bool {
        forall|k: int| 0 <= k < self.free().len() ==> #[trigger] self.free()[k] < self.slots().len()
    }

    /// The slot that the next push fills.
    pub open spec fn next_index(&self) -> usize {
        if self.free().len() > 0 {
            self.free().last()
        } else {
            self.slots().len() as usize
        }
    }

    pub fn new() -> (pool: Self)
        ensures
            pool.wf(),
            pool.slots() == Seq::<Option<T>>::empty(),
            pool.free() == Seq::<usize>::empty(),
    {
        SlotPool { store: Vec::new(), queue: Vec::new() }
    }

    /// Reclaim the value at supplied index, returning what it held.
    pub fn reclaim(&mut self, index: usize) -> (value: Option<T>)
        requires
            old(self).wf(),
            index < old(self).slots().len(),
        ensures
            final(self).wf(),
            value == old(self).slots()[index as int],
            final(self).slots() == old(self).slots().update(index as int, None),
            final(self).free() == old(self).free().push(index),
    {
        self.queue.push(index);
        let mut slot = None;
        std::mem::swap(&mut slot, &mut self.store[index]);
        proof {
            assert forall|k: int| 0 <= k < self.free().len() implies #[trigger] self.free()[k]
                < self.slots().len() by {
                if k < old(self).free().len() {
                    assert(self.free()[k] == old(self).free()[k]);
                }
            }
        }
        slot
    }

    /// Get an immutable reference to the item at the supplied index.
    pub fn get(&self, index: usize) -> (value: Option<&T>)
        ensures
            index >= self.slots().len() ==> value is None,
            index < self.slots().len() ==> match self.slots()[index as int] {
                Some(v) => value == Some(&v),
                None => value is None,
            },
    {
        if index >= self.store.len() {
            return None;
        }
        match &self.store[index] {
            Some(value) => Some(value),
            None => None,
        }
    }

    /// Get a mutable reference to the item at the supplied index.
    pub fn get_mut(&mut self, index: usize) -> (value: Option<&mut T>)
        ensures
            final(self).free() == old(self).free(),
            (index >= old(self).slots().len() || old(self).slots()[index as int] is None) ==> value is None
                && final(self).slots() == old(self).slots(),
            index < old(self).slots().len() && old(self).slots()[index as int] is Some ==> (value matches Some(v)
                && *v == old(self).slots()[index as int]->0
                && final(self).slots() == old(self).slots().update(index as int, Some(*final(v)))),
    {
        if index >= self.store.len() {
            return None;
        }
        match &mut self.store[index] {
            Some(value) => Some(value),
            None => None,
        }
    }

    /// Is there a value at the supplied index?
    pub fn contains(&self, index: usize) -> (present: bool)
        ensures
            present == (index < self.slots().len() && self.slots()[index as int] is Some),
    {
        index < self.store.len() && self.store[index].is_some()
    }

    /// Push a new value into the storage. The pool will attempt to use any reclaimed slots
    /// before appending to the end of the storage vector.
    pub fn push(&mut self, value: T) -> (index: usize)
        requires
            old(self).wf(),
            old(self).free().len() == 0 ==> old(self).slots().len() < usize::MAX,
        ensures
            final(self).wf(),
            index == old(self).next_index(),
            old(self).free().len() > 0 ==> {
                &&& final(self).slots() == old(self).slots().update(index as int, Some(value))
                &&& final(self).free() == old(self).free().drop_last()
            },
            old(self).free().len() == 0 ==> {
                &&& final(self).slots() == old(self).slots().push(Some(value))
                &&& final(self).free() == old(self).free()
            },
    {
        let wrapped = Some(value);
        if let Some(index) = self.queue.pop() {
            self.store.set(index, wrapped);
            index
        } else {
            self.store.push(wrapped);
            self.store.len() - 1
        }
    }

    /// Get the location of the next insert.
    pub fn peek_index(&self) -> (index: usize)
        requires
            self.wf(),
        ensures
            index == self.next_index(),
    {
        match self.queue.last() {
            Some(index) => *index,
            None => self.store.len(),
        }
    }
}

/// Whatever is pushed into a slot pool can be read back from the slot that `push` returns,
/// and no other slot changes.
pub proof fn law_slot_pool_push_then_get<T>(before: SlotPool<T>, after: SlotPool<T>, value: T, index: usize)
    requires
        before.wf(),
        index == before.next_index(),
        before.free().len() == 0 ==> before.slots().len() < usize::MAX,
        before.free().len() > 0 ==> after.slots() == before.slots().update(index as int, Some(value)),
        before.free().len() == 0 ==> after.slots() == before.slots().push(Some(value)),
    ensures
        index < after.slots().len(),
        after.slots()[index as int] == Some(value),
        forall|j: int| 0 <= j < before.slots().len() && j != index ==> after.slots()[j] == before.slots()[j],
{
    if before.free().len() > 0 {
        assert(before.free()[before.free().len() - 1] < before.slots().len());
    }
}

/// A reclaimed slot is the next one filled: the pool reuses holes before growing.
pub proof fn law_slot_pool_reclaim_then_push<T>(before: SlotPool<T>, after: SlotPool<T>, index: usize)
    requires
        before.wf(),
        index < before.slots().len(),
        after.slots() == before.slots().update(index as int, None),
        after.free() == before.free().push(index),
    ensures
        after.wf(),
        after.next_index() == index,
        after.slots().len() == before.slots().len(),
{
    assert forall|k: int| 0 <= k < after.free().len() implies #[trigger] after.free()[k] < after.slots().len() by {
        if k < before.free().len() {
            assert(after.free()[k] == before.free()[k]);
        }
    }
}

/// A reclaimed vector-pool slot is the next one filled.
pub proof fn law_vec_pool_reclaim_then_push<T>(before: VecPool<T>, after: VecPool<T>, index: usize)
    requires
        before.wf(),
        index < before.items().len(),
        after.items() == before.items(),
        after.free() == before.free().push(index),
    ensures
        after.wf(),
        after.free().len() > 0,
        after.free().last() == index,
{
    assert forall|k: int| 0 <= k < after.free().len() implies #[trigger] after.free()[k] < after.items().len() by {
        if k < before.free().len() {
            assert(after.free()[k] == before.free()[k]);
        }
    }
}

} // verus!
