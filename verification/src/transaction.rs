use vstd::prelude::*;
use std::sync::Arc;
use std::sync::atomic::AtomicU32;
use crate::identity::{EntityId, ShardKey};
use crate::shard::ShardDef;

verus! {

/// Context for recording entity transactions: entities to add, grouped by component set, and
/// entities to delete. New entity ids come from a counter shared by all the contexts of a world.
pub struct TransactionContext<C> {
    added: Vec<ShardDef<C>>,
    deleted: Vec<EntityId>,
    id_counter: Arc<AtomicU32>,
}

/// Takes `count` consecutive ids from the shared counter and returns the first. The counter is
/// shared, so nothing is known of the value it had.
fn draw_ids(counter: &AtomicU32, count: u32) -> u32 {
    counter.fetch_add(count, std::sync::atomic::Ordering::AcqRel)
}

/// `count` consecutive entity ids from `start` on, wrapping around at the end of the id range.
pub open spec fn consecutive_ids(start: u32, count: nat) -> Seq<EntityId> {
    Seq::new(count, |j: int| EntityId(start.wrapping_add(j as u32)))
}

/// Appends to `ids` the `count` consecutive ids from `start` on: the ids a batch gets once it
/// has drawn `start` from the shared counter.
pub fn append_consecutive_ids(ids: &mut Vec<EntityId>, start: u32, count: u32)
    ensures
        final(ids)@ == old(ids)@ + consecutive_ids(start, count as nat),
{
    let ghost ids0 = ids@;
    let mut j: u32 = 0;
    while j < count
        invariant
            j <= count,
            ids@ == ids0 + consecutive_ids(start, j as nat),
        decreases count - j,
    {
        ids.push(EntityId(start.wrapping_add(j)));
        j = j + 1;
        proof {
            assert(ids@ =~= ids0 + consecutive_ids(start, j as nat));
        }
    }
}

/// Where the definition for `key` sits in `defs`, or the length of `defs` when there is none.
pub open spec fn key_position<C>(defs: Seq<ShardDef<C>>, key: ShardKey) -> int {
    if exists|p: int| 0 <= p < defs.len() && #[trigger] defs[p].key@ == key@ {
        choose|p: int| 0 <= p < defs.len() && #[trigger] defs[p].key@ == key@
    } else {
        defs.len() as int
    }
}

/// The definitions of `defs` have distinct component sets.
pub open spec fn distinct_keys<C>(defs: Seq<ShardDef<C>>) -> bool {
    forall|p: int, q: int| 0 <= p < q < defs.len() ==> defs[p].key@ != defs[q].key@
}

impl<C> TransactionContext<C> {
    /// The recorded additions, one definition per component set.
    pub closed spec fn pending(&self) -> Seq<ShardDef<C>> {
        self.added@
    }

    /// The recorded deletions, in order.
    pub closed spec fn deletions(&self) -> Seq<EntityId> {
        self.deleted@
    }

    /// Every definition is well formed and no two share a component set.
    pub open spec fn wf(&self) -> bool {
        &&& forall|p: int| 0 <= p < self.pending().len() ==> #[trigger] self.pending()[p].wf()
        &&& distinct_keys(self.pending())
    }

    /// An empty context drawing entity ids from `counter`.
    pub fn new(counter: Arc<AtomicU32>) -> (ctx: TransactionContext<C>)
        ensures
            ctx.wf(),
            ctx.pending().len() == 0,
            ctx.deletions().len() == 0,
    {
        TransactionContext { added: Vec::new(), deleted: Vec::new(), id_counter: counter }
    }

    /// An empty context sharing this context's id counter, so that ids stay unique across both.
    pub fn fork(&self) -> (ctx: TransactionContext<C>)
        ensures
            ctx.wf(),
            ctx.pending().len() == 0,
            ctx.deletions().len() == 0,
    {
        TransactionContext { added: Vec::new(), deleted: Vec::new(), id_counter: self.id_counter.clone() }
    }

    /// Hands out the recorded deletions, leaving none.
    pub(crate) fn take_deletions(&mut self) -> (ids: Vec<EntityId>)
        ensures
            ids@ == old(self).deletions(),
            final(self).deletions().len() == 0,
            final(self).pending() == old(self).pending(),
    {
        let mut ids: Vec<EntityId> = Vec::new();
        std::mem::swap(&mut ids, &mut self.deleted);
        ids
    }

    /// Number of recorded definitions.
    pub fn pending_count(&self) -> (n: usize)
        ensures
            n == self.pending().len(),
    {
        self.added.len()
    }

    /// The recorded definitions.
    pub(crate) fn pending_defs(&self) -> (defs: &Vec<ShardDef<C>>)
        ensures
            defs@ == self.pending(),
    {
        &self.added
    }

    /// Mutable access to the `i`-th definition.
    pub(crate) fn pending_mut(&mut self, i: usize) -> (def: &mut ShardDef<C>)
        requires
            i < old(self).pending().len(),
        ensures
            *def == old(self).pending()[i as int],
            final(self).pending() == old(self).pending().update(i as int, *final(def)),
            final(self).deletions() == old(self).deletions(),
    {
        &mut self.added[i]
    }

    /// Record the deletion of the entity with the given id.
    pub fn delete(&mut self, id: EntityId)
        ensures
            final(self).deletions() == old(self).deletions().push(id),
            final(self).pending() == old(self).pending(),
    {
        self.deleted.push(id);
    }

    /// Add a single entity with the given components (one value per component of `key`, in
    /// ascending order of component). Returns the new entity's id, drawn from the shared counter.
    pub fn add(&mut self, key: ShardKey, components: Vec<C>) -> (id: EntityId)
        requires
            old(self).wf(),
            components@.len() == key.members().len(),
        ensures
            final(self).wf(),
            final(self).deletions() == old(self).deletions(),
            exists|i: int| #![trigger final(self).pending()[i]] 0 <= i < final(self).pending().len() && {
                let d = final(self).pending()[i];
                &&& d.key == key
                &&& d.entity_ids@.last() == id
                &&& d.entity_ids@.len() > 0
                &&& forall|c: int| 0 <= c < d.columns@.len() ==> #[trigger] d.columns@[c]@.last() == components@[c]
                &&& if i < old(self).pending().len() {
                    &&& d.entity_ids@ == old(self).pending()[i].entity_ids@.push(id)
                    &&& d.column_data() == Seq::new(d.columns@.len(), |c: int| old(self).pending()[i].column_data()[c].push(components@[c]))
                    &&& final(self).pending() == old(self).pending().update(i, d)
                } else {
                    &&& d.entity_ids@ == seq![id]
                    &&& d.column_data() == Seq::new(d.columns@.len(), |c: int| seq![components@[c]])
                    &&& final(self).pending() == old(self).pending().push(d)
                }
            },
    {
        let i = self.find_or_create(key);
        let ghost mid = self.added@;
        let raw = draw_ids(&self.id_counter, 1);
        let id = EntityId(raw);
        let mut def = self.added.remove(i);
        let ghost def0 = def;
        proof {
            assert(mid[i as int].wf());
            assert(def.columns@.len() == components@.len());
        }
        def.entity_ids.push(id);
        let ghost comps0 = components@;
        let mut components = components;
        let n = def.columns.len();
        let mut c: usize = n;
        while c > 0
            invariant
                c <= n,
                n == def.columns@.len(),
                def.key == def0.key,
                def.entity_ids@ == def0.entity_ids@.push(id),
                components@ == comps0.take(c as int),
                comps0.len() == n,
                forall|k: int| #![trigger def.columns@[k]]
                    0 <= k < n ==> def.columns@[k]@ == (if k >= c {
                        def0.columns@[k]@.push(comps0[k])
                    } else {
                        def0.columns@[k]@
                    }),
            decreases c,
        {
            c = c - 1;
            let v = components.pop().unwrap();
            proof {
                assert(v == comps0[c as int]);
            }
            let ghost cols = def.columns@;
            let mut column: Vec<C> = Vec::new();
            std::mem::swap(&mut column, &mut def.columns[c]);
            column.push(v);
            def.columns.set(c, column);
            proof {
                assert(components@ =~= comps0.take(c as int));
                assert forall|k: int| #![trigger def.columns@[k]]
                    0 <= k < n implies def.columns@[k]@ == (if k >= c {
                        def0.columns@[k]@.push(comps0[k])
                    } else {
                        def0.columns@[k]@
                    }) by {
                    if k != c {
                        assert(def.columns@[k] == cols[k]);
                    }
                }
            }
        }
        self.added.insert(i, def);
        proof {
            assert(self.added@ =~= mid.update(i as int, def));
            assert forall|k: int| 0 <= k < def.columns@.len() implies #[trigger] def.columns@[k]@.len() == def.entity_ids@.len() by {
                assert(def0.columns@[k]@.len() == def0.entity_ids@.len());
            }
            assert(def.wf());
            assert forall|p: int| 0 <= p < self.pending().len() implies #[trigger] self.pending()[p].wf() by {
                if p != i {
                    assert(self.pending()[p] == mid[p]);
                }
            }
            assert(distinct_keys(self.pending())) by {
                assert forall|p: int, q: int| 0 <= p < q < self.pending().len() implies self.pending()[p].key@ != self.pending()[q].key@ by {
                    assert(self.pending()[p].key == mid[p].key);
                    assert(self.pending()[q].key == mid[q].key);
                }
            }
            if i < old(self).pending().len() {
                assert(mid == old(self).pending());
                assert(def.column_data() =~= Seq::new(def.columns@.len(), |c: int| old(self).pending()[i as int].column_data()[c].push(comps0[c])));
            } else {
                assert(def0.entity_ids@ =~= Seq::<EntityId>::empty());
                assert(def.entity_ids@ =~= seq![id]);
                assert forall|c: int| 0 <= c < def.columns@.len() implies #[trigger] def.column_data()[c] == seq![comps0[c]] by {
                    assert(def0.columns@[c]@.len() == 0);
                    assert(def0.columns@[c]@ =~= Seq::<C>::empty());
                    assert(def.columns@[c]@ == def0.columns@[c]@.push(comps0[c]));
                    assert(def0.columns@[c]@.push(comps0[c]) =~= seq![comps0[c]]);
                }
                assert(def.column_data() =~= Seq::new(def.columns@.len(), |c: int| seq![comps0[c]]));
                assert(self.pending() =~= old(self).pending().push(def));
            }
            assert(def.entity_ids@.last() == id);
            assert(self.pending()[i as int] == def);
            assert forall|c: int| 0 <= c < def.columns@.len() implies #[trigger] def.columns@[c]@.last() == comps0[c] by {
                assert(def.columns@[c]@ == def0.columns@[c]@.push(comps0[c]));
            }
        }
        id
    }

    /// Create a batch builder for efficiently adding entities with the same components.
    pub fn batch(&mut self, key: ShardKey) -> (builder: BatchBuilder<'_, C>)
        requires
            old(self).wf(),
        ensures
            builder.wf(),
            builder.count() == 0,
            builder.def.key == key,
            key_position(old(self).pending(), key) < old(self).pending().len() ==> {
                &&& *builder.def == old(self).pending()[key_position(old(self).pending(), key)]
                &&& final(self).pending() == old(self).pending().update(key_position(old(self).pending(), key), *final(builder.def))
            },
            key_position(old(self).pending(), key) == old(self).pending().len() ==> {
                &&& builder.def.entity_ids@.len() == 0
                &&& final(self).pending() == old(self).pending().push(*final(builder.def))
            },
    {
        let i = self.find_or_create(key);
        proof {
            assert(self.pending()[i as int].wf());
            if exists|p: int| 0 <= p < old(self).pending().len() && #[trigger] old(self).pending()[p].key@ == key@ {
                let p = choose|p: int| 0 <= p < old(self).pending().len() && #[trigger] old(self).pending()[p].key@ == key@;
                assert(self.pending() == old(self).pending());
                assert(p == i);
            } else {
                assert(i == old(self).pending().len());
            }
        }
        let counter = self.id_counter.clone();
        BatchBuilder::new(&mut self.added[i], counter)
    }

    /// The position of the definition for `key`, adding an empty one when there is none.
    fn find_or_create(&mut self, key: ShardKey) -> (i: usize)
        requires
            old(self).wf(),
        ensures
            final(self).wf(),
            final(self).deletions() == old(self).deletions(),
            i < final(self).pending().len(),
            final(self).pending()[i as int].key == key,
            (exists|p: int| 0 <= p < old(self).pending().len() && old(self).pending()[p].key@ == key@)
                ==> final(self).pending() == old(self).pending(),
            !(exists|p: int| 0 <= p < old(self).pending().len() && old(self).pending()[p].key@ == key@)
                ==> i == old(self).pending().len() && final(self).pending().len() == old(self).pending().len() + 1 && final(self).pending().drop_last() == old(self).pending()
                    && final(self).pending().last().entity_ids@.len() == 0
                    && (forall|c: int| 0 <= c < final(self).pending().last().columns@.len() ==> #[trigger] final(self).pending().last().columns@[c]@.len() == 0),
    {
        let mut i: usize = 0;
        while i < self.added.len()
            invariant
                i <= self.added@.len(),
                self.added@ == old(self).pending(),
                old(self).wf(),
                forall|p: int| 0 <= p < i ==> self.added@[p].key@ != key@,
            decreases self.added@.len() - i,
        {
            if self.added[i].key.equals(&key) {
                proof {
                    crate::identity::FlagSet::<crate::identity::ComponentKind>::lemma_from_bits(key@);
                }
                return i;
            }
            i = i + 1;
        }
        let def = ShardDef::new(key);
        self.added.push(def);
        proof {
            assert(self.pending().drop_last() =~= old(self).pending());
            assert forall|p: int| 0 <= p < self.pending().len() implies #[trigger] self.pending()[p].wf() by {
                if p < old(self).pending().len() {
                    assert(self.pending()[p] == old(self).pending()[p]);
                }
            }
        }
        i
    }
}

/// Adds entities with the same components to a definition in one go: their values are
/// collected first, and `commit` gives them consecutive ids from the shared counter.
pub struct BatchBuilder<'a, C> {
    pub def: &'a mut ShardDef<C>,
    pub collector: BatchCollector<C>,
}

/// The values a batch builder collected and the counter its ids come from.
pub struct BatchCollector<C> {
    pending: Vec<Vec<C>>,
    batch_counter: u32,
    id_counter: Arc<AtomicU32>,
}

impl<'a, C> BatchBuilder<'a, C> {
    /// The values collected since the last commit, column by column.
    pub closed spec fn collected(&self) -> Seq<Seq<C>> {
        self.collector.pending@.map_values(|c: Vec<C>| c@)
    }

    /// Number of entities collected since the last commit.
    pub closed spec fn count(&self) -> nat {
        self.collector.batch_counter as nat
    }

    /// The definition is well formed and every collected column has one value per collected
    /// entity.
    pub open spec fn wf(&self) -> bool {
        &&& self.def.wf()
        &&& self.collected().len() == self.def.columns@.len()
        &&& forall|c: int| 0 <= c < self.collected().len() ==> (#[trigger] self.collected()[c]).len() == self.count()
    }

    /// A builder adding to `def`.
    pub fn new(def: &'a mut ShardDef<C>, id_counter: Arc<AtomicU32>) -> (builder: BatchBuilder<'a, C>)
        requires
            old(def).wf(),
        ensures
            builder.wf(),
            builder.count() == 0,
            *builder.def == *old(def),
            *final(def) == *final(builder.def),
    {
        let n = def.columns.len();
        let mut pending: Vec<Vec<C>> = Vec::new();
        let mut i: usize = 0;
        while i < n
            invariant
                i <= n,
                pending@.len() == i,
                forall|k: int| 0 <= k < i ==> #[trigger] pending@[k]@.len() == 0,
            decreases n - i,
        {
            pending.push(Vec::new());
            i = i + 1;
        }
        BatchBuilder { def, collector: BatchCollector { pending, batch_counter: 0, id_counter } }
    }

    /// Collect one entity, given one value per component (in ascending order of component).
    pub fn add(&mut self, values: Vec<C>)
        requires
            old(self).wf(),
            values@.len() == old(self).collected().len(),
            old(self).count() < u32::MAX,
        ensures
            final(self).wf(),
            *final(self).def == *old(self).def,
            *final(final(self).def) == *final(old(self).def),
            final(self).count() == old(self).count() + 1,
            final(self).collected() == Seq::new(old(self).collected().len(), |c: int| old(self).collected()[c].push(values@[c])),
    {
        let ghost vals = values@;
        let ghost cols0 = self.collected();
        let mut values = values;
        let n = self.collector.pending.len();
        let mut c: usize = n;
        while c > 0
            invariant
                c <= n,
                n == self.collector.pending@.len(),
                n == cols0.len(),
                vals.len() == n,
                values@ == vals.take(c as int),
                *self.def == *old(self).def,
                *final(self.def) == *final(old(self).def),
                self.collector.batch_counter == old(self).collector.batch_counter,
                forall|k: int| #![trigger self.collector.pending@[k]]
                    0 <= k < n ==> self.collector.pending@[k]@ == (if k >= c { cols0[k].push(vals[k]) } else { cols0[k] }),
            decreases c,
        {
            c = c - 1;
            let v = values.pop().unwrap();
            let ghost cols = self.collector.pending@;
            let mut column: Vec<C> = Vec::new();
            std::mem::swap(&mut column, &mut self.collector.pending[c]);
            column.push(v);
            self.collector.pending.set(c, column);
            proof {
                assert(values@ =~= vals.take(c as int));
                assert forall|k: int| #![trigger self.collector.pending@[k]]
                    0 <= k < n implies self.collector.pending@[k]@ == (if k >= c { cols0[k].push(vals[k]) } else { cols0[k] }) by {
                    if k != c {
                        assert(self.collector.pending@[k] == cols[k]);
                    }
                }
            }
        }
        self.collector.batch_counter = self.collector.batch_counter + 1;
        proof {
            assert(self.collected() =~= Seq::new(cols0.len(), |c: int| cols0[c].push(vals[c])));
        }
    }

    /// Number of entities collected since the last commit.
    pub fn len(&self) -> (n: u32)
        ensures
            n == self.count(),
    {
        self.collector.batch_counter
    }

    /// Give the collected entities consecutive ids from the shared counter and move them into
    /// the definition. Returns all the entity ids of the definition.
    pub fn commit(&mut self) -> (ids: &Vec<EntityId>)
        requires
            old(self).wf(),
        ensures
            final(self).wf(),
            final(self).count() == 0,
            *final(final(self).def) == *final(old(self).def),
            final(self).def.key == old(self).def.key,
            exists|start: u32|
                final(self).def.entity_ids@ == old(self).def.entity_ids@ + #[trigger] consecutive_ids(start, old(self).count()),
            final(self).def.column_data() == Seq::new(old(self).collected().len(), |c: int| old(self).def.column_data()[c] + old(self).collected()[c]),
            ids@ == final(self).def.entity_ids@,
    {
        let n = self.collector.batch_counter;
        let start = draw_ids(&self.collector.id_counter, n);
        let ghost ids0 = self.def.entity_ids@;
        let ghost def0 = *self.def;
        let ghost cols0 = self.collected();
        append_consecutive_ids(&mut self.def.entity_ids, start, n);
        proof {
            assert(consecutive_ids(start, n as nat) =~= Seq::new(n as nat, |q: int| EntityId(start.wrapping_add(q as u32))));
        }
        let m = self.collector.pending.len();
        let mut c: usize = 0;
        while c < m
            invariant
                c <= m,
                m == self.collector.pending@.len(),
                m == cols0.len(),
                m == def0.columns@.len(),
                self.def.columns@.len() == m,
                self.def.key == def0.key,
                *final(self.def) == *final(old(self).def),
                self.def.entity_ids@ == ids0 + Seq::new(n as nat, |q: int| EntityId(start.wrapping_add(q as u32))),
                forall|k: int| #![trigger self.def.columns@[k]]
                    0 <= k < m ==> self.def.columns@[k]@ == (if k < c { def0.columns@[k]@ + cols0[k] } else { def0.columns@[k]@ }),
                forall|k: int| #![trigger self.collector.pending@[k]]
                    0 <= k < m ==> self.collector.pending@[k]@ == (if k < c { Seq::<C>::empty() } else { cols0[k] }),
            decreases m - c,
        {
            let ghost dcols = self.def.columns@;
            let ghost pcols = self.collector.pending@;
            let mut incoming: Vec<C> = Vec::new();
            std::mem::swap(&mut incoming, &mut self.collector.pending[c]);
            let mut column: Vec<C> = Vec::new();
            std::mem::swap(&mut column, &mut self.def.columns[c]);
            column.append(&mut incoming);
            self.def.columns.set(c, column);
            self.collector.pending.set(c, incoming);
            proof {
                assert forall|k: int| #![trigger self.def.columns@[k]]
                    0 <= k < m implies self.def.columns@[k]@ == (if k < c + 1 { def0.columns@[k]@ + cols0[k] } else { def0.columns@[k]@ }) by {
                    if k != c {
                        assert(self.def.columns@[k] == dcols[k]);
                    }
                }
                assert forall|k: int| #![trigger self.collector.pending@[k]]
                    0 <= k < m implies self.collector.pending@[k]@ == (if k < c + 1 { Seq::<C>::empty() } else { cols0[k] }) by {
                    if k != c {
                        assert(self.collector.pending@[k] == pcols[k]);
                    }
                }
            }
            c = c + 1;
        }
        self.collector.batch_counter = 0;
        proof {
            assert(self.def.entity_ids@ == ids0 + consecutive_ids(start, n as nat));
            assert(ids0 == old(self).def.entity_ids@);
            assert(n == old(self).count());
            assert(self.def.entity_ids@ == old(self).def.entity_ids@ + consecutive_ids(start, old(self).count()));
            assert forall|k: int| 0 <= k < self.def.columns@.len() implies #[trigger] self.def.columns@[k]@.len() == self.def.entity_ids@.len() by {
                assert(def0.columns@[k]@.len() == ids0.len());
                assert(cols0[k].len() == n);
            }
            assert(self.def.column_data() =~= Seq::new(cols0.len(), |c: int| def0.column_data()[c] + cols0[c]));
            assert forall|k: int| 0 <= k < self.collected().len() implies (#[trigger] self.collected()[k]).len() == self.count() by {
                assert(self.collector.pending@[k]@ == Seq::<C>::empty());
            }
        }
        &self.def.entity_ids
    }
}

} // verus!
