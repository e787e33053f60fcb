use vstd::prelude::*;
use crate::identity::{EntityId, ShardKey};

verus! {

/// The sequence left after swap-removing the item at `loc`: the last item takes its place.
pub open spec fn swap_removed<T>(s: Seq<T>, loc: int) -> Seq<T> {
    if loc == s.len() - 1 {
        s.drop_last()
    } else {
        s.drop_last().update(loc, s.last())
    }
}

/// Entities added in one go to the shard of a component set: their ids, and for every component
/// of the set (in ascending order of component) the values of the entities, in the same order.
pub struct ShardDef<C> {
    pub key: ShardKey,
    pub entity_ids: Vec<EntityId>,
    pub columns: Vec<Vec<C>>,
}

impl<C> ShardDef<C> {
    /// The component data, column by column.
    pub open spec fn column_data(&self) -> Seq<Seq<C>> {
        self.columns@.map_values(|c: Vec<C>| c@)
    }

    /// One column per component of the key, each holding a value per entity.
    pub open spec fn wf(&self) -> bool {
        &&& self.columns@.len() == self.key.members().len()
        &&& forall|c: int| 0 <= c < self.columns@.len() ==> #[trigger] self.columns@[c]@.len() == self.entity_ids@.len()
    }

    /// An empty definition for the given component set.
    pub fn new(key: ShardKey) -> (def: ShardDef<C>)
        ensures
            def.wf(),
            def.key == key,
            def.entity_ids@.len() == 0,
            forall|c: int| 0 <= c < def.columns@.len() ==> #[trigger] def.columns@[c]@.len() == 0,
    {
        let count = key.key_count();
        let mut columns: Vec<Vec<C>> = Vec::new();
        let mut i: u32 = 0;
        while i < count
            invariant
                i <= count,
                count == key.members().len(),
                columns@.len() == i,
                forall|c: int| 0 <= c < columns@.len() ==> #[trigger] columns@[c]@.len() == 0,
            decreases count - i,
        {
            columns.push(Vec::new());
            i = i + 1;
        }
        ShardDef { key, entity_ids: Vec::new(), columns }
    }

    /// Number of entities defined.
    pub fn len(&self) -> (n: usize)
        ensures
            n == self.entity_ids@.len(),
    {
        self.entity_ids.len()
    }
}

/// A storage of entities with the same set of components: the entity ids, and a column of
/// values for every component, all in the same order.
pub struct Shard<C> {
    key: ShardKey,
    entities: Vec<EntityId>,
    columns: Vec<Vec<C>>,
}

impl<C> Shard<C> {
    /// The shard's key.
    pub closed spec fn spec_key(&self) -> ShardKey {
        self.key
    }

    /// The ids of the entities in the shard, by location.
    pub closed spec fn entity_ids(&self) -> Seq<EntityId> {
        self.entities@
    }

    /// The component values, column by column, each by location.
    pub closed spec fn column_data(&self) -> Seq<Seq<C>> {
        self.columns@.map_values(|c: Vec<C>| c@)
    }

    /// Every column holds a value for each entity.
    pub open spec fn wf(&self) -> bool {
        forall|c: int| 0 <= c < self.column_data().len() ==> (#[trigger] self.column_data()[c]).len() == self.entity_ids().len()
    }

    /// An empty shard with `column_count` columns.
    pub fn new(key: ShardKey, column_count: usize) -> (shard: Shard<C>)
        ensures
            shard.wf(),
            shard.spec_key() == key,
            shard.entity_ids() == Seq::<EntityId>::empty(),
            shard.column_data() == Seq::new(column_count as nat, |c: int| Seq::<C>::empty()),
    {
        let mut columns: Vec<Vec<C>> = Vec::new();
        let mut i: usize = 0;
        while i < column_count
            invariant
                i <= column_count,
                columns@.len() == i,
                forall|k: int| 0 <= k < i ==> #[trigger] columns@[k]@ == Seq::<C>::empty(),
            decreases column_count - i,
        {
            columns.push(Vec::new());
            i = i + 1;
        }
        proof {
            assert(columns@.map_values(|c: Vec<C>| c@) =~= Seq::new(column_count as nat, |c: int| Seq::<C>::empty()));
        }
        Shard { key, entities: Vec::new(), columns }
    }

    /// The shard's key.
    pub fn key(&self) -> (k: ShardKey)
        ensures
            k == self.spec_key(),
    {
        self.key
    }

    /// Number of entities in the shard.
    pub fn len(&self) -> (n: usize)
        ensures
            n == self.entity_ids().len(),
    {
        self.entities.len()
    }

    /// Number of component columns.
    pub fn column_count(&self) -> (n: usize)
        ensures
            n == self.column_data().len(),
    {
        self.columns.len()
    }

    /// The ids of the entities, by location.
    pub fn ids(&self) -> (ids: &[EntityId])
        ensures
            ids@ == self.entity_ids(),
    {
        self.entities.as_slice()
    }

    /// The id of the entity at `loc`.
    pub fn entity_at(&self, loc: usize) -> (id: EntityId)
        requires
            loc < self.entity_ids().len(),
        ensures
            id == self.entity_ids()[loc as int],
    {
        self.entities[loc]
    }

    /// The value of column `column` at `loc`.
    pub fn value_at(&self, column: usize, loc: usize) -> (v: &C)
        requires
            self.wf(),
            column < self.column_data().len(),
            loc < self.entity_ids().len(),
        ensures
            *v == self.column_data()[column as int][loc as int],
    {
        proof {
            assert(self.column_data()[column as int].len() == self.entity_ids().len());
        }
        &self.columns[column][loc]
    }

    /// Moves the entities of `def` into the shard, after the ones already there, and returns
    /// the location of the first one added. `def` is left empty.
    pub fn ingest(&mut self, def: &mut ShardDef<C>) -> (start: usize)
        requires
            old(self).wf(),
            old(def).wf(),
            old(def).columns@.len() == old(self).column_data().len(),
            old(self).entity_ids().len() + old(def).entity_ids@.len() <= usize::MAX,
        ensures
            final(self).wf(),
            start == old(self).entity_ids().len(),
            final(self).spec_key() == old(self).spec_key(),
            final(self).entity_ids() == old(self).entity_ids() + old(def).entity_ids@,
            final(self).column_data().len() == old(self).column_data().len(),
            forall|c: int| 0 <= c < old(self).column_data().len() ==> #[trigger] final(self).column_data()[c]
                == old(self).column_data()[c] + old(def).column_data()[c],
            final(def).key == old(def).key,
            final(def).wf(),
            final(def).entity_ids@.len() == 0,
            final(def).columns@.len() == old(def).columns@.len(),
    {
        let start = self.entities.len();
        let n = self.columns.len();
        let mut c: usize = 0;
        while c < n
            invariant
                c <= n,
                n == self.columns@.len(),
                n == old(self).column_data().len(),
                def.columns@.len() == n,
                def.key == old(def).key,
                def.entity_ids@ == old(def).entity_ids@,
                self.entities@ == old(self).entity_ids(),
                self.key == old(self).spec_key(),
                old(self).wf(),
                old(def).wf(),
                old(def).columns@.len() == n,
                forall|k: int| #![trigger self.columns@[k]]
                    0 <= k < n ==> self.columns@[k]@ == (if k < c {
                        old(self).column_data()[k] + old(def).column_data()[k]
                    } else {
                        old(self).column_data()[k]
                    }),
                forall|k: int| #![trigger def.columns@[k]]
                    0 <= k < n ==> def.columns@[k]@ == (if k < c {
                        Seq::<C>::empty()
                    } else {
                        old(def).column_data()[k]
                    }),
            decreases n - c,
        {
            let ghost self_cols = self.columns@;
            let ghost def_cols = def.columns@;
            let mut incoming: Vec<C> = Vec::new();
            std::mem::swap(&mut incoming, &mut def.columns[c]);
            let mut column: Vec<C> = Vec::new();
            std::mem::swap(&mut column, &mut self.columns[c]);
            column.append(&mut incoming);
            self.columns.set(c, column);
            proof {
                assert forall|k: int| #![trigger self.columns@[k]]
                    0 <= k < n implies self.columns@[k]@ == (if k < c + 1 {
                        old(self).column_data()[k] + old(def).column_data()[k]
                    } else {
                        old(self).column_data()[k]
                    }) by {
                    if k != c {
                        assert(self.columns@[k] == self_cols[k]);
                    }
                }
                assert forall|k: int| #![trigger def.columns@[k]]
                    0 <= k < n implies def.columns@[k]@ == (if k < c + 1 {
                        Seq::<C>::empty()
                    } else {
                        old(def).column_data()[k]
                    }) by {
                    if k != c {
                        assert(def.columns@[k] == def_cols[k]);
                    }
                }
            }
            c = c + 1;
        }
        self.entities.append(&mut def.entity_ids);
        proof {
            assert forall|k: int| 0 <= k < self.column_data().len() implies (#[trigger] self.column_data()[k]).len() == self.entity_ids().len() by {
                assert(old(self).column_data()[k].len() == old(self).entity_ids().len());
                assert(old(def).columns@[k]@.len() == old(def).entity_ids@.len());
            }
            assert forall|k: int| 0 <= k < old(self).column_data().len() implies #[trigger] self.column_data()[k]
                == old(self).column_data()[k] + old(def).column_data()[k] by {
                assert(self.columns@[k]@ == old(self).column_data()[k] + old(def).column_data()[k]);
            }
            assert forall|k: int| 0 <= k < def.columns@.len() implies #[trigger] def.columns@[k]@.len() == def.entity_ids@.len() by {
                assert(def.columns@[k]@ == Seq::<C>::empty());
            }
        }
        start
    }

    /// Removes the entity at `loc`, moving the last entity (and its values) into its place.
    /// Returns the id of the entity now at `loc`, if one moved there, and the values the removed
    /// entity had, column by column.
    pub fn remove(&mut self, loc: usize) -> (result: (Option<EntityId>, Vec<C>))
        requires
            old(self).wf(),
            loc < old(self).entity_ids().len(),
        ensures
            result.1@ == Seq::new(old(self).column_data().len(), |c: int| old(self).column_data()[c][loc as int]),
            final(self).wf(),
            final(self).spec_key() == old(self).spec_key(),
            final(self).entity_ids() == swap_removed(old(self).entity_ids(), loc as int),
            final(self).column_data().len() == old(self).column_data().len(),
            forall|c: int| 0 <= c < old(self).column_data().len() ==> #[trigger] final(self).column_data()[c]
                == swap_removed(old(self).column_data()[c], loc as int),
            loc == old(self).entity_ids().len() - 1 ==> result.0 is None,
            loc < old(self).entity_ids().len() - 1 ==> result.0 == Some(old(self).entity_ids().last()),
    {
        let n = self.columns.len();
        let mut removed: Vec<C> = Vec::new();
        let mut c: usize = 0;
        while c < n
            invariant
                c <= n,
                removed@ == Seq::new(c as nat, |k: int| old(self).column_data()[k][loc as int]),
                n == self.columns@.len(),
                n == old(self).column_data().len(),
                self.entities@ == old(self).entity_ids(),
                self.key == old(self).spec_key(),
                loc < old(self).entity_ids().len(),
                old(self).wf(),
                forall|k: int| #![trigger self.columns@[k]]
                    0 <= k < n ==> self.columns@[k]@ == (if k < c {
                        swap_removed(old(self).column_data()[k], loc as int)
                    } else {
                        old(self).column_data()[k]
                    }),
            decreases n - c,
        {
            let ghost cols = self.columns@;
            let mut column: Vec<C> = Vec::new();
            std::mem::swap(&mut column, &mut self.columns[c]);
            proof {
                assert(column@ == old(self).column_data()[c as int]);
                assert(old(self).column_data()[c as int].len() == old(self).entity_ids().len());
            }
            let ghost before = column@;
            let value = column.swap_remove(loc);
            removed.push(value);
            proof {
                assert(column@ =~= swap_removed(before, loc as int));
                assert(removed@ =~= Seq::new((c + 1) as nat, |k: int| old(self).column_data()[k][loc as int]));
            }
            self.columns.set(c, column);
            proof {
                assert forall|k: int| #![trigger self.columns@[k]]
                    0 <= k < n implies self.columns@[k]@ == (if k < c + 1 {
                        swap_removed(old(self).column_data()[k], loc as int)
                    } else {
                        old(self).column_data()[k]
                    }) by {
                    if k != c {
                        assert(self.columns@[k] == cols[k]);
                    }
                }
            }
            c = c + 1;
        }
        let ghost ids = self.entities@;
        self.entities.swap_remove(loc);
        proof {
            assert(self.entities@ =~= swap_removed(ids, loc as int));
            assert forall|k: int| 0 <= k < self.column_data().len() implies (#[trigger] self.column_data()[k]).len() == self.entity_ids().len() by {
                assert(self.columns@[k]@ == swap_removed(old(self).column_data()[k], loc as int));
                assert(old(self).column_data()[k].len() == old(self).entity_ids().len());
            }
            assert forall|k: int| 0 <= k < old(self).column_data().len() implies #[trigger] self.column_data()[k]
                == swap_removed(old(self).column_data()[k], loc as int) by {
                assert(self.columns@[k]@ == swap_removed(old(self).column_data()[k], loc as int));
            }
        }
        if loc < self.entities.len() {
            (Some(self.entities[loc]), removed)
        } else {
            (None, removed)
        }
    }

    /// Sets the value of column `column` at `loc`.
    pub fn set_value(&mut self, column: usize, loc: usize, value: C)
        requires
            old(self).wf(),
            column < old(self).column_data().len(),
            loc < old(self).entity_ids().len(),
        ensures
            final(self).wf(),
            final(self).spec_key() == old(self).spec_key(),
            final(self).entity_ids() == old(self).entity_ids(),
            final(self).column_data() == old(self).column_data().update(
                column as int,
                old(self).column_data()[column as int].update(loc as int, value),
            ),
    {
        proof {
            assert(old(self).column_data()[column as int].len() == old(self).entity_ids().len());
        }
        let ghost cols = self.columns@;
        let mut col: Vec<C> = Vec::new();
        std::mem::swap(&mut col, &mut self.columns[column]);
        col.set(loc, value);
        self.columns.set(column, col);
        proof {
            assert forall|k: int| 0 <= k < self.columns@.len() && k != column implies self.columns@[k] == cols[k] by {}
            assert(self.column_data() =~= old(self).column_data().update(
                column as int,
                old(self).column_data()[column as int].update(loc as int, value),
            ));
            assert forall|c: int| 0 <= c < self.column_data().len() implies (#[trigger] self.column_data()[c]).len() == self.entity_ids().len() by {
                assert(old(self).column_data()[c].len() == old(self).entity_ids().len());
            }
        }
    }
}

} // verus!
