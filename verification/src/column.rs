use vstd::prelude::*;
use crate::identity::EntityId;
use crate::index::EntityIndex;
use crate::pool::VecPool;
use crate::shard::swap_removed;
use crate::world::{distinct_ids, lemma_place_all, place_all};

verus! {

/// The values of one component for every shard, each shard in a section of its own, along with
/// the ids of the entities they belong to and where each entity's value is.
pub struct ShardedColumn<T> {
    data: VecPool<Vec<T>>,
    entity_ids: VecPool<Vec<EntityId>>,
    coords: EntityIndex,
}

impl<T> ShardedColumn<T> {
    /// The values, section by section.
    pub closed spec fn sections(&self) -> Seq<Seq<T>> {
        self.data.items().map_values(|v: Vec<T>| v@)
    }

    /// The entity ids, section by section, in the order of the values.
    pub closed spec fn section_ids(&self) -> Seq<Seq<EntityId>> {
        self.entity_ids.items().map_values(|v: Vec<EntityId>| v@)
    }

    /// Where each entity's value is: its section and its location there.
    pub closed spec fn locations(&self) -> Map<u32, (u64, usize)> {
        self.coords.contents()
    }

    /// The sections hold one id per value, every recorded location holds the entity, and every
    /// entity in a section is recorded where it is.
    pub closed spec fn wf(&self) -> bool {
        &&& self.data.free().len() == 0
        &&& self.entity_ids.free().len() == 0
        &&& self.sections().len() == self.section_ids().len()
        &&& self.locations().dom().finite()
        &&& forall|s: int| 0 <= s < self.sections().len() ==> (#[trigger] self.sections()[s]).len() == self.section_ids()[s].len()
        &&& forall|e: u32| #[trigger] self.locations().contains_key(e) ==> {
            &&& self.locations()[e].0 < self.sections().len()
            &&& self.locations()[e].1 < self.section_ids()[self.locations()[e].0 as int].len()
            &&& self.section_ids()[self.locations()[e].0 as int][self.locations()[e].1 as int] == EntityId(e)
        }
        &&& forall|s: int, l: int| 0 <= s < self.section_ids().len() && 0 <= l < self.section_ids()[s].len() ==> {
            &&& self.locations().contains_key(#[trigger] self.section_ids()[s][l].0)
            &&& self.locations()[self.section_ids()[s][l].0].0 == s
            &&& self.locations()[self.section_ids()[s][l].0].1 == l
        }
    }

    /// A column without sections.
    pub fn new() -> (column: ShardedColumn<T>)
        ensures
            column.wf(),
            column.sections() == Seq::<Seq<T>>::empty(),
            column.locations() == Map::<u32, (u64, usize)>::empty(),
    {
        let column = ShardedColumn { data: VecPool::new(), entity_ids: VecPool::new(), coords: EntityIndex::new() };
        proof {
            assert(column.sections() =~= Seq::<Seq<T>>::empty());
            assert(column.section_ids() =~= Seq::<Seq<EntityId>>::empty());
            assert(column.locations() =~= Map::<u32, (u64, usize)>::empty());
        }
        column
    }

    /// Where the value of entity `id` is, if it is in the column.
    pub fn get_coords(&self, id: EntityId) -> (coords: Option<(usize, usize)>)
        requires
            self.wf(),
        ensures
            coords is Some <==> self.locations().contains_key(id.0),
            coords matches Some((s, l)) ==> s == self.locations()[id.0].0 && l == self.locations()[id.0].1,
    {
        match self.coords.get(id.0) {
            None => None,
            Some((s, l)) => {
                let n = self.data.len();
                proof {
                    assert(self.locations().contains_key(id.0));
                    assert(s < n);
                }
                Some((s as usize, l))
            },
        }
    }

    /// Number of values in a section.
    pub fn section_len(&self, section: usize) -> (n: usize)
        requires
            self.wf(),
            section < self.sections().len(),
        ensures
            n == self.sections()[section as int].len(),
    {
        self.data.get(section).len()
    }

    /// The value at `loc` of a section, if there is one.
    pub fn get(&self, section: usize, loc: usize) -> (value: Option<&T>)
        requires
            self.wf(),
            section < self.sections().len(),
        ensures
            loc < self.sections()[section as int].len() ==> value == Some(&self.sections()[section as int][loc as int]),
            loc >= self.sections()[section as int].len() ==> value is None,
    {
        let values = self.data.get(section);
        if loc < values.len() {
            Some(&values[loc])
        } else {
            None
        }
    }

    /// Adds an empty section and returns its index.
    pub fn new_section(&mut self) -> (section: usize)
        requires
            old(self).wf(),
            old(self).sections().len() < usize::MAX,
        ensures
            final(self).wf(),
            section == old(self).sections().len(),
            final(self).sections() == old(self).sections().push(Seq::empty()),
            final(self).section_ids() == old(self).section_ids().push(Seq::empty()),
            final(self).locations() == old(self).locations(),
    {
        let ghost o = *self;
        let section = self.data.len();
        self.data.push(Vec::new());
        self.entity_ids.push(Vec::new());
        proof {
            assert(self.sections() =~= o.sections().push(Seq::empty()));
            assert(self.section_ids() =~= o.section_ids().push(Seq::empty()));
            assert forall|e: u32| #[trigger] self.locations().contains_key(e) implies {
                &&& self.locations()[e].0 < self.sections().len()
                &&& self.locations()[e].1 < self.section_ids()[self.locations()[e].0 as int].len()
                &&& self.section_ids()[self.locations()[e].0 as int][self.locations()[e].1 as int] == EntityId(e)
            } by {
                assert(o.locations().contains_key(e));
            }
            assert forall|s: int, l: int| 0 <= s < self.section_ids().len() && 0 <= l < self.section_ids()[s].len() implies {
                &&& self.locations().contains_key(#[trigger] self.section_ids()[s][l].0)
                &&& self.locations()[self.section_ids()[s][l].0].0 == s
                &&& self.locations()[self.section_ids()[s][l].0].1 == l
            } by {
                assert(s < o.section_ids().len());
                assert(self.section_ids()[s] == o.section_ids()[s]);
            }
            assert forall|s: int| 0 <= s < self.sections().len() implies (#[trigger] self.sections()[s]).len() == self.section_ids()[s].len() by {
                if s < o.sections().len() {
                    assert(o.sections()[s].len() == o.section_ids()[s].len());
                }
            }
        }
        section
    }

    /// Sets the value at `loc` of a section.
    pub fn update(&mut self, value: T, section: usize, loc: usize)
        requires
            old(self).wf(),
            section < old(self).sections().len(),
            loc < old(self).sections()[section as int].len(),
        ensures
            final(self).wf(),
            final(self).sections() == old(self).sections().update(
                section as int,
                old(self).sections()[section as int].update(loc as int, value),
            ),
            final(self).section_ids() == old(self).section_ids(),
            final(self).locations() == old(self).locations(),
    {
        let ghost o = *self;
        let values = self.data.get_mut(section);
        values.set(loc, value);
        proof {
            assert(self.sections() =~= o.sections().update(section as int, o.sections()[section as int].update(loc as int, value)));
            assert forall|s2: int| 0 <= s2 < self.sections().len() implies (#[trigger] self.sections()[s2]).len() == self.section_ids()[s2].len() by {
                assert(o.sections()[s2].len() == o.section_ids()[s2].len());
            }
        }
    }

    /// Moves the values of `data` into a section, after the values there, as the values of the
    /// entities `entity_ids`, which are new to the column. `data` is left empty.
    pub fn ingest(&mut self, entity_ids: &[EntityId], data: &mut Vec<T>, section: usize)
        requires
            old(self).wf(),
            section < old(self).sections().len(),
            old(data)@.len() == entity_ids@.len(),
            distinct_ids(entity_ids@),
            forall|p: int| 0 <= p < entity_ids@.len() ==> !old(self).locations().contains_key(#[trigger] entity_ids@[p].0),
            old(self).sections()[section as int].len() + entity_ids@.len() <= usize::MAX,
        ensures
            final(self).wf(),
            final(data)@.len() == 0,
            final(self).sections() == old(self).sections().update(section as int, old(self).sections()[section as int] + old(data)@),
            final(self).section_ids() == old(self).section_ids().update(section as int, old(self).section_ids()[section as int] + entity_ids@),
            final(self).locations() == place_all(old(self).locations(), entity_ids@, section as u64, old(self).sections()[section as int].len() as int),
    {
        let ghost o = *self;
        let start = self.section_len(section);
        let values = self.data.get_mut(section);
        values.append(data);
        let ghost mid_ids = self.entity_ids.items();
        let mut j: usize = 0;
        while j < entity_ids.len()
            invariant
                j <= entity_ids@.len(),
                o.wf(),
                section < o.sections().len(),
                start == o.sections()[section as int].len(),
                start == o.section_ids()[section as int].len(),
                start + entity_ids@.len() <= usize::MAX,
                self.sections() == o.sections().update(section as int, o.sections()[section as int] + old(data)@),
                self.entity_ids.free().len() == 0,
                self.data.free().len() == 0,
                self.section_ids() == o.section_ids().update(section as int, o.section_ids()[section as int] + entity_ids@.take(j as int)),
                self.locations() == place_all(o.locations(), entity_ids@.take(j as int), section as u64, start as int),
            decreases entity_ids@.len() - j,
        {
            let ghost before = self.section_ids();
            let ghost before_items = self.entity_ids.items();
            self.coords.insert(entity_ids[j].0, (section as u64, start + j));
            proof {
                assert(self.entity_ids.items().len() == self.section_ids().len());
            }
            {
                let ids = self.entity_ids.get_mut(section);
                ids.push(entity_ids[j]);
            }
            proof {
                assert(entity_ids@.take(j + 1).drop_last() =~= entity_ids@.take(j as int));
                assert(entity_ids@.take(j + 1).last() == entity_ids@[j as int]);
                let sec = section as int;
                assert(before.len() == o.section_ids().len());
                assert(before[sec] == o.section_ids()[sec] + entity_ids@.take(j as int));
                let grown = o.section_ids()[sec] + entity_ids@.take(j + 1);
                assert(grown =~= (o.section_ids()[sec] + entity_ids@.take(j as int)).push(entity_ids@[j as int]));
                assert(self.section_ids()[sec] =~= before[sec].push(entity_ids@[j as int]));
                assert forall|k: int| 0 <= k < self.section_ids().len() && k != sec implies
                    self.section_ids()[k] == o.section_ids()[k] by {
                    assert(self.entity_ids.items()[k] == before_items[k]);
                    assert(before[k] == o.section_ids()[k]);
                }
                assert(self.section_ids() =~= o.section_ids().update(sec, grown));
            }
            j = j + 1;
        }
        proof {
            let new_ids = entity_ids@;
            let s = section as int;
            assert(new_ids.take(new_ids.len() as int) =~= new_ids);
            assert(self.sections().len() == o.sections().len());
            assert(self.section_ids().len() == o.section_ids().len());
            assert forall|p: int| 0 <= p < new_ids.len() implies !o.locations().contains_key(#[trigger] new_ids[p].0) by {}
            lemma_place_all(o.locations(), new_ids, section as u64, start as int, 0);
            assert forall|s2: int| 0 <= s2 < self.sections().len() implies (#[trigger] self.sections()[s2]).len() == self.section_ids()[s2].len() by {
                assert(o.sections()[s2].len() == o.section_ids()[s2].len());
            }
            assert forall|e: u32| #[trigger] self.locations().contains_key(e) implies {
                &&& self.locations()[e].0 < self.sections().len()
                &&& self.locations()[e].1 < self.section_ids()[self.locations()[e].0 as int].len()
                &&& self.section_ids()[self.locations()[e].0 as int][self.locations()[e].1 as int] == EntityId(e)
            } by {
                lemma_place_all(o.locations(), new_ids, section as u64, start as int, e);
                if exists|p: int| 0 <= p < new_ids.len() && new_ids[p].0 == e {
                    let p = choose|p: int| 0 <= p < new_ids.len() && new_ids[p].0 == e;
                    assert(self.locations()[e] == (section as u64, (start + p) as usize));
                    assert(self.section_ids()[s][start + p] == new_ids[p]);
                } else {
                    assert(o.locations().contains_key(e));
                    let (s2, l2) = o.locations()[e];
                    if s2 == section as u64 {
                        assert(self.section_ids()[s][l2 as int] == o.section_ids()[s][l2 as int]);
                    } else {
                        assert(self.section_ids()[s2 as int] == o.section_ids()[s2 as int]);
                    }
                }
            }
            assert forall|s2: int, l: int| 0 <= s2 < self.section_ids().len() && 0 <= l < self.section_ids()[s2].len() implies {
                &&& self.locations().contains_key(#[trigger] self.section_ids()[s2][l].0)
                &&& self.locations()[self.section_ids()[s2][l].0].0 == s2
                &&& self.locations()[self.section_ids()[s2][l].0].1 == l
            } by {
                let x = self.section_ids()[s2][l];
                lemma_place_all(o.locations(), new_ids, section as u64, start as int, x.0);
                if s2 != s || l < start {
                    assert(x == o.section_ids()[s2][l]);
                    assert(o.locations().contains_key(o.section_ids()[s2][l].0));
                    if exists|q: int| 0 <= q < new_ids.len() && new_ids[q].0 == x.0 {
                        let q = choose|q: int| 0 <= q < new_ids.len() && new_ids[q].0 == x.0;
                        assert(!o.locations().contains_key(new_ids[q].0));
                    }
                } else {
                    let q = l - start;
                    assert(x == new_ids[q]);
                }
            }
        }
    }

    /// Removes the value of entity `entity_id` from its section, the last value of the section
    /// taking its place, and returns it; an entity that is not in the column is ignored.
    pub fn swap_remove(&mut self, entity_id: EntityId, section: usize) -> (removed: Option<T>)
        requires
            old(self).wf(),
            old(self).locations().contains_key(entity_id.0) ==> old(self).locations()[entity_id.0].0 == section,
        ensures
            final(self).wf(),
            !old(self).locations().contains_key(entity_id.0) ==> removed is None && final(self).sections() == old(self).sections()
                && final(self).section_ids() == old(self).section_ids() && final(self).locations() == old(self).locations(),
            old(self).locations().contains_key(entity_id.0) ==> ({
                let l = old(self).locations()[entity_id.0].1 as int;
                let ids = old(self).section_ids()[section as int];
                &&& removed == Some(old(self).sections()[section as int][l])
                &&& final(self).sections() == old(self).sections().update(section as int, swap_removed(old(self).sections()[section as int], l))
                &&& final(self).section_ids() == old(self).section_ids().update(section as int, swap_removed(ids, l))
                &&& final(self).locations() == (if l < ids.len() - 1 {
                    old(self).locations().remove(entity_id.0).insert(ids.last().0, (section as u64, l as usize))
                } else {
                    old(self).locations().remove(entity_id.0)
                })
            }),
    {
        let ghost o = *self;
        match self.coords.remove(entity_id.0) {
            None => {
                proof {
                    assert(self.locations() =~= o.locations());
                }
                None
            },
            Some((_, loc)) => {
                proof {
                    assert(o.locations().contains_key(entity_id.0));
                    assert(o.sections()[section as int].len() == o.section_ids()[section as int].len());
                }
                let values = self.data.get_mut(section);
                let ghost vals0 = values@;
                let value = values.swap_remove(loc);
                proof {
                    assert(values@ =~= swap_removed(vals0, loc as int));
                }
                let ids = self.entity_ids.get_mut(section);
                let ghost ids0 = ids@;
                let last = ids[ids.len() - 1];
                ids.swap_remove(loc);
                proof {
                    assert(ids@ =~= swap_removed(ids0, loc as int));
                }
                let moved = loc < ids.len();
                if moved {
                    self.coords.insert(last.0, (section as u64, loc));
                }
                proof {
                    let s = section as int;
                    let l = loc as int;
                    let n = ids0.len();
                    assert(ids0[l] == entity_id);
                    assert(self.sections() =~= o.sections().update(s, swap_removed(o.sections()[s], l)));
                    assert(self.section_ids() =~= o.section_ids().update(s, swap_removed(ids0, l)));
                    // the section holds each entity once
                    assert forall|p: int| 0 <= p < n && ids0[p].0 == entity_id.0 implies p == l by {
                        assert(o.locations().contains_key(o.section_ids()[s][p].0));
                    }
                    if moved {
                        assert(o.locations().contains_key(o.section_ids()[s][n - 1].0));
                        assert(last.0 != entity_id.0);
                    }
                    assert forall|s2: int| 0 <= s2 < self.sections().len() implies (#[trigger] self.sections()[s2]).len() == self.section_ids()[s2].len() by {
                        assert(o.sections()[s2].len() == o.section_ids()[s2].len());
                    }
                    assert forall|e: u32| #[trigger] self.locations().contains_key(e) implies {
                        &&& self.locations()[e].0 < self.sections().len()
                        &&& self.locations()[e].1 < self.section_ids()[self.locations()[e].0 as int].len()
                        &&& self.section_ids()[self.locations()[e].0 as int][self.locations()[e].1 as int] == EntityId(e)
                    } by {
                        if moved && e == last.0 {
                            assert(self.section_ids()[s][l] == last);
                        } else {
                            assert(e != entity_id.0);
                            assert(o.locations().contains_key(e));
                            let (s2, l2) = o.locations()[e];
                            assert(self.locations()[e] == (s2, l2));
                            if s2 == section as u64 {
                                assert(ids0[l2 as int] == EntityId(e));
                                assert(l2 != l);
                                if moved {
                                    assert(l2 != n - 1);
                                }
                                assert(self.section_ids()[s][l2 as int] == ids0[l2 as int]);
                            } else {
                                assert(self.section_ids()[s2 as int] == o.section_ids()[s2 as int]);
                            }
                        }
                    }
                    assert forall|s2: int, l2: int| 0 <= s2 < self.section_ids().len() && 0 <= l2 < self.section_ids()[s2].len() implies {
                        &&& self.locations().contains_key(#[trigger] self.section_ids()[s2][l2].0)
                        &&& self.locations()[self.section_ids()[s2][l2].0].0 == s2
                        &&& self.locations()[self.section_ids()[s2][l2].0].1 == l2
                    } by {
                        let x = self.section_ids()[s2][l2];
                        if s2 != s {
                            assert(self.section_ids()[s2] == o.section_ids()[s2]);
                            assert(x == o.section_ids()[s2][l2]);
                            assert(o.locations().contains_key(o.section_ids()[s2][l2].0));
                            assert(o.locations()[x.0].0 == s2);
                            assert(x.0 != entity_id.0);
                            if moved {
                                assert(o.locations().contains_key(o.section_ids()[s][n - 1].0));
                                assert(o.locations()[last.0].0 == s);
                                assert(x.0 != last.0);
                            }
                        } else if moved && l2 == l {
                            assert(x == last);
                        } else {
                            assert(x == ids0[l2]);
                            assert(o.locations().contains_key(o.section_ids()[s][l2].0));
                            assert(x.0 != entity_id.0);
                            if moved && x.0 == last.0 {
                                assert(o.locations().contains_key(o.section_ids()[s][n - 1].0));
                            }
                        }
                    }
                }
                Some(value)
            },
        }
    }
}

/// What a store of component values offers whatever the values' type: sections that are
/// added one by one, their lengths, and the removal of an entity's value.
pub trait Column {
    /// The number of values in each section.
    spec fn section_sizes(&self) -> Seq<int>;

    /// The section of each entity that has a value in the column.
    spec fn placement(&self) -> Map<u32, int>;

    /// The column's bookkeeping is consistent.
    spec fn consistent(&self) -> bool;

    /// Adds an empty section and returns its index.
    fn new_section(&mut self) -> (section: usize)
        requires
            old(self).consistent(),
            old(self).section_sizes().len() < usize::MAX,
        ensures
            final(self).consistent(),
            section == old(self).section_sizes().len(),
            final(self).section_sizes() == old(self).section_sizes().push(0),
            final(self).placement() == old(self).placement(),
    ;

    /// Number of values in a section.
    fn section_len(&self, section: usize) -> (n: usize)
        requires
            self.consistent(),
            section < self.section_sizes().len(),
        ensures
            n == self.section_sizes()[section as int],
    ;

    /// Drops the value of `entity_id`, which lies in `section` if the column holds it; an entity
    /// that is not in the column is ignored.
    fn swap_remove(&mut self, entity_id: EntityId, section: usize)
        requires
            old(self).consistent(),
            old(self).placement().contains_key(entity_id.0) ==> old(self).placement()[entity_id.0] == section,
        ensures
            final(self).consistent(),
            final(self).placement() == old(self).placement().remove(entity_id.0),
            old(self).placement().contains_key(entity_id.0) ==> final(self).section_sizes() == old(self).section_sizes().update(
                section as int,
                old(self).section_sizes()[section as int] - 1,
            ),
            !old(self).placement().contains_key(entity_id.0) ==> final(self).section_sizes() == old(self).section_sizes(),
    ;
}

impl<T> Column for ShardedColumn<T> {
    open spec fn section_sizes(&self) -> Seq<int> {
        self.sections().map_values(|values: Seq<T>| values.len() as int)
    }

    open spec fn placement(&self) -> Map<u32, int> {
        self.locations().map_values(|at: (u64, usize)| at.0 as int)
    }

    open spec fn consistent(&self) -> bool {
        self.wf()
    }

    fn new_section(&mut self) -> (section: usize) {
        let section = ShardedColumn::<T>::new_section(self);
        proof {
            assert(self.section_sizes() =~= old(self).section_sizes().push(0));
            assert(self.placement() =~= old(self).placement());
        }
        section
    }

    fn section_len(&self, section: usize) -> (n: usize) {
        ShardedColumn::<T>::section_len(self, section)
    }

    fn swap_remove(&mut self, entity_id: EntityId, section: usize) {
        let ghost o = *self;
        let _ = ShardedColumn::<T>::swap_remove(self, entity_id, section);
        proof {
            if o.locations().contains_key(entity_id.0) {
                let s = section as int;
                let l = o.locations()[entity_id.0].1 as int;
                assert(o.sections()[s].len() == o.section_ids()[s].len());
                assert(self.section_sizes() =~= o.section_sizes().update(s, o.section_sizes()[s] - 1));
                let ids = o.section_ids()[s];
                if l < ids.len() - 1 {
                    assert(o.locations().contains_key(ids[ids.len() - 1].0));
                }
            } else {
                assert(self.section_sizes() =~= o.section_sizes());
            }
            assert(self.placement() =~= o.placement().remove(entity_id.0));
        }
    }
}

} // verus!