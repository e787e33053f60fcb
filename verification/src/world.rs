use vstd::prelude::*;
use crate::identity::{ComponentId, EntityId, ShardKey, flag_mask, indices_of, lemma_indices_below_bounded, lemma_indices_below_contains};
use crate::index::{EntityIndex, ShardIndex, EntityCoords};
use crate::shard::{Shard, ShardDef, swap_removed};
use crate::transaction::{TransactionContext, distinct_keys};

verus! {

/// Changes of shard population that the systems have to hear about.
pub enum ShardEvent {
    /// The shard with this key got its first entities.
    Populated(ShardKey),
    /// The shard with this key lost its last entity.
    Emptied(ShardKey),
}

/// What a shard holds: entity ids by location, and component columns.
pub type ShardContents<C> = (Seq<EntityId>, Seq<Seq<C>>);

/// The abstract world: where each entity is, and what each shard (by key bits) holds.
pub type WorldModel<C> = (Map<u32, EntityCoords>, Map<u64, ShardContents<C>>);

/// The world after deleting entity `id`: the last entity of its shard moves into its place.
pub open spec fn model_delete<C>(m: WorldModel<C>, id: EntityId) -> (WorldModel<C>, Option<ShardEvent>) {
    let (loc, shards) = m;
    if !loc.contains_key(id.0) {
        (m, None)
    } else {
        let (k, l) = loc[id.0];
        let (ids, cols) = shards[k];
        let ids2 = swap_removed(ids, l as int);
        let cols2 = Seq::new(cols.len(), |c: int| swap_removed(cols[c], l as int));
        let loc2 = if l < ids.len() - 1 {
            loc.remove(id.0).insert(ids.last().0, (k, l))
        } else {
            loc.remove(id.0)
        };
        let event = if ids2.len() == 0 {
            Some(ShardEvent::Emptied(ShardKey::spec_from_bits(k)))
        } else {
            None
        };
        ((loc2, shards.insert(k, (ids2, cols2))), event)
    }
}

/// `loc` with the entities `ids` placed in shard `k` from location `start` on.
pub open spec fn place_all(loc: Map<u32, EntityCoords>, ids: Seq<EntityId>, k: u64, start: int) -> Map<u32, EntityCoords>
    decreases ids.len(),
{
    if ids.len() == 0 {
        loc
    } else {
        place_all(loc, ids.drop_last(), k, start).insert(ids.last().0, (k, (start + ids.len() - 1) as usize))
    }
}

/// Adding the same flag to two sets without it keeps them apart.
pub proof fn lemma_flag_or_injective(a: u64, b: u64, e: int)
    requires
        0 <= e < 64,
        !crate::identity::bit_set(a, e),
        !crate::identity::bit_set(b, e),
        a != b,
    ensures
        a | flag_mask(e) != b | flag_mask(e),
{
    let s = e as u64;
    assert(s < 64 && (a >> s) & 1u64 != 1u64 && (b >> s) & 1u64 != 1u64 && a != b ==> a | (1u64 << s) != b | (1u64 << s)) by (bit_vector);
}

/// The ids of `ids` are pairwise distinct.
pub open spec fn distinct_ids(ids: Seq<EntityId>) -> bool {
    forall|p: int, q: int| 0 <= p < q < ids.len() ==> ids[p].0 != ids[q].0
}

pub proof fn lemma_place_all(loc: Map<u32, EntityCoords>, ids: Seq<EntityId>, k: u64, start: int, e: u32)
    requires
        distinct_ids(ids),
        0 <= start,
        start + ids.len() <= usize::MAX,
    ensures
        place_all(loc, ids, k, start).contains_key(e) <==> (loc.contains_key(e) || exists|p: int| 0 <= p < ids.len() && ids[p].0 == e),
        forall|p: int| 0 <= p < ids.len() && ids[p].0 == e ==> place_all(loc, ids, k, start)[e] == (k, (start + p) as usize),
        !(exists|p: int| 0 <= p < ids.len() && ids[p].0 == e) && loc.contains_key(e) ==> place_all(loc, ids, k, start)[e] == loc[e],
        loc.dom().finite() ==> place_all(loc, ids, k, start).dom().finite(),
    decreases ids.len(),
{
    if ids.len() > 0 {
        let prev = ids.drop_last();
        assert(distinct_ids(prev));
        lemma_place_all(loc, prev, k, start, e);
        let last = ids.last();
        if exists|p: int| 0 <= p < prev.len() && prev[p].0 == e {
            let p = choose|p: int| 0 <= p < prev.len() && prev[p].0 == e;
            assert(ids[p].0 == e);
        }
        if exists|p: int| 0 <= p < ids.len() && ids[p].0 == e {
            let p = choose|p: int| 0 <= p < ids.len() && ids[p].0 == e;
            if p < ids.len() - 1 {
                assert(prev[p].0 == e);
            }
        }
        assert forall|p: int| 0 <= p < ids.len() && ids[p].0 == e implies place_all(loc, ids, k, start)[e] == (k, (start + p) as usize) by {
            if p < ids.len() - 1 {
                assert(prev[p].0 == e);
                assert(last.0 != e);
            }
        }
    }
}

/// The world after adding the entities `ids`, with component columns `cols`, to shard `k`.
pub open spec fn model_add<C>(m: WorldModel<C>, k: u64, ids: Seq<EntityId>, cols: Seq<Seq<C>>) -> (WorldModel<C>, Option<ShardEvent>) {
    let (loc, shards) = m;
    if ids.len() == 0 {
        (m, None)
    } else {
        let (old_ids, old_cols) = if shards.contains_key(k) {
            shards[k]
        } else {
            (Seq::empty(), Seq::new(cols.len(), |c: int| Seq::<C>::empty()))
        };
        let event = if old_ids.len() == 0 {
            Some(ShardEvent::Populated(ShardKey::spec_from_bits(k)))
        } else {
            None
        };
        let new_cols = Seq::new(old_cols.len(), |c: int| old_cols[c] + cols[c]);
        ((place_all(loc, ids, k, old_ids.len() as int), shards.insert(k, (old_ids + ids, new_cols))), event)
    }
}

/// The component values of entity `id`, column by column.
pub open spec fn entity_values<C>(m: WorldModel<C>, id: EntityId) -> Seq<C> {
    let (k, l) = m.0[id.0];
    let cols = m.1[k].1;
    Seq::new(cols.len(), |c: int| cols[c][l as int])
}

/// The events of an optional event.
pub open spec fn event_seq(e: Option<ShardEvent>) -> Seq<ShardEvent> {
    match e {
        Some(x) => seq![x],
        None => Seq::empty(),
    }
}

/// The world after deleting the entities `ids` in order, and the events on the way.
pub open spec fn model_delete_all<C>(m: WorldModel<C>, ids: Seq<EntityId>) -> (WorldModel<C>, Seq<ShardEvent>)
    decreases ids.len(),
{
    if ids.len() == 0 {
        (m, Seq::empty())
    } else {
        let r = model_delete_all(m, ids.drop_last());
        let s = model_delete(r.0, ids.last());
        (s.0, r.1 + event_seq(s.1))
    }
}

/// The world after adding the definitions `defs` in order, each to the shard of its component
/// set plus the entity flag `flag`, and the events on the way.
pub open spec fn model_add_all<C>(m: WorldModel<C>, defs: Seq<ShardDef<C>>, flag: u64) -> (WorldModel<C>, Seq<ShardEvent>)
    decreases defs.len(),
{
    if defs.len() == 0 {
        (m, Seq::empty())
    } else {
        let r = model_add_all(m, defs.drop_last(), flag);
        let d = defs.last();
        let s = model_add(r.0, d.key@ | flag, d.entity_ids@, d.column_data());
        (s.0, r.1 + event_seq(s.1))
    }
}

/// The world after a transaction context is processed: deletions first, then additions.
pub open spec fn model_process<C>(m: WorldModel<C>, deleted: Seq<EntityId>, defs: Seq<ShardDef<C>>, flag: u64) -> (WorldModel<C>, Seq<ShardEvent>) {
    let d = model_delete_all(m, deleted);
    let a = model_add_all(d.0, defs, flag);
    (a.0, d.1 + a.1)
}

/// The entities that `defs` add are new to `loc`, and no id is added twice.
pub open spec fn fresh_additions<C>(defs: Seq<ShardDef<C>>, loc: Map<u32, EntityCoords>) -> bool {
    &&& forall|q: int, p: int|
        0 <= q < defs.len() && 0 <= p < defs[q].entity_ids@.len() ==> !loc.contains_key(#[trigger] defs[q].entity_ids@[p].0)
    &&& forall|q: int, p: int, q2: int, p2: int|
        0 <= q < defs.len() && 0 <= p < defs[q].entity_ids@.len() && 0 <= q2 < defs.len() && 0 <= p2 < defs[q2].entity_ids@.len()
            && (q != q2 || p != p2) ==> #[trigger] defs[q].entity_ids@[p].0 != #[trigger] defs[q2].entity_ids@[p2].0
}

/// The shards that a system requiring the components `required` runs over: those holding
/// entities, whose key holds every required component.
pub open spec fn wanted<C>(m: WorldModel<C>, required: u64) -> Set<u64> {
    Set::new(|k: u64| m.1.contains_key(k) && m.1[k].0.len() > 0 && k & required == required)
}

/// The shards of a system that requires `required` and had `set`, once it has heard `events`:
/// a populated shard it requires joins, an emptied shard leaves.
pub open spec fn heard(set: Set<u64>, required: u64, events: Seq<ShardEvent>) -> Set<u64>
    decreases events.len(),
{
    if events.len() == 0 {
        set
    } else {
        let prev = heard(set, required, events.drop_last());
        match events.last() {
            ShardEvent::Populated(k) => if k@ & required == required {
                prev.insert(k@)
            } else {
                prev
            },
            ShardEvent::Emptied(k) => prev.remove(k@),
        }
    }
}

/// Hearing two runs of events in turn is hearing them in one.
pub proof fn lemma_heard_append(set: Set<u64>, required: u64, first: Seq<ShardEvent>, second: Seq<ShardEvent>)
    ensures
        heard(set, required, first + second) == heard(heard(set, required, first), required, second),
    decreases second.len(),
{
    if second.len() == 0 {
        assert(first + second =~= first);
    } else {
        lemma_heard_append(set, required, first, second.drop_last());
        assert((first + second).drop_last() =~= first + second.drop_last());
        assert((first + second).last() == second.last());
    }
}

/// Adding entities to a shard raises the event that keeps every system's shards in step.
pub proof fn lemma_add_tracks<C>(m: WorldModel<C>, k: u64, ids: Seq<EntityId>, cols: Seq<Seq<C>>, required: u64)
    ensures
        wanted(model_add(m, k, ids, cols).0, required) == heard(wanted(m, required), required, event_seq(model_add(m, k, ids, cols).1)),
{
    let (m2, ev) = model_add(m, k, ids, cols);
    if ids.len() == 0 {
        assert(event_seq(ev) =~= Seq::<ShardEvent>::empty());
    } else {
        ShardKey::lemma_from_bits(k);
        let w = wanted(m, required);
        let w2 = wanted(m2, required);
        let old_len: nat = if m.1.contains_key(k) { m.1[k].0.len() } else { 0 };
        assert(m2.1[k].0.len() == old_len + ids.len());
        if old_len == 0 {
            let e = ShardEvent::Populated(ShardKey::spec_from_bits(k));
            assert(event_seq(ev) == seq![e]);
            assert(seq![e].drop_last() =~= Seq::<ShardEvent>::empty());
            assert(heard(w, required, Seq::<ShardEvent>::empty()) == w);
            if k & required == required {
                assert(heard(w, required, seq![e]) == w.insert(k));
                assert(w2 =~= w.insert(k));
            } else {
                assert(heard(w, required, seq![e]) == w);
                assert(w2 =~= w);
            }
        } else {
            assert(event_seq(ev) =~= Seq::<ShardEvent>::empty());
            assert(w2 =~= w);
        }
    }
}

/// How an edit defines one component of an entity's new component set.
pub enum CompDef<C> {
    /// The component takes this value.
    Value(C),
    /// The component keeps the value the entity has; it must already be on the entity.
    Nop,
}

/// Why an entity cannot be edited.
#[derive(Debug, Clone, Copy, PartialEq, Eq, Structural)]
pub enum TransactionError {
    /// No entity with this id is in the world.
    EntityNotFound(EntityId),
}

/// A column after a definition applies to location `l`.
pub open spec fn edited_column<C>(d: CompDef<C>, col: Seq<C>, l: int) -> Seq<C> {
    match d {
        CompDef::Value(v) => col.update(l, v),
        CompDef::Nop => col,
    }
}

/// The value a definition gives a component whose current value is `current`.
pub open spec fn def_value<C>(d: CompDef<C>, current: C) -> C {
    match d {
        CompDef::Value(v) => v,
        CompDef::Nop => current,
    }
}

/// Where flag `e` stands among the flags of `bits`, in ascending order.
pub open spec fn member_pos(bits: u64, e: nat) -> int {
    choose|p: int| 0 <= p < indices_of(bits).len() && indices_of(bits)[p] == e
}

/// Every component that an edit of `id` keeps is one the entity has.
pub open spec fn keeps_known<C>(m: WorldModel<C>, id: EntityId, key: u64, defs: Seq<CompDef<C>>) -> bool {
    m.0.contains_key(id.0) ==> forall|c: int|
        0 <= c < defs.len() && #[trigger] defs[c] is Nop ==> crate::identity::bit_set(m.0[id.0].0, indices_of(key)[c] as int)
}

/// The world after entity `id` is edited to hold the components `key` (plus the entity flag
/// `flag`), defined by `defs` in ascending order of component, and the events on the way. The
/// same component set is edited in place; another one moves the entity to its shard, with the
/// values it keeps.
pub open spec fn model_edit<C>(m: WorldModel<C>, id: EntityId, key: u64, defs: Seq<CompDef<C>>, flag: u64) -> (WorldModel<C>, Seq<ShardEvent>) {
    let (loc, shards) = m;
    if !loc.contains_key(id.0) {
        (m, Seq::empty())
    } else {
        let (k, l) = loc[id.0];
        let (ids, cols) = shards[k];
        if key | flag == k {
            let cols2 = Seq::new(cols.len(), |c: int| edited_column(defs[c], cols[c], l as int));
            ((loc, shards.insert(k, (ids, cols2))), Seq::empty())
        } else {
            let values = Seq::new(defs.len(), |c: int| def_value(defs[c], cols[member_pos(k & !flag, indices_of(key)[c])][l as int]));
            let d = model_delete(m, id);
            let a = model_add(d.0, key | flag, seq![id], Seq::new(values.len(), |c: int| seq![values[c]]));
            (a.0, event_seq(d.1) + event_seq(a.1))
        }
    }
}

/// A component that a shard key `k` holds, other than the entity flag `f`, stands among the
/// components of the key without that flag.
proof fn lemma_kept_position(k: u64, f: int, e: nat)
    requires
        0 <= f < 64,
        crate::identity::bit_set(k, e as int),
        e != f,
    ensures
        0 <= member_pos(k & !flag_mask(f), e) < indices_of(k & !flag_mask(f)).len(),
        indices_of(k & !flag_mask(f))[member_pos(k & !flag_mask(f), e)] == e,
{
    let olds = k & !flag_mask(f);
    crate::identity::lemma_bit_and_not(k, flag_mask(f), e as int);
    crate::identity::lemma_flag_bits(f, e as int);
    lemma_indices_below_contains(olds, 64, e);
    let q = choose|q: int| 0 <= q < indices_of(olds).len() && indices_of(olds)[q] == e;
    assert(0 <= q < indices_of(olds).len() && indices_of(olds)[q] == e);
}

/// The components of a key that lacks flag `f` are not `f`.
proof fn lemma_member_not_flag(key: u64, f: int, c: int)
    requires
        0 <= f < 64,
        !crate::identity::bit_set(key, f),
        0 <= c < indices_of(key).len(),
    ensures
        indices_of(key)[c] != f,
        crate::identity::bit_set(key, indices_of(key)[c] as int),
{
    let e = indices_of(key)[c];
    lemma_indices_below_contains(key, 64, e);
    assert(indices_of(key).contains(e));
}

/// Where flag `e` stands in `members`, which holds it.
fn position_of(members: &Vec<crate::identity::ComponentId>, e: usize) -> (p: usize)
    requires
        exists|q: int| 0 <= q < members@.len() && members@[q]@ == e,
    ensures
        p < members@.len(),
        members@[p as int]@ == e,
{
    let mut p: usize = 0;
    while p < members.len()
        invariant
            p <= members@.len(),
            forall|q: int| 0 <= q < p ==> members@[q]@ != e,
            exists|q: int| 0 <= q < members@.len() && members@[q]@ == e,
        decreases members@.len() - p,
    {
        if members[p].indexer() == e {
            return p;
        }
        p = p + 1;
    }
    0
}

/// The id at position `p` of definition `q`.
pub open spec fn def_id<C>(defs: Seq<ShardDef<C>>, q: int, p: int) -> u32 {
    defs[q].entity_ids@[p].0
}

/// Position `p2` of definition `q2` is an id of `defs` that comes before position `p` of
/// definition `q`.
pub open spec fn id_before<C>(defs: Seq<ShardDef<C>>, q2: int, p2: int, q: int, p: int) -> bool {
    &&& 0 <= q2 < defs.len()
    &&& 0 <= p2 < defs[q2].entity_ids@.len()
    &&& (q2 < q || (q2 == q && p2 < p))
}

/// The ids of `defs` before position `p` of definition `q` are new to `loc`, distinct, and
/// exactly the keys of `seen`.
pub open spec fn fresh_before<C>(defs: Seq<ShardDef<C>>, loc: Map<u32, EntityCoords>, seen: Map<u32, EntityCoords>, q: int, p: int) -> bool {
    &&& forall|q2: int, p2: int| id_before(defs, q2, p2, q, p) ==> {
        &&& !loc.contains_key(#[trigger] def_id(defs, q2, p2))
        &&& seen.contains_key(def_id(defs, q2, p2))
    }
    &&& forall|q2: int, p2: int, q3: int, p3: int|
        id_before(defs, q2, p2, q, p) && id_before(defs, q3, p3, q, p) && (q2 != q3 || p2 != p3)
            ==> #[trigger] def_id(defs, q2, p2) != #[trigger] def_id(defs, q3, p3)
    &&& forall|e: u32| #[trigger] seen.contains_key(e) ==>
        exists|q2: int, p2: int| id_before(defs, q2, p2, q, p) && #[trigger] def_id(defs, q2, p2) == e
}

/// The entity and shard bookkeeping of a world.
pub struct GameState<C> {
    entity_component: ComponentId,
    entities: EntityIndex,
    shard_index: ShardIndex,
    shards: Vec<Shard<C>>,
}

impl<C> GameState<C> {
    pub closed spec fn loc(&self) -> Map<u32, EntityCoords> {
        self.entities.contents()
    }

    pub closed spec fn idx(&self) -> Map<u64, usize> {
        self.shard_index.contents()
    }

    pub closed spec fn shard_seq(&self) -> Seq<Shard<C>> {
        self.shards@
    }

    /// The component that every shard holds: the entity id itself.
    pub closed spec fn entity_flag(&self) -> ComponentId {
        self.entity_component
    }

    /// The world the state stands for.
    pub closed spec fn model(&self) -> WorldModel<C> {
        (
            self.loc(),
            Map::new(
                |k: u64| self.idx().contains_key(k),
                |k: u64| (self.shard_seq()[self.idx()[k] as int].entity_ids(), self.shard_seq()[self.idx()[k] as int].column_data()),
            ),
        )
    }

    /// Shard keys and positions match, every entity is recorded at the location that holds it,
    /// and every location holds a recorded entity.
    pub closed spec fn wf(&self) -> bool {
        &&& self.loc().dom().finite()
        &&& self.idx().dom().finite()
        &&& forall|k: u64| #[trigger] self.idx().contains_key(k) ==> {
            &&& self.idx()[k] < self.shard_seq().len()
            &&& self.shard_seq()[self.idx()[k] as int].spec_key()@ == k
        }
        &&& forall|i: int| 0 <= i < self.shard_seq().len() ==> {
            &&& self.idx().contains_key(#[trigger] self.shard_seq()[i].spec_key()@)
            &&& self.idx()[self.shard_seq()[i].spec_key()@] == i
            &&& self.shard_seq()[i].wf()
            &&& self.shard_seq()[i].column_data().len() == indices_of(self.shard_seq()[i].spec_key()@ & !flag_mask(self.entity_flag()@ as int)).len()
        }
        &&& forall|e: u32| #[trigger] self.loc().contains_key(e) ==> {
            &&& self.idx().contains_key(self.loc()[e].0)
            &&& self.loc()[e].1 < self.shard_seq()[self.idx()[self.loc()[e].0] as int].entity_ids().len()
            &&& self.shard_seq()[self.idx()[self.loc()[e].0] as int].entity_ids()[self.loc()[e].1 as int] == EntityId(e)
        }
        &&& forall|i: int, l: int|
            0 <= i < self.shard_seq().len() && 0 <= l < self.shard_seq()[i].entity_ids().len() ==> {
                &&& self.loc().contains_key(#[trigger] self.shard_seq()[i].entity_ids()[l].0)
                &&& self.loc()[self.shard_seq()[i].entity_ids()[l].0].0 == self.shard_seq()[i].spec_key()@
                &&& self.loc()[self.shard_seq()[i].entity_ids()[l].0].1 == l
            }
    }

    /// An empty world whose entities all carry `entity_component`.
    pub fn new(entity_component: ComponentId) -> (state: GameState<C>)
        ensures
            state.wf(),
            state.model().0 == Map::<u32, EntityCoords>::empty(),
            state.model().1 == Map::<u64, ShardContents<C>>::empty(),
    {
        let state = GameState {
            entity_component,
            entities: EntityIndex::new(),
            shard_index: ShardIndex::new(),
            shards: Vec::new(),
        };
        proof {
            assert(state.loc() =~= Map::empty());
            assert(state.idx() =~= Map::empty());
            assert(state.model().1 =~= Map::empty());
        }
        state
    }

    /// Number of entities in the world.
    pub fn entity_count(&self) -> (n: usize)
        ensures
            n == self.model().0.dom().len(),
    {
        self.entities.len()
    }

    /// Number of shards ever created.
    pub fn shard_count(&self) -> (n: usize)
        ensures
            n == self.shard_seq().len(),
    {
        self.shards.len()
    }

    /// The key and the location of an entity, if it is in the world.
    pub fn entity_coords(&self, id: EntityId) -> (coords: Option<(ShardKey, usize)>)
        ensures
            coords is Some <==> self.model().0.contains_key(id.0),
            coords matches Some((k, l)) ==> k@ == self.model().0[id.0].0 && l == self.model().0[id.0].1,
    {
        match self.entities.get(id.0) {
            Some((k, l)) => Some((ShardKey::from_bits(k), l)),
            None => None,
        }
    }

    /// The entities of the shard with key `key` (the entity id component included), by location,
    /// if there is such a shard.
    pub fn shard_entities(&self, key: &ShardKey) -> (ids: Option<&[EntityId]>)
        requires
            self.wf(),
        ensures
            ids is Some <==> self.model().1.contains_key(key@),
            ids matches Some(s) ==> s@ == self.model().1[key@].0,
    {
        match self.shard_index.get(key.bits()) {
            None => None,
            Some(i) => {
                proof {
                    assert(self.idx().contains_key(key@));
                }
                Some(self.shards[i].ids())
            },
        }
    }

    /// The value of the `column`-th component (in ascending order of component, the entity id
    /// component aside) of entity `id`, if the entity is in the world and has that many.
    pub fn value_of(&self, id: EntityId, column: usize) -> (v: Option<&C>)
        requires
            self.wf(),
        ensures
            !self.model().0.contains_key(id.0) ==> v is None,
            self.model().0.contains_key(id.0) ==> {
                let (k, l) = self.model().0[id.0];
                let cols = self.model().1[k].1;
                &&& column >= cols.len() ==> v is None
                &&& column < cols.len() ==> v == Some(&cols[column as int][l as int])
            },
    {
        match self.entities.get(id.0) {
            None => None,
            Some((k, l)) => {
                proof {
                    assert(self.loc().contains_key(id.0));
                    assert(self.idx().contains_key(k));
                }
                let i = self.shard_index.get(k).unwrap();
                proof {
                    assert(self.idx().contains_key(self.shard_seq()[i as int].spec_key()@));
                }
                if column < self.shards[i].column_count() {
                    Some(self.shards[i].value_at(column, l))
                } else {
                    None
                }
            },
        }
    }

    /// The position of the shard with key `key`, creating an empty shard with `columns` columns
    /// when there is none.
    fn ensure_shard(&mut self, key: ShardKey, columns: usize) -> (i: usize)
        requires
            old(self).wf(),
            old(self).shard_seq().len() < usize::MAX,
            !old(self).idx().contains_key(key@) ==> columns == indices_of(key@ & !flag_mask(old(self).entity_flag()@ as int)).len(),
        ensures
            final(self).wf(),
            final(self).entity_flag() == old(self).entity_flag(),
            final(self).loc() == old(self).loc(),
            final(self).idx().contains_key(key@),
            final(self).idx()[key@] == i,
            i < final(self).shard_seq().len(),
            final(self).shard_seq()[i as int].spec_key() == key,
            final(self).shard_seq().len() <= old(self).shard_seq().len() + 1,
            final(self).model().0 == old(self).model().0,
            final(self).model().1 == (if old(self).model().1.contains_key(key@) {
                old(self).model().1
            } else {
                old(self).model().1.insert(key@, (Seq::empty(), Seq::new(columns as nat, |c: int| Seq::<C>::empty())))
            }),
    {
        match self.shard_index.get(key.bits()) {
            Some(i) => {
                proof {
                    ShardKey::lemma_from_bits(key@);
                    ShardKey::lemma_from_bits(self.shard_seq()[i as int].spec_key()@);
                }
                i
            },
            None => {
                let i = self.shards.len();
                let ghost o = *old(self);
                self.shards.push(Shard::new(key, columns));
                self.shard_index.insert(key.bits(), i);
                proof {
                    let new_shard = self.shard_seq()[i as int];
                    assert(self.shard_seq() == o.shard_seq().push(new_shard));
                    assert(self.idx() == o.idx().insert(key@, i));
                    assert forall|k2: u64| #[trigger] self.idx().contains_key(k2) implies {
                        &&& self.idx()[k2] < self.shard_seq().len()
                        &&& self.shard_seq()[self.idx()[k2] as int].spec_key()@ == k2
                    } by {
                        if k2 != key@ {
                            assert(o.idx().contains_key(k2));
                        }
                    }
                    assert forall|j: int| 0 <= j < self.shard_seq().len() implies {
                        &&& self.idx().contains_key(#[trigger] self.shard_seq()[j].spec_key()@)
                        &&& self.idx()[self.shard_seq()[j].spec_key()@] == j
                        &&& self.shard_seq()[j].wf()
                        &&& self.shard_seq()[j].column_data().len() == indices_of(self.shard_seq()[j].spec_key()@ & !flag_mask(self.entity_flag()@ as int)).len()
                    } by {
                        if j < i {
                            assert(self.shard_seq()[j] == o.shard_seq()[j]);
                            assert(o.idx().contains_key(o.shard_seq()[j].spec_key()@));
                        }
                    }
                    assert forall|e: u32| #[trigger] self.loc().contains_key(e) implies {
                        &&& self.idx().contains_key(self.loc()[e].0)
                        &&& self.loc()[e].1 < self.shard_seq()[self.idx()[self.loc()[e].0] as int].entity_ids().len()
                        &&& self.shard_seq()[self.idx()[self.loc()[e].0] as int].entity_ids()[self.loc()[e].1 as int] == EntityId(e)
                    } by {
                        assert(o.loc().contains_key(e));
                        assert(o.idx().contains_key(o.loc()[e].0));
                    }
                    assert forall|j: int, p: int|
                        0 <= j < self.shard_seq().len() && 0 <= p < self.shard_seq()[j].entity_ids().len() implies {
                            &&& self.loc().contains_key(#[trigger] self.shard_seq()[j].entity_ids()[p].0)
                            &&& self.loc()[self.shard_seq()[j].entity_ids()[p].0].0 == self.shard_seq()[j].spec_key()@
                            &&& self.loc()[self.shard_seq()[j].entity_ids()[p].0].1 == p
                        } by {
                        assert(j < i);
                        assert(self.shard_seq()[j] == o.shard_seq()[j]);
                        assert(o.loc().contains_key(o.shard_seq()[j].entity_ids()[p].0));
                    }
                    assert(!o.model().1.contains_key(key@));
                    assert(self.model().1 =~= o.model().1.insert(key@, (Seq::empty(), Seq::new(columns as nat, |c: int| Seq::<C>::empty()))));
                }
                i
            },
        }
    }

    /// Adds the entities of `def` to the shard of its component set (plus the entity id
    /// component), creating the shard if needed. `def` is left empty.
    #[verifier::spinoff_prover]
    fn process_add(&mut self, def: &mut ShardDef<C>) -> (event: Option<ShardEvent>)
        requires
            old(self).wf(),
            old(def).wf(),
            !old(def).key.has(old(self).entity_flag()@ as int),
            distinct_ids(old(def).entity_ids@),
            forall|p: int| 0 <= p < old(def).entity_ids@.len() ==> !old(self).model().0.contains_key(#[trigger] old(def).entity_ids@[p].0),
            old(self).shard_seq().len() < usize::MAX,
            old(self).model().1.contains_key(old(def).key@ | flag_mask(old(self).entity_flag()@ as int))
                ==> old(self).model().1[old(def).key@ | flag_mask(old(self).entity_flag()@ as int)].0.len() + old(def).entity_ids@.len() <= usize::MAX,
        ensures
            final(self).wf(),
            final(self).entity_flag() == old(self).entity_flag(),
            final(self).shard_seq().len() <= old(self).shard_seq().len() + 1,
            (final(self).model(), event) == model_add(
                old(self).model(),
                old(def).key@ | flag_mask(old(self).entity_flag()@ as int),
                old(def).entity_ids@,
                old(def).column_data(),
            ),
            final(def).entity_ids@.len() == 0,
            final(def).wf(),
            final(def).key == old(def).key,
    {
        if def.entity_ids.len() == 0 {
            return None;
        }
        let key = def.key.with(&self.entity_component);
        let k = key.bits();
        let ghost e = self.entity_flag()@;
        let ei = self.entity_component.indexer();
        proof {
            let d = def.key@;
            let m = flag_mask(e as int);
            assert(e < 64);
            assert(!crate::identity::bit_set(d, e as int));
            let ee = e as u64;
            assert(ee < 64 && (d >> ee) & 1u64 != 1u64 ==> (d | (1u64 << ee)) & !(1u64 << ee) == d) by (bit_vector);
            assert((k & !m) == d);
        }
        let i = self.ensure_shard(key, def.columns.len());
        let ghost mid = *self;
        let was_empty = self.shards[i].len() == 0;
        let mut ids: Vec<EntityId> = Vec::new();
        let mut j: usize = 0;
        while j < def.entity_ids.len()
            invariant
                j <= def.entity_ids@.len(),
                ids@ == def.entity_ids@.take(j as int),
            decreases def.entity_ids@.len() - j,
        {
            ids.push(def.entity_ids[j]);
            j = j + 1;
            proof {
                assert(ids@ =~= def.entity_ids@.take(j as int));
            }
        }
        proof {
            assert(ids@ =~= def.entity_ids@);
        }
        proof {
            assert(mid.model().1.contains_key(k));
            assert(mid.model().1[k].0 == mid.shard_seq()[i as int].entity_ids());
            if old(self).model().1.contains_key(k) {
                assert(mid.model().1[k] == old(self).model().1[k]);
            } else {
                assert(mid.model().1[k].0.len() == 0);
            }
            assert(mid.shard_seq()[i as int].wf());
            assert(def.columns@.len() == indices_of(def.key@).len());
        }
        let start = self.shards[i].ingest(def);
        let ghost loc0 = self.loc();
        let ghost shards1 = self.shards@;
        let mut j: usize = 0;
        while j < ids.len()
            invariant
                j <= ids@.len(),
                ids@ == old(def).entity_ids@,
                self.loc() == place_all(loc0, ids@.take(j as int), k, start as int),
                self.idx() == mid.idx(),
                start + ids@.len() <= usize::MAX,
                self.shards@ == shards1,
                self.entity_component == mid.entity_component,
            decreases ids@.len() - j,
        {
            self.entities.insert(ids[j].0, (k, start + j));
            proof {
                assert(ids@.take(j + 1).drop_last() =~= ids@.take(j as int));
            }
            j = j + 1;
        }
        proof {
            assert(ids@.take(ids@.len() as int) =~= ids@);
            let o = *old(self);
            let new_ids = ids@;
            let old_shard = mid.shard_seq()[i as int];
            let new_shard = self.shard_seq()[i as int];
            let old_len = old_shard.entity_ids().len();
            assert(start == old_len);
            assert(new_shard.entity_ids() == old_shard.entity_ids() + new_ids);
            assert(self.shard_seq() == mid.shard_seq().update(i as int, new_shard));
            assert(new_shard.spec_key()@ == k);
            assert(distinct_ids(new_ids));
            assert(loc0 == mid.loc());
            assert(mid.loc() == o.loc());
            // fresh ids are not recorded before
            assert forall|p: int| 0 <= p < new_ids.len() implies !loc0.contains_key(#[trigger] new_ids[p].0) by {
                assert(!o.model().0.contains_key(old(def).entity_ids@[p].0));
            }
            assert forall|e2: u32| true implies {
                &&& (self.loc().contains_key(e2) <==> (loc0.contains_key(e2) || exists|p: int| 0 <= p < new_ids.len() && new_ids[p].0 == e2))
                &&& forall|p: int| 0 <= p < new_ids.len() && new_ids[p].0 == e2 ==> self.loc()[e2] == (k, (start + p) as usize)
                &&& !(exists|p: int| 0 <= p < new_ids.len() && new_ids[p].0 == e2) && loc0.contains_key(e2) ==> self.loc()[e2] == loc0[e2]
            } by {
                lemma_place_all(loc0, new_ids, k, start as int, e2);
            }
            lemma_place_all(loc0, new_ids, k, start as int, 0);
            assert forall|j2: int| 0 <= j2 < self.shard_seq().len() && j2 != i implies
                #[trigger] self.shard_seq()[j2] == mid.shard_seq()[j2] && mid.shard_seq()[j2].spec_key()@ != k by {
                assert(mid.idx()[mid.shard_seq()[j2].spec_key()@] == j2);
            }
            assert forall|k2: u64| #[trigger] self.idx().contains_key(k2) implies {
                &&& self.idx()[k2] < self.shard_seq().len()
                &&& self.shard_seq()[self.idx()[k2] as int].spec_key()@ == k2
            } by {
                assert(mid.idx().contains_key(k2));
            }
            assert forall|j2: int| 0 <= j2 < self.shard_seq().len() implies {
                &&& self.idx().contains_key(#[trigger] self.shard_seq()[j2].spec_key()@)
                &&& self.idx()[self.shard_seq()[j2].spec_key()@] == j2
                &&& self.shard_seq()[j2].wf()
                &&& self.shard_seq()[j2].column_data().len() == indices_of(self.shard_seq()[j2].spec_key()@ & !flag_mask(self.entity_flag()@ as int)).len()
            } by {
                assert(mid.idx().contains_key(mid.shard_seq()[j2].spec_key()@));
            }
            assert forall|e2: u32| #[trigger] self.loc().contains_key(e2) implies {
                &&& self.idx().contains_key(self.loc()[e2].0)
                &&& self.loc()[e2].1 < self.shard_seq()[self.idx()[self.loc()[e2].0] as int].entity_ids().len()
                &&& self.shard_seq()[self.idx()[self.loc()[e2].0] as int].entity_ids()[self.loc()[e2].1 as int] == EntityId(e2)
            } by {
                lemma_place_all(loc0, new_ids, k, start as int, e2);
                if exists|p: int| 0 <= p < new_ids.len() && new_ids[p].0 == e2 {
                    let p = choose|p: int| 0 <= p < new_ids.len() && new_ids[p].0 == e2;
                    assert(self.loc()[e2] == (k, (start + p) as usize));
                    assert(new_shard.entity_ids()[start + p] == new_ids[p]);
                } else {
                    assert(mid.loc().contains_key(e2));
                    let (k2, l2) = mid.loc()[e2];
                    assert(mid.idx().contains_key(k2));
                    if mid.idx()[k2] == i {
                        assert(new_shard.entity_ids()[l2 as int] == old_shard.entity_ids()[l2 as int]);
                    }
                }
            }
            assert forall|j2: int, p: int|
                0 <= j2 < self.shard_seq().len() && 0 <= p < self.shard_seq()[j2].entity_ids().len() implies {
                    &&& self.loc().contains_key(#[trigger] self.shard_seq()[j2].entity_ids()[p].0)
                    &&& self.loc()[self.shard_seq()[j2].entity_ids()[p].0].0 == self.shard_seq()[j2].spec_key()@
                    &&& self.loc()[self.shard_seq()[j2].entity_ids()[p].0].1 == p
                } by {
                let x = self.shard_seq()[j2].entity_ids()[p];
                lemma_place_all(loc0, new_ids, k, start as int, x.0);
                if j2 != i || p < old_len {
                    assert(x == mid.shard_seq()[j2].entity_ids()[p]);
                    assert(mid.loc().contains_key(mid.shard_seq()[j2].entity_ids()[p].0));
                    if exists|q: int| 0 <= q < new_ids.len() && new_ids[q].0 == x.0 {
                        let q = choose|q: int| 0 <= q < new_ids.len() && new_ids[q].0 == x.0;
                        assert(!loc0.contains_key(new_ids[q].0));
                    }
                } else {
                    let q = p - old_len;
                    assert(x == new_ids[q]);
                    assert(self.loc()[x.0] == (k, (start + q) as usize));
                }
            }
            ShardKey::lemma_from_bits(k);
            let cols = old(def).column_data();
            let (old_ids2, old_cols2) = if o.model().1.contains_key(k) {
                o.model().1[k]
            } else {
                (Seq::<EntityId>::empty(), Seq::new(cols.len(), |c: int| Seq::<C>::empty()))
            };
            assert(old_ids2 == old_shard.entity_ids());
            assert(old_cols2 =~= old_shard.column_data());
            assert(new_shard.column_data() =~= Seq::new(old_cols2.len(), |c: int| old_cols2[c] + cols[c]));
            assert(self.loc() == place_all(o.loc(), new_ids, k, old_ids2.len() as int));
            assert(self.model().1 =~= mid.model().1.insert(k, (old_ids2 + new_ids, new_shard.column_data())));
            assert(self.model().1 =~= o.model().1.insert(k, (old_ids2 + new_ids, new_shard.column_data())));
        }
        if was_empty {
            Some(ShardEvent::Populated(key))
        } else {
            None
        }
    }

    /// What `process_context` asks of the definitions of a context: none names the entity id
    /// component, every id they add is new to the world and appears once, and neither the shards
    /// nor any shard outgrow the address range.
    pub open spec fn admissible(&self, defs: Seq<ShardDef<C>>) -> bool {
        &&& forall|q: int| 0 <= q < defs.len() ==> !(#[trigger] defs[q]).key.has(self.entity_flag()@ as int)
        &&& fresh_additions(defs, self.model().0)
        &&& self.shard_seq().len() + defs.len() < usize::MAX
        &&& forall|q: int| 0 <= q < defs.len() && self.model().1.contains_key(#[trigger] defs[q].key@ | flag_mask(self.entity_flag()@ as int))
            ==> self.model().1[defs[q].key@ | flag_mask(self.entity_flag()@ as int)].0.len()
                + defs[q].entity_ids@.len() <= usize::MAX
    }

    /// Whether the context can be processed: the test to make before `process_context`.
    pub fn admits(&self, ctx: &TransactionContext<C>) -> (ok: bool)
        requires
            self.wf(),
        ensures
            ok == self.admissible(ctx.pending()),
    {
        let defs = ctx.pending_defs();
        let n = defs.len();
        if n >= usize::MAX - self.shards.len() {
            return false;
        }
        let ghost flag = flag_mask(self.entity_flag()@ as int);
        let ghost ds = defs@;
        let ghost loc = self.model().0;
        let mut seen = EntityIndex::new();
        proof {
            assert(seen.contents() =~= Map::<u32, EntityCoords>::empty());
        }
        let mut q: usize = 0;
        while q < n
            invariant
                self.wf(),
                ds == defs@,
                ds == ctx.pending(),
                n == ds.len(),
                q <= n,
                loc == self.model().0,
                flag == flag_mask(self.entity_flag()@ as int),
                self.shard_seq().len() + ds.len() < usize::MAX,
                forall|q2: int| 0 <= q2 < q ==> !(#[trigger] ds[q2]).key.has(self.entity_flag()@ as int),
                forall|q2: int| 0 <= q2 < q && self.model().1.contains_key(#[trigger] ds[q2].key@ | flag)
                    ==> self.model().1[ds[q2].key@ | flag].0.len() + ds[q2].entity_ids@.len() <= usize::MAX,
                fresh_before(ds, loc, seen.contents(), q as int, 0),
            decreases n - q,
        {
            let def = &defs[q];
            if def.key.contains(&self.entity_component) {
                return false;
            }
            let k = def.key.with(&self.entity_component).bits();
            match self.shard_index.get(k) {
                Some(i) => {
                    proof {
                        assert(self.idx().contains_key(k));
                    }
                    if self.shards[i].len() > usize::MAX - def.entity_ids.len() {
                        proof {
                            assert(self.model().1.contains_key(ds[q as int].key@ | flag));
                        }
                        return false;
                    }
                },
                None => {},
            }
            let m = def.entity_ids.len();
            let mut p: usize = 0;
            while p < m
                invariant
                    ds == defs@,
                    n == ds.len(),
                    q < n,
                    m == ds[q as int].entity_ids@.len(),
                    def.entity_ids@ == ds[q as int].entity_ids@,
                    ds == ctx.pending(),
                    p <= m,
                    loc == self.model().0,
                    loc == self.entities.contents(),
                    fresh_before(ds, loc, seen.contents(), q as int, p as int),
                decreases m - p,
            {
                let x = def.entity_ids[p].0;
                proof {
                    assert(x == def_id(ds, q as int, p as int));
                }
                if self.entities.get(x).is_some() {
                    proof {
                        assert(loc.contains_key(ds[q as int].entity_ids@[p as int].0));
                    }
                    return false;
                }
                if seen.get(x).is_some() {
                    proof {
                        let (q2, p2) = choose|q2: int, p2: int| id_before(ds, q2, p2, q as int, p as int) && #[trigger] def_id(ds, q2, p2) == x;
                        assert(ds[q2].entity_ids@[p2].0 == ds[q as int].entity_ids@[p as int].0);
                    }
                    return false;
                }
                let ghost before = seen.contents();
                seen.insert(x, (0, 0));
                proof {
                    let after = seen.contents();
                    assert forall|q2: int, p2: int| id_before(ds, q2, p2, q as int, p + 1) implies {
                        &&& !loc.contains_key(#[trigger] def_id(ds, q2, p2))
                        &&& after.contains_key(def_id(ds, q2, p2))
                    } by {
                        if !id_before(ds, q2, p2, q as int, p as int) {
                            assert(q2 == q && p2 == p);
                        }
                    }
                    assert forall|q2: int, p2: int, q3: int, p3: int|
                        id_before(ds, q2, p2, q as int, p + 1) && id_before(ds, q3, p3, q as int, p + 1) && (q2 != q3 || p2 != p3)
                        implies #[trigger] def_id(ds, q2, p2) != #[trigger] def_id(ds, q3, p3) by {
                        if !id_before(ds, q2, p2, q as int, p as int) {
                            assert(before.contains_key(def_id(ds, q3, p3)));
                        } else if !id_before(ds, q3, p3, q as int, p as int) {
                            assert(before.contains_key(def_id(ds, q2, p2)));
                        }
                    }
                    assert forall|e: u32| #[trigger] after.contains_key(e) implies
                        exists|q2: int, p2: int| id_before(ds, q2, p2, q as int, p + 1) && #[trigger] def_id(ds, q2, p2) == e by {
                        if e == x {
                            assert(id_before(ds, q as int, p as int, q as int, p + 1));
                        } else {
                            assert(before.contains_key(e));
                            let (q2, p2) = choose|q2: int, p2: int| id_before(ds, q2, p2, q as int, p as int) && #[trigger] def_id(ds, q2, p2) == e;
                            assert(id_before(ds, q2, p2, q as int, p + 1));
                        }
                    }
                }
                p = p + 1;
            }
            proof {
                let sc = seen.contents();
                assert forall|q2: int, p2: int| id_before(ds, q2, p2, q + 1, 0) implies id_before(ds, q2, p2, q as int, m as int) by {}
                assert forall|q2: int, p2: int| id_before(ds, q2, p2, q + 1, 0) implies {
                    &&& !loc.contains_key(#[trigger] def_id(ds, q2, p2))
                    &&& sc.contains_key(def_id(ds, q2, p2))
                } by {
                    assert(id_before(ds, q2, p2, q as int, m as int));
                }
                assert forall|q2: int, p2: int, q3: int, p3: int|
                    id_before(ds, q2, p2, q + 1, 0) && id_before(ds, q3, p3, q + 1, 0) && (q2 != q3 || p2 != p3)
                    implies #[trigger] def_id(ds, q2, p2) != #[trigger] def_id(ds, q3, p3) by {
                    assert(id_before(ds, q2, p2, q as int, m as int));
                    assert(id_before(ds, q3, p3, q as int, m as int));
                }
                assert forall|e: u32| #[trigger] sc.contains_key(e) implies
                    exists|q2: int, p2: int| id_before(ds, q2, p2, q + 1, 0) && #[trigger] def_id(ds, q2, p2) == e by {
                    let (q2, p2) = choose|q2: int, p2: int| id_before(ds, q2, p2, q as int, m as int) && #[trigger] def_id(ds, q2, p2) == e;
                    assert(id_before(ds, q2, p2, q + 1, 0));
                }
            }
            q = q + 1;
        }
        proof {
            assert forall|q2: int, p2: int| 0 <= q2 < ds.len() && 0 <= p2 < ds[q2].entity_ids@.len()
                implies !loc.contains_key(#[trigger] ds[q2].entity_ids@[p2].0) by {
                assert(id_before(ds, q2, p2, n as int, 0));
                assert(def_id(ds, q2, p2) == ds[q2].entity_ids@[p2].0);
            }
            assert forall|q2: int, p2: int, q3: int, p3: int|
                0 <= q2 < ds.len() && 0 <= p2 < ds[q2].entity_ids@.len() && 0 <= q3 < ds.len() && 0 <= p3 < ds[q3].entity_ids@.len()
                    && (q2 != q3 || p2 != p3) implies #[trigger] ds[q2].entity_ids@[p2].0 != #[trigger] ds[q3].entity_ids@[p3].0 by {
                assert(id_before(ds, q2, p2, n as int, 0));
                assert(id_before(ds, q3, p3, n as int, 0));
                assert(def_id(ds, q2, p2) != def_id(ds, q3, p3));
            }
        }
        true
    }

    /// Process a transaction context: delete the recorded entities, then add the recorded
    /// definitions, each to the shard of its component set plus the entity id component.
    /// Returns the shards that got populated or emptied, in order. The context is left with
    /// no deletions and with emptied definitions.
    pub fn process_context(&mut self, ctx: &mut TransactionContext<C>) -> (events: Vec<ShardEvent>)
        requires
            old(self).wf(),
            old(ctx).wf(),
            old(self).admissible(old(ctx).pending()),
        ensures
            final(self).wf(),
            (final(self).model(), events@) == model_process(
                old(self).model(),
                old(ctx).deletions(),
                old(ctx).pending(),
                flag_mask(old(self).entity_flag()@ as int),
            ),
            final(ctx).wf(),
            forall|r: u64| #[trigger] wanted(final(self).model(), r) == heard(wanted(old(self).model(), r), r, events@),
            forall|q: int, p: int| 0 <= q < old(ctx).pending().len() && 0 <= p < old(ctx).pending()[q].entity_ids@.len() ==> {
                &&& final(self).model().0.contains_key(#[trigger] old(ctx).pending()[q].entity_ids@[p].0)
                &&& final(self).model().0[old(ctx).pending()[q].entity_ids@[p].0].0 == old(ctx).pending()[q].key@ | flag_mask(old(self).entity_flag()@ as int)
            },
            forall|j: int| 0 <= j < old(ctx).deletions().len() && old(self).model().0.contains_key(#[trigger] old(ctx).deletions()[j].0)
                ==> !final(self).model().0.contains_key(old(ctx).deletions()[j].0),
            final(ctx).deletions().len() == 0,
            final(ctx).pending().len() == old(ctx).pending().len(),
            forall|q: int| 0 <= q < final(ctx).pending().len() ==> (#[trigger] final(ctx).pending()[q]).entity_ids@.len() == 0
                && final(ctx).pending()[q].key == old(ctx).pending()[q].key,
    {
        let ghost flag = flag_mask(self.entity_flag()@ as int);
        let _ = self.entity_component.indexer();
        let ghost m0 = self.model();
        let ghost defs0 = ctx.pending();
        let deleted = ctx.take_deletions();
        let mut events: Vec<ShardEvent> = Vec::new();
        let mut j: usize = 0;
        while j < deleted.len()
            invariant
                j <= deleted@.len(),
                self.wf(),
                self.entity_flag() == old(self).entity_flag(),
                (self.model(), events@) == model_delete_all(m0, deleted@.take(j as int)),
                forall|r: u64| #[trigger] wanted(self.model(), r) == heard(wanted(m0, r), r, events@),
                forall|j2: int| 0 <= j2 < j ==> !self.model().0.contains_key(#[trigger] deleted@[j2].0),
                self.shard_seq().len() == old(self).shard_seq().len(),
                forall|e: u32| #[trigger] self.model().0.contains_key(e) ==> m0.0.contains_key(e),
                forall|k: u64| #[trigger] self.model().1.contains_key(k) <==> m0.1.contains_key(k),
                forall|k: u64| #[trigger] self.model().1.contains_key(k) ==> self.model().1[k].0.len() <= m0.1[k].0.len(),
            decreases deleted@.len() - j,
        {
            let ghost before = self.model();
            let ghost before_state = *self;
            let ghost ev0 = events@;
            let (ev, _values) = self.process_remove(deleted[j]);
            match ev {
                Some(e) => events.push(e),
                None => {},
            }
            proof {
                assert(deleted@.take(j + 1).drop_last() =~= deleted@.take(j as int));
                assert(events@ =~= ev0 + event_seq(ev));
                assert forall|r: u64| #[trigger] wanted(self.model(), r) == heard(wanted(m0, r), r, events@) by {
                    before_state.lemma_delete_tracks(deleted@[j as int], r);
                    lemma_heard_append(wanted(m0, r), r, ev0, event_seq(ev));
                }
                assert forall|j2: int| 0 <= j2 < j + 1 implies !self.model().0.contains_key(#[trigger] deleted@[j2].0) by {
                    if j2 < j {
                        assert(!before.0.contains_key(deleted@[j2].0));
                    }
                }
            }
            j = j + 1;
        }
        proof {
            assert(deleted@.take(deleted@.len() as int) =~= deleted@);
        }
        let ghost m1 = self.model();
        let ghost ev1 = events@;
        let n = ctx.pending_count();
        let mut q: usize = 0;
        while q < n
            invariant
                q <= n,
                n == defs0.len(),
                self.wf(),
                self.entity_flag() == old(self).entity_flag(),
                ctx.deletions().len() == 0,
                ctx.pending().len() == n,
                forall|r: int| q <= r < n ==> #[trigger] ctx.pending()[r] == defs0[r],
                forall|r: int| 0 <= r < q ==> (#[trigger] ctx.pending()[r]).entity_ids@.len() == 0 && ctx.pending()[r].key == defs0[r].key && ctx.pending()[r].wf(),
                forall|r: int| 0 <= r < n ==> !(#[trigger] defs0[r]).key.has(old(self).entity_flag()@ as int),
                forall|r: int| 0 <= r < n ==> #[trigger] defs0[r].wf(),
                distinct_keys(defs0),
                fresh_additions(defs0, m0.0),
                self.shard_seq().len() <= old(self).shard_seq().len() + q,
                old(self).shard_seq().len() + n < usize::MAX,
                (self.model(), events@) == (model_add_all(m1, defs0.take(q as int), flag).0, ev1 + model_add_all(m1, defs0.take(q as int), flag).1),
                forall|r: u64| #[trigger] wanted(self.model(), r) == heard(wanted(m0, r), r, events@),
                forall|j2: int| 0 <= j2 < deleted@.len() && m0.0.contains_key(#[trigger] deleted@[j2].0)
                    ==> !self.model().0.contains_key(deleted@[j2].0),
                forall|r: int, p: int| 0 <= r < q && 0 <= p < defs0[r].entity_ids@.len() ==> {
                    &&& self.model().0.contains_key(#[trigger] defs0[r].entity_ids@[p].0)
                    &&& self.model().0[defs0[r].entity_ids@[p].0].0 == defs0[r].key@ | flag
                },
                forall|e: u32| #[trigger] self.model().0.contains_key(e) ==> m0.0.contains_key(e)
                    || exists|r: int, p: int| 0 <= r < q && 0 <= p < defs0[r].entity_ids@.len() && defs0[r].entity_ids@[p].0 == e,
                forall|r: int| q <= r < n && self.model().1.contains_key(#[trigger] (defs0[r].key@ | flag)) ==>
                    m0.1.contains_key(defs0[r].key@ | flag) && self.model().1[defs0[r].key@ | flag].0.len() <= m0.1[defs0[r].key@ | flag].0.len(),
                forall|r: int| 0 <= r < n && m0.1.contains_key(#[trigger] (defs0[r].key@ | flag)) ==>
                    m0.1[defs0[r].key@ | flag].0.len() + defs0[r].entity_ids@.len() <= usize::MAX,
                flag == flag_mask(self.entity_flag()@ as int),
                self.entity_flag()@ < 64,
            decreases n - q,
        {
            let ghost before = self.model();
            let ghost ev0 = events@;
            let def = ctx.pending_mut(q);
            proof {
                assert(*def == defs0[q as int]);
                assert forall|p: int| 0 <= p < def.entity_ids@.len() implies !before.0.contains_key(#[trigger] def.entity_ids@[p].0) by {
                    let e = def.entity_ids@[p].0;
                    assert(defs0[q as int].entity_ids@[p].0 == e);
                    assert(!m0.0.contains_key(defs0[q as int].entity_ids@[p].0));
                    if before.0.contains_key(e) {
                        let (r, p2) = choose|r: int, p2: int| 0 <= r < q && 0 <= p2 < defs0[r].entity_ids@.len() && defs0[r].entity_ids@[p2].0 == e;
                        assert(defs0[r].entity_ids@[p2].0 != defs0[q as int].entity_ids@[p].0);
                    }
                }
                assert(distinct_ids(def.entity_ids@)) by {
                    assert forall|p: int, p2: int| 0 <= p < p2 < def.entity_ids@.len() implies def.entity_ids@[p].0 != def.entity_ids@[p2].0 by {
                        assert(defs0[q as int].entity_ids@[p].0 != defs0[q as int].entity_ids@[p2].0);
                    }
                }
            }
            proof {
                let k = defs0[q as int].key@ | flag;
                if before.1.contains_key(k) {
                    assert(before.1[k].0.len() <= m0.1[k].0.len());
                    assert(m0.1[k].0.len() + defs0[q as int].entity_ids@.len() <= usize::MAX);
                }
            }
            let ghost before_def = *def;
            let ev = self.process_add(def);
            match ev {
                Some(e) => events.push(e),
                None => {},
            }
            proof {
                assert forall|r: u64| #[trigger] wanted(self.model(), r) == heard(wanted(m0, r), r, events@) by {
                    lemma_add_tracks(before, before_def.key@ | flag, before_def.entity_ids@, before_def.column_data(), r);
                    lemma_heard_append(wanted(m0, r), r, ev0, event_seq(ev));
                    assert(events@ =~= ev0 + event_seq(ev));
                }
                let d = defs0[q as int];
                let k = d.key@ | flag;
                assert(defs0.take(q + 1).drop_last() =~= defs0.take(q as int));
                assert(defs0.take(q + 1).last() == d);
                assert(events@ =~= ev0 + event_seq(ev));
                assert(ev1 + model_add_all(m1, defs0.take(q as int), flag).1 + event_seq(ev)
                    =~= ev1 + model_add_all(m1, defs0.take(q + 1), flag).1);
                // the domain grows by the added ids
                assert forall|e: u32| #[trigger] self.model().0.contains_key(e) implies m0.0.contains_key(e)
                    || exists|r: int, p: int| 0 <= r < q + 1 && 0 <= p < defs0[r].entity_ids@.len() && defs0[r].entity_ids@[p].0 == e by {
                    let old_len = if before.1.contains_key(k) { before.1[k].0.len() } else { 0 };
                    assert(d.entity_ids.len() == d.entity_ids@.len());
                    lemma_place_all(before.0, d.entity_ids@, k, old_len as int, e);
                    if !before.0.contains_key(e) {
                        let p = choose|p: int| 0 <= p < d.entity_ids@.len() && d.entity_ids@[p].0 == e;
                        assert(0 <= q < q + 1 && defs0[q as int].entity_ids@[p].0 == e);
                    } else if !m0.0.contains_key(e) {
                        let (r, p) = choose|r: int, p: int| 0 <= r < q && 0 <= p < defs0[r].entity_ids@.len() && defs0[r].entity_ids@[p].0 == e;
                        assert(0 <= r < q + 1);
                    }
                }
                // shards of the definitions still to come are untouched
                assert forall|r: int| q + 1 <= r < n && self.model().1.contains_key(#[trigger] (defs0[r].key@ | flag)) implies
                    m0.1.contains_key(defs0[r].key@ | flag) && self.model().1[defs0[r].key@ | flag].0.len() <= m0.1[defs0[r].key@ | flag].0.len() by {
                    let kr = defs0[r].key@ | flag;
                    assert(defs0[r].key@ != d.key@);
                    lemma_flag_or_injective(defs0[r].key@, d.key@, self.entity_flag()@ as int);
                    assert(kr != k);
                }
                assert forall|r: int| 0 <= r < q + 1 implies (#[trigger] ctx.pending()[r]).entity_ids@.len() == 0 && ctx.pending()[r].key == defs0[r].key && ctx.pending()[r].wf() by {
                }
                let old_len = if before.1.contains_key(k) { before.1[k].0.len() } else { 0 };
                assert(d.entity_ids.len() == d.entity_ids@.len());
                // the entities added so far stay where they were placed
                assert forall|r: int, p: int| 0 <= r < q + 1 && 0 <= p < defs0[r].entity_ids@.len() implies {
                    &&& self.model().0.contains_key(#[trigger] defs0[r].entity_ids@[p].0)
                    &&& self.model().0[defs0[r].entity_ids@[p].0].0 == defs0[r].key@ | flag
                } by {
                    let x = defs0[r].entity_ids@[p].0;
                    lemma_place_all(before.0, d.entity_ids@, k, old_len as int, x);
                    if r < q {
                        if exists|p2: int| 0 <= p2 < d.entity_ids@.len() && d.entity_ids@[p2].0 == x {
                            let p2 = choose|p2: int| 0 <= p2 < d.entity_ids@.len() && d.entity_ids@[p2].0 == x;
                            assert(defs0[q as int].entity_ids@[p2].0 != defs0[r].entity_ids@[p].0);
                        }
                    } else {
                        assert(d.entity_ids@[p].0 == x);
                    }
                }
                // entities deleted from the world do not come back
                assert forall|j2: int| 0 <= j2 < deleted@.len() && m0.0.contains_key(#[trigger] deleted@[j2].0)
                    implies !self.model().0.contains_key(deleted@[j2].0) by {
                    let x = deleted@[j2].0;
                    lemma_place_all(before.0, d.entity_ids@, k, old_len as int, x);
                    if exists|p2: int| 0 <= p2 < d.entity_ids@.len() && d.entity_ids@[p2].0 == x {
                        let p2 = choose|p2: int| 0 <= p2 < d.entity_ids@.len() && d.entity_ids@[p2].0 == x;
                        assert(!m0.0.contains_key(defs0[q as int].entity_ids@[p2].0));
                    }
                }
            }
            q = q + 1;
        }
        proof {
            assert(defs0.take(n as int) =~= defs0);
            assert(distinct_keys(ctx.pending())) by {
                assert forall|p: int, p2: int| 0 <= p < p2 < ctx.pending().len() implies ctx.pending()[p].key@ != ctx.pending()[p2].key@ by {
                    assert(ctx.pending()[p].key == defs0[p].key);
                    assert(ctx.pending()[p2].key == defs0[p2].key);
                }
            }
        }
        events
    }

    /// The component set of entity `id`, without the entity id component: where an edit of the
    /// entity starts from. An entity that is not in the world cannot be edited.
    pub fn edit_base(&self, id: EntityId) -> (r: Result<ShardKey, TransactionError>)
        ensures
            !self.model().0.contains_key(id.0) ==> r == Err::<ShardKey, TransactionError>(TransactionError::EntityNotFound(id)),
            self.model().0.contains_key(id.0) ==> (r matches Ok(key) && key@ == self.model().0[id.0].0 & !flag_mask(self.entity_flag()@ as int)),
    {
        match self.entities.get(id.0) {
            None => Err(TransactionError::EntityNotFound(id)),
            Some((k, _)) => Ok(ShardKey::from_bits(k).without(&self.entity_component)),
        }
    }

    /// Edits entity `id` so that it holds exactly the components of `key` (and the entity id
    /// component), defined by `defs` in ascending order of component. When the component set
    /// stays the same the values are set in place; otherwise the entity moves to the shard of
    /// its new set, taking along the values it keeps. Returns the shard events on the way. An
    /// entity that is not in the world is left alone.
    pub fn process_edit(&mut self, id: EntityId, key: ShardKey, defs: Vec<CompDef<C>>) -> (events: Vec<ShardEvent>)
        requires
            old(self).wf(),
            !key.has(old(self).entity_flag()@ as int),
            defs@.len() == key.members().len(),
            keeps_known(old(self).model(), id, key@, defs@),
            old(self).shard_seq().len() < usize::MAX,
            old(self).model().1.contains_key(key@ | flag_mask(old(self).entity_flag()@ as int))
                ==> old(self).model().1[key@ | flag_mask(old(self).entity_flag()@ as int)].0.len() < usize::MAX,
        ensures
            final(self).wf(),
            final(self).entity_flag() == old(self).entity_flag(),
            (final(self).model(), events@) == model_edit(
                old(self).model(),
                id,
                key@,
                defs@,
                flag_mask(old(self).entity_flag()@ as int),
            ),
            forall|r: u64| #[trigger] wanted(final(self).model(), r) == heard(wanted(old(self).model(), r), r, events@),
    {
        let ghost m0 = self.model();
        let ghost flag = flag_mask(self.entity_flag()@ as int);
        let ghost defs0 = defs@;
        let (k, l) = match self.entities.get(id.0) {
            None => {
                return Vec::new();
            },
            Some(c) => c,
        };
        let flag_bits = self.entity_component.id();
        let newk = key.with(&self.entity_component).bits();
        let mut defs = defs;
        let mut events: Vec<ShardEvent> = Vec::new();
        let ghost ids0 = m0.1[k].0;
        let ghost cols0 = m0.1[k].1;
        proof {
            assert(self.loc().contains_key(id.0));
            assert(self.idx().contains_key(k));
        }
        if newk == k {
            let i = self.shard_index.get(k).unwrap();
            let n = defs.len();
            proof {
                let e = self.entity_flag()@;
                let d = key@;
                assert(e < 64);
                assert(!crate::identity::bit_set(d, e as int));
                let ee = e as u64;
                assert(ee < 64 && (d >> ee) & 1u64 != 1u64 ==> (d | (1u64 << ee)) & !(1u64 << ee) == d) by (bit_vector);
                assert(k & !flag == d);
                assert(self.idx().contains_key(self.shard_seq()[i as int].spec_key()@));
                assert(cols0 == self.shard_seq()[i as int].column_data());
                assert(cols0.len() == n);
                assert(l < ids0.len());
                assert(Seq::new(cols0.len(), |c2: int| if c2 >= n {
                    edited_column(defs0[c2], cols0[c2], l as int)
                } else {
                    cols0[c2]
                }) =~= cols0);
                assert(m0.1.insert(k, (ids0, cols0)) =~= m0.1);
            }
            let mut c: usize = n;
            while c > 0
                invariant
                    c <= n,
                    n == defs0.len(),
                    n == cols0.len(),
                    defs@ == defs0.take(c as int),
                    self.wf(),
                    self.entity_flag() == old(self).entity_flag(),
                    self.idx() == old(self).idx(),
                    self.idx()[k] == i,
                    self.idx().contains_key(k),
                    l < ids0.len(),
                    self.model().0 == m0.0,
                    self.model().1 == m0.1.insert(k, (ids0, Seq::new(cols0.len(), |c2: int| if c2 >= c {
                        edited_column(defs0[c2], cols0[c2], l as int)
                    } else {
                        cols0[c2]
                    }))),
                decreases c,
            {
                c = c - 1;
                let ghost before = self.model();
                proof {
                    assert(defs@.len() == c + 1);
                    assert(self.model().1.contains_key(k));
                    assert(self.model().1[k] == (self.shard_seq()[i as int].entity_ids(), self.shard_seq()[i as int].column_data()));
                    assert(self.idx().contains_key(self.shard_seq()[i as int].spec_key()@));
                }
                let d = defs.pop().unwrap();
                proof {
                    assert(d == defs0[c as int]);
                    assert(defs@ =~= defs0.take(c as int));
                }
                let ghost cur = Seq::new(cols0.len(), |c2: int| if c2 >= c + 1 {
                    edited_column(defs0[c2], cols0[c2], l as int)
                } else {
                    cols0[c2]
                });
                let ghost target = Seq::new(cols0.len(), |c2: int| if c2 >= c {
                    edited_column(defs0[c2], cols0[c2], l as int)
                } else {
                    cols0[c2]
                });
                proof {
                    assert(self.shard_seq()[i as int].spec_key()@ == k);
                    assert(before.1[k] == (ids0, cur));
                    assert(self.shard_seq()[i as int].column_data() == cur);
                    assert(self.shard_seq()[i as int].entity_ids() == ids0);
                }
                match d {
                    CompDef::Value(v) => {
                        self.set_component(i, c, l, v);
                        proof {
                            assert(cur.update(c as int, cur[c as int].update(l as int, v)) =~= target);
                        }
                    },
                    CompDef::Nop => {
                        proof {
                            assert(cur =~= target);
                        }
                    },
                }
                proof {
                    assert(self.model().1 =~= m0.1.insert(k, (ids0, target)));
                }
            }
            proof {
                assert(Seq::new(cols0.len(), |c2: int| if c2 >= 0 {
                    edited_column(defs0[c2], cols0[c2], l as int)
                } else {
                    cols0[c2]
                }) =~= Seq::new(cols0.len(), |c2: int| edited_column(defs0[c2], cols0[c2], l as int)));
                assert forall|r: u64| #[trigger] wanted(self.model(), r) == heard(wanted(m0, r), r, events@) by {
                    assert(events@ =~= Seq::<ShardEvent>::empty());
                    assert(wanted(self.model(), r) =~= wanted(m0, r));
                }
            }
            return events;
        }
        let ghost olds = k & !flag;
        let ghost s0 = *self;
        proof {
            ShardKey::lemma_from_bits(k);
            assert(self.idx().contains_key(self.shard_seq()[self.idx()[k] as int].spec_key()@));
            assert(cols0.len() == indices_of(olds).len());
        }
        let (ev1, removed) = self.process_remove(id);
        let ghost m1 = self.model();
        let ghost rvals = removed@;
        let old_members = ShardKey::from_bits(k & !flag_bits).decompose();
        let new_members = key.decompose();
        let mut opts: Vec<Option<C>> = Vec::new();
        let mut rem = removed;
        while rem.len() > 0
            invariant
                opts@.len() + rem@.len() == rvals.len(),
                forall|q: int| 0 <= q < opts@.len() ==> #[trigger] opts@[q] == Some(rvals[q]),
                forall|q: int| 0 <= q < rem@.len() ==> #[trigger] rem@[q] == rvals[opts@.len() + q],
            decreases rem@.len(),
        {
            let x = rem.remove(0);
            opts.push(Some(x));
        }
        proof {
            lemma_indices_below_bounded(olds, 64);
            lemma_indices_below_bounded(key@, 64);
            assert(rvals.len() == cols0.len());
            assert forall|c2: int| 0 <= c2 < defs0.len() && (#[trigger] defs0[c2]) is Nop implies opts@[member_pos(olds, indices_of(key@)[c2])] == Some(rvals[member_pos(olds, indices_of(key@)[c2])]) by {
                lemma_member_not_flag(key@, old(self).entity_flag()@ as int, c2);
                lemma_kept_position(k, old(self).entity_flag()@ as int, indices_of(key@)[c2]);
            }
        }
        let n = defs.len();
        let mut columns: Vec<Vec<C>> = Vec::new();
        let mut c: usize = 0;
        while c < n
            invariant
                c <= n,
                n == defs0.len(),
                n == indices_of(key@).len(),
                defs@ == defs0.skip(c as int),
                columns@.len() == c,
                forall|c2: int| 0 <= c2 < c ==> (#[trigger] columns@[c2])@ == seq![def_value(defs0[c2], cols0[member_pos(olds, indices_of(key@)[c2])][l as int])],
                opts@.len() == rvals.len(),
                rvals.len() == cols0.len(),
                cols0.len() == indices_of(olds).len(),
                rvals == entity_values(m0, id),
                m0.0.contains_key(id.0),
                m0.0[id.0] == (k, l),
                cols0 == m0.1[k].1,
                olds == k & !flag,
                flag == flag_mask(old(self).entity_flag()@ as int),
                keeps_known(m0, id, key@, defs0),
                !key.has(old(self).entity_flag()@ as int),
                old(self).entity_flag()@ < 64,
                new_members@.map_values(|f: crate::identity::ComponentId| f@) == indices_of(key@),
                old_members@.map_values(|f: crate::identity::ComponentId| f@) == indices_of(olds),
                forall|c2: int| c <= c2 < n && (#[trigger] defs0[c2]) is Nop ==> opts@[member_pos(olds, indices_of(key@)[c2])] == Some(rvals[member_pos(olds, indices_of(key@)[c2])]),
            decreases n - c,
        {
            proof {
                assert(defs@.len() == n - c);
                assert(defs@[0] == defs0[c as int]);
            }
            let d = defs.remove(0);
            proof {
                assert(defs@ =~= defs0.skip(c + 1));
            }
            let ghost e = indices_of(key@)[c as int];
            let ghost pos = member_pos(olds, e);
            let v = match d {
                CompDef::Value(v) => v,
                CompDef::Nop => {
                    proof {
                        assert(defs0[c as int] is Nop);
                        assert(crate::identity::bit_set(k, e as int));
                        assert(new_members@[c as int]@ == e);
                        lemma_member_not_flag(key@, old(self).entity_flag()@ as int, c as int);
                        lemma_kept_position(k, old(self).entity_flag()@ as int, e);
                        assert(old_members@[pos]@ == e);
                    }
                    let p = position_of(&old_members, new_members[c].indexer());
                    proof {
                        assert(indices_of(olds)[p as int] == e);
                        assert(pos == p) by {
                            lemma_indices_below_bounded(olds, 64);
                        }
                    }
                    let mut slot: Option<C> = None;
                    let ghost before = opts@;
                    std::mem::swap(&mut slot, &mut opts[p]);
                    proof {
                        assert(slot == Some(rvals[pos]));
                        assert forall|c2: int| c + 1 <= c2 < n && (#[trigger] defs0[c2]) is Nop implies opts@[member_pos(olds, indices_of(key@)[c2])] == Some(rvals[member_pos(olds, indices_of(key@)[c2])]) by {
                            let e2 = indices_of(key@)[c2];
                            let pos2 = member_pos(olds, e2);
                            assert(e2 != e) by {
                                lemma_indices_below_bounded(key@, 64);
                            }
                            assert(crate::identity::bit_set(k, e2 as int));
                            lemma_member_not_flag(key@, old(self).entity_flag()@ as int, c2);
                            lemma_kept_position(k, old(self).entity_flag()@ as int, e2);
                            assert(pos2 != pos);
                            assert(opts@[pos2] == before[pos2]);
                        }
                    }
                    slot.unwrap()
                },
            };
            proof {
                assert(v == def_value(defs0[c as int], cols0[pos][l as int]));
            }
            let mut col: Vec<C> = Vec::new();
            col.push(v);
            columns.push(col);
            c = c + 1;
        }
        let mut ids: Vec<EntityId> = Vec::new();
        ids.push(id);
        let mut def = ShardDef { key, entity_ids: ids, columns };
        proof {
            assert forall|c2: int| 0 <= c2 < def.columns@.len() implies #[trigger] def.columns@[c2]@.len() == def.entity_ids@.len() by {}
            assert(distinct_ids(def.entity_ids@));
        }
        let ghost def0 = def;
        let ghost m1 = self.model();
        let ev2 = self.process_add(&mut def);
        match ev1 {
            Some(e) => events.push(e),
            None => {},
        }
        match ev2 {
            Some(e) => events.push(e),
            None => {},
        }
        proof {
            let values = Seq::new(defs0.len(), |c2: int| def_value(defs0[c2], cols0[member_pos(olds, indices_of(key@)[c2])][l as int]));
            assert(def0.column_data() =~= Seq::new(values.len(), |c2: int| seq![values[c2]]));
            assert(events@ =~= event_seq(ev1) + event_seq(ev2));
            assert forall|r: u64| #[trigger] wanted(self.model(), r) == heard(wanted(m0, r), r, events@) by {
                s0.lemma_delete_tracks(id, r);
                lemma_add_tracks(m1, def0.key@ | flag, def0.entity_ids@, def0.column_data(), r);
                lemma_heard_append(wanted(m0, r), r, event_seq(ev1), event_seq(ev2));
            }
        }
        events
    }

    /// Sets the value of column `column` at location `loc` of shard `i`.
    fn set_component(&mut self, i: usize, column: usize, loc: usize, value: C)
        requires
            old(self).wf(),
            i < old(self).shard_seq().len(),
            column < old(self).shard_seq()[i as int].column_data().len(),
            loc < old(self).shard_seq()[i as int].entity_ids().len(),
        ensures
            final(self).wf(),
            final(self).entity_flag() == old(self).entity_flag(),
            final(self).shard_seq().len() == old(self).shard_seq().len(),
            final(self).idx() == old(self).idx(),
            final(self).model().0 == old(self).model().0,
            final(self).model().1 == old(self).model().1.insert(
                old(self).shard_seq()[i as int].spec_key()@,
                (
                    old(self).shard_seq()[i as int].entity_ids(),
                    old(self).shard_seq()[i as int].column_data().update(
                        column as int,
                        old(self).shard_seq()[i as int].column_data()[column as int].update(loc as int, value),
                    ),
                ),
            ),
    {
        let ghost before = self.shards@;
        proof {
            assert(self.idx().contains_key(self.shard_seq()[i as int].spec_key()@));
        }
        self.shards[i].set_value(column, loc, value);
        proof {
            let o = *old(self);
            let k = before[i as int].spec_key()@;
            assert(o.idx()[k] == i);
            assert forall|j: int| 0 <= j < self.shard_seq().len() && j != i implies
                #[trigger] self.shard_seq()[j] == before[j] && before[j].spec_key()@ != k by {
                assert(o.idx()[before[j].spec_key()@] == j);
            }
            assert forall|k2: u64| #[trigger] self.idx().contains_key(k2) implies {
                &&& self.idx()[k2] < self.shard_seq().len()
                &&& self.shard_seq()[self.idx()[k2] as int].spec_key()@ == k2
            } by {
                assert(o.idx().contains_key(k2));
            }
            assert forall|j: int| 0 <= j < self.shard_seq().len() implies {
                &&& self.idx().contains_key(#[trigger] self.shard_seq()[j].spec_key()@)
                &&& self.idx()[self.shard_seq()[j].spec_key()@] == j
                &&& self.shard_seq()[j].wf()
                &&& self.shard_seq()[j].column_data().len() == indices_of(self.shard_seq()[j].spec_key()@ & !flag_mask(self.entity_flag()@ as int)).len()
            } by {
                assert(before[j] == o.shard_seq()[j]);
            }
            assert forall|e: u32| #[trigger] self.loc().contains_key(e) implies {
                &&& self.idx().contains_key(self.loc()[e].0)
                &&& self.loc()[e].1 < self.shard_seq()[self.idx()[self.loc()[e].0] as int].entity_ids().len()
                &&& self.shard_seq()[self.idx()[self.loc()[e].0] as int].entity_ids()[self.loc()[e].1 as int] == EntityId(e)
            } by {
                assert(o.loc().contains_key(e));
                assert(o.idx().contains_key(o.loc()[e].0));
            }
            assert forall|j: int, p: int|
                0 <= j < self.shard_seq().len() && 0 <= p < self.shard_seq()[j].entity_ids().len() implies {
                    &&& self.loc().contains_key(#[trigger] self.shard_seq()[j].entity_ids()[p].0)
                    &&& self.loc()[self.shard_seq()[j].entity_ids()[p].0].0 == self.shard_seq()[j].spec_key()@
                    &&& self.loc()[self.shard_seq()[j].entity_ids()[p].0].1 == p
                } by {
                assert(self.shard_seq()[j].entity_ids() == before[j].entity_ids());
                assert(o.loc().contains_key(o.shard_seq()[j].entity_ids()[p].0));
            }
            assert(self.model().1 =~= o.model().1.insert(
                k,
                (
                    before[i as int].entity_ids(),
                    before[i as int].column_data().update(
                        column as int,
                        before[i as int].column_data()[column as int].update(loc as int, value),
                    ),
                ),
            ));
        }
    }

    /// Removes an entity, moving the last entity of its shard into its place. Returns the event
    /// of the removal and the values the entity had, column by column.
    fn process_remove(&mut self, id: EntityId) -> (result: (Option<ShardEvent>, Vec<C>))
        requires
            old(self).wf(),
        ensures
            final(self).wf(),
            final(self).entity_flag() == old(self).entity_flag(),
            (final(self).model(), result.0) == model_delete(old(self).model(), id),
            old(self).model().0.contains_key(id.0) ==> result.1@ == entity_values(old(self).model(), id),
            !final(self).model().0.contains_key(id.0),
            final(self).shard_seq().len() == old(self).shard_seq().len(),
            forall|e: u32| #[trigger] final(self).model().0.contains_key(e) ==> old(self).model().0.contains_key(e),
            forall|k: u64| #[trigger] final(self).model().1.contains_key(k) <==> old(self).model().1.contains_key(k),
            forall|k: u64| #[trigger] final(self).model().1.contains_key(k) ==> final(self).model().1[k].0.len() <= old(self).model().1[k].0.len(),
    {
        match self.entities.remove(id.0) {
            None => (None, Vec::new()),
            Some((k, l)) => {
                assert(old(self).loc().contains_key(id.0));
                let i = self.shard_index.get(k).unwrap();
                let ghost before = self.shards@;
                let ghost loc1 = self.loc();
                let ghost old_ids = before[i as int].entity_ids();
                let (swapped, removed) = self.shards[i].remove(l);
                if let Some(s) = swapped {
                    self.entities.insert(s.0, (k, l));
                }
                proof {
                    let ghost o = *old(self);
                    let new_shard = self.shards@[i as int];
                    let ids2 = new_shard.entity_ids();
                    let old_len = old_ids.len();
                    assert(o.loc().contains_key(id.0));
                    assert(o.loc()[id.0] == (k, l));
                    assert(before == o.shard_seq());
                    assert(old_ids == o.shard_seq()[i as int].entity_ids());
                    assert(o.idx()[k] == i);
                    assert(self.idx() == o.idx());
                    assert(self.shards@ == before.update(i as int, new_shard));
                    assert(ids2 == swap_removed(old_ids, l as int));
                    assert(old_ids[l as int] == id);
                    // positions of shard i hold distinct entities
                    assert forall|p: int| 0 <= p < old_len && old_ids[p].0 == id.0 implies p == l by {
                        assert(o.loc().contains_key(o.shard_seq()[i as int].entity_ids()[p].0));
                    }
                    if swapped is Some {
                        let s = old_ids.last();
                        assert(o.loc().contains_key(o.shard_seq()[i as int].entity_ids()[old_len - 1].0));
                        assert(self.loc() == loc1.insert(s.0, (k, l)));
                    } else {
                        assert(self.loc() == loc1);
                    }
                    assert(loc1 == o.loc().remove(id.0));
                    // shards other than i are untouched, and no other shard has key k
                    assert forall|j: int| 0 <= j < self.shard_seq().len() && j != i implies
                        #[trigger] self.shard_seq()[j] == before[j] && before[j].spec_key()@ != k by {
                        assert(o.idx()[before[j].spec_key()@] == j);
                    }
                    assert forall|k2: u64| #[trigger] self.idx().contains_key(k2) implies {
                        &&& self.idx()[k2] < self.shard_seq().len()
                        &&& self.shard_seq()[self.idx()[k2] as int].spec_key()@ == k2
                    } by {
                        assert(o.idx().contains_key(k2));
                    }
                    assert forall|j: int| 0 <= j < self.shard_seq().len() implies {
                        &&& self.idx().contains_key(#[trigger] self.shard_seq()[j].spec_key()@)
                        &&& self.idx()[self.shard_seq()[j].spec_key()@] == j
                        &&& self.shard_seq()[j].wf()
                        &&& self.shard_seq()[j].column_data().len() == indices_of(self.shard_seq()[j].spec_key()@ & !flag_mask(self.entity_flag()@ as int)).len()
                    } by {
                        assert(before[j] == o.shard_seq()[j]);
                    }
                    assert forall|e: u32| #[trigger] self.loc().contains_key(e) implies {
                        &&& self.idx().contains_key(self.loc()[e].0)
                        &&& self.loc()[e].1 < self.shard_seq()[self.idx()[self.loc()[e].0] as int].entity_ids().len()
                        &&& self.shard_seq()[self.idx()[self.loc()[e].0] as int].entity_ids()[self.loc()[e].1 as int] == EntityId(e)
                    } by {
                        if swapped is Some && e == old_ids.last().0 {
                            assert(ids2[l as int] == old_ids.last());
                        } else {
                            assert(e != id.0);
                            assert(o.loc().contains_key(e));
                            let (k2, l2) = o.loc()[e];
                            assert(self.loc()[e] == (k2, l2));
                            let j = o.idx()[k2];
                            if j == i {
                                assert(old_ids[l2 as int] == EntityId(e));
                                assert(l2 != l);
                                if swapped is Some {
                                    assert(l2 != old_len - 1);
                                } else {
                                    assert(l == old_len - 1);
                                }
                                assert(ids2[l2 as int] == old_ids[l2 as int]);
                            }
                        }
                    }
                    assert forall|j: int, p: int|
                        0 <= j < self.shard_seq().len() && 0 <= p < self.shard_seq()[j].entity_ids().len() implies {
                            &&& self.loc().contains_key(#[trigger] self.shard_seq()[j].entity_ids()[p].0)
                            &&& self.loc()[self.shard_seq()[j].entity_ids()[p].0].0 == self.shard_seq()[j].spec_key()@
                            &&& self.loc()[self.shard_seq()[j].entity_ids()[p].0].1 == p
                        } by {
                        let x = self.shard_seq()[j].entity_ids()[p];
                        if j != i {
                            assert(x == before[j].entity_ids()[p]);
                            assert(o.loc().contains_key(o.shard_seq()[j].entity_ids()[p].0));
                            assert(o.loc()[x.0].0 == before[j].spec_key()@ && o.loc()[x.0].1 == p);
                            if x.0 == id.0 {
                                assert(before[j].spec_key()@ == k);
                            }
                            if swapped is Some && x.0 == old_ids.last().0 {
                                assert(before[j].spec_key()@ == k);
                            }
                        } else {
                            if swapped is Some && p == l {
                                assert(x == old_ids.last());
                            } else {
                                assert(x == old_ids[p]);
                                assert(o.loc().contains_key(o.shard_seq()[i as int].entity_ids()[p].0));
                                assert(o.loc()[x.0].0 == k && o.loc()[x.0].1 == p);
                                assert(x.0 != id.0);
                                if swapped is Some {
                                    assert(p < old_len - 1);
                                    if x.0 == old_ids.last().0 {
                                        assert(o.loc().contains_key(o.shard_seq()[i as int].entity_ids()[old_len - 1].0));
                                        assert(o.loc()[x.0].0 == k && o.loc()[x.0].1 == old_len - 1);
                                    }
                                }
                            }
                        }
                    }
                    ShardKey::lemma_from_bits(k);
                    let cols = before[i as int].column_data();
                    assert(new_shard.column_data() =~= Seq::new(cols.len(), |c: int| swap_removed(cols[c], l as int)));
                    assert(self.model().1 =~= o.model().1.insert(k, (ids2, new_shard.column_data())));
                    assert forall|e2: u32| #[trigger] self.model().0.contains_key(e2) implies o.model().0.contains_key(e2) by {
                        if swapped is Some && e2 == old_ids.last().0 {
                            assert(o.loc().contains_key(o.shard_seq()[i as int].entity_ids()[old_len - 1].0));
                        }
                    }
                }
                proof {
                    let o = *old(self);
                    assert(o.model().1[k].1 == before[i as int].column_data());
                    assert(removed@ =~= entity_values(o.model(), id));
                    if swapped is Some {
                        assert(o.loc().contains_key(o.shard_seq()[i as int].entity_ids()[old_ids.len() - 1].0));
                        assert(old_ids.last().0 != id.0);
                    }
                }
                if self.shards[i].len() == 0 {
                    (Some(ShardEvent::Emptied(self.shards[i].key())), removed)
                } else {
                    (None, removed)
                }
            },
        }
    }
}

/// Entities added to a shard take the locations after the ones already there, in the order
/// they were given.
pub proof fn law_added_entities_follow<C>(m: WorldModel<C>, k: u64, ids: Seq<EntityId>, cols: Seq<Seq<C>>, p: int)
    requires
        distinct_ids(ids),
        0 <= p < ids.len(),
        m.1.contains_key(k) ==> m.1[k].0.len() + ids.len() <= usize::MAX,
        ids.len() <= usize::MAX,
    ensures
        model_add(m, k, ids, cols).0.0.contains_key(ids[p].0),
        model_add(m, k, ids, cols).0.0[ids[p].0] == (k, ((if m.1.contains_key(k) { m.1[k].0.len() } else { 0 }) + p) as usize),
        model_add(m, k, ids, cols).0.1[k].0 == (if m.1.contains_key(k) { m.1[k].0 } else { Seq::empty() }) + ids,
{
    let start = if m.1.contains_key(k) { m.1[k].0.len() as int } else { 0 };
    lemma_place_all(m.0, ids, k, start, ids[p].0);
}

impl<C> GameState<C> {
    /// Deleting an entity takes it out of the world, its shard loses one entity, and the last
    /// entity of the shard, if it is another one, takes its location.
    pub proof fn law_delete_moves_last_into_place(self, id: EntityId)
        requires
            self.wf(),
            self.model().0.contains_key(id.0),
        ensures
            ({
                let (k, l) = self.model().0[id.0];
                let ids = self.model().1[k].0;
                let after = model_delete(self.model(), id).0;
                &&& !after.0.contains_key(id.0)
                &&& after.1[k].0.len() == ids.len() - 1
                &&& l < ids.len() - 1 ==> after.0[ids.last().0] == (k, l)
            }),
    {
        let (k, l) = self.model().0[id.0];
        assert(self.loc().contains_key(id.0));
        let i = self.idx()[k];
        let ids = self.shard_seq()[i as int].entity_ids();
        assert(ids[l as int] == id);
        if l < ids.len() - 1 {
            assert(self.loc().contains_key(self.shard_seq()[i as int].entity_ids()[ids.len() - 1].0));
            assert(ids.last().0 != id.0);
        }
    }

    /// Editing an entity without changing its component set leaves every entity where it is
    /// and raises no event.
    pub proof fn law_edit_same_set_stays_in_place(self, id: EntityId, key: u64, defs: Seq<CompDef<C>>)
        requires
            self.wf(),
            self.model().0.contains_key(id.0),
            key | flag_mask(self.entity_flag()@ as int) == self.model().0[id.0].0,
        ensures
            model_edit(self.model(), id, key, defs, flag_mask(self.entity_flag()@ as int)).0.0 == self.model().0,
            model_edit(self.model(), id, key, defs, flag_mask(self.entity_flag()@ as int)).1.len() == 0,
    {
    }

    /// Editing an entity into another component set moves it to the end of the shard of that
    /// set (with the entity id component); its old shard loses it.
    pub proof fn law_edit_other_set_moves(self, id: EntityId, key: u64, defs: Seq<CompDef<C>>)
        requires
            self.wf(),
            self.model().0.contains_key(id.0),
            key | flag_mask(self.entity_flag()@ as int) != self.model().0[id.0].0,
        ensures
            ({
                let f = flag_mask(self.entity_flag()@ as int);
                let nk = key | f;
                let d = model_delete(self.model(), id).0;
                let after = model_edit(self.model(), id, key, defs, f).0;
                &&& after.0.contains_key(id.0)
                &&& after.0[id.0] == (nk, (if d.1.contains_key(nk) { d.1[nk].0.len() } else { 0 }) as usize)
                &&& !d.0.contains_key(id.0)
            }),
    {
        let f = flag_mask(self.entity_flag()@ as int);
        let nk = key | f;
        self.law_delete_moves_last_into_place(id);
        let d = model_delete(self.model(), id).0;
        let start = if d.1.contains_key(nk) { d.1[nk].0.len() as int } else { 0 };
        let one = seq![id];
        assert(one.drop_last() =~= Seq::<EntityId>::empty());
        assert(place_all(d.0, one, nk, start) == place_all(d.0, one.drop_last(), nk, start).insert(id.0, (nk, start as usize)));
    }
}

/// Every entity is recorded at a location of its shard that holds it, and every entity a
/// shard holds is recorded where it is.
pub open spec fn model_wf<C>(m: WorldModel<C>) -> bool {
    &&& forall|e: u32| #[trigger] m.0.contains_key(e) ==> {
        &&& m.1.contains_key(m.0[e].0)
        &&& m.0[e].1 < m.1[m.0[e].0].0.len()
        &&& m.1[m.0[e].0].0[m.0[e].1 as int] == EntityId(e)
    }
    &&& forall|k: u64, l: int| m.1.contains_key(k) && 0 <= l < m.1[k].0.len() ==> {
        &&& m.0.contains_key(#[trigger] m.1[k].0[l].0)
        &&& m.0[m.1[k].0[l].0].0 == k
        &&& m.0[m.1[k].0[l].0].1 == l
    }
}

impl<C> GameState<C> {
    /// The world a well-formed state stands for is consistent.
    pub proof fn lemma_model_wf(self)
        requires
            self.wf(),
        ensures
            model_wf(self.model()),
    {
        let m = self.model();
        assert forall|k: u64, l: int| m.1.contains_key(k) && 0 <= l < m.1[k].0.len() implies {
            &&& m.0.contains_key(#[trigger] m.1[k].0[l].0)
            &&& m.0[m.1[k].0[l].0].0 == k
            &&& m.0[m.1[k].0[l].0].1 == l
        } by {
            let i = self.idx()[k] as int;
            assert(self.shard_seq()[i].spec_key()@ == k);
            assert(self.shard_seq()[i].entity_ids()[l] == m.1[k].0[l]);
        }
    }

    /// Deleting an entity raises the event that keeps every system's shards in step.
    pub proof fn lemma_delete_tracks(self, id: EntityId, required: u64)
        requires
            self.wf(),
        ensures
            wanted(model_delete(self.model(), id).0, required) == heard(
                wanted(self.model(), required),
                required,
                event_seq(model_delete(self.model(), id).1),
            ),
    {
        let m = self.model();
        let (m2, ev) = model_delete(m, id);
        if !m.0.contains_key(id.0) {
            assert(event_seq(ev) =~= Seq::<ShardEvent>::empty());
        } else {
            let (k, l) = m.0[id.0];
            assert(self.loc().contains_key(id.0));
            assert(m.1.contains_key(k));
            let ids = m.1[k].0;
            assert(l < ids.len());
            ShardKey::lemma_from_bits(k);
            let w = wanted(m, required);
            let w2 = wanted(m2, required);
            assert(m2.1[k].0.len() == ids.len() - 1);
            if ids.len() == 1 {
                let e = ShardEvent::Emptied(ShardKey::spec_from_bits(k));
                assert(event_seq(ev) == seq![e]);
                assert(seq![e].drop_last() =~= Seq::<ShardEvent>::empty());
                assert(heard(w, required, Seq::<ShardEvent>::empty()) == w);
                assert(heard(w, required, seq![e]) == w.remove(k));
                assert(w2 =~= w.remove(k));
            } else {
                assert(event_seq(ev) =~= Seq::<ShardEvent>::empty());
                assert(w2 =~= w);
            }
        }
    }
}

} // verus!
