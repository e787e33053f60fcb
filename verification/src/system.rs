use vstd::prelude::*;
use indexmap::IndexSet;
use crate::keyset::{index_set_items, key_set_new, key_set_insert, key_set_swap_remove, key_set_len, key_set_get};
use crate::identity::{EntityId, ShardKey};
use crate::shard::swap_removed;
use crate::world::{GameState, ShardEvent, heard, wanted, model_wf, WorldModel};

verus! {

/// The shards a system runs over: those holding the components it requires, in the order they
/// were populated. The system learns of them from the shard events of the world.
pub struct SystemShards {
    required: ShardKey,
    keys: IndexSet<u64>,
}

/// The entities of the shards `keys` of the world `m`, in the order a system visits them:
/// shard by shard, each shard's entities by location. A key the world has no shard for
/// contributes nothing.
pub open spec fn joined<C>(m: WorldModel<C>, keys: Seq<u64>) -> Seq<EntityId>
    decreases keys.len(),
{
    if keys.len() == 0 {
        Seq::empty()
    } else {
        joined(m, keys.drop_last()) + (if m.1.contains_key(keys.last()) {
            m.1[keys.last()].0
        } else {
            Seq::empty()
        })
    }
}

impl SystemShards {
    /// The bits of the components the system requires.
    pub closed spec fn spec_required(&self) -> u64 {
        self.required@
    }

    /// The keys of the shards, in order.
    pub closed spec fn key_list(&self) -> Seq<u64> {
        index_set_items(self.keys)
    }

    /// The keys of the shards.
    pub open spec fn key_set(&self) -> Set<u64> {
        self.key_list().to_set()
    }

    /// No key twice, and every key holds the required components.
    pub open spec fn wf(&self) -> bool {
        &&& self.key_list().no_duplicates()
        &&& forall|i: int| 0 <= i < self.key_list().len() ==> #[trigger] self.key_list()[i] & self.spec_required() == self.spec_required()
    }

    /// A system requiring the components of `required`, knowing no shard yet.
    pub fn new(required: ShardKey) -> (sys: SystemShards)
        ensures
            sys.wf(),
            sys.spec_required() == required@,
            sys.key_list() == Seq::<u64>::empty(),
    {
        SystemShards { required, keys: key_set_new() }
    }

    /// Does a shard of this key hold every component the system requires?
    pub fn check_shard(&self, key: &ShardKey) -> (b: bool)
        ensures
            b == (key@ & self.spec_required() == self.spec_required()),
    {
        key.bits() & self.required.bits() == self.required.bits()
    }

    /// Adds a shard the system requires; a known shard keeps its place.
    pub fn add_shard(&mut self, key: &ShardKey)
        requires
            old(self).wf(),
            key@ & old(self).spec_required() == old(self).spec_required(),
        ensures
            final(self).wf(),
            final(self).spec_required() == old(self).spec_required(),
            old(self).key_list().contains(key@) ==> final(self).key_list() == old(self).key_list(),
            !old(self).key_list().contains(key@) ==> final(self).key_list() == old(self).key_list().push(key@),
            final(self).key_set() == old(self).key_set().insert(key@),
    {
        let ghost before = self.key_list();
        key_set_insert(&mut self.keys, key.bits());
        proof {
            let after = self.key_list();
            assert forall|x: u64| after.contains(x) <==> before.contains(x) || x == key@ by {
                if !before.contains(key@) {
                    if after.contains(x) {
                        let j = choose|j: int| 0 <= j < after.len() && after[j] == x;
                        if j < before.len() {
                            assert(before[j] == x);
                        }
                    }
                    if before.contains(x) {
                        let j = choose|j: int| 0 <= j < before.len() && before[j] == x;
                        assert(after[j] == x);
                    }
                    if x == key@ {
                        assert(after[before.len() as int] == x);
                    }
                }
            }
            assert(after.to_set() =~= before.to_set().insert(key@));
            assert forall|k: int| 0 <= k < after.len() implies #[trigger] after[k] & self.spec_required() == self.spec_required() by {
                if k < before.len() {
                    assert(after[k] == before[k]);
                }
            }
        }
    }

    /// Removes a shard; the last shard takes its place.
    pub fn remove_shard(&mut self, key: &ShardKey)
        requires
            old(self).wf(),
        ensures
            final(self).wf(),
            final(self).spec_required() == old(self).spec_required(),
            final(self).key_set() == old(self).key_set().remove(key@),
            !old(self).key_list().contains(key@) ==> final(self).key_list() == old(self).key_list(),
            forall|i: int| 0 <= i < old(self).key_list().len() && old(self).key_list()[i] == key@ ==> final(self).key_list()
                == swap_removed(old(self).key_list(), i),
    {
        let ghost before = self.key_list();
        key_set_swap_remove(&mut self.keys, key.bits());
        proof {
            let after = self.key_list();
            if before.contains(key@) {
                let i = choose|i: int| 0 <= i < before.len() && before[i] == key@;
                assert(after == swap_removed(before, i));
                assert forall|x: u64| after.contains(x) <==> before.contains(x) && x != key@ by {
                    if after.contains(x) {
                        let j = choose|j: int| 0 <= j < after.len() && after[j] == x;
                        if i == before.len() - 1 {
                            assert(before[j] == x);
                        } else if j == i {
                            assert(before[before.len() - 1] == x);
                        } else {
                            assert(before[j] == x);
                        }
                    }
                    if before.contains(x) && x != key@ {
                        let j = choose|j: int| 0 <= j < before.len() && before[j] == x;
                        if j == before.len() - 1 {
                            assert(after[i] == x);
                        } else {
                            assert(after[j] == x);
                        }
                    }
                }
                assert(after.to_set() =~= before.to_set().remove(key@));
                assert forall|k: int| 0 <= k < after.len() implies #[trigger] after[k] & self.spec_required() == self.spec_required() by {
                    if k == i && i < before.len() - 1 {
                        assert(after[k] == before[before.len() - 1]);
                    } else {
                        assert(after[k] == before[k]);
                    }
                }
            } else {
                assert(after.to_set() =~= before.to_set().remove(key@));
            }
        }
    }

    /// Takes in one shard event of the world: a populated shard the system requires is added,
    /// an emptied shard removed.
    pub fn hear(&mut self, event: &ShardEvent)
        requires
            old(self).wf(),
        ensures
            final(self).wf(),
            final(self).spec_required() == old(self).spec_required(),
            final(self).key_set() == heard(old(self).key_set(), old(self).spec_required(), seq![*event]),
    {
        let ghost s0 = self.key_set();
        proof {
            assert(seq![*event].drop_last() =~= Seq::<ShardEvent>::empty());
            assert(heard(s0, self.spec_required(), Seq::<ShardEvent>::empty()) == s0);
        }
        match event {
            ShardEvent::Populated(key) => {
                if self.check_shard(key) {
                    self.add_shard(key);
                }
            },
            ShardEvent::Emptied(key) => {
                self.remove_shard(key);
            },
        }
    }

    /// Takes in shard events of the world, in order.
    pub fn hear_all(&mut self, events: &Vec<ShardEvent>)
        requires
            old(self).wf(),
        ensures
            final(self).wf(),
            final(self).spec_required() == old(self).spec_required(),
            final(self).key_set() == heard(old(self).key_set(), old(self).spec_required(), events@),
    {
        let mut i: usize = 0;
        while i < events.len()
            invariant
                i <= events@.len(),
                self.wf(),
                self.spec_required() == old(self).spec_required(),
                self.key_set() == heard(old(self).key_set(), old(self).spec_required(), events@.take(i as int)),
            decreases events@.len() - i,
        {
            let ghost before = self.key_set();
            self.hear(&events[i]);
            proof {
                crate::world::lemma_heard_append(old(self).key_set(), old(self).spec_required(), events@.take(i as int), seq![events@[i as int]]);
                assert(events@.take(i as int) + seq![events@[i as int]] =~= events@.take(i + 1));
            }
            i = i + 1;
        }
        proof {
            assert(events@.take(events@.len() as int) =~= events@);
        }
    }

    /// Number of shards the system runs over.
    pub fn shard_count(&self) -> (n: usize)
        ensures
            n == self.key_list().len(),
    {
        key_set_len(&self.keys)
    }

    /// The entities the system runs over, in the order it visits them: shard by shard in the
    /// system's order, each shard's entities by location.
    pub fn entities<C>(&self, state: &GameState<C>) -> (ids: Vec<EntityId>)
        requires
            state.wf(),
        ensures
            ids@ == joined(state.model(), self.key_list()),
    {
        let n = self.shard_count();
        let mut out: Vec<EntityId> = Vec::new();
        let mut i: usize = 0;
        while i < n
            invariant
                state.wf(),
                n == self.key_list().len(),
                i <= n,
                out@ == joined(state.model(), self.key_list().take(i as int)),
            decreases n - i,
        {
            let ghost keys = self.key_list().take(i + 1);
            proof {
                assert(keys.drop_last() =~= self.key_list().take(i as int));
                assert(keys.last() == self.key_list()[i as int]);
            }
            let key = self.shard_key(i);
            match state.shard_entities(&key) {
                Some(ids) => {
                    let ghost start = out@;
                    let mut j: usize = 0;
                    while j < ids.len()
                        invariant
                            j <= ids@.len(),
                            out@ == start + ids@.take(j as int),
                        decreases ids@.len() - j,
                    {
                        proof {
                            assert(ids@.take(j + 1) =~= ids@.take(j as int).push(ids@[j as int]));
                        }
                        out.push(ids[j]);
                        j = j + 1;
                    }
                    proof {
                        assert(ids@.take(ids@.len() as int) =~= ids@);
                    }
                },
                None => {
                    proof {
                        assert(out@ =~= out@ + Seq::<EntityId>::empty());
                    }
                },
            }
            i = i + 1;
        }
        proof {
            assert(self.key_list().take(n as int) =~= self.key_list());
        }
        out
    }

    /// The key of the `index`-th shard.
    pub fn shard_key(&self, index: usize) -> (key: ShardKey)
        requires
            index < self.key_list().len(),
        ensures
            key@ == self.key_list()[index as int],
    {
        ShardKey::from_bits(key_set_get(&self.keys, index))
    }
}

/// A system that knew the shards it requires, and hears the events of a change of the world,
/// again knows exactly the shards it requires.
pub proof fn law_system_follows_the_world<C>(
    before: SystemShards,
    after: SystemShards,
    world_before: WorldModel<C>,
    world_after: WorldModel<C>,
    events: Seq<ShardEvent>,
)
    requires
        before.key_set() == wanted(world_before, before.spec_required()),
        after.spec_required() == before.spec_required(),
        after.key_set() == heard(before.key_set(), before.spec_required(), events),
        wanted(world_after, before.spec_required()) == heard(wanted(world_before, before.spec_required()), before.spec_required(), events),
    ensures
        after.key_set() == wanted(world_after, after.spec_required()),
{
}

/// An entity is among those of the shards `keys` exactly when one of the keys has a shard
/// holding it.
pub proof fn lemma_joined_contains<C>(m: WorldModel<C>, keys: Seq<u64>, id: EntityId)
    ensures
        joined(m, keys).contains(id) <==> exists|i: int| 0 <= i < keys.len() && m.1.contains_key(#[trigger] keys[i])
            && m.1[keys[i]].0.contains(id),
    decreases keys.len(),
{
    if keys.len() > 0 {
        let prev = keys.drop_last();
        lemma_joined_contains(m, prev, id);
        let last = if m.1.contains_key(keys.last()) { m.1[keys.last()].0 } else { Seq::empty() };
        let whole = joined(m, prev) + last;
        assert(joined(m, keys) == whole);
        if whole.contains(id) {
            let p = choose|p: int| 0 <= p < whole.len() && whole[p] == id;
            if p < joined(m, prev).len() {
                assert(joined(m, prev)[p] == id);
                let i = choose|i: int| 0 <= i < prev.len() && m.1.contains_key(#[trigger] prev[i]) && m.1[prev[i]].0.contains(id);
                assert(keys[i] == prev[i]);
            } else {
                assert(last[p - joined(m, prev).len()] == id);
                assert(keys[keys.len() - 1] == keys.last());
            }
        }
        if exists|i: int| 0 <= i < keys.len() && m.1.contains_key(#[trigger] keys[i]) && m.1[keys[i]].0.contains(id) {
            let i = choose|i: int| 0 <= i < keys.len() && m.1.contains_key(#[trigger] keys[i]) && m.1[keys[i]].0.contains(id);
            if i < keys.len() - 1 {
                assert(prev[i] == keys[i]);
                assert(joined(m, prev).contains(id));
                let p = choose|p: int| 0 <= p < joined(m, prev).len() && joined(m, prev)[p] == id;
                assert(whole[p] == id);
            } else {
                let p = choose|p: int| 0 <= p < last.len() && last[p] == id;
                assert(whole[joined(m, prev).len() + p] == id);
            }
        }
    }
}

/// The shards of distinct keys hold distinct entities, so no entity is visited twice.
pub proof fn lemma_joined_distinct<C>(m: WorldModel<C>, keys: Seq<u64>)
    requires
        model_wf(m),
        keys.no_duplicates(),
    ensures
        joined(m, keys).no_duplicates(),
        forall|id: EntityId| #[trigger] joined(m, keys).contains(id) ==> m.0.contains_key(id.0) && keys.contains(m.0[id.0].0),
    decreases keys.len(),
{
    if keys.len() > 0 {
        let prev = keys.drop_last();
        let k = keys.last();
        assert forall|a: int, b: int| 0 <= a < b < prev.len() implies prev[a] != prev[b] by {
            assert(keys[a] == prev[a] && keys[b] == prev[b]);
        }
        lemma_joined_distinct(m, prev);
        let front = joined(m, prev);
        let last = if m.1.contains_key(k) { m.1[k].0 } else { Seq::empty() };
        let whole = front + last;
        assert(joined(m, keys) == whole);
        assert forall|p: int| 0 <= p < last.len() implies m.0.contains_key(#[trigger] last[p].0) && m.0[last[p].0].0 == k && m.0[last[p].0].1 == p by {
            assert(m.1.contains_key(k));
        }
        assert forall|a: int, b: int| 0 <= a < whole.len() && 0 <= b < whole.len() && a != b implies whole[a] != whole[b] by {
            if a < front.len() && b < front.len() {
            } else if a >= front.len() && b >= front.len() {
                let pa = a - front.len();
                let pb = b - front.len();
                assert(whole[a] == last[pa] && whole[b] == last[pb]);
                assert(m.0[last[pa].0].1 == pa);
                assert(m.0[last[pb].0].1 == pb);
            } else {
                let (f, t) = if a < front.len() { (a, b) } else { (b, a) };
                let pt = t - front.len();
                assert(whole[f] == front[f]);
                assert(front.contains(front[f]));
                assert(prev.contains(m.0[front[f].0].0));
                let i = choose|i: int| 0 <= i < prev.len() && prev[i] == m.0[front[f].0].0;
                assert(keys[i] == prev[i]);
                assert(keys[keys.len() - 1] == k);
                assert(whole[t] == last[pt]);
                assert(m.0[last[pt].0].0 == k);
            }
        }
        assert forall|id: EntityId| #[trigger] whole.contains(id) implies m.0.contains_key(id.0) && keys.contains(m.0[id.0].0) by {
            let p = choose|p: int| 0 <= p < whole.len() && whole[p] == id;
            if p < front.len() {
                assert(front[p] == id);
                assert(front.contains(id));
                let i = choose|i: int| 0 <= i < prev.len() && prev[i] == m.0[id.0].0;
                assert(keys[i] == prev[i]);
            } else {
                assert(last[p - front.len()] == id);
                assert(keys[keys.len() - 1] == k);
            }
        }
    }
}

/// A system that knows the shards it requires visits exactly the entities of the world that
/// hold every component it requires, each of them once.
pub proof fn law_system_visits_what_it_requires<C>(sys: SystemShards, state: GameState<C>, id: EntityId)
    requires
        state.wf(),
        sys.wf(),
        sys.key_set() == wanted(state.model(), sys.spec_required()),
    ensures
        joined(state.model(), sys.key_list()).no_duplicates(),
        joined(state.model(), sys.key_list()).contains(id) <==> {
            &&& state.model().0.contains_key(id.0)
            &&& state.model().0[id.0].0 & sys.spec_required() == sys.spec_required()
        },
{
    let m = state.model();
    let keys = sys.key_list();
    let r = sys.spec_required();
    state.lemma_model_wf();
    lemma_joined_distinct(m, keys);
    lemma_joined_contains(m, keys, id);
    if joined(m, keys).contains(id) {
        let i = choose|i: int| 0 <= i < keys.len() && m.1.contains_key(#[trigger] keys[i]) && m.1[keys[i]].0.contains(id);
        let k = keys[i];
        let l = choose|l: int| 0 <= l < m.1[k].0.len() && m.1[k].0[l] == id;
        assert(m.0.contains_key(m.1[k].0[l].0));
        assert(keys.to_set().contains(k));
        assert(wanted(m, r).contains(k));
    }
    if m.0.contains_key(id.0) && m.0[id.0].0 & r == r {
        let (k, l) = m.0[id.0];
        assert(m.1[k].0[l as int] == id);
        assert(m.1[k].0.len() > 0);
        assert(wanted(m, r).contains(k));
        assert(keys.to_set().contains(k));
        let i = choose|i: int| 0 <= i < keys.len() && keys[i] == k;
        assert(m.1[keys[i]].0.contains(id));
    }
}

} // verus!
