use vstd::prelude::*;
use crate::identity::{TopicId, TopicBundle, indices_below, indices_of, lemma_indices_below_contains, lemma_indices_below_bounded};

verus! {

/// A message bus: one queue of messages per registered topic, plus the set of topics that
/// were published to since the last clear. Topics are registered in lockstep with the world,
/// so the queue of a topic sits at the topic's index.
pub struct Bus<M> {
    topics: Vec<Vec<M>>,
    activity: TopicBundle,
}

impl<M> Bus<M> {
    /// The queue of every registered topic, by topic index.
    pub closed spec fn queues(&self) -> Seq<Seq<M>> {
        self.topics@.map_values(|q: Vec<M>| q@)
    }

    /// The set of topics with (possibly) pending messages.
    pub closed spec fn active(&self) -> TopicBundle {
        self.activity
    }

    /// Active topics are registered, and a topic that is not active has an empty queue.
    pub open spec fn wf(&self) -> bool {
        &&& self.queues().len() <= 64
        &&& forall|t: int| #[trigger] self.active().has(t) ==> t < self.queues().len()
        &&& forall|t: int|
            0 <= t < self.queues().len() && !self.active().has(t) ==> (#[trigger] self.queues()[t]).len()
                == 0
    }

    /// An empty bus with no topics.
    pub fn new() -> (bus: Self)
        ensures
            bus.wf(),
            bus.queues() == Seq::<Seq<M>>::empty(),
            forall|t: int| !bus.active().has(t),
    {
        let bus = Bus { topics: Vec::new(), activity: TopicBundle::empty() };
        proof {
            assert(bus.queues() =~= Seq::<Seq<M>>::empty());
        }
        bus
    }

    /// Number of registered topics.
    pub fn topic_count(&self) -> (n: usize)
        ensures
            n == self.queues().len(),
    {
        self.topics.len()
    }

    /// Registers the next topic. Topics must be registered in lockstep with the world: the
    /// topic's index must be the number of topics registered so far.
    pub fn register(&mut self, topic: &TopicId)
        requires
            old(self).wf(),
            topic@ == old(self).queues().len(),
        ensures
            final(self).wf(),
            final(self).queues() == old(self).queues().push(Seq::empty()),
            final(self).active() == old(self).active(),
    {
        let t = topic.indexer();
        self.topics.push(Vec::new());
        proof {
            assert(self.queues() =~= old(self).queues().push(Seq::empty()));
            assert(t < 64);
            assert forall|t2: int| #[trigger] self.active().has(t2) implies t2 < self.queues().len() by {
                assert(old(self).active().has(t2));
            }
            assert forall|t2: int|
                0 <= t2 < self.queues().len() && !self.active().has(t2) implies (#[trigger] self.queues()[t2]).len() == 0 by {
                if t2 < old(self).queues().len() {
                    assert(self.queues()[t2] == old(self).queues()[t2]);
                }
            }
        }
    }

    /// Transfer the messages in the `other` bus into the current bus: the messages of each of
    /// its topics are appended to the queue of the same topic here, and `other` is left empty.
    pub fn transfer(&mut self, other: &mut Bus<M>)
        requires
            old(self).wf(),
            old(other).wf(),
            old(other).queues().len() <= old(self).queues().len(),
        ensures
            final(self).wf(),
            final(other).wf(),
            final(self).queues().len() == old(self).queues().len(),
            forall|t: int|
                0 <= t < old(self).queues().len() ==> #[trigger] final(self).queues()[t] == old(self).queues()[t]
                    + (if t < old(other).queues().len() { old(other).queues()[t] } else { Seq::empty() }),
            final(self).active()@ == old(self).active()@ | old(other).active()@,
            final(other).queues().len() == old(other).queues().len(),
            forall|t: int| 0 <= t < old(other).queues().len() ==> (#[trigger] final(other).queues()[t]).len() == 0,
            forall|t: int| !final(other).active().has(t),
    {
        let ids = other.activity.decompose();
        let ghost members = indices_of(other.activity@);
        proof {
            lemma_indices_below_bounded(other.activity@, 64);
        }
        let mut j: usize = 0;
        while j < ids.len()
            invariant
                j <= ids@.len(),
                ids@.map_values(|k: TopicId| k@) == members,
                members == indices_of(old(other).activity@),
                forall|k: int, l: int| 0 <= k < l < members.len() ==> members[k] < members[l],
                self.wf(),
                other.active() == old(other).active(),
                other.queues().len() == old(other).queues().len(),
                self.queues().len() == old(self).queues().len(),
                old(other).wf(),
                old(other).queues().len() <= old(self).queues().len(),
                forall|t: int| #![trigger self.queues()[t]]
                    0 <= t < old(self).queues().len() ==> self.queues()[t] == old(self).queues()[t]
                        + (if t < old(other).queues().len() && exists|k: int| 0 <= k < j && members[k] == t {
                        old(other).queues()[t] } else { Seq::empty() }),
                forall|t: int| #![trigger other.queues()[t]]
                    0 <= t < old(other).queues().len() ==> other.queues()[t] == (if exists|k: int| 0 <= k < j && members[k] == t {
                        Seq::empty() } else { old(other).queues()[t] }),
                forall|t: int| #[trigger] self.active().has(t) <==> (old(self).active().has(t) || exists|k: int| 0 <= k < j && members[k] == t),
            decreases ids@.len() - j,
        {
            let topic = ids[j];
            let t = topic.indexer();
            proof {
                assert(members[j as int] == t);
                assert(members.contains(t as nat));
                lemma_indices_below_contains(old(other).activity@, 64, t as nat);
                assert(old(other).active().has(t as int));
            }
            self.activity.insert(&topic);
            let ghost self_before = self.queues();
            let ghost other_before = other.queues();
            let mut moved = Vec::new();
            std::mem::swap(&mut moved, &mut other.topics[t]);
            let mut queue = Vec::new();
            std::mem::swap(&mut queue, &mut self.topics[t]);
            let ghost q0 = queue@;
            let ghost m0 = moved@;
            queue.append(&mut moved);
            self.topics.set(t, queue);
            proof {
                assert(self.queues() =~= self_before.update(t as int, q0 + m0));
                assert(other.queues() =~= other_before.update(t as int, Seq::empty()));
                assert(q0 == self_before[t as int]);
                assert(m0 == other_before[t as int]);
                assert forall|t2: int| #![trigger self.queues()[t2]]
                    0 <= t2 < old(self).queues().len() implies self.queues()[t2] == old(self).queues()[t2]
                        + (if t2 < old(other).queues().len() && exists|k: int| 0 <= k < j + 1 && members[k] == t2 {
                        old(other).queues()[t2] } else { Seq::empty() }) by {
                    if t2 == t {
                        assert(members[j as int] == t2);
                        if exists|k: int| 0 <= k < j && members[k] == t2 {
                            let k = choose|k: int| 0 <= k < j && members[k] == t2;
                            assert(false);
                        }
                    } else {
                        assert(self.queues()[t2] == self_before[t2]);
                        if exists|k: int| 0 <= k < j + 1 && members[k] == t2 {
                            let k = choose|k: int| 0 <= k < j + 1 && members[k] == t2;
                            assert(k != j);
                        }
                    }
                }
                assert forall|t2: int| #![trigger other.queues()[t2]]
                    0 <= t2 < old(other).queues().len() implies other.queues()[t2] == (if exists|k: int| 0 <= k < j + 1 && members[k] == t2 {
                        Seq::empty() } else { old(other).queues()[t2] }) by {
                    if t2 == t {
                        assert(members[j as int] == t2);
                        assert(other.queues()[t2] =~= Seq::<M>::empty());
                    } else {
                        assert(other.queues()[t2] == other_before[t2]);
                        if exists|k: int| 0 <= k < j + 1 && members[k] == t2 {
                            let k = choose|k: int| 0 <= k < j + 1 && members[k] == t2;
                            assert(k != j);
                        }
                    }
                }
                assert forall|t2: int| #[trigger] self.active().has(t2) <==> (old(self).active().has(t2) || exists|k: int| 0 <= k < j + 1 && members[k] == t2) by {
                    if exists|k: int| 0 <= k < j + 1 && members[k] == t2 {
                        let k = choose|k: int| 0 <= k < j + 1 && members[k] == t2;
                        if k < j {
                            assert(exists|k2: int| 0 <= k2 < j && members[k2] == t2);
                        }
                    }
                    if exists|k: int| 0 <= k < j && members[k] == t2 {
                        let k = choose|k: int| 0 <= k < j && members[k] == t2;
                        assert(0 <= k < j + 1 && members[k] == t2);
                    }
                }
                assert forall|t2: int| 0 <= t2 < self.queues().len() && !self.active().has(t2) implies (#[trigger] self.queues()[t2]).len() == 0 by {
                    assert(!old(self).active().has(t2));
                    if t2 < old(other).queues().len() && exists|k: int| 0 <= k < j + 1 && members[k] == t2 {
                        assert(false);
                    }
                }
                assert forall|t2: int| #[trigger] self.active().has(t2) implies t2 < self.queues().len() by {
                    if !old(self).active().has(t2) {
                        let k = choose|k: int| 0 <= k < j + 1 && members[k] == t2;
                        lemma_indices_below_contains(old(other).activity@, 64, members[k]);
                        assert(members.contains(members[k]));
                    }
                }
            }
            j = j + 1;
        }
        other.activity = TopicBundle::empty();
        proof {
            assert forall|t: int| #![trigger self.queues()[t]]
                0 <= t < old(self).queues().len() implies self.queues()[t] == old(self).queues()[t]
                    + (if t < old(other).queues().len() { old(other).queues()[t] } else { Seq::empty() }) by {
                if t < old(other).queues().len() && !(exists|k: int| 0 <= k < j && members[k] == t) {
                    if old(other).active().has(t) {
                        lemma_indices_below_contains(old(other).activity@, 64, t as nat);
                        let k = choose|k: int| 0 <= k < members.len() && members[k] == t as nat;
                        assert(false);
                    }
                    assert(old(other).queues()[t].len() == 0);
                    assert(old(self).queues()[t] + old(other).queues()[t] =~= old(self).queues()[t]);
                }
                if !(t < old(other).queues().len() && exists|k: int| 0 <= k < j && members[k] == t) {
                    assert(old(self).queues()[t] + Seq::<M>::empty() =~= old(self).queues()[t]);
                }
            }
            assert forall|t: int| 0 <= t < old(other).queues().len() implies (#[trigger] other.queues()[t]).len() == 0 by {
                if !(exists|k: int| 0 <= k < j && members[k] == t) {
                    if old(other).active().has(t) {
                        lemma_indices_below_contains(old(other).activity@, 64, t as nat);
                        let k = choose|k: int| 0 <= k < members.len() && members[k] == t as nat;
                        assert(false);
                    }
                }
            }
            assert forall|t: int| 0 <= t < 64 implies (crate::identity::bit_set(self.active()@, t)
                <==> crate::identity::bit_set(old(self).active()@ | old(other).active()@, t)) by {
                crate::identity::lemma_bit_or(old(self).active()@, old(other).active()@, t);
                lemma_indices_below_contains(old(other).activity@, 64, t as nat);
                if crate::identity::bit_set(old(other).active()@, t) {
                    assert(members.contains(t as nat));
                    let k = choose|k: int| 0 <= k < members.len() && members[k] == t as nat;
                    assert(0 <= k < j && members[k] == t);
                    assert(self.active().has(t));
                }
                if crate::identity::bit_set(self.active()@, t) && !crate::identity::bit_set(old(self).active()@, t) {
                    assert(self.active().has(t));
                    assert(!old(self).active().has(t));
                    let k = choose|k: int| 0 <= k < j && members[k] == t;
                    assert(members[k] == t as nat);
                    assert(members.contains(t as nat));
                    assert(crate::identity::bit_set(old(other).active()@, t));
                    assert(crate::identity::bit_set(old(self).active()@ | old(other).active()@, t));
                }
                if crate::identity::bit_set(self.active()@, t) {
                    assert(crate::identity::bit_set(old(self).active()@ | old(other).active()@, t));
                }
                if crate::identity::bit_set(old(self).active()@ | old(other).active()@, t) {
                    if crate::identity::bit_set(old(self).active()@, t) {
                        assert(old(self).active().has(t));
                        assert(self.active().has(t));
                    }
                    assert(crate::identity::bit_set(self.active()@, t));
                }
            }
            crate::identity::lemma_bits_ext(self.active()@, old(self).active()@ | old(other).active()@);
        }
    }

    /// Read the messages for a particular topic.
    pub fn read(&self, topic: &TopicId) -> (messages: &[M])
        requires
            topic@ < self.queues().len(),
        ensures
            messages@ == self.queues()[topic@ as int],
    {
        self.topics[topic.indexer()].as_slice()
    }

    /// Publish the supplied message on the bus.
    pub fn publish(&mut self, topic: &TopicId, message: M)
        requires
            old(self).wf(),
            topic@ < old(self).queues().len(),
        ensures
            final(self).wf(),
            final(self).queues() == old(self).queues().update(
                topic@ as int,
                old(self).queues()[topic@ as int].push(message),
            ),
            forall|t: int| #[trigger] final(self).active().has(t) <==> (old(self).active().has(t) || t == topic@),
    {
        let t = topic.indexer();
        self.activity.insert(topic);
        self.topics[t].push(message);
        proof {
            assert(self.queues() =~= old(self).queues().update(
                topic@ as int,
                old(self).queues()[topic@ as int].push(message),
            ));
        }
    }

    /// Start a batch of messages on one topic. The topic is marked active, and messages
    /// published through the returned batcher go to the end of its queue.
    pub fn batch(&mut self, topic: &TopicId) -> (batcher: Batcher<'_, M>)
        requires
            old(self).wf(),
            topic@ < old(self).queues().len(),
        ensures
            batcher.messages() == old(self).queues()[topic@ as int],
            forall|t: int| #[trigger] final(self).active().has(t) <==> (old(self).active().has(t) || t == topic@),
            final(self).queues() == old(self).queues().update(topic@ as int, final(batcher.buffer)@),
    {
        let t = topic.indexer();
        self.activity.insert(topic);
        Batcher { buffer: &mut self.topics[t] }
    }

    /// Clear the queues of all the active topics and reset the activity.
    pub fn clear(&mut self)
        requires
            old(self).wf(),
        ensures
            final(self).wf(),
            final(self).queues().len() == old(self).queues().len(),
            forall|t: int| 0 <= t < final(self).queues().len() ==> (#[trigger] final(self).queues()[t]).len() == 0,
            forall|t: int| !final(self).active().has(t),
    {
        let ids = self.activity.decompose();
        let ghost members = indices_of(old(self).activity@);
        let mut j: usize = 0;
        while j < ids.len()
            invariant
                j <= ids@.len(),
                ids@.map_values(|k: TopicId| k@) == members,
                members == indices_of(old(self).activity@),
                self.active() == old(self).active(),
                old(self).wf(),
                self.queues().len() == old(self).queues().len(),
                forall|t: int| #![trigger self.queues()[t]]
                    0 <= t < self.queues().len() ==> self.queues()[t] == (if exists|k: int| 0 <= k < j && members[k] == t {
                        Seq::empty() } else { old(self).queues()[t] }),
            decreases ids@.len() - j,
        {
            let t = ids[j].indexer();
            proof {
                assert(members[j as int] == t);
                assert(members.contains(t as nat));
                lemma_indices_below_contains(old(self).activity@, 64, t as nat);
                assert(old(self).active().has(t as int));
            }
            let ghost before = self.queues();
            self.topics.set(t, Vec::new());
            proof {
                assert(self.queues() =~= before.update(t as int, Seq::empty()));
                assert forall|t2: int| #![trigger self.queues()[t2]]
                    0 <= t2 < self.queues().len() implies self.queues()[t2] == (if exists|k: int| 0 <= k < j + 1 && members[k] == t2 {
                        Seq::empty() } else { old(self).queues()[t2] }) by {
                    if t2 == t {
                        assert(members[j as int] == t2);
                        assert(self.queues()[t2] =~= Seq::<M>::empty());
                    } else {
                        assert(self.queues()[t2] == before[t2]);
                        if exists|k: int| 0 <= k < j + 1 && members[k] == t2 {
                            let k = choose|k: int| 0 <= k < j + 1 && members[k] == t2;
                            assert(k != j);
                        }
                    }
                }
            }
            j = j + 1;
        }
        self.activity = TopicBundle::empty();
        proof {
            assert forall|t: int| 0 <= t < self.queues().len() implies (#[trigger] self.queues()[t]).len() == 0 by {
                if !(exists|k: int| 0 <= k < j && members[k] == t) && old(self).active().has(t) {
                    lemma_indices_below_contains(old(self).activity@, 64, t as nat);
                    let k = choose|k: int| 0 <= k < members.len() && members[k] == t as nat;
                    assert(false);
                }
            }
        }
    }
}

/// Giving a registered topic a new queue while marking it active keeps the bus well formed:
/// this is the state `batch` leaves the bus in once the batcher is done.
pub proof fn law_batch_keeps_wf<M>(before: Bus<M>, after: Bus<M>, topic: int, queue: Seq<M>)
    requires
        before.wf(),
        0 <= topic < before.queues().len(),
        after.queues() == before.queues().update(topic, queue),
        forall|t: int| #[trigger] after.active().has(t) <==> (before.active().has(t) || t == topic),
    ensures
        after.wf(),
{
    assert forall|t: int| #[trigger] after.active().has(t) implies t < after.queues().len() by {
        if t != topic {
            assert(before.active().has(t));
        }
    }
    assert forall|t: int| 0 <= t < after.queues().len() && !after.active().has(t) implies
        (#[trigger] after.queues()[t]).len() == 0 by {
        assert(!before.active().has(t));
        assert(after.queues()[t] == before.queues()[t]);
    }
}

/// Publishes a batch of messages of one topic.
pub struct Batcher<'a, M> {
    pub buffer: &'a mut Vec<M>,
}

impl<'a, M> Batcher<'a, M> {
    /// The queue that the batch appends to.
    pub closed spec fn messages(&self) -> Seq<M> {
        self.buffer@
    }

    /// Publish the supplied message on the bus.
    pub fn publish(&mut self, message: M)
        ensures
            final(self).messages() == old(self).messages().push(message),
            *final(final(self).buffer) == *final(old(self).buffer),
    {
        self.buffer.push(message)
    }
}

} // verus!
