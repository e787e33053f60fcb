use vstd::prelude::*;
use indexmap::IndexSet;
use crate::keyset::{index_set_items, key_set_contains, key_set_insert, key_set_len, key_set_new, key_set_swap_remove};
use crate::net::frame::{ControlFrame, Frame, UserId};
use crate::net::result::Error;

verus! {

/// Index of a channel of an endpoint.
pub type ChannelId = usize;

/// A change of the connections of an endpoint, for the world to hear about.
#[derive(Debug, Clone, Copy, PartialEq, Eq, Structural)]
pub enum ConnectionChange {
    Connected(UserId, ChannelId),
    Disconnected(ChannelId),
}

/// What reading a frame off a channel asks the endpoint to do.
#[derive(Debug, Clone, Copy, PartialEq, Eq, Structural)]
pub enum PullAction {
    /// The client closed the connection: close the channel.
    Close,
    /// A payload of this many bytes is there to read.
    ReadPayload(usize),
    /// Nothing to do now.
    Nothing,
    /// The channel failed: disconnect it, telling the client.
    Disconnect,
}

/// The action for the outcome of reading a frame: a closing frame closes the channel, a payload
/// is read, other control frames and an answer to wait need nothing, and any other error
/// disconnects the channel.
pub fn pull_action(read: &Result<Frame, Error>) -> (action: PullAction)
    ensures
        action == match read {
            Ok(Frame::Control(ControlFrame::ConnectionClosed(_))) => PullAction::Close,
            Ok(Frame::Control(_)) => PullAction::Nothing,
            Ok(Frame::Payload(info)) => PullAction::ReadPayload(info.0),
            Err(Error::Wait) => PullAction::Nothing,
            Err(_) => PullAction::Disconnect,
        },
{
    match read {
        Ok(Frame::Control(ControlFrame::ConnectionClosed(_))) => PullAction::Close,
        Ok(Frame::Control(_)) => PullAction::Nothing,
        Ok(Frame::Payload(info)) => PullAction::ReadPayload(info.0),
        Err(Error::Wait) => PullAction::Nothing,
        Err(_) => PullAction::Disconnect,
    }
}

/// The connected channels of an endpoint, in the order they connected, and the changes not
/// yet reported.
pub struct Connections {
    connected: IndexSet<u64>,
    changes: Vec<ConnectionChange>,
}

impl Connections {
    /// The connected channels.
    pub closed spec fn channels(&self) -> Seq<u64> {
        index_set_items(self.connected)
    }

    /// The changes not yet reported, oldest first.
    pub closed spec fn pending_changes(&self) -> Seq<ConnectionChange> {
        self.changes@
    }

    /// No channel is listed twice.
    pub open spec fn wf(&self) -> bool {
        self.channels().no_duplicates()
    }

    /// No connections and nothing to report.
    pub fn new() -> (c: Connections)
        ensures
            c.wf(),
            c.channels() == Seq::<u64>::empty(),
            c.pending_changes() == Seq::<ConnectionChange>::empty(),
    {
        Connections { connected: key_set_new(), changes: Vec::new() }
    }

    /// Records that `user` connected on channel `id`.
    pub fn connect(&mut self, user: UserId, id: ChannelId)
        ensures
            final(self).wf(),
            final(self).channels().to_set() == old(self).channels().to_set().insert(id as u64),
            final(self).pending_changes() == old(self).pending_changes().push(ConnectionChange::Connected(user, id)),
    {
        let ghost before = self.channels();
        key_set_insert(&mut self.connected, id as u64);
        self.changes.push(ConnectionChange::Connected(user, id));
        proof {
            let after = self.channels();
            assert forall|x: u64| after.contains(x) <==> before.contains(x) || x == id as u64 by {
                if !before.contains(id as u64) {
                    if after.contains(x) {
                        let j = choose|j: int| 0 <= j < after.len() && after[j] == x;
                        if j < before.len() {
                            assert(before[j] == x);
                        }
                    }
                    if before.contains(x) {
                        let j = choose|j: int| 0 <= j < before.len() && before[j] == x;
                        assert(after[j] == x);
                    }
                    if x == id as u64 {
                        assert(after[before.len() as int] == x);
                    }
                }
            }
            assert(after.to_set() =~= before.to_set().insert(id as u64));
        }
    }

    /// Disconnects channel `id`: records the change and forgets the channel.
    pub fn disconnect(&mut self, id: ChannelId)
        requires
            old(self).wf(),
        ensures
            final(self).wf(),
            final(self).channels().to_set() == old(self).channels().to_set().remove(id as u64),
            final(self).pending_changes() == old(self).pending_changes().push(ConnectionChange::Disconnected(id)),
    {
        let ghost before = self.channels();
        self.changes.push(ConnectionChange::Disconnected(id));
        key_set_swap_remove(&mut self.connected, id as u64);
        proof {
            let after = self.channels();
            let key = id as u64;
            if before.contains(key) {
                let i = choose|i: int| 0 <= i < before.len() && before[i] == key;
                assert(after == crate::shard::swap_removed(before, i));
                assert forall|x: u64| after.contains(x) <==> before.contains(x) && x != key by {
                    if after.contains(x) {
                        let j = choose|j: int| 0 <= j < after.len() && after[j] == x;
                        if i == before.len() - 1 {
                            assert(before[j] == x);
                        } else if j == i {
                            assert(before[before.len() - 1] == x);
                        } else {
                            assert(before[j] == x);
                        }
                    }
                    if before.contains(x) && x != key {
                        let j = choose|j: int| 0 <= j < before.len() && before[j] == x;
                        if j == before.len() - 1 {
                            assert(after[i] == x);
                        } else {
                            assert(after[j] == x);
                        }
                    }
                }
            }
            assert(after.to_set() =~= before.to_set().remove(key));
        }
    }

    /// Whether channel `id` is connected.
    pub fn is_connected(&self, id: ChannelId) -> (b: bool)
        ensures
            b == self.channels().contains(id as u64),
    {
        key_set_contains(&self.connected, id as u64)
    }

    /// Number of connected channels.
    pub fn connected_count(&self) -> (n: usize)
        ensures
            n == self.channels().len(),
    {
        key_set_len(&self.connected)
    }

    /// Hands out the changes not yet reported, oldest first, and forgets them.
    pub fn take_changes(&mut self) -> (changes: Vec<ConnectionChange>)
        ensures
            changes@ == old(self).pending_changes(),
            final(self).pending_changes() == Seq::<ConnectionChange>::empty(),
            final(self).channels() == old(self).channels(),
            old(self).wf() ==> final(self).wf(),
    {
        let mut changes: Vec<ConnectionChange> = Vec::new();
        std::mem::swap(&mut changes, &mut self.changes);
        changes
    }
}

} // verus!
