//! The replicas of a peer.

use std::collections::VecDeque;
use vstd::prelude::*;

use crate::channel::ChannelId;
use crate::client_server::authority::{requests_replica, Authority, AuthorityView, RoleView};
use crate::engine::drawn;
use crate::error::Error;
use crate::ordered_map::{
    keys_ascend, law_with_value, law_without_key, lemma_place, place_of,
};
use crate::peer::{found_end, Peer, PeerView, TypedPeer};
use crate::replica::{
    bound_to, has_end, InstanceView, LinkView, Replica, ReplicaId, ReplicaSet, ReplicaSetView,
};
use crate::wire::failure;

verus! {

broadcast use vstd::std_specs::vecdeque::group_vec_dequeue_axioms;

/// What the machines that have a peer tell each other of its replicas.
#[derive(Debug, Clone, PartialEq, Eq)]
pub enum ControllerEvent {
    CreateReplica(ReplicaId),
    DestroyReplica(ReplicaId),
    SynchronizeReplicaSetRequest,
    SynchronizeReplicaSetResponse(Vec<ReplicaId>),
}

/// What a [`ControllerEvent`] says.
#[verifier::ext_equal]
pub enum ControllerEventView {
    CreateReplica(ReplicaId),
    DestroyReplica(ReplicaId),
    SynchronizeReplicaSetRequest,
    SynchronizeReplicaSetResponse(Seq<ReplicaId>),
}

impl View for ControllerEvent {
    type V = ControllerEventView;

    open spec fn view(&self) -> ControllerEventView {
        match self {
            ControllerEvent::CreateReplica(id) => ControllerEventView::CreateReplica(*id),
            ControllerEvent::DestroyReplica(id) => ControllerEventView::DestroyReplica(*id),
            ControllerEvent::SynchronizeReplicaSetRequest => {
                ControllerEventView::SynchronizeReplicaSetRequest
            },
            ControllerEvent::SynchronizeReplicaSetResponse(ids) => {
                ControllerEventView::SynchronizeReplicaSetResponse(ids@)
            },
        }
    }
}

/// What events say, one by one.
pub open spec fn controller_events(events: Seq<ControllerEvent>) -> Seq<ControllerEventView> {
    events.map_values(|event: ControllerEvent| event@)
}

/// Which of those who are told something by a controller take no more of it.
#[derive(Debug, Clone, Copy, PartialEq, Eq, Structural)]
pub struct Gone {
    /// The channel takes no more of what other machines are told.
    pub events: bool,
    /// Nobody takes replicas that are new.
    pub added: bool,
    /// Nobody takes replicas that are gone.
    pub removed: bool,
}

impl Gone {
    /// All are there.
    pub fn none() -> (result: Self)
        ensures
            result == (Gone { events: false, added: false, removed: false }),
    {
        Gone { events: false, added: false, removed: false }
    }
}

/// Keeps the replicas of a peer the same on all machines. The machine where the peer is local
/// rules.
pub struct Controller<R, S, D> {
    peer: Peer<R, S, D>,
    replica_set: ReplicaSet,
    events_in: VecDeque<ControllerEvent>,
    events_out: VecDeque<ControllerEvent>,
    pending: Vec<(u64, Option<ReplicaId>)>,
    added: VecDeque<Replica>,
    removed: VecDeque<ReplicaId>,
    gone: Gone,
}

/// What a [`Controller`] holds.
#[verifier::ext_equal]
pub struct ControllerView<R, S, D> {
    pub peer: PeerView<R, S, D>,
    pub set: ReplicaSetView,
    pub events_in: Seq<ControllerEventView>,
    pub events_out: Seq<ControllerEventView>,
    /// Numbers that were asked for, and those that came.
    pub pending: Seq<(u64, Option<ReplicaId>)>,
    /// Replicas that are new.
    pub added: Seq<Replica>,
    /// Replicas that are gone.
    pub removed: Seq<ReplicaId>,
    pub gone: Gone,
}

impl<R, S, D> View for Controller<R, S, D> {
    type V = ControllerView<R, S, D>;

    closed spec fn view(&self) -> ControllerView<R, S, D> {
        ControllerView {
            peer: self.peer@,
            set: self.replica_set@,
            events_in: controller_events(self.events_in@),
            events_out: controller_events(self.events_out@),
            pending: self.pending@,
            added: self.added@,
            removed: self.removed@,
            gone: self.gone,
        }
    }
}

/// The numbers of the replicas of a set, in their order.
pub open spec fn numbers_of(set: ReplicaSetView) -> Seq<ReplicaId> {
    Seq::new(set.change.instances.len(), |i: int| ReplicaId(set.change.instances[i].0))
}

/// What becomes of a controller, and why it stopped early, if it did.
#[verifier::ext_equal]
pub struct Controlled<R, S, D> {
    pub state: ControllerView<R, S, D>,
    pub error: Option<Error>,
}

impl<R, S, D> ControllerView<R, S, D> {
    /// Once other machines were told something, unless the channel takes no more of it.
    pub open spec fn told(self, event: ControllerEventView) -> Controlled<R, S, D> {
        if self.gone.events {
            Controlled { state: self, error: Some(Error::ChannelClosed) }
        } else {
            Controlled {
                state: ControllerView { events_out: self.events_out.push(event), ..self },
                error: None,
            }
        }
    }

    /// Once the number of a replica that is gone was handed out, unless nobody takes it.
    pub open spec fn with_removed(self, id: ReplicaId) -> Controlled<R, S, D> {
        if self.gone.removed {
            Controlled { state: self, error: Some(Error::ChannelClosed) }
        } else {
            Controlled {
                state: ControllerView { removed: self.removed.push(id), ..self },
                error: None,
            }
        }
    }

    /// Once a replica was added, unless there is one with that number. One that nobody takes is
    /// to go again.
    pub open spec fn after_creation(self, id: ReplicaId) -> Controlled<R, S, D> {
        if self.set.has(id) {
            Controlled { state: self, error: Some(Error::ReplicaExists(id.0)) }
        } else if self.gone.added {
            let set = self.set.with_replica(id);
            Controlled {
                state: ControllerView {
                    set: ReplicaSetView {
                        killed: set.killed.push(self.set.next_replica(id)),
                        ..set
                    },
                    ..self
                },
                error: Some(Error::ChannelClosed),
            }
        } else {
            Controlled {
                state: ControllerView {
                    set: self.set.with_replica(id),
                    added: self.added.push(self.set.next_replica(id)),
                    ..self
                },
                error: None,
            }
        }
    }

    /// Once numbers that came, among those that were asked for, were used for replicas. Other
    /// machines get to know.
    pub open spec fn after_answers(self, pending: Seq<(u64, Option<ReplicaId>)>) -> Controlled<
        R,
        S,
        D,
    >
        decreases pending.len(),
    {
        if pending.len() == 0 {
            Controlled { state: ControllerView { pending: Seq::empty(), ..self }, error: None }
        } else {
            let before = self.after_answers(pending.drop_last());
            if before.error is Some {
                before
            } else {
                match pending.last().1 {
                    None => Controlled {
                        state: ControllerView {
                            pending: before.state.pending.push(pending.last()),
                            ..before.state
                        },
                        error: None,
                    },
                    Some(id) => {
                        let made = before.state.after_creation(id);
                        let told = if made.error is Some {
                            made
                        } else {
                            made.state.told(ControllerEventView::CreateReplica(id))
                        };
                        if told.error is Some {
                            Controlled {
                                state: ControllerView { pending: Seq::empty(), ..told.state },
                                error: told.error,
                            }
                        } else {
                            told
                        }
                    },
                }
            }
        }
    }

    /// Without those of the replicas `ids` that are not `listed`, up to the first that nobody
    /// takes.
    pub open spec fn without_unlisted(
        self,
        ids: Seq<ReplicaId>,
        listed: Seq<ReplicaId>,
    ) -> Controlled<R, S, D>
        decreases ids.len(),
    {
        if ids.len() == 0 {
            Controlled { state: self, error: None }
        } else {
            let before = self.without_unlisted(ids.drop_last(), listed);
            if before.error is Some || listed.contains(ids.last()) {
                before
            } else {
                (ControllerView {
                    set: before.state.set.without_replica(ids.last()),
                    ..before.state
                }).with_removed(ids.last())
            }
        }
    }

    /// With those of the replicas `ids` that are missing, up to the first that nobody takes.
    pub open spec fn with_missing(self, ids: Seq<ReplicaId>) -> Controlled<R, S, D>
        decreases ids.len(),
    {
        if ids.len() == 0 {
            Controlled { state: self, error: None }
        } else {
            let before = self.with_missing(ids.drop_last());
            if before.error is Some || before.state.set.has(ids.last()) {
                before
            } else {
                before.state.after_creation(ids.last())
            }
        }
    }

    /// With exactly the replicas `ids`, up to the first that nobody takes.
    pub open spec fn synchronized(self, ids: Seq<ReplicaId>) -> Controlled<R, S, D> {
        let kept = self.without_unlisted(numbers_of(self.set), ids);
        if kept.error is Some {
            kept
        } else {
            kept.state.with_missing(ids)
        }
    }

    /// Once what another machine told was handled.
    pub open spec fn after_event(self, event: ControllerEventView) -> Controlled<R, S, D> {
        match event {
            ControllerEventView::CreateReplica(id) => self.after_creation(id),
            ControllerEventView::DestroyReplica(id) => self.with_removed(id),
            ControllerEventView::SynchronizeReplicaSetRequest => if self.peer.info.remote {
                Controlled { state: self, error: None }
            } else {
                self.told(
                    ControllerEventView::SynchronizeReplicaSetResponse(numbers_of(self.set)),
                )
            },
            ControllerEventView::SynchronizeReplicaSetResponse(ids) => if self.peer.info.remote {
                self.synchronized(ids)
            } else {
                Controlled { state: self, error: None }
            },
        }
    }

    /// Once the first `count` things that other machines told were handled, up to the first that
    /// fails.
    pub open spec fn after_events(self, count: nat) -> Controlled<R, S, D>
        decreases count,
    {
        if count == 0 {
            Controlled { state: self, error: None }
        } else {
            let before = self.after_events((count - 1) as nat);
            if before.error is Some || before.state.events_in.len() == 0 {
                before
            } else {
                (ControllerView {
                    events_in: before.state.events_in.skip(1),
                    ..before.state
                }).after_event(before.state.events_in[0])
            }
        }
    }

    /// Once a round of work was done, up to the first thing that fails.
    pub open spec fn maintained(self) -> Controlled<R, S, D> {
        let answered = self.after_answers(self.pending);
        if answered.error is Some {
            answered
        } else {
            let told = answered.state.after_events(answered.state.events_in.len());
            if told.error is Some {
                told
            } else {
                Controlled {
                    state: ControllerView { set: told.state.set.maintained(), ..told.state },
                    error: None,
                }
            }
        }
    }
}

/// The questions that were answered, or whose answers can still come from the authority.
pub open spec fn not_lost<R, S, D, X>(
    pending: Seq<(u64, Option<ReplicaId>)>,
    authority: AuthorityView<R, S, D, X>,
) -> Seq<(u64, Option<ReplicaId>)>
    decreases pending.len(),
{
    if pending.len() == 0 {
        Seq::empty()
    } else {
        let before = not_lost(pending.drop_last(), authority);
        if pending.last().1 is Some || authority.awaits(pending.last().0) {
            before.push(pending.last())
        } else {
            before
        }
    }
}

/// Using numbers for replicas leaves what other machines told alone.
proof fn lemma_after_answers<R, S, D>(
    state: ControllerView<R, S, D>,
    pending: Seq<(u64, Option<ReplicaId>)>,
)
    ensures
        state.after_answers(pending).state.events_in == state.events_in,
        state.after_answers(pending).state.peer == state.peer,
    decreases pending.len(),
{
    if pending.len() > 0 {
        lemma_after_answers(state, pending.drop_last());
    }
}

proof fn lemma_synchronizing<R, S, D>(
    state: ControllerView<R, S, D>,
    ids: Seq<ReplicaId>,
    listed: Seq<ReplicaId>,
)
    ensures
        state.without_unlisted(ids, listed).state.events_in == state.events_in,
        state.without_unlisted(ids, listed).state.peer == state.peer,
        state.with_missing(ids).state.events_in == state.events_in,
        state.with_missing(ids).state.peer == state.peer,
    decreases ids.len(),
{
    if ids.len() > 0 {
        lemma_synchronizing(state, ids.drop_last(), listed);
    }
}

/// Handling what other machines told takes it one by one.
proof fn lemma_after_events<R, S, D>(state: ControllerView<R, S, D>, count: nat)
    ensures
        count <= state.events_in.len() && state.after_events(count).error is None ==>
            state.after_events(count).state.events_in == state.events_in.skip(count as int),
    decreases count,
{
    if count == 0 {
        assert(state.events_in.skip(0) =~= state.events_in);
    } else {
        lemma_after_events(state, (count - 1) as nat);
        let before = state.after_events((count - 1) as nat);
        if count <= state.events_in.len() && before.error is None {
            assert(before.state.events_in.skip(1) =~= state.events_in.skip(count as int));
            let taken = ControllerView {
                events_in: before.state.events_in.skip(1),
                ..before.state
            };
            if let ControllerEventView::SynchronizeReplicaSetResponse(ids) =
                before.state.events_in[0] {
                let kept = taken.without_unlisted(numbers_of(taken.set), ids).state;
                lemma_synchronizing(taken, numbers_of(taken.set), ids);
                lemma_synchronizing(kept, ids, ids);
            }
        }
    }
}

/// Once handling failed, nothing more is handled.
proof fn lemma_stopped<R, S, D>(state: ControllerView<R, S, D>, count: nat, total: nat)
    requires
        count <= total,
        state.after_events(count).error is Some,
    ensures
        state.after_events(total) == state.after_events(count),
    decreases total,
{
    if count < total {
        lemma_stopped(state, count, (total - 1) as nat);
    }
}

/// Once using numbers failed, no more are used.
proof fn lemma_answers_stopped<R, S, D>(
    state: ControllerView<R, S, D>,
    pending: Seq<(u64, Option<ReplicaId>)>,
    count: int,
)
    requires
        0 <= count <= pending.len(),
        state.after_answers(pending.take(count)).error is Some,
    ensures
        state.after_answers(pending) == state.after_answers(pending.take(count)),
    decreases pending.len(),
{
    if count < pending.len() {
        assert(pending.drop_last().take(count) =~= pending.take(count));
        lemma_answers_stopped(state, pending.drop_last(), count);
    } else {
        assert(pending.take(count) =~= pending);
    }
}

/// Once a number was not taken, no more replicas are taken out.
proof fn lemma_unlisted_stopped<R, S, D>(
    state: ControllerView<R, S, D>,
    ids: Seq<ReplicaId>,
    listed: Seq<ReplicaId>,
    count: int,
)
    requires
        0 <= count <= ids.len(),
        state.without_unlisted(ids.take(count), listed).error is Some,
    ensures
        state.without_unlisted(ids, listed) == state.without_unlisted(ids.take(count), listed),
    decreases ids.len(),
{
    if count < ids.len() {
        assert(ids.drop_last().take(count) =~= ids.take(count));
        lemma_unlisted_stopped(state, ids.drop_last(), listed, count);
    } else {
        assert(ids.take(count) =~= ids);
    }
}

/// Once a replica was not taken, no more are added.
proof fn lemma_missing_stopped<R, S, D>(
    state: ControllerView<R, S, D>,
    ids: Seq<ReplicaId>,
    count: int,
)
    requires
        0 <= count <= ids.len(),
        state.with_missing(ids.take(count)).error is Some,
    ensures
        state.with_missing(ids) == state.with_missing(ids.take(count)),
    decreases ids.len(),
{
    if count < ids.len() {
        assert(ids.drop_last().take(count) =~= ids.take(count));
        lemma_missing_stopped(state, ids.drop_last(), count);
    } else {
        assert(ids.take(count) =~= ids);
    }
}

/// Whether a list holds a number.
fn lists(ids: &Vec<ReplicaId>, id: ReplicaId) -> (result: bool)
    ensures
        result == ids@.contains(id),
{
    let mut i: usize = 0;
    while i < ids.len()
        invariant
            i <= ids@.len(),
            forall|k: int| 0 <= k < i ==> ids@[k] != id,
        decreases ids@.len() - i,
    {
        if ids[i] == id {
            assert(ids@[i as int] == id);
            return true;
        }
        i = i + 1;
    }
    false
}

impl<R, S, D> Controller<R, S, D> {
    /// Controls the replicas of a peer through its channels. A machine where the peer is remote
    /// asks for the replicas that there are, and fails if the channel takes no questions.
    pub fn new(
        peer: Peer<R, S, D>,
        controller_channel_id: ChannelId,
        change_channel_id: Option<ChannelId>,
        rpc_channel_id: Option<ChannelId>,
        event_type: u64,
        buffer_type: u64,
        gone: Gone,
    ) -> (result: Result<Self, Error>)
        ensures
            match (
                found_end(
                    peer@.senders,
                    controller_channel_id,
                    event_type,
                    Error::NoSender(controller_channel_id.0),
                ),
                found_end(
                    peer@.receivers,
                    controller_channel_id,
                    event_type,
                    Error::NoReceiver(controller_channel_id.0),
                ),
            ) {
                (Err(error), _) => failure(result) == Some(error),
                (Ok(_), Err(error)) => failure(result) == Some(error),
                (Ok(_), Ok(_)) => if peer@.info.remote && gone.events {
                    failure(result) == Some(Error::ChannelClosed)
                } else {
                    &&& result matches Ok(controller)
                    &&& controller@ == (ControllerView {
                        peer: peer@,
                        set: ReplicaSetView {
                            change: match change_channel_id {
                                Some(channel_id) => bound_to(
                                    LinkView::unbound(),
                                    has_end(peer@.senders, channel_id, buffer_type),
                                    has_end(peer@.receivers, channel_id, buffer_type),
                                ),
                                None => LinkView::unbound(),
                            },
                            rpc: match rpc_channel_id {
                                Some(channel_id) => bound_to(
                                    LinkView::unbound(),
                                    has_end(peer@.senders, channel_id, buffer_type),
                                    has_end(peer@.receivers, channel_id, buffer_type),
                                ),
                                None => LinkView::unbound(),
                            },
                            ..ReplicaSetView::empty()
                        },
                        events_in: Seq::empty(),
                        events_out: if peer@.info.remote {
                            seq![ControllerEventView::SynchronizeReplicaSetRequest]
                        } else {
                            Seq::empty()
                        },
                        pending: Seq::empty(),
                        added: Seq::empty(),
                        removed: Seq::empty(),
                        gone,
                    })
                },
            },
    {
        let mut replica_set = ReplicaSet::new();
        let _ = replica_set.bind_peer(&peer, change_channel_id, rpc_channel_id, buffer_type);
        if let Err(error) = peer.sender(controller_channel_id, event_type) {
            return Err(error);
        }
        if let Err(error) = peer.receiver(controller_channel_id, event_type) {
            return Err(error);
        }
        let mut events_out: VecDeque<ControllerEvent> = VecDeque::new();
        if peer.info().remote {
            if gone.events {
                return Err(Error::ChannelClosed);
            }
            events_out.push_back(ControllerEvent::SynchronizeReplicaSetRequest);
        }
        let controller = Controller {
            peer,
            replica_set,
            events_in: VecDeque::new(),
            events_out,
            pending: Vec::new(),
            added: VecDeque::new(),
            removed: VecDeque::new(),
            gone,
        };
        assert(controller@.events_in =~= Seq::<ControllerEventView>::empty());
        assert(controller@.events_out =~= (if peer@.info.remote {
            seq![ControllerEventView::SynchronizeReplicaSetRequest]
        } else {
            Seq::<ControllerEventView>::empty()
        }));
        Ok(controller)
    }

    pub fn peer(&self) -> (result: &Peer<R, S, D>)
        ensures
            result@ == self@.peer,
    {
        &self.peer
    }

    /// The peer, to be changed.
    pub fn peer_mut(&mut self) -> (result: &mut Peer<R, S, D>)
        ensures
            result@ == old(self)@.peer,
            final(self)@ == (ControllerView { peer: final(result)@, ..old(self)@ }),
    {
        &mut self.peer
    }

    /// Asks the authority for the number of a new replica, if the peer is local. The answer is
    /// known by `reply`.
    pub fn create_replica<Ch, X: TypedPeer<Ch, R, S, D>>(
        &mut self,
        authority: &mut Authority<Ch, R, S, D, X>,
        reply: u64,
    ) -> (result: Result<(), Error>)
        requires
            old(authority)@.role matches Some(RoleView::Server { replicas, .. }) ==> replicas
                < u64::MAX,
        ensures
            if old(self)@.peer.info.remote {
                result is Ok && final(self)@ == old(self)@ && final(authority)@ == old(authority)@
            } else {
                &&& exists|event_id: u128|
                    drawn(event_id) && #[trigger] requests_replica(
                        old(authority)@,
                        reply,
                        true,
                        event_id,
                        final(authority)@,
                        failure(result),
                    )
                &&& final(self)@ == (if result is Ok {
                    ControllerView {
                        pending: old(self)@.pending.push((reply, None)),
                        ..old(self)@
                    }
                } else {
                    old(self)@
                })
            },
    {
        if self.peer.info().remote {
            return Ok(());
        }
        match authority.request_replica_id(reply, true) {
            Err(error) => Err(error),
            Ok(_) => {
                self.pending.push((reply, None));
                Ok(())
            },
        }
    }

    /// Takes note of the number that came as the answer known by `reply`. The first that waits
    /// for it gets it.
    pub fn answer(&mut self, reply: u64, id: ReplicaId)
        ensures
            final(self)@ == (ControllerView {
                pending: answered(old(self)@.pending, reply, id),
                ..old(self)@
            }),
    {
        let ghost pending = self.pending@;
        let mut i: usize = 0;
        assert(pending.skip(0) =~= pending);
        assert(pending.take(0) =~= Seq::<(u64, Option<ReplicaId>)>::empty());
        while i < self.pending.len()
            invariant
                self@ == old(self)@,
                pending == self.pending@,
                i <= pending.len(),
                answered(pending, reply, id) == pending.take(i as int) + answered(
                    pending.skip(i as int),
                    reply,
                    id,
                ),
            decreases pending.len() - i,
        {
            let ghost rest = pending.skip(i as int);
            assert(rest.skip(1) =~= pending.skip(i + 1));
            if self.pending[i].0 == reply && self.pending[i].1.is_none() {
                self.pending.set(i, (reply, Some(id)));
                assert(self.pending@ =~= pending.take(i as int) + rest.update(
                    0,
                    (reply, Some(id)),
                ));
                return;
            }
            assert(pending.take(i as int) + (seq![rest[0]] + answered(rest.skip(1), reply, id))
                =~= pending.take(i + 1) + answered(rest.skip(1), reply, id));
            i = i + 1;
        }
        assert(pending.take(i as int) + answered(pending.skip(i as int), reply, id) =~= pending);
    }

    /// Drops the questions whose answers can no longer come from the authority.
    pub fn forget_lost<Ch, X>(&mut self, authority: &Authority<Ch, R, S, D, X>) where
        X: TypedPeer<Ch, R, S, D>,

        ensures
            final(self)@ == (ControllerView {
                pending: not_lost(old(self)@.pending, authority@),
                ..old(self)@
            }),
    {
        let ghost all = self.pending@;
        let mut kept: Vec<(u64, Option<ReplicaId>)> = Vec::new();
        let mut i: usize = 0;
        assert(all.take(0) =~= Seq::<(u64, Option<ReplicaId>)>::empty());
        while i < self.pending.len()
            invariant
                i <= all.len(),
                self.pending@ == all,
                self@ == old(self)@,
                kept@ == not_lost(all.take(i as int), authority@),
            decreases all.len() - i,
        {
            assert(all.take(i + 1).drop_last() =~= all.take(i as int));
            let question: (u64, Option<ReplicaId>) = self.pending[i];
            if question.1.is_some() || authority.awaits(question.0) {
                kept.push(question);
            }
            i = i + 1;
        }
        assert(all.take(i as int) =~= all);
        self.pending = kept;
    }

    /// Destroys a replica, if the peer is local. Other machines get to know.
    pub fn destroy_replica(&mut self, replica_id: ReplicaId) -> (result: Result<(), Error>)
        ensures
            if old(self)@.peer.info.remote {
                result is Ok && final(self)@ == old(self)@
            } else if !old(self)@.set.has(replica_id) {
                &&& failure(result) == Some(Error::NoReplica(replica_id.0))
                &&& final(self)@.set == old(self)@.set.without_replica(replica_id)
                &&& final(self)@ == (ControllerView { set: final(self)@.set, ..old(self)@ })
            } else {
                let told = (ControllerView {
                    set: old(self)@.set.without_replica(replica_id),
                    ..old(self)@
                }).told(ControllerEventView::DestroyReplica(replica_id));
                final(self)@ == told.state && failure(result) == told.error
            },
    {
        if self.peer.info().remote {
            return Ok(());
        }
        let ghost before = self@;
        if !self.replica_set.destroy(&replica_id) {
            return Err(Error::NoReplica(replica_id.0));
        }
        self.tell(ControllerEvent::DestroyReplica(replica_id))
    }

    /// Takes note of who takes no more of what the controller tells.
    pub fn lose(&mut self, gone: Gone)
        ensures
            final(self)@ == (ControllerView { gone, ..old(self)@ }),
    {
        self.gone = gone;
    }

    /// Tells other machines something. Fails if the channel takes no more of it.
    fn tell(&mut self, event: ControllerEvent) -> (result: Result<(), Error>)
        ensures
            final(self)@ == old(self)@.told(event@).state,
            failure(result) == old(self)@.told(event@).error,
    {
        let ghost before = self@;
        if self.gone.events {
            return Err(Error::ChannelClosed);
        }
        self.events_out.push_back(event);
        assert(self@.events_out =~= before.events_out.push(event@));
        Ok(())
    }

    /// Hands out the number of a replica that is gone. Fails if nobody takes it.
    fn hand_out_removed(&mut self, id: ReplicaId) -> (result: Result<(), Error>)
        ensures
            final(self)@ == old(self)@.with_removed(id).state,
            failure(result) == old(self)@.with_removed(id).error,
    {
        if self.gone.removed {
            return Err(Error::ChannelClosed);
        }
        self.removed.push_back(id);
        Ok(())
    }

    /// The numbers of the replicas, in their order.
    pub fn replicas(&self) -> (result: Vec<ReplicaId>)
        ensures
            result@ == numbers_of(self@.set),
    {
        let result = self.replica_set.iter();
        assert(result@ =~= numbers_of(self@.set));
        result
    }

    /// Adds what another machine told.
    pub fn push_event(&mut self, event: ControllerEvent)
        ensures
            final(self)@ == (ControllerView {
                events_in: old(self)@.events_in.push(event@),
                ..old(self)@
            }),
    {
        let ghost before = self@;
        self.events_in.push_back(event);
        assert(self@.events_in =~= before.events_in.push(event@));
    }

    /// Takes the first thing to tell other machines.
    pub fn take_event(&mut self) -> (result: Option<ControllerEvent>)
        ensures
            old(self)@.events_out.len() == 0 ==> result is None && final(self)@ == old(self)@,
            old(self)@.events_out.len() > 0 ==> {
                &&& result matches Some(event)
                &&& event@ == old(self)@.events_out[0]
                &&& final(self)@ == (ControllerView {
                    events_out: old(self)@.events_out.skip(1),
                    ..old(self)@
                })
            },
    {
        let ghost before = self@;
        let result = self.events_out.pop_front();
        assert(before.events_out.len() > 0 ==> self@.events_out =~= before.events_out.skip(1));
        result
    }

    /// Takes the first replica that is new.
    pub fn take_added(&mut self) -> (result: Option<Replica>)
        ensures
            old(self)@.added.len() == 0 ==> result is None && final(self)@ == old(self)@,
            old(self)@.added.len() > 0 ==> result == Some(old(self)@.added[0]) && final(self)@
                == (ControllerView { added: old(self)@.added.skip(1), ..old(self)@ }),
    {
        let ghost before = self@;
        let result = self.added.pop_front();
        assert(before.added.len() > 0 ==> self@.added =~= before.added.skip(1));
        result
    }

    /// Takes the first replica that is gone.
    pub fn take_removed(&mut self) -> (result: Option<ReplicaId>)
        ensures
            old(self)@.removed.len() == 0 ==> result is None && final(self)@ == old(self)@,
            old(self)@.removed.len() > 0 ==> result == Some(old(self)@.removed[0])
                && final(self)@ == (ControllerView {
                removed: old(self)@.removed.skip(1),
                ..old(self)@
            }),
    {
        let ghost before = self@;
        let result = self.removed.pop_front();
        assert(before.removed.len() > 0 ==> self@.removed =~= before.removed.skip(1));
        result
    }

    /// The set of replicas, to be changed.
    pub fn replica_set_mut(&mut self) -> (result: &mut ReplicaSet)
        ensures
            result@ == old(self)@.set,
            final(self)@ == (ControllerView { set: final(result)@, ..old(self)@ }),
    {
        &mut self.replica_set
    }

    /// Adds a replica.
    fn create(&mut self, id: ReplicaId) -> (result: Result<(), Error>)
        ensures
            final(self)@ == old(self)@.after_creation(id).state,
            failure(result) == old(self)@.after_creation(id).error,
    {
        let ghost before = self@;
        match self.replica_set.create(id) {
            Err(error) => Err(error),
            Ok(replica) => {
                if self.gone.added {
                    self.replica_set.kill(replica);
                    assert(self@ =~= before.after_creation(id).state);
                    return Err(Error::ChannelClosed);
                }
                self.added.push_back(replica);
                assert(self@ =~= before.after_creation(id).state);
                Ok(())
            },
        }
    }

    /// Uses the numbers that came for replicas.
    fn use_answers(&mut self) -> (result: Result<(), Error>)
        ensures
            final(self)@ == old(self)@.after_answers(old(self)@.pending).state,
            failure(result) == old(self)@.after_answers(old(self)@.pending).error,
    {
        let ghost before = self@;
        let mut pending: Vec<(u64, Option<ReplicaId>)> = Vec::new();
        std::mem::swap(&mut pending, &mut self.pending);
        let mut i: usize = 0;
        assert(pending@.take(0) =~= Seq::<(u64, Option<ReplicaId>)>::empty());
        assert(self@ =~= before.after_answers(pending@.take(0)).state);
        while i < pending.len()
            invariant
                before == old(self)@,
                pending@ == before.pending,
                i <= pending@.len(),
                self@ == before.after_answers(pending@.take(i as int)).state,
                before.after_answers(pending@.take(i as int)).error is None,
            decreases pending@.len() - i,
        {
            let ghost taken = pending@.take(i + 1);
            assert(taken.drop_last() =~= pending@.take(i as int));
            assert(taken.last() == pending@[i as int]);
            let (reply, answer): (u64, Option<ReplicaId>) = pending[i];
            match answer {
                None => {
                    self.pending.push((reply, None));
                },
                Some(id) => match self.create(id) {
                    Err(error) => {
                        self.pending = Vec::new();
                        assert(self@ =~= before.after_answers(taken).state);
                        proof {
                            lemma_answers_stopped(before, pending@, i + 1);
                        }
                        return Err(error);
                    },
                    Ok(_) => match self.tell(ControllerEvent::CreateReplica(id)) {
                        Err(error) => {
                            self.pending = Vec::new();
                            assert(self@ =~= before.after_answers(taken).state);
                            proof {
                                lemma_answers_stopped(before, pending@, i + 1);
                            }
                            return Err(error);
                        },
                        Ok(_) => {},
                    },
                },
            }
            assert(self@ =~= before.after_answers(taken).state);
            i = i + 1;
        }
        assert(pending@.take(i as int) =~= pending@);
        Ok(())
    }

    /// Takes out those of the replicas `mine` that are not listed.
    fn drop_unlisted(&mut self, mine: &Vec<ReplicaId>, ids: &Vec<ReplicaId>) -> (result: Result<
        (),
        Error,
    >)
        ensures
            final(self)@ == old(self)@.without_unlisted(mine@, ids@).state,
            failure(result) == old(self)@.without_unlisted(mine@, ids@).error,
    {
        let ghost before = self@;
        let mut i: usize = 0;
        assert(mine@.take(0) =~= Seq::<ReplicaId>::empty());
        while i < mine.len()
            invariant
                before == old(self)@,
                i <= mine@.len(),
                self@ == before.without_unlisted(mine@.take(i as int), ids@).state,
                before.without_unlisted(mine@.take(i as int), ids@).error is None,
            decreases mine@.len() - i,
        {
            let ghost between = self@;
            assert(mine@.take(i + 1).drop_last() =~= mine@.take(i as int));
            if !lists(ids, mine[i]) {
                self.replica_set.destroy(&mine[i]);
                assert(self@ =~= (ControllerView {
                    set: between.set.without_replica(mine@[i as int]),
                    ..between
                }));
                match self.hand_out_removed(mine[i]) {
                    Ok(_) => {},
                    Err(error) => {
                        proof {
                            lemma_unlisted_stopped(before, mine@, ids@, i + 1);
                        }
                        return Err(error);
                    },
                }
            }
            i = i + 1;
        }
        assert(mine@.take(i as int) =~= mine@);
        Ok(())
    }

    /// Adds those of the replicas `ids` that are missing.
    fn add_missing(&mut self, ids: &Vec<ReplicaId>) -> (result: Result<(), Error>)
        ensures
            final(self)@ == old(self)@.with_missing(ids@).state,
            failure(result) == old(self)@.with_missing(ids@).error,
    {
        let ghost before = self@;
        let mut i: usize = 0;
        assert(ids@.take(0) =~= Seq::<ReplicaId>::empty());
        while i < ids.len()
            invariant
                before == old(self)@,
                i <= ids@.len(),
                self@ == before.with_missing(ids@.take(i as int)).state,
                before.with_missing(ids@.take(i as int)).error is None,
            decreases ids@.len() - i,
        {
            assert(ids@.take(i + 1).drop_last() =~= ids@.take(i as int));
            if !self.replica_set.has(&ids[i]) {
                match self.create(ids[i]) {
                    Ok(_) => {},
                    Err(error) => {
                        proof {
                            lemma_missing_stopped(before, ids@, i + 1);
                        }
                        return Err(error);
                    },
                }
            }
            i = i + 1;
        }
        assert(ids@.take(i as int) =~= ids@);
        Ok(())
    }

    /// Makes the replicas those that the ruling machine has.
    fn synchronize(&mut self, ids: &Vec<ReplicaId>) -> (result: Result<(), Error>)
        ensures
            final(self)@ == old(self)@.synchronized(ids@).state,
            failure(result) == old(self)@.synchronized(ids@).error,
    {
        let mine: Vec<ReplicaId> = self.replicas();
        match self.drop_unlisted(&mine, ids) {
            Err(error) => Err(error),
            Ok(_) => self.add_missing(ids),
        }
    }

    /// Handles what another machine told.
    fn handle_event(&mut self, event: ControllerEvent) -> (result: Result<(), Error>)
        ensures
            final(self)@ == old(self)@.after_event(event@).state,
            failure(result) == old(self)@.after_event(event@).error,
    {
        let ghost before = self@;
        match event {
            ControllerEvent::CreateReplica(id) => self.create(id),
            ControllerEvent::DestroyReplica(id) => self.hand_out_removed(id),
            ControllerEvent::SynchronizeReplicaSetRequest => {
                if self.peer.info().remote {
                    return Ok(());
                }
                let ids: Vec<ReplicaId> = self.replicas();
                self.tell(ControllerEvent::SynchronizeReplicaSetResponse(ids))
            },
            ControllerEvent::SynchronizeReplicaSetResponse(ids) => {
                if self.peer.info().remote {
                    self.synchronize(&ids)
                } else {
                    Ok(())
                }
            },
        }
    }

    /// Handles all that other machines told.
    fn drain_events(&mut self) -> (result: Result<(), Error>)
        ensures
            final(self)@ == old(self)@.after_events(old(self)@.events_in.len()).state,
            failure(result) == old(self)@.after_events(old(self)@.events_in.len()).error,
    {
        let ghost before = self@;
        let total: usize = self.events_in.len();
        let mut count: usize = 0;
        while count < total
            invariant
                before == old(self)@,
                count <= total,
                total == before.events_in.len(),
                self@ == before.after_events(count as nat).state,
                before.after_events(count as nat).error is None,
            decreases total - count,
        {
            let ghost between = self@;
            proof {
                lemma_after_events(before, count as nat);
            }
            if let Some(event) = self.events_in.pop_front() {
                assert(event@ == between.events_in[0]);
                assert(self@.events_in =~= between.events_in.skip(1));
                assert(self@ =~= (ControllerView {
                    events_in: between.events_in.skip(1),
                    ..between
                }));
                match self.handle_event(event) {
                    Ok(_) => {},
                    Err(error) => {
                        proof {
                            lemma_stopped(before, (count + 1) as nat, before.events_in.len());
                        }
                        return Err(error);
                    },
                }
            }
            count = count + 1;
        }
        Ok(())
    }

    /// Uses numbers that came, handles what other machines told, and moves what is on its way
    /// between replicas and the peer.
    pub fn maintain(&mut self) -> (result: Result<(), Error>)
        ensures
            final(self)@ == old(self)@.maintained().state,
            failure(result) == old(self)@.maintained().error,
    {
        let ghost before = self@;
        match self.use_answers() {
            Err(error) => Err(error),
            Ok(_) => match self.drain_events() {
                Err(error) => Err(error),
                Ok(_) => {
                    self.replica_set.maintain();
                    Ok(())
                },
            },
        }
    }
}

/// The numbers that were asked for, once one came.
pub open spec fn answered(
    pending: Seq<(u64, Option<ReplicaId>)>,
    reply: u64,
    id: ReplicaId,
) -> Seq<(u64, Option<ReplicaId>)>
    decreases pending.len(),
{
    if pending.len() == 0 {
        pending
    } else if pending[0].0 == reply && pending[0].1 is None {
        pending.update(0, (reply, Some(id)))
    } else {
        seq![pending[0]] + answered(pending.skip(1), reply, id)
    }
}

proof fn lemma_without_unlisted<R, S, D>(
    state: ControllerView<R, S, D>,
    ids: Seq<ReplicaId>,
    listed: Seq<ReplicaId>,
    id: ReplicaId,
)
    requires
        keys_ascend(state.set.change.instances),
        !state.gone.removed,
    ensures
        state.without_unlisted(ids, listed).error is None,
        state.without_unlisted(ids, listed).state.gone == state.gone,
        keys_ascend(state.without_unlisted(ids, listed).state.set.change.instances),
        state.without_unlisted(ids, listed).state.set.has(id) <==> state.set.has(id) && (
        listed.contains(id) || !ids.contains(id)),
    decreases ids.len(),
{
    if ids.len() > 0 {
        let rest = ids.drop_last();
        let before = state.without_unlisted(rest, listed).state;
        lemma_without_unlisted(state, rest, listed, id);
        lemma_contains_last(ids, id);
        if !listed.contains(ids.last()) {
            law_without_key(before.set.change.instances, ids.last().0, id.0);
        }
    }
}

/// A list holds what the rest of it holds, and its last number.
proof fn lemma_contains_last(ids: Seq<ReplicaId>, id: ReplicaId)
    requires
        ids.len() > 0,
    ensures
        ids.contains(id) <==> ids.drop_last().contains(id) || ids.last() == id,
{
    let rest = ids.drop_last();
    if rest.contains(id) {
        let i = choose|i: int| 0 <= i < rest.len() && rest[i] == id;
        assert(ids[i] == id);
    }
    if ids.contains(id) && ids.last() != id {
        let i = choose|i: int| 0 <= i < ids.len() && ids[i] == id;
        assert(rest[i] == id);
    }
    if ids.last() == id {
        assert(ids[ids.len() - 1] == id);
    }
}

/// A set with one more replica has that and those that it had.
proof fn lemma_with_replica(set: ReplicaSetView, id: ReplicaId, other: ReplicaId)
    requires
        keys_ascend(set.change.instances),
    ensures
        keys_ascend(set.with_replica(id).change.instances),
        set.with_replica(id).has(other) <==> set.has(other) || id == other,
{
    law_with_value(set.change.instances, id.0, InstanceView::fresh(set.tickets), other.0);
}

proof fn lemma_with_missing<R, S, D>(
    state: ControllerView<R, S, D>,
    ids: Seq<ReplicaId>,
    id: ReplicaId,
)
    requires
        keys_ascend(state.set.change.instances),
        !state.gone.added,
    ensures
        state.with_missing(ids).error is None,
        state.with_missing(ids).state.gone == state.gone,
        keys_ascend(state.with_missing(ids).state.set.change.instances),
        state.with_missing(ids).state.set.has(id) <==> state.set.has(id) || ids.contains(id),
    decreases ids.len(),
{
    if ids.len() > 0 {
        let before = state.with_missing(ids.drop_last()).state;
        let last = ids.last();
        lemma_with_missing(state, ids.drop_last(), id);
        lemma_contains_last(ids, id);
        if !before.set.has(last) {
            lemma_with_replica(before.set, last, id);
        }
    }
}

/// Once a machine synchronized, it has exactly the replicas that the ruling machine has, as long
/// as somebody takes those that come and go.
pub proof fn law_synchronized<R, S, D>(
    state: ControllerView<R, S, D>,
    ids: Seq<ReplicaId>,
    id: ReplicaId,
)
    requires
        keys_ascend(state.set.change.instances),
        state.peer.info.remote,
        !state.gone.added,
        !state.gone.removed,
    ensures
        state.after_event(
            ControllerEventView::SynchronizeReplicaSetResponse(ids),
        ).error is None,
        state.after_event(
            ControllerEventView::SynchronizeReplicaSetResponse(ids),
        ).state.set.has(id) <==> ids.contains(id),
{
    let mine = numbers_of(state.set);
    let kept = state.without_unlisted(mine, ids).state;
    lemma_without_unlisted(state, mine, ids, id);
    lemma_with_missing(kept, ids, id);
    if state.set.has(id) {
        lemma_place(state.set.change.instances, id.0);
        let at = place_of(state.set.change.instances, id.0);
        assert(mine[at] == id);
    }
}

/// A replica that is said to be gone is handed out as gone, whether the set has it or not, and
/// nothing else changes. If nobody takes it, nothing changes at all.
pub proof fn law_destroyed_replica_is_handed_out<R, S, D>(
    state: ControllerView<R, S, D>,
    id: ReplicaId,
)
    ensures
        ({
            let handled = state.after_event(ControllerEventView::DestroyReplica(id));
            &&& handled.error is None <==> !state.gone.removed
            &&& handled.error is Some ==> handled.error == Some(Error::ChannelClosed)
            &&& handled.error is Some ==> handled.state == state
            &&& handled.error is None ==> handled.state.removed == state.removed.push(id)
            &&& handled.state.set == state.set
            &&& handled.state.added == state.added
            &&& handled.state.events_out == state.events_out
            &&& handled.state.events_in == state.events_in
            &&& handled.state.pending == state.pending
        }),
{
}

/// What the ruling machine tells when it destroys a replica shows up as gone on every other
/// machine that handles it.
pub proof fn law_destruction_reaches_others<R, S, D>(
    ruling: ControllerView<R, S, D>,
    other: ControllerView<R, S, D>,
    id: ReplicaId,
)
    requires
        !ruling.gone.events,
        !other.gone.removed,
    ensures
        ({
            let told = ruling.told(ControllerEventView::DestroyReplica(id));
            let handled = other.after_event(told.state.events_out.last());
            &&& told.error is None
            &&& told.state.events_out.len() == ruling.events_out.len() + 1
            &&& told.state.events_out.drop_last() == ruling.events_out
            &&& handled.error is None
            &&& handled.state.removed == other.removed.push(id)
        }),
{
    let told = ruling.told(ControllerEventView::DestroyReplica(id));
    assert(told.state.events_out.drop_last() =~= ruling.events_out);
}

/// Other machines are told all that there is to tell, in order, as long as the channel takes it.
pub proof fn law_told_in_order<R, S, D>(state: ControllerView<R, S, D>, event: ControllerEventView)
    ensures
        state.told(event).error is None <==> !state.gone.events,
        !state.gone.events ==> state.told(event).state == (ControllerView {
            events_out: state.events_out.push(event),
            ..state
        }),
        state.gone.events ==> state.told(event) == (Controlled {
            state,
            error: Some(Error::ChannelClosed),
        }),
{
}

/// A replica that another machine created is there and is handed out as new, and no other comes
/// or goes. One that is there already is refused, and nothing changes.
pub proof fn law_created_replica_is_handed_out<R, S, D>(
    state: ControllerView<R, S, D>,
    id: ReplicaId,
    other: ReplicaId,
)
    requires
        keys_ascend(state.set.change.instances),
        !state.gone.added,
    ensures
        ({
            let handled = state.after_event(ControllerEventView::CreateReplica(id));
            &&& state.set.has(id) ==> handled.state == state && handled.error == Some(
                Error::ReplicaExists(id.0),
            )
            &&& !state.set.has(id) ==> {
                &&& handled.error is None
                &&& handled.state.set.has(id)
                &&& handled.state.added.len() == state.added.len() + 1
                &&& handled.state.added.drop_last() == state.added
                &&& handled.state.added.last().id == id
            }
            &&& other != id ==> (handled.state.set.has(other) <==> state.set.has(other))
            &&& handled.state.removed == state.removed
            &&& handled.state.events_out == state.events_out
            &&& handled.state.events_in == state.events_in
            &&& handled.state.pending == state.pending
        }),
{
    lemma_with_replica(state.set, id, id);
    lemma_with_replica(state.set, id, other);
    let handled = state.after_event(ControllerEventView::CreateReplica(id));
    if !state.set.has(id) {
        assert(handled.state.added.drop_last() =~= state.added);
    }
}

/// A replica that came and that nobody takes is there until it is buried, and the error says
/// that nobody takes it.
pub proof fn law_untaken_replica_is_buried<R, S, D>(
    state: ControllerView<R, S, D>,
    id: ReplicaId,
)
    requires
        keys_ascend(state.set.change.instances),
        !state.set.has(id),
        state.gone.added,
    ensures
        ({
            let handled = state.after_event(ControllerEventView::CreateReplica(id));
            &&& handled.error == Some(Error::ChannelClosed)
            &&& handled.state.added == state.added
            &&& handled.state.set.has(id)
            &&& handled.state.set.killed.len() == state.set.killed.len() + 1
            &&& handled.state.set.killed.drop_last() == state.set.killed
            &&& handled.state.set.killed.last().id == id
        }),
{
    lemma_with_replica(state.set, id, id);
    let handled = state.after_event(ControllerEventView::CreateReplica(id));
    assert(handled.state.set.killed.drop_last() =~= state.set.killed);
}

/// The machine where the peer is local answers the question for its replicas with all that it
/// has and no others, and changes nothing else; other machines do not answer.
pub proof fn law_question_is_answered<R, S, D>(state: ControllerView<R, S, D>, id: ReplicaId)
    requires
        !state.gone.events,
    ensures
        ({
            let handled = state.after_event(ControllerEventView::SynchronizeReplicaSetRequest);
            &&& handled.error is None
            &&& state.peer.info.remote ==> handled.state == state
            &&& !state.peer.info.remote ==> {
                &&& handled.state.events_out.len() == state.events_out.len() + 1
                &&& handled.state.events_out.drop_last() == state.events_out
                &&& handled.state.events_out.last()
                    matches ControllerEventView::SynchronizeReplicaSetResponse(ids)
                    && (ids.contains(id) <==> state.set.has(id))
                &&& handled.state.set == state.set
                &&& handled.state.added == state.added
                &&& handled.state.removed == state.removed
            }
        }),
{
    let handled = state.after_event(ControllerEventView::SynchronizeReplicaSetRequest);
    lemma_numbers(state.set, id);
    if !state.peer.info.remote {
        assert(handled.state.events_out.drop_last() =~= state.events_out);
    }
}

/// The numbers of a set are those of its replicas.
proof fn lemma_numbers(set: ReplicaSetView, id: ReplicaId)
    ensures
        numbers_of(set).contains(id) <==> set.has(id),
{
    let numbers = numbers_of(set);
    if set.has(id) {
        let i = choose|i: int|
            0 <= i < set.change.instances.len() && (#[trigger] set.change.instances[i]).0 == id.0;
        assert(numbers[i] == id);
    }
    if numbers.contains(id) {
        let i = choose|i: int| 0 <= i < numbers.len() && numbers[i] == id;
        assert(set.change.instances[i].0 == id.0);
    }
}

/// A machine that asked the ruling one and handles the answer has exactly the replicas that the
/// ruling machine has. The ruling machine itself heeds no such answer.
pub proof fn law_question_and_answer_synchronize<R, S, D>(
    ruling: ControllerView<R, S, D>,
    other: ControllerView<R, S, D>,
    id: ReplicaId,
)
    requires
        keys_ascend(other.set.change.instances),
        !ruling.peer.info.remote,
        !ruling.gone.events,
        other.peer.info.remote,
        !other.gone.added,
        !other.gone.removed,
    ensures
        ({
            let answer = ruling.after_event(
                ControllerEventView::SynchronizeReplicaSetRequest,
            ).state.events_out.last();
            &&& other.after_event(answer).error is None
            &&& other.after_event(answer).state.set.has(id) <==> ruling.set.has(id)
            &&& ruling.after_event(answer) == (Controlled { state: ruling, error: None })
        }),
{
    law_question_is_answered(ruling, id);
    let answer = ruling.after_event(
        ControllerEventView::SynchronizeReplicaSetRequest,
    ).state.events_out.last();
    if let ControllerEventView::SynchronizeReplicaSetResponse(ids) = answer {
        law_synchronized(other, ids, id);
    }
}

/// Replicas that go while a machine synchronizes are handed out as gone, and those that come as
/// new; the others are not handed out.
pub proof fn law_synchronizing_hands_out<R, S, D>(
    state: ControllerView<R, S, D>,
    ids: Seq<ReplicaId>,
    id: ReplicaId,
)
    requires
        keys_ascend(state.set.change.instances),
        state.peer.info.remote,
        !state.gone.added,
        !state.gone.removed,
        state.removed.len() == 0,
        state.added.len() == 0,
    ensures
        ({
            let handled = state.after_event(
                ControllerEventView::SynchronizeReplicaSetResponse(ids),
            );
            &&& handled.state.removed.contains(id) <==> state.set.has(id) && !ids.contains(id)
            &&& (exists|i: int|
                0 <= i < handled.state.added.len() && (#[trigger] handled.state.added[i]).id == id)
                <==> ids.contains(id) && !state.set.has(id)
            &&& handled.state.events_out == state.events_out
        }),
{
    let mine = numbers_of(state.set);
    let kept = state.without_unlisted(mine, ids).state;
    lemma_without_unlisted(state, mine, ids, id);
    lemma_unlisted_are_handed_out(state, mine, ids, id);
    lemma_missing_are_handed_out(kept, ids, id);
    lemma_numbers(state.set, id);
}

proof fn lemma_unlisted_are_handed_out<R, S, D>(
    state: ControllerView<R, S, D>,
    ids: Seq<ReplicaId>,
    listed: Seq<ReplicaId>,
    id: ReplicaId,
)
    requires
        !state.gone.removed,
        keys_ascend(state.set.change.instances),
        state.removed.len() == 0,
    ensures
        state.without_unlisted(ids, listed).state.removed.contains(id) <==> ids.contains(id)
            && !listed.contains(id),
        state.without_unlisted(ids, listed).state.added == state.added,
        state.without_unlisted(ids, listed).state.events_out == state.events_out,
    decreases ids.len(),
{
    if ids.len() > 0 {
        lemma_without_unlisted(state, ids.drop_last(), listed, id);
        lemma_unlisted_are_handed_out(state, ids.drop_last(), listed, id);
        lemma_contains_last(ids, id);
        let before = state.without_unlisted(ids.drop_last(), listed).state;
        if !listed.contains(ids.last()) {
            let after = before.removed.push(ids.last());
            assert(after.drop_last() =~= before.removed);
            lemma_contains_last(after, id);
        }
    }
}

proof fn lemma_missing_are_handed_out<R, S, D>(
    state: ControllerView<R, S, D>,
    ids: Seq<ReplicaId>,
    id: ReplicaId,
)
    requires
        !state.gone.added,
        keys_ascend(state.set.change.instances),
        state.added.len() == 0,
    ensures
        ({
            let after = state.with_missing(ids).state;
            &&& (exists|i: int| 0 <= i < after.added.len() && (#[trigger] after.added[i]).id == id)
                <==> ids.contains(id) && !state.set.has(id)
            &&& after.removed == state.removed
            &&& after.events_out == state.events_out
        }),
    decreases ids.len(),
{
    if ids.len() > 0 {
        let last = ids.last();
        let before = state.with_missing(ids.drop_last()).state;
        let after = state.with_missing(ids).state;
        lemma_with_missing(state, ids.drop_last(), id);
        lemma_with_missing(state, ids.drop_last(), last);
        lemma_missing_are_handed_out(state, ids.drop_last(), id);
        lemma_missing_are_handed_out(state, ids.drop_last(), last);
        lemma_contains_last(ids, id);
        if !before.set.has(last) {
            assert(after.added == before.added.push(before.set.next_replica(last)));
            if exists|i: int| 0 <= i < before.added.len() && (#[trigger] before.added[i]).id == id {
                let i = choose|i: int|
                    0 <= i < before.added.len() && (#[trigger] before.added[i]).id == id;
                assert(after.added[i].id == id);
            }
            if last == id {
                assert(after.added[before.added.len() as int].id == id);
            }
            if exists|i: int| 0 <= i < after.added.len() && (#[trigger] after.added[i]).id == id {
                let i = choose|i: int|
                    0 <= i < after.added.len() && (#[trigger] after.added[i]).id == id;
                if i < before.added.len() {
                    assert(before.added[i].id == id);
                }
            }
        }
    }
}

/// Each number that came becomes a replica, which is handed out as new and of which other
/// machines are told; questions without an answer wait on.
pub proof fn law_answers_become_replicas<R, S, D>(
    state: ControllerView<R, S, D>,
    pending: Seq<(u64, Option<ReplicaId>)>,
    place: int,
)
    requires
        keys_ascend(state.set.change.instances),
        state.after_answers(pending).error is None,
        0 <= place < pending.len(),
    ensures
        pending[place].1 is None ==> state.after_answers(pending).state.pending.contains(
            pending[place],
        ),
        pending[place].1 matches Some(id) ==> {
            let after = state.after_answers(pending).state;
            &&& after.set.has(id)
            &&& !state.set.has(id)
            &&& after.events_out.contains(ControllerEventView::CreateReplica(id))
            &&& exists|i: int| 0 <= i < after.added.len() && (#[trigger] after.added[i]).id == id
        },
        state.after_answers(pending).state.events_out.len() + state.after_answers(
            pending,
        ).state.pending.len() == state.events_out.len() + pending.len(),
        state.after_answers(pending).state.added.len() + state.after_answers(
            pending,
        ).state.pending.len() == state.added.len() + pending.len(),
        state.after_answers(pending).state.removed == state.removed,
    decreases pending.len(),
{
    lemma_answers_keep_order(state, pending);
    let rest = pending.drop_last();
    let before = state.after_answers(rest).state;
    let after = state.after_answers(pending).state;
    lemma_answers_keep_order(state, rest);
    if rest.len() > 0 {
        law_answers_become_replicas(state, rest, 0);
    } else {
        assert(before == (ControllerView { pending: Seq::empty(), ..state }));
    }
    match pending.last().1 {
        None => {
            assert(after.pending == before.pending.push(pending.last()));
            assert(after.pending[before.pending.len() as int] == pending.last());
            if place < rest.len() {
                law_answers_become_replicas(state, rest, place);
                if pending[place].1 is None {
                    let i = choose|i: int|
                        0 <= i < before.pending.len() && before.pending[i] == pending[place];
                    assert(after.pending[i] == pending[place]);
                }
                if let Some(earlier) = pending[place].1 {
                    let k = choose|k: int|
                        0 <= k < before.added.len() && (#[trigger] before.added[k]).id == earlier;
                    assert(after.added[k].id == earlier);
                }
            }
        },
        Some(id) => {
            let told = ControllerEventView::CreateReplica(id);
            assert(after.events_out == before.events_out.push(told));
            assert(after.events_out[before.events_out.len() as int] == told);
            assert(after.added == before.added.push(before.set.next_replica(id)));
            assert(after.added[before.added.len() as int].id == id);
            lemma_with_replica(before.set, id, id);
            if state.set.has(id) {
                lemma_answers_only_add(state, rest, id);
            }
            if place < rest.len() {
                law_answers_become_replicas(state, rest, place);
                if let Some(earlier) = pending[place].1 {
                    lemma_with_replica(before.set, id, earlier);
                    let created = ControllerEventView::CreateReplica(earlier);
                    let i = choose|i: int|
                        0 <= i < before.events_out.len() && before.events_out[i] == created;
                    assert(after.events_out[i] == created);
                    let k = choose|k: int|
                        0 <= k < before.added.len() && (#[trigger] before.added[k]).id == earlier;
                    assert(after.added[k].id == earlier);
                }
            }
        },
    }
}

/// Using numbers takes no replica away.
proof fn lemma_answers_only_add<R, S, D>(
    state: ControllerView<R, S, D>,
    pending: Seq<(u64, Option<ReplicaId>)>,
    id: ReplicaId,
)
    requires
        keys_ascend(state.set.change.instances),
        state.after_answers(pending).error is None,
        state.set.has(id),
    ensures
        state.after_answers(pending).state.set.has(id),
    decreases pending.len(),
{
    if pending.len() > 0 {
        let before = state.after_answers(pending.drop_last()).state;
        lemma_answers_only_add(state, pending.drop_last(), id);
        lemma_answers_keep_order(state, pending.drop_last());
        if let Some(made) = pending.last().1 {
            lemma_with_replica(before.set, made, id);
        }
    }
}

proof fn lemma_answers_keep_order<R, S, D>(
    state: ControllerView<R, S, D>,
    pending: Seq<(u64, Option<ReplicaId>)>,
)
    requires
        keys_ascend(state.set.change.instances),
        state.after_answers(pending).error is None,
    ensures
        keys_ascend(state.after_answers(pending).state.set.change.instances),
    decreases pending.len(),
{
    if pending.len() > 0 {
        lemma_answers_keep_order(state, pending.drop_last());
        if let Some(id) = pending.last().1 {
            lemma_with_replica(state.after_answers(pending.drop_last()).state.set, id, id);
        }
    }
}

/// What other machines told is handled in the order in which it came: the first thing first,
/// and then what is behind it.
pub proof fn law_events_are_handled_in_order<R, S, D>(state: ControllerView<R, S, D>, count: nat)
    requires
        count < state.events_in.len(),
    ensures
        ({
            let first = (ControllerView {
                events_in: state.events_in.skip(1),
                ..state
            }).after_event(state.events_in[0]);
            &&& first.error is None ==> state.after_events(count + 1) == first.state.after_events(
                count,
            )
            &&& first.error is Some ==> state.after_events(count + 1) == first
        }),
    decreases count,
{
    let first = (ControllerView {
        events_in: state.events_in.skip(1),
        ..state
    }).after_event(state.events_in[0]);
    assert(state.after_events(0) == (Controlled { state, error: None }));
    assert(state.after_events(1) == first);
    if first.error is Some {
        lemma_stopped(state, 1, count + 1);
    } else if count > 0 {
        law_events_are_handled_in_order(state, (count - 1) as nat);
    } else {
        assert(first.state.after_events(0) == (Controlled { state: first.state, error: None }));
    }
}

/// A round of work without an error leaves nothing that other machines told unhandled.
pub proof fn law_maintained_handles_all<R, S, D>(state: ControllerView<R, S, D>)
    requires
        state.maintained().error is None,
    ensures
        state.maintained().state.events_in.len() == 0,
        forall|i: int|
            0 <= i < state.maintained().state.pending.len() ==> (
            #[trigger] state.maintained().state.pending[i]).1 is None,
{
    let answered = state.after_answers(state.pending);
    lemma_after_events(answered.state, answered.state.events_in.len());
    lemma_left_questions(state, state.pending);
    lemma_events_leave_questions(answered.state, answered.state.events_in.len());
}

proof fn lemma_left_questions<R, S, D>(
    state: ControllerView<R, S, D>,
    pending: Seq<(u64, Option<ReplicaId>)>,
)
    ensures
        state.after_answers(pending).error is None ==> forall|i: int|
            0 <= i < state.after_answers(pending).state.pending.len() ==> (
            #[trigger] state.after_answers(pending).state.pending[i]).1 is None,
    decreases pending.len(),
{
    if pending.len() > 0 {
        lemma_left_questions(state, pending.drop_last());
    }
}

proof fn lemma_events_leave_questions<R, S, D>(state: ControllerView<R, S, D>, count: nat)
    ensures
        state.after_events(count).state.pending == state.pending,
    decreases count,
{
    if count > 0 {
        lemma_events_leave_questions(state, (count - 1) as nat);
        let before = state.after_events((count - 1) as nat);
        if before.error is None && before.state.events_in.len() > 0 {
            let taken = ControllerView {
                events_in: before.state.events_in.skip(1),
                ..before.state
            };
            if let ControllerEventView::SynchronizeReplicaSetResponse(ids) =
                before.state.events_in[0] {
                let kept = taken.without_unlisted(numbers_of(taken.set), ids).state;
                lemma_synchronizing_leaves_questions(taken, numbers_of(taken.set), ids);
                lemma_synchronizing_leaves_questions(kept, ids, ids);
            }
        }
    }
}

proof fn lemma_synchronizing_leaves_questions<R, S, D>(
    state: ControllerView<R, S, D>,
    ids: Seq<ReplicaId>,
    listed: Seq<ReplicaId>,
)
    ensures
        state.without_unlisted(ids, listed).state.pending == state.pending,
        state.with_missing(ids).state.pending == state.pending,
    decreases ids.len(),
{
    if ids.len() > 0 {
        lemma_synchronizing_leaves_questions(state, ids.drop_last(), listed);
    }
}

/// An answer goes to the first question that waits for it and to no other; where none waits,
/// nothing changes.
pub proof fn law_first_question_is_answered(
    pending: Seq<(u64, Option<ReplicaId>)>,
    reply: u64,
    id: ReplicaId,
    place: int,
)
    requires
        0 <= place <= pending.len(),
        forall|i: int|
            0 <= i < place ==> (#[trigger] pending[i]).0 != reply || pending[i].1 is Some,
        place < pending.len() ==> pending[place] == (reply, None::<ReplicaId>),
    ensures
        place < pending.len() ==> answered(pending, reply, id) == pending.update(
            place,
            (reply, Some(id)),
        ),
        place == pending.len() ==> answered(pending, reply, id) == pending,
    decreases pending.len(),
{
    if place > 0 {
        let rest = pending.skip(1);
        assert forall|i: int| 0 <= i < place - 1 implies (#[trigger] rest[i]).0 != reply
            || rest[i].1 is Some by {
            assert(rest[i] == pending[i + 1]);
        }
        assert(pending[0].0 != reply || pending[0].1 is Some);
        law_first_question_is_answered(rest, reply, id, place - 1);
        assert(seq![pending[0]] + rest =~= pending);
        if place < pending.len() {
            assert(seq![pending[0]] + rest.update(place - 1, (reply, Some(id)))
                =~= pending.update(place, (reply, Some(id))));
        }
    }
}

/// The questions that are kept are those with an answer and those for which the authority still
/// waits.
pub proof fn law_kept_questions<R, S, D, X>(
    pending: Seq<(u64, Option<ReplicaId>)>,
    authority: AuthorityView<R, S, D, X>,
    question: (u64, Option<ReplicaId>),
)
    ensures
        not_lost(pending, authority).contains(question) <==> pending.contains(question) && (
        question.1 is Some || authority.awaits(question.0)),
        not_lost(pending, authority).len() <= pending.len(),
    decreases pending.len(),
{
    if pending.len() > 0 {
        let rest = pending.drop_last();
        let before = not_lost(rest, authority);
        let kept = not_lost(pending, authority);
        law_kept_questions(rest, authority, question);
        if rest.contains(question) {
            let i = choose|i: int| 0 <= i < rest.len() && rest[i] == question;
            assert(pending[i] == question);
        }
        if pending.contains(question) && pending.last() != question {
            let i = choose|i: int| 0 <= i < pending.len() && pending[i] == question;
            assert(rest[i] == question);
        }
        if pending.last() == question {
            assert(pending[pending.len() - 1] == question);
        }
        if before.contains(question) {
            let i = choose|i: int| 0 <= i < before.len() && before[i] == question;
            assert(kept[i] == question);
        }
        if kept.len() > before.len() {
            assert(kept[before.len() as int] == pending.last());
            if kept.contains(question) && pending.last() != question {
                let i = choose|i: int| 0 <= i < kept.len() && kept[i] == question;
                assert(before[i] == question);
            }
        }
    }
}

} // verus!
