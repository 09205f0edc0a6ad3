//! Where peers gather.

use std::collections::VecDeque;
use vstd::prelude::*;

use crate::channel::Pump;
use crate::engine::{DescriptorView, EnginePeerDescriptor};
use crate::error::Error;
use crate::ordered_map::{
    has_key, keys_ascend, lemma_same_keys, lemma_viewed, lemma_viewed_update, value_of, viewed, with_value,
    without_key, OrderedMap,
};
use crate::peer::{
    creates, takes_every_builder, FactoryView, Peer, PeerBuildResult, PeerBuilder, PeerFactory,
    PeerId, PeerInfo, PeerRoleId, PeerView,
};
use crate::wire::failure;

verus! {

broadcast use vstd::std_specs::vecdeque::group_vec_dequeue_axioms;

/// What a meeting and the machine that runs it tell each other.
pub enum MeetingEngineEvent {
    MeetingDestroyed,
    PeerCreated(EnginePeerDescriptor),
    PeerDestroyed(PeerId),
    PeerJoined(PeerId, PeerRoleId),
    PeerLeft(PeerId),
}

/// What a [`MeetingEngineEvent`] says.
#[verifier::ext_equal]
pub enum EngineEventView {
    MeetingDestroyed,
    PeerCreated(DescriptorView),
    PeerDestroyed(PeerId),
    PeerJoined(PeerId, PeerRoleId),
    PeerLeft(PeerId),
}

impl View for MeetingEngineEvent {
    type V = EngineEventView;

    open spec fn view(&self) -> EngineEventView {
        match self {
            MeetingEngineEvent::MeetingDestroyed => EngineEventView::MeetingDestroyed,
            MeetingEngineEvent::PeerCreated(descriptor) => EngineEventView::PeerCreated(
                descriptor@,
            ),
            MeetingEngineEvent::PeerDestroyed(peer_id) => EngineEventView::PeerDestroyed(*peer_id),
            MeetingEngineEvent::PeerJoined(peer_id, role_id) => EngineEventView::PeerJoined(
                *peer_id,
                *role_id,
            ),
            MeetingEngineEvent::PeerLeft(peer_id) => EngineEventView::PeerLeft(*peer_id),
        }
    }
}

/// What a meeting and its user tell each other.
pub enum MeetingUserEvent<R, S, D> {
    PeerCreate(PeerId, PeerRoleId),
    PeerDestroy(PeerId),
    PeerAdded(Peer<R, S, D>),
    PeerRemoved(PeerId),
}

/// What a [`MeetingUserEvent`] says.
#[verifier::ext_equal]
pub enum UserEventView<R, S, D> {
    PeerCreate(PeerId, PeerRoleId),
    PeerDestroy(PeerId),
    PeerAdded(PeerView<R, S, D>),
    PeerRemoved(PeerId),
}

impl<R, S, D> View for MeetingUserEvent<R, S, D> {
    type V = UserEventView<R, S, D>;

    open spec fn view(&self) -> UserEventView<R, S, D> {
        match self {
            MeetingUserEvent::PeerCreate(peer_id, role_id) => UserEventView::PeerCreate(
                *peer_id,
                *role_id,
            ),
            MeetingUserEvent::PeerDestroy(peer_id) => UserEventView::PeerDestroy(*peer_id),
            MeetingUserEvent::PeerAdded(peer) => UserEventView::PeerAdded(peer@),
            MeetingUserEvent::PeerRemoved(peer_id) => UserEventView::PeerRemoved(*peer_id),
        }
    }
}

/// What events of the machine say, one by one.
pub open spec fn engine_events(events: Seq<MeetingEngineEvent>) -> Seq<EngineEventView> {
    events.map_values(|event: MeetingEngineEvent| event@)
}

/// What events of the user say, one by one.
pub open spec fn user_events<R, S, D>(events: Seq<MeetingUserEvent<R, S, D>>) -> Seq<
    UserEventView<R, S, D>,
> {
    events.map_values(|event: MeetingUserEvent<R, S, D>| event@)
}

/// User-side container for peers and channels.
/// The goal of a meeting is to replicate a multi-peer environment.
pub struct Meeting<Ch, R, S, D, F> {
    factory: PeerFactory<F, D>,
    engine_inbox: VecDeque<MeetingEngineEvent>,
    engine_outbox: VecDeque<MeetingEngineEvent>,
    user_inbox: VecDeque<MeetingUserEvent<R, S, D>>,
    user_outbox: VecDeque<MeetingUserEvent<R, S, D>>,
    engine_gone: bool,
    user_gone: bool,
    peers: OrderedMap<Vec<Ch>>,
    name: String,
}

/// What a [`Meeting`] holds.
#[verifier::ext_equal]
pub struct MeetingView<Ch, R, S, D, F> {
    /// How peers of each role get their channels.
    pub factory: FactoryView<F, D>,
    /// Events from the machine that wait to be handled.
    pub engine_in: Seq<EngineEventView>,
    /// Events for the machine.
    pub engine_out: Seq<EngineEventView>,
    /// Events from the user that wait to be handled.
    pub user_in: Seq<UserEventView<R, S, D>>,
    /// Events for the user.
    pub user_out: Seq<UserEventView<R, S, D>>,
    /// Whether the machine takes no more events.
    pub engine_gone: bool,
    /// Whether the user takes no more events.
    pub user_gone: bool,
    /// The channels of each peer.
    pub peers: Seq<(u64, Seq<Ch>)>,
    pub name: Seq<char>,
}

impl<Ch, R, S, D, F> View for Meeting<Ch, R, S, D, F> {
    type V = MeetingView<Ch, R, S, D, F>;

    closed spec fn view(&self) -> MeetingView<Ch, R, S, D, F> {
        MeetingView {
            factory: self.factory@,
            engine_in: engine_events(self.engine_inbox@),
            engine_out: engine_events(self.engine_outbox@),
            user_in: user_events(self.user_inbox@),
            user_out: user_events(self.user_outbox@),
            engine_gone: self.engine_gone,
            user_gone: self.user_gone,
            peers: viewed(self.peers@),
            name: self.name@,
        }
    }
}

impl<Ch, R, S, D, F> MeetingView<Ch, R, S, D, F> where
    F: Fn(PeerBuilder<Ch, R, S, D>) -> Result<PeerBuilder<Ch, R, S, D>, Error>,
 {
    /// The meeting once the machine was told something, or why it could not be told.
    pub open spec fn told_engine(self, event: EngineEventView) -> (Self, Option<Error>) {
        if self.engine_gone {
            (self, Some(Error::ChannelClosed))
        } else {
            (MeetingView { engine_out: self.engine_out.push(event), ..self }, None)
        }
    }

    /// The meeting once the user was told something, or why they could not be told.
    pub open spec fn told_user(self, event: UserEventView<R, S, D>) -> (Self, Option<Error>) {
        if self.user_gone {
            (self, Some(Error::ChannelClosed))
        } else {
            (MeetingView { user_out: self.user_out.push(event), ..self }, None)
        }
    }

    /// The meeting once first the machine was told something and then the user, or why one of
    /// them could not be told.
    pub open spec fn told_both(
        self,
        engine: EngineEventView,
        user: UserEventView<R, S, D>,
    ) -> (Self, Option<Error>) {
        let first = self.told_engine(engine);
        if first.1 is Some {
            first
        } else {
            first.0.told_user(user)
        }
    }

    /// Whether taking in a new peer can give `after`, or fail with `error`.
    pub open spec fn peer_made(self, info: PeerInfo, after: Self, error: Option<Error>) -> bool {
        exists|made: Result<PeerBuildResult<Ch, R, S, D>, Error>|
            {
                &&& creates::<Ch, R, S, D, F>(self.factory, PeerView::<R, S, D>::fresh(info), made)
                &&& #[trigger] self.took_in(made, after, error)
            }
    }

    /// Whether taking in what was made for a new peer gives `after`, or fails with `error`.
    pub open spec fn took_in(
        self,
        made: Result<PeerBuildResult<Ch, R, S, D>, Error>,
        after: Self,
        error: Option<Error>,
    ) -> bool {
        match made {
            Err(reason) => error == Some(reason) && after == self,
            Ok(built) => {
                let peer_id = built.peer@.info.peer_id;
                if has_key(self.peers, peer_id.0) {
                    error == Some(Error::PeerExists(peer_id.0)) && after == self
                } else {
                    (after, error) == (MeetingView {
                        peers: with_value(self.peers, peer_id.0, built.channels@),
                        ..self
                    }).told_both(
                        EngineEventView::PeerCreated(built.descriptor@),
                        UserEventView::PeerAdded(built.peer@),
                    )
                }
            },
        }
    }

    /// Whether handling an event from the machine can give `after`, or fail with `error`.
    pub open spec fn handles_engine(
        self,
        event: EngineEventView,
        after: Self,
        error: Option<Error>,
    ) -> bool {
        match event {
            EngineEventView::PeerJoined(peer_id, role_id) => self.peer_made(
                PeerInfo { peer_id, role_id, remote: true },
                after,
                error,
            ),
            EngineEventView::PeerLeft(peer_id) => {
                let without = MeetingView { peers: without_key(self.peers, peer_id.0), ..self };
                (after, error) == if has_key(self.peers, peer_id.0) {
                    without.told_both(
                        EngineEventView::PeerDestroyed(peer_id),
                        UserEventView::PeerRemoved(peer_id),
                    )
                } else {
                    without.told_user(UserEventView::PeerRemoved(peer_id))
                }
            },
            _ => error is None && after == self,
        }
    }

    /// Whether handling an event from the user can give `after`, or fail with `error`.
    pub open spec fn handles_user(
        self,
        event: UserEventView<R, S, D>,
        after: Self,
        error: Option<Error>,
    ) -> bool {
        match event {
            UserEventView::PeerCreate(peer_id, role_id) => self.peer_made(
                PeerInfo { peer_id, role_id, remote: false },
                after,
                error,
            ),
            UserEventView::PeerDestroy(peer_id) => {
                if has_key(self.peers, peer_id.0) {
                    (after, error) == (MeetingView {
                        peers: without_key(self.peers, peer_id.0),
                        ..self
                    }).told_both(
                        EngineEventView::PeerLeft(peer_id),
                        UserEventView::PeerRemoved(peer_id),
                    )
                } else {
                    error is None && after == self
                }
            },
            _ => error is None && after == self,
        }
    }

    /// Whether handling the first machine event that waits can give `after`, or fail with `error`.
    /// An event that fails is gone.
    pub open spec fn engine_stepped(self, after: Self, error: Option<Error>) -> bool {
        &&& self.engine_in.len() > 0
        &&& (MeetingView { engine_in: self.engine_in.skip(1), ..self }).handles_engine(
            self.engine_in[0],
            after,
            error,
        )
    }

    /// Whether handling `count` machine events, one after the other, can give `after`.
    pub open spec fn engine_drained(self, count: nat, after: Self) -> bool
        decreases count,
    {
        if count == 0 {
            after == self
        } else {
            exists|between: Self|
                {
                    &&& self.engine_drained((count - 1) as nat, between)
                    &&& #[trigger] between.engine_stepped(after, None)
                }
        }
    }

    /// Whether one more machine event behind `count` others can fail with `error`.
    pub open spec fn engine_failed_behind(self, count: nat, after: Self, error: Error) -> bool {
        self.engine_stepped(after, Some(error))
    }

    /// Whether handling all machine events, up to the first that fails, can give `after`.
    pub open spec fn engine_phase(self, after: Self, error: Option<Error>) -> bool {
        match error {
            None => self.engine_drained(self.engine_in.len(), after),
            Some(reason) => exists|count: nat, between: Self|
                {
                    &&& count < self.engine_in.len()
                    &&& self.engine_drained(count, between)
                    &&& #[trigger] between.engine_failed_behind(count, after, reason)
                },
        }
    }

    /// Handling machine events leaves so many fewer to wait, and the rest of what waits alone.
    pub proof fn lemma_engine_drained(self, count: nat, after: Self)
        requires
            self.engine_drained(count, after),
        ensures
            count <= self.engine_in.len(),
            after.engine_in == self.engine_in.skip(count as int),
            after.user_in == self.user_in,
            after.factory == self.factory,
        decreases count,
    {
        if count > 0 {
            let between = choose|between: Self|
                {
                    &&& self.engine_drained((count - 1) as nat, between)
                    &&& #[trigger] between.engine_stepped(after, None)
                };
            self.lemma_engine_drained((count - 1) as nat, between);
            assert(between.engine_in.skip(1) =~= self.engine_in.skip(count as int));
        } else {
            assert(self.engine_in.skip(0) =~= self.engine_in);
        }
    }

    /// Whether handling the first user event that waits can give `after`, or fail with `error`.
    /// An event that fails is gone.
    pub open spec fn user_stepped(self, after: Self, error: Option<Error>) -> bool {
        &&& self.user_in.len() > 0
        &&& (MeetingView { user_in: self.user_in.skip(1), ..self }).handles_user(
            self.user_in[0],
            after,
            error,
        )
    }

    /// Whether handling `count` user events, one after the other, can give `after`.
    pub open spec fn user_drained(self, count: nat, after: Self) -> bool
        decreases count,
    {
        if count == 0 {
            after == self
        } else {
            exists|between: Self|
                {
                    &&& self.user_drained((count - 1) as nat, between)
                    &&& #[trigger] between.user_stepped(after, None)
                }
        }
    }

    /// Whether one more user event behind `count` others can fail with `error`.
    pub open spec fn user_failed_behind(self, count: nat, after: Self, error: Error) -> bool {
        self.user_stepped(after, Some(error))
    }

    /// Whether handling all user events, up to the first that fails, can give `after`.
    pub open spec fn user_phase(self, after: Self, error: Option<Error>) -> bool {
        match error {
            None => self.user_drained(self.user_in.len(), after),
            Some(reason) => exists|count: nat, between: Self|
                {
                    &&& count < self.user_in.len()
                    &&& self.user_drained(count, between)
                    &&& #[trigger] between.user_failed_behind(count, after, reason)
                },
        }
    }

    /// Handling user events leaves so many fewer to wait, and the rest of what waits alone.
    pub proof fn lemma_user_drained(self, count: nat, after: Self)
        requires
            self.user_drained(count, after),
        ensures
            count <= self.user_in.len(),
            after.user_in == self.user_in.skip(count as int),
            after.engine_in == self.engine_in,
            after.factory == self.factory,
        decreases count,
    {
        if count > 0 {
            let between = choose|between: Self|
                {
                    &&& self.user_drained((count - 1) as nat, between)
                    &&& #[trigger] between.user_stepped(after, None)
                };
            self.lemma_user_drained((count - 1) as nat, between);
            assert(between.user_in.skip(1) =~= self.user_in.skip(count as int));
        } else {
            assert(self.user_in.skip(0) =~= self.user_in);
        }
    }

    /// Whether handling one event from the machine, if there is one, can give `after`.
    pub open spec fn engine_step(self, after: Self, error: Option<Error>) -> bool {
        if self.engine_in.len() == 0 {
            error is None && after == self
        } else {
            self.engine_stepped(after, error)
        }
    }

    /// Whether handling one event from the user, if there is one, can give `after`.
    pub open spec fn user_step(self, after: Self, error: Option<Error>) -> bool {
        if self.user_in.len() == 0 {
            error is None && after == self
        } else {
            self.user_stepped(after, error)
        }
    }
}

/// Whether moving items over `channel`, one or all, can give these.
pub open spec fn pumped<Ch: Pump>(
    all: bool,
    channel: Ch,
    after: Ch,
    moved: Result<bool, Error>,
) -> bool {
    if all {
        exists|count: Result<usize, Error>|
            {
                &&& #[trigger] channel.pumped_all(after, count)
                &&& moved == match count {
                    Ok(items) => Ok::<bool, Error>(items > 0),
                    Err(error) => Err(error),
                }
            }
    } else {
        channel.pumped(after, moved)
    }
}

/// Whether trying channels in turn, until one has something to move or fails, can stop at
/// `stop` and give these. The channels behind are left alone.
pub open spec fn row_stops_at<Ch: Pump>(
    all: bool,
    row: Seq<Ch>,
    after: Seq<Ch>,
    moved: Result<bool, Error>,
    stop: int,
) -> bool {
    &&& after.len() == row.len()
    &&& 0 <= stop <= row.len()
    &&& forall|k: int|
        #![trigger row[k]]
        #![trigger after[k]]
        0 <= k < stop ==> pumped(all, row[k], after[k], Ok(false))
    &&& forall|k: int|
        #![trigger row[k]]
        #![trigger after[k]]
        stop < k < row.len() ==> after[k] == row[k]
    &&& if stop < row.len() {
        moved != Ok::<bool, Error>(false) && pumped(all, row[stop], after[stop], moved)
    } else {
        moved == Ok::<bool, Error>(false)
    }
}

/// Whether trying the channels of a peer in turn, until one has something to move or fails, can
/// give these.
pub open spec fn row_pumped<Ch: Pump>(
    all: bool,
    row: Seq<Ch>,
    after: Seq<Ch>,
    moved: Result<bool, Error>,
) -> bool {
    exists|stop: int| row_stops_at(all, row, after, moved, stop)
}

/// Whether trying the channels of all peers in turn, until one has something to move or fails,
/// can stop at the peer at `stop` and give these.
pub open spec fn rows_stop_at<Ch: Pump>(
    all: bool,
    rows: Seq<(u64, Seq<Ch>)>,
    after: Seq<(u64, Seq<Ch>)>,
    moved: Result<bool, Error>,
    stop: int,
) -> bool {
    &&& after.len() == rows.len()
    &&& 0 <= stop <= rows.len()
    &&& forall|k: int|
        #![trigger rows[k]]
        #![trigger after[k]]
        0 <= k < rows.len() ==> after[k].0 == rows[k].0
    &&& forall|k: int|
        #![trigger rows[k]]
        #![trigger after[k]]
        0 <= k < stop ==> row_pumped(all, rows[k].1, after[k].1, Ok(false))
    &&& forall|k: int|
        #![trigger rows[k]]
        #![trigger after[k]]
        stop < k < rows.len() ==> after[k] == rows[k]
    &&& if stop < rows.len() {
        moved != Ok::<bool, Error>(false) && row_pumped(all, rows[stop].1, after[stop].1, moved)
    } else {
        moved == Ok::<bool, Error>(false)
    }
}

/// Whether trying the channels of all peers in turn, until one has something to move or fails,
/// can give these.
pub open spec fn rows_pumped<Ch: Pump>(
    all: bool,
    rows: Seq<(u64, Seq<Ch>)>,
    after: Seq<(u64, Seq<Ch>)>,
    moved: Result<bool, Error>,
) -> bool {
    exists|stop: int| rows_stop_at(all, rows, after, moved, stop)
}

impl<Ch: Pump, R, S, D, F> MeetingView<Ch, R, S, D, F> where
    F: Fn(PeerBuilder<Ch, R, S, D>) -> Result<PeerBuilder<Ch, R, S, D>, Error>,
 {
    /// Whether turning to the channels can give `after` and `result`. They get their turn only
    /// if there was nothing else to do.
    pub open spec fn channels_phase(
        self,
        all: bool,
        busy: bool,
        after: Self,
        result: Result<bool, Error>,
    ) -> bool {
        if busy {
            result == Ok::<bool, Error>(true) && after == self
        } else {
            &&& rows_pumped(all, self.peers, after.peers, result)
            &&& after == (MeetingView { peers: after.peers, ..self })
        }
    }

    /// Whether handling all events can give `after`.
    pub open spec fn all_events_handled(self, after: Self) -> bool {
        exists|between: Self|
            self.engine_phase(between, None) && #[trigger] between.user_phase(after, None)
    }

    /// Whether handling one event from either side can give `after`.
    pub open spec fn events_stepped(self, after: Self) -> bool {
        exists|between: Self|
            self.engine_step(between, None) && #[trigger] between.user_step(after, None)
    }

    /// Whether events can fail with `error`, the user's behind all of the machine.
    pub open spec fn event_phase_failed(self, after: Self, error: Error) -> bool {
        ||| self.engine_phase(after, Some(error))
        ||| exists|between: Self|
            self.engine_phase(between, None) && #[trigger] between.user_phase(after, Some(error))
    }

    /// Whether one event from either side can fail with `error`.
    pub open spec fn event_step_failed(self, after: Self, error: Error) -> bool {
        ||| self.engine_step(after, Some(error))
        ||| exists|between: Self|
            self.engine_step(between, None) && #[trigger] between.user_step(after, Some(error))
    }

    /// Whether events wait.
    pub open spec fn is_busy(self) -> bool {
        self.engine_in.len() > 0 || self.user_in.len() > 0
    }

    /// Whether one turn of the meeting can give `after` and `result`.
    pub open spec fn pumped(self, after: Self, result: Result<bool, Error>) -> bool {
        ||| result matches Err(error) && self.event_step_failed(after, error)
        ||| exists|between: Self|
            self.events_stepped(between) && #[trigger] between.channels_phase(
                false,
                self.is_busy(),
                after,
                result,
            )
    }

    /// Whether handling all there is to handle can give `after` and `result`.
    pub open spec fn pumped_all(self, after: Self, result: Result<bool, Error>) -> bool {
        ||| result matches Err(error) && self.event_phase_failed(after, error)
        ||| exists|between: Self|
            self.all_events_handled(between) && #[trigger] between.channels_phase(
                true,
                self.is_busy(),
                after,
                result,
            )
    }
}

/// Tries channels in turn until one has something to move or fails.
fn pump_row<Ch: Pump>(row: &mut Vec<Ch>, all: bool) -> (result: Result<bool, Error>)
    ensures
        row_pumped(all, old(row)@, final(row)@, result),
{
    let ghost before = row@;
    let mut i: usize = 0;
    while i < row.len()
        invariant
            before == old(row)@,
            i <= row@.len(),
            row@.len() == before.len(),
            forall|k: int|
                #![trigger before[k]]
                #![trigger row@[k]]
                0 <= k < i ==> pumped(all, before[k], row@[k], Ok(false)),
            forall|k: int|
                #![trigger before[k]]
                #![trigger row@[k]]
                i <= k < row@.len() ==> row@[k] == before[k],
        decreases row@.len() - i,
    {
        let moved: Result<bool, Error> = if all {
            let count = row[i].pump_all();
            assert(before[i as int].pumped_all(row@[i as int], count));
            match count {
                Ok(items) => Ok(items > 0),
                Err(error) => Err(error),
            }
        } else {
            row[i].pump()
        };
        assert(pumped(all, before[i as int], row@[i as int], moved));
        match moved {
            Ok(any) => {
                if any {
                    assert(row_stops_at(all, before, row@, moved, i as int));
                    return moved;
                }
            },
            Err(_) => {
                assert(row_stops_at(all, before, row@, moved, i as int));
                return moved;
            },
        }
        i = i + 1;
    }
    assert(row_stops_at(all, before, row@, Ok(false), i as int));
    Ok(false)
}

/// Tries the channels of all peers in turn until one has something to move or fails.
fn pump_rows<Ch: Pump>(rows: &mut OrderedMap<Vec<Ch>>, all: bool) -> (result: Result<bool, Error>)
    ensures
        rows_pumped(all, viewed(old(rows)@), viewed(final(rows)@), result),
{
    let ghost before = viewed(rows@);
    let total: usize = rows.len();
    let mut i: usize = 0;
    while i < total
        invariant
            before == viewed(old(rows)@),
            i <= total,
            total == rows@.len(),
            total == before.len(),
            forall|k: int|
                #![trigger before[k]]
                #![trigger viewed(rows@)[k]]
                0 <= k < total ==> viewed(rows@)[k].0 == before[k].0,
            forall|k: int|
                #![trigger before[k]]
                #![trigger viewed(rows@)[k]]
                0 <= k < i ==> row_pumped(all, before[k].1, viewed(rows@)[k].1, Ok(false)),
            forall|k: int|
                #![trigger before[k]]
                #![trigger viewed(rows@)[k]]
                i <= k < total ==> viewed(rows@)[k] == before[k],
        decreases total - i,
    {
        let ghost entries = rows@;
        assert(viewed(entries)[i as int] == before[i as int]);
        let row = rows.value_mut(i);
        let moved: Result<bool, Error> = pump_row(row, all);
        assert(rows@ == entries.update(i as int, (entries[i as int].0, rows@[i as int].1)));
        proof {
            lemma_viewed_update(entries, i as int, rows@[i as int].1);
        }
        assert(row_pumped(all, before[i as int].1, viewed(rows@)[i as int].1, moved));
        match moved {
            Ok(any) => {
                if any {
                    assert(rows_stop_at(all, before, viewed(rows@), moved, i as int));
                    return moved;
                }
            },
            Err(_) => {
                assert(rows_stop_at(all, before, viewed(rows@), moved, i as int));
                return moved;
            },
        }
        i = i + 1;
    }
    assert(rows_stop_at(all, before, viewed(rows@), Ok(false), i as int));
    Ok(false)
}

impl<Ch: Pump, R, S, D, F> Meeting<Ch, R, S, D, F> where
    F: Fn(PeerBuilder<Ch, R, S, D>) -> Result<PeerBuilder<Ch, R, S, D>, Error>,
 {
    /// A meeting without peers.
    pub fn new(factory: PeerFactory<F, D>, name: String) -> (result: Self)
        ensures
            result@ == (MeetingView::<Ch, R, S, D, F> {
                factory: factory@,
                engine_in: Seq::empty(),
                engine_out: Seq::empty(),
                user_in: Seq::empty(),
                user_out: Seq::empty(),
                engine_gone: false,
                user_gone: false,
                peers: Seq::empty(),
                name: name@,
            }),
    {
        let result = Meeting {
            factory,
            engine_inbox: VecDeque::new(),
            engine_outbox: VecDeque::new(),
            user_inbox: VecDeque::new(),
            user_outbox: VecDeque::new(),
            engine_gone: false,
            user_gone: false,
            peers: OrderedMap::new(),
            name,
        };
        assert(result@ =~= (MeetingView::<Ch, R, S, D, F> {
            factory: factory@,
            engine_in: Seq::empty(),
            engine_out: Seq::empty(),
            user_in: Seq::empty(),
            user_out: Seq::empty(),
            engine_gone: false,
            user_gone: false,
            peers: Seq::empty(),
            name: name@,
        }));
        result
    }

    pub fn name(&self) -> (result: &String)
        ensures
            result@ == self@.name,
    {
        &self.name
    }

    /// Adds an event from the machine.
    pub fn push_engine_event(&mut self, event: MeetingEngineEvent)
        ensures
            final(self)@ == (MeetingView {
                engine_in: old(self)@.engine_in.push(event@),
                ..old(self)@
            }),
    {
        let ghost before = self@;
        self.engine_inbox.push_back(event);
        assert(self@.engine_in =~= before.engine_in.push(event@));
    }

    /// Adds an event from the user.
    pub fn push_user_event(&mut self, event: MeetingUserEvent<R, S, D>)
        ensures
            final(self)@ == (MeetingView {
                user_in: old(self)@.user_in.push(event@),
                ..old(self)@
            }),
    {
        let ghost before = self@;
        self.user_inbox.push_back(event);
        assert(self@.user_in =~= before.user_in.push(event@));
    }

    /// Takes the first event for the machine.
    pub fn take_engine_event(&mut self) -> (result: Option<MeetingEngineEvent>)
        ensures
            old(self)@.engine_out.len() == 0 ==> result is None && final(self)@ == old(self)@,
            old(self)@.engine_out.len() > 0 ==> {
                &&& result matches Some(event)
                &&& event@ == old(self)@.engine_out[0]
                &&& final(self)@ == (MeetingView {
                    engine_out: old(self)@.engine_out.skip(1),
                    ..old(self)@
                })
            },
    {
        let ghost before = self@;
        let result = self.engine_outbox.pop_front();
        assert(before.engine_out.len() > 0 ==> self@.engine_out =~= before.engine_out.skip(1));
        result
    }

    /// Takes the first event for the user.
    pub fn take_user_event(&mut self) -> (result: Option<MeetingUserEvent<R, S, D>>)
        ensures
            old(self)@.user_out.len() == 0 ==> result is None && final(self)@ == old(self)@,
            old(self)@.user_out.len() > 0 ==> {
                &&& result matches Some(event)
                &&& event@ == old(self)@.user_out[0]
                &&& final(self)@ == (MeetingView {
                    user_out: old(self)@.user_out.skip(1),
                    ..old(self)@
                })
            },
    {
        let ghost before = self@;
        let result = self.user_outbox.pop_front();
        assert(before.user_out.len() > 0 ==> self@.user_out =~= before.user_out.skip(1));
        result
    }

    /// Takes note that the machine takes no more events.
    pub fn lose_engine(&mut self)
        ensures
            final(self)@ == (MeetingView { engine_gone: true, ..old(self)@ }),
    {
        self.engine_gone = true;
    }

    /// Takes note that the user takes no more events.
    pub fn lose_user(&mut self)
        ensures
            final(self)@ == (MeetingView { user_gone: true, ..old(self)@ }),
    {
        self.user_gone = true;
    }

    /// Tells the machine something. Fails if it takes no more events.
    fn tell_engine(&mut self, event: MeetingEngineEvent) -> (result: Result<(), Error>)
        ensures
            (final(self)@, failure(result)) == old(self)@.told_engine(event@),
    {
        let ghost before = self@;
        if self.engine_gone {
            return Err(Error::ChannelClosed);
        }
        self.engine_outbox.push_back(event);
        assert(self@.engine_out =~= before.engine_out.push(event@));
        Ok(())
    }

    /// Tells the user something. Fails if they take no more events.
    fn tell_user(&mut self, event: MeetingUserEvent<R, S, D>) -> (result: Result<(), Error>)
        ensures
            (final(self)@, failure(result)) == old(self)@.told_user(event@),
    {
        let ghost before = self@;
        if self.user_gone {
            return Err(Error::ChannelClosed);
        }
        self.user_outbox.push_back(event);
        assert(self@.user_out =~= before.user_out.push(event@));
        Ok(())
    }

    /// Tells first the machine something and then the user. Fails if one of them takes no more
    /// events.
    fn tell_both(
        &mut self,
        engine: MeetingEngineEvent,
        user: MeetingUserEvent<R, S, D>,
    ) -> (result: Result<(), Error>)
        ensures
            (final(self)@, failure(result)) == old(self)@.told_both(engine@, user@),
    {
        match self.tell_engine(engine) {
            Err(error) => Err(error),
            Ok(_) => self.tell_user(user),
        }
    }

    /// Tells the machine that the meeting is over, if it still takes events.
    pub fn close(&mut self)
        ensures
            final(self)@ == old(self)@.told_engine(EngineEventView::MeetingDestroyed).0,
    {
        let _ = self.tell_engine(MeetingEngineEvent::MeetingDestroyed);
    }

    /// The channels of a peer.
    pub fn channels(&self, peer_id: PeerId) -> (result: Option<&Vec<Ch>>)
        ensures
            match result {
                Some(channels) => value_of(self@.peers, peer_id.0) == Some(channels@),
                None => !has_key(self@.peers, peer_id.0),
            },
    {
        let (place, found): (usize, bool) = self.peers.find(peer_id.0);
        if found {
            let channels = self.peers.value(place);
            proof {
                lemma_viewed(self.peers@, peer_id.0, *channels);
            }
            Some(channels)
        } else {
            proof {
                lemma_same_keys(self.peers@, viewed(self.peers@), peer_id.0);
            }
            None
        }
    }

    /// The channels of a peer, to be changed.
    pub fn channels_mut(&mut self, peer_id: PeerId) -> (result: Option<&mut Vec<Ch>>)
        ensures
            keys_ascend(old(self)@.peers),
            match result {
                Some(channels) => {
                    &&& value_of(old(self)@.peers, peer_id.0) == Some(channels@)
                    &&& final(self)@ == (MeetingView {
                        peers: with_value(old(self)@.peers, peer_id.0, final(channels)@),
                        ..old(self)@
                    })
                },
                None => !has_key(old(self)@.peers, peer_id.0) && final(self)@ == old(self)@,
            },
    {
        let ghost before = self@;
        let ghost entries = self.peers@;
        let _known: usize = self.peers.len();
        let (place, found): (usize, bool) = self.peers.find(peer_id.0);
        proof {
            lemma_same_keys(entries, before.peers, peer_id.0);
        }
        if !found {
            return None;
        }
        let channels = self.peers.value_mut(place);
        proof {
            lemma_viewed_update(entries, place as int, *final(channels));
        }
        Some(channels)
    }

    /// Moves one thing: an event from the machine and one from the user, or else an item over
    /// the first channel that has one. Says whether there was any.
    pub fn pump(&mut self) -> (result: Result<bool, Error>)
        requires
            takes_every_builder::<Ch, R, S, D, F>(old(self)@.factory),
        ensures
            old(self)@.pumped(final(self)@, result),
    {
        let ghost before = self@;
        let engine: bool = match self.step_engine_event() {
            Ok(handled) => handled,
            Err(error) => return Err(error),
        };
        let ghost between = self@;
        let user: bool = match self.step_user_event() {
            Ok(handled) => handled,
            Err(error) => {
                assert(between.user_step(self@, Some(error)));
                return Err(error);
            },
        };
        let ghost stepped = self@;
        assert(between.user_step(stepped, None));
        assert(before.events_stepped(stepped));
        let result: Result<bool, Error> = if engine || user {
            Ok(true)
        } else {
            pump_rows(&mut self.peers, false)
        };
        assert(self@ =~= (MeetingView { peers: self@.peers, ..stepped }));
        assert(stepped.channels_phase(false, before.is_busy(), self@, result));
        result
    }

    /// Handles all events, or else moves all items over the first channel that has any. Says
    /// whether there was anything.
    pub fn pump_all(&mut self) -> (result: Result<bool, Error>)
        requires
            takes_every_builder::<Ch, R, S, D, F>(old(self)@.factory),
        ensures
            old(self)@.pumped_all(final(self)@, result),
    {
        let ghost before = self@;
        let engine: usize = match self.drain_engine_events() {
            Ok(count) => count,
            Err(error) => return Err(error),
        };
        let ghost between = self@;
        proof {
            before.lemma_engine_drained(before.engine_in.len(), between);
        }
        let user: usize = match self.drain_user_events() {
            Ok(count) => count,
            Err(error) => {
                assert(between.user_phase(self@, Some(error)));
                return Err(error);
            },
        };
        let ghost handled = self@;
        assert(between.user_phase(handled, None));
        assert(before.all_events_handled(handled));
        let result: Result<bool, Error> = if engine > 0 || user > 0 {
            Ok(true)
        } else {
            pump_rows(&mut self.peers, true)
        };
        assert(self@ =~= (MeetingView { peers: self@.peers, ..handled }));
        assert(handled.channels_phase(true, before.is_busy(), self@, result));
        result
    }

    /// Handles all machine events, and says how many there were.
    fn drain_engine_events(&mut self) -> (result: Result<usize, Error>)
        requires
            takes_every_builder::<Ch, R, S, D, F>(old(self)@.factory),
        ensures
            match result {
                Ok(count) => count == old(self)@.engine_in.len() && old(self)@.engine_phase(
                    final(self)@,
                    None,
                ),
                Err(error) => old(self)@.engine_phase(final(self)@, Some(error)),
            },
    {
        let ghost before = self@;
        let total: usize = self.engine_inbox.len();
        let mut count: usize = 0;
        assert(total == before.engine_in.len());
        while count < total
            invariant
                before == old(self)@,
                count <= total,
                total == before.engine_in.len(),
                takes_every_builder::<Ch, R, S, D, F>(before.factory),
                before.engine_drained(count as nat, self@),
            decreases total - count,
        {
            let ghost between = self@;
            proof {
                before.lemma_engine_drained(count as nat, between);
            }
            let ghost taken = MeetingView { engine_in: between.engine_in.skip(1), ..between };
            if let Some(event) = self.engine_inbox.pop_front() {
                assert(event@ == between.engine_in[0]);
                assert(self@.engine_in =~= between.engine_in.skip(1));
                assert(self@ =~= taken);
                match self.handle_engine_event(event) {
                    Ok(_) => {
                        assert(between.engine_stepped(self@, None));
                    },
                    Err(error) => {
                        assert(between.engine_stepped(self@, Some(error)));
                        assert(between.engine_failed_behind(count as nat, self@, error));
                        return Err(error);
                    },
                }
            }
            count = count + 1;
            assert(before.engine_drained(count as nat, self@));
        }
        Ok(count)
    }

    /// Handles one machine event, if there is one, and says whether there was.
    fn step_engine_event(&mut self) -> (result: Result<bool, Error>)
        requires
            takes_every_builder::<Ch, R, S, D, F>(old(self)@.factory),
        ensures
            match result {
                Ok(handled) => handled == (old(self)@.engine_in.len() > 0)
                    && old(self)@.engine_step(final(self)@, None),
                Err(error) => old(self)@.engine_step(final(self)@, Some(error)),
            },
            final(self)@.factory == old(self)@.factory,
    {
        let ghost before = self@;
        match self.engine_inbox.pop_front() {
            None => {
                assert(before.engine_in.len() == 0);
                Ok(false)
            },
            Some(event) => {
                assert(event@ == before.engine_in[0]);
                assert(self@.engine_in =~= before.engine_in.skip(1));
                assert(self@ =~= (MeetingView {
                    engine_in: before.engine_in.skip(1),
                    ..before
                }));
                match self.handle_engine_event(event) {
                    Ok(_) => Ok(true),
                    Err(error) => Err(error),
                }
            },
        }
    }

    /// Handles all user events, and says how many there were.
    fn drain_user_events(&mut self) -> (result: Result<usize, Error>)
        requires
            takes_every_builder::<Ch, R, S, D, F>(old(self)@.factory),
        ensures
            match result {
                Ok(count) => count == old(self)@.user_in.len() && old(self)@.user_phase(
                    final(self)@,
                    None,
                ),
                Err(error) => old(self)@.user_phase(final(self)@, Some(error)),
            },
    {
        let ghost before = self@;
        let total: usize = self.user_inbox.len();
        let mut count: usize = 0;
        assert(total == before.user_in.len());
        while count < total
            invariant
                before == old(self)@,
                count <= total,
                total == before.user_in.len(),
                takes_every_builder::<Ch, R, S, D, F>(before.factory),
                before.user_drained(count as nat, self@),
            decreases total - count,
        {
            let ghost between = self@;
            proof {
                before.lemma_user_drained(count as nat, between);
            }
            let ghost taken = MeetingView { user_in: between.user_in.skip(1), ..between };
            if let Some(event) = self.user_inbox.pop_front() {
                assert(event@ == between.user_in[0]);
                assert(self@.user_in =~= between.user_in.skip(1));
                assert(self@ =~= taken);
                match self.handle_user_event(event) {
                    Ok(_) => {
                        assert(between.user_stepped(self@, None));
                    },
                    Err(error) => {
                        assert(between.user_stepped(self@, Some(error)));
                        assert(between.user_failed_behind(count as nat, self@, error));
                        return Err(error);
                    },
                }
            }
            count = count + 1;
            assert(before.user_drained(count as nat, self@));
        }
        Ok(count)
    }

    /// Handles one user event, if there is one, and says whether there was.
    fn step_user_event(&mut self) -> (result: Result<bool, Error>)
        requires
            takes_every_builder::<Ch, R, S, D, F>(old(self)@.factory),
        ensures
            match result {
                Ok(handled) => handled == (old(self)@.user_in.len() > 0)
                    && old(self)@.user_step(final(self)@, None),
                Err(error) => old(self)@.user_step(final(self)@, Some(error)),
            },
            final(self)@.factory == old(self)@.factory,
    {
        let ghost before = self@;
        match self.user_inbox.pop_front() {
            None => {
                assert(before.user_in.len() == 0);
                Ok(false)
            },
            Some(event) => {
                assert(event@ == before.user_in[0]);
                assert(self@.user_in =~= before.user_in.skip(1));
                assert(self@ =~= (MeetingView {
                    user_in: before.user_in.skip(1),
                    ..before
                }));
                match self.handle_user_event(event) {
                    Ok(_) => Ok(true),
                    Err(error) => Err(error),
                }
            },
        }
    }

    /// Makes a peer and takes it in.
    fn make_peer(&mut self, info: PeerInfo) -> (result: Result<(), Error>)
        requires
            takes_every_builder::<Ch, R, S, D, F>(old(self)@.factory),
        ensures
            old(self)@.peer_made(info, final(self)@, failure(result)),
            final(self)@.factory == old(self)@.factory,
    {
        let ghost before = self@;
        let made: Result<PeerBuildResult<Ch, R, S, D>, Error> = self.factory.create(Peer::new(info));
        match made {
            Err(error) => {
                assert(before.took_in(made, self@, Some(error)));
                Err(error)
            },
            Ok(built) => {
                let peer_id: PeerId = built.peer.info().peer_id;
                if self.peers.contains_key(peer_id.0) {
                    proof {
                        lemma_same_keys(self.peers@, viewed(self.peers@), peer_id.0);
                    }
                    let error = Error::PeerExists(peer_id.0);
                    assert(before.took_in(made, self@, Some(error)));
                    return Err(error);
                }
                let PeerBuildResult { peer, channels, descriptor } = built;
                let keys: usize = self.peers.len();
                proof {
                    lemma_viewed(self.peers@, peer_id.0, channels);
                }
                self.peers.insert(peer_id.0, channels);
                let result = self.tell_both(
                    MeetingEngineEvent::PeerCreated(descriptor),
                    MeetingUserEvent::PeerAdded(peer),
                );
                assert(before.took_in(made, self@, failure(result)));
                result
            },
        }
    }

    /// Handles an event from the machine.
    pub fn handle_engine_event(&mut self, event: MeetingEngineEvent) -> (result: Result<(), Error>)
        requires
            takes_every_builder::<Ch, R, S, D, F>(old(self)@.factory),
        ensures
            old(self)@.handles_engine(event@, final(self)@, failure(result)),
            final(self)@.factory == old(self)@.factory,
    {
        let ghost before = self@;
        match event {
            MeetingEngineEvent::PeerJoined(peer_id, role_id) => self.make_peer(
                PeerInfo { peer_id, role_id, remote: true },
            ),
            MeetingEngineEvent::PeerLeft(peer_id) => {
                if self.remove_peer(peer_id) {
                    self.tell_both(
                        MeetingEngineEvent::PeerDestroyed(peer_id),
                        MeetingUserEvent::PeerRemoved(peer_id),
                    )
                } else {
                    self.tell_user(MeetingUserEvent::PeerRemoved(peer_id))
                }
            },
            _ => Ok(()),
        }
    }

    /// Handles an event from the user.
    pub fn handle_user_event(&mut self, event: MeetingUserEvent<R, S, D>) -> (result: Result<
        (),
        Error,
    >)
        requires
            takes_every_builder::<Ch, R, S, D, F>(old(self)@.factory),
        ensures
            old(self)@.handles_user(event@, final(self)@, failure(result)),
            final(self)@.factory == old(self)@.factory,
    {
        let ghost before = self@;
        match event {
            MeetingUserEvent::PeerCreate(peer_id, role_id) => self.make_peer(
                PeerInfo { peer_id, role_id, remote: false },
            ),
            MeetingUserEvent::PeerDestroy(peer_id) => {
                if self.remove_peer(peer_id) {
                    self.tell_both(
                        MeetingEngineEvent::PeerLeft(peer_id),
                        MeetingUserEvent::PeerRemoved(peer_id),
                    )
                } else {
                    Ok(())
                }
            },
            _ => Ok(()),
        }
    }

    /// Takes a peer out, and says whether it was there.
    fn remove_peer(&mut self, peer_id: PeerId) -> (result: bool)
        ensures
            result == has_key(old(self)@.peers, peer_id.0),
            final(self)@ == (MeetingView {
                peers: without_key(old(self)@.peers, peer_id.0),
                ..old(self)@
            }),
    {
        let keys: usize = self.peers.len();
        let (place, found): (usize, bool) = self.peers.find(peer_id.0);
        let ghost before = self.peers@;
        if found {
            if let Some(channels) = self.peers.remove(peer_id.0) {
                proof {
                    lemma_viewed(before, peer_id.0, channels);
                }
                return true;
            }
        }
        proof {
            lemma_same_keys(before, viewed(before), peer_id.0);
        }
        false
    }
}

/// A peer that joins and leaves again is as if it had never been there, and both sides get to
/// know.
pub proof fn law_joined_then_left<Ch, R, S, D, F>(
    before: MeetingView<Ch, R, S, D, F>,
    made: PeerBuildResult<Ch, R, S, D>,
    joined: MeetingView<Ch, R, S, D, F>,
    after: MeetingView<Ch, R, S, D, F>,
) where F: Fn(PeerBuilder<Ch, R, S, D>) -> Result<PeerBuilder<Ch, R, S, D>, Error>
    requires
        crate::ordered_map::keys_ascend(before.peers),
        before.took_in(Ok(made), joined, None),
        joined.handles_engine(EngineEventView::PeerLeft(made.peer@.info.peer_id), after, None),
    ensures
        after.peers == before.peers,
        after.engine_out == before.engine_out.push(
            EngineEventView::PeerCreated(made.descriptor@),
        ).push(EngineEventView::PeerDestroyed(made.peer@.info.peer_id)),
        after.user_out == before.user_out.push(UserEventView::PeerAdded(made.peer@)).push(
            UserEventView::PeerRemoved(made.peer@.info.peer_id),
        ),
{
    let id = made.peer@.info.peer_id.0;
    crate::ordered_map::law_with_value(before.peers, id, made.channels@, id);
    crate::ordered_map::law_without_what_was_added(before.peers, id, made.channels@);
}

/// A peer that a user creates is told to the machine and to the user, once each. If the user
/// destroys it again, the peers of the meeting are as before, and both are told so, once each:
/// for the machine the peer was created and left, for the user it was added and removed.
pub proof fn law_created_then_destroyed<Ch, R, S, D, F>(
    before: MeetingView<Ch, R, S, D, F>,
    peer_id: PeerId,
    role_id: PeerRoleId,
    created: MeetingView<Ch, R, S, D, F>,
) -> (made: PeerBuildResult<Ch, R, S, D>) where
    F: Fn(PeerBuilder<Ch, R, S, D>) -> Result<PeerBuilder<Ch, R, S, D>, Error>,

    requires
        keys_ascend(before.peers),
        before.handles_user(UserEventView::PeerCreate(peer_id, role_id), created, None),
    ensures
        creates::<Ch, R, S, D, F>(
            before.factory,
            PeerView::<R, S, D>::fresh(PeerInfo { peer_id, role_id, remote: false }),
            Ok(made),
        ),
        !has_key(before.peers, made.peer@.info.peer_id.0),
        value_of(created.peers, made.peer@.info.peer_id.0) == Some(made.channels@),
        created.engine_out == before.engine_out.push(
            EngineEventView::PeerCreated(made.descriptor@),
        ),
        created.user_out == before.user_out.push(UserEventView::PeerAdded(made.peer@)),
        forall|after: MeetingView<Ch, R, S, D, F>, error: Option<Error>| #[trigger]
            created.handles_user(
                UserEventView::PeerDestroy(made.peer@.info.peer_id),
                after,
                error,
            ) ==> {
                &&& error is None
                &&& after.peers == before.peers
                &&& after.engine_out == before.engine_out.push(
                    EngineEventView::PeerCreated(made.descriptor@),
                ).push(EngineEventView::PeerLeft(made.peer@.info.peer_id))
                &&& after.user_out == before.user_out.push(
                    UserEventView::PeerAdded(made.peer@),
                ).push(UserEventView::PeerRemoved(made.peer@.info.peer_id))
                &&& after.engine_in == before.engine_in
                &&& after.user_in == before.user_in
                &&& after.factory == before.factory
                &&& after.name == before.name
            },
{
    let made = choose|made: Result<PeerBuildResult<Ch, R, S, D>, Error>|
        {
            &&& creates::<Ch, R, S, D, F>(
                before.factory,
                PeerView::<R, S, D>::fresh(PeerInfo { peer_id, role_id, remote: false }),
                made,
            )
            &&& #[trigger] before.took_in(made, created, None)
        };
    let built = made->Ok_0;
    let id = built.peer@.info.peer_id.0;
    crate::ordered_map::law_with_value(before.peers, id, built.channels@, id);
    crate::ordered_map::law_without_what_was_added(before.peers, id, built.channels@);
    built
}

/// A peer that joins from elsewhere is told just as one that the user creates.
pub proof fn law_joined_peer_is_told<Ch, R, S, D, F>(
    before: MeetingView<Ch, R, S, D, F>,
    peer_id: PeerId,
    role_id: PeerRoleId,
    joined: MeetingView<Ch, R, S, D, F>,
) -> (made: PeerBuildResult<Ch, R, S, D>) where
    F: Fn(PeerBuilder<Ch, R, S, D>) -> Result<PeerBuilder<Ch, R, S, D>, Error>,

    requires
        keys_ascend(before.peers),
        before.handles_engine(EngineEventView::PeerJoined(peer_id, role_id), joined, None),
    ensures
        creates::<Ch, R, S, D, F>(
            before.factory,
            PeerView::<R, S, D>::fresh(PeerInfo { peer_id, role_id, remote: true }),
            Ok(made),
        ),
        !has_key(before.peers, made.peer@.info.peer_id.0),
        value_of(joined.peers, made.peer@.info.peer_id.0) == Some(made.channels@),
        joined.engine_out == before.engine_out.push(
            EngineEventView::PeerCreated(made.descriptor@),
        ),
        joined.user_out == before.user_out.push(UserEventView::PeerAdded(made.peer@)),
{
    let made = choose|made: Result<PeerBuildResult<Ch, R, S, D>, Error>|
        {
            &&& creates::<Ch, R, S, D, F>(
                before.factory,
                PeerView::<R, S, D>::fresh(PeerInfo { peer_id, role_id, remote: true }),
                made,
            )
            &&& #[trigger] before.took_in(made, joined, None)
        };
    let built = made->Ok_0;
    crate::ordered_map::law_with_value(
        before.peers,
        built.peer@.info.peer_id.0,
        built.channels@,
        built.peer@.info.peer_id.0,
    );
    built
}

/// Whatever event is handled: a peer that goes out of the meeting is told to the user exactly
/// once, as removed, and to the machine exactly once; a peer that comes in is told to the user
/// exactly once, as added, and to the machine exactly once. Nobody else comes or goes.
pub proof fn law_every_change_is_told<Ch, R, S, D, F>(
    before: MeetingView<Ch, R, S, D, F>,
    after: MeetingView<Ch, R, S, D, F>,
    from_engine: EngineEventView,
    from_user: UserEventView<R, S, D>,
    peer_id: PeerId,
) where F: Fn(PeerBuilder<Ch, R, S, D>) -> Result<PeerBuilder<Ch, R, S, D>, Error>
    requires
        keys_ascend(before.peers),
        before.handles_engine(from_engine, after, None) || before.handles_user(
            from_user,
            after,
            None,
        ),
    ensures
        keys_ascend(after.peers),
        has_key(before.peers, peer_id.0) && !has_key(after.peers, peer_id.0) ==> {
            &&& after.user_out == before.user_out.push(UserEventView::PeerRemoved(peer_id))
            &&& after.engine_out.len() == before.engine_out.len() + 1
            &&& after.engine_out.drop_last() == before.engine_out
            &&& after.engine_out.last() == EngineEventView::PeerLeft(peer_id)
                || after.engine_out.last() == EngineEventView::PeerDestroyed(peer_id)
        },
        !has_key(before.peers, peer_id.0) && has_key(after.peers, peer_id.0) ==> {
            &&& after.user_out.len() == before.user_out.len() + 1
            &&& after.user_out.drop_last() == before.user_out
            &&& after.user_out.last() matches UserEventView::PeerAdded(peer)
                && peer.info.peer_id == peer_id
            &&& after.engine_out.len() == before.engine_out.len() + 1
            &&& after.engine_out.drop_last() == before.engine_out
            &&& after.engine_out.last() is PeerCreated
        },
        has_key(before.peers, peer_id.0) && has_key(after.peers, peer_id.0) ==> value_of(
            after.peers,
            peer_id.0,
        ) == value_of(before.peers, peer_id.0),
{
    let goes = if before.handles_engine(from_engine, after, None) {
        match from_engine {
            EngineEventView::PeerLeft(gone) => gone.0,
            _ => peer_id.0,
        }
    } else {
        match from_user {
            UserEventView::PeerDestroy(gone) => gone.0,
            _ => peer_id.0,
        }
    };
    crate::ordered_map::law_without_key(before.peers, goes, peer_id.0);
    crate::ordered_map::lemma_place(before.peers, peer_id.0);
    assert forall|made: Result<PeerBuildResult<Ch, R, S, D>, Error>| #[trigger]
        before.took_in(made, after, None) implies {
        let id = made->Ok_0.peer@.info.peer_id.0;
        &&& made is Ok
        &&& keys_ascend(after.peers)
        &&& has_key(after.peers, id)
        &&& !has_key(before.peers, id)
        &&& peer_id.0 != id ==> value_of(after.peers, peer_id.0) == value_of(
            before.peers,
            peer_id.0,
        )
    } by {
        let id = made->Ok_0.peer@.info.peer_id.0;
        crate::ordered_map::law_with_value(before.peers, id, made->Ok_0.channels@, peer_id.0);
        crate::ordered_map::lemma_place(after.peers, id);
    }
    assert(keys_ascend(after.peers));
    crate::ordered_map::lemma_place(after.peers, peer_id.0);
    if has_key(before.peers, peer_id.0) {
        assert(value_of(before.peers, peer_id.0) is Some);
    }
    if has_key(after.peers, peer_id.0) {
        assert(value_of(after.peers, peer_id.0) is Some);
    }
    if after.user_out.len() > before.user_out.len() {
        assert(after.user_out.drop_last() =~= before.user_out);
    }
    if after.engine_out.len() > before.engine_out.len() {
        assert(after.engine_out.drop_last() =~= before.engine_out);
    }
}

/// A peer whose number is taken, or whose making fails, changes nothing, and the error says so.
pub proof fn law_refused_peers_change_nothing<Ch, R, S, D, F>(
    before: MeetingView<Ch, R, S, D, F>,
    info: PeerInfo,
    after: MeetingView<Ch, R, S, D, F>,
    error: Option<Error>,
) where F: Fn(PeerBuilder<Ch, R, S, D>) -> Result<PeerBuilder<Ch, R, S, D>, Error>
    requires
        if info.remote {
            before.handles_engine(
                EngineEventView::PeerJoined(info.peer_id, info.role_id),
                after,
                error,
            )
        } else {
            before.handles_user(
                UserEventView::PeerCreate(info.peer_id, info.role_id),
                after,
                error,
            )
        },
        error is Some,
        !before.engine_gone,
        !before.user_gone,
    ensures
        after == before,
        !has_key(before.factory.registry, info.role_id.0) ==> error == Some(
            Error::UnknownRole(info.role_id.0),
        ),
        has_key(before.factory.registry, info.role_id.0) ==> exists|
            made: Result<PeerBuildResult<Ch, R, S, D>, Error>,
        | #[trigger]
            creates::<Ch, R, S, D, F>(before.factory, PeerView::<R, S, D>::fresh(info), made)
                && match made {
                Err(reason) => error == Some(reason),
                Ok(built) => has_key(before.peers, built.peer@.info.peer_id.0) && error == Some(
                    Error::PeerExists(built.peer@.info.peer_id.0),
                ),
            },
{
}

/// Who is asked to go and is not there is told to the user, if the machine says so, and is
/// nothing to anybody, if the user says so.
pub proof fn law_unknown_peers_leave<Ch, R, S, D, F>(
    before: MeetingView<Ch, R, S, D, F>,
    peer_id: PeerId,
    after: MeetingView<Ch, R, S, D, F>,
    error: Option<Error>,
) where F: Fn(PeerBuilder<Ch, R, S, D>) -> Result<PeerBuilder<Ch, R, S, D>, Error>
    requires
        !has_key(before.peers, peer_id.0),
    ensures
        before.handles_user(UserEventView::PeerDestroy(peer_id), after, error) ==> error is None
            && after == before,
        before.handles_engine(EngineEventView::PeerLeft(peer_id), after, error) ==> {
            &&& after.peers == before.peers
            &&& after.engine_out == before.engine_out
            &&& before.user_gone <==> error is Some
            &&& error is Some ==> error == Some(Error::ChannelClosed) && after.user_out
                == before.user_out
            &&& error is None ==> after.user_out == before.user_out.push(
                UserEventView::PeerRemoved(peer_id),
            )
        },
{
}

/// A peer that is there goes, whoever says so and whoever still takes events; the first of the
/// two, machine and user, who takes no more makes the only error there is.
pub proof fn law_known_peers_leave<Ch, R, S, D, F>(
    before: MeetingView<Ch, R, S, D, F>,
    peer_id: PeerId,
    after: MeetingView<Ch, R, S, D, F>,
    error: Option<Error>,
) where F: Fn(PeerBuilder<Ch, R, S, D>) -> Result<PeerBuilder<Ch, R, S, D>, Error>
    requires
        keys_ascend(before.peers),
        has_key(before.peers, peer_id.0),
        before.handles_user(UserEventView::PeerDestroy(peer_id), after, error)
            || before.handles_engine(EngineEventView::PeerLeft(peer_id), after, error),
    ensures
        value_of(after.peers, peer_id.0) is None,
        error is None <==> !before.engine_gone && !before.user_gone,
        error is Some ==> error == Some(Error::ChannelClosed),
        before.engine_gone ==> after.engine_out == before.engine_out && after.user_out
            == before.user_out,
        !before.engine_gone ==> after.engine_out.len() == before.engine_out.len() + 1,
        before.user_gone ==> after.user_out == before.user_out,
{
    crate::ordered_map::law_without_key(before.peers, peer_id.0, peer_id.0);
}

/// What a meeting itself tells is nothing to it, if it is told so.
pub proof fn law_other_events_are_nothing<Ch, R, S, D, F>(
    before: MeetingView<Ch, R, S, D, F>,
    from_engine: EngineEventView,
    from_user: UserEventView<R, S, D>,
    after: MeetingView<Ch, R, S, D, F>,
    error: Option<Error>,
) where F: Fn(PeerBuilder<Ch, R, S, D>) -> Result<PeerBuilder<Ch, R, S, D>, Error>
    requires
        from_engine is MeetingDestroyed || from_engine is PeerCreated
            || from_engine is PeerDestroyed,
        from_user is PeerAdded || from_user is PeerRemoved,
        before.handles_engine(from_engine, after, error) || before.handles_user(
            from_user,
            after,
            error,
        ),
    ensures
        error is None,
        after == before,
{
}

impl<Ch: Pump, R, S, D, F> MeetingView<Ch, R, S, D, F> where
    F: Fn(PeerBuilder<Ch, R, S, D>) -> Result<PeerBuilder<Ch, R, S, D>, Error>,
 {
    /// After all was handled without an error no event waits any more, and there was something
    /// to do if one did.
    pub proof fn law_all_events_are_handled(self, after: Self, any: bool)
        requires
            self.pumped_all(after, Ok(any)),
        ensures
            after.engine_in.len() == 0,
            after.user_in.len() == 0,
            self.engine_in.len() > 0 || self.user_in.len() > 0 ==> any,
    {
        let between = choose|between: Self|
            self.all_events_handled(between) && #[trigger] between.channels_phase(
                true,
                self.is_busy(),
                after,
                Ok(any),
            );
        let half = choose|half: Self|
            self.engine_phase(half, None) && #[trigger] half.user_phase(between, None);
        self.lemma_engine_drained(self.engine_in.len(), half);
        half.lemma_user_drained(half.user_in.len(), between);
    }

    /// Where handling events fails, the event that failed is gone with those before it, and
    /// those behind it wait on; the events of the user wait all if the machine's failed.
    pub proof fn law_failed_event_is_gone(self, after: Self, error: Error)
        requires
            self.event_phase_failed(after, error),
        ensures
            exists|count: int|
                #![trigger self.engine_in.skip(count)]
                #![trigger self.user_in.skip(count)]
                {
                    ||| 0 < count <= self.engine_in.len() && after.engine_in
                        == self.engine_in.skip(count) && after.user_in == self.user_in
                    ||| 0 < count <= self.user_in.len() && after.engine_in.len() == 0
                        && after.user_in == self.user_in.skip(count)
                },
    {
        if self.engine_phase(after, Some(error)) {
            let (count, between) = choose|count: nat, between: Self|
                {
                    &&& count < self.engine_in.len()
                    &&& self.engine_drained(count, between)
                    &&& #[trigger] between.engine_failed_behind(count, after, error)
                };
            self.lemma_engine_drained(count, between);
            assert(between.engine_in.skip(1) =~= self.engine_in.skip(count as int + 1));
        } else {
            let half = choose|half: Self|
                self.engine_phase(half, None) && #[trigger] half.user_phase(after, Some(error));
            self.lemma_engine_drained(self.engine_in.len(), half);
            let (count, between) = choose|count: nat, between: Self|
                {
                    &&& count < half.user_in.len()
                    &&& half.user_drained(count, between)
                    &&& #[trigger] between.user_failed_behind(count, after, error)
                };
            half.lemma_user_drained(count, between);
            assert(between.user_in.skip(1) =~= self.user_in.skip(count as int + 1));
        }
    }

    /// One turn without an error takes one event from the machine and one from the user, where
    /// they wait, and leaves the others to wait in their order. It turns to the channels only
    /// if none waited.
    pub proof fn law_one_event_each(self, after: Self, any: bool)
        requires
            self.pumped(after, Ok(any)),
        ensures
            after.engine_in == if self.engine_in.len() == 0 {
                self.engine_in
            } else {
                self.engine_in.skip(1)
            },
            after.user_in == if self.user_in.len() == 0 {
                self.user_in
            } else {
                self.user_in.skip(1)
            },
            self.engine_in.len() > 0 || self.user_in.len() > 0 ==> any,
            self.engine_in.len() == 0 && self.user_in.len() == 0 ==> {
                &&& after.engine_out == self.engine_out
                &&& after.user_out == self.user_out
                &&& after.peers.len() == self.peers.len()
                &&& forall|k: int|
                    0 <= k < self.peers.len() ==> (#[trigger] after.peers[k]).0 == self.peers[k].0
            },
    {
        let between = choose|between: Self|
            self.events_stepped(between) && #[trigger] between.channels_phase(
                false,
                self.is_busy(),
                after,
                Ok(any),
            );
        let half = choose|half: Self|
            self.engine_step(half, None) && #[trigger] half.user_step(between, None);
        if !self.is_busy() {
            let stop = choose|stop: int|
                rows_stop_at(false, between.peers, after.peers, Ok(any), stop);
            assert(rows_stop_at(false, between.peers, after.peers, Ok(any), stop));
            assert forall|k: int| 0 <= k < self.peers.len() implies (#[trigger] after.peers[k]).0
                == self.peers[k].0 by {
                assert(between.peers[k].0 == after.peers[k].0);
            }
        }
    }
}

/// If none of the channels in a row had anything to move, each was tried; if one moved or
/// failed, those before it were tried and had nothing, and those behind it are as they were.
pub proof fn law_first_busy_channel_moves<Ch: Pump>(
    all: bool,
    row: Seq<Ch>,
    after: Seq<Ch>,
    moved: Result<bool, Error>,
)
    requires
        row_pumped(all, row, after, moved),
    ensures
        after.len() == row.len(),
        moved == Ok::<bool, Error>(false) ==> forall|k: int|
            0 <= k < row.len() ==> pumped(all, #[trigger] row[k], after[k], Ok(false)),
        moved != Ok::<bool, Error>(false) ==> exists|first: int|
            #![trigger row[first]]
            {
                &&& 0 <= first < row.len()
                &&& pumped(all, row[first], after[first], moved)
                &&& forall|k: int|
                    0 <= k < first ==> pumped(all, #[trigger] row[k], after[k], Ok(false))
                &&& forall|k: int| first < k < row.len() ==> #[trigger] after[k] == row[k]
            },
{
    let stop = choose|stop: int| row_stops_at(all, row, after, moved, stop);
    assert(row_stops_at(all, row, after, moved, stop));
    if stop < row.len() {
        let first = row[stop];
    }
}

/// The channels of peers are tried peer by peer in the same way: an idle round tried every one,
/// and a round that moved or failed left those of later peers alone.
pub proof fn law_first_busy_peer_moves<Ch: Pump>(
    all: bool,
    rows: Seq<(u64, Seq<Ch>)>,
    after: Seq<(u64, Seq<Ch>)>,
    moved: Result<bool, Error>,
)
    requires
        rows_pumped(all, rows, after, moved),
    ensures
        after.len() == rows.len(),
        forall|k: int| 0 <= k < rows.len() ==> (#[trigger] after[k]).0 == rows[k].0,
        moved == Ok::<bool, Error>(false) ==> forall|k: int|
            0 <= k < rows.len() ==> row_pumped(all, (#[trigger] rows[k]).1, after[k].1, Ok(false)),
        moved != Ok::<bool, Error>(false) ==> exists|first: int|
            #![trigger rows[first]]
            {
                &&& 0 <= first < rows.len()
                &&& row_pumped(all, rows[first].1, after[first].1, moved)
                &&& forall|k: int|
                    0 <= k < first ==> row_pumped(
                        all,
                        (#[trigger] rows[k]).1,
                        after[k].1,
                        Ok(false),
                    )
                &&& forall|k: int| first < k < rows.len() ==> #[trigger] after[k] == rows[k]
            },
{
    let stop = choose|stop: int| rows_stop_at(all, rows, after, moved, stop);
    assert(rows_stop_at(all, rows, after, moved, stop));
    if stop < rows.len() {
        let first = rows[stop];
    }
}

} // verus!
