//! Who hands out numbers for peers and replicas.

use std::collections::VecDeque;
use std::marker::PhantomData;
use vstd::prelude::*;

use crate::channel::{ChannelId, ChannelMode};
use crate::engine::{draw, drawn, EngineId};
use crate::error::Error;
use crate::meeting::{user_events, MeetingUserEvent, UserEventView};
use crate::ordered_map::{law_with_value, value_of, with_value, without_key};
use crate::peer::{
    found_end, Duplex, Endpoint, Peer, PeerBuilder, PeerBuilderChannel, PeerDestructurer,
    PeerFactory, PeerId, PeerRoleId, PeerView, TypedPeer,
};
use crate::replica::ReplicaId;
use crate::user_data::PeerUserData;
use crate::wire::failure;

verus! {

broadcast use vstd::std_specs::vecdeque::group_vec_dequeue_axioms;

/// The number of the role of the authority.
pub const AUTHORITY_ROLE: u64 = 0;

/// The number of the peer of the authority.
pub const AUTHORITY_PEER: u64 = 0;

/// The number of the channel through which the authority is asked.
pub const AUTHORITY_EVENT_CHANNEL: u64 = 0;

/// What the authority is asked for.
#[derive(Debug, Clone, Copy, PartialEq, Eq, Structural)]
pub enum AuthorityRequest {
    CreatePeer(PeerRoleId),
    DestroyPeer(PeerId),
    ReplicaId,
}

/// What the authority answers.
#[derive(Debug, Clone, Copy, PartialEq, Eq, Structural)]
pub enum AuthorityResponse {
    CreatePeer(PeerId, PeerRoleId),
    ReplicaId(ReplicaId),
}

/// What the authority and those who ask it tell each other, under the number of the question.
#[derive(Debug, Clone, Copy, PartialEq, Eq, Structural)]
pub enum AuthorityEvent {
    Request(u128, AuthorityRequest),
    Response(u128, AuthorityResponse),
}

/// What a meeting is told to do.
#[derive(Debug, Clone, Copy, PartialEq, Eq, Structural)]
pub enum MeetingOrder {
    CreatePeer(PeerId, PeerRoleId),
    DestroyPeer(PeerId),
}

/// What the peer of an authority has to know: whether it is the server.
#[derive(Debug, Clone, Copy, PartialEq, Eq, Structural)]
pub struct AuthorityUserData {
    pub is_server: bool,
}

/// A piece of data that can be that of the authority.
pub trait HoldsAuthority: Sized {
    /// What the authority has to know, if this is it.
    spec fn held(self) -> Option<AuthorityUserData>;

    /// What the authority has to know, if this is it.
    fn authority_data(&self) -> (result: Option<AuthorityUserData>)
        ensures
            result == self.held(),
    ;

    /// What the authority has to know, as a piece of data.
    fn of_authority(data: AuthorityUserData) -> (result: Self)
        ensures
            result.held() == Some(data),
    ;
}

impl HoldsAuthority for AuthorityUserData {
    open spec fn held(self) -> Option<AuthorityUserData> {
        Some(self)
    }

    fn authority_data(&self) -> (result: Option<AuthorityUserData>) {
        Some(*self)
    }

    fn of_authority(data: AuthorityUserData) -> (result: Self) {
        data
    }
}

/// What an authority finds in the data of its peer, if it is there.
pub open spec fn found_data<D: HoldsAuthority>(
    user_data: Seq<(u64, D)>,
    data_type: u64,
) -> Option<AuthorityUserData> {
    match value_of(user_data, data_type) {
        Some(piece) => piece.held(),
        None => None,
    }
}

/// Which of those who are told something by the authority take no more of it.
#[derive(Debug, Clone, Copy, PartialEq, Eq, Structural)]
pub struct Gone {
    /// The meeting takes no more orders.
    pub meeting: bool,
    /// The channel takes no more questions and answers.
    pub events: bool,
    /// Nobody takes peers that come.
    pub added_peers: bool,
    /// Nobody takes peers that go.
    pub removed_peers: bool,
}

impl Gone {
    /// All are there.
    pub open spec fn nobody() -> Self {
        Gone { meeting: false, events: false, added_peers: false, removed_peers: false }
    }

    /// All are there.
    pub fn none() -> (result: Self)
        ensures
            result == Self::nobody(),
    {
        Gone { meeting: false, events: false, added_peers: false, removed_peers: false }
    }
}

/// Part of the authority that is known.
enum Role<R, S, X> {
    Server {
        events: Duplex<S, R>,
        peer_id_generator: u64,
        replica_id_generator: u64,
        extension: X,
    },
    Client { events: Duplex<S, R>, requests: Vec<(u128, u64)>, extension: X },
}

/// What part of the authority is known.
#[verifier::ext_equal]
pub enum RoleView {
    /// The authority itself, with the last numbers that it handed out.
    Server { peers: u64, replicas: u64 },
    /// One who asks, with what waits for each answer.
    Client { requests: Seq<(u128, u64)> },
}

impl<R, S, X> Role<R, S, X> {
    /// The numbers that the part keeps.
    spec fn numbers(self) -> RoleView {
        match self {
            Role::Server { peer_id_generator, replica_id_generator, .. } => RoleView::Server {
                peers: peer_id_generator,
                replicas: replica_id_generator,
            },
            Role::Client { requests, .. } => RoleView::Client { requests: requests@ },
        }
    }
}

/// Hands out numbers for peers and replicas, or asks for them.
#[verifier::reject_recursive_types(Ch)]
pub struct Authority<Ch, R, S, D, X> {
    message_type: u64,
    data_type: u64,
    role: Option<Role<R, S, X>>,
    meeting_events: VecDeque<MeetingUserEvent<R, S, D>>,
    orders: VecDeque<MeetingOrder>,
    events_in: VecDeque<(AuthorityEvent, Option<EngineId>)>,
    events_out: VecDeque<(AuthorityEvent, Option<EngineId>)>,
    added_peers: VecDeque<Peer<R, S, D>>,
    removed_peers: VecDeque<PeerId>,
    replies: VecDeque<(u64, ReplicaId)>,
    gone: Gone,
    channels: PhantomData<Ch>,
}

/// What an [`Authority`] holds.
#[verifier::ext_equal]
pub struct AuthorityView<R, S, D, X> {
    pub message_type: u64,
    /// Tells what the authority has to know among the data of its peer.
    pub data_type: u64,
    pub role: Option<RoleView>,
    /// The ends through which the authority is asked, and what else its peer brings.
    pub part: Option<(Duplex<S, R>, X)>,
    /// What the meeting told, and waits to be handled.
    pub meeting_events: Seq<UserEventView<R, S, D>>,
    /// What the meeting is to do.
    pub orders: Seq<MeetingOrder>,
    /// Questions and answers that came, with the machine that they are from.
    pub events_in: Seq<(AuthorityEvent, Option<EngineId>)>,
    /// Questions and answers to send, with the machine that they are for.
    pub events_out: Seq<(AuthorityEvent, Option<EngineId>)>,
    pub added_peers: Seq<PeerView<R, S, D>>,
    pub removed_peers: Seq<PeerId>,
    /// Numbers for replicas, for those who waited for them.
    pub replies: Seq<(u64, ReplicaId)>,
    pub gone: Gone,
}

/// What peers hold, one by one.
pub open spec fn peer_views<R, S, D>(peers: Seq<Peer<R, S, D>>) -> Seq<PeerView<R, S, D>> {
    peers.map_values(|peer: Peer<R, S, D>| peer@)
}

impl<Ch, R, S, D, X> View for Authority<Ch, R, S, D, X> {
    type V = AuthorityView<R, S, D, X>;

    closed spec fn view(&self) -> AuthorityView<R, S, D, X> {
        AuthorityView {
            message_type: self.message_type,
            data_type: self.data_type,
            role: match self.role {
                Some(role) => Some(role.numbers()),
                None => None,
            },
            part: match self.role {
                Some(Role::Server { events, extension, .. }) => Some((events, extension)),
                Some(Role::Client { events, extension, .. }) => Some((events, extension)),
                None => None,
            },
            meeting_events: user_events(self.meeting_events@),
            orders: self.orders@,
            events_in: self.events_in@,
            events_out: self.events_out@,
            added_peers: peer_views(self.added_peers@),
            removed_peers: self.removed_peers@,
            replies: self.replies@,
            gone: self.gone,
        }
    }
}

/// The questions whose answers somebody else than `reply` waits for.
pub open spec fn still_awaited(requests: Seq<(u128, u64)>, reply: u64) -> Seq<(u128, u64)>
    decreases requests.len(),
{
    if requests.len() == 0 {
        Seq::empty()
    } else {
        let before = still_awaited(requests.drop_last(), reply);
        if requests.last().1 != reply {
            before.push(requests.last())
        } else {
            before
        }
    }
}

/// Where the question with a number stands.
pub open spec fn place_of_request(requests: Seq<(u128, u64)>, event_id: u128) -> int
    decreases requests.len(),
{
    if requests.len() == 0 {
        -1
    } else if requests.last().0 == event_id {
        requests.len() - 1
    } else {
        place_of_request(requests.drop_last(), event_id)
    }
}

/// The questions with one more, in place of one with the same number.
pub open spec fn with_request(requests: Seq<(u128, u64)>, event_id: u128, reply: u64) -> Seq<
    (u128, u64),
> {
    let place = place_of_request(requests, event_id);
    if place >= 0 {
        requests.update(place, (event_id, reply))
    } else {
        requests.push((event_id, reply))
    }
}

/// The questions but the one with a number.
pub open spec fn without_request(requests: Seq<(u128, u64)>, event_id: u128) -> Seq<(u128, u64)> {
    let place = place_of_request(requests, event_id);
    if place >= 0 {
        requests.remove(place)
    } else {
        requests
    }
}

/// What becomes of an authority that handles an event.
#[verifier::ext_equal]
pub struct Handled<R, S, D, X> {
    pub state: AuthorityView<R, S, D, X>,
    pub error: Option<Error>,
}

impl<R, S, D, X> AuthorityView<R, S, D, X> {
    /// Without anything to handle or to do, but for a server that asks for its peer.
    pub open spec fn fresh(
        is_server: bool,
        message_type: u64,
        data_type: u64,
        gone: Gone,
    ) -> Self {
        AuthorityView {
            message_type,
            data_type,
            role: None,
            part: None,
            meeting_events: Seq::empty(),
            orders: if is_server {
                seq![MeetingOrder::CreatePeer(PeerId(AUTHORITY_PEER), PeerRoleId(AUTHORITY_ROLE))]
            } else {
                Seq::empty()
            },
            events_in: Seq::empty(),
            events_out: Seq::empty(),
            added_peers: Seq::empty(),
            removed_peers: Seq::empty(),
            replies: Seq::empty(),
            gone,
        }
    }

    /// Once the peer of the authority is gone, with what went through its channel.
    pub open spec fn without_role(self) -> Self {
        AuthorityView {
            role: None,
            part: None,
            events_in: Seq::empty(),
            events_out: Seq::empty(),
            ..self
        }
    }

    /// Once the meeting was told to do something, unless it takes no more orders.
    pub open spec fn ordered(self, order: MeetingOrder) -> Handled<R, S, D, X> {
        if self.gone.meeting {
            Handled { state: self, error: Some(Error::ChannelClosed) }
        } else {
            Handled {
                state: AuthorityView { orders: self.orders.push(order), ..self },
                error: None,
            }
        }
    }

    /// Once a question or an answer was sent, unless the channel takes no more of them.
    pub open spec fn sent(self, event: AuthorityEvent, recepient: Option<EngineId>) -> Handled<
        R,
        S,
        D,
        X,
    > {
        if self.gone.events {
            Handled { state: self, error: Some(Error::ChannelClosed) }
        } else {
            Handled {
                state: AuthorityView { events_out: self.events_out.push((event, recepient)), ..self },
                error: None,
            }
        }
    }

    /// Once a peer that came was handed out, unless nobody takes it.
    pub open spec fn with_added(self, peer: PeerView<R, S, D>) -> Handled<R, S, D, X> {
        if self.gone.added_peers {
            Handled { state: self, error: Some(Error::ChannelClosed) }
        } else {
            Handled {
                state: AuthorityView { added_peers: self.added_peers.push(peer), ..self },
                error: None,
            }
        }
    }

    /// Once the number of a peer that went was handed out, unless nobody takes it.
    pub open spec fn with_removed(self, peer_id: PeerId) -> Handled<R, S, D, X> {
        if self.gone.removed_peers {
            Handled { state: self, error: Some(Error::ChannelClosed) }
        } else {
            Handled {
                state: AuthorityView { removed_peers: self.removed_peers.push(peer_id), ..self },
                error: None,
            }
        }
    }

    /// Once a question was asked, unless the channel takes no more of them.
    pub open spec fn asked(self, event_id: u128, request: AuthorityRequest) -> Handled<R, S, D, X> {
        self.sent(AuthorityEvent::Request(event_id, request), None)
    }

    /// Once a server answered a question of a machine.
    pub open spec fn after_request(
        self,
        peers: u64,
        replicas: u64,
        event_id: u128,
        request: AuthorityRequest,
        sender: Option<EngineId>,
    ) -> Handled<R, S, D, X> {
        match request {
            AuthorityRequest::CreatePeer(role_id) => {
                let next = (peers + 1) as u64;
                (AuthorityView { role: Some(RoleView::Server { peers: next, replicas }), ..self }).sent(
                    AuthorityEvent::Response(
                        event_id,
                        AuthorityResponse::CreatePeer(PeerId(next), role_id),
                    ),
                    sender,
                )
            },
            AuthorityRequest::DestroyPeer(peer_id) => if peer_id.0 == AUTHORITY_PEER {
                Handled { state: self, error: Some(Error::AuthorityPeer) }
            } else {
                self.ordered(MeetingOrder::DestroyPeer(peer_id))
            },
            AuthorityRequest::ReplicaId => {
                let next = (replicas + 1) as u64;
                (AuthorityView { role: Some(RoleView::Server { peers, replicas: next }), ..self }).sent(
                    AuthorityEvent::Response(
                        event_id,
                        AuthorityResponse::ReplicaId(ReplicaId(next)),
                    ),
                    sender,
                )
            },
        }
    }

    /// Once a client got an answer.
    pub open spec fn after_response(
        self,
        requests: Seq<(u128, u64)>,
        event_id: u128,
        response: AuthorityResponse,
    ) -> Handled<R, S, D, X> {
        match response {
            AuthorityResponse::CreatePeer(peer_id, role_id) => if role_id.0 == AUTHORITY_ROLE {
                Handled { state: self, error: Some(Error::AuthorityRole) }
            } else {
                self.ordered(MeetingOrder::CreatePeer(peer_id, role_id))
            },
            AuthorityResponse::ReplicaId(replica_id) => {
                let place = place_of_request(requests, event_id);
                Handled {
                    state: if place >= 0 {
                        AuthorityView {
                            role: Some(RoleView::Client { requests: requests.remove(place) }),
                            replies: self.replies.push((requests[place].1, replica_id)),
                            ..self
                        }
                    } else {
                        self
                    },
                    error: None,
                }
            },
        }
    }

    /// Once a question or an answer was handled. Servers care for questions, clients for
    /// answers.
    pub open spec fn after_event(
        self,
        event: AuthorityEvent,
        sender: Option<EngineId>,
    ) -> Handled<R, S, D, X> {
        match (self.role, event) {
            (
                Some(RoleView::Server { peers, replicas }),
                AuthorityEvent::Request(event_id, request),
            ) => self.after_request(peers, replicas, event_id, request, sender),
            (
                Some(RoleView::Client { requests }),
                AuthorityEvent::Response(event_id, response),
            ) => self.after_response(requests, event_id, response),
            _ => Handled { state: self, error: None },
        }
    }

    /// Once the first `count` questions and answers were handled, up to the first that fails.
    pub open spec fn after_events(self, count: nat) -> Handled<R, S, D, X>
        decreases count,
    {
        if count == 0 {
            Handled { state: self, error: None }
        } else {
            let before = self.after_events((count - 1) as nat);
            if before.error is Some || before.state.events_in.len() == 0 {
                before
            } else {
                let next = before.state.events_in[0];
                (AuthorityView {
                    events_in: before.state.events_in.skip(1),
                    ..before.state
                }).after_event(next.0, next.1)
            }
        }
    }

    /// Once all questions and answers were handled, up to the first that fails. Without a role
    /// they wait.
    pub open spec fn after_all_events(self) -> Handled<R, S, D, X> {
        if self.role is None {
            Handled { state: self, error: None }
        } else {
            self.after_events(self.events_in.len())
        }
    }
}

/// Handling questions and answers takes them one by one, and keeps the role.
proof fn lemma_after_events<R, S, D, X>(state: AuthorityView<R, S, D, X>, count: nat)
    requires
        state.role is Some,
    ensures
        state.after_events(count).state.role is Some,
        state.after_events(count).state.role->Some_0 is Server <==> state.role->Some_0 is Server,
        count <= state.events_in.len() && state.after_events(count).error is None ==>
            state.after_events(count).state.events_in == state.events_in.skip(count as int),
    decreases count,
{
    if count == 0 {
        assert(state.events_in.skip(0) =~= state.events_in);
    } else {
        lemma_after_events(state, (count - 1) as nat);
        let before = state.after_events((count - 1) as nat);
        if count <= state.events_in.len() && before.error is None {
            assert(before.state.events_in.skip(1) =~= state.events_in.skip(count as int));
        }
    }
}

/// The numbers that a server hands out for replicas and peers only go up, by one at most with
/// each question.
pub proof fn law_numbers_only_go_up<R, S, D, X>(state: AuthorityView<R, S, D, X>, count: nat)
    requires
        state.role is Some,
        state.role->Some_0 is Server,
        state.role->Some_0->peers + count <= u64::MAX,
        state.role->Some_0->replicas + count <= u64::MAX,
    ensures
        ({
            let before = state.role->Some_0;
            let after = state.after_events(count).state.role->Some_0;
            &&& after is Server
            &&& before->peers <= after->peers <= before->peers + count
            &&& before->replicas <= after->replicas <= before->replicas + count
        }),
    decreases count,
{
    if count > 0 {
        law_numbers_only_go_up(state, (count - 1) as nat);
        lemma_after_events(state, (count - 1) as nat);
    }
}

/// A server hands out a number once: two answers to questions for numbers of replicas hold
/// different numbers, and so do two answers to questions for peers.
pub proof fn law_answers_differ<R, S, D, X>(state: AuthorityView<R, S, D, X>, i: int, j: int)
    requires
        state.role is Some,
        state.role->Some_0 is Server,
        0 <= i < j < state.events_in.len(),
        state.role->Some_0->peers + state.events_in.len() <= u64::MAX,
        state.role->Some_0->replicas + state.events_in.len() <= u64::MAX,
        state.after_events((j + 1) as nat).error is None,
    ensures
        ({
            let first = state.after_events((i + 1) as nat).state;
            let second = state.after_events((j + 1) as nat).state;
            let one = first.role->Some_0;
            let other = second.role->Some_0;
            &&& state.events_in[i].0 matches AuthorityEvent::Request(
                a,
                AuthorityRequest::ReplicaId,
            ) ==> state.events_in[j].0 matches AuthorityEvent::Request(
                b,
                AuthorityRequest::ReplicaId,
            ) ==> {
                &&& first.events_out.last() == (
                    AuthorityEvent::Response(
                        a,
                        AuthorityResponse::ReplicaId(ReplicaId(one->replicas)),
                    ),
                    state.events_in[i].1,
                )
                &&& second.events_out.last() == (
                    AuthorityEvent::Response(
                        b,
                        AuthorityResponse::ReplicaId(ReplicaId(other->replicas)),
                    ),
                    state.events_in[j].1,
                )
                &&& one->replicas < other->replicas
            }
            &&& state.events_in[i].0 matches AuthorityEvent::Request(
                a,
                AuthorityRequest::CreatePeer(role_a),
            ) ==> state.events_in[j].0 matches AuthorityEvent::Request(
                b,
                AuthorityRequest::CreatePeer(role_b),
            ) ==> {
                &&& first.events_out.last() == (
                    AuthorityEvent::Response(
                        a,
                        AuthorityResponse::CreatePeer(PeerId(one->peers), role_a),
                    ),
                    state.events_in[i].1,
                )
                &&& second.events_out.last() == (
                    AuthorityEvent::Response(
                        b,
                        AuthorityResponse::CreatePeer(PeerId(other->peers), role_b),
                    ),
                    state.events_in[j].1,
                )
                &&& one->peers < other->peers
            }
        }),
{
    let before = state.after_events(i as nat);
    let first = state.after_events((i + 1) as nat);
    let between = state.after_events(j as nat);
    lemma_after_events(state, i as nat);
    lemma_after_events(state, (i + 1) as nat);
    lemma_after_events(state, j as nat);
    if first.error is Some {
        lemma_stopped(state, (i + 1) as nat, (j + 1) as nat);
    }
    if before.error is Some {
        lemma_stopped(state, i as nat, (j + 1) as nat);
    }
    if between.error is Some {
        lemma_stopped(state, j as nat, (j + 1) as nat);
    }
    assert(before.state.events_in[0] == state.events_in[i]);
    assert(between.state.events_in[0] == state.events_in[j]);
    law_numbers_only_go_up(state, i as nat);
    law_numbers_only_go_up(state, j as nat);
    lemma_numbers_rise(state, (i + 1) as nat, j as nat);
}

/// More questions leave the numbers no lower.
proof fn lemma_numbers_rise<R, S, D, X>(state: AuthorityView<R, S, D, X>, few: nat, many: nat)
    requires
        state.role is Some,
        state.role->Some_0 is Server,
        few <= many,
        state.role->Some_0->peers + many <= u64::MAX,
        state.role->Some_0->replicas + many <= u64::MAX,
    ensures
        ({
            let one = state.after_events(few).state.role->Some_0;
            let other = state.after_events(many).state.role->Some_0;
            one->peers <= other->peers && one->replicas <= other->replicas
        }),
    decreases many,
{
    if few < many {
        lemma_numbers_rise(state, few, (many - 1) as nat);
        lemma_after_events(state, (many - 1) as nat);
        law_numbers_only_go_up(state, (many - 1) as nat);
    }
}

impl<Ch, R, S, D, X: TypedPeer<Ch, R, S, D>> Authority<Ch, R, S, D, X> {
    /// An authority that is not there yet. A server asks the meeting for the peer of the
    /// authority, and fails if the meeting takes no orders.
    pub fn new(is_server: bool, message_type: u64, data_type: u64, gone: Gone) -> (result: Result<
        Self,
        Error,
    >)
        ensures
            match result {
                Ok(authority) => !(is_server && gone.meeting) && authority@ == AuthorityView::<
                    R,
                    S,
                    D,
                    X,
                >::fresh(is_server, message_type, data_type, gone),
                Err(error) => is_server && gone.meeting && error == Error::ChannelClosed,
            },
    {
        if is_server && gone.meeting {
            return Err(Error::ChannelClosed);
        }
        let mut orders: VecDeque<MeetingOrder> = VecDeque::new();
        if is_server {
            orders.push_back(
                MeetingOrder::CreatePeer(PeerId(AUTHORITY_PEER), PeerRoleId(AUTHORITY_ROLE)),
            );
        }
        let result = Authority {
            message_type,
            data_type,
            role: None,
            meeting_events: VecDeque::new(),
            orders,
            events_in: VecDeque::new(),
            events_out: VecDeque::new(),
            added_peers: VecDeque::new(),
            removed_peers: VecDeque::new(),
            replies: VecDeque::new(),
            gone,
            channels: PhantomData,
        };
        assert(result@ =~= AuthorityView::<R, S, D, X>::fresh(
            is_server,
            message_type,
            data_type,
            gone,
        ));
        Ok(result)
    }

    /// A factory that makes the peer of the authority, by `outfit`, and tells it whether it is
    /// the server.
    pub fn peer_factory<F>(is_server: bool, data_type: u64, outfit: F) -> (result: Result<
        PeerFactory<F, D>,
        Error,
    >) where D: HoldsAuthority
        ensures
            result matches Ok(factory) && factory@.registry == with_value(
                Seq::<(u64, F)>::empty(),
                AUTHORITY_ROLE,
                outfit,
            ) && found_data(factory@.user_data, data_type) == Some(
                AuthorityUserData { is_server },
            ) && factory@.user_data.len() == 1,
    {
        let data = D::of_authority(AuthorityUserData { is_server });
        let factory: PeerFactory<F, D> = PeerFactory::default().new(
            PeerUserData::holding(data_type, data),
        ).with(PeerRoleId(AUTHORITY_ROLE), outfit);
        proof {
            law_with_value(Seq::<(u64, D)>::empty(), data_type, data, data_type);
        }
        Ok(factory)
    }

    pub fn is_initialized(&self) -> (result: bool)
        ensures
            result == (self@.role is Some),
    {
        self.role.is_some()
    }

    pub fn is_server(&self) -> (result: bool)
        ensures
            result == (self@.role matches Some(role) && role is Server),
    {
        match &self.role {
            Some(Role::Server { .. }) => true,
            _ => false,
        }
    }

    pub fn is_client(&self) -> (result: bool)
        ensures
            result == (self@.role matches Some(role) && role is Client),
    {
        match &self.role {
            Some(Role::Client { .. }) => true,
            _ => false,
        }
    }

    /// What else the peer of the authority brings, once it is there.
    pub fn extension(&self) -> (result: Option<&X>)
        ensures
            match self@.part {
                Some(part) => result matches Some(extension) && *extension == part.1,
                None => result is None,
            },
    {
        match &self.role {
            Some(Role::Server { extension, .. }) => Some(extension),
            Some(Role::Client { extension, .. }) => Some(extension),
            None => None,
        }
    }

    /// What else the peer of the authority brings, once it is there, to be changed.
    pub fn extension_mut(&mut self) -> (result: Option<&mut X>)
        ensures
            match old(self)@.part {
                Some(part) => {
                    &&& result matches Some(extension)
                    &&& *extension == part.1
                    &&& final(self)@ == (AuthorityView {
                        part: Some((part.0, *final(extension))),
                        ..old(self)@
                    })
                },
                None => result is None && final(self)@ == old(self)@,
            },
    {
        match &mut self.role {
            Some(Role::Server { extension, .. }) => Some(extension),
            Some(Role::Client { extension, .. }) => Some(extension),
            None => None,
        }
    }

    /// The ends through which the authority is asked, once it is there.
    pub fn ends(&self) -> (result: Option<&Duplex<S, R>>)
        ensures
            match self@.part {
                Some(part) => result matches Some(events) && *events == part.0,
                None => result is None,
            },
    {
        match &self.role {
            Some(Role::Server { events, .. }) => Some(events),
            Some(Role::Client { events, .. }) => Some(events),
            None => None,
        }
    }

    /// Gives the peer of the authority its channels. Other peers are left alone.
    pub fn outfit(
        builder: PeerBuilder<Ch, R, S, D>,
        reading: Ch,
        writing: Ch,
        message_type: u64,
        receiver: R,
        sender: S,
    ) -> (result: Result<PeerBuilder<Ch, R, S, D>, Error>)
        ensures
            if builder@.peer.info.peer_id.0 != AUTHORITY_PEER {
                result == Ok::<PeerBuilder<Ch, R, S, D>, Error>(builder)
            } else {
                exists|bound: PeerBuilder<Ch, R, S, D>|
                    {
                        &&& bound@ == builder@.reading(
                            ChannelId(AUTHORITY_EVENT_CHANNEL),
                            (PeerBuilderChannel {
                                mode: ChannelMode::ReliableOrdered,
                                capacity: None,
                                channel: reading,
                            }),
                            (Endpoint { message_type, end: receiver }),
                        ).writing(
                            ChannelId(AUTHORITY_EVENT_CHANNEL),
                            (PeerBuilderChannel {
                                mode: ChannelMode::ReliableOrdered,
                                capacity: None,
                                channel: writing,
                            }),
                            (Endpoint { message_type, end: sender }),
                        )
                        &&& #[trigger] X::outfits(bound, result)
                    }
            },
    {
        if builder.info().peer_id.0 != AUTHORITY_PEER {
            return Ok(builder);
        }
        let bound = builder.bind_read_write(
            ChannelId(AUTHORITY_EVENT_CHANNEL),
            ChannelMode::ReliableOrdered,
            None,
            reading,
            writing,
            message_type,
            receiver,
            sender,
        );
        X::builder(bound)
    }

    /// Has a peer created: by the meeting if this is the server, else by asking the server under
    /// a fresh number.
    pub fn create_peer(&mut self, role_id: PeerRoleId) -> (result: Result<(), Error>)
        requires
            old(self)@.role matches Some(RoleView::Server { peers, .. }) ==> peers < u64::MAX,
        ensures
            exists|event_id: u128|
                drawn(event_id) && #[trigger] creates_peer(
                    old(self)@,
                    role_id,
                    event_id,
                    final(self)@,
                    failure(result),
                ),
    {
        let event_id: u128 = draw();
        let ghost before = self@;
        let result = self.create_peer_as(role_id, event_id);
        assert(creates_peer(before, role_id, event_id, self@, failure(result)));
        result
    }

    /// Has a peer created: by the meeting if this is the server, else by asking the server under
    /// a number.
    pub fn create_peer_as(&mut self, role_id: PeerRoleId, event_id: u128) -> (result: Result<
        (),
        Error,
    >)
        requires
            old(self)@.role matches Some(RoleView::Server { peers, .. }) ==> peers < u64::MAX,
        ensures
            creates_peer(old(self)@, role_id, event_id, final(self)@, failure(result)),
    {
        if role_id.0 == AUTHORITY_ROLE {
            return Err(Error::AuthorityRole);
        }
        let ghost before = self@;
        match &mut self.role {
            Some(Role::Server { peer_id_generator, .. }) => {
                *peer_id_generator = *peer_id_generator + 1;
                let peer_id = PeerId(*peer_id_generator);
                self.order(MeetingOrder::CreatePeer(peer_id, role_id))
            },
            Some(Role::Client { .. }) => self.send(
                AuthorityEvent::Request(event_id, AuthorityRequest::CreatePeer(role_id)),
                None,
            ),
            None => Err(Error::NoAuthority),
        }
    }

    /// Has a peer destroyed: by the meeting if this is the server, else by asking the server
    /// under a fresh number.
    pub fn destroy_peer(&mut self, peer_id: PeerId) -> (result: Result<(), Error>)
        ensures
            exists|event_id: u128|
                drawn(event_id) && #[trigger] destroys_peer(
                    old(self)@,
                    peer_id,
                    event_id,
                    final(self)@,
                    failure(result),
                ),
    {
        let event_id: u128 = draw();
        let ghost before = self@;
        let result = self.destroy_peer_as(peer_id, event_id);
        assert(destroys_peer(before, peer_id, event_id, self@, failure(result)));
        result
    }

    /// Has a peer destroyed: by the meeting if this is the server, else by asking the server
    /// under a number.
    pub fn destroy_peer_as(&mut self, peer_id: PeerId, event_id: u128) -> (result: Result<
        (),
        Error,
    >)
        ensures
            destroys_peer(old(self)@, peer_id, event_id, final(self)@, failure(result)),
    {
        if peer_id.0 == AUTHORITY_PEER {
            return Err(Error::AuthorityPeer);
        }
        match &self.role {
            Some(Role::Server { .. }) => self.order(MeetingOrder::DestroyPeer(peer_id)),
            Some(Role::Client { .. }) => self.send(
                AuthorityEvent::Request(event_id, AuthorityRequest::DestroyPeer(peer_id)),
                None,
            ),
            None => Err(Error::NoAuthority),
        }
    }

    /// Asks for the number of a new replica under a fresh number. The answer goes to `reply`, if
    /// somebody `waits` there.
    pub fn request_replica_id(&mut self, reply: u64, waits: bool) -> (result: Result<(), Error>)
        requires
            old(self)@.role matches Some(RoleView::Server { replicas, .. }) ==> replicas < u64::MAX,
        ensures
            exists|event_id: u128|
                drawn(event_id) && #[trigger] requests_replica(
                    old(self)@,
                    reply,
                    waits,
                    event_id,
                    final(self)@,
                    failure(result),
                ),
    {
        let event_id: u128 = draw();
        let ghost before = self@;
        let result = self.request_replica_id_as(reply, waits, event_id);
        assert(requests_replica(before, reply, waits, event_id, self@, failure(result)));
        result
    }

    /// Asks for the number of a new replica under a number. The answer goes to `reply`, if
    /// somebody `waits` there. The server fails if nobody does, and a client drops the answer.
    pub fn request_replica_id_as(&mut self, reply: u64, waits: bool, event_id: u128) -> (result:
        Result<(), Error>)
        requires
            old(self)@.role matches Some(RoleView::Server { replicas, .. }) ==> replicas < u64::MAX,
        ensures
            requests_replica(old(self)@, reply, waits, event_id, final(self)@, failure(result)),
    {
        match &mut self.role {
            Some(Role::Server { replica_id_generator, .. }) => {
                *replica_id_generator = *replica_id_generator + 1;
                let replica_id = ReplicaId(*replica_id_generator);
                if !waits {
                    return Err(Error::ChannelClosed);
                }
                self.replies.push_back((reply, replica_id));
                Ok(())
            },
            Some(Role::Client { requests, .. }) => {
                match find_request(requests, event_id) {
                    Some(place) => {
                        if waits {
                            requests.set(place, (event_id, reply));
                        } else {
                            requests.remove(place);
                        }
                    },
                    None => {
                        if waits {
                            requests.push((event_id, reply));
                        }
                    },
                }
                self.send(AuthorityEvent::Request(event_id, AuthorityRequest::ReplicaId), None)
            },
            None => Err(Error::NoAuthority),
        }
    }

    /// Takes note of who takes no more of what the authority tells.
    pub fn lose(&mut self, gone: Gone)
        ensures
            final(self)@ == (AuthorityView { gone, ..old(self)@ }),
    {
        self.gone = gone;
    }

    /// Tells the meeting to do something. Fails if it takes no more orders.
    fn order(&mut self, order: MeetingOrder) -> (result: Result<(), Error>)
        ensures
            final(self)@ == old(self)@.ordered(order).state,
            failure(result) == old(self)@.ordered(order).error,
    {
        if self.gone.meeting {
            return Err(Error::ChannelClosed);
        }
        self.orders.push_back(order);
        Ok(())
    }

    /// Sends a question or an answer. Fails if the channel takes no more of them.
    fn send(&mut self, event: AuthorityEvent, recepient: Option<EngineId>) -> (result: Result<
        (),
        Error,
    >)
        ensures
            final(self)@ == old(self)@.sent(event, recepient).state,
            failure(result) == old(self)@.sent(event, recepient).error,
    {
        if self.gone.events {
            return Err(Error::ChannelClosed);
        }
        self.events_out.push_back((event, recepient));
        Ok(())
    }

    /// Adds what the meeting told.
    pub fn push_meeting_event(&mut self, event: MeetingUserEvent<R, S, D>)
        ensures
            final(self)@ == (AuthorityView {
                meeting_events: old(self)@.meeting_events.push(event@),
                ..old(self)@
            }),
    {
        let ghost before = self@;
        self.meeting_events.push_back(event);
        assert(self@.meeting_events =~= before.meeting_events.push(event@));
    }

    /// Adds a question or an answer that came.
    pub fn push_event(&mut self, event: AuthorityEvent, sender: Option<EngineId>)
        ensures
            final(self)@ == (AuthorityView {
                events_in: old(self)@.events_in.push((event, sender)),
                ..old(self)@
            }),
    {
        self.events_in.push_back((event, sender));
    }

    /// Takes the first question or answer to send.
    pub fn take_event(&mut self) -> (result: Option<(AuthorityEvent, Option<EngineId>)>)
        ensures
            old(self)@.events_out.len() == 0 ==> result is None && final(self)@ == old(self)@,
            old(self)@.events_out.len() > 0 ==> result == Some(old(self)@.events_out[0])
                && final(self)@ == (AuthorityView {
                events_out: old(self)@.events_out.skip(1),
                ..old(self)@
            }),
    {
        let ghost before = self@;
        let result = self.events_out.pop_front();
        assert(before.events_out.len() > 0 ==> self@.events_out =~= before.events_out.skip(1));
        result
    }

    /// Takes the first thing that the meeting is to do.
    pub fn take_order(&mut self) -> (result: Option<MeetingOrder>)
        ensures
            old(self)@.orders.len() == 0 ==> result is None && final(self)@ == old(self)@,
            old(self)@.orders.len() > 0 ==> result == Some(old(self)@.orders[0]) && final(self)@
                == (AuthorityView { orders: old(self)@.orders.skip(1), ..old(self)@ }),
    {
        let ghost before = self@;
        let result = self.orders.pop_front();
        assert(before.orders.len() > 0 ==> self@.orders =~= before.orders.skip(1));
        result
    }

    /// Takes the first peer that was added.
    pub fn take_added_peer(&mut self) -> (result: Option<Peer<R, S, D>>)
        ensures
            old(self)@.added_peers.len() == 0 ==> result is None && final(self)@ == old(self)@,
            old(self)@.added_peers.len() > 0 ==> {
                &&& result matches Some(peer)
                &&& peer@ == old(self)@.added_peers[0]
                &&& final(self)@ == (AuthorityView {
                    added_peers: old(self)@.added_peers.skip(1),
                    ..old(self)@
                })
            },
    {
        let ghost before = self@;
        let result = self.added_peers.pop_front();
        assert(before.added_peers.len() > 0 ==> self@.added_peers
            =~= before.added_peers.skip(1));
        result
    }

    /// Takes the first peer that was removed.
    pub fn take_removed_peer(&mut self) -> (result: Option<PeerId>)
        ensures
            old(self)@.removed_peers.len() == 0 ==> result is None && final(self)@ == old(self)@,
            old(self)@.removed_peers.len() > 0 ==> result == Some(old(self)@.removed_peers[0])
                && final(self)@ == (AuthorityView {
                removed_peers: old(self)@.removed_peers.skip(1),
                ..old(self)@
            }),
    {
        let ghost before = self@;
        let result = self.removed_peers.pop_front();
        assert(before.removed_peers.len() > 0 ==> self@.removed_peers
            =~= before.removed_peers.skip(1));
        result
    }

    /// Takes the first number for a replica, with who waited for it.
    pub fn take_reply(&mut self) -> (result: Option<(u64, ReplicaId)>)
        ensures
            old(self)@.replies.len() == 0 ==> result is None && final(self)@ == old(self)@,
            old(self)@.replies.len() > 0 ==> result == Some(old(self)@.replies[0])
                && final(self)@ == (AuthorityView {
                replies: old(self)@.replies.skip(1),
                ..old(self)@
            }),
    {
        let ghost before = self@;
        let result = self.replies.pop_front();
        assert(before.replies.len() > 0 ==> self@.replies =~= before.replies.skip(1));
        result
    }

    /// Whether an answer for `reply` is there or can still come.
    pub fn awaits(&self, reply: u64) -> (result: bool)
        ensures
            result == self@.awaits(reply),
    {
        let mut i: usize = 0;
        while i < self.replies.len()
            invariant
                i <= self.replies@.len(),
                forall|j: int| 0 <= j < i ==> (#[trigger] self.replies@[j]).0 != reply,
            decreases self.replies@.len() - i,
        {
            if self.replies[i].0 == reply {
                assert(self@.replies[i as int].0 == reply);
                return true;
            }
            i = i + 1;
        }
        match &self.role {
            Some(Role::Client { requests, .. }) => {
                let mut i: usize = 0;
                while i < requests.len()
                    invariant
                        i <= requests@.len(),
                        self@.role == Some(RoleView::Client { requests: requests@ }),
                        forall|j: int| 0 <= j < i ==> (#[trigger] requests@[j]).1 != reply,
                    decreases requests@.len() - i,
                {
                    if requests[i].1 == reply {
                        proof {
                            let asked = self@.role->0->requests;
                            assert(asked == requests@);
                            assert(asked[i as int].1 == reply);
                        }
                        return true;
                    }
                    i = i + 1;
                }
                false
            },
            _ => false,
        }
    }

    /// Forgets the questions of one who does not wait for answers any more.
    pub fn forget_reply(&mut self, reply: u64)
        ensures
            final(self)@ == (match old(self)@.role {
                Some(RoleView::Client { requests }) => AuthorityView {
                    role: Some(RoleView::Client { requests: still_awaited(requests, reply) }),
                    ..old(self)@
                },
                _ => old(self)@,
            }),
    {
        let ghost before = self@;
        match &mut self.role {
            Some(Role::Client { requests, .. }) => {
                let ghost all = requests@;
                let mut kept: Vec<(u128, u64)> = Vec::new();
                let mut i: usize = 0;
                assert(all.take(0) =~= Seq::<(u128, u64)>::empty());
                while i < requests.len()
                    invariant
                        i <= requests@.len(),
                        requests@ == all,
                        kept@ == still_awaited(all.take(i as int), reply),
                    decreases requests@.len() - i,
                {
                    assert(all.take(i + 1).drop_last() =~= all.take(i as int));
                    let request: (u128, u64) = requests[i];
                    if request.1 != reply {
                        kept.push(request);
                    }
                    i = i + 1;
                }
                assert(all.take(i as int) =~= all);
                *requests = kept;
            },
            _ => {},
        }
        assert(self@ =~= (match before.role {
            Some(RoleView::Client { requests }) => AuthorityView {
                role: Some(RoleView::Client { requests: still_awaited(requests, reply) }),
                ..before
            },
            _ => before,
        }));
    }

    /// Lets go of the authority. Its peer is to be destroyed, if it is there and the meeting
    /// takes orders. What came for it is dropped.
    pub fn close(&mut self)
        ensures
            final(self)@ == (if old(self)@.role is Some {
                (AuthorityView {
                    role: None,
                    part: None,
                    events_in: Seq::empty(),
                    ..old(self)@
                }).ordered(MeetingOrder::DestroyPeer(PeerId(AUTHORITY_PEER)),
                ).state
            } else {
                old(self)@
            }),
    {
        if self.role.is_some() {
            self.role = None;
            self.events_in = VecDeque::new();
            assert(self.events_in@ =~= Seq::empty());
            let _ = self.order(MeetingOrder::DestroyPeer(PeerId(AUTHORITY_PEER)));
        }
    }

    /// Drops all questions and answers.
    fn drop_events(&mut self)
        ensures
            final(self)@ == (AuthorityView {
                events_in: Seq::empty(),
                events_out: Seq::empty(),
                ..old(self)@
            }),
    {
        self.events_in = VecDeque::new();
        self.events_out = VecDeque::new();
        assert(self@.events_in =~= Seq::empty());
        assert(self@.events_out =~= Seq::empty());
    }

    /// Turns the peer of the authority into its part. What went through another channel before
    /// is dropped.
    fn take_role(&mut self, peer: Peer<R, S, D>) -> (result: Result<(), Error>) where
        D: HoldsAuthority,

        requires
            peer@.info.peer_id.0 == AUTHORITY_PEER,
        ensures
            old(self)@.takes_role::<Ch>(peer@, final(self)@, failure(result)),
    {
        let ghost before = self@;
        let ghost held = peer@;
        let data: AuthorityUserData = match peer.user_data().access(self.data_type) {
            Err(error) => {
                return Err(error);
            },
            Ok(piece) => match piece.authority_data() {
                None => {
                    return Err(Error::NoUserData(self.data_type));
                },
                Some(data) => data,
            },
        };
        let mut parts = peer.destructure();
        let channel_id = ChannelId(AUTHORITY_EVENT_CHANNEL);
        match parts.read_write(channel_id, self.message_type) {
            Err(error) => Err(error),
            Ok(events) => match X::into_typed(parts) {
                Err(error) => {
                    assert(gives_extension::<Ch, R, S, D, X>(
                        held,
                        parts,
                        Err::<X, Error>(error),
                    ));
                    Err(error)
                },
                Ok(extension) => {
                    assert(gives_extension::<Ch, R, S, D, X>(
                        held,
                        parts,
                        Ok::<X, Error>(extension),
                    ));
                    self.role = if data.is_server {
                        Some(
                            Role::Server {
                                events,
                                peer_id_generator: 0,
                                replica_id_generator: 0,
                                extension,
                            },
                        )
                    } else {
                        Some(Role::Client { events, requests: Vec::new(), extension })
                    };
                    self.gone.events = false;
                    self.drop_events();
                    Ok(())
                },
            },
        }
    }

    /// Handles what the meeting told.
    fn handle_meeting_event(&mut self, event: MeetingUserEvent<R, S, D>) -> (result: Result<
        (),
        Error,
    >) where D: HoldsAuthority
        ensures
            old(self)@.handles_meeting::<Ch>(event@, final(self)@, failure(result)),
    {
        let ghost before = self@;
        match event {
            MeetingUserEvent::PeerAdded(peer) => {
                if peer.info().peer_id.0 == AUTHORITY_PEER {
                    self.take_role(peer)
                } else {
                    if self.gone.added_peers {
                        return Err(Error::ChannelClosed);
                    }
                    self.added_peers.push_back(peer);
                    assert(self@.added_peers =~= before.added_peers.push(peer@));
                    Ok(())
                }
            },
            MeetingUserEvent::PeerRemoved(peer_id) => {
                if peer_id.0 == AUTHORITY_PEER {
                    self.role = None;
                    self.drop_events();
                } else {
                    if self.gone.removed_peers {
                        return Err(Error::ChannelClosed);
                    }
                    self.removed_peers.push_back(peer_id);
                }
                Ok(())
            },
            _ => Ok(()),
        }
    }

    /// Handles a question or an answer.
    fn handle_event(&mut self, event: AuthorityEvent, sender: Option<EngineId>) -> (result:
        Result<(), Error>)
        requires
            old(self)@.role matches Some(RoleView::Server { peers, replicas }) ==> peers < u64::MAX
                && replicas < u64::MAX,
        ensures
            final(self)@ == old(self)@.after_event(event, sender).state,
            failure(result) == old(self)@.after_event(event, sender).error,
    {
        let ghost before = self@;
        match &mut self.role {
            Some(Role::Server { peer_id_generator, replica_id_generator, .. }) => match event {
                AuthorityEvent::Request(event_id, request) => match request {
                    AuthorityRequest::CreatePeer(role_id) => {
                        *peer_id_generator = *peer_id_generator + 1;
                        let peer_id = PeerId(*peer_id_generator);
                        self.send(
                            AuthorityEvent::Response(
                                event_id,
                                AuthorityResponse::CreatePeer(peer_id, role_id),
                            ),
                            sender,
                        )
                    },
                    AuthorityRequest::DestroyPeer(peer_id) => {
                        if peer_id.0 == AUTHORITY_PEER {
                            return Err(Error::AuthorityPeer);
                        }
                        self.order(MeetingOrder::DestroyPeer(peer_id))
                    },
                    AuthorityRequest::ReplicaId => {
                        *replica_id_generator = *replica_id_generator + 1;
                        let replica_id = ReplicaId(*replica_id_generator);
                        self.send(
                            AuthorityEvent::Response(
                                event_id,
                                AuthorityResponse::ReplicaId(replica_id),
                            ),
                            sender,
                        )
                    },
                },
                AuthorityEvent::Response(_, _) => Ok(()),
            },
            Some(Role::Client { requests, .. }) => match event {
                AuthorityEvent::Response(event_id, response) => match response {
                    AuthorityResponse::CreatePeer(peer_id, role_id) => {
                        if role_id.0 == AUTHORITY_ROLE {
                            return Err(Error::AuthorityRole);
                        }
                        self.order(MeetingOrder::CreatePeer(peer_id, role_id))
                    },
                    AuthorityResponse::ReplicaId(replica_id) => {
                        if let Some(place) = find_request(requests, event_id) {
                            let (_, reply) = requests.remove(place);
                            self.replies.push_back((reply, replica_id));
                        }
                        Ok(())
                    },
                },
                AuthorityEvent::Request(_, _) => Ok(()),
            },
            None => Ok(()),
        }
    }

    /// Handles all that the meeting told.
    fn drain_meeting_events(&mut self) -> (result: Result<(), Error>) where D: HoldsAuthority
        ensures
            old(self)@.meeting_phase::<Ch>(final(self)@, failure(result)),
    {
        let ghost before = self@;
        let total: usize = self.meeting_events.len();
        let mut count: usize = 0;
        assert(total == before.meeting_events.len());
        while count < total
            invariant
                before == old(self)@,
                count <= total,
                total == before.meeting_events.len(),
                before.meeting_drained::<Ch>(count as nat, self@),
            decreases total - count,
        {
            let ghost between = self@;
            proof {
                before.lemma_meeting_drained::<Ch>(count as nat, between);
            }
            let ghost taken = AuthorityView {
                meeting_events: between.meeting_events.skip(1),
                ..between
            };
            if let Some(event) = self.meeting_events.pop_front() {
                assert(event@ == between.meeting_events[0]);
                assert(self@.meeting_events =~= between.meeting_events.skip(1));
                assert(self@ =~= taken);
                match self.handle_meeting_event(event) {
                    Ok(_) => {
                        assert(between.meeting_stepped::<Ch>(self@, None));
                    },
                    Err(error) => {
                        assert(between.meeting_stepped::<Ch>(self@, Some(error)));
                        assert(between.meeting_failed_behind::<Ch>(
                            count as nat,
                            self@,
                            error,
                        ));
                        return Err(error);
                    },
                }
            }
            count = count + 1;
            assert(before.meeting_drained::<Ch>(count as nat, self@));
        }
        Ok(())
    }

    /// Handles all questions and answers.
    fn drain_events(&mut self) -> (result: Result<(), Error>)
        requires
            old(self)@.role matches Some(RoleView::Server { peers, replicas }) ==> {
                &&& peers + old(self)@.events_in.len() <= u64::MAX
                &&& replicas + old(self)@.events_in.len() <= u64::MAX
            },
        ensures
            final(self)@ == old(self)@.after_all_events().state,
            failure(result) == old(self)@.after_all_events().error,
    {
        let ghost before = self@;
        if self.role.is_none() {
            return Ok(());
        }
        let total: usize = self.events_in.len();
        let mut count: usize = 0;
        while count < total
            invariant
                before == old(self)@,
                before.role is Some,
                count <= total,
                total == before.events_in.len(),
                before.role matches Some(RoleView::Server { peers, replicas }) ==> {
                    &&& peers + total <= u64::MAX
                    &&& replicas + total <= u64::MAX
                },
                self@ == before.after_events(count as nat).state,
                before.after_events(count as nat).error is None,
            decreases total - count,
        {
            let ghost between = self@;
            proof {
                lemma_after_events(before, count as nat);
                if before.role->Some_0 is Server {
                    law_numbers_only_go_up(before, count as nat);
                }
            }
            if let Some((event, sender)) = self.events_in.pop_front() {
                assert(self@.events_in =~= between.events_in.skip(1));
                assert(self@ =~= (AuthorityView {
                    events_in: between.events_in.skip(1),
                    ..between
                }));
                match self.handle_event(event, sender) {
                    Ok(_) => {},
                    Err(error) => {
                        proof {
                            lemma_stopped(before, (count + 1) as nat, before.events_in.len());
                        }
                        return Err(error);
                    },
                }
            }
            count = count + 1;
        }
        Ok(())
    }

    /// Handles all that the meeting told, and then all questions and answers.
    pub fn maintain(&mut self) -> (result: Result<(), Error>) where D: HoldsAuthority
        requires
            old(self)@.has_numbers_left(),
        ensures
            exists|between: AuthorityView<R, S, D, X>| #[trigger]
                old(self)@.maintained_through::<Ch>(between, final(self)@, failure(result)),
    {
        let ghost before = self@;
        match self.drain_meeting_events() {
            Err(error) => {
                assert(before.maintained_through::<Ch>(self@, self@, Some(error)));
                Err(error)
            },
            Ok(_) => {
                let ghost between = self@;
                proof {
                    before.lemma_meeting_drained::<Ch>(before.meeting_events.len(), between);
                }
                let result = self.drain_events();
                assert(before.maintained_through::<Ch>(between, self@, failure(result)));
                result
            },
        }
    }
}

/// Once handling failed, nothing more is handled.
proof fn lemma_stopped<R, S, D, X>(state: AuthorityView<R, S, D, X>, count: nat, total: nat)
    requires
        count <= total,
        state.after_events(count).error is Some,
    ensures
        state.after_events(total) == state.after_events(count),
    decreases total,
{
    if count < total {
        lemma_stopped(state, count, (total - 1) as nat);
    }
}

/// Where the question with a number stands.
fn find_request(requests: &Vec<(u128, u64)>, event_id: u128) -> (result: Option<usize>)
    ensures
        match result {
            Some(place) => place == place_of_request(requests@, event_id) && place
                < requests@.len(),
            None => place_of_request(requests@, event_id) < 0,
        },
{
    let mut left: usize = requests.len();
    assert(requests@.take(left as int) =~= requests@);
    while left > 0
        invariant
            left <= requests@.len(),
            place_of_request(requests@, event_id) == place_of_request(
                requests@.take(left as int),
                event_id,
            ),
        decreases left,
    {
        let ghost part = requests@.take(left as int);
        left = left - 1;
        assert(part.drop_last() =~= requests@.take(left as int));
        if requests[left].0 == event_id {
            return Some(left);
        }
    }
    assert(requests@.take(0) =~= Seq::<(u128, u64)>::empty());
    None
}

/// What having a peer created comes to.
pub open spec fn creates_peer<R, S, D, X>(
    before: AuthorityView<R, S, D, X>,
    role_id: PeerRoleId,
    event_id: u128,
    after: AuthorityView<R, S, D, X>,
    error: Option<Error>,
) -> bool {
    if role_id.0 == AUTHORITY_ROLE {
        error == Some(Error::AuthorityRole) && after == before
    } else {
        match before.role {
            None => error == Some(Error::NoAuthority) && after == before,
            Some(RoleView::Server { peers, replicas }) => {
                (Handled { state: after, error }) == (AuthorityView {
                    role: Some(RoleView::Server { peers: (peers + 1) as u64, replicas }),
                    ..before
                }).ordered(MeetingOrder::CreatePeer(PeerId((peers + 1) as u64), role_id))
            },
            Some(RoleView::Client { requests }) => {
                (Handled { state: after, error }) == before.asked(
                    event_id,
                    AuthorityRequest::CreatePeer(role_id),
                )
            },
        }
    }
}

/// What having a peer destroyed comes to.
pub open spec fn destroys_peer<R, S, D, X>(
    before: AuthorityView<R, S, D, X>,
    peer_id: PeerId,
    event_id: u128,
    after: AuthorityView<R, S, D, X>,
    error: Option<Error>,
) -> bool {
    if peer_id.0 == AUTHORITY_PEER {
        error == Some(Error::AuthorityPeer) && after == before
    } else {
        match before.role {
            None => error == Some(Error::NoAuthority) && after == before,
            Some(RoleView::Server { peers, replicas }) => {
                (Handled { state: after, error }) == before.ordered(
                    MeetingOrder::DestroyPeer(peer_id),
                )
            },
            Some(RoleView::Client { requests }) => {
                (Handled { state: after, error }) == before.asked(
                    event_id,
                    AuthorityRequest::DestroyPeer(peer_id),
                )
            },
        }
    }
}

/// What asking for the number of a new replica comes to.
pub open spec fn requests_replica<R, S, D, X>(
    before: AuthorityView<R, S, D, X>,
    reply: u64,
    waits: bool,
    event_id: u128,
    after: AuthorityView<R, S, D, X>,
    error: Option<Error>,
) -> bool {
    match before.role {
        None => error == Some(Error::NoAuthority) && after == before,
        Some(RoleView::Server { peers, replicas }) => {
            &&& error == (if waits {
                None
            } else {
                Some(Error::ChannelClosed)
            })
            &&& after == (AuthorityView {
                role: Some(RoleView::Server { peers, replicas: (replicas + 1) as u64 }),
                replies: if waits {
                    before.replies.push((reply, ReplicaId((replicas + 1) as u64)))
                } else {
                    before.replies
                },
                ..before
            })
        },
        Some(RoleView::Client { requests }) => {
            (Handled { state: after, error }) == (AuthorityView {
                role: Some(
                    RoleView::Client {
                        requests: if waits {
                            with_request(requests, event_id, reply)
                        } else {
                            without_request(requests, event_id)
                        },
                    },
                ),
                ..before
            }).asked(event_id, AuthorityRequest::ReplicaId)
        },
    }
}

/// Whether the rest of the peer of the authority can turn into this.
pub open spec fn gives_extension<Ch, R, S, D, X: TypedPeer<Ch, R, S, D>>(
    peer: PeerView<R, S, D>,
    parts: PeerDestructurer<R, S, D>,
    extension: Result<X, Error>,
) -> bool {
    &&& parts@ == (PeerView {
        receivers: without_key(peer.receivers, AUTHORITY_EVENT_CHANNEL),
        senders: without_key(peer.senders, AUTHORITY_EVENT_CHANNEL),
        ..peer.taken_apart()
    })
    &&& X::typed(parts, extension)
}

impl<R, S, D, X> AuthorityView<R, S, D, X> {
    /// The ends through which the authority is asked, or why they cannot be had from a peer.
    pub open spec fn found_ends(self, peer: PeerView<R, S, D>) -> Result<Duplex<S, R>, Error> {
        let channel_id = ChannelId(AUTHORITY_EVENT_CHANNEL);
        match found_end(
            peer.receivers,
            channel_id,
            self.message_type,
            Error::NoReceiver(AUTHORITY_EVENT_CHANNEL),
        ) {
            Err(error) => Err(error),
            Ok(receiver) => match found_end(
                peer.senders,
                channel_id,
                self.message_type,
                Error::NoSender(AUTHORITY_EVENT_CHANNEL),
            ) {
                Err(error) => Err(error),
                Ok(sender) => Ok(Duplex { sender, receiver }),
            },
        }
    }

    /// Whether an answer for `reply` is there or can still come.
    pub open spec fn awaits(self, reply: u64) -> bool {
        ||| exists|i: int| 0 <= i < self.replies.len() && (#[trigger] self.replies[i]).0 == reply
        ||| self.role matches Some(RoleView::Client { requests }) && exists|i: int|
            0 <= i < requests.len() && (#[trigger] requests[i]).1 == reply
    }

    /// Whether turning the peer of the authority into its part can give `after`.
    pub open spec fn takes_role<Ch>(
        self,
        peer: PeerView<R, S, D>,
        after: Self,
        error: Option<Error>,
    ) -> bool where X: TypedPeer<Ch, R, S, D>, D: HoldsAuthority {
        match (found_data(peer.user_data, self.data_type), self.found_ends(peer)) {
            (None, _) => error == Some(Error::NoUserData(self.data_type)) && after == self,
            (Some(_), Err(reason)) => error == Some(reason) && after == self,
            (Some(data), Ok(ends)) => exists|parts: PeerDestructurer<R, S, D>, extension: Result<X, Error>|
                {
                    &&& #[trigger] gives_extension::<Ch, R, S, D, X>(peer, parts, extension)
                    &&& match extension {
                        Err(reason) => error == Some(reason) && after == self,
                        Ok(rest) => error is None && after == (AuthorityView {
                            part: Some((ends, rest)),
                            role: Some(
                                if data.is_server {
                                    RoleView::Server { peers: 0, replicas: 0 }
                                } else {
                                    RoleView::Client { requests: Seq::empty() }
                                },
                            ),
                            gone: Gone { events: false, ..self.gone },
                            ..self.without_role()
                        }),
                    }
                },
        }
    }

    /// Whether handling what the meeting told can give `after`.
    pub open spec fn handles_meeting<Ch>(
        self,
        event: UserEventView<R, S, D>,
        after: Self,
        error: Option<Error>,
    ) -> bool where X: TypedPeer<Ch, R, S, D>, D: HoldsAuthority {
        match event {
            UserEventView::PeerAdded(peer) => if peer.info.peer_id.0 == AUTHORITY_PEER {
                self.takes_role::<Ch>(peer, after, error)
            } else {
                (Handled { state: after, error }) == self.with_added(peer)
            },
            UserEventView::PeerRemoved(peer_id) => if peer_id.0 == AUTHORITY_PEER {
                error is None && after == self.without_role()
            } else {
                (Handled { state: after, error }) == self.with_removed(peer_id)
            },
            _ => error is None && after == self,
        }
    }

    /// Whether handling the first thing that the meeting told can give `after`.
    pub open spec fn meeting_stepped<Ch>(
        self,
        after: Self,
        error: Option<Error>,
    ) -> bool where X: TypedPeer<Ch, R, S, D>, D: HoldsAuthority {
        &&& self.meeting_events.len() > 0
        &&& (AuthorityView {
            meeting_events: self.meeting_events.skip(1),
            ..self
        }).handles_meeting::<Ch>(self.meeting_events[0], after, error)
    }

    /// Whether handling `count` things that the meeting told can give `after`.
    pub open spec fn meeting_drained<Ch>(
        self,
        count: nat,
        after: Self,
    ) -> bool where X: TypedPeer<Ch, R, S, D>, D: HoldsAuthority
        decreases count,
    {
        if count == 0 {
            after == self
        } else {
            exists|between: Self|
                {
                    &&& self.meeting_drained::<Ch>((count - 1) as nat, between)
                    &&& #[trigger] between.meeting_stepped::<Ch>(after, None)
                }
        }
    }

    /// Whether one more thing behind `count` others can fail with `error`.
    pub open spec fn meeting_failed_behind<Ch>(
        self,
        count: nat,
        after: Self,
        error: Error,
    ) -> bool where X: TypedPeer<Ch, R, S, D>, D: HoldsAuthority {
        self.meeting_stepped::<Ch>(after, Some(error))
    }

    /// Whether handling all that the meeting told, up to the first that fails, can give `after`.
    pub open spec fn meeting_phase<Ch>(
        self,
        after: Self,
        error: Option<Error>,
    ) -> bool where X: TypedPeer<Ch, R, S, D>, D: HoldsAuthority {
        match error {
            None => self.meeting_drained::<Ch>(self.meeting_events.len(), after),
            Some(reason) => exists|count: nat, between: Self|
                {
                    &&& count < self.meeting_events.len()
                    &&& self.meeting_drained::<Ch>(count, between)
                    &&& #[trigger] between.meeting_failed_behind::<Ch>(count, after, reason)
                },
        }
    }

    /// Whether no number is used up while what waits is handled.
    pub open spec fn has_numbers_left(self) -> bool {
        &&& self.events_in.len() <= u64::MAX
        &&& self.role matches Some(RoleView::Server { peers, replicas }) ==> {
            &&& peers + self.events_in.len() <= u64::MAX
            &&& replicas + self.events_in.len() <= u64::MAX
        }
    }

    /// What handling what the meeting told leaves alone.
    pub proof fn lemma_meeting_drained<Ch>(self, count: nat, after: Self) where
        X: TypedPeer<Ch, R, S, D>,
        D: HoldsAuthority,

        requires
            self.meeting_drained::<Ch>(count, after),
        ensures
            count <= self.meeting_events.len(),
            after.meeting_events == self.meeting_events.skip(count as int),
            after.events_in.len() <= self.events_in.len(),
            self.has_numbers_left() ==> after.has_numbers_left(),
        decreases count,
    {
        if count > 0 {
            let between = choose|between: Self|
                {
                    &&& self.meeting_drained::<Ch>((count - 1) as nat, between)
                    &&& #[trigger] between.meeting_stepped::<Ch>(after, None)
                };
            self.lemma_meeting_drained::<Ch>((count - 1) as nat, between);
            assert(between.meeting_events.skip(1) =~= self.meeting_events.skip(count as int));
        } else {
            assert(self.meeting_events.skip(0) =~= self.meeting_events);
        }
    }

    /// Whether a round of work can go through `between`, where all that the meeting told is
    /// handled, and leave `after`.
    pub open spec fn maintained_through<Ch>(
        self,
        between: Self,
        after: Self,
        error: Option<Error>,
    ) -> bool where X: TypedPeer<Ch, R, S, D>, D: HoldsAuthority {
        ||| error is Some && after == between && self.meeting_phase::<Ch>(after, error)
        ||| {
            &&& self.meeting_phase::<Ch>(between, None)
            &&& after == between.after_all_events().state
            &&& error == between.after_all_events().error
        }
    }
}

/// The number that a server gives to a new replica is one above the last, and the one who asked
/// gets it; asking in vain uses a number up all the same.
pub proof fn law_server_numbers_its_own_replicas<R, S, D, X>(
    before: AuthorityView<R, S, D, X>,
    reply: u64,
    waits: bool,
    event_id: u128,
    after: AuthorityView<R, S, D, X>,
    error: Option<Error>,
)
    requires
        before.role matches Some(RoleView::Server { replicas, .. }) && replicas < u64::MAX,
        requests_replica(before, reply, waits, event_id, after, error),
    ensures
        after.role matches Some(RoleView::Server { peers, replicas }) && {
            &&& replicas == before.role->0->replicas + 1
            &&& peers == before.role->0->peers
            &&& waits ==> after.replies == before.replies.push((reply, ReplicaId(replicas)))
        },
        !waits ==> after.replies == before.replies,
        error is None <==> waits,
        error is Some ==> error == Some(Error::ChannelClosed),
        after.events_out == before.events_out,
        after.orders == before.orders,
{
}

/// A client that asks for the number of a replica and a server that answers give the one who
/// asked the number that the server took next. The question goes to the server under its
/// number, the answer goes back to the machine that asked, and then nobody waits for it.
pub proof fn law_replica_number_comes_back<R, S, D, X>(
    client: AuthorityView<R, S, D, X>,
    server: AuthorityView<R, S, D, X>,
    reply: u64,
    event_id: u128,
    asked: AuthorityView<R, S, D, X>,
    error: Option<Error>,
    sender: Option<EngineId>,
)
    requires
        client.role matches Some(RoleView::Client { requests }) && place_of_request(
            requests,
            event_id,
        ) < 0,
        !client.gone.events,
        server.role matches Some(RoleView::Server { replicas, .. }) && replicas < u64::MAX,
        !server.gone.events,
        requests_replica(client, reply, true, event_id, asked, error),
    ensures
        ({
            let question = asked.events_out.last();
            let answered = server.after_event(question.0, sender);
            let answer = answered.state.events_out.last();
            let done = asked.after_event(answer.0, None);
            let number = ReplicaId((server.role->0->replicas + 1) as u64);
            &&& error is None
            &&& asked.events_out == client.events_out.push(question)
            &&& question == (
                AuthorityEvent::Request(event_id, AuthorityRequest::ReplicaId),
                None::<EngineId>,
            )
            &&& asked.awaits(reply)
            &&& answered.error is None
            &&& answered.state.events_out == server.events_out.push(answer)
            &&& answer.1 == sender
            &&& answered.state.role->0 is Server
            &&& answered.state.role->0->replicas == number.0
            &&& answered.state.role->0->peers == server.role->0->peers
            &&& done.error is None
            &&& done.state.replies == client.replies.push((reply, number))
            &&& done.state.role == client.role
        }),
{
    let requests = client.role->0->requests;
    let more = requests.push((event_id, reply));
    assert(asked.role == Some(RoleView::Client { requests: more }));
    assert(more.last() == (event_id, reply));
    assert(place_of_request(more, event_id) == requests.len());
    assert(more.remove(requests.len() as int) =~= requests);
    assert(more[requests.len() as int].1 == reply);
    let question = asked.events_out.last();
    assert(asked.events_out =~= client.events_out.push(question));
    let answered = server.after_event(question.0, sender);
    assert(answered.state.events_out =~= server.events_out.push(
        answered.state.events_out.last(),
    ));
}

/// A client that has a peer created and a server that answers make the meeting of the client
/// create a peer of that role under the number that the server took next. A server has its own
/// meeting do so.
pub proof fn law_created_peer_is_ordered<R, S, D, X>(
    client: AuthorityView<R, S, D, X>,
    server: AuthorityView<R, S, D, X>,
    role_id: PeerRoleId,
    event_id: u128,
    asked: AuthorityView<R, S, D, X>,
    ordered: AuthorityView<R, S, D, X>,
    error: Option<Error>,
    own_error: Option<Error>,
    sender: Option<EngineId>,
)
    requires
        role_id.0 != AUTHORITY_ROLE,
        client.role is Some,
        client.role->0 is Client,
        !client.gone.events,
        !client.gone.meeting,
        server.role matches Some(RoleView::Server { peers, .. }) && peers < u64::MAX,
        !server.gone.events,
        !server.gone.meeting,
        creates_peer(client, role_id, event_id, asked, error),
        creates_peer(server, role_id, event_id, ordered, own_error),
    ensures
        ({
            let question = asked.events_out.last();
            let answered = server.after_event(question.0, sender);
            let answer = answered.state.events_out.last();
            let done = asked.after_event(answer.0, None);
            let number = PeerId((server.role->0->peers + 1) as u64);
            &&& error is None
            &&& question.1 is None
            &&& asked.orders == client.orders
            &&& answered.error is None
            &&& answered.state.orders == server.orders
            &&& answer.1 == sender
            &&& answered.state.role->0 is Server
            &&& answered.state.role->0->peers == number.0
            &&& answered.state.role->0->replicas == server.role->0->replicas
            &&& done.error is None
            &&& done.state.orders == client.orders.push(MeetingOrder::CreatePeer(number, role_id))
            &&& done.state.role == client.role
            &&& own_error is None
            &&& ordered.orders == server.orders.push(MeetingOrder::CreatePeer(number, role_id))
            &&& ordered.role == answered.state.role
            &&& ordered.events_out == server.events_out
        }),
{
}

/// A client that has a peer destroyed makes the meeting of the server destroy it, and a server
/// has its own meeting do so. No number is used up.
pub proof fn law_destroyed_peer_is_ordered<R, S, D, X>(
    client: AuthorityView<R, S, D, X>,
    server: AuthorityView<R, S, D, X>,
    peer_id: PeerId,
    event_id: u128,
    asked: AuthorityView<R, S, D, X>,
    ordered: AuthorityView<R, S, D, X>,
    error: Option<Error>,
    own_error: Option<Error>,
    sender: Option<EngineId>,
)
    requires
        peer_id.0 != AUTHORITY_PEER,
        client.role is Some,
        client.role->0 is Client,
        !client.gone.events,
        server.role is Some,
        server.role->0 is Server,
        !server.gone.meeting,
        destroys_peer(client, peer_id, event_id, asked, error),
        destroys_peer(server, peer_id, event_id, ordered, own_error),
    ensures
        ({
            let question = asked.events_out.last();
            let answered = server.after_event(question.0, sender);
            &&& error is None
            &&& asked.events_out.len() == client.events_out.len() + 1
            &&& asked.orders == client.orders
            &&& answered.error is None
            &&& answered.state.orders == server.orders.push(MeetingOrder::DestroyPeer(peer_id))
            &&& answered.state.events_out == server.events_out
            &&& answered.state.role == server.role
            &&& own_error is None
            &&& ordered == answered.state
        }),
{
}

/// Nobody has the peer of the authority destroyed or another one of its role created, neither
/// here nor by way of a question or an answer, and without an authority nothing is done at all.
pub proof fn law_authority_is_out_of_reach<R, S, D, X>(
    state: AuthorityView<R, S, D, X>,
    role_id: PeerRoleId,
    peer_id: PeerId,
    event_id: u128,
    sender: Option<EngineId>,
    after: AuthorityView<R, S, D, X>,
    error: Option<Error>,
)
    ensures
        role_id.0 == AUTHORITY_ROLE && creates_peer(state, role_id, event_id, after, error)
            ==> after == state && error == Some(Error::AuthorityRole),
        peer_id.0 == AUTHORITY_PEER && destroys_peer(state, peer_id, event_id, after, error)
            ==> after == state && error == Some(Error::AuthorityPeer),
        peer_id.0 == AUTHORITY_PEER && state.role is Some && state.role->0 is Server
            ==> state.after_event(
            AuthorityEvent::Request(event_id, AuthorityRequest::DestroyPeer(peer_id)),
            sender,
        ) == (Handled { state, error: Some(Error::AuthorityPeer) }),
        role_id.0 == AUTHORITY_ROLE && state.role is Some && state.role->0 is Client
            ==> state.after_event(
            AuthorityEvent::Response(event_id, AuthorityResponse::CreatePeer(peer_id, role_id)),
            sender,
        ) == (Handled { state, error: Some(Error::AuthorityRole) }),
        state.role is None && role_id.0 != AUTHORITY_ROLE && creates_peer(
            state,
            role_id,
            event_id,
            after,
            error,
        ) ==> after == state && error == Some(Error::NoAuthority),
        state.role is None && peer_id.0 != AUTHORITY_PEER && destroys_peer(
            state,
            peer_id,
            event_id,
            after,
            error,
        ) ==> after == state && error == Some(Error::NoAuthority),
{
}

/// Without an authority no number of a replica is asked for.
pub proof fn law_no_numbers_without_authority<R, S, D, X>(
    state: AuthorityView<R, S, D, X>,
    reply: u64,
    waits: bool,
    event_id: u128,
    after: AuthorityView<R, S, D, X>,
    error: Option<Error>,
)
    requires
        state.role is None,
        requests_replica(state, reply, waits, event_id, after, error),
    ensures
        after == state,
        error == Some(Error::NoAuthority),
{
}

/// Answers are nothing to a server, questions nothing to a client, and an answer that nobody
/// waits for nothing to anybody.
pub proof fn law_stray_events_are_nothing<R, S, D, X>(
    state: AuthorityView<R, S, D, X>,
    event_id: u128,
    request: AuthorityRequest,
    response: AuthorityResponse,
    replica_id: ReplicaId,
    sender: Option<EngineId>,
)
    requires
        state.role is Some,
    ensures
        state.role->0 is Server ==> state.after_event(
            AuthorityEvent::Response(event_id, response),
            sender,
        ) == (Handled { state, error: None }),
        state.role->0 is Client ==> state.after_event(
            AuthorityEvent::Request(event_id, request),
            sender,
        ) == (Handled { state, error: None }),
        (state.role->0 is Client && place_of_request(state.role->0->requests, event_id) < 0)
            ==> state.after_event(
            AuthorityEvent::Response(event_id, AuthorityResponse::ReplicaId(replica_id)),
            sender,
        ) == (Handled { state, error: None }),
{
}

/// A channel that takes no more is the only reason for which a proper question or answer is not
/// sent, and a meeting that takes no more orders the only one for which it is not ordered.
pub proof fn law_closed_channels_are_told<R, S, D, X>(
    state: AuthorityView<R, S, D, X>,
    event: AuthorityEvent,
    recepient: Option<EngineId>,
    order: MeetingOrder,
)
    ensures
        state.gone.events ==> state.sent(event, recepient) == (Handled {
            state,
            error: Some(Error::ChannelClosed),
        }),
        !state.gone.events ==> state.sent(event, recepient).error is None && state.sent(
            event,
            recepient,
        ).state.events_out == state.events_out.push((event, recepient)),
        state.gone.meeting ==> state.ordered(order) == (Handled {
            state,
            error: Some(Error::ChannelClosed),
        }),
        !state.gone.meeting ==> state.ordered(order).error is None && state.ordered(
            order,
        ).state.orders == state.orders.push(order),
{
}

/// Where a question stands is where its number does, and the questions of others stay.
pub proof fn law_place_of_request(requests: Seq<(u128, u64)>, event_id: u128, place: int)
    ensures
        place_of_request(requests, event_id) < requests.len(),
        place_of_request(requests, event_id) >= 0 ==> requests[place_of_request(
            requests,
            event_id,
        )].0 == event_id,
        0 <= place < requests.len() && requests[place].0 == event_id ==> place
            <= place_of_request(requests, event_id),
    decreases requests.len(),
{
    if requests.len() > 0 {
        law_place_of_request(requests.drop_last(), event_id, place);
    }
}

/// A question that is asked waits for its answer, and no other question with its number does;
/// one that is asked without waiting does not.
pub proof fn law_questions_wait(
    requests: Seq<(u128, u64)>,
    event_id: u128,
    reply: u64,
    other: (u128, u64),
)
    requires
        forall|i: int, j: int|
            0 <= i < j < requests.len() ==> (#[trigger] requests[i]).0 != (
            #[trigger] requests[j]).0,
    ensures
        with_request(requests, event_id, reply).contains(other) <==> other == (event_id, reply) || (
        other.0 != event_id && requests.contains(other)),
        without_request(requests, event_id).contains(other) <==> other.0 != event_id
            && requests.contains(other),
{
    let place = place_of_request(requests, event_id);
    law_place_of_request(requests, event_id, place);
    let with = with_request(requests, event_id, reply);
    let without = without_request(requests, event_id);
    assert forall|i: int| 0 <= i < requests.len() && i != place implies (#[trigger] requests[i]).0
        != event_id by {
        law_place_of_request(requests, event_id, i);
    }
    assert(with.contains((event_id, reply))) by {
        if place >= 0 {
            assert(with[place] == (event_id, reply));
        } else {
            assert(with[requests.len() as int] == (event_id, reply));
        }
    }
    if requests.contains(other) && other.0 != event_id {
        let i = choose|i: int| 0 <= i < requests.len() && requests[i] == other;
        assert(with[i] == other);
        if place < 0 || i < place {
            assert(without[i] == other);
        } else {
            assert(without[i - 1] == other);
        }
    }
    if with.contains(other) && other != (event_id, reply) {
        let i = choose|i: int| 0 <= i < with.len() && with[i] == other;
        assert(requests[i] == other);
    }
    if without.contains(other) {
        let i = choose|i: int| 0 <= i < without.len() && without[i] == other;
        if place < 0 || i < place {
            assert(requests[i] == other);
        } else {
            assert(requests[i + 1] == other);
        }
    }
}

/// Forgetting one who waits drops all their questions and nobody else's.
pub proof fn law_forgotten_questions(
    requests: Seq<(u128, u64)>,
    reply: u64,
    question: (u128, u64),
)
    ensures
        still_awaited(requests, reply).contains(question) <==> requests.contains(question)
            && question.1 != reply,
        still_awaited(requests, reply).len() <= requests.len(),
    decreases requests.len(),
{
    if requests.len() > 0 {
        let rest = requests.drop_last();
        let before = still_awaited(rest, reply);
        let kept = still_awaited(requests, reply);
        law_forgotten_questions(rest, reply, question);
        if rest.contains(question) {
            let i = choose|i: int| 0 <= i < rest.len() && rest[i] == question;
            assert(requests[i] == question);
        }
        if requests.contains(question) && requests.last() != question {
            let i = choose|i: int| 0 <= i < requests.len() && requests[i] == question;
            assert(rest[i] == question);
        }
        if requests.last() == question {
            assert(requests[requests.len() - 1] == question);
        }
        if before.contains(question) {
            let i = choose|i: int| 0 <= i < before.len() && before[i] == question;
            assert(kept[i] == question);
        }
        if kept.len() > before.len() {
            assert(kept[before.len() as int] == requests.last());
            if kept.contains(question) && requests.last() != question {
                let i = choose|i: int| 0 <= i < kept.len() && kept[i] == question;
                assert(before[i] == question);
            }
        }
    }
}

/// Peers that come and go are handed out, each once and in order; only the peer of the authority
/// is kept back. With it the authority comes, as the server or as a client as its data tells, and
/// without any number handed out; and with it the authority goes, with all that was under way.
pub proof fn law_peers_are_handed_out<Ch, R, S, D, X>(
    before: AuthorityView<R, S, D, X>,
    peer: PeerView<R, S, D>,
    peer_id: PeerId,
    after: AuthorityView<R, S, D, X>,
    error: Option<Error>,
) where X: TypedPeer<Ch, R, S, D>, D: HoldsAuthority
    ensures
        before.handles_meeting::<Ch>(UserEventView::PeerAdded(peer), after, error) ==> {
            &&& peer.info.peer_id.0 != AUTHORITY_PEER ==> {
                &&& error is None <==> !before.gone.added_peers
                &&& error is None ==> after.added_peers == before.added_peers.push(peer)
                &&& error is Some ==> after == before && error == Some(Error::ChannelClosed)
                &&& after.role == before.role
            }
            &&& peer.info.peer_id.0 == AUTHORITY_PEER ==> {
                &&& after.added_peers == before.added_peers
                &&& error is Some ==> after == before
                &&& error is None ==> {
                    let data = found_data(peer.user_data, before.data_type);
                    &&& data is Some
                    &&& after.events_in.len() == 0
                    &&& after.events_out.len() == 0
                    &&& data->0.is_server ==> after.role == Some(
                        RoleView::Server { peers: 0, replicas: 0 },
                    )
                    &&& !data->0.is_server ==> after.role == Some(
                        RoleView::Client { requests: Seq::empty() },
                    )
                    &&& !after.gone.events
                }
            }
            &&& after.removed_peers == before.removed_peers
            &&& after.orders == before.orders
            &&& after.replies == before.replies
        },
        before.handles_meeting::<Ch>(UserEventView::PeerRemoved(peer_id), after, error) ==> {
            &&& peer_id.0 != AUTHORITY_PEER ==> {
                &&& error is None <==> !before.gone.removed_peers
                &&& error is None ==> after.removed_peers == before.removed_peers.push(peer_id)
                &&& error is Some ==> after == before && error == Some(Error::ChannelClosed)
                &&& after.role == before.role
            }
            &&& peer_id.0 == AUTHORITY_PEER ==> {
                &&& error is None
                &&& after.role is None
                &&& after.part is None
                &&& after.events_in.len() == 0
                &&& after.events_out.len() == 0
                &&& after.removed_peers == before.removed_peers
            }
            &&& after.added_peers == before.added_peers
            &&& after.orders == before.orders
            &&& after.replies == before.replies
        },
{
}

/// With an authority, questions and answers are handled in the order in which they came, and
/// none is left if none fails; without one they wait.
pub proof fn law_events_are_handled_in_order<R, S, D, X>(
    state: AuthorityView<R, S, D, X>,
    count: nat,
)
    requires
        count < state.events_in.len(),
    ensures
        ({
            let first = (AuthorityView {
                events_in: state.events_in.skip(1),
                ..state
            }).after_event(state.events_in[0].0, state.events_in[0].1);
            &&& first.error is None ==> state.after_events(count + 1) == first.state.after_events(
                count,
            )
            &&& first.error is Some ==> state.after_events(count + 1) == first
        }),
        state.role is None ==> state.after_all_events() == (Handled { state, error: None }),
        state.role is Some && state.after_all_events().error is None
            ==> state.after_all_events().state.events_in.len() == 0,
    decreases count,
{
    let first = (AuthorityView {
        events_in: state.events_in.skip(1),
        ..state
    }).after_event(state.events_in[0].0, state.events_in[0].1);
    assert(state.after_events(0) == (Handled { state, error: None }));
    assert(state.after_events(1) == first);
    if first.error is Some {
        lemma_stopped(state, 1, count + 1);
    } else if count > 0 {
        law_events_are_handled_in_order(state, (count - 1) as nat);
    } else {
        assert(first.state.after_events(0) == (Handled { state: first.state, error: None }));
    }
    if state.role is Some {
        lemma_after_events(state, state.events_in.len());
    }
}

/// An answer can come to one whose question waits or whose answer is there, and to nobody else.
pub proof fn law_awaited_answers<R, S, D, X>(
    state: AuthorityView<R, S, D, X>,
    reply: u64,
    event_id: u128,
    replica_id: ReplicaId,
)
    ensures
        state.replies.contains((reply, replica_id)) ==> state.awaits(reply),
        (state.role matches Some(RoleView::Client { requests }) && requests.contains(
            (event_id, reply),
        )) ==> state.awaits(reply),
        state.replies.len() == 0 && !(state.role is Some && state.role->0 is Client)
            ==> !state.awaits(reply),
        state.replies.len() == 0 && state.role is Some && state.role->0 is Client && (forall|i: int|
            0 <= i < state.role->0->requests.len() ==> (
            #[trigger] state.role->0->requests[i]).1 != reply) ==> !state.awaits(reply),
{
    if state.replies.contains((reply, replica_id)) {
        let i = choose|i: int|
            0 <= i < state.replies.len() && state.replies[i] == (reply, replica_id);
        assert(state.replies[i].0 == reply);
    }
    if state.role is Some && state.role->0 is Client {
        let requests = state.role->0->requests;
        if requests.contains((event_id, reply)) {
            let i = choose|i: int| 0 <= i < requests.len() && requests[i] == (event_id, reply);
            assert(requests[i].1 == reply);
        }
    }
}

/// A new authority has a role for nobody yet; a server, and only a server, has its peer created
/// first.
pub proof fn law_server_asks_for_its_peer<R, S, D, X>(
    is_server: bool,
    message_type: u64,
    data_type: u64,
    gone: Gone,
)
    ensures
        ({
            let fresh = AuthorityView::<R, S, D, X>::fresh(
                is_server,
                message_type,
                data_type,
                gone,
            );
            &&& fresh.role is None
            &&& fresh.part is None
            &&& fresh.orders.len() == if is_server { 1nat } else { 0 }
            &&& is_server ==> fresh.orders[0] == MeetingOrder::CreatePeer(
                PeerId(AUTHORITY_PEER),
                PeerRoleId(AUTHORITY_ROLE),
            )
            &&& fresh.meeting_events.len() == 0
            &&& fresh.events_in.len() == 0
            &&& fresh.events_out.len() == 0
            &&& fresh.added_peers.len() == 0
            &&& fresh.removed_peers.len() == 0
            &&& fresh.replies.len() == 0
        }),
        Gone::nobody().meeting == false,
        Gone::nobody().events == false,
        Gone::nobody().added_peers == false,
        Gone::nobody().removed_peers == false,
{
}

/// Handling questions and answers leaves alone what the meeting told.
proof fn lemma_meeting_events_stay<R, S, D, X>(state: AuthorityView<R, S, D, X>, count: nat)
    ensures
        state.after_events(count).state.meeting_events == state.meeting_events,
    decreases count,
{
    if count > 0 {
        lemma_meeting_events_stay(state, (count - 1) as nat);
    }
}

/// A round of work that goes through leaves nothing that the meeting told, and no question or
/// answer where there is an authority. One that fails has taken what the meeting told one by one,
/// from the first on. With nothing told, only questions and answers are handled; without an
/// authority, nothing is.
pub proof fn law_round_handles_all<Ch, R, S, D, X>(
    before: AuthorityView<R, S, D, X>,
    between: AuthorityView<R, S, D, X>,
    after: AuthorityView<R, S, D, X>,
    error: Option<Error>,
) where X: TypedPeer<Ch, R, S, D>, D: HoldsAuthority
    requires
        before.maintained_through::<Ch>(between, after, error),
    ensures
        error is None ==> after.meeting_events.len() == 0,
        error is None && after.role is Some ==> after.events_in.len() == 0,
        error is Some ==> exists|taken: int|
            0 <= taken <= before.meeting_events.len() && after.meeting_events
                == #[trigger] before.meeting_events.skip(taken),
        before.meeting_events.len() == 0 && before.role is Some ==> after == before.after_events(
            before.events_in.len(),
        ).state && error == before.after_events(before.events_in.len()).error,
        before.meeting_events.len() == 0 && before.role is None ==> after == before && error
            is None,
{
    let all = before.meeting_events.len();
    if before.meeting_phase::<Ch>(between, None) && after == between.after_all_events().state
        && error == between.after_all_events().error {
        before.lemma_meeting_drained::<Ch>(all, between);
        assert(before.meeting_events.skip(all as int).len() == 0);
        lemma_meeting_events_stay(between, between.events_in.len());
        if between.role is Some {
            lemma_after_events(between, between.events_in.len());
        }
        assert(after.meeting_events == before.meeting_events.skip(all as int));
        if all == 0 {
            assert(between == before);
        }
    } else {
        let reason = error->0;
        let (count, last) = choose|count: nat, last: AuthorityView<R, S, D, X>|
            {
                &&& count < before.meeting_events.len()
                &&& before.meeting_drained::<Ch>(count, last)
                &&& #[trigger] last.meeting_failed_behind::<Ch>(count, after, reason)
            };
        before.lemma_meeting_drained::<Ch>(count, last);
        assert(last.meeting_events.skip(1) =~= before.meeting_events.skip(count as int + 1));
        assert(after.meeting_events == last.meeting_events.skip(1));
    }
}

/// What the meeting told is handled in the order in which it was told: the first is gone, and the
/// rest is handled as if it had come alone.
pub proof fn law_told_first_handled_first<Ch, R, S, D, X>(
    before: AuthorityView<R, S, D, X>,
    after: AuthorityView<R, S, D, X>,
    count: nat,
) where X: TypedPeer<Ch, R, S, D>, D: HoldsAuthority
    requires
        before.meeting_drained::<Ch>(count, after),
        count > 0,
    ensures
        before.meeting_events.len() >= count,
        exists|next: AuthorityView<R, S, D, X>|
            {
                &&& (AuthorityView {
                    meeting_events: before.meeting_events.skip(1),
                    ..before
                }).handles_meeting::<Ch>(before.meeting_events[0], next, None)
                &&& #[trigger] next.meeting_drained::<Ch>((count - 1) as nat, after)
            },
    decreases count,
{
    before.lemma_meeting_drained::<Ch>(count, after);
    let between = choose|between: AuthorityView<R, S, D, X>|
        {
            &&& before.meeting_drained::<Ch>((count - 1) as nat, between)
            &&& #[trigger] between.meeting_stepped::<Ch>(after, None)
        };
    if count == 1 {
        assert(between == before);
        assert(after.meeting_drained::<Ch>(0, after));
    } else {
        law_told_first_handled_first::<Ch, R, S, D, X>(before, between, (count - 1) as nat);
        let next = choose|next: AuthorityView<R, S, D, X>|
            {
                &&& (AuthorityView {
                    meeting_events: before.meeting_events.skip(1),
                    ..before
                }).handles_meeting::<Ch>(before.meeting_events[0], next, None)
                &&& #[trigger] next.meeting_drained::<Ch>((count - 2) as nat, between)
            };
        assert(next.meeting_drained::<Ch>((count - 1) as nat, after));
    }
}

/// The authority is asked through the channel that its peer has for it, at both ends; a peer
/// without it, or without what an authority has to know, gives none.
pub proof fn law_asked_through_its_channel<Ch, R, S, D, X>(
    before: AuthorityView<R, S, D, X>,
    peer: PeerView<R, S, D>,
    after: AuthorityView<R, S, D, X>,
    error: Option<Error>,
) where X: TypedPeer<Ch, R, S, D>, D: HoldsAuthority
    requires
        peer.info.peer_id.0 == AUTHORITY_PEER,
        before.handles_meeting::<Ch>(UserEventView::PeerAdded(peer), after, error),
    ensures
        error is None ==> {
            &&& after.part is Some
            &&& value_of(peer.receivers, AUTHORITY_EVENT_CHANNEL) is Some
            &&& value_of(peer.receivers, AUTHORITY_EVENT_CHANNEL)->0.end
                == (after.part->0).0.receiver
            &&& value_of(peer.receivers, AUTHORITY_EVENT_CHANNEL)->0.message_type
                == before.message_type
            &&& value_of(peer.senders, AUTHORITY_EVENT_CHANNEL) is Some
            &&& value_of(peer.senders, AUTHORITY_EVENT_CHANNEL)->0.end == (after.part->0).0.sender
            &&& value_of(peer.senders, AUTHORITY_EVENT_CHANNEL)->0.message_type
                == before.message_type
        },
        found_data(peer.user_data, before.data_type) is Some && value_of(
            peer.receivers,
            AUTHORITY_EVENT_CHANNEL,
        ) is None ==> error == Some(Error::NoReceiver(AUTHORITY_EVENT_CHANNEL)),
        found_data(peer.user_data, before.data_type) is None ==> error == Some(
            Error::NoUserData(before.data_type),
        ),
{
}

} // verus!
