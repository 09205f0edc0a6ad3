use tehuti::channel::{Channel, ChannelId, ChannelMode};
use tehuti::client_server::{authority, controller};
use tehuti::client_server::authority::{
    Authority, AuthorityEvent, AuthorityRequest, AuthorityResponse, AuthorityUserData,
    MeetingOrder, AUTHORITY_PEER, AUTHORITY_ROLE,
};
use tehuti::client_server::controller::{Controller, ControllerEvent};
use tehuti::client_server::puppet::{Puppet, Puppetable};
use tehuti::codec::replicable::RepCodec;
use tehuti::engine::EngineId;
use tehuti::error::Error;
use tehuti::meeting::MeetingUserEvent;
use tehuti::peer::{Peer, PeerBuilder, PeerId, PeerInfo, PeerRoleId};
use tehuti::replica::{
    ReplicaApplyChanges, ReplicaCollectChanges, ReplicaId, ReplicaSet,
};
use tehuti::replication::HashReplicated;

type Ch = Channel<RepCodec<u8>>;
type Data = AuthorityUserData;
type Plain = Authority<Ch, (), (), Data, ()>;

const DATA: u64 = 4;
const EVENTS: u64 = 1;
const BUFFERS: u64 = 2;

fn info(peer_id: u64, role_id: u64, remote: bool) -> PeerInfo {
    PeerInfo {
        peer_id: PeerId::new(peer_id),
        role_id: PeerRoleId::new(role_id),
        remote,
    }
}

type Builder = PeerBuilder<Ch, (), (), Data>;

fn outfit(builder: Builder) -> Result<Builder, Error> {
    Plain::outfit(builder, Channel::read(), Channel::write(), EVENTS, (), ())
}

fn authority_peer(is_server: bool) -> Peer<(), (), Data> {
    Plain::peer_factory(
        is_server,
        DATA,
        outfit as fn(Builder) -> Result<Builder, Error>,
    )
    .unwrap()
    .create(Peer::new(info(AUTHORITY_PEER, AUTHORITY_ROLE, !is_server)))
    .unwrap()
    .peer
}

/// An authority whose peer is there.
fn authority(is_server: bool) -> Plain {
    let mut authority = Plain::new(is_server, EVENTS, DATA, authority::Gone::none()).unwrap();
    assert!(!authority.is_initialized());
    assert_eq!(
        authority.create_peer(PeerRoleId::new(1)),
        Err(Error::NoAuthority)
    );
    if is_server {
        assert_eq!(
            authority.take_order(),
            Some(MeetingOrder::CreatePeer(PeerId::new(0), PeerRoleId::new(0)))
        );
    }
    authority.push_meeting_event(MeetingUserEvent::PeerAdded(authority_peer(is_server)));
    authority.maintain().unwrap();
    assert!(authority.is_initialized());
    assert_eq!(authority.is_server(), is_server);
    assert_eq!(authority.is_client(), !is_server);
    assert!(authority.extension().is_some());
    assert!(authority.ends().is_some());
    authority
}

#[test]
fn servers_hand_out_numbers() {
    let mut server = authority(true);
    assert_eq!(
        server.create_peer(PeerRoleId::new(AUTHORITY_ROLE)),
        Err(Error::AuthorityRole)
    );
    assert_eq!(
        server.destroy_peer(PeerId::new(AUTHORITY_PEER)),
        Err(Error::AuthorityPeer)
    );
    server.create_peer(PeerRoleId::new(3)).unwrap();
    server.create_peer(PeerRoleId::new(3)).unwrap();
    server.destroy_peer(PeerId::new(1)).unwrap();
    assert_eq!(
        server.take_order(),
        Some(MeetingOrder::CreatePeer(PeerId::new(1), PeerRoleId::new(3)))
    );
    assert_eq!(
        server.take_order(),
        Some(MeetingOrder::CreatePeer(PeerId::new(2), PeerRoleId::new(3)))
    );
    assert_eq!(
        server.take_order(),
        Some(MeetingOrder::DestroyPeer(PeerId::new(1)))
    );
    server.request_replica_id(8, true).unwrap();
    assert_eq!(server.take_reply(), Some((8, ReplicaId::new(1))));
    // A number that nobody waits for is used up.
    assert_eq!(
        server.request_replica_id(8, false),
        Err(Error::ChannelClosed)
    );
    assert_eq!(server.take_reply(), None);
    server.request_replica_id(8, true).unwrap();
    assert_eq!(server.take_reply(), Some((8, ReplicaId::new(3))));
    assert!(server.take_event().is_none());

    let peer = Peer::new(info(2, 3, false));
    server.push_meeting_event(MeetingUserEvent::PeerAdded(peer));
    server.push_meeting_event(MeetingUserEvent::PeerRemoved(PeerId::new(1)));
    server.maintain().unwrap();
    assert_eq!(*server.take_added_peer().unwrap().info(), info(2, 3, false));
    assert_eq!(server.take_removed_peer(), Some(PeerId::new(1)));
}

#[test]
fn clients_ask_the_server() {
    let mut server = authority(true);
    let mut client = authority(false);
    client.create_peer_as(PeerRoleId::new(5), 100).unwrap();
    client.request_replica_id_as(7, true, 101).unwrap();
    client.request_replica_id_as(9, true, 102).unwrap();
    client.forget_reply(9);
    assert!(client.take_order().is_none());
    let here = EngineId::new(42);
    while let Some((event, _)) = client.take_event() {
        server.push_event(event, Some(here));
    }
    server.maintain().unwrap();
    let mut answers = vec![];
    while let Some((event, to)) = server.take_event() {
        assert_eq!(to, Some(here));
        answers.push(event);
        client.push_event(event, None);
    }
    assert_eq!(
        answers,
        vec![
            AuthorityEvent::Response(
                100,
                AuthorityResponse::CreatePeer(PeerId::new(1), PeerRoleId::new(5))
            ),
            AuthorityEvent::Response(101, AuthorityResponse::ReplicaId(ReplicaId::new(1))),
            AuthorityEvent::Response(102, AuthorityResponse::ReplicaId(ReplicaId::new(2))),
        ]
    );
    client.maintain().unwrap();
    assert_eq!(
        client.take_order(),
        Some(MeetingOrder::CreatePeer(PeerId::new(1), PeerRoleId::new(5)))
    );
    assert_eq!(client.take_reply(), Some((7, ReplicaId::new(1))));
    assert_eq!(client.take_reply(), None);

    client.destroy_peer(PeerId::new(1)).unwrap();
    let (event, _) = client.take_event().unwrap();
    assert!(matches!(
        event,
        AuthorityEvent::Request(_, AuthorityRequest::DestroyPeer(id)) if id == PeerId::new(1)
    ));
    server.push_event(event, Some(here));
    server.maintain().unwrap();
    assert_eq!(
        server.take_order(),
        Some(MeetingOrder::DestroyPeer(PeerId::new(1)))
    );
    server.close();
    assert_eq!(
        server.take_order(),
        Some(MeetingOrder::DestroyPeer(PeerId::new(AUTHORITY_PEER)))
    );
}

fn controlled(remote: bool) -> Peer<(), (), Data> {
    PeerBuilder::<Ch, (), (), Data>::new(Peer::new(info(1, 3, remote)))
        .bind_read_write(
            ChannelId::new(0),
            ChannelMode::ReliableOrdered,
            None,
            Channel::read(),
            Channel::write(),
            EVENTS,
            (),
            (),
        )
        .bind_read_write(
            ChannelId::new(1),
            ChannelMode::Unreliable,
            None,
            Channel::read(),
            Channel::write(),
            BUFFERS,
            (),
            (),
        )
        .build()
        .peer
}

fn controller(remote: bool) -> Controller<(), (), Data> {
    Controller::new(
        controlled(remote),
        ChannelId::new(0),
        Some(ChannelId::new(1)),
        None,
        EVENTS,
        BUFFERS,
        controller::Gone::none(),
    )
    .unwrap()
}

#[test]
fn controllers_need_their_channel() {
    let peer = Peer::<(), (), Data>::new(info(1, 3, false));
    let made = Controller::new(
        peer,
        ChannelId::new(0),
        None,
        None,
        EVENTS,
        BUFFERS,
        controller::Gone::none(),
    );
    assert_eq!(made.err(), Some(Error::NoSender(0)));
}

#[test]
fn nothing_starts_without_those_who_are_told() {
    let gone = authority::Gone {
        meeting: true,
        ..authority::Gone::none()
    };
    assert_eq!(
        Plain::new(true, EVENTS, DATA, gone).err(),
        Some(Error::ChannelClosed)
    );
    assert!(Plain::new(false, EVENTS, DATA, gone).is_ok());
    for remote in [true, false] {
        let gone = controller::Gone {
            events: true,
            ..controller::Gone::none()
        };
        let made = Controller::new(
            controlled(remote),
            ChannelId::new(0),
            None,
            None,
            EVENTS,
            BUFFERS,
            gone,
        );
        let error = if remote {
            Some(Error::ChannelClosed)
        } else {
            None
        };
        assert_eq!(made.err(), error);
    }
}

#[test]
fn the_next_part_starts_without_old_questions() {
    let mut server = authority(true);
    let here = Some(EngineId::new(42));
    server.push_event(AuthorityEvent::Request(1, AuthorityRequest::ReplicaId), here);
    server.push_meeting_event(MeetingUserEvent::PeerRemoved(PeerId::new(AUTHORITY_PEER)));
    server.push_meeting_event(MeetingUserEvent::PeerAdded(authority_peer(true)));
    server.maintain().unwrap();
    assert!(server.is_server());
    assert!(server.take_event().is_none());
}

#[test]
fn answers_hold_different_numbers() {
    let mut server = authority(true);
    let here = Some(EngineId::new(42));
    for event_id in [1, 2] {
        let event = AuthorityEvent::Request(event_id, AuthorityRequest::ReplicaId);
        server.push_event(event, here);
    }
    server.maintain().unwrap();
    for (event_id, number) in [(1, 1), (2, 2)] {
        assert_eq!(
            server.take_event(),
            Some((
                AuthorityEvent::Response(
                    event_id,
                    AuthorityResponse::ReplicaId(ReplicaId::new(number))
                ),
                here
            ))
        );
    }
}

#[test]
fn replicas_show_up_where_the_peer_is_remote() {
    let mut server = authority(true);
    let mut here = controller(false);
    let mut there = controller(true);
    assert!(here.take_event().is_none());
    assert!(matches!(
        there.take_event(),
        Some(ControllerEvent::SynchronizeReplicaSetRequest)
    ));

    assert_eq!(*here.peer_mut().info(), info(1, 3, false));
    here.create_replica(&mut server, 7).unwrap();
    here.maintain().unwrap();
    assert!(here.take_added().is_none());
    let (reply, id) = server.take_reply().unwrap();
    here.answer(reply, id);
    here.maintain().unwrap();
    assert_eq!(here.take_added().unwrap().id(), ReplicaId::new(1));
    assert_eq!(here.replicas(), vec![ReplicaId::new(1)]);

    there.push_event(here.take_event().unwrap());
    there.maintain().unwrap();
    assert_eq!(there.take_added().unwrap().id(), ReplicaId::new(1));
    there.push_event(ControllerEvent::CreateReplica(ReplicaId::new(1)));
    assert_eq!(there.maintain(), Err(Error::ReplicaExists(1)));

    // A replica that is not on the list goes, one that is missing comes.
    there.push_event(ControllerEvent::SynchronizeReplicaSetResponse(vec![
        ReplicaId::new(6),
    ]));
    there.maintain().unwrap();
    assert_eq!(there.replicas(), vec![ReplicaId::new(6)]);
    assert_eq!(there.take_removed(), Some(ReplicaId::new(1)));
    assert_eq!(there.take_added().unwrap().id(), ReplicaId::new(6));

    here.push_event(ControllerEvent::SynchronizeReplicaSetRequest);
    here.maintain().unwrap();
    match here.take_event() {
        Some(ControllerEvent::SynchronizeReplicaSetResponse(ids)) => {
            assert_eq!(ids, vec![ReplicaId::new(1)]);
        }
        _ => panic!(),
    }

    here.destroy_replica(ReplicaId::new(1)).unwrap();
    assert!(matches!(
        here.take_event(),
        Some(ControllerEvent::DestroyReplica(id)) if id == ReplicaId::new(1)
    ));
    assert_eq!(
        here.destroy_replica(ReplicaId::new(9)),
        Err(Error::NoReplica(9))
    );
}

struct Health {
    points: HashReplicated<u32>,
    broken: bool,
}

impl Puppetable for Health {
    fn collects(
        self,
        _: ReplicaCollectChanges,
        _: Self,
        _: ReplicaCollectChanges,
        _: Option<Error>,
    ) -> bool {
        unreachable!()
    }

    fn applies(self, _: ReplicaApplyChanges, _: Self, _: Option<Error>) -> bool {
        unreachable!()
    }

    fn collect_changes(&mut self, collector: &mut ReplicaCollectChanges) -> Result<(), Error> {
        if self.broken {
            return Err(Error::InvalidFlag);
        }
        collector.scope().collect_replicated(&mut self.points)
    }

    fn apply_changes(&mut self, mut applicator: ReplicaApplyChanges) -> Result<(), Error> {
        applicator.scope().apply_replicated(&mut self.points)
    }
}

fn puppet(set: &mut ReplicaSet, points: u32) -> Puppet<Health> {
    let replica = set.create(ReplicaId::new(1)).unwrap();
    Puppet::new(
        replica,
        Health {
            points: HashReplicated::new(points),
            broken: false,
        },
    )
}

#[test]
fn puppets_follow_each_other() {
    let mut here = ReplicaSet::new();
    here.bind_change_sender();
    let mut mine = puppet(&mut here, 42);
    let mut there = ReplicaSet::new();
    there.bind_change_receiver();
    let mut theirs = puppet(&mut there, 0);

    for points in [42, 7] {
        *mine.data.points.deref_mut() = points;
        mine.replicate(&mut here).unwrap();
        here.maintain();
        there.push_change(here.take_change().unwrap());
    }
    there.maintain();
    theirs.replicate(&mut there).unwrap();
    assert_eq!(*theirs.data.points.deref(), 7);
    assert_eq!(theirs.replica().id(), ReplicaId::new(1));

    mine.replicate(&mut here).unwrap();
    here.maintain();
    assert!(here.take_change().is_none());
    *mine.data.points.deref_mut() = 8;
    mine.data.broken = true;
    assert_eq!(mine.replicate(&mut here), Err(Error::InvalidFlag));
    here.maintain();
    assert!(here.take_change().is_none());
}

#[test]
fn questions_whose_answers_cannot_come_are_dropped() {
    let mut client = authority(false);
    let mut here = controller(false);
    here.create_replica(&mut client, 5).unwrap();
    assert!(client.awaits(5));
    assert!(!client.awaits(6));
    here.forget_lost(&client);
    here.answer(5, ReplicaId::new(1));
    here.maintain().unwrap();
    assert_eq!(here.replicas(), vec![ReplicaId::new(1)]);

    here.create_replica(&mut client, 6).unwrap();
    client.close();
    assert!(!client.awaits(6));
    here.forget_lost(&client);
    here.answer(6, ReplicaId::new(2));
    here.maintain().unwrap();
    assert_eq!(here.replicas(), vec![ReplicaId::new(1)]);
}

#[test]
fn nobody_is_told_who_is_gone() {
    let mut server = authority(true);
    server.lose(authority::Gone {
        meeting: true,
        ..authority::Gone::none()
    });
    assert_eq!(
        server.create_peer(PeerRoleId::new(3)),
        Err(Error::ChannelClosed)
    );
    assert_eq!(
        server.destroy_peer(PeerId::new(3)),
        Err(Error::ChannelClosed)
    );
    let mut client = authority(false);
    client.lose(authority::Gone {
        events: true,
        ..authority::Gone::none()
    });
    assert_eq!(client.request_replica_id(1, true), Err(Error::ChannelClosed));
    client.lose(authority::Gone {
        added_peers: true,
        ..authority::Gone::none()
    });
    client.push_meeting_event(MeetingUserEvent::PeerAdded(Peer::new(info(2, 3, true))));
    assert_eq!(client.maintain(), Err(Error::ChannelClosed));

    let mut there = controller(true);
    there.lose(controller::Gone {
        events: false,
        added: true,
        removed: false,
    });
    there.push_event(ControllerEvent::CreateReplica(ReplicaId::new(4)));
    assert_eq!(there.maintain(), Err(Error::ChannelClosed));
    assert!(there.take_added().is_none());
    // A replica that nobody took goes with the next round.
    there.maintain().unwrap();
    assert!(there.replicas().is_empty());
    there.lose(controller::Gone {
        events: false,
        added: false,
        removed: true,
    });
    there.push_event(ControllerEvent::DestroyReplica(ReplicaId::new(4)));
    assert_eq!(there.maintain(), Err(Error::ChannelClosed));
}

#[test]
fn the_data_of_its_peer_tells_the_authority_its_part() {
    let mut authority = Plain::new(false, EVENTS, DATA, authority::Gone::none()).unwrap();
    let bare = outfit(PeerBuilder::new(Peer::new(info(
        AUTHORITY_PEER,
        AUTHORITY_ROLE,
        true,
    ))))
    .unwrap()
    .build()
    .peer;
    authority.push_meeting_event(MeetingUserEvent::PeerAdded(bare));
    assert_eq!(authority.maintain(), Err(Error::NoUserData(DATA)));
    assert!(!authority.is_initialized());
    authority.push_meeting_event(MeetingUserEvent::PeerAdded(authority_peer(true)));
    authority.maintain().unwrap();
    assert!(authority.is_server());
}
