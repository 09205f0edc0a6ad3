//! Values that follow what happens to them on other machines.

use vstd::prelude::*;

use crate::error::Error;
use crate::ordered_map::{law_with_value, value_of};
use crate::protocol::PacketDataView;
use crate::replica::{
    law_sent_packet_waits, lemma_with_inbox, InstanceView, Replica, ReplicaApplyChanges,
    ReplicaCollectChanges, ReplicaSet, ReplicaSetView,
};
use crate::wire::failure;

verus! {

/// A value that tells its changes and takes on those of others.
pub trait Puppetable: Sized {
    /// Whether telling changes can give these.
    spec fn collects(
        self,
        collector: ReplicaCollectChanges,
        after: Self,
        collected: ReplicaCollectChanges,
        error: Option<Error>,
    ) -> bool;

    /// Whether taking on changes can give these.
    spec fn applies(self, applicator: ReplicaApplyChanges, after: Self, error: Option<Error>) -> bool;

    /// Tells changes.
    fn collect_changes(&mut self, collector: &mut ReplicaCollectChanges) -> (result: Result<
        (),
        Error,
    >)
        ensures
            old(self).collects(*old(collector), *final(self), *final(collector), failure(result)),
    ;

    /// Takes on changes.
    fn apply_changes(&mut self, applicator: ReplicaApplyChanges) -> (result: Result<(), Error>)
        ensures
            old(self).applies(applicator, *final(self), failure(result)),
    ;
}

/// Whether taking on the changes in a packet can give these.
pub open spec fn follows<T: Puppetable>(
    data: T,
    packet: PacketDataView,
    after: T,
    error: Option<Error>,
) -> bool {
    exists|applicator: ReplicaApplyChanges|
        {
            &&& applicator.buffer@.past == Seq::<u8>::empty()
            &&& applicator.buffer@.rest == packet.data
            &&& #[trigger] data.applies(applicator, after, error)
        }
}

/// Whether taking on the changes in packets, one after the other, can give these.
pub open spec fn follows_all<T: Puppetable>(
    data: T,
    packets: Seq<PacketDataView>,
    after: T,
) -> bool
    decreases packets.len(),
{
    if packets.len() == 0 {
        after == data
    } else {
        exists|between: T|
            {
                &&& follows_all(data, packets.drop_last(), between)
                &&& #[trigger] follows(between, packets.last(), after, None)
            }
    }
}

/// Whether the changes in the packet behind `count` others can fail with `error`.
pub open spec fn fails_at<T: Puppetable>(
    between: T,
    count: nat,
    packets: Seq<PacketDataView>,
    after: T,
    error: Error,
) -> bool {
    &&& count < packets.len()
    &&& follows(between, packets[count as int], after, Some(error))
}

/// Packets that wait for a replica.
pub open spec fn waiting_for(set: ReplicaSetView, replica: Replica) -> Seq<PacketDataView> {
    match set.change.inbox_of(replica) {
        Some(inbox) => inbox,
        None => Seq::empty(),
    }
}

/// The set once a replica took `count` packets.
pub open spec fn after_taking(set: ReplicaSetView, replica: Replica, count: nat) -> ReplicaSetView {
    match set.change.inbox_of(replica) {
        Some(inbox) => ReplicaSetView {
            change: set.change.with_inbox(replica, inbox.skip(count as int)),
            ..set
        },
        None => set,
    }
}

/// The set once a replica had changes sent.
pub open spec fn after_sending(
    set: ReplicaSetView,
    replica: Replica,
    collected: ReplicaCollectChanges,
) -> ReplicaSetView {
    if collected.buffer@.past.len() != 0 {
        ReplicaSetView { change: set.change.with_packet(replica, collected.packet()), ..set }
    } else {
        set
    }
}

/// Whether telling changes from `between` on can leave these.
pub open spec fn tells<T: Puppetable>(
    between: T,
    collector: ReplicaCollectChanges,
    after: T,
    collected: ReplicaCollectChanges,
    error: Option<Error>,
) -> bool {
    collector.is_fresh() && between.collects(collector, after, collected, error)
}

/// A value on strings.
pub struct Puppet<T: Puppetable> {
    pub replica: Replica,
    pub data: T,
}

impl<T: Puppetable> Puppet<T> {
    pub fn new(replica: Replica, data: T) -> (result: Self)
        ensures
            result == (Puppet { replica, data }),
    {
        Puppet { replica, data }
    }

    pub fn replica(&self) -> (result: &Replica)
        ensures
            *result == self.replica,
    {
        &self.replica
    }

    /// Takes on all changes that came, up to the first that fails, and then tells its own. What
    /// was told is sent even if telling failed.
    pub fn replicate(&mut self, set: &mut ReplicaSet) -> (result: Result<(), Error>)
        ensures
            final(self).replica == old(self).replica,
            old(self).replicates(old(set)@, *final(self), final(set)@, failure(result)),
    {
        let _ = set.has(&self.replica.id);
        let ghost before = set@;
        let ghost packets = waiting_for(before, self.replica);
        let ghost mut count: nat = 0;
        let ghost start = *self;
        proof {
            lemma_nothing_taken(before, self.replica);
            assert(packets.take(0) =~= Seq::<PacketDataView>::empty());
        }
        loop
            invariant
                start == *old(self),
                before == old(set)@,
                before.change.in_order(),
                self.replica == start.replica,
                packets == waiting_for(before, start.replica),
                count <= packets.len(),
                set@ == after_taking(before, start.replica, count),
                follows_all(start.data, packets.take(count as int), self.data),
            decreases packets.len() - count,
        {
            let ghost between = self.data;
            proof {
                lemma_waiting_after_taking(before, start.replica, count);
            }
            match self.replica.apply_changes(set) {
                None => {
                    assert(count == packets.len());
                    assert(packets.take(count as int) =~= packets);
                    let mut collector = self.replica.collect_changes();
                    let ghost fresh = collector;
                    let result = self.data.collect_changes(&mut collector);
                    proof {
                        assert(tells(between, fresh, self.data, collector, failure(result)));
                        assert(start.finishes(
                            between,
                            fresh,
                            before,
                            *self,
                            collector,
                            failure(result),
                        ));
                    }
                    self.replica.send_changes(set, collector);
                    return result;
                },
                Some(applicator) => {
                    proof {
                        lemma_one_more_taken(before, start.replica, count);
                    }
                    match self.data.apply_changes(applicator) {
                        Ok(_) => {
                            proof {
                                assert(follows(between, packets[count as int], self.data, None));
                                assert(packets.take(count as int + 1).drop_last() =~= packets.take(
                                    count as int,
                                ));
                                assert(packets.take(count as int + 1).last() == packets[count as int]);
                                count = count + 1;
                            }
                        },
                        Err(error) => {
                            assert(follows(
                                between,
                                packets[count as int],
                                self.data,
                                Some(error),
                            ));
                            assert(fails_at(between, count, packets, self.data, error));
                            return Err(error);
                        },
                    }
                },
            }
        }
    }

    /// Whether a round can take on all that waits, reach `between`, tell changes and leave these.
    pub open spec fn finishes(
        self,
        between: T,
        fresh: ReplicaCollectChanges,
        set: ReplicaSetView,
        after: Self,
        collected: ReplicaCollectChanges,
        error: Option<Error>,
    ) -> bool {
        &&& follows_all(self.data, waiting_for(set, self.replica), between)
        &&& tells(between, fresh, after.data, collected, error)
    }

    /// Whether a round can leave these.
    pub open spec fn replicates(
        self,
        set: ReplicaSetView,
        after: Self,
        set_after: ReplicaSetView,
        error: Option<Error>,
    ) -> bool {
        let packets = waiting_for(set, self.replica);
        ||| exists|between: T, count: nat, reason: Error|
            {
                &&& follows_all(self.data, packets.take(count as int), between)
                &&& #[trigger] fails_at(between, count, packets, after.data, reason)
                &&& error == Some(reason)
                &&& set_after == after_taking(set, self.replica, count + 1)
            }
        ||| exists|between: T, fresh: ReplicaCollectChanges, collected: ReplicaCollectChanges|
            {
                &&& #[trigger] self.finishes(between, fresh, set, after, collected, error)
                &&& set_after == after_sending(
                    after_taking(set, self.replica, packets.len()),
                    self.replica,
                    collected,
                )
            }
    }
}

proof fn lemma_nothing_taken(set: ReplicaSetView, replica: Replica)
    requires
        set.change.in_order(),
    ensures
        after_taking(set, replica, 0) == set,
{
    if let Some(inbox) = set.change.inbox_of(replica) {
        assert(inbox.skip(0) =~= inbox);
        lemma_with_inbox(set.change, replica, inbox, inbox);
    }
}

proof fn lemma_waiting_after_taking(set: ReplicaSetView, replica: Replica, count: nat)
    requires
        set.change.in_order(),
        count <= waiting_for(set, replica).len(),
    ensures
        waiting_for(after_taking(set, replica, count), replica) == waiting_for(set, replica).skip(
            count as int,
        ),
        after_taking(set, replica, count).change.inbox_of(replica) is Some
            == set.change.inbox_of(replica) is Some,
{
    match set.change.inbox_of(replica) {
        Some(inbox) => {
            lemma_with_inbox(set.change, replica, inbox.skip(count as int), inbox);
        },
        None => {
            assert(Seq::<PacketDataView>::empty().skip(0) =~= Seq::<PacketDataView>::empty());
        },
    }
}

proof fn lemma_one_more_taken(set: ReplicaSetView, replica: Replica, count: nat)
    requires
        set.change.in_order(),
        count < waiting_for(set, replica).len(),
    ensures
        after_taking(after_taking(set, replica, count), replica, 1) == after_taking(
            set,
            replica,
            count + 1,
        ),
{
    if let Some(inbox) = set.change.inbox_of(replica) {
        let some = inbox.skip(count as int);
        assert(some.skip(1) =~= inbox.skip(count as int + 1));
        lemma_with_inbox(set.change, replica, some, some.skip(1));
    }
}

/// Changes are taken on in the order in which they came: those of the first packet first, and
/// then those behind it.
pub proof fn law_follows_from_the_first<T: Puppetable>(
    data: T,
    packets: Seq<PacketDataView>,
    after: T,
) -> (between: T)
    requires
        packets.len() > 0,
        follows_all(data, packets, after),
    ensures
        follows(data, packets[0], between, None),
        follows_all(between, packets.skip(1), after),
    decreases packets.len(),
{
    let last = choose|last: T|
        {
            &&& follows_all(data, packets.drop_last(), last)
            &&& #[trigger] follows(last, packets.last(), after, None)
        };
    if packets.len() == 1 {
        assert(packets.skip(1) =~= Seq::<PacketDataView>::empty());
        assert(last == data);
        after
    } else {
        let between = law_follows_from_the_first(data, packets.drop_last(), last);
        assert(packets.drop_last()[0] == packets[0]);
        assert(packets.skip(1).drop_last() =~= packets.drop_last().skip(1));
        assert(packets.skip(1).last() == packets.last());
        assert(follows_all(between, packets.skip(1), after));
        between
    }
}

/// What is taken on is what a packet holds, all of it from its first byte.
pub proof fn law_follows_the_bytes<T: Puppetable>(
    data: T,
    packet: PacketDataView,
    after: T,
    error: Option<Error>,
) -> (applicator: ReplicaApplyChanges)
    requires
        follows(data, packet, after, error),
    ensures
        data.applies(applicator, after, error),
        applicator.buffer@.bytes() == packet.data,
        applicator.buffer@.past.len() == 0,
{
    let applicator = choose|applicator: ReplicaApplyChanges|
        {
            &&& applicator.buffer@.past == Seq::<u8>::empty()
            &&& applicator.buffer@.rest == packet.data
            &&& #[trigger] data.applies(applicator, after, error)
        };
    assert(applicator.buffer@.bytes() =~= packet.data);
    applicator
}

/// A round that ends well took on all that waited, in order, and left nothing to wait; what was
/// told behind that, if anything, is the last that the replica has to say. The rpc way, and what
/// the channels hold, are as they were.
pub proof fn law_round_takes_and_tells_all<T: Puppetable>(
    puppet: Puppet<T>,
    set: ReplicaSetView,
    after: Puppet<T>,
    set_after: ReplicaSetView,
) -> (told: (T, ReplicaCollectChanges, ReplicaCollectChanges))
    requires
        set.change.in_order(),
        puppet.replicates(set, after, set_after, None),
    ensures
        follows_all(puppet.data, waiting_for(set, puppet.replica), told.0),
        told.1.buffer@.bytes().len() == 0,
        told.1.recepients@.len() == 0,
        told.0.collects(told.1, after.data, told.2, None),
        waiting_for(set_after, puppet.replica).len() == 0,
        set.change.knows(puppet.replica) && told.2.buffer@.past.len() > 0 ==> ({
            let instance = value_of(set_after.change.instances, puppet.replica.id.0);
            let before = value_of(set.change.instances, puppet.replica.id.0);
            &&& instance is Some
            &&& before is Some
            &&& instance->0.outbox == before->0.outbox.push(
                PacketDataView {
                    data: told.2.buffer@.bytes(),
                    recepients: told.2.recepients@,
                    sender: None,
                },
            )
        }),
        set.change.knows(puppet.replica) && told.2.buffer@.past.len() == 0 ==> ({
            let instance = value_of(set_after.change.instances, puppet.replica.id.0);
            let before = value_of(set.change.instances, puppet.replica.id.0);
            instance is Some && before is Some && instance->0.outbox == before->0.outbox
        }),
        set_after.rpc == set.rpc,
        set_after.change.outbox == set.change.outbox,
        set_after.change.inbox == set.change.inbox,
{
    let replica = puppet.replica;
    let packets = waiting_for(set, replica);
    let (between, fresh, collected) = choose|
        between: T,
        fresh: ReplicaCollectChanges,
        collected: ReplicaCollectChanges,
    |
        {
            &&& #[trigger] puppet.finishes(between, fresh, set, after, collected, None)
            &&& set_after == after_sending(
                after_taking(set, replica, packets.len()),
                replica,
                collected,
            )
        };
    let taken = after_taking(set, replica, packets.len());
    lemma_waiting_after_taking(set, replica, packets.len());
    if let Some(inbox) = set.change.inbox_of(replica) {
        lemma_with_inbox(set.change, replica, inbox.skip(packets.len() as int), inbox);
        if set.change.knows(replica) {
            let instance = value_of(set.change.instances, replica.id.0)->Some_0;
            law_with_value(
                set.change.instances,
                replica.id.0,
                InstanceView { inbox: inbox.skip(packets.len() as int), ..instance },
                replica.id.0,
            );
        }
    }
    law_sent_packet_waits(taken.change, replica, collected.packet(), replica.id.0);
    (between, fresh, collected)
}

/// A round that ends with changes that fail took those up to and with the failing packet, and
/// the packets behind it wait on. Nothing is told then.
pub proof fn law_failing_packet_is_taken<T: Puppetable>(
    puppet: Puppet<T>,
    set: ReplicaSetView,
    between: T,
    count: nat,
    after: Puppet<T>,
    error: Error,
)
    requires
        set.change.in_order(),
        follows_all(
            puppet.data,
            waiting_for(set, puppet.replica).take(count as int),
            between,
        ),
        fails_at(between, count, waiting_for(set, puppet.replica), after.data, error),
    ensures
        count < waiting_for(set, puppet.replica).len(),
        follows(between, waiting_for(set, puppet.replica)[count as int], after.data, Some(error)),
        puppet.replicates(set, after, after_taking(set, puppet.replica, count + 1), Some(error)),
        waiting_for(after_taking(set, puppet.replica, count + 1), puppet.replica) == waiting_for(
            set,
            puppet.replica,
        ).skip(count as int + 1),
        after_taking(set, puppet.replica, count + 1).rpc == set.rpc,
        after_taking(set, puppet.replica, count + 1).change.outbox == set.change.outbox,
{
    lemma_waiting_after_taking(set, puppet.replica, count + 1);
}

} // verus!
