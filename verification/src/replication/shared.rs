//! Shared values that are replicated.

use std::rc::Rc;
use std::sync::Arc;
use vstd::prelude::*;

use crate::buffer::Buffer;
use crate::engine::EngineId;
use crate::error::Error;
use crate::peer::{PeerId, PeerRoleId};
use crate::replica::ReplicaId;
use crate::replication::containers::{apply_arc_changes, apply_rc_changes, parse_afresh};
use crate::replication::{DefaultReplicable, LosslessReplicable, Replicable};
use crate::timeline::time::TimeStamp;
use crate::wire::{Applied, Emitted};

verus! {

/// A replicable value that is read as a whole: reading does not depend on what it was, and leaves
/// it as it was when it fails. So it does not matter whether it is changed in place or replaced.
pub trait WholeReplicable: DefaultReplicable {
    /// Reading comes to the same as reading a blank value.
    proof fn parse_is_whole(prior: Self::Model, bytes: Seq<u8>)
        ensures
            Self::parse(prior, bytes) == parse_afresh::<Self>(prior, bytes),
    ;
}

impl WholeReplicable for () {
    proof fn parse_is_whole(prior: <() as Replicable>::Model, bytes: Seq<u8>) {
    }
}

impl WholeReplicable for bool {
    proof fn parse_is_whole(prior: <bool as Replicable>::Model, bytes: Seq<u8>) {
    }
}

impl WholeReplicable for u8 {
    proof fn parse_is_whole(prior: <u8 as Replicable>::Model, bytes: Seq<u8>) {
    }
}

impl WholeReplicable for u16 {
    proof fn parse_is_whole(prior: <u16 as Replicable>::Model, bytes: Seq<u8>) {
    }
}

impl WholeReplicable for u32 {
    proof fn parse_is_whole(prior: <u32 as Replicable>::Model, bytes: Seq<u8>) {
    }
}

impl WholeReplicable for u64 {
    proof fn parse_is_whole(prior: <u64 as Replicable>::Model, bytes: Seq<u8>) {
    }
}

impl WholeReplicable for u128 {
    proof fn parse_is_whole(prior: <u128 as Replicable>::Model, bytes: Seq<u8>) {
    }
}

impl WholeReplicable for usize {
    proof fn parse_is_whole(prior: <usize as Replicable>::Model, bytes: Seq<u8>) {
    }
}

impl WholeReplicable for i8 {
    proof fn parse_is_whole(prior: <i8 as Replicable>::Model, bytes: Seq<u8>) {
    }
}

impl WholeReplicable for i16 {
    proof fn parse_is_whole(prior: <i16 as Replicable>::Model, bytes: Seq<u8>) {
    }
}

impl WholeReplicable for i32 {
    proof fn parse_is_whole(prior: <i32 as Replicable>::Model, bytes: Seq<u8>) {
    }
}

impl WholeReplicable for i64 {
    proof fn parse_is_whole(prior: <i64 as Replicable>::Model, bytes: Seq<u8>) {
    }
}

impl WholeReplicable for i128 {
    proof fn parse_is_whole(prior: <i128 as Replicable>::Model, bytes: Seq<u8>) {
    }
}

impl WholeReplicable for isize {
    proof fn parse_is_whole(prior: <isize as Replicable>::Model, bytes: Seq<u8>) {
    }
}

impl WholeReplicable for char {
    proof fn parse_is_whole(prior: <char as Replicable>::Model, bytes: Seq<u8>) {
    }
}

impl WholeReplicable for String {
    proof fn parse_is_whole(prior: <String as Replicable>::Model, bytes: Seq<u8>) {
    }
}

impl WholeReplicable for EngineId {
    proof fn parse_is_whole(prior: EngineId, bytes: Seq<u8>) {
        <u128 as WholeReplicable>::parse_is_whole(prior.0, bytes);
    }
}

impl WholeReplicable for PeerId {
    proof fn parse_is_whole(prior: PeerId, bytes: Seq<u8>) {
        <u64 as WholeReplicable>::parse_is_whole(prior.0, bytes);
    }
}

impl WholeReplicable for PeerRoleId {
    proof fn parse_is_whole(prior: PeerRoleId, bytes: Seq<u8>) {
        <u64 as WholeReplicable>::parse_is_whole(prior.0, bytes);
    }
}

impl WholeReplicable for ReplicaId {
    proof fn parse_is_whole(prior: ReplicaId, bytes: Seq<u8>) {
        <u64 as WholeReplicable>::parse_is_whole(prior.0, bytes);
    }
}

impl WholeReplicable for TimeStamp {
    proof fn parse_is_whole(prior: TimeStamp, bytes: Seq<u8>) {
        <u64 as WholeReplicable>::parse_is_whole(prior.0, bytes);
    }
}

impl<T: WholeReplicable> WholeReplicable for Box<T> {
    proof fn parse_is_whole(prior: T::Model, bytes: Seq<u8>) {
        T::parse_is_whole(prior, bytes);
    }
}

spec fn held_by_rc<T>(shared: Rc<T>) -> T {
    *shared
}

spec fn held_by_arc<T>(shared: Arc<T>) -> T {
    *shared
}

impl<T: WholeReplicable> Replicable for Rc<T> {
    type Model = T::Model;

    open spec fn model(self) -> T::Model {
        (*self).model()
    }

    open spec fn emit(self) -> Emitted {
        (*self).emit()
    }

    open spec fn parse(prior: T::Model, bytes: Seq<u8>) -> Applied<T::Model> {
        T::parse(prior, bytes)
    }

    proof fn parse_is_within(prior: T::Model, bytes: Seq<u8>) {
        T::parse_is_within(prior, bytes);
    }

    fn collect_changes(&self, buffer: &mut Buffer) -> (result: Result<(), Error>) {
        (**self).collect_changes(buffer)
    }

    fn apply_changes(&mut self, buffer: &mut Buffer) -> (result: Result<(), Error>) {
        proof {
            T::parse_is_whole(self.model(), buffer@.rest);
        }
        apply_rc_changes(self, buffer)
    }
}

impl<T: WholeReplicable> DefaultReplicable for Rc<T> {
    open spec fn blank() -> T::Model {
        T::blank()
    }

    proof fn default_is_blank(value: Rc<T>) {
        T::default_is_blank(held_by_rc(value));
    }
}

impl<T: WholeReplicable> WholeReplicable for Rc<T> {
    proof fn parse_is_whole(prior: T::Model, bytes: Seq<u8>) {
        T::parse_is_whole(prior, bytes);
    }
}

impl<T: WholeReplicable + LosslessReplicable> LosslessReplicable for Rc<T> {
    open spec fn fits(self) -> bool {
        (*self).fits()
    }

    proof fn law_round_trip(self, prior: T::Model, tail: Seq<u8>) {
        T::law_round_trip(held_by_rc(self), prior, tail);
    }
}

impl<T: WholeReplicable> Replicable for Arc<T> {
    type Model = T::Model;

    open spec fn model(self) -> T::Model {
        (*self).model()
    }

    open spec fn emit(self) -> Emitted {
        (*self).emit()
    }

    open spec fn parse(prior: T::Model, bytes: Seq<u8>) -> Applied<T::Model> {
        T::parse(prior, bytes)
    }

    proof fn parse_is_within(prior: T::Model, bytes: Seq<u8>) {
        T::parse_is_within(prior, bytes);
    }

    fn collect_changes(&self, buffer: &mut Buffer) -> (result: Result<(), Error>) {
        (**self).collect_changes(buffer)
    }

    fn apply_changes(&mut self, buffer: &mut Buffer) -> (result: Result<(), Error>) {
        proof {
            T::parse_is_whole(self.model(), buffer@.rest);
        }
        apply_arc_changes(self, buffer)
    }
}

impl<T: WholeReplicable> DefaultReplicable for Arc<T> {
    open spec fn blank() -> T::Model {
        T::blank()
    }

    proof fn default_is_blank(value: Arc<T>) {
        T::default_is_blank(held_by_arc(value));
    }
}

impl<T: WholeReplicable> WholeReplicable for Arc<T> {
    proof fn parse_is_whole(prior: T::Model, bytes: Seq<u8>) {
        T::parse_is_whole(prior, bytes);
    }
}

impl<T: WholeReplicable + LosslessReplicable> LosslessReplicable for Arc<T> {
    open spec fn fits(self) -> bool {
        (*self).fits()
    }

    proof fn law_round_trip(self, prior: T::Model, tail: Seq<u8>) {
        T::law_round_trip(held_by_arc(self), prior, tail);
    }
}

} // verus!
