//! Replication of values side by side.

use vstd::prelude::*;

use crate::buffer::Buffer;
use crate::error::Error;
use crate::replication::{LosslessReplicable, Replicable};
use crate::wire::{Applied, Emitted};

verus! {

impl<A: Replicable> Replicable for (A,) {
    type Model = (A::Model,);

    open spec fn model(self) -> (A::Model,) {
        (self.0.model(),)
    }

    open spec fn emit(self) -> Emitted {
        self.0.emit()
    }

    open spec fn parse(prior: (A::Model,), bytes: Seq<u8>) -> Applied<(A::Model,)> {
        let only = A::parse(prior.0, bytes);
        Applied { model: (only.model,), error: only.error, consumed: only.consumed }
    }

    proof fn parse_is_within(prior: (A::Model,), bytes: Seq<u8>) {
        A::parse_is_within(prior.0, bytes);
    }

    fn collect_changes(&self, buffer: &mut Buffer) -> (result: Result<(), Error>) {
        self.0.collect_changes(buffer)
    }

    fn apply_changes(&mut self, buffer: &mut Buffer) -> (result: Result<(), Error>) {
        self.0.apply_changes(buffer)
    }
}

impl<A: LosslessReplicable> LosslessReplicable for (A,) {
    open spec fn fits(self) -> bool {
        self.0.fits()
    }

    proof fn law_round_trip(self, prior: (A::Model,), tail: Seq<u8>) {
        A::law_round_trip(self.0, prior.0, tail);
    }
}

impl<A: Replicable, B: Replicable> Replicable for (A, B) {
    type Model = (A::Model, B::Model);

    open spec fn model(self) -> (A::Model, B::Model) {
        (self.0.model(), self.1.model())
    }

    open spec fn emit(self) -> Emitted {
        (self.0,).emit().followed_by(self.1.emit())
    }

    open spec fn parse(prior: (A::Model, B::Model), bytes: Seq<u8>) -> Applied<(A::Model, B::Model)> {
        let before = <(A,) as Replicable>::parse((prior.0,), bytes);
        if before.error is Some {
            Applied {
                model: (before.model.0, prior.1),
                error: before.error,
                consumed: before.consumed,
            }
        } else {
            let last = B::parse(prior.1, bytes.skip(before.consumed as int));
            Applied {
                model: (before.model.0, last.model),
                error: last.error,
                consumed: before.consumed + last.consumed,
            }
        }
    }

    proof fn parse_is_within(prior: (A::Model, B::Model), bytes: Seq<u8>) {
        let before = <(A,) as Replicable>::parse((prior.0,), bytes);
        <(A,) as Replicable>::parse_is_within((prior.0,), bytes);
        B::parse_is_within(prior.1, bytes.skip(before.consumed as int));
    }

    fn collect_changes(&self, buffer: &mut Buffer) -> (result: Result<(), Error>) {
        let ghost before = buffer@;
        match self.0.collect_changes(buffer) {
            Ok(_) => {},
            Err(error) => {
                return Err(error);
            },
        }
        proof {
            before.lemma_written_twice((self.0,).emit().bytes, self.1.emit().bytes);
        }
        self.1.collect_changes(buffer)
    }

    fn apply_changes(&mut self, buffer: &mut Buffer) -> (result: Result<(), Error>) {
        let ghost before = buffer@;
        let ghost prior = self.model();
        match self.0.apply_changes(buffer) {
            Ok(_) => {},
            Err(error) => {
                return Err(error);
            },
        }
        proof {
            let done = <(A,) as Replicable>::parse((prior.0,), before.rest);
            <(A,) as Replicable>::parse_is_within((prior.0,), before.rest);
            before.lemma_advanced_twice(
                done.consumed,
                B::parse(prior.1, before.rest.skip(done.consumed as int)).consumed,
            );
        }
        self.1.apply_changes(buffer)
    }
}

impl<A: LosslessReplicable, B: LosslessReplicable> LosslessReplicable for (A, B) {
    open spec fn fits(self) -> bool {
        self.0.fits() && self.1.fits()
    }

    proof fn law_round_trip(self, prior: (A::Model, B::Model), tail: Seq<u8>) {
        let first = (self.0,).emit().bytes;
        let last = self.1.emit().bytes;
        (self.0,).law_round_trip((prior.0,), last + tail);
        self.1.law_round_trip(prior.1, tail);
        assert((first + last) + tail =~= first + (last + tail));
        assert((first + (last + tail)).skip(first.len() as int) =~= last + tail);
    }
}

impl<A: Replicable, B: Replicable, C: Replicable> Replicable for (A, B, C) {
    type Model = (A::Model, B::Model, C::Model);

    open spec fn model(self) -> (A::Model, B::Model, C::Model) {
        (self.0.model(), self.1.model(), self.2.model())
    }

    open spec fn emit(self) -> Emitted {
        (self.0, self.1).emit().followed_by(self.2.emit())
    }

    open spec fn parse(prior: (A::Model, B::Model, C::Model), bytes: Seq<u8>) -> Applied<(A::Model, B::Model, C::Model)> {
        let before = <(A, B) as Replicable>::parse((prior.0, prior.1), bytes);
        if before.error is Some {
            Applied {
                model: (before.model.0, before.model.1, prior.2),
                error: before.error,
                consumed: before.consumed,
            }
        } else {
            let last = C::parse(prior.2, bytes.skip(before.consumed as int));
            Applied {
                model: (before.model.0, before.model.1, last.model),
                error: last.error,
                consumed: before.consumed + last.consumed,
            }
        }
    }

    proof fn parse_is_within(prior: (A::Model, B::Model, C::Model), bytes: Seq<u8>) {
        let before = <(A, B) as Replicable>::parse((prior.0, prior.1), bytes);
        <(A, B) as Replicable>::parse_is_within((prior.0, prior.1), bytes);
        C::parse_is_within(prior.2, bytes.skip(before.consumed as int));
    }

    fn collect_changes(&self, buffer: &mut Buffer) -> (result: Result<(), Error>) {
        let ghost before = buffer@;
        match self.0.collect_changes(buffer) {
            Ok(_) => {},
            Err(error) => {
                return Err(error);
            },
        }
        proof {
            before.lemma_written_twice((self.0,).emit().bytes, self.1.emit().bytes);
        }
        match self.1.collect_changes(buffer) {
            Ok(_) => {},
            Err(error) => {
                return Err(error);
            },
        }
        proof {
            before.lemma_written_twice((self.0, self.1).emit().bytes, self.2.emit().bytes);
        }
        self.2.collect_changes(buffer)
    }

    fn apply_changes(&mut self, buffer: &mut Buffer) -> (result: Result<(), Error>) {
        let ghost before = buffer@;
        let ghost prior = self.model();
        match self.0.apply_changes(buffer) {
            Ok(_) => {},
            Err(error) => {
                return Err(error);
            },
        }
        proof {
            let done = <(A,) as Replicable>::parse((prior.0,), before.rest);
            <(A,) as Replicable>::parse_is_within((prior.0,), before.rest);
            before.lemma_advanced_twice(
                done.consumed,
                B::parse(prior.1, before.rest.skip(done.consumed as int)).consumed,
            );
        }
        match self.1.apply_changes(buffer) {
            Ok(_) => {},
            Err(error) => {
                return Err(error);
            },
        }
        proof {
            let done = <(A, B) as Replicable>::parse((prior.0, prior.1), before.rest);
            <(A, B) as Replicable>::parse_is_within((prior.0, prior.1), before.rest);
            before.lemma_advanced_twice(
                done.consumed,
                C::parse(prior.2, before.rest.skip(done.consumed as int)).consumed,
            );
        }
        self.2.apply_changes(buffer)
    }
}

impl<A: LosslessReplicable, B: LosslessReplicable, C: LosslessReplicable> LosslessReplicable for (A, B, C) {
    open spec fn fits(self) -> bool {
        self.0.fits() && self.1.fits() && self.2.fits()
    }

    proof fn law_round_trip(self, prior: (A::Model, B::Model, C::Model), tail: Seq<u8>) {
        let first = (self.0, self.1).emit().bytes;
        let last = self.2.emit().bytes;
        (self.0, self.1).law_round_trip((prior.0, prior.1), last + tail);
        self.2.law_round_trip(prior.2, tail);
        assert((first + last) + tail =~= first + (last + tail));
        assert((first + (last + tail)).skip(first.len() as int) =~= last + tail);
    }
}

impl<A: Replicable, B: Replicable, C: Replicable, D: Replicable> Replicable for (A, B, C, D) {
    type Model = (A::Model, B::Model, C::Model, D::Model);

    open spec fn model(self) -> (A::Model, B::Model, C::Model, D::Model) {
        (self.0.model(), self.1.model(), self.2.model(), self.3.model())
    }

    open spec fn emit(self) -> Emitted {
        (self.0, self.1, self.2).emit().followed_by(self.3.emit())
    }

    open spec fn parse(prior: (A::Model, B::Model, C::Model, D::Model), bytes: Seq<u8>) -> Applied<(A::Model, B::Model, C::Model, D::Model)> {
        let before = <(A, B, C) as Replicable>::parse((prior.0, prior.1, prior.2), bytes);
        if before.error is Some {
            Applied {
                model: (before.model.0, before.model.1, before.model.2, prior.3),
                error: before.error,
                consumed: before.consumed,
            }
        } else {
            let last = D::parse(prior.3, bytes.skip(before.consumed as int));
            Applied {
                model: (before.model.0, before.model.1, before.model.2, last.model),
                error: last.error,
                consumed: before.consumed + last.consumed,
            }
        }
    }

    proof fn parse_is_within(prior: (A::Model, B::Model, C::Model, D::Model), bytes: Seq<u8>) {
        let before = <(A, B, C) as Replicable>::parse((prior.0, prior.1, prior.2), bytes);
        <(A, B, C) as Replicable>::parse_is_within((prior.0, prior.1, prior.2), bytes);
        D::parse_is_within(prior.3, bytes.skip(before.consumed as int));
    }

    fn collect_changes(&self, buffer: &mut Buffer) -> (result: Result<(), Error>) {
        let ghost before = buffer@;
        match self.0.collect_changes(buffer) {
            Ok(_) => {},
            Err(error) => {
                return Err(error);
            },
        }
        proof {
            before.lemma_written_twice((self.0,).emit().bytes, self.1.emit().bytes);
        }
        match self.1.collect_changes(buffer) {
            Ok(_) => {},
            Err(error) => {
                return Err(error);
            },
        }
        proof {
            before.lemma_written_twice((self.0, self.1).emit().bytes, self.2.emit().bytes);
        }
        match self.2.collect_changes(buffer) {
            Ok(_) => {},
            Err(error) => {
                return Err(error);
            },
        }
        proof {
            before.lemma_written_twice((self.0, self.1, self.2).emit().bytes, self.3.emit().bytes);
        }
        self.3.collect_changes(buffer)
    }

    fn apply_changes(&mut self, buffer: &mut Buffer) -> (result: Result<(), Error>) {
        let ghost before = buffer@;
        let ghost prior = self.model();
        match self.0.apply_changes(buffer) {
            Ok(_) => {},
            Err(error) => {
                return Err(error);
            },
        }
        proof {
            let done = <(A,) as Replicable>::parse((prior.0,), before.rest);
            <(A,) as Replicable>::parse_is_within((prior.0,), before.rest);
            before.lemma_advanced_twice(
                done.consumed,
                B::parse(prior.1, before.rest.skip(done.consumed as int)).consumed,
            );
        }
        match self.1.apply_changes(buffer) {
            Ok(_) => {},
            Err(error) => {
                return Err(error);
            },
        }
        proof {
            let done = <(A, B) as Replicable>::parse((prior.0, prior.1), before.rest);
            <(A, B) as Replicable>::parse_is_within((prior.0, prior.1), before.rest);
            before.lemma_advanced_twice(
                done.consumed,
                C::parse(prior.2, before.rest.skip(done.consumed as int)).consumed,
            );
        }
        match self.2.apply_changes(buffer) {
            Ok(_) => {},
            Err(error) => {
                return Err(error);
            },
        }
        proof {
            let done = <(A, B, C) as Replicable>::parse((prior.0, prior.1, prior.2), before.rest);
            <(A, B, C) as Replicable>::parse_is_within((prior.0, prior.1, prior.2), before.rest);
            before.lemma_advanced_twice(
                done.consumed,
                D::parse(prior.3, before.rest.skip(done.consumed as int)).consumed,
            );
        }
        self.3.apply_changes(buffer)
    }
}

impl<A: LosslessReplicable, B: LosslessReplicable, C: LosslessReplicable, D: LosslessReplicable> LosslessReplicable for (A, B, C, D) {
    open spec fn fits(self) -> bool {
        self.0.fits() && self.1.fits() && self.2.fits() && self.3.fits()
    }

    proof fn law_round_trip(self, prior: (A::Model, B::Model, C::Model, D::Model), tail: Seq<u8>) {
        let first = (self.0, self.1, self.2).emit().bytes;
        let last = self.3.emit().bytes;
        (self.0, self.1, self.2).law_round_trip((prior.0, prior.1, prior.2), last + tail);
        self.3.law_round_trip(prior.3, tail);
        assert((first + last) + tail =~= first + (last + tail));
        assert((first + (last + tail)).skip(first.len() as int) =~= last + tail);
    }
}

impl<A: Replicable, B: Replicable, C: Replicable, D: Replicable, E: Replicable> Replicable for (A, B, C, D, E) {
    type Model = (A::Model, B::Model, C::Model, D::Model, E::Model);

    open spec fn model(self) -> (A::Model, B::Model, C::Model, D::Model, E::Model) {
        (self.0.model(), self.1.model(), self.2.model(), self.3.model(), self.4.model())
    }

    open spec fn emit(self) -> Emitted {
        (self.0, self.1, self.2, self.3).emit().followed_by(self.4.emit())
    }

    open spec fn parse(prior: (A::Model, B::Model, C::Model, D::Model, E::Model), bytes: Seq<u8>) -> Applied<(A::Model, B::Model, C::Model, D::Model, E::Model)> {
        let before = <(A, B, C, D) as Replicable>::parse((prior.0, prior.1, prior.2, prior.3), bytes);
        if before.error is Some {
            Applied {
                model: (before.model.0, before.model.1, before.model.2, before.model.3, prior.4),
                error: before.error,
                consumed: before.consumed,
            }
        } else {
            let last = E::parse(prior.4, bytes.skip(before.consumed as int));
            Applied {
                model: (before.model.0, before.model.1, before.model.2, before.model.3, last.model),
                error: last.error,
                consumed: before.consumed + last.consumed,
            }
        }
    }

    proof fn parse_is_within(prior: (A::Model, B::Model, C::Model, D::Model, E::Model), bytes: Seq<u8>) {
        let before = <(A, B, C, D) as Replicable>::parse((prior.0, prior.1, prior.2, prior.3), bytes);
        <(A, B, C, D) as Replicable>::parse_is_within((prior.0, prior.1, prior.2, prior.3), bytes);
        E::parse_is_within(prior.4, bytes.skip(before.consumed as int));
    }

    fn collect_changes(&self, buffer: &mut Buffer) -> (result: Result<(), Error>) {
        let ghost before = buffer@;
        match self.0.collect_changes(buffer) {
            Ok(_) => {},
            Err(error) => {
                return Err(error);
            },
        }
        proof {
            before.lemma_written_twice((self.0,).emit().bytes, self.1.emit().bytes);
        }
        match self.1.collect_changes(buffer) {
            Ok(_) => {},
            Err(error) => {
                return Err(error);
            },
        }
        proof {
            before.lemma_written_twice((self.0, self.1).emit().bytes, self.2.emit().bytes);
        }
        match self.2.collect_changes(buffer) {
            Ok(_) => {},
            Err(error) => {
                return Err(error);
            },
        }
        proof {
            before.lemma_written_twice((self.0, self.1, self.2).emit().bytes, self.3.emit().bytes);
        }
        match self.3.collect_changes(buffer) {
            Ok(_) => {},
            Err(error) => {
                return Err(error);
            },
        }
        proof {
            before.lemma_written_twice((self.0, self.1, self.2, self.3).emit().bytes, self.4.emit().bytes);
        }
        self.4.collect_changes(buffer)
    }

    fn apply_changes(&mut self, buffer: &mut Buffer) -> (result: Result<(), Error>) {
        let ghost before = buffer@;
        let ghost prior = self.model();
        match self.0.apply_changes(buffer) {
            Ok(_) => {},
            Err(error) => {
                return Err(error);
            },
        }
        proof {
            let done = <(A,) as Replicable>::parse((prior.0,), before.rest);
            <(A,) as Replicable>::parse_is_within((prior.0,), before.rest);
            before.lemma_advanced_twice(
                done.consumed,
                B::parse(prior.1, before.rest.skip(done.consumed as int)).consumed,
            );
        }
        match self.1.apply_changes(buffer) {
            Ok(_) => {},
            Err(error) => {
                return Err(error);
            },
        }
        proof {
            let done = <(A, B) as Replicable>::parse((prior.0, prior.1), before.rest);
            <(A, B) as Replicable>::parse_is_within((prior.0, prior.1), before.rest);
            before.lemma_advanced_twice(
                done.consumed,
                C::parse(prior.2, before.rest.skip(done.consumed as int)).consumed,
            );
        }
        match self.2.apply_changes(buffer) {
            Ok(_) => {},
            Err(error) => {
                return Err(error);
            },
        }
        proof {
            let done = <(A, B, C) as Replicable>::parse((prior.0, prior.1, prior.2), before.rest);
            <(A, B, C) as Replicable>::parse_is_within((prior.0, prior.1, prior.2), before.rest);
            before.lemma_advanced_twice(
                done.consumed,
                D::parse(prior.3, before.rest.skip(done.consumed as int)).consumed,
            );
        }
        match self.3.apply_changes(buffer) {
            Ok(_) => {},
            Err(error) => {
                return Err(error);
            },
        }
        proof {
            let done = <(A, B, C, D) as Replicable>::parse((prior.0, prior.1, prior.2, prior.3), before.rest);
            <(A, B, C, D) as Replicable>::parse_is_within((prior.0, prior.1, prior.2, prior.3), before.rest);
            before.lemma_advanced_twice(
                done.consumed,
                E::parse(prior.4, before.rest.skip(done.consumed as int)).consumed,
            );
        }
        self.4.apply_changes(buffer)
    }
}

impl<A: LosslessReplicable, B: LosslessReplicable, C: LosslessReplicable, D: LosslessReplicable, E: LosslessReplicable> LosslessReplicable for (A, B, C, D, E) {
    open spec fn fits(self) -> bool {
        self.0.fits() && self.1.fits() && self.2.fits() && self.3.fits() && self.4.fits()
    }

    proof fn law_round_trip(self, prior: (A::Model, B::Model, C::Model, D::Model, E::Model), tail: Seq<u8>) {
        let first = (self.0, self.1, self.2, self.3).emit().bytes;
        let last = self.4.emit().bytes;
        (self.0, self.1, self.2, self.3).law_round_trip((prior.0, prior.1, prior.2, prior.3), last + tail);
        self.4.law_round_trip(prior.4, tail);
        assert((first + last) + tail =~= first + (last + tail));
        assert((first + (last + tail)).skip(first.len() as int) =~= last + tail);
    }
}

impl<A: Replicable, B: Replicable, C: Replicable, D: Replicable, E: Replicable, F: Replicable> Replicable for (A, B, C, D, E, F) {
    type Model = (A::Model, B::Model, C::Model, D::Model, E::Model, F::Model);

    open spec fn model(self) -> (A::Model, B::Model, C::Model, D::Model, E::Model, F::Model) {
        (self.0.model(), self.1.model(), self.2.model(), self.3.model(), self.4.model(), self.5.model())
    }

    open spec fn emit(self) -> Emitted {
        (self.0, self.1, self.2, self.3, self.4).emit().followed_by(self.5.emit())
    }

    open spec fn parse(prior: (A::Model, B::Model, C::Model, D::Model, E::Model, F::Model), bytes: Seq<u8>) -> Applied<(A::Model, B::Model, C::Model, D::Model, E::Model, F::Model)> {
        let before = <(A, B, C, D, E) as Replicable>::parse((prior.0, prior.1, prior.2, prior.3, prior.4), bytes);
        if before.error is Some {
            Applied {
                model: (before.model.0, before.model.1, before.model.2, before.model.3, before.model.4, prior.5),
                error: before.error,
                consumed: before.consumed,
            }
        } else {
            let last = F::parse(prior.5, bytes.skip(before.consumed as int));
            Applied {
                model: (before.model.0, before.model.1, before.model.2, before.model.3, before.model.4, last.model),
                error: last.error,
                consumed: before.consumed + last.consumed,
            }
        }
    }

    proof fn parse_is_within(prior: (A::Model, B::Model, C::Model, D::Model, E::Model, F::Model), bytes: Seq<u8>) {
        let before = <(A, B, C, D, E) as Replicable>::parse((prior.0, prior.1, prior.2, prior.3, prior.4), bytes);
        <(A, B, C, D, E) as Replicable>::parse_is_within((prior.0, prior.1, prior.2, prior.3, prior.4), bytes);
        F::parse_is_within(prior.5, bytes.skip(before.consumed as int));
    }

    fn collect_changes(&self, buffer: &mut Buffer) -> (result: Result<(), Error>) {
        let ghost before = buffer@;
        match self.0.collect_changes(buffer) {
            Ok(_) => {},
            Err(error) => {
                return Err(error);
            },
        }
        proof {
            before.lemma_written_twice((self.0,).emit().bytes, self.1.emit().bytes);
        }
        match self.1.collect_changes(buffer) {
            Ok(_) => {},
            Err(error) => {
                return Err(error);
            },
        }
        proof {
            before.lemma_written_twice((self.0, self.1).emit().bytes, self.2.emit().bytes);
        }
        match self.2.collect_changes(buffer) {
            Ok(_) => {},
            Err(error) => {
                return Err(error);
            },
        }
        proof {
            before.lemma_written_twice((self.0, self.1, self.2).emit().bytes, self.3.emit().bytes);
        }
        match self.3.collect_changes(buffer) {
            Ok(_) => {},
            Err(error) => {
                return Err(error);
            },
        }
        proof {
            before.lemma_written_twice((self.0, self.1, self.2, self.3).emit().bytes, self.4.emit().bytes);
        }
        match self.4.collect_changes(buffer) {
            Ok(_) => {},
            Err(error) => {
                return Err(error);
            },
        }
        proof {
            before.lemma_written_twice((self.0, self.1, self.2, self.3, self.4).emit().bytes, self.5.emit().bytes);
        }
        self.5.collect_changes(buffer)
    }

    fn apply_changes(&mut self, buffer: &mut Buffer) -> (result: Result<(), Error>) {
        let ghost before = buffer@;
        let ghost prior = self.model();
        match self.0.apply_changes(buffer) {
            Ok(_) => {},
            Err(error) => {
                return Err(error);
            },
        }
        proof {
            let done = <(A,) as Replicable>::parse((prior.0,), before.rest);
            <(A,) as Replicable>::parse_is_within((prior.0,), before.rest);
            before.lemma_advanced_twice(
                done.consumed,
                B::parse(prior.1, before.rest.skip(done.consumed as int)).consumed,
            );
        }
        match self.1.apply_changes(buffer) {
            Ok(_) => {},
            Err(error) => {
                return Err(error);
            },
        }
        proof {
            let done = <(A, B) as Replicable>::parse((prior.0, prior.1), before.rest);
            <(A, B) as Replicable>::parse_is_within((prior.0, prior.1), before.rest);
            before.lemma_advanced_twice(
                done.consumed,
                C::parse(prior.2, before.rest.skip(done.consumed as int)).consumed,
            );
        }
        match self.2.apply_changes(buffer) {
            Ok(_) => {},
            Err(error) => {
                return Err(error);
            },
        }
        proof {
            let done = <(A, B, C) as Replicable>::parse((prior.0, prior.1, prior.2), before.rest);
            <(A, B, C) as Replicable>::parse_is_within((prior.0, prior.1, prior.2), before.rest);
            before.lemma_advanced_twice(
                done.consumed,
                D::parse(prior.3, before.rest.skip(done.consumed as int)).consumed,
            );
        }
        match self.3.apply_changes(buffer) {
            Ok(_) => {},
            Err(error) => {
                return Err(error);
            },
        }
        proof {
            let done = <(A, B, C, D) as Replicable>::parse((prior.0, prior.1, prior.2, prior.3), before.rest);
            <(A, B, C, D) as Replicable>::parse_is_within((prior.0, prior.1, prior.2, prior.3), before.rest);
            before.lemma_advanced_twice(
                done.consumed,
                E::parse(prior.4, before.rest.skip(done.consumed as int)).consumed,
            );
        }
        match self.4.apply_changes(buffer) {
            Ok(_) => {},
            Err(error) => {
                return Err(error);
            },
        }
        proof {
            let done = <(A, B, C, D, E) as Replicable>::parse((prior.0, prior.1, prior.2, prior.3, prior.4), before.rest);
            <(A, B, C, D, E) as Replicable>::parse_is_within((prior.0, prior.1, prior.2, prior.3, prior.4), before.rest);
            before.lemma_advanced_twice(
                done.consumed,
                F::parse(prior.5, before.rest.skip(done.consumed as int)).consumed,
            );
        }
        self.5.apply_changes(buffer)
    }
}

impl<A: LosslessReplicable, B: LosslessReplicable, C: LosslessReplicable, D: LosslessReplicable, E: LosslessReplicable, F: LosslessReplicable> LosslessReplicable for (A, B, C, D, E, F) {
    open spec fn fits(self) -> bool {
        self.0.fits() && self.1.fits() && self.2.fits() && self.3.fits() && self.4.fits() && self.5.fits()
    }

    proof fn law_round_trip(self, prior: (A::Model, B::Model, C::Model, D::Model, E::Model, F::Model), tail: Seq<u8>) {
        let first = (self.0, self.1, self.2, self.3, self.4).emit().bytes;
        let last = self.5.emit().bytes;
        (self.0, self.1, self.2, self.3, self.4).law_round_trip((prior.0, prior.1, prior.2, prior.3, prior.4), last + tail);
        self.5.law_round_trip(prior.5, tail);
        assert((first + last) + tail =~= first + (last + tail));
        assert((first + (last + tail)).skip(first.len() as int) =~= last + tail);
    }
}

impl<A: Replicable, B: Replicable, C: Replicable, D: Replicable, E: Replicable, F: Replicable, G: Replicable> Replicable for (A, B, C, D, E, F, G) {
    type Model = (A::Model, B::Model, C::Model, D::Model, E::Model, F::Model, G::Model);

    open spec fn model(self) -> (A::Model, B::Model, C::Model, D::Model, E::Model, F::Model, G::Model) {
        (self.0.model(), self.1.model(), self.2.model(), self.3.model(), self.4.model(), self.5.model(), self.6.model())
    }

    open spec fn emit(self) -> Emitted {
        (self.0, self.1, self.2, self.3, self.4, self.5).emit().followed_by(self.6.emit())
    }

    open spec fn parse(prior: (A::Model, B::Model, C::Model, D::Model, E::Model, F::Model, G::Model), bytes: Seq<u8>) -> Applied<(A::Model, B::Model, C::Model, D::Model, E::Model, F::Model, G::Model)> {
        let before = <(A, B, C, D, E, F) as Replicable>::parse((prior.0, prior.1, prior.2, prior.3, prior.4, prior.5), bytes);
        if before.error is Some {
            Applied {
                model: (before.model.0, before.model.1, before.model.2, before.model.3, before.model.4, before.model.5, prior.6),
                error: before.error,
                consumed: before.consumed,
            }
        } else {
            let last = G::parse(prior.6, bytes.skip(before.consumed as int));
            Applied {
                model: (before.model.0, before.model.1, before.model.2, before.model.3, before.model.4, before.model.5, last.model),
                error: last.error,
                consumed: before.consumed + last.consumed,
            }
        }
    }

    proof fn parse_is_within(prior: (A::Model, B::Model, C::Model, D::Model, E::Model, F::Model, G::Model), bytes: Seq<u8>) {
        let before = <(A, B, C, D, E, F) as Replicable>::parse((prior.0, prior.1, prior.2, prior.3, prior.4, prior.5), bytes);
        <(A, B, C, D, E, F) as Replicable>::parse_is_within((prior.0, prior.1, prior.2, prior.3, prior.4, prior.5), bytes);
        G::parse_is_within(prior.6, bytes.skip(before.consumed as int));
    }

    fn collect_changes(&self, buffer: &mut Buffer) -> (result: Result<(), Error>) {
        let ghost before = buffer@;
        match self.0.collect_changes(buffer) {
            Ok(_) => {},
            Err(error) => {
                return Err(error);
            },
        }
        proof {
            before.lemma_written_twice((self.0,).emit().bytes, self.1.emit().bytes);
        }
        match self.1.collect_changes(buffer) {
            Ok(_) => {},
            Err(error) => {
                return Err(error);
            },
        }
        proof {
            before.lemma_written_twice((self.0, self.1).emit().bytes, self.2.emit().bytes);
        }
        match self.2.collect_changes(buffer) {
            Ok(_) => {},
            Err(error) => {
                return Err(error);
            },
        }
        proof {
            before.lemma_written_twice((self.0, self.1, self.2).emit().bytes, self.3.emit().bytes);
        }
        match self.3.collect_changes(buffer) {
            Ok(_) => {},
            Err(error) => {
                return Err(error);
            },
        }
        proof {
            before.lemma_written_twice((self.0, self.1, self.2, self.3).emit().bytes, self.4.emit().bytes);
        }
        match self.4.collect_changes(buffer) {
            Ok(_) => {},
            Err(error) => {
                return Err(error);
            },
        }
        proof {
            before.lemma_written_twice((self.0, self.1, self.2, self.3, self.4).emit().bytes, self.5.emit().bytes);
        }
        match self.5.collect_changes(buffer) {
            Ok(_) => {},
            Err(error) => {
                return Err(error);
            },
        }
        proof {
            before.lemma_written_twice((self.0, self.1, self.2, self.3, self.4, self.5).emit().bytes, self.6.emit().bytes);
        }
        self.6.collect_changes(buffer)
    }

    fn apply_changes(&mut self, buffer: &mut Buffer) -> (result: Result<(), Error>) {
        let ghost before = buffer@;
        let ghost prior = self.model();
        match self.0.apply_changes(buffer) {
            Ok(_) => {},
            Err(error) => {
                return Err(error);
            },
        }
        proof {
            let done = <(A,) as Replicable>::parse((prior.0,), before.rest);
            <(A,) as Replicable>::parse_is_within((prior.0,), before.rest);
            before.lemma_advanced_twice(
                done.consumed,
                B::parse(prior.1, before.rest.skip(done.consumed as int)).consumed,
            );
        }
        match self.1.apply_changes(buffer) {
            Ok(_) => {},
            Err(error) => {
                return Err(error);
            },
        }
        proof {
            let done = <(A, B) as Replicable>::parse((prior.0, prior.1), before.rest);
            <(A, B) as Replicable>::parse_is_within((prior.0, prior.1), before.rest);
            before.lemma_advanced_twice(
                done.consumed,
                C::parse(prior.2, before.rest.skip(done.consumed as int)).consumed,
            );
        }
        match self.2.apply_changes(buffer) {
            Ok(_) => {},
            Err(error) => {
                return Err(error);
            },
        }
        proof {
            let done = <(A, B, C) as Replicable>::parse((prior.0, prior.1, prior.2), before.rest);
            <(A, B, C) as Replicable>::parse_is_within((prior.0, prior.1, prior.2), before.rest);
            before.lemma_advanced_twice(
                done.consumed,
                D::parse(prior.3, before.rest.skip(done.consumed as int)).consumed,
            );
        }
        match self.3.apply_changes(buffer) {
            Ok(_) => {},
            Err(error) => {
                return Err(error);
            },
        }
        proof {
            let done = <(A, B, C, D) as Replicable>::parse((prior.0, prior.1, prior.2, prior.3), before.rest);
            <(A, B, C, D) as Replicable>::parse_is_within((prior.0, prior.1, prior.2, prior.3), before.rest);
            before.lemma_advanced_twice(
                done.consumed,
                E::parse(prior.4, before.rest.skip(done.consumed as int)).consumed,
            );
        }
        match self.4.apply_changes(buffer) {
            Ok(_) => {},
            Err(error) => {
                return Err(error);
            },
        }
        proof {
            let done = <(A, B, C, D, E) as Replicable>::parse((prior.0, prior.1, prior.2, prior.3, prior.4), before.rest);
            <(A, B, C, D, E) as Replicable>::parse_is_within((prior.0, prior.1, prior.2, prior.3, prior.4), before.rest);
            before.lemma_advanced_twice(
                done.consumed,
                F::parse(prior.5, before.rest.skip(done.consumed as int)).consumed,
            );
        }
        match self.5.apply_changes(buffer) {
            Ok(_) => {},
            Err(error) => {
                return Err(error);
            },
        }
        proof {
            let done = <(A, B, C, D, E, F) as Replicable>::parse((prior.0, prior.1, prior.2, prior.3, prior.4, prior.5), before.rest);
            <(A, B, C, D, E, F) as Replicable>::parse_is_within((prior.0, prior.1, prior.2, prior.3, prior.4, prior.5), before.rest);
            before.lemma_advanced_twice(
                done.consumed,
                G::parse(prior.6, before.rest.skip(done.consumed as int)).consumed,
            );
        }
        self.6.apply_changes(buffer)
    }
}

impl<A: LosslessReplicable, B: LosslessReplicable, C: LosslessReplicable, D: LosslessReplicable, E: LosslessReplicable, F: LosslessReplicable, G: LosslessReplicable> LosslessReplicable for (A, B, C, D, E, F, G) {
    open spec fn fits(self) -> bool {
        self.0.fits() && self.1.fits() && self.2.fits() && self.3.fits() && self.4.fits() && self.5.fits() && self.6.fits()
    }

    proof fn law_round_trip(self, prior: (A::Model, B::Model, C::Model, D::Model, E::Model, F::Model, G::Model), tail: Seq<u8>) {
        let first = (self.0, self.1, self.2, self.3, self.4, self.5).emit().bytes;
        let last = self.6.emit().bytes;
        (self.0, self.1, self.2, self.3, self.4, self.5).law_round_trip((prior.0, prior.1, prior.2, prior.3, prior.4, prior.5), last + tail);
        self.6.law_round_trip(prior.6, tail);
        assert((first + last) + tail =~= first + (last + tail));
        assert((first + (last + tail)).skip(first.len() as int) =~= last + tail);
    }
}

impl<A: Replicable, B: Replicable, C: Replicable, D: Replicable, E: Replicable, F: Replicable, G: Replicable, H: Replicable> Replicable for (A, B, C, D, E, F, G, H) {
    type Model = (A::Model, B::Model, C::Model, D::Model, E::Model, F::Model, G::Model, H::Model);

    open spec fn model(self) -> (A::Model, B::Model, C::Model, D::Model, E::Model, F::Model, G::Model, H::Model) {
        (self.0.model(), self.1.model(), self.2.model(), self.3.model(), self.4.model(), self.5.model(), self.6.model(), self.7.model())
    }

    open spec fn emit(self) -> Emitted {
        (self.0, self.1, self.2, self.3, self.4, self.5, self.6).emit().followed_by(self.7.emit())
    }

    open spec fn parse(prior: (A::Model, B::Model, C::Model, D::Model, E::Model, F::Model, G::Model, H::Model), bytes: Seq<u8>) -> Applied<(A::Model, B::Model, C::Model, D::Model, E::Model, F::Model, G::Model, H::Model)> {
        let before = <(A, B, C, D, E, F, G) as Replicable>::parse((prior.0, prior.1, prior.2, prior.3, prior.4, prior.5, prior.6), bytes);
        if before.error is Some {
            Applied {
                model: (before.model.0, before.model.1, before.model.2, before.model.3, before.model.4, before.model.5, before.model.6, prior.7),
                error: before.error,
                consumed: before.consumed,
            }
        } else {
            let last = H::parse(prior.7, bytes.skip(before.consumed as int));
            Applied {
                model: (before.model.0, before.model.1, before.model.2, before.model.3, before.model.4, before.model.5, before.model.6, last.model),
                error: last.error,
                consumed: before.consumed + last.consumed,
            }
        }
    }

    proof fn parse_is_within(prior: (A::Model, B::Model, C::Model, D::Model, E::Model, F::Model, G::Model, H::Model), bytes: Seq<u8>) {
        let before = <(A, B, C, D, E, F, G) as Replicable>::parse((prior.0, prior.1, prior.2, prior.3, prior.4, prior.5, prior.6), bytes);
        <(A, B, C, D, E, F, G) as Replicable>::parse_is_within((prior.0, prior.1, prior.2, prior.3, prior.4, prior.5, prior.6), bytes);
        H::parse_is_within(prior.7, bytes.skip(before.consumed as int));
    }

    fn collect_changes(&self, buffer: &mut Buffer) -> (result: Result<(), Error>) {
        let ghost before = buffer@;
        match self.0.collect_changes(buffer) {
            Ok(_) => {},
            Err(error) => {
                return Err(error);
            },
        }
        proof {
            before.lemma_written_twice((self.0,).emit().bytes, self.1.emit().bytes);
        }
        match self.1.collect_changes(buffer) {
            Ok(_) => {},
            Err(error) => {
                return Err(error);
            },
        }
        proof {
            before.lemma_written_twice((self.0, self.1).emit().bytes, self.2.emit().bytes);
        }
        match self.2.collect_changes(buffer) {
            Ok(_) => {},
            Err(error) => {
                return Err(error);
            },
        }
        proof {
            before.lemma_written_twice((self.0, self.1, self.2).emit().bytes, self.3.emit().bytes);
        }
        match self.3.collect_changes(buffer) {
            Ok(_) => {},
            Err(error) => {
                return Err(error);
            },
        }
        proof {
            before.lemma_written_twice((self.0, self.1, self.2, self.3).emit().bytes, self.4.emit().bytes);
        }
        match self.4.collect_changes(buffer) {
            Ok(_) => {},
            Err(error) => {
                return Err(error);
            },
        }
        proof {
            before.lemma_written_twice((self.0, self.1, self.2, self.3, self.4).emit().bytes, self.5.emit().bytes);
        }
        match self.5.collect_changes(buffer) {
            Ok(_) => {},
            Err(error) => {
                return Err(error);
            },
        }
        proof {
            before.lemma_written_twice((self.0, self.1, self.2, self.3, self.4, self.5).emit().bytes, self.6.emit().bytes);
        }
        match self.6.collect_changes(buffer) {
            Ok(_) => {},
            Err(error) => {
                return Err(error);
            },
        }
        proof {
            before.lemma_written_twice((self.0, self.1, self.2, self.3, self.4, self.5, self.6).emit().bytes, self.7.emit().bytes);
        }
        self.7.collect_changes(buffer)
    }

    fn apply_changes(&mut self, buffer: &mut Buffer) -> (result: Result<(), Error>) {
        let ghost before = buffer@;
        let ghost prior = self.model();
        match self.0.apply_changes(buffer) {
            Ok(_) => {},
            Err(error) => {
                return Err(error);
            },
        }
        proof {
            let done = <(A,) as Replicable>::parse((prior.0,), before.rest);
            <(A,) as Replicable>::parse_is_within((prior.0,), before.rest);
            before.lemma_advanced_twice(
                done.consumed,
                B::parse(prior.1, before.rest.skip(done.consumed as int)).consumed,
            );
        }
        match self.1.apply_changes(buffer) {
            Ok(_) => {},
            Err(error) => {
                return Err(error);
            },
        }
        proof {
            let done = <(A, B) as Replicable>::parse((prior.0, prior.1), before.rest);
            <(A, B) as Replicable>::parse_is_within((prior.0, prior.1), before.rest);
            before.lemma_advanced_twice(
                done.consumed,
                C::parse(prior.2, before.rest.skip(done.consumed as int)).consumed,
            );
        }
        match self.2.apply_changes(buffer) {
            Ok(_) => {},
            Err(error) => {
                return Err(error);
            },
        }
        proof {
            let done = <(A, B, C) as Replicable>::parse((prior.0, prior.1, prior.2), before.rest);
            <(A, B, C) as Replicable>::parse_is_within((prior.0, prior.1, prior.2), before.rest);
            before.lemma_advanced_twice(
                done.consumed,
                D::parse(prior.3, before.rest.skip(done.consumed as int)).consumed,
            );
        }
        match self.3.apply_changes(buffer) {
            Ok(_) => {},
            Err(error) => {
                return Err(error);
            },
        }
        proof {
            let done = <(A, B, C, D) as Replicable>::parse((prior.0, prior.1, prior.2, prior.3), before.rest);
            <(A, B, C, D) as Replicable>::parse_is_within((prior.0, prior.1, prior.2, prior.3), before.rest);
            before.lemma_advanced_twice(
                done.consumed,
                E::parse(prior.4, before.rest.skip(done.consumed as int)).consumed,
            );
        }
        match self.4.apply_changes(buffer) {
            Ok(_) => {},
            Err(error) => {
                return Err(error);
            },
        }
        proof {
            let done = <(A, B, C, D, E) as Replicable>::parse((prior.0, prior.1, prior.2, prior.3, prior.4), before.rest);
            <(A, B, C, D, E) as Replicable>::parse_is_within((prior.0, prior.1, prior.2, prior.3, prior.4), before.rest);
            before.lemma_advanced_twice(
                done.consumed,
                F::parse(prior.5, before.rest.skip(done.consumed as int)).consumed,
            );
        }
        match self.5.apply_changes(buffer) {
            Ok(_) => {},
            Err(error) => {
                return Err(error);
            },
        }
        proof {
            let done = <(A, B, C, D, E, F) as Replicable>::parse((prior.0, prior.1, prior.2, prior.3, prior.4, prior.5), before.rest);
            <(A, B, C, D, E, F) as Replicable>::parse_is_within((prior.0, prior.1, prior.2, prior.3, prior.4, prior.5), before.rest);
            before.lemma_advanced_twice(
                done.consumed,
                G::parse(prior.6, before.rest.skip(done.consumed as int)).consumed,
            );
        }
        match self.6.apply_changes(buffer) {
            Ok(_) => {},
            Err(error) => {
                return Err(error);
            },
        }
        proof {
            let done = <(A, B, C, D, E, F, G) as Replicable>::parse((prior.0, prior.1, prior.2, prior.3, prior.4, prior.5, prior.6), before.rest);
            <(A, B, C, D, E, F, G) as Replicable>::parse_is_within((prior.0, prior.1, prior.2, prior.3, prior.4, prior.5, prior.6), before.rest);
            before.lemma_advanced_twice(
                done.consumed,
                H::parse(prior.7, before.rest.skip(done.consumed as int)).consumed,
            );
        }
        self.7.apply_changes(buffer)
    }
}

impl<A: LosslessReplicable, B: LosslessReplicable, C: LosslessReplicable, D: LosslessReplicable, E: LosslessReplicable, F: LosslessReplicable, G: LosslessReplicable, H: LosslessReplicable> LosslessReplicable for (A, B, C, D, E, F, G, H) {
    open spec fn fits(self) -> bool {
        self.0.fits() && self.1.fits() && self.2.fits() && self.3.fits() && self.4.fits() && self.5.fits() && self.6.fits() && self.7.fits()
    }

    proof fn law_round_trip(self, prior: (A::Model, B::Model, C::Model, D::Model, E::Model, F::Model, G::Model, H::Model), tail: Seq<u8>) {
        let first = (self.0, self.1, self.2, self.3, self.4, self.5, self.6).emit().bytes;
        let last = self.7.emit().bytes;
        (self.0, self.1, self.2, self.3, self.4, self.5, self.6).law_round_trip((prior.0, prior.1, prior.2, prior.3, prior.4, prior.5, prior.6), last + tail);
        self.7.law_round_trip(prior.7, tail);
        assert((first + last) + tail =~= first + (last + tail));
        assert((first + (last + tail)).skip(first.len() as int) =~= last + tail);
    }
}

impl<A: Replicable, B: Replicable, C: Replicable, D: Replicable, E: Replicable, F: Replicable, G: Replicable, H: Replicable, I: Replicable> Replicable for (A, B, C, D, E, F, G, H, I) {
    type Model = (A::Model, B::Model, C::Model, D::Model, E::Model, F::Model, G::Model, H::Model, I::Model);

    open spec fn model(self) -> (A::Model, B::Model, C::Model, D::Model, E::Model, F::Model, G::Model, H::Model, I::Model) {
        (self.0.model(), self.1.model(), self.2.model(), self.3.model(), self.4.model(), self.5.model(), self.6.model(), self.7.model(), self.8.model())
    }

    open spec fn emit(self) -> Emitted {
        (self.0, self.1, self.2, self.3, self.4, self.5, self.6, self.7).emit().followed_by(self.8.emit())
    }

    open spec fn parse(prior: (A::Model, B::Model, C::Model, D::Model, E::Model, F::Model, G::Model, H::Model, I::Model), bytes: Seq<u8>) -> Applied<(A::Model, B::Model, C::Model, D::Model, E::Model, F::Model, G::Model, H::Model, I::Model)> {
        let before = <(A, B, C, D, E, F, G, H) as Replicable>::parse((prior.0, prior.1, prior.2, prior.3, prior.4, prior.5, prior.6, prior.7), bytes);
        if before.error is Some {
            Applied {
                model: (before.model.0, before.model.1, before.model.2, before.model.3, before.model.4, before.model.5, before.model.6, before.model.7, prior.8),
                error: before.error,
                consumed: before.consumed,
            }
        } else {
            let last = I::parse(prior.8, bytes.skip(before.consumed as int));
            Applied {
                model: (before.model.0, before.model.1, before.model.2, before.model.3, before.model.4, before.model.5, before.model.6, before.model.7, last.model),
                error: last.error,
                consumed: before.consumed + last.consumed,
            }
        }
    }

    proof fn parse_is_within(prior: (A::Model, B::Model, C::Model, D::Model, E::Model, F::Model, G::Model, H::Model, I::Model), bytes: Seq<u8>) {
        let before = <(A, B, C, D, E, F, G, H) as Replicable>::parse((prior.0, prior.1, prior.2, prior.3, prior.4, prior.5, prior.6, prior.7), bytes);
        <(A, B, C, D, E, F, G, H) as Replicable>::parse_is_within((prior.0, prior.1, prior.2, prior.3, prior.4, prior.5, prior.6, prior.7), bytes);
        I::parse_is_within(prior.8, bytes.skip(before.consumed as int));
    }

    fn collect_changes(&self, buffer: &mut Buffer) -> (result: Result<(), Error>) {
        let ghost before = buffer@;
        match self.0.collect_changes(buffer) {
            Ok(_) => {},
            Err(error) => {
                return Err(error);
            },
        }
        proof {
            before.lemma_written_twice((self.0,).emit().bytes, self.1.emit().bytes);
        }
        match self.1.collect_changes(buffer) {
            Ok(_) => {},
            Err(error) => {
                return Err(error);
            },
        }
        proof {
            before.lemma_written_twice((self.0, self.1).emit().bytes, self.2.emit().bytes);
        }
        match self.2.collect_changes(buffer) {
            Ok(_) => {},
            Err(error) => {
                return Err(error);
            },
        }
        proof {
            before.lemma_written_twice((self.0, self.1, self.2).emit().bytes, self.3.emit().bytes);
        }
        match self.3.collect_changes(buffer) {
            Ok(_) => {},
            Err(error) => {
                return Err(error);
            },
        }
        proof {
            before.lemma_written_twice((self.0, self.1, self.2, self.3).emit().bytes, self.4.emit().bytes);
        }
        match self.4.collect_changes(buffer) {
            Ok(_) => {},
            Err(error) => {
                return Err(error);
            },
        }
        proof {
            before.lemma_written_twice((self.0, self.1, self.2, self.3, self.4).emit().bytes, self.5.emit().bytes);
        }
        match self.5.collect_changes(buffer) {
            Ok(_) => {},
            Err(error) => {
                return Err(error);
            },
        }
        proof {
            before.lemma_written_twice((self.0, self.1, self.2, self.3, self.4, self.5).emit().bytes, self.6.emit().bytes);
        }
        match self.6.collect_changes(buffer) {
            Ok(_) => {},
            Err(error) => {
                return Err(error);
            },
        }
        proof {
            before.lemma_written_twice((self.0, self.1, self.2, self.3, self.4, self.5, self.6).emit().bytes, self.7.emit().bytes);
        }
        match self.7.collect_changes(buffer) {
            Ok(_) => {},
            Err(error) => {
                return Err(error);
            },
        }
        proof {
            before.lemma_written_twice((self.0, self.1, self.2, self.3, self.4, self.5, self.6, self.7).emit().bytes, self.8.emit().bytes);
        }
        self.8.collect_changes(buffer)
    }

    fn apply_changes(&mut self, buffer: &mut Buffer) -> (result: Result<(), Error>) {
        let ghost before = buffer@;
        let ghost prior = self.model();
        match self.0.apply_changes(buffer) {
            Ok(_) => {},
            Err(error) => {
                return Err(error);
            },
        }
        proof {
            let done = <(A,) as Replicable>::parse((prior.0,), before.rest);
            <(A,) as Replicable>::parse_is_within((prior.0,), before.rest);
            before.lemma_advanced_twice(
                done.consumed,
                B::parse(prior.1, before.rest.skip(done.consumed as int)).consumed,
            );
        }
        match self.1.apply_changes(buffer) {
            Ok(_) => {},
            Err(error) => {
                return Err(error);
            },
        }
        proof {
            let done = <(A, B) as Replicable>::parse((prior.0, prior.1), before.rest);
            <(A, B) as Replicable>::parse_is_within((prior.0, prior.1), before.rest);
            before.lemma_advanced_twice(
                done.consumed,
                C::parse(prior.2, before.rest.skip(done.consumed as int)).consumed,
            );
        }
        match self.2.apply_changes(buffer) {
            Ok(_) => {},
            Err(error) => {
                return Err(error);
            },
        }
        proof {
            let done = <(A, B, C) as Replicable>::parse((prior.0, prior.1, prior.2), before.rest);
            <(A, B, C) as Replicable>::parse_is_within((prior.0, prior.1, prior.2), before.rest);
            before.lemma_advanced_twice(
                done.consumed,
                D::parse(prior.3, before.rest.skip(done.consumed as int)).consumed,
            );
        }
        match self.3.apply_changes(buffer) {
            Ok(_) => {},
            Err(error) => {
                return Err(error);
            },
        }
        proof {
            let done = <(A, B, C, D) as Replicable>::parse((prior.0, prior.1, prior.2, prior.3), before.rest);
            <(A, B, C, D) as Replicable>::parse_is_within((prior.0, prior.1, prior.2, prior.3), before.rest);
            before.lemma_advanced_twice(
                done.consumed,
                E::parse(prior.4, before.rest.skip(done.consumed as int)).consumed,
            );
        }
        match self.4.apply_changes(buffer) {
            Ok(_) => {},
            Err(error) => {
                return Err(error);
            },
        }
        proof {
            let done = <(A, B, C, D, E) as Replicable>::parse((prior.0, prior.1, prior.2, prior.3, prior.4), before.rest);
            <(A, B, C, D, E) as Replicable>::parse_is_within((prior.0, prior.1, prior.2, prior.3, prior.4), before.rest);
            before.lemma_advanced_twice(
                done.consumed,
                F::parse(prior.5, before.rest.skip(done.consumed as int)).consumed,
            );
        }
        match self.5.apply_changes(buffer) {
            Ok(_) => {},
            Err(error) => {
                return Err(error);
            },
        }
        proof {
            let done = <(A, B, C, D, E, F) as Replicable>::parse((prior.0, prior.1, prior.2, prior.3, prior.4, prior.5), before.rest);
            <(A, B, C, D, E, F) as Replicable>::parse_is_within((prior.0, prior.1, prior.2, prior.3, prior.4, prior.5), before.rest);
            before.lemma_advanced_twice(
                done.consumed,
                G::parse(prior.6, before.rest.skip(done.consumed as int)).consumed,
            );
        }
        match self.6.apply_changes(buffer) {
            Ok(_) => {},
            Err(error) => {
                return Err(error);
            },
        }
        proof {
            let done = <(A, B, C, D, E, F, G) as Replicable>::parse((prior.0, prior.1, prior.2, prior.3, prior.4, prior.5, prior.6), before.rest);
            <(A, B, C, D, E, F, G) as Replicable>::parse_is_within((prior.0, prior.1, prior.2, prior.3, prior.4, prior.5, prior.6), before.rest);
            before.lemma_advanced_twice(
                done.consumed,
                H::parse(prior.7, before.rest.skip(done.consumed as int)).consumed,
            );
        }
        match self.7.apply_changes(buffer) {
            Ok(_) => {},
            Err(error) => {
                return Err(error);
            },
        }
        proof {
            let done = <(A, B, C, D, E, F, G, H) as Replicable>::parse((prior.0, prior.1, prior.2, prior.3, prior.4, prior.5, prior.6, prior.7), before.rest);
            <(A, B, C, D, E, F, G, H) as Replicable>::parse_is_within((prior.0, prior.1, prior.2, prior.3, prior.4, prior.5, prior.6, prior.7), before.rest);
            before.lemma_advanced_twice(
                done.consumed,
                I::parse(prior.8, before.rest.skip(done.consumed as int)).consumed,
            );
        }
        self.8.apply_changes(buffer)
    }
}

impl<A: LosslessReplicable, B: LosslessReplicable, C: LosslessReplicable, D: LosslessReplicable, E: LosslessReplicable, F: LosslessReplicable, G: LosslessReplicable, H: LosslessReplicable, I: LosslessReplicable> LosslessReplicable for (A, B, C, D, E, F, G, H, I) {
    open spec fn fits(self) -> bool {
        self.0.fits() && self.1.fits() && self.2.fits() && self.3.fits() && self.4.fits() && self.5.fits() && self.6.fits() && self.7.fits() && self.8.fits()
    }

    proof fn law_round_trip(self, prior: (A::Model, B::Model, C::Model, D::Model, E::Model, F::Model, G::Model, H::Model, I::Model), tail: Seq<u8>) {
        let first = (self.0, self.1, self.2, self.3, self.4, self.5, self.6, self.7).emit().bytes;
        let last = self.8.emit().bytes;
        (self.0, self.1, self.2, self.3, self.4, self.5, self.6, self.7).law_round_trip((prior.0, prior.1, prior.2, prior.3, prior.4, prior.5, prior.6, prior.7), last + tail);
        self.8.law_round_trip(prior.8, tail);
        assert((first + last) + tail =~= first + (last + tail));
        assert((first + (last + tail)).skip(first.len() as int) =~= last + tail);
    }
}

impl<A: Replicable, B: Replicable, C: Replicable, D: Replicable, E: Replicable, F: Replicable, G: Replicable, H: Replicable, I: Replicable, J: Replicable> Replicable for (A, B, C, D, E, F, G, H, I, J) {
    type Model = (A::Model, B::Model, C::Model, D::Model, E::Model, F::Model, G::Model, H::Model, I::Model, J::Model);

    open spec fn model(self) -> (A::Model, B::Model, C::Model, D::Model, E::Model, F::Model, G::Model, H::Model, I::Model, J::Model) {
        (self.0.model(), self.1.model(), self.2.model(), self.3.model(), self.4.model(), self.5.model(), self.6.model(), self.7.model(), self.8.model(), self.9.model())
    }

    open spec fn emit(self) -> Emitted {
        (self.0, self.1, self.2, self.3, self.4, self.5, self.6, self.7, self.8).emit().followed_by(self.9.emit())
    }

    open spec fn parse(prior: (A::Model, B::Model, C::Model, D::Model, E::Model, F::Model, G::Model, H::Model, I::Model, J::Model), bytes: Seq<u8>) -> Applied<(A::Model, B::Model, C::Model, D::Model, E::Model, F::Model, G::Model, H::Model, I::Model, J::Model)> {
        let before = <(A, B, C, D, E, F, G, H, I) as Replicable>::parse((prior.0, prior.1, prior.2, prior.3, prior.4, prior.5, prior.6, prior.7, prior.8), bytes);
        if before.error is Some {
            Applied {
                model: (before.model.0, before.model.1, before.model.2, before.model.3, before.model.4, before.model.5, before.model.6, before.model.7, before.model.8, prior.9),
                error: before.error,
                consumed: before.consumed,
            }
        } else {
            let last = J::parse(prior.9, bytes.skip(before.consumed as int));
            Applied {
                model: (before.model.0, before.model.1, before.model.2, before.model.3, before.model.4, before.model.5, before.model.6, before.model.7, before.model.8, last.model),
                error: last.error,
                consumed: before.consumed + last.consumed,
            }
        }
    }

    proof fn parse_is_within(prior: (A::Model, B::Model, C::Model, D::Model, E::Model, F::Model, G::Model, H::Model, I::Model, J::Model), bytes: Seq<u8>) {
        let before = <(A, B, C, D, E, F, G, H, I) as Replicable>::parse((prior.0, prior.1, prior.2, prior.3, prior.4, prior.5, prior.6, prior.7, prior.8), bytes);
        <(A, B, C, D, E, F, G, H, I) as Replicable>::parse_is_within((prior.0, prior.1, prior.2, prior.3, prior.4, prior.5, prior.6, prior.7, prior.8), bytes);
        J::parse_is_within(prior.9, bytes.skip(before.consumed as int));
    }

    fn collect_changes(&self, buffer: &mut Buffer) -> (result: Result<(), Error>) {
        let ghost before = buffer@;
        match self.0.collect_changes(buffer) {
            Ok(_) => {},
            Err(error) => {
                return Err(error);
            },
        }
        proof {
            before.lemma_written_twice((self.0,).emit().bytes, self.1.emit().bytes);
        }
        match self.1.collect_changes(buffer) {
            Ok(_) => {},
            Err(error) => {
                return Err(error);
            },
        }
        proof {
            before.lemma_written_twice((self.0, self.1).emit().bytes, self.2.emit().bytes);
        }
        match self.2.collect_changes(buffer) {
            Ok(_) => {},
            Err(error) => {
                return Err(error);
            },
        }
        proof {
            before.lemma_written_twice((self.0, self.1, self.2).emit().bytes, self.3.emit().bytes);
        }
        match self.3.collect_changes(buffer) {
            Ok(_) => {},
            Err(error) => {
                return Err(error);
            },
        }
        proof {
            before.lemma_written_twice((self.0, self.1, self.2, self.3).emit().bytes, self.4.emit().bytes);
        }
        match self.4.collect_changes(buffer) {
            Ok(_) => {},
            Err(error) => {
                return Err(error);
            },
        }
        proof {
            before.lemma_written_twice((self.0, self.1, self.2, self.3, self.4).emit().bytes, self.5.emit().bytes);
        }
        match self.5.collect_changes(buffer) {
            Ok(_) => {},
            Err(error) => {
                return Err(error);
            },
        }
        proof {
            before.lemma_written_twice((self.0, self.1, self.2, self.3, self.4, self.5).emit().bytes, self.6.emit().bytes);
        }
        match self.6.collect_changes(buffer) {
            Ok(_) => {},
            Err(error) => {
                return Err(error);
            },
        }
        proof {
            before.lemma_written_twice((self.0, self.1, self.2, self.3, self.4, self.5, self.6).emit().bytes, self.7.emit().bytes);
        }
        match self.7.collect_changes(buffer) {
            Ok(_) => {},
            Err(error) => {
                return Err(error);
            },
        }
        proof {
            before.lemma_written_twice((self.0, self.1, self.2, self.3, self.4, self.5, self.6, self.7).emit().bytes, self.8.emit().bytes);
        }
        match self.8.collect_changes(buffer) {
            Ok(_) => {},
            Err(error) => {
                return Err(error);
            },
        }
        proof {
            before.lemma_written_twice((self.0, self.1, self.2, self.3, self.4, self.5, self.6, self.7, self.8).emit().bytes, self.9.emit().bytes);
        }
        self.9.collect_changes(buffer)
    }

    fn apply_changes(&mut self, buffer: &mut Buffer) -> (result: Result<(), Error>) {
        let ghost before = buffer@;
        let ghost prior = self.model();
        match self.0.apply_changes(buffer) {
            Ok(_) => {},
            Err(error) => {
                return Err(error);
            },
        }
        proof {
            let done = <(A,) as Replicable>::parse((prior.0,), before.rest);
            <(A,) as Replicable>::parse_is_within((prior.0,), before.rest);
            before.lemma_advanced_twice(
                done.consumed,
                B::parse(prior.1, before.rest.skip(done.consumed as int)).consumed,
            );
        }
        match self.1.apply_changes(buffer) {
            Ok(_) => {},
            Err(error) => {
                return Err(error);
            },
        }
        proof {
            let done = <(A, B) as Replicable>::parse((prior.0, prior.1), before.rest);
            <(A, B) as Replicable>::parse_is_within((prior.0, prior.1), before.rest);
            before.lemma_advanced_twice(
                done.consumed,
                C::parse(prior.2, before.rest.skip(done.consumed as int)).consumed,
            );
        }
        match self.2.apply_changes(buffer) {
            Ok(_) => {},
            Err(error) => {
                return Err(error);
            },
        }
        proof {
            let done = <(A, B, C) as Replicable>::parse((prior.0, prior.1, prior.2), before.rest);
            <(A, B, C) as Replicable>::parse_is_within((prior.0, prior.1, prior.2), before.rest);
            before.lemma_advanced_twice(
                done.consumed,
                D::parse(prior.3, before.rest.skip(done.consumed as int)).consumed,
            );
        }
        match self.3.apply_changes(buffer) {
            Ok(_) => {},
            Err(error) => {
                return Err(error);
            },
        }
        proof {
            let done = <(A, B, C, D) as Replicable>::parse((prior.0, prior.1, prior.2, prior.3), before.rest);
            <(A, B, C, D) as Replicable>::parse_is_within((prior.0, prior.1, prior.2, prior.3), before.rest);
            before.lemma_advanced_twice(
                done.consumed,
                E::parse(prior.4, before.rest.skip(done.consumed as int)).consumed,
            );
        }
        match self.4.apply_changes(buffer) {
            Ok(_) => {},
            Err(error) => {
                return Err(error);
            },
        }
        proof {
            let done = <(A, B, C, D, E) as Replicable>::parse((prior.0, prior.1, prior.2, prior.3, prior.4), before.rest);
            <(A, B, C, D, E) as Replicable>::parse_is_within((prior.0, prior.1, prior.2, prior.3, prior.4), before.rest);
            before.lemma_advanced_twice(
                done.consumed,
                F::parse(prior.5, before.rest.skip(done.consumed as int)).consumed,
            );
        }
        match self.5.apply_changes(buffer) {
            Ok(_) => {},
            Err(error) => {
                return Err(error);
            },
        }
        proof {
            let done = <(A, B, C, D, E, F) as Replicable>::parse((prior.0, prior.1, prior.2, prior.3, prior.4, prior.5), before.rest);
            <(A, B, C, D, E, F) as Replicable>::parse_is_within((prior.0, prior.1, prior.2, prior.3, prior.4, prior.5), before.rest);
            before.lemma_advanced_twice(
                done.consumed,
                G::parse(prior.6, before.rest.skip(done.consumed as int)).consumed,
            );
        }
        match self.6.apply_changes(buffer) {
            Ok(_) => {},
            Err(error) => {
                return Err(error);
            },
        }
        proof {
            let done = <(A, B, C, D, E, F, G) as Replicable>::parse((prior.0, prior.1, prior.2, prior.3, prior.4, prior.5, prior.6), before.rest);
            <(A, B, C, D, E, F, G) as Replicable>::parse_is_within((prior.0, prior.1, prior.2, prior.3, prior.4, prior.5, prior.6), before.rest);
            before.lemma_advanced_twice(
                done.consumed,
                H::parse(prior.7, before.rest.skip(done.consumed as int)).consumed,
            );
        }
        match self.7.apply_changes(buffer) {
            Ok(_) => {},
            Err(error) => {
                return Err(error);
            },
        }
        proof {
            let done = <(A, B, C, D, E, F, G, H) as Replicable>::parse((prior.0, prior.1, prior.2, prior.3, prior.4, prior.5, prior.6, prior.7), before.rest);
            <(A, B, C, D, E, F, G, H) as Replicable>::parse_is_within((prior.0, prior.1, prior.2, prior.3, prior.4, prior.5, prior.6, prior.7), before.rest);
            before.lemma_advanced_twice(
                done.consumed,
                I::parse(prior.8, before.rest.skip(done.consumed as int)).consumed,
            );
        }
        match self.8.apply_changes(buffer) {
            Ok(_) => {},
            Err(error) => {
                return Err(error);
            },
        }
        proof {
            let done = <(A, B, C, D, E, F, G, H, I) as Replicable>::parse((prior.0, prior.1, prior.2, prior.3, prior.4, prior.5, prior.6, prior.7, prior.8), before.rest);
            <(A, B, C, D, E, F, G, H, I) as Replicable>::parse_is_within((prior.0, prior.1, prior.2, prior.3, prior.4, prior.5, prior.6, prior.7, prior.8), before.rest);
            before.lemma_advanced_twice(
                done.consumed,
                J::parse(prior.9, before.rest.skip(done.consumed as int)).consumed,
            );
        }
        self.9.apply_changes(buffer)
    }
}

impl<A: LosslessReplicable, B: LosslessReplicable, C: LosslessReplicable, D: LosslessReplicable, E: LosslessReplicable, F: LosslessReplicable, G: LosslessReplicable, H: LosslessReplicable, I: LosslessReplicable, J: LosslessReplicable> LosslessReplicable for (A, B, C, D, E, F, G, H, I, J) {
    open spec fn fits(self) -> bool {
        self.0.fits() && self.1.fits() && self.2.fits() && self.3.fits() && self.4.fits() && self.5.fits() && self.6.fits() && self.7.fits() && self.8.fits() && self.9.fits()
    }

    proof fn law_round_trip(self, prior: (A::Model, B::Model, C::Model, D::Model, E::Model, F::Model, G::Model, H::Model, I::Model, J::Model), tail: Seq<u8>) {
        let first = (self.0, self.1, self.2, self.3, self.4, self.5, self.6, self.7, self.8).emit().bytes;
        let last = self.9.emit().bytes;
        (self.0, self.1, self.2, self.3, self.4, self.5, self.6, self.7, self.8).law_round_trip((prior.0, prior.1, prior.2, prior.3, prior.4, prior.5, prior.6, prior.7, prior.8), last + tail);
        self.9.law_round_trip(prior.9, tail);
        assert((first + last) + tail =~= first + (last + tail));
        assert((first + (last + tail)).skip(first.len() as int) =~= last + tail);
    }
}

impl<A: Replicable, B: Replicable, C: Replicable, D: Replicable, E: Replicable, F: Replicable, G: Replicable, H: Replicable, I: Replicable, J: Replicable, K: Replicable> Replicable for (A, B, C, D, E, F, G, H, I, J, K) {
    type Model = (A::Model, B::Model, C::Model, D::Model, E::Model, F::Model, G::Model, H::Model, I::Model, J::Model, K::Model);

    open spec fn model(self) -> (A::Model, B::Model, C::Model, D::Model, E::Model, F::Model, G::Model, H::Model, I::Model, J::Model, K::Model) {
        (self.0.model(), self.1.model(), self.2.model(), self.3.model(), self.4.model(), self.5.model(), self.6.model(), self.7.model(), self.8.model(), self.9.model(), self.10.model())
    }

    open spec fn emit(self) -> Emitted {
        (self.0, self.1, self.2, self.3, self.4, self.5, self.6, self.7, self.8, self.9).emit().followed_by(self.10.emit())
    }

    open spec fn parse(prior: (A::Model, B::Model, C::Model, D::Model, E::Model, F::Model, G::Model, H::Model, I::Model, J::Model, K::Model), bytes: Seq<u8>) -> Applied<(A::Model, B::Model, C::Model, D::Model, E::Model, F::Model, G::Model, H::Model, I::Model, J::Model, K::Model)> {
        let before = <(A, B, C, D, E, F, G, H, I, J) as Replicable>::parse((prior.0, prior.1, prior.2, prior.3, prior.4, prior.5, prior.6, prior.7, prior.8, prior.9), bytes);
        if before.error is Some {
            Applied {
                model: (before.model.0, before.model.1, before.model.2, before.model.3, before.model.4, before.model.5, before.model.6, before.model.7, before.model.8, before.model.9, prior.10),
                error: before.error,
                consumed: before.consumed,
            }
        } else {
            let last = K::parse(prior.10, bytes.skip(before.consumed as int));
            Applied {
                model: (before.model.0, before.model.1, before.model.2, before.model.3, before.model.4, before.model.5, before.model.6, before.model.7, before.model.8, before.model.9, last.model),
                error: last.error,
                consumed: before.consumed + last.consumed,
            }
        }
    }

    proof fn parse_is_within(prior: (A::Model, B::Model, C::Model, D::Model, E::Model, F::Model, G::Model, H::Model, I::Model, J::Model, K::Model), bytes: Seq<u8>) {
        let before = <(A, B, C, D, E, F, G, H, I, J) as Replicable>::parse((prior.0, prior.1, prior.2, prior.3, prior.4, prior.5, prior.6, prior.7, prior.8, prior.9), bytes);
        <(A, B, C, D, E, F, G, H, I, J) as Replicable>::parse_is_within((prior.0, prior.1, prior.2, prior.3, prior.4, prior.5, prior.6, prior.7, prior.8, prior.9), bytes);
        K::parse_is_within(prior.10, bytes.skip(before.consumed as int));
    }

    fn collect_changes(&self, buffer: &mut Buffer) -> (result: Result<(), Error>) {
        let ghost before = buffer@;
        match self.0.collect_changes(buffer) {
            Ok(_) => {},
            Err(error) => {
                return Err(error);
            },
        }
        proof {
            before.lemma_written_twice((self.0,).emit().bytes, self.1.emit().bytes);
        }
        match self.1.collect_changes(buffer) {
            Ok(_) => {},
            Err(error) => {
                return Err(error);
            },
        }
        proof {
            before.lemma_written_twice((self.0, self.1).emit().bytes, self.2.emit().bytes);
        }
        match self.2.collect_changes(buffer) {
            Ok(_) => {},
            Err(error) => {
                return Err(error);
            },
        }
        proof {
            before.lemma_written_twice((self.0, self.1, self.2).emit().bytes, self.3.emit().bytes);
        }
        match self.3.collect_changes(buffer) {
            Ok(_) => {},
            Err(error) => {
                return Err(error);
            },
        }
        proof {
            before.lemma_written_twice((self.0, self.1, self.2, self.3).emit().bytes, self.4.emit().bytes);
        }
        match self.4.collect_changes(buffer) {
            Ok(_) => {},
            Err(error) => {
                return Err(error);
            },
        }
        proof {
            before.lemma_written_twice((self.0, self.1, self.2, self.3, self.4).emit().bytes, self.5.emit().bytes);
        }
        match self.5.collect_changes(buffer) {
            Ok(_) => {},
            Err(error) => {
                return Err(error);
            },
        }
        proof {
            before.lemma_written_twice((self.0, self.1, self.2, self.3, self.4, self.5).emit().bytes, self.6.emit().bytes);
        }
        match self.6.collect_changes(buffer) {
            Ok(_) => {},
            Err(error) => {
                return Err(error);
            },
        }
        proof {
            before.lemma_written_twice((self.0, self.1, self.2, self.3, self.4, self.5, self.6).emit().bytes, self.7.emit().bytes);
        }
        match self.7.collect_changes(buffer) {
            Ok(_) => {},
            Err(error) => {
                return Err(error);
            },
        }
        proof {
            before.lemma_written_twice((self.0, self.1, self.2, self.3, self.4, self.5, self.6, self.7).emit().bytes, self.8.emit().bytes);
        }
        match self.8.collect_changes(buffer) {
            Ok(_) => {},
            Err(error) => {
                return Err(error);
            },
        }
        proof {
            before.lemma_written_twice((self.0, self.1, self.2, self.3, self.4, self.5, self.6, self.7, self.8).emit().bytes, self.9.emit().bytes);
        }
        match self.9.collect_changes(buffer) {
            Ok(_) => {},
            Err(error) => {
                return Err(error);
            },
        }
        proof {
            before.lemma_written_twice((self.0, self.1, self.2, self.3, self.4, self.5, self.6, self.7, self.8, self.9).emit().bytes, self.10.emit().bytes);
        }
        self.10.collect_changes(buffer)
    }

    fn apply_changes(&mut self, buffer: &mut Buffer) -> (result: Result<(), Error>) {
        let ghost before = buffer@;
        let ghost prior = self.model();
        match self.0.apply_changes(buffer) {
            Ok(_) => {},
            Err(error) => {
                return Err(error);
            },
        }
        proof {
            let done = <(A,) as Replicable>::parse((prior.0,), before.rest);
            <(A,) as Replicable>::parse_is_within((prior.0,), before.rest);
            before.lemma_advanced_twice(
                done.consumed,
                B::parse(prior.1, before.rest.skip(done.consumed as int)).consumed,
            );
        }
        match self.1.apply_changes(buffer) {
            Ok(_) => {},
            Err(error) => {
                return Err(error);
            },
        }
        proof {
            let done = <(A, B) as Replicable>::parse((prior.0, prior.1), before.rest);
            <(A, B) as Replicable>::parse_is_within((prior.0, prior.1), before.rest);
            before.lemma_advanced_twice(
                done.consumed,
                C::parse(prior.2, before.rest.skip(done.consumed as int)).consumed,
            );
        }
        match self.2.apply_changes(buffer) {
            Ok(_) => {},
            Err(error) => {
                return Err(error);
            },
        }
        proof {
            let done = <(A, B, C) as Replicable>::parse((prior.0, prior.1, prior.2), before.rest);
            <(A, B, C) as Replicable>::parse_is_within((prior.0, prior.1, prior.2), before.rest);
            before.lemma_advanced_twice(
                done.consumed,
                D::parse(prior.3, before.rest.skip(done.consumed as int)).consumed,
            );
        }
        match self.3.apply_changes(buffer) {
            Ok(_) => {},
            Err(error) => {
                return Err(error);
            },
        }
        proof {
            let done = <(A, B, C, D) as Replicable>::parse((prior.0, prior.1, prior.2, prior.3), before.rest);
            <(A, B, C, D) as Replicable>::parse_is_within((prior.0, prior.1, prior.2, prior.3), before.rest);
            before.lemma_advanced_twice(
                done.consumed,
                E::parse(prior.4, before.rest.skip(done.consumed as int)).consumed,
            );
        }
        match self.4.apply_changes(buffer) {
            Ok(_) => {},
            Err(error) => {
                return Err(error);
            },
        }
        proof {
            let done = <(A, B, C, D, E) as Replicable>::parse((prior.0, prior.1, prior.2, prior.3, prior.4), before.rest);
            <(A, B, C, D, E) as Replicable>::parse_is_within((prior.0, prior.1, prior.2, prior.3, prior.4), before.rest);
            before.lemma_advanced_twice(
                done.consumed,
                F::parse(prior.5, before.rest.skip(done.consumed as int)).consumed,
            );
        }
        match self.5.apply_changes(buffer) {
            Ok(_) => {},
            Err(error) => {
                return Err(error);
            },
        }
        proof {
            let done = <(A, B, C, D, E, F) as Replicable>::parse((prior.0, prior.1, prior.2, prior.3, prior.4, prior.5), before.rest);
            <(A, B, C, D, E, F) as Replicable>::parse_is_within((prior.0, prior.1, prior.2, prior.3, prior.4, prior.5), before.rest);
            before.lemma_advanced_twice(
                done.consumed,
                G::parse(prior.6, before.rest.skip(done.consumed as int)).consumed,
            );
        }
        match self.6.apply_changes(buffer) {
            Ok(_) => {},
            Err(error) => {
                return Err(error);
            },
        }
        proof {
            let done = <(A, B, C, D, E, F, G) as Replicable>::parse((prior.0, prior.1, prior.2, prior.3, prior.4, prior.5, prior.6), before.rest);
            <(A, B, C, D, E, F, G) as Replicable>::parse_is_within((prior.0, prior.1, prior.2, prior.3, prior.4, prior.5, prior.6), before.rest);
            before.lemma_advanced_twice(
                done.consumed,
                H::parse(prior.7, before.rest.skip(done.consumed as int)).consumed,
            );
        }
        match self.7.apply_changes(buffer) {
            Ok(_) => {},
            Err(error) => {
                return Err(error);
            },
        }
        proof {
            let done = <(A, B, C, D, E, F, G, H) as Replicable>::parse((prior.0, prior.1, prior.2, prior.3, prior.4, prior.5, prior.6, prior.7), before.rest);
            <(A, B, C, D, E, F, G, H) as Replicable>::parse_is_within((prior.0, prior.1, prior.2, prior.3, prior.4, prior.5, prior.6, prior.7), before.rest);
            before.lemma_advanced_twice(
                done.consumed,
                I::parse(prior.8, before.rest.skip(done.consumed as int)).consumed,
            );
        }
        match self.8.apply_changes(buffer) {
            Ok(_) => {},
            Err(error) => {
                return Err(error);
            },
        }
        proof {
            let done = <(A, B, C, D, E, F, G, H, I) as Replicable>::parse((prior.0, prior.1, prior.2, prior.3, prior.4, prior.5, prior.6, prior.7, prior.8), before.rest);
            <(A, B, C, D, E, F, G, H, I) as Replicable>::parse_is_within((prior.0, prior.1, prior.2, prior.3, prior.4, prior.5, prior.6, prior.7, prior.8), before.rest);
            before.lemma_advanced_twice(
                done.consumed,
                J::parse(prior.9, before.rest.skip(done.consumed as int)).consumed,
            );
        }
        match self.9.apply_changes(buffer) {
            Ok(_) => {},
            Err(error) => {
                return Err(error);
            },
        }
        proof {
            let done = <(A, B, C, D, E, F, G, H, I, J) as Replicable>::parse((prior.0, prior.1, prior.2, prior.3, prior.4, prior.5, prior.6, prior.7, prior.8, prior.9), before.rest);
            <(A, B, C, D, E, F, G, H, I, J) as Replicable>::parse_is_within((prior.0, prior.1, prior.2, prior.3, prior.4, prior.5, prior.6, prior.7, prior.8, prior.9), before.rest);
            before.lemma_advanced_twice(
                done.consumed,
                K::parse(prior.10, before.rest.skip(done.consumed as int)).consumed,
            );
        }
        self.10.apply_changes(buffer)
    }
}

impl<A: LosslessReplicable, B: LosslessReplicable, C: LosslessReplicable, D: LosslessReplicable, E: LosslessReplicable, F: LosslessReplicable, G: LosslessReplicable, H: LosslessReplicable, I: LosslessReplicable, J: LosslessReplicable, K: LosslessReplicable> LosslessReplicable for (A, B, C, D, E, F, G, H, I, J, K) {
    open spec fn fits(self) -> bool {
        self.0.fits() && self.1.fits() && self.2.fits() && self.3.fits() && self.4.fits() && self.5.fits() && self.6.fits() && self.7.fits() && self.8.fits() && self.9.fits() && self.10.fits()
    }

    proof fn law_round_trip(self, prior: (A::Model, B::Model, C::Model, D::Model, E::Model, F::Model, G::Model, H::Model, I::Model, J::Model, K::Model), tail: Seq<u8>) {
        let first = (self.0, self.1, self.2, self.3, self.4, self.5, self.6, self.7, self.8, self.9).emit().bytes;
        let last = self.10.emit().bytes;
        (self.0, self.1, self.2, self.3, self.4, self.5, self.6, self.7, self.8, self.9).law_round_trip((prior.0, prior.1, prior.2, prior.3, prior.4, prior.5, prior.6, prior.7, prior.8, prior.9), last + tail);
        self.10.law_round_trip(prior.10, tail);
        assert((first + last) + tail =~= first + (last + tail));
        assert((first + (last + tail)).skip(first.len() as int) =~= last + tail);
    }
}

impl<A: Replicable, B: Replicable, C: Replicable, D: Replicable, E: Replicable, F: Replicable, G: Replicable, H: Replicable, I: Replicable, J: Replicable, K: Replicable, L: Replicable> Replicable for (A, B, C, D, E, F, G, H, I, J, K, L) {
    type Model = (A::Model, B::Model, C::Model, D::Model, E::Model, F::Model, G::Model, H::Model, I::Model, J::Model, K::Model, L::Model);

    open spec fn model(self) -> (A::Model, B::Model, C::Model, D::Model, E::Model, F::Model, G::Model, H::Model, I::Model, J::Model, K::Model, L::Model) {
        (self.0.model(), self.1.model(), self.2.model(), self.3.model(), self.4.model(), self.5.model(), self.6.model(), self.7.model(), self.8.model(), self.9.model(), self.10.model(), self.11.model())
    }

    open spec fn emit(self) -> Emitted {
        (self.0, self.1, self.2, self.3, self.4, self.5, self.6, self.7, self.8, self.9, self.10).emit().followed_by(self.11.emit())
    }

    open spec fn parse(prior: (A::Model, B::Model, C::Model, D::Model, E::Model, F::Model, G::Model, H::Model, I::Model, J::Model, K::Model, L::Model), bytes: Seq<u8>) -> Applied<(A::Model, B::Model, C::Model, D::Model, E::Model, F::Model, G::Model, H::Model, I::Model, J::Model, K::Model, L::Model)> {
        let before = <(A, B, C, D, E, F, G, H, I, J, K) as Replicable>::parse((prior.0, prior.1, prior.2, prior.3, prior.4, prior.5, prior.6, prior.7, prior.8, prior.9, prior.10), bytes);
        if before.error is Some {
            Applied {
                model: (before.model.0, before.model.1, before.model.2, before.model.3, before.model.4, before.model.5, before.model.6, before.model.7, before.model.8, before.model.9, before.model.10, prior.11),
                error: before.error,
                consumed: before.consumed,
            }
        } else {
            let last = L::parse(prior.11, bytes.skip(before.consumed as int));
            Applied {
                model: (before.model.0, before.model.1, before.model.2, before.model.3, before.model.4, before.model.5, before.model.6, before.model.7, before.model.8, before.model.9, before.model.10, last.model),
                error: last.error,
                consumed: before.consumed + last.consumed,
            }
        }
    }

    proof fn parse_is_within(prior: (A::Model, B::Model, C::Model, D::Model, E::Model, F::Model, G::Model, H::Model, I::Model, J::Model, K::Model, L::Model), bytes: Seq<u8>) {
        let before = <(A, B, C, D, E, F, G, H, I, J, K) as Replicable>::parse((prior.0, prior.1, prior.2, prior.3, prior.4, prior.5, prior.6, prior.7, prior.8, prior.9, prior.10), bytes);
        <(A, B, C, D, E, F, G, H, I, J, K) as Replicable>::parse_is_within((prior.0, prior.1, prior.2, prior.3, prior.4, prior.5, prior.6, prior.7, prior.8, prior.9, prior.10), bytes);
        L::parse_is_within(prior.11, bytes.skip(before.consumed as int));
    }

    fn collect_changes(&self, buffer: &mut Buffer) -> (result: Result<(), Error>) {
        let ghost before = buffer@;
        match self.0.collect_changes(buffer) {
            Ok(_) => {},
            Err(error) => {
                return Err(error);
            },
        }
        proof {
            before.lemma_written_twice((self.0,).emit().bytes, self.1.emit().bytes);
        }
        match self.1.collect_changes(buffer) {
            Ok(_) => {},
            Err(error) => {
                return Err(error);
            },
        }
        proof {
            before.lemma_written_twice((self.0, self.1).emit().bytes, self.2.emit().bytes);
        }
        match self.2.collect_changes(buffer) {
            Ok(_) => {},
            Err(error) => {
                return Err(error);
            },
        }
        proof {
            before.lemma_written_twice((self.0, self.1, self.2).emit().bytes, self.3.emit().bytes);
        }
        match self.3.collect_changes(buffer) {
            Ok(_) => {},
            Err(error) => {
                return Err(error);
            },
        }
        proof {
            before.lemma_written_twice((self.0, self.1, self.2, self.3).emit().bytes, self.4.emit().bytes);
        }
        match self.4.collect_changes(buffer) {
            Ok(_) => {},
            Err(error) => {
                return Err(error);
            },
        }
        proof {
            before.lemma_written_twice((self.0, self.1, self.2, self.3, self.4).emit().bytes, self.5.emit().bytes);
        }
        match self.5.collect_changes(buffer) {
            Ok(_) => {},
            Err(error) => {
                return Err(error);
            },
        }
        proof {
            before.lemma_written_twice((self.0, self.1, self.2, self.3, self.4, self.5).emit().bytes, self.6.emit().bytes);
        }
        match self.6.collect_changes(buffer) {
            Ok(_) => {},
            Err(error) => {
                return Err(error);
            },
        }
        proof {
            before.lemma_written_twice((self.0, self.1, self.2, self.3, self.4, self.5, self.6).emit().bytes, self.7.emit().bytes);
        }
        match self.7.collect_changes(buffer) {
            Ok(_) => {},
            Err(error) => {
                return Err(error);
            },
        }
        proof {
            before.lemma_written_twice((self.0, self.1, self.2, self.3, self.4, self.5, self.6, self.7).emit().bytes, self.8.emit().bytes);
        }
        match self.8.collect_changes(buffer) {
            Ok(_) => {},
            Err(error) => {
                return Err(error);
            },
        }
        proof {
            before.lemma_written_twice((self.0, self.1, self.2, self.3, self.4, self.5, self.6, self.7, self.8).emit().bytes, self.9.emit().bytes);
        }
        match self.9.collect_changes(buffer) {
            Ok(_) => {},
            Err(error) => {
                return Err(error);
            },
        }
        proof {
            before.lemma_written_twice((self.0, self.1, self.2, self.3, self.4, self.5, self.6, self.7, self.8, self.9).emit().bytes, self.10.emit().bytes);
        }
        match self.10.collect_changes(buffer) {
            Ok(_) => {},
            Err(error) => {
                return Err(error);
            },
        }
        proof {
            before.lemma_written_twice((self.0, self.1, self.2, self.3, self.4, self.5, self.6, self.7, self.8, self.9, self.10).emit().bytes, self.11.emit().bytes);
        }
        self.11.collect_changes(buffer)
    }

    fn apply_changes(&mut self, buffer: &mut Buffer) -> (result: Result<(), Error>) {
        let ghost before = buffer@;
        let ghost prior = self.model();
        match self.0.apply_changes(buffer) {
            Ok(_) => {},
            Err(error) => {
                return Err(error);
            },
        }
        proof {
            let done = <(A,) as Replicable>::parse((prior.0,), before.rest);
            <(A,) as Replicable>::parse_is_within((prior.0,), before.rest);
            before.lemma_advanced_twice(
                done.consumed,
                B::parse(prior.1, before.rest.skip(done.consumed as int)).consumed,
            );
        }
        match self.1.apply_changes(buffer) {
            Ok(_) => {},
            Err(error) => {
                return Err(error);
            },
        }
        proof {
            let done = <(A, B) as Replicable>::parse((prior.0, prior.1), before.rest);
            <(A, B) as Replicable>::parse_is_within((prior.0, prior.1), before.rest);
            before.lemma_advanced_twice(
                done.consumed,
                C::parse(prior.2, before.rest.skip(done.consumed as int)).consumed,
            );
        }
        match self.2.apply_changes(buffer) {
            Ok(_) => {},
            Err(error) => {
                return Err(error);
            },
        }
        proof {
            let done = <(A, B, C) as Replicable>::parse((prior.0, prior.1, prior.2), before.rest);
            <(A, B, C) as Replicable>::parse_is_within((prior.0, prior.1, prior.2), before.rest);
            before.lemma_advanced_twice(
                done.consumed,
                D::parse(prior.3, before.rest.skip(done.consumed as int)).consumed,
            );
        }
        match self.3.apply_changes(buffer) {
            Ok(_) => {},
            Err(error) => {
                return Err(error);
            },
        }
        proof {
            let done = <(A, B, C, D) as Replicable>::parse((prior.0, prior.1, prior.2, prior.3), before.rest);
            <(A, B, C, D) as Replicable>::parse_is_within((prior.0, prior.1, prior.2, prior.3), before.rest);
            before.lemma_advanced_twice(
                done.consumed,
                E::parse(prior.4, before.rest.skip(done.consumed as int)).consumed,
            );
        }
        match self.4.apply_changes(buffer) {
            Ok(_) => {},
            Err(error) => {
                return Err(error);
            },
        }
        proof {
            let done = <(A, B, C, D, E) as Replicable>::parse((prior.0, prior.1, prior.2, prior.3, prior.4), before.rest);
            <(A, B, C, D, E) as Replicable>::parse_is_within((prior.0, prior.1, prior.2, prior.3, prior.4), before.rest);
            before.lemma_advanced_twice(
                done.consumed,
                F::parse(prior.5, before.rest.skip(done.consumed as int)).consumed,
            );
        }
        match self.5.apply_changes(buffer) {
            Ok(_) => {},
            Err(error) => {
                return Err(error);
            },
        }
        proof {
            let done = <(A, B, C, D, E, F) as Replicable>::parse((prior.0, prior.1, prior.2, prior.3, prior.4, prior.5), before.rest);
            <(A, B, C, D, E, F) as Replicable>::parse_is_within((prior.0, prior.1, prior.2, prior.3, prior.4, prior.5), before.rest);
            before.lemma_advanced_twice(
                done.consumed,
                G::parse(prior.6, before.rest.skip(done.consumed as int)).consumed,
            );
        }
        match self.6.apply_changes(buffer) {
            Ok(_) => {},
            Err(error) => {
                return Err(error);
            },
        }
        proof {
            let done = <(A, B, C, D, E, F, G) as Replicable>::parse((prior.0, prior.1, prior.2, prior.3, prior.4, prior.5, prior.6), before.rest);
            <(A, B, C, D, E, F, G) as Replicable>::parse_is_within((prior.0, prior.1, prior.2, prior.3, prior.4, prior.5, prior.6), before.rest);
            before.lemma_advanced_twice(
                done.consumed,
                H::parse(prior.7, before.rest.skip(done.consumed as int)).consumed,
            );
        }
        match self.7.apply_changes(buffer) {
            Ok(_) => {},
            Err(error) => {
                return Err(error);
            },
        }
        proof {
            let done = <(A, B, C, D, E, F, G, H) as Replicable>::parse((prior.0, prior.1, prior.2, prior.3, prior.4, prior.5, prior.6, prior.7), before.rest);
            <(A, B, C, D, E, F, G, H) as Replicable>::parse_is_within((prior.0, prior.1, prior.2, prior.3, prior.4, prior.5, prior.6, prior.7), before.rest);
            before.lemma_advanced_twice(
                done.consumed,
                I::parse(prior.8, before.rest.skip(done.consumed as int)).consumed,
            );
        }
        match self.8.apply_changes(buffer) {
            Ok(_) => {},
            Err(error) => {
                return Err(error);
            },
        }
        proof {
            let done = <(A, B, C, D, E, F, G, H, I) as Replicable>::parse((prior.0, prior.1, prior.2, prior.3, prior.4, prior.5, prior.6, prior.7, prior.8), before.rest);
            <(A, B, C, D, E, F, G, H, I) as Replicable>::parse_is_within((prior.0, prior.1, prior.2, prior.3, prior.4, prior.5, prior.6, prior.7, prior.8), before.rest);
            before.lemma_advanced_twice(
                done.consumed,
                J::parse(prior.9, before.rest.skip(done.consumed as int)).consumed,
            );
        }
        match self.9.apply_changes(buffer) {
            Ok(_) => {},
            Err(error) => {
                return Err(error);
            },
        }
        proof {
            let done = <(A, B, C, D, E, F, G, H, I, J) as Replicable>::parse((prior.0, prior.1, prior.2, prior.3, prior.4, prior.5, prior.6, prior.7, prior.8, prior.9), before.rest);
            <(A, B, C, D, E, F, G, H, I, J) as Replicable>::parse_is_within((prior.0, prior.1, prior.2, prior.3, prior.4, prior.5, prior.6, prior.7, prior.8, prior.9), before.rest);
            before.lemma_advanced_twice(
                done.consumed,
                K::parse(prior.10, before.rest.skip(done.consumed as int)).consumed,
            );
        }
        match self.10.apply_changes(buffer) {
            Ok(_) => {},
            Err(error) => {
                return Err(error);
            },
        }
        proof {
            let done = <(A, B, C, D, E, F, G, H, I, J, K) as Replicable>::parse((prior.0, prior.1, prior.2, prior.3, prior.4, prior.5, prior.6, prior.7, prior.8, prior.9, prior.10), before.rest);
            <(A, B, C, D, E, F, G, H, I, J, K) as Replicable>::parse_is_within((prior.0, prior.1, prior.2, prior.3, prior.4, prior.5, prior.6, prior.7, prior.8, prior.9, prior.10), before.rest);
            before.lemma_advanced_twice(
                done.consumed,
                L::parse(prior.11, before.rest.skip(done.consumed as int)).consumed,
            );
        }
        self.11.apply_changes(buffer)
    }
}

impl<A: LosslessReplicable, B: LosslessReplicable, C: LosslessReplicable, D: LosslessReplicable, E: LosslessReplicable, F: LosslessReplicable, G: LosslessReplicable, H: LosslessReplicable, I: LosslessReplicable, J: LosslessReplicable, K: LosslessReplicable, L: LosslessReplicable> LosslessReplicable for (A, B, C, D, E, F, G, H, I, J, K, L) {
    open spec fn fits(self) -> bool {
        self.0.fits() && self.1.fits() && self.2.fits() && self.3.fits() && self.4.fits() && self.5.fits() && self.6.fits() && self.7.fits() && self.8.fits() && self.9.fits() && self.10.fits() && self.11.fits()
    }

    proof fn law_round_trip(self, prior: (A::Model, B::Model, C::Model, D::Model, E::Model, F::Model, G::Model, H::Model, I::Model, J::Model, K::Model, L::Model), tail: Seq<u8>) {
        let first = (self.0, self.1, self.2, self.3, self.4, self.5, self.6, self.7, self.8, self.9, self.10).emit().bytes;
        let last = self.11.emit().bytes;
        (self.0, self.1, self.2, self.3, self.4, self.5, self.6, self.7, self.8, self.9, self.10).law_round_trip((prior.0, prior.1, prior.2, prior.3, prior.4, prior.5, prior.6, prior.7, prior.8, prior.9, prior.10), last + tail);
        self.11.law_round_trip(prior.11, tail);
        assert((first + last) + tail =~= first + (last + tail));
        assert((first + (last + tail)).skip(first.len() as int) =~= last + tail);
    }
}

impl<A: Replicable, B: Replicable, C: Replicable, D: Replicable, E: Replicable, F: Replicable, G: Replicable, H: Replicable, I: Replicable, J: Replicable, K: Replicable, L: Replicable, M: Replicable> Replicable for (A, B, C, D, E, F, G, H, I, J, K, L, M) {
    type Model = (A::Model, B::Model, C::Model, D::Model, E::Model, F::Model, G::Model, H::Model, I::Model, J::Model, K::Model, L::Model, M::Model);

    open spec fn model(self) -> (A::Model, B::Model, C::Model, D::Model, E::Model, F::Model, G::Model, H::Model, I::Model, J::Model, K::Model, L::Model, M::Model) {
        (self.0.model(), self.1.model(), self.2.model(), self.3.model(), self.4.model(), self.5.model(), self.6.model(), self.7.model(), self.8.model(), self.9.model(), self.10.model(), self.11.model(), self.12.model())
    }

    open spec fn emit(self) -> Emitted {
        (self.0, self.1, self.2, self.3, self.4, self.5, self.6, self.7, self.8, self.9, self.10, self.11).emit().followed_by(self.12.emit())
    }

    open spec fn parse(prior: (A::Model, B::Model, C::Model, D::Model, E::Model, F::Model, G::Model, H::Model, I::Model, J::Model, K::Model, L::Model, M::Model), bytes: Seq<u8>) -> Applied<(A::Model, B::Model, C::Model, D::Model, E::Model, F::Model, G::Model, H::Model, I::Model, J::Model, K::Model, L::Model, M::Model)> {
        let before = <(A, B, C, D, E, F, G, H, I, J, K, L) as Replicable>::parse((prior.0, prior.1, prior.2, prior.3, prior.4, prior.5, prior.6, prior.7, prior.8, prior.9, prior.10, prior.11), bytes);
        if before.error is Some {
            Applied {
                model: (before.model.0, before.model.1, before.model.2, before.model.3, before.model.4, before.model.5, before.model.6, before.model.7, before.model.8, before.model.9, before.model.10, before.model.11, prior.12),
                error: before.error,
                consumed: before.consumed,
            }
        } else {
            let last = M::parse(prior.12, bytes.skip(before.consumed as int));
            Applied {
                model: (before.model.0, before.model.1, before.model.2, before.model.3, before.model.4, before.model.5, before.model.6, before.model.7, before.model.8, before.model.9, before.model.10, before.model.11, last.model),
                error: last.error,
                consumed: before.consumed + last.consumed,
            }
        }
    }

    proof fn parse_is_within(prior: (A::Model, B::Model, C::Model, D::Model, E::Model, F::Model, G::Model, H::Model, I::Model, J::Model, K::Model, L::Model, M::Model), bytes: Seq<u8>) {
        let before = <(A, B, C, D, E, F, G, H, I, J, K, L) as Replicable>::parse((prior.0, prior.1, prior.2, prior.3, prior.4, prior.5, prior.6, prior.7, prior.8, prior.9, prior.10, prior.11), bytes);
        <(A, B, C, D, E, F, G, H, I, J, K, L) as Replicable>::parse_is_within((prior.0, prior.1, prior.2, prior.3, prior.4, prior.5, prior.6, prior.7, prior.8, prior.9, prior.10, prior.11), bytes);
        M::parse_is_within(prior.12, bytes.skip(before.consumed as int));
    }

    fn collect_changes(&self, buffer: &mut Buffer) -> (result: Result<(), Error>) {
        let ghost before = buffer@;
        match self.0.collect_changes(buffer) {
            Ok(_) => {},
            Err(error) => {
                return Err(error);
            },
        }
        proof {
            before.lemma_written_twice((self.0,).emit().bytes, self.1.emit().bytes);
        }
        match self.1.collect_changes(buffer) {
            Ok(_) => {},
            Err(error) => {
                return Err(error);
            },
        }
        proof {
            before.lemma_written_twice((self.0, self.1).emit().bytes, self.2.emit().bytes);
        }
        match self.2.collect_changes(buffer) {
            Ok(_) => {},
            Err(error) => {
                return Err(error);
            },
        }
        proof {
            before.lemma_written_twice((self.0, self.1, self.2).emit().bytes, self.3.emit().bytes);
        }
        match self.3.collect_changes(buffer) {
            Ok(_) => {},
            Err(error) => {
                return Err(error);
            },
        }
        proof {
            before.lemma_written_twice((self.0, self.1, self.2, self.3).emit().bytes, self.4.emit().bytes);
        }
        match self.4.collect_changes(buffer) {
            Ok(_) => {},
            Err(error) => {
                return Err(error);
            },
        }
        proof {
            before.lemma_written_twice((self.0, self.1, self.2, self.3, self.4).emit().bytes, self.5.emit().bytes);
        }
        match self.5.collect_changes(buffer) {
            Ok(_) => {},
            Err(error) => {
                return Err(error);
            },
        }
        proof {
            before.lemma_written_twice((self.0, self.1, self.2, self.3, self.4, self.5).emit().bytes, self.6.emit().bytes);
        }
        match self.6.collect_changes(buffer) {
            Ok(_) => {},
            Err(error) => {
                return Err(error);
            },
        }
        proof {
            before.lemma_written_twice((self.0, self.1, self.2, self.3, self.4, self.5, self.6).emit().bytes, self.7.emit().bytes);
        }
        match self.7.collect_changes(buffer) {
            Ok(_) => {},
            Err(error) => {
                return Err(error);
            },
        }
        proof {
            before.lemma_written_twice((self.0, self.1, self.2, self.3, self.4, self.5, self.6, self.7).emit().bytes, self.8.emit().bytes);
        }
        match self.8.collect_changes(buffer) {
            Ok(_) => {},
            Err(error) => {
                return Err(error);
            },
        }
        proof {
            before.lemma_written_twice((self.0, self.1, self.2, self.3, self.4, self.5, self.6, self.7, self.8).emit().bytes, self.9.emit().bytes);
        }
        match self.9.collect_changes(buffer) {
            Ok(_) => {},
            Err(error) => {
                return Err(error);
            },
        }
        proof {
            before.lemma_written_twice((self.0, self.1, self.2, self.3, self.4, self.5, self.6, self.7, self.8, self.9).emit().bytes, self.10.emit().bytes);
        }
        match self.10.collect_changes(buffer) {
            Ok(_) => {},
            Err(error) => {
                return Err(error);
            },
        }
        proof {
            before.lemma_written_twice((self.0, self.1, self.2, self.3, self.4, self.5, self.6, self.7, self.8, self.9, self.10).emit().bytes, self.11.emit().bytes);
        }
        match self.11.collect_changes(buffer) {
            Ok(_) => {},
            Err(error) => {
                return Err(error);
            },
        }
        proof {
            before.lemma_written_twice((self.0, self.1, self.2, self.3, self.4, self.5, self.6, self.7, self.8, self.9, self.10, self.11).emit().bytes, self.12.emit().bytes);
        }
        self.12.collect_changes(buffer)
    }

    fn apply_changes(&mut self, buffer: &mut Buffer) -> (result: Result<(), Error>) {
        let ghost before = buffer@;
        let ghost prior = self.model();
        match self.0.apply_changes(buffer) {
            Ok(_) => {},
            Err(error) => {
                return Err(error);
            },
        }
        proof {
            let done = <(A,) as Replicable>::parse((prior.0,), before.rest);
            <(A,) as Replicable>::parse_is_within((prior.0,), before.rest);
            before.lemma_advanced_twice(
                done.consumed,
                B::parse(prior.1, before.rest.skip(done.consumed as int)).consumed,
            );
        }
        match self.1.apply_changes(buffer) {
            Ok(_) => {},
            Err(error) => {
                return Err(error);
            },
        }
        proof {
            let done = <(A, B) as Replicable>::parse((prior.0, prior.1), before.rest);
            <(A, B) as Replicable>::parse_is_within((prior.0, prior.1), before.rest);
            before.lemma_advanced_twice(
                done.consumed,
                C::parse(prior.2, before.rest.skip(done.consumed as int)).consumed,
            );
        }
        match self.2.apply_changes(buffer) {
            Ok(_) => {},
            Err(error) => {
                return Err(error);
            },
        }
        proof {
            let done = <(A, B, C) as Replicable>::parse((prior.0, prior.1, prior.2), before.rest);
            <(A, B, C) as Replicable>::parse_is_within((prior.0, prior.1, prior.2), before.rest);
            before.lemma_advanced_twice(
                done.consumed,
                D::parse(prior.3, before.rest.skip(done.consumed as int)).consumed,
            );
        }
        match self.3.apply_changes(buffer) {
            Ok(_) => {},
            Err(error) => {
                return Err(error);
            },
        }
        proof {
            let done = <(A, B, C, D) as Replicable>::parse((prior.0, prior.1, prior.2, prior.3), before.rest);
            <(A, B, C, D) as Replicable>::parse_is_within((prior.0, prior.1, prior.2, prior.3), before.rest);
            before.lemma_advanced_twice(
                done.consumed,
                E::parse(prior.4, before.rest.skip(done.consumed as int)).consumed,
            );
        }
        match self.4.apply_changes(buffer) {
            Ok(_) => {},
            Err(error) => {
                return Err(error);
            },
        }
        proof {
            let done = <(A, B, C, D, E) as Replicable>::parse((prior.0, prior.1, prior.2, prior.3, prior.4), before.rest);
            <(A, B, C, D, E) as Replicable>::parse_is_within((prior.0, prior.1, prior.2, prior.3, prior.4), before.rest);
            before.lemma_advanced_twice(
                done.consumed,
                F::parse(prior.5, before.rest.skip(done.consumed as int)).consumed,
            );
        }
        match self.5.apply_changes(buffer) {
            Ok(_) => {},
            Err(error) => {
                return Err(error);
            },
        }
        proof {
            let done = <(A, B, C, D, E, F) as Replicable>::parse((prior.0, prior.1, prior.2, prior.3, prior.4, prior.5), before.rest);
            <(A, B, C, D, E, F) as Replicable>::parse_is_within((prior.0, prior.1, prior.2, prior.3, prior.4, prior.5), before.rest);
            before.lemma_advanced_twice(
                done.consumed,
                G::parse(prior.6, before.rest.skip(done.consumed as int)).consumed,
            );
        }
        match self.6.apply_changes(buffer) {
            Ok(_) => {},
            Err(error) => {
                return Err(error);
            },
        }
        proof {
            let done = <(A, B, C, D, E, F, G) as Replicable>::parse((prior.0, prior.1, prior.2, prior.3, prior.4, prior.5, prior.6), before.rest);
            <(A, B, C, D, E, F, G) as Replicable>::parse_is_within((prior.0, prior.1, prior.2, prior.3, prior.4, prior.5, prior.6), before.rest);
            before.lemma_advanced_twice(
                done.consumed,
                H::parse(prior.7, before.rest.skip(done.consumed as int)).consumed,
            );
        }
        match self.7.apply_changes(buffer) {
            Ok(_) => {},
            Err(error) => {
                return Err(error);
            },
        }
        proof {
            let done = <(A, B, C, D, E, F, G, H) as Replicable>::parse((prior.0, prior.1, prior.2, prior.3, prior.4, prior.5, prior.6, prior.7), before.rest);
            <(A, B, C, D, E, F, G, H) as Replicable>::parse_is_within((prior.0, prior.1, prior.2, prior.3, prior.4, prior.5, prior.6, prior.7), before.rest);
            before.lemma_advanced_twice(
                done.consumed,
                I::parse(prior.8, before.rest.skip(done.consumed as int)).consumed,
            );
        }
        match self.8.apply_changes(buffer) {
            Ok(_) => {},
            Err(error) => {
                return Err(error);
            },
        }
        proof {
            let done = <(A, B, C, D, E, F, G, H, I) as Replicable>::parse((prior.0, prior.1, prior.2, prior.3, prior.4, prior.5, prior.6, prior.7, prior.8), before.rest);
            <(A, B, C, D, E, F, G, H, I) as Replicable>::parse_is_within((prior.0, prior.1, prior.2, prior.3, prior.4, prior.5, prior.6, prior.7, prior.8), before.rest);
            before.lemma_advanced_twice(
                done.consumed,
                J::parse(prior.9, before.rest.skip(done.consumed as int)).consumed,
            );
        }
        match self.9.apply_changes(buffer) {
            Ok(_) => {},
            Err(error) => {
                return Err(error);
            },
        }
        proof {
            let done = <(A, B, C, D, E, F, G, H, I, J) as Replicable>::parse((prior.0, prior.1, prior.2, prior.3, prior.4, prior.5, prior.6, prior.7, prior.8, prior.9), before.rest);
            <(A, B, C, D, E, F, G, H, I, J) as Replicable>::parse_is_within((prior.0, prior.1, prior.2, prior.3, prior.4, prior.5, prior.6, prior.7, prior.8, prior.9), before.rest);
            before.lemma_advanced_twice(
                done.consumed,
                K::parse(prior.10, before.rest.skip(done.consumed as int)).consumed,
            );
        }
        match self.10.apply_changes(buffer) {
            Ok(_) => {},
            Err(error) => {
                return Err(error);
            },
        }
        proof {
            let done = <(A, B, C, D, E, F, G, H, I, J, K) as Replicable>::parse((prior.0, prior.1, prior.2, prior.3, prior.4, prior.5, prior.6, prior.7, prior.8, prior.9, prior.10), before.rest);
            <(A, B, C, D, E, F, G, H, I, J, K) as Replicable>::parse_is_within((prior.0, prior.1, prior.2, prior.3, prior.4, prior.5, prior.6, prior.7, prior.8, prior.9, prior.10), before.rest);
            before.lemma_advanced_twice(
                done.consumed,
                L::parse(prior.11, before.rest.skip(done.consumed as int)).consumed,
            );
        }
        match self.11.apply_changes(buffer) {
            Ok(_) => {},
            Err(error) => {
                return Err(error);
            },
        }
        proof {
            let done = <(A, B, C, D, E, F, G, H, I, J, K, L) as Replicable>::parse((prior.0, prior.1, prior.2, prior.3, prior.4, prior.5, prior.6, prior.7, prior.8, prior.9, prior.10, prior.11), before.rest);
            <(A, B, C, D, E, F, G, H, I, J, K, L) as Replicable>::parse_is_within((prior.0, prior.1, prior.2, prior.3, prior.4, prior.5, prior.6, prior.7, prior.8, prior.9, prior.10, prior.11), before.rest);
            before.lemma_advanced_twice(
                done.consumed,
                M::parse(prior.12, before.rest.skip(done.consumed as int)).consumed,
            );
        }
        self.12.apply_changes(buffer)
    }
}

impl<A: LosslessReplicable, B: LosslessReplicable, C: LosslessReplicable, D: LosslessReplicable, E: LosslessReplicable, F: LosslessReplicable, G: LosslessReplicable, H: LosslessReplicable, I: LosslessReplicable, J: LosslessReplicable, K: LosslessReplicable, L: LosslessReplicable, M: LosslessReplicable> LosslessReplicable for (A, B, C, D, E, F, G, H, I, J, K, L, M) {
    open spec fn fits(self) -> bool {
        self.0.fits() && self.1.fits() && self.2.fits() && self.3.fits() && self.4.fits() && self.5.fits() && self.6.fits() && self.7.fits() && self.8.fits() && self.9.fits() && self.10.fits() && self.11.fits() && self.12.fits()
    }

    proof fn law_round_trip(self, prior: (A::Model, B::Model, C::Model, D::Model, E::Model, F::Model, G::Model, H::Model, I::Model, J::Model, K::Model, L::Model, M::Model), tail: Seq<u8>) {
        let first = (self.0, self.1, self.2, self.3, self.4, self.5, self.6, self.7, self.8, self.9, self.10, self.11).emit().bytes;
        let last = self.12.emit().bytes;
        (self.0, self.1, self.2, self.3, self.4, self.5, self.6, self.7, self.8, self.9, self.10, self.11).law_round_trip((prior.0, prior.1, prior.2, prior.3, prior.4, prior.5, prior.6, prior.7, prior.8, prior.9, prior.10, prior.11), last + tail);
        self.12.law_round_trip(prior.12, tail);
        assert((first + last) + tail =~= first + (last + tail));
        assert((first + (last + tail)).skip(first.len() as int) =~= last + tail);
    }
}

impl<A: Replicable, B: Replicable, C: Replicable, D: Replicable, E: Replicable, F: Replicable, G: Replicable, H: Replicable, I: Replicable, J: Replicable, K: Replicable, L: Replicable, M: Replicable, N: Replicable> Replicable for (A, B, C, D, E, F, G, H, I, J, K, L, M, N) {
    type Model = (A::Model, B::Model, C::Model, D::Model, E::Model, F::Model, G::Model, H::Model, I::Model, J::Model, K::Model, L::Model, M::Model, N::Model);

    open spec fn model(self) -> (A::Model, B::Model, C::Model, D::Model, E::Model, F::Model, G::Model, H::Model, I::Model, J::Model, K::Model, L::Model, M::Model, N::Model) {
        (self.0.model(), self.1.model(), self.2.model(), self.3.model(), self.4.model(), self.5.model(), self.6.model(), self.7.model(), self.8.model(), self.9.model(), self.10.model(), self.11.model(), self.12.model(), self.13.model())
    }

    open spec fn emit(self) -> Emitted {
        (self.0, self.1, self.2, self.3, self.4, self.5, self.6, self.7, self.8, self.9, self.10, self.11, self.12).emit().followed_by(self.13.emit())
    }

    open spec fn parse(prior: (A::Model, B::Model, C::Model, D::Model, E::Model, F::Model, G::Model, H::Model, I::Model, J::Model, K::Model, L::Model, M::Model, N::Model), bytes: Seq<u8>) -> Applied<(A::Model, B::Model, C::Model, D::Model, E::Model, F::Model, G::Model, H::Model, I::Model, J::Model, K::Model, L::Model, M::Model, N::Model)> {
        let before = <(A, B, C, D, E, F, G, H, I, J, K, L, M) as Replicable>::parse((prior.0, prior.1, prior.2, prior.3, prior.4, prior.5, prior.6, prior.7, prior.8, prior.9, prior.10, prior.11, prior.12), bytes);
        if before.error is Some {
            Applied {
                model: (before.model.0, before.model.1, before.model.2, before.model.3, before.model.4, before.model.5, before.model.6, before.model.7, before.model.8, before.model.9, before.model.10, before.model.11, before.model.12, prior.13),
                error: before.error,
                consumed: before.consumed,
            }
        } else {
            let last = N::parse(prior.13, bytes.skip(before.consumed as int));
            Applied {
                model: (before.model.0, before.model.1, before.model.2, before.model.3, before.model.4, before.model.5, before.model.6, before.model.7, before.model.8, before.model.9, before.model.10, before.model.11, before.model.12, last.model),
                error: last.error,
                consumed: before.consumed + last.consumed,
            }
        }
    }

    proof fn parse_is_within(prior: (A::Model, B::Model, C::Model, D::Model, E::Model, F::Model, G::Model, H::Model, I::Model, J::Model, K::Model, L::Model, M::Model, N::Model), bytes: Seq<u8>) {
        let before = <(A, B, C, D, E, F, G, H, I, J, K, L, M) as Replicable>::parse((prior.0, prior.1, prior.2, prior.3, prior.4, prior.5, prior.6, prior.7, prior.8, prior.9, prior.10, prior.11, prior.12), bytes);
        <(A, B, C, D, E, F, G, H, I, J, K, L, M) as Replicable>::parse_is_within((prior.0, prior.1, prior.2, prior.3, prior.4, prior.5, prior.6, prior.7, prior.8, prior.9, prior.10, prior.11, prior.12), bytes);
        N::parse_is_within(prior.13, bytes.skip(before.consumed as int));
    }

    fn collect_changes(&self, buffer: &mut Buffer) -> (result: Result<(), Error>) {
        let ghost before = buffer@;
        match self.0.collect_changes(buffer) {
            Ok(_) => {},
            Err(error) => {
                return Err(error);
            },
        }
        proof {
            before.lemma_written_twice((self.0,).emit().bytes, self.1.emit().bytes);
        }
        match self.1.collect_changes(buffer) {
            Ok(_) => {},
            Err(error) => {
                return Err(error);
            },
        }
        proof {
            before.lemma_written_twice((self.0, self.1).emit().bytes, self.2.emit().bytes);
        }
        match self.2.collect_changes(buffer) {
            Ok(_) => {},
            Err(error) => {
                return Err(error);
            },
        }
        proof {
            before.lemma_written_twice((self.0, self.1, self.2).emit().bytes, self.3.emit().bytes);
        }
        match self.3.collect_changes(buffer) {
            Ok(_) => {},
            Err(error) => {
                return Err(error);
            },
        }
        proof {
            before.lemma_written_twice((self.0, self.1, self.2, self.3).emit().bytes, self.4.emit().bytes);
        }
        match self.4.collect_changes(buffer) {
            Ok(_) => {},
            Err(error) => {
                return Err(error);
            },
        }
        proof {
            before.lemma_written_twice((self.0, self.1, self.2, self.3, self.4).emit().bytes, self.5.emit().bytes);
        }
        match self.5.collect_changes(buffer) {
            Ok(_) => {},
            Err(error) => {
                return Err(error);
            },
        }
        proof {
            before.lemma_written_twice((self.0, self.1, self.2, self.3, self.4, self.5).emit().bytes, self.6.emit().bytes);
        }
        match self.6.collect_changes(buffer) {
            Ok(_) => {},
            Err(error) => {
                return Err(error);
            },
        }
        proof {
            before.lemma_written_twice((self.0, self.1, self.2, self.3, self.4, self.5, self.6).emit().bytes, self.7.emit().bytes);
        }
        match self.7.collect_changes(buffer) {
            Ok(_) => {},
            Err(error) => {
                return Err(error);
            },
        }
        proof {
            before.lemma_written_twice((self.0, self.1, self.2, self.3, self.4, self.5, self.6, self.7).emit().bytes, self.8.emit().bytes);
        }
        match self.8.collect_changes(buffer) {
            Ok(_) => {},
            Err(error) => {
                return Err(error);
            },
        }
        proof {
            before.lemma_written_twice((self.0, self.1, self.2, self.3, self.4, self.5, self.6, self.7, self.8).emit().bytes, self.9.emit().bytes);
        }
        match self.9.collect_changes(buffer) {
            Ok(_) => {},
            Err(error) => {
                return Err(error);
            },
        }
        proof {
            before.lemma_written_twice((self.0, self.1, self.2, self.3, self.4, self.5, self.6, self.7, self.8, self.9).emit().bytes, self.10.emit().bytes);
        }
        match self.10.collect_changes(buffer) {
            Ok(_) => {},
            Err(error) => {
                return Err(error);
            },
        }
        proof {
            before.lemma_written_twice((self.0, self.1, self.2, self.3, self.4, self.5, self.6, self.7, self.8, self.9, self.10).emit().bytes, self.11.emit().bytes);
        }
        match self.11.collect_changes(buffer) {
            Ok(_) => {},
            Err(error) => {
                return Err(error);
            },
        }
        proof {
            before.lemma_written_twice((self.0, self.1, self.2, self.3, self.4, self.5, self.6, self.7, self.8, self.9, self.10, self.11).emit().bytes, self.12.emit().bytes);
        }
        match self.12.collect_changes(buffer) {
            Ok(_) => {},
            Err(error) => {
                return Err(error);
            },
        }
        proof {
            before.lemma_written_twice((self.0, self.1, self.2, self.3, self.4, self.5, self.6, self.7, self.8, self.9, self.10, self.11, self.12).emit().bytes, self.13.emit().bytes);
        }
        self.13.collect_changes(buffer)
    }

    fn apply_changes(&mut self, buffer: &mut Buffer) -> (result: Result<(), Error>) {
        let ghost before = buffer@;
        let ghost prior = self.model();
        match self.0.apply_changes(buffer) {
            Ok(_) => {},
            Err(error) => {
                return Err(error);
            },
        }
        proof {
            let done = <(A,) as Replicable>::parse((prior.0,), before.rest);
            <(A,) as Replicable>::parse_is_within((prior.0,), before.rest);
            before.lemma_advanced_twice(
                done.consumed,
                B::parse(prior.1, before.rest.skip(done.consumed as int)).consumed,
            );
        }
        match self.1.apply_changes(buffer) {
            Ok(_) => {},
            Err(error) => {
                return Err(error);
            },
        }
        proof {
            let done = <(A, B) as Replicable>::parse((prior.0, prior.1), before.rest);
            <(A, B) as Replicable>::parse_is_within((prior.0, prior.1), before.rest);
            before.lemma_advanced_twice(
                done.consumed,
                C::parse(prior.2, before.rest.skip(done.consumed as int)).consumed,
            );
        }
        match self.2.apply_changes(buffer) {
            Ok(_) => {},
            Err(error) => {
                return Err(error);
            },
        }
        proof {
            let done = <(A, B, C) as Replicable>::parse((prior.0, prior.1, prior.2), before.rest);
            <(A, B, C) as Replicable>::parse_is_within((prior.0, prior.1, prior.2), before.rest);
            before.lemma_advanced_twice(
                done.consumed,
                D::parse(prior.3, before.rest.skip(done.consumed as int)).consumed,
            );
        }
        match self.3.apply_changes(buffer) {
            Ok(_) => {},
            Err(error) => {
                return Err(error);
            },
        }
        proof {
            let done = <(A, B, C, D) as Replicable>::parse((prior.0, prior.1, prior.2, prior.3), before.rest);
            <(A, B, C, D) as Replicable>::parse_is_within((prior.0, prior.1, prior.2, prior.3), before.rest);
            before.lemma_advanced_twice(
                done.consumed,
                E::parse(prior.4, before.rest.skip(done.consumed as int)).consumed,
            );
        }
        match self.4.apply_changes(buffer) {
            Ok(_) => {},
            Err(error) => {
                return Err(error);
            },
        }
        proof {
            let done = <(A, B, C, D, E) as Replicable>::parse((prior.0, prior.1, prior.2, prior.3, prior.4), before.rest);
            <(A, B, C, D, E) as Replicable>::parse_is_within((prior.0, prior.1, prior.2, prior.3, prior.4), before.rest);
            before.lemma_advanced_twice(
                done.consumed,
                F::parse(prior.5, before.rest.skip(done.consumed as int)).consumed,
            );
        }
        match self.5.apply_changes(buffer) {
            Ok(_) => {},
            Err(error) => {
                return Err(error);
            },
        }
        proof {
            let done = <(A, B, C, D, E, F) as Replicable>::parse((prior.0, prior.1, prior.2, prior.3, prior.4, prior.5), before.rest);
            <(A, B, C, D, E, F) as Replicable>::parse_is_within((prior.0, prior.1, prior.2, prior.3, prior.4, prior.5), before.rest);
            before.lemma_advanced_twice(
                done.consumed,
                G::parse(prior.6, before.rest.skip(done.consumed as int)).consumed,
            );
        }
        match self.6.apply_changes(buffer) {
            Ok(_) => {},
            Err(error) => {
                return Err(error);
            },
        }
        proof {
            let done = <(A, B, C, D, E, F, G) as Replicable>::parse((prior.0, prior.1, prior.2, prior.3, prior.4, prior.5, prior.6), before.rest);
            <(A, B, C, D, E, F, G) as Replicable>::parse_is_within((prior.0, prior.1, prior.2, prior.3, prior.4, prior.5, prior.6), before.rest);
            before.lemma_advanced_twice(
                done.consumed,
                H::parse(prior.7, before.rest.skip(done.consumed as int)).consumed,
            );
        }
        match self.7.apply_changes(buffer) {
            Ok(_) => {},
            Err(error) => {
                return Err(error);
            },
        }
        proof {
            let done = <(A, B, C, D, E, F, G, H) as Replicable>::parse((prior.0, prior.1, prior.2, prior.3, prior.4, prior.5, prior.6, prior.7), before.rest);
            <(A, B, C, D, E, F, G, H) as Replicable>::parse_is_within((prior.0, prior.1, prior.2, prior.3, prior.4, prior.5, prior.6, prior.7), before.rest);
            before.lemma_advanced_twice(
                done.consumed,
                I::parse(prior.8, before.rest.skip(done.consumed as int)).consumed,
            );
        }
        match self.8.apply_changes(buffer) {
            Ok(_) => {},
            Err(error) => {
                return Err(error);
            },
        }
        proof {
            let done = <(A, B, C, D, E, F, G, H, I) as Replicable>::parse((prior.0, prior.1, prior.2, prior.3, prior.4, prior.5, prior.6, prior.7, prior.8), before.rest);
            <(A, B, C, D, E, F, G, H, I) as Replicable>::parse_is_within((prior.0, prior.1, prior.2, prior.3, prior.4, prior.5, prior.6, prior.7, prior.8), before.rest);
            before.lemma_advanced_twice(
                done.consumed,
                J::parse(prior.9, before.rest.skip(done.consumed as int)).consumed,
            );
        }
        match self.9.apply_changes(buffer) {
            Ok(_) => {},
            Err(error) => {
                return Err(error);
            },
        }
        proof {
            let done = <(A, B, C, D, E, F, G, H, I, J) as Replicable>::parse((prior.0, prior.1, prior.2, prior.3, prior.4, prior.5, prior.6, prior.7, prior.8, prior.9), before.rest);
            <(A, B, C, D, E, F, G, H, I, J) as Replicable>::parse_is_within((prior.0, prior.1, prior.2, prior.3, prior.4, prior.5, prior.6, prior.7, prior.8, prior.9), before.rest);
            before.lemma_advanced_twice(
                done.consumed,
                K::parse(prior.10, before.rest.skip(done.consumed as int)).consumed,
            );
        }
        match self.10.apply_changes(buffer) {
            Ok(_) => {},
            Err(error) => {
                return Err(error);
            },
        }
        proof {
            let done = <(A, B, C, D, E, F, G, H, I, J, K) as Replicable>::parse((prior.0, prior.1, prior.2, prior.3, prior.4, prior.5, prior.6, prior.7, prior.8, prior.9, prior.10), before.rest);
            <(A, B, C, D, E, F, G, H, I, J, K) as Replicable>::parse_is_within((prior.0, prior.1, prior.2, prior.3, prior.4, prior.5, prior.6, prior.7, prior.8, prior.9, prior.10), before.rest);
            before.lemma_advanced_twice(
                done.consumed,
                L::parse(prior.11, before.rest.skip(done.consumed as int)).consumed,
            );
        }
        match self.11.apply_changes(buffer) {
            Ok(_) => {},
            Err(error) => {
                return Err(error);
            },
        }
        proof {
            let done = <(A, B, C, D, E, F, G, H, I, J, K, L) as Replicable>::parse((prior.0, prior.1, prior.2, prior.3, prior.4, prior.5, prior.6, prior.7, prior.8, prior.9, prior.10, prior.11), before.rest);
            <(A, B, C, D, E, F, G, H, I, J, K, L) as Replicable>::parse_is_within((prior.0, prior.1, prior.2, prior.3, prior.4, prior.5, prior.6, prior.7, prior.8, prior.9, prior.10, prior.11), before.rest);
            before.lemma_advanced_twice(
                done.consumed,
                M::parse(prior.12, before.rest.skip(done.consumed as int)).consumed,
            );
        }
        match self.12.apply_changes(buffer) {
            Ok(_) => {},
            Err(error) => {
                return Err(error);
            },
        }
        proof {
            let done = <(A, B, C, D, E, F, G, H, I, J, K, L, M) as Replicable>::parse((prior.0, prior.1, prior.2, prior.3, prior.4, prior.5, prior.6, prior.7, prior.8, prior.9, prior.10, prior.11, prior.12), before.rest);
            <(A, B, C, D, E, F, G, H, I, J, K, L, M) as Replicable>::parse_is_within((prior.0, prior.1, prior.2, prior.3, prior.4, prior.5, prior.6, prior.7, prior.8, prior.9, prior.10, prior.11, prior.12), before.rest);
            before.lemma_advanced_twice(
                done.consumed,
                N::parse(prior.13, before.rest.skip(done.consumed as int)).consumed,
            );
        }
        self.13.apply_changes(buffer)
    }
}

impl<A: LosslessReplicable, B: LosslessReplicable, C: LosslessReplicable, D: LosslessReplicable, E: LosslessReplicable, F: LosslessReplicable, G: LosslessReplicable, H: LosslessReplicable, I: LosslessReplicable, J: LosslessReplicable, K: LosslessReplicable, L: LosslessReplicable, M: LosslessReplicable, N: LosslessReplicable> LosslessReplicable for (A, B, C, D, E, F, G, H, I, J, K, L, M, N) {
    open spec fn fits(self) -> bool {
        self.0.fits() && self.1.fits() && self.2.fits() && self.3.fits() && self.4.fits() && self.5.fits() && self.6.fits() && self.7.fits() && self.8.fits() && self.9.fits() && self.10.fits() && self.11.fits() && self.12.fits() && self.13.fits()
    }

    proof fn law_round_trip(self, prior: (A::Model, B::Model, C::Model, D::Model, E::Model, F::Model, G::Model, H::Model, I::Model, J::Model, K::Model, L::Model, M::Model, N::Model), tail: Seq<u8>) {
        let first = (self.0, self.1, self.2, self.3, self.4, self.5, self.6, self.7, self.8, self.9, self.10, self.11, self.12).emit().bytes;
        let last = self.13.emit().bytes;
        (self.0, self.1, self.2, self.3, self.4, self.5, self.6, self.7, self.8, self.9, self.10, self.11, self.12).law_round_trip((prior.0, prior.1, prior.2, prior.3, prior.4, prior.5, prior.6, prior.7, prior.8, prior.9, prior.10, prior.11, prior.12), last + tail);
        self.13.law_round_trip(prior.13, tail);
        assert((first + last) + tail =~= first + (last + tail));
        assert((first + (last + tail)).skip(first.len() as int) =~= last + tail);
    }
}

impl<A: Replicable, B: Replicable, C: Replicable, D: Replicable, E: Replicable, F: Replicable, G: Replicable, H: Replicable, I: Replicable, J: Replicable, K: Replicable, L: Replicable, M: Replicable, N: Replicable, O: Replicable> Replicable for (A, B, C, D, E, F, G, H, I, J, K, L, M, N, O) {
    type Model = (A::Model, B::Model, C::Model, D::Model, E::Model, F::Model, G::Model, H::Model, I::Model, J::Model, K::Model, L::Model, M::Model, N::Model, O::Model);

    open spec fn model(self) -> (A::Model, B::Model, C::Model, D::Model, E::Model, F::Model, G::Model, H::Model, I::Model, J::Model, K::Model, L::Model, M::Model, N::Model, O::Model) {
        (self.0.model(), self.1.model(), self.2.model(), self.3.model(), self.4.model(), self.5.model(), self.6.model(), self.7.model(), self.8.model(), self.9.model(), self.10.model(), self.11.model(), self.12.model(), self.13.model(), self.14.model())
    }

    open spec fn emit(self) -> Emitted {
        (self.0, self.1, self.2, self.3, self.4, self.5, self.6, self.7, self.8, self.9, self.10, self.11, self.12, self.13).emit().followed_by(self.14.emit())
    }

    open spec fn parse(prior: (A::Model, B::Model, C::Model, D::Model, E::Model, F::Model, G::Model, H::Model, I::Model, J::Model, K::Model, L::Model, M::Model, N::Model, O::Model), bytes: Seq<u8>) -> Applied<(A::Model, B::Model, C::Model, D::Model, E::Model, F::Model, G::Model, H::Model, I::Model, J::Model, K::Model, L::Model, M::Model, N::Model, O::Model)> {
        let before = <(A, B, C, D, E, F, G, H, I, J, K, L, M, N) as Replicable>::parse((prior.0, prior.1, prior.2, prior.3, prior.4, prior.5, prior.6, prior.7, prior.8, prior.9, prior.10, prior.11, prior.12, prior.13), bytes);
        if before.error is Some {
            Applied {
                model: (before.model.0, before.model.1, before.model.2, before.model.3, before.model.4, before.model.5, before.model.6, before.model.7, before.model.8, before.model.9, before.model.10, before.model.11, before.model.12, before.model.13, prior.14),
                error: before.error,
                consumed: before.consumed,
            }
        } else {
            let last = O::parse(prior.14, bytes.skip(before.consumed as int));
            Applied {
                model: (before.model.0, before.model.1, before.model.2, before.model.3, before.model.4, before.model.5, before.model.6, before.model.7, before.model.8, before.model.9, before.model.10, before.model.11, before.model.12, before.model.13, last.model),
                error: last.error,
                consumed: before.consumed + last.consumed,
            }
        }
    }

    proof fn parse_is_within(prior: (A::Model, B::Model, C::Model, D::Model, E::Model, F::Model, G::Model, H::Model, I::Model, J::Model, K::Model, L::Model, M::Model, N::Model, O::Model), bytes: Seq<u8>) {
        let before = <(A, B, C, D, E, F, G, H, I, J, K, L, M, N) as Replicable>::parse((prior.0, prior.1, prior.2, prior.3, prior.4, prior.5, prior.6, prior.7, prior.8, prior.9, prior.10, prior.11, prior.12, prior.13), bytes);
        <(A, B, C, D, E, F, G, H, I, J, K, L, M, N) as Replicable>::parse_is_within((prior.0, prior.1, prior.2, prior.3, prior.4, prior.5, prior.6, prior.7, prior.8, prior.9, prior.10, prior.11, prior.12, prior.13), bytes);
        O::parse_is_within(prior.14, bytes.skip(before.consumed as int));
    }

    fn collect_changes(&self, buffer: &mut Buffer) -> (result: Result<(), Error>) {
        let ghost before = buffer@;
        match self.0.collect_changes(buffer) {
            Ok(_) => {},
            Err(error) => {
                return Err(error);
            },
        }
        proof {
            before.lemma_written_twice((self.0,).emit().bytes, self.1.emit().bytes);
        }
        match self.1.collect_changes(buffer) {
            Ok(_) => {},
            Err(error) => {
                return Err(error);
            },
        }
        proof {
            before.lemma_written_twice((self.0, self.1).emit().bytes, self.2.emit().bytes);
        }
        match self.2.collect_changes(buffer) {
            Ok(_) => {},
            Err(error) => {
                return Err(error);
            },
        }
        proof {
            before.lemma_written_twice((self.0, self.1, self.2).emit().bytes, self.3.emit().bytes);
        }
        match self.3.collect_changes(buffer) {
            Ok(_) => {},
            Err(error) => {
                return Err(error);
            },
        }
        proof {
            before.lemma_written_twice((self.0, self.1, self.2, self.3).emit().bytes, self.4.emit().bytes);
        }
        match self.4.collect_changes(buffer) {
            Ok(_) => {},
            Err(error) => {
                return Err(error);
            },
        }
        proof {
            before.lemma_written_twice((self.0, self.1, self.2, self.3, self.4).emit().bytes, self.5.emit().bytes);
        }
        match self.5.collect_changes(buffer) {
            Ok(_) => {},
            Err(error) => {
                return Err(error);
            },
        }
        proof {
            before.lemma_written_twice((self.0, self.1, self.2, self.3, self.4, self.5).emit().bytes, self.6.emit().bytes);
        }
        match self.6.collect_changes(buffer) {
            Ok(_) => {},
            Err(error) => {
                return Err(error);
            },
        }
        proof {
            before.lemma_written_twice((self.0, self.1, self.2, self.3, self.4, self.5, self.6).emit().bytes, self.7.emit().bytes);
        }
        match self.7.collect_changes(buffer) {
            Ok(_) => {},
            Err(error) => {
                return Err(error);
            },
        }
        proof {
            before.lemma_written_twice((self.0, self.1, self.2, self.3, self.4, self.5, self.6, self.7).emit().bytes, self.8.emit().bytes);
        }
        match self.8.collect_changes(buffer) {
            Ok(_) => {},
            Err(error) => {
                return Err(error);
            },
        }
        proof {
            before.lemma_written_twice((self.0, self.1, self.2, self.3, self.4, self.5, self.6, self.7, self.8).emit().bytes, self.9.emit().bytes);
        }
        match self.9.collect_changes(buffer) {
            Ok(_) => {},
            Err(error) => {
                return Err(error);
            },
        }
        proof {
            before.lemma_written_twice((self.0, self.1, self.2, self.3, self.4, self.5, self.6, self.7, self.8, self.9).emit().bytes, self.10.emit().bytes);
        }
        match self.10.collect_changes(buffer) {
            Ok(_) => {},
            Err(error) => {
                return Err(error);
            },
        }
        proof {
            before.lemma_written_twice((self.0, self.1, self.2, self.3, self.4, self.5, self.6, self.7, self.8, self.9, self.10).emit().bytes, self.11.emit().bytes);
        }
        match self.11.collect_changes(buffer) {
            Ok(_) => {},
            Err(error) => {
                return Err(error);
            },
        }
        proof {
            before.lemma_written_twice((self.0, self.1, self.2, self.3, self.4, self.5, self.6, self.7, self.8, self.9, self.10, self.11).emit().bytes, self.12.emit().bytes);
        }
        match self.12.collect_changes(buffer) {
            Ok(_) => {},
            Err(error) => {
                return Err(error);
            },
        }
        proof {
            before.lemma_written_twice((self.0, self.1, self.2, self.3, self.4, self.5, self.6, self.7, self.8, self.9, self.10, self.11, self.12).emit().bytes, self.13.emit().bytes);
        }
        match self.13.collect_changes(buffer) {
            Ok(_) => {},
            Err(error) => {
                return Err(error);
            },
        }
        proof {
            before.lemma_written_twice((self.0, self.1, self.2, self.3, self.4, self.5, self.6, self.7, self.8, self.9, self.10, self.11, self.12, self.13).emit().bytes, self.14.emit().bytes);
        }
        self.14.collect_changes(buffer)
    }

    fn apply_changes(&mut self, buffer: &mut Buffer) -> (result: Result<(), Error>) {
        let ghost before = buffer@;
        let ghost prior = self.model();
        match self.0.apply_changes(buffer) {
            Ok(_) => {},
            Err(error) => {
                return Err(error);
            },
        }
        proof {
            let done = <(A,) as Replicable>::parse((prior.0,), before.rest);
            <(A,) as Replicable>::parse_is_within((prior.0,), before.rest);
            before.lemma_advanced_twice(
                done.consumed,
                B::parse(prior.1, before.rest.skip(done.consumed as int)).consumed,
            );
        }
        match self.1.apply_changes(buffer) {
            Ok(_) => {},
            Err(error) => {
                return Err(error);
            },
        }
        proof {
            let done = <(A, B) as Replicable>::parse((prior.0, prior.1), before.rest);
            <(A, B) as Replicable>::parse_is_within((prior.0, prior.1), before.rest);
            before.lemma_advanced_twice(
                done.consumed,
                C::parse(prior.2, before.rest.skip(done.consumed as int)).consumed,
            );
        }
        match self.2.apply_changes(buffer) {
            Ok(_) => {},
            Err(error) => {
                return Err(error);
            },
        }
        proof {
            let done = <(A, B, C) as Replicable>::parse((prior.0, prior.1, prior.2), before.rest);
            <(A, B, C) as Replicable>::parse_is_within((prior.0, prior.1, prior.2), before.rest);
            before.lemma_advanced_twice(
                done.consumed,
                D::parse(prior.3, before.rest.skip(done.consumed as int)).consumed,
            );
        }
        match self.3.apply_changes(buffer) {
            Ok(_) => {},
            Err(error) => {
                return Err(error);
            },
        }
        proof {
            let done = <(A, B, C, D) as Replicable>::parse((prior.0, prior.1, prior.2, prior.3), before.rest);
            <(A, B, C, D) as Replicable>::parse_is_within((prior.0, prior.1, prior.2, prior.3), before.rest);
            before.lemma_advanced_twice(
                done.consumed,
                E::parse(prior.4, before.rest.skip(done.consumed as int)).consumed,
            );
        }
        match self.4.apply_changes(buffer) {
            Ok(_) => {},
            Err(error) => {
                return Err(error);
            },
        }
        proof {
            let done = <(A, B, C, D, E) as Replicable>::parse((prior.0, prior.1, prior.2, prior.3, prior.4), before.rest);
            <(A, B, C, D, E) as Replicable>::parse_is_within((prior.0, prior.1, prior.2, prior.3, prior.4), before.rest);
            before.lemma_advanced_twice(
                done.consumed,
                F::parse(prior.5, before.rest.skip(done.consumed as int)).consumed,
            );
        }
        match self.5.apply_changes(buffer) {
            Ok(_) => {},
            Err(error) => {
                return Err(error);
            },
        }
        proof {
            let done = <(A, B, C, D, E, F) as Replicable>::parse((prior.0, prior.1, prior.2, prior.3, prior.4, prior.5), before.rest);
            <(A, B, C, D, E, F) as Replicable>::parse_is_within((prior.0, prior.1, prior.2, prior.3, prior.4, prior.5), before.rest);
            before.lemma_advanced_twice(
                done.consumed,
                G::parse(prior.6, before.rest.skip(done.consumed as int)).consumed,
            );
        }
        match self.6.apply_changes(buffer) {
            Ok(_) => {},
            Err(error) => {
                return Err(error);
            },
        }
        proof {
            let done = <(A, B, C, D, E, F, G) as Replicable>::parse((prior.0, prior.1, prior.2, prior.3, prior.4, prior.5, prior.6), before.rest);
            <(A, B, C, D, E, F, G) as Replicable>::parse_is_within((prior.0, prior.1, prior.2, prior.3, prior.4, prior.5, prior.6), before.rest);
            before.lemma_advanced_twice(
                done.consumed,
                H::parse(prior.7, before.rest.skip(done.consumed as int)).consumed,
            );
        }
        match self.7.apply_changes(buffer) {
            Ok(_) => {},
            Err(error) => {
                return Err(error);
            },
        }
        proof {
            let done = <(A, B, C, D, E, F, G, H) as Replicable>::parse((prior.0, prior.1, prior.2, prior.3, prior.4, prior.5, prior.6, prior.7), before.rest);
            <(A, B, C, D, E, F, G, H) as Replicable>::parse_is_within((prior.0, prior.1, prior.2, prior.3, prior.4, prior.5, prior.6, prior.7), before.rest);
            before.lemma_advanced_twice(
                done.consumed,
                I::parse(prior.8, before.rest.skip(done.consumed as int)).consumed,
            );
        }
        match self.8.apply_changes(buffer) {
            Ok(_) => {},
            Err(error) => {
                return Err(error);
            },
        }
        proof {
            let done = <(A, B, C, D, E, F, G, H, I) as Replicable>::parse((prior.0, prior.1, prior.2, prior.3, prior.4, prior.5, prior.6, prior.7, prior.8), before.rest);
            <(A, B, C, D, E, F, G, H, I) as Replicable>::parse_is_within((prior.0, prior.1, prior.2, prior.3, prior.4, prior.5, prior.6, prior.7, prior.8), before.rest);
            before.lemma_advanced_twice(
                done.consumed,
                J::parse(prior.9, before.rest.skip(done.consumed as int)).consumed,
            );
        }
        match self.9.apply_changes(buffer) {
            Ok(_) => {},
            Err(error) => {
                return Err(error);
            },
        }
        proof {
            let done = <(A, B, C, D, E, F, G, H, I, J) as Replicable>::parse((prior.0, prior.1, prior.2, prior.3, prior.4, prior.5, prior.6, prior.7, prior.8, prior.9), before.rest);
            <(A, B, C, D, E, F, G, H, I, J) as Replicable>::parse_is_within((prior.0, prior.1, prior.2, prior.3, prior.4, prior.5, prior.6, prior.7, prior.8, prior.9), before.rest);
            before.lemma_advanced_twice(
                done.consumed,
                K::parse(prior.10, before.rest.skip(done.consumed as int)).consumed,
            );
        }
        match self.10.apply_changes(buffer) {
            Ok(_) => {},
            Err(error) => {
                return Err(error);
            },
        }
        proof {
            let done = <(A, B, C, D, E, F, G, H, I, J, K) as Replicable>::parse((prior.0, prior.1, prior.2, prior.3, prior.4, prior.5, prior.6, prior.7, prior.8, prior.9, prior.10), before.rest);
            <(A, B, C, D, E, F, G, H, I, J, K) as Replicable>::parse_is_within((prior.0, prior.1, prior.2, prior.3, prior.4, prior.5, prior.6, prior.7, prior.8, prior.9, prior.10), before.rest);
            before.lemma_advanced_twice(
                done.consumed,
                L::parse(prior.11, before.rest.skip(done.consumed as int)).consumed,
            );
        }
        match self.11.apply_changes(buffer) {
            Ok(_) => {},
            Err(error) => {
                return Err(error);
            },
        }
        proof {
            let done = <(A, B, C, D, E, F, G, H, I, J, K, L) as Replicable>::parse((prior.0, prior.1, prior.2, prior.3, prior.4, prior.5, prior.6, prior.7, prior.8, prior.9, prior.10, prior.11), before.rest);
            <(A, B, C, D, E, F, G, H, I, J, K, L) as Replicable>::parse_is_within((prior.0, prior.1, prior.2, prior.3, prior.4, prior.5, prior.6, prior.7, prior.8, prior.9, prior.10, prior.11), before.rest);
            before.lemma_advanced_twice(
                done.consumed,
                M::parse(prior.12, before.rest.skip(done.consumed as int)).consumed,
            );
        }
        match self.12.apply_changes(buffer) {
            Ok(_) => {},
            Err(error) => {
                return Err(error);
            },
        }
        proof {
            let done = <(A, B, C, D, E, F, G, H, I, J, K, L, M) as Replicable>::parse((prior.0, prior.1, prior.2, prior.3, prior.4, prior.5, prior.6, prior.7, prior.8, prior.9, prior.10, prior.11, prior.12), before.rest);
            <(A, B, C, D, E, F, G, H, I, J, K, L, M) as Replicable>::parse_is_within((prior.0, prior.1, prior.2, prior.3, prior.4, prior.5, prior.6, prior.7, prior.8, prior.9, prior.10, prior.11, prior.12), before.rest);
            before.lemma_advanced_twice(
                done.consumed,
                N::parse(prior.13, before.rest.skip(done.consumed as int)).consumed,
            );
        }
        match self.13.apply_changes(buffer) {
            Ok(_) => {},
            Err(error) => {
                return Err(error);
            },
        }
        proof {
            let done = <(A, B, C, D, E, F, G, H, I, J, K, L, M, N) as Replicable>::parse((prior.0, prior.1, prior.2, prior.3, prior.4, prior.5, prior.6, prior.7, prior.8, prior.9, prior.10, prior.11, prior.12, prior.13), before.rest);
            <(A, B, C, D, E, F, G, H, I, J, K, L, M, N) as Replicable>::parse_is_within((prior.0, prior.1, prior.2, prior.3, prior.4, prior.5, prior.6, prior.7, prior.8, prior.9, prior.10, prior.11, prior.12, prior.13), before.rest);
            before.lemma_advanced_twice(
                done.consumed,
                O::parse(prior.14, before.rest.skip(done.consumed as int)).consumed,
            );
        }
        self.14.apply_changes(buffer)
    }
}

impl<A: LosslessReplicable, B: LosslessReplicable, C: LosslessReplicable, D: LosslessReplicable, E: LosslessReplicable, F: LosslessReplicable, G: LosslessReplicable, H: LosslessReplicable, I: LosslessReplicable, J: LosslessReplicable, K: LosslessReplicable, L: LosslessReplicable, M: LosslessReplicable, N: LosslessReplicable, O: LosslessReplicable> LosslessReplicable for (A, B, C, D, E, F, G, H, I, J, K, L, M, N, O) {
    open spec fn fits(self) -> bool {
        self.0.fits() && self.1.fits() && self.2.fits() && self.3.fits() && self.4.fits() && self.5.fits() && self.6.fits() && self.7.fits() && self.8.fits() && self.9.fits() && self.10.fits() && self.11.fits() && self.12.fits() && self.13.fits() && self.14.fits()
    }

    proof fn law_round_trip(self, prior: (A::Model, B::Model, C::Model, D::Model, E::Model, F::Model, G::Model, H::Model, I::Model, J::Model, K::Model, L::Model, M::Model, N::Model, O::Model), tail: Seq<u8>) {
        let first = (self.0, self.1, self.2, self.3, self.4, self.5, self.6, self.7, self.8, self.9, self.10, self.11, self.12, self.13).emit().bytes;
        let last = self.14.emit().bytes;
        (self.0, self.1, self.2, self.3, self.4, self.5, self.6, self.7, self.8, self.9, self.10, self.11, self.12, self.13).law_round_trip((prior.0, prior.1, prior.2, prior.3, prior.4, prior.5, prior.6, prior.7, prior.8, prior.9, prior.10, prior.11, prior.12, prior.13), last + tail);
        self.14.law_round_trip(prior.14, tail);
        assert((first + last) + tail =~= first + (last + tail));
        assert((first + (last + tail)).skip(first.len() as int) =~= last + tail);
    }
}

impl<A: Replicable, B: Replicable, C: Replicable, D: Replicable, E: Replicable, F: Replicable, G: Replicable, H: Replicable, I: Replicable, J: Replicable, K: Replicable, L: Replicable, M: Replicable, N: Replicable, O: Replicable, P: Replicable> Replicable for (A, B, C, D, E, F, G, H, I, J, K, L, M, N, O, P) {
    type Model = (A::Model, B::Model, C::Model, D::Model, E::Model, F::Model, G::Model, H::Model, I::Model, J::Model, K::Model, L::Model, M::Model, N::Model, O::Model, P::Model);

    open spec fn model(self) -> (A::Model, B::Model, C::Model, D::Model, E::Model, F::Model, G::Model, H::Model, I::Model, J::Model, K::Model, L::Model, M::Model, N::Model, O::Model, P::Model) {
        (self.0.model(), self.1.model(), self.2.model(), self.3.model(), self.4.model(), self.5.model(), self.6.model(), self.7.model(), self.8.model(), self.9.model(), self.10.model(), self.11.model(), self.12.model(), self.13.model(), self.14.model(), self.15.model())
    }

    open spec fn emit(self) -> Emitted {
        (self.0, self.1, self.2, self.3, self.4, self.5, self.6, self.7, self.8, self.9, self.10, self.11, self.12, self.13, self.14).emit().followed_by(self.15.emit())
    }

    open spec fn parse(prior: (A::Model, B::Model, C::Model, D::Model, E::Model, F::Model, G::Model, H::Model, I::Model, J::Model, K::Model, L::Model, M::Model, N::Model, O::Model, P::Model), bytes: Seq<u8>) -> Applied<(A::Model, B::Model, C::Model, D::Model, E::Model, F::Model, G::Model, H::Model, I::Model, J::Model, K::Model, L::Model, M::Model, N::Model, O::Model, P::Model)> {
        let before = <(A, B, C, D, E, F, G, H, I, J, K, L, M, N, O) as Replicable>::parse((prior.0, prior.1, prior.2, prior.3, prior.4, prior.5, prior.6, prior.7, prior.8, prior.9, prior.10, prior.11, prior.12, prior.13, prior.14), bytes);
        if before.error is Some {
            Applied {
                model: (before.model.0, before.model.1, before.model.2, before.model.3, before.model.4, before.model.5, before.model.6, before.model.7, before.model.8, before.model.9, before.model.10, before.model.11, before.model.12, before.model.13, before.model.14, prior.15),
                error: before.error,
                consumed: before.consumed,
            }
        } else {
            let last = P::parse(prior.15, bytes.skip(before.consumed as int));
            Applied {
                model: (before.model.0, before.model.1, before.model.2, before.model.3, before.model.4, before.model.5, before.model.6, before.model.7, before.model.8, before.model.9, before.model.10, before.model.11, before.model.12, before.model.13, before.model.14, last.model),
                error: last.error,
                consumed: before.consumed + last.consumed,
            }
        }
    }

    proof fn parse_is_within(prior: (A::Model, B::Model, C::Model, D::Model, E::Model, F::Model, G::Model, H::Model, I::Model, J::Model, K::Model, L::Model, M::Model, N::Model, O::Model, P::Model), bytes: Seq<u8>) {
        let before = <(A, B, C, D, E, F, G, H, I, J, K, L, M, N, O) as Replicable>::parse((prior.0, prior.1, prior.2, prior.3, prior.4, prior.5, prior.6, prior.7, prior.8, prior.9, prior.10, prior.11, prior.12, prior.13, prior.14), bytes);
        <(A, B, C, D, E, F, G, H, I, J, K, L, M, N, O) as Replicable>::parse_is_within((prior.0, prior.1, prior.2, prior.3, prior.4, prior.5, prior.6, prior.7, prior.8, prior.9, prior.10, prior.11, prior.12, prior.13, prior.14), bytes);
        P::parse_is_within(prior.15, bytes.skip(before.consumed as int));
    }

    fn collect_changes(&self, buffer: &mut Buffer) -> (result: Result<(), Error>) {
        let ghost before = buffer@;
        match self.0.collect_changes(buffer) {
            Ok(_) => {},
            Err(error) => {
                return Err(error);
            },
        }
        proof {
            before.lemma_written_twice((self.0,).emit().bytes, self.1.emit().bytes);
        }
        match self.1.collect_changes(buffer) {
            Ok(_) => {},
            Err(error) => {
                return Err(error);
            },
        }
        proof {
            before.lemma_written_twice((self.0, self.1).emit().bytes, self.2.emit().bytes);
        }
        match self.2.collect_changes(buffer) {
            Ok(_) => {},
            Err(error) => {
                return Err(error);
            },
        }
        proof {
            before.lemma_written_twice((self.0, self.1, self.2).emit().bytes, self.3.emit().bytes);
        }
        match self.3.collect_changes(buffer) {
            Ok(_) => {},
            Err(error) => {
                return Err(error);
            },
        }
        proof {
            before.lemma_written_twice((self.0, self.1, self.2, self.3).emit().bytes, self.4.emit().bytes);
        }
        match self.4.collect_changes(buffer) {
            Ok(_) => {},
            Err(error) => {
                return Err(error);
            },
        }
        proof {
            before.lemma_written_twice((self.0, self.1, self.2, self.3, self.4).emit().bytes, self.5.emit().bytes);
        }
        match self.5.collect_changes(buffer) {
            Ok(_) => {},
            Err(error) => {
                return Err(error);
            },
        }
        proof {
            before.lemma_written_twice((self.0, self.1, self.2, self.3, self.4, self.5).emit().bytes, self.6.emit().bytes);
        }
        match self.6.collect_changes(buffer) {
            Ok(_) => {},
            Err(error) => {
                return Err(error);
            },
        }
        proof {
            before.lemma_written_twice((self.0, self.1, self.2, self.3, self.4, self.5, self.6).emit().bytes, self.7.emit().bytes);
        }
        match self.7.collect_changes(buffer) {
            Ok(_) => {},
            Err(error) => {
                return Err(error);
            },
        }
        proof {
            before.lemma_written_twice((self.0, self.1, self.2, self.3, self.4, self.5, self.6, self.7).emit().bytes, self.8.emit().bytes);
        }
        match self.8.collect_changes(buffer) {
            Ok(_) => {},
            Err(error) => {
                return Err(error);
            },
        }
        proof {
            before.lemma_written_twice((self.0, self.1, self.2, self.3, self.4, self.5, self.6, self.7, self.8).emit().bytes, self.9.emit().bytes);
        }
        match self.9.collect_changes(buffer) {
            Ok(_) => {},
            Err(error) => {
                return Err(error);
            },
        }
        proof {
            before.lemma_written_twice((self.0, self.1, self.2, self.3, self.4, self.5, self.6, self.7, self.8, self.9).emit().bytes, self.10.emit().bytes);
        }
        match self.10.collect_changes(buffer) {
            Ok(_) => {},
            Err(error) => {
                return Err(error);
            },
        }
        proof {
            before.lemma_written_twice((self.0, self.1, self.2, self.3, self.4, self.5, self.6, self.7, self.8, self.9, self.10).emit().bytes, self.11.emit().bytes);
        }
        match self.11.collect_changes(buffer) {
            Ok(_) => {},
            Err(error) => {
                return Err(error);
            },
        }
        proof {
            before.lemma_written_twice((self.0, self.1, self.2, self.3, self.4, self.5, self.6, self.7, self.8, self.9, self.10, self.11).emit().bytes, self.12.emit().bytes);
        }
        match self.12.collect_changes(buffer) {
            Ok(_) => {},
            Err(error) => {
                return Err(error);
            },
        }
        proof {
            before.lemma_written_twice((self.0, self.1, self.2, self.3, self.4, self.5, self.6, self.7, self.8, self.9, self.10, self.11, self.12).emit().bytes, self.13.emit().bytes);
        }
        match self.13.collect_changes(buffer) {
            Ok(_) => {},
            Err(error) => {
                return Err(error);
            },
        }
        proof {
            before.lemma_written_twice((self.0, self.1, self.2, self.3, self.4, self.5, self.6, self.7, self.8, self.9, self.10, self.11, self.12, self.13).emit().bytes, self.14.emit().bytes);
        }
        match self.14.collect_changes(buffer) {
            Ok(_) => {},
            Err(error) => {
                return Err(error);
            },
        }
        proof {
            before.lemma_written_twice((self.0, self.1, self.2, self.3, self.4, self.5, self.6, self.7, self.8, self.9, self.10, self.11, self.12, self.13, self.14).emit().bytes, self.15.emit().bytes);
        }
        self.15.collect_changes(buffer)
    }

    fn apply_changes(&mut self, buffer: &mut Buffer) -> (result: Result<(), Error>) {
        let ghost before = buffer@;
        let ghost prior = self.model();
        match self.0.apply_changes(buffer) {
            Ok(_) => {},
            Err(error) => {
                return Err(error);
            },
        }
        proof {
            let done = <(A,) as Replicable>::parse((prior.0,), before.rest);
            <(A,) as Replicable>::parse_is_within((prior.0,), before.rest);
            before.lemma_advanced_twice(
                done.consumed,
                B::parse(prior.1, before.rest.skip(done.consumed as int)).consumed,
            );
        }
        match self.1.apply_changes(buffer) {
            Ok(_) => {},
            Err(error) => {
                return Err(error);
            },
        }
        proof {
            let done = <(A, B) as Replicable>::parse((prior.0, prior.1), before.rest);
            <(A, B) as Replicable>::parse_is_within((prior.0, prior.1), before.rest);
            before.lemma_advanced_twice(
                done.consumed,
                C::parse(prior.2, before.rest.skip(done.consumed as int)).consumed,
            );
        }
        match self.2.apply_changes(buffer) {
            Ok(_) => {},
            Err(error) => {
                return Err(error);
            },
        }
        proof {
            let done = <(A, B, C) as Replicable>::parse((prior.0, prior.1, prior.2), before.rest);
            <(A, B, C) as Replicable>::parse_is_within((prior.0, prior.1, prior.2), before.rest);
            before.lemma_advanced_twice(
                done.consumed,
                D::parse(prior.3, before.rest.skip(done.consumed as int)).consumed,
            );
        }
        match self.3.apply_changes(buffer) {
            Ok(_) => {},
            Err(error) => {
                return Err(error);
            },
        }
        proof {
            let done = <(A, B, C, D) as Replicable>::parse((prior.0, prior.1, prior.2, prior.3), before.rest);
            <(A, B, C, D) as Replicable>::parse_is_within((prior.0, prior.1, prior.2, prior.3), before.rest);
            before.lemma_advanced_twice(
                done.consumed,
                E::parse(prior.4, before.rest.skip(done.consumed as int)).consumed,
            );
        }
        match self.4.apply_changes(buffer) {
            Ok(_) => {},
            Err(error) => {
                return Err(error);
            },
        }
        proof {
            let done = <(A, B, C, D, E) as Replicable>::parse((prior.0, prior.1, prior.2, prior.3, prior.4), before.rest);
            <(A, B, C, D, E) as Replicable>::parse_is_within((prior.0, prior.1, prior.2, prior.3, prior.4), before.rest);
            before.lemma_advanced_twice(
                done.consumed,
                F::parse(prior.5, before.rest.skip(done.consumed as int)).consumed,
            );
        }
        match self.5.apply_changes(buffer) {
            Ok(_) => {},
            Err(error) => {
                return Err(error);
            },
        }
        proof {
            let done = <(A, B, C, D, E, F) as Replicable>::parse((prior.0, prior.1, prior.2, prior.3, prior.4, prior.5), before.rest);
            <(A, B, C, D, E, F) as Replicable>::parse_is_within((prior.0, prior.1, prior.2, prior.3, prior.4, prior.5), before.rest);
            before.lemma_advanced_twice(
                done.consumed,
                G::parse(prior.6, before.rest.skip(done.consumed as int)).consumed,
            );
        }
        match self.6.apply_changes(buffer) {
            Ok(_) => {},
            Err(error) => {
                return Err(error);
            },
        }
        proof {
            let done = <(A, B, C, D, E, F, G) as Replicable>::parse((prior.0, prior.1, prior.2, prior.3, prior.4, prior.5, prior.6), before.rest);
            <(A, B, C, D, E, F, G) as Replicable>::parse_is_within((prior.0, prior.1, prior.2, prior.3, prior.4, prior.5, prior.6), before.rest);
            before.lemma_advanced_twice(
                done.consumed,
                H::parse(prior.7, before.rest.skip(done.consumed as int)).consumed,
            );
        }
        match self.7.apply_changes(buffer) {
            Ok(_) => {},
            Err(error) => {
                return Err(error);
            },
        }
        proof {
            let done = <(A, B, C, D, E, F, G, H) as Replicable>::parse((prior.0, prior.1, prior.2, prior.3, prior.4, prior.5, prior.6, prior.7), before.rest);
            <(A, B, C, D, E, F, G, H) as Replicable>::parse_is_within((prior.0, prior.1, prior.2, prior.3, prior.4, prior.5, prior.6, prior.7), before.rest);
            before.lemma_advanced_twice(
                done.consumed,
                I::parse(prior.8, before.rest.skip(done.consumed as int)).consumed,
            );
        }
        match self.8.apply_changes(buffer) {
            Ok(_) => {},
            Err(error) => {
                return Err(error);
            },
        }
        proof {
            let done = <(A, B, C, D, E, F, G, H, I) as Replicable>::parse((prior.0, prior.1, prior.2, prior.3, prior.4, prior.5, prior.6, prior.7, prior.8), before.rest);
            <(A, B, C, D, E, F, G, H, I) as Replicable>::parse_is_within((prior.0, prior.1, prior.2, prior.3, prior.4, prior.5, prior.6, prior.7, prior.8), before.rest);
            before.lemma_advanced_twice(
                done.consumed,
                J::parse(prior.9, before.rest.skip(done.consumed as int)).consumed,
            );
        }
        match self.9.apply_changes(buffer) {
            Ok(_) => {},
            Err(error) => {
                return Err(error);
            },
        }
        proof {
            let done = <(A, B, C, D, E, F, G, H, I, J) as Replicable>::parse((prior.0, prior.1, prior.2, prior.3, prior.4, prior.5, prior.6, prior.7, prior.8, prior.9), before.rest);
            <(A, B, C, D, E, F, G, H, I, J) as Replicable>::parse_is_within((prior.0, prior.1, prior.2, prior.3, prior.4, prior.5, prior.6, prior.7, prior.8, prior.9), before.rest);
            before.lemma_advanced_twice(
                done.consumed,
                K::parse(prior.10, before.rest.skip(done.consumed as int)).consumed,
            );
        }
        match self.10.apply_changes(buffer) {
            Ok(_) => {},
            Err(error) => {
                return Err(error);
            },
        }
        proof {
            let done = <(A, B, C, D, E, F, G, H, I, J, K) as Replicable>::parse((prior.0, prior.1, prior.2, prior.3, prior.4, prior.5, prior.6, prior.7, prior.8, prior.9, prior.10), before.rest);
            <(A, B, C, D, E, F, G, H, I, J, K) as Replicable>::parse_is_within((prior.0, prior.1, prior.2, prior.3, prior.4, prior.5, prior.6, prior.7, prior.8, prior.9, prior.10), before.rest);
            before.lemma_advanced_twice(
                done.consumed,
                L::parse(prior.11, before.rest.skip(done.consumed as int)).consumed,
            );
        }
        match self.11.apply_changes(buffer) {
            Ok(_) => {},
            Err(error) => {
                return Err(error);
            },
        }
        proof {
            let done = <(A, B, C, D, E, F, G, H, I, J, K, L) as Replicable>::parse((prior.0, prior.1, prior.2, prior.3, prior.4, prior.5, prior.6, prior.7, prior.8, prior.9, prior.10, prior.11), before.rest);
            <(A, B, C, D, E, F, G, H, I, J, K, L) as Replicable>::parse_is_within((prior.0, prior.1, prior.2, prior.3, prior.4, prior.5, prior.6, prior.7, prior.8, prior.9, prior.10, prior.11), before.rest);
            before.lemma_advanced_twice(
                done.consumed,
                M::parse(prior.12, before.rest.skip(done.consumed as int)).consumed,
            );
        }
        match self.12.apply_changes(buffer) {
            Ok(_) => {},
            Err(error) => {
                return Err(error);
            },
        }
        proof {
            let done = <(A, B, C, D, E, F, G, H, I, J, K, L, M) as Replicable>::parse((prior.0, prior.1, prior.2, prior.3, prior.4, prior.5, prior.6, prior.7, prior.8, prior.9, prior.10, prior.11, prior.12), before.rest);
            <(A, B, C, D, E, F, G, H, I, J, K, L, M) as Replicable>::parse_is_within((prior.0, prior.1, prior.2, prior.3, prior.4, prior.5, prior.6, prior.7, prior.8, prior.9, prior.10, prior.11, prior.12), before.rest);
            before.lemma_advanced_twice(
                done.consumed,
                N::parse(prior.13, before.rest.skip(done.consumed as int)).consumed,
            );
        }
        match self.13.apply_changes(buffer) {
            Ok(_) => {},
            Err(error) => {
                return Err(error);
            },
        }
        proof {
            let done = <(A, B, C, D, E, F, G, H, I, J, K, L, M, N) as Replicable>::parse((prior.0, prior.1, prior.2, prior.3, prior.4, prior.5, prior.6, prior.7, prior.8, prior.9, prior.10, prior.11, prior.12, prior.13), before.rest);
            <(A, B, C, D, E, F, G, H, I, J, K, L, M, N) as Replicable>::parse_is_within((prior.0, prior.1, prior.2, prior.3, prior.4, prior.5, prior.6, prior.7, prior.8, prior.9, prior.10, prior.11, prior.12, prior.13), before.rest);
            before.lemma_advanced_twice(
                done.consumed,
                O::parse(prior.14, before.rest.skip(done.consumed as int)).consumed,
            );
        }
        match self.14.apply_changes(buffer) {
            Ok(_) => {},
            Err(error) => {
                return Err(error);
            },
        }
        proof {
            let done = <(A, B, C, D, E, F, G, H, I, J, K, L, M, N, O) as Replicable>::parse((prior.0, prior.1, prior.2, prior.3, prior.4, prior.5, prior.6, prior.7, prior.8, prior.9, prior.10, prior.11, prior.12, prior.13, prior.14), before.rest);
            <(A, B, C, D, E, F, G, H, I, J, K, L, M, N, O) as Replicable>::parse_is_within((prior.0, prior.1, prior.2, prior.3, prior.4, prior.5, prior.6, prior.7, prior.8, prior.9, prior.10, prior.11, prior.12, prior.13, prior.14), before.rest);
            before.lemma_advanced_twice(
                done.consumed,
                P::parse(prior.15, before.rest.skip(done.consumed as int)).consumed,
            );
        }
        self.15.apply_changes(buffer)
    }
}

impl<A: LosslessReplicable, B: LosslessReplicable, C: LosslessReplicable, D: LosslessReplicable, E: LosslessReplicable, F: LosslessReplicable, G: LosslessReplicable, H: LosslessReplicable, I: LosslessReplicable, J: LosslessReplicable, K: LosslessReplicable, L: LosslessReplicable, M: LosslessReplicable, N: LosslessReplicable, O: LosslessReplicable, P: LosslessReplicable> LosslessReplicable for (A, B, C, D, E, F, G, H, I, J, K, L, M, N, O, P) {
    open spec fn fits(self) -> bool {
        self.0.fits() && self.1.fits() && self.2.fits() && self.3.fits() && self.4.fits() && self.5.fits() && self.6.fits() && self.7.fits() && self.8.fits() && self.9.fits() && self.10.fits() && self.11.fits() && self.12.fits() && self.13.fits() && self.14.fits() && self.15.fits()
    }

    proof fn law_round_trip(self, prior: (A::Model, B::Model, C::Model, D::Model, E::Model, F::Model, G::Model, H::Model, I::Model, J::Model, K::Model, L::Model, M::Model, N::Model, O::Model, P::Model), tail: Seq<u8>) {
        let first = (self.0, self.1, self.2, self.3, self.4, self.5, self.6, self.7, self.8, self.9, self.10, self.11, self.12, self.13, self.14).emit().bytes;
        let last = self.15.emit().bytes;
        (self.0, self.1, self.2, self.3, self.4, self.5, self.6, self.7, self.8, self.9, self.10, self.11, self.12, self.13, self.14).law_round_trip((prior.0, prior.1, prior.2, prior.3, prior.4, prior.5, prior.6, prior.7, prior.8, prior.9, prior.10, prior.11, prior.12, prior.13, prior.14), last + tail);
        self.15.law_round_trip(prior.15, tail);
        assert((first + last) + tail =~= first + (last + tail));
        assert((first + (last + tail)).skip(first.len() as int) =~= last + tail);
    }
}

/// Two values side by side are written from the first to the last, with nothing between them.
pub proof fn law_two_side_by_side<A: Replicable, B: Replicable>(a: A, b: B)
    requires
        a.emit().error is None,
        b.emit().error is None,
    ensures
        (a, b).emit().bytes == a.emit().bytes + b.emit().bytes,
        (a, b).emit().error is None,
{
}

/// Three values side by side are written from the first to the last, with nothing between them.
pub proof fn law_three_side_by_side<A: Replicable, B: Replicable, C: Replicable>(a: A, b: B, c: C)
    requires
        a.emit().error is None,
        b.emit().error is None,
        c.emit().error is None,
    ensures
        (a, b, c).emit().bytes == a.emit().bytes + b.emit().bytes + c.emit().bytes,
        (a, b, c).emit().error is None,
{
    law_two_side_by_side(a, b);
}

/// Four values side by side are written from the first to the last, with nothing between them.
pub proof fn law_four_side_by_side<A: Replicable, B: Replicable, C: Replicable, D: Replicable>(a: A, b: B, c: C, d: D)
    requires
        a.emit().error is None,
        b.emit().error is None,
        c.emit().error is None,
        d.emit().error is None,
    ensures
        (a, b, c, d).emit().bytes == a.emit().bytes + b.emit().bytes + c.emit().bytes + d.emit().bytes,
        (a, b, c, d).emit().error is None,
{
    law_three_side_by_side(a, b, c);
}

/// Five values side by side are written from the first to the last, with nothing between them.
pub proof fn law_five_side_by_side<A: Replicable, B: Replicable, C: Replicable, D: Replicable, E: Replicable>(a: A, b: B, c: C, d: D, e: E)
    requires
        a.emit().error is None,
        b.emit().error is None,
        c.emit().error is None,
        d.emit().error is None,
        e.emit().error is None,
    ensures
        (a, b, c, d, e).emit().bytes == a.emit().bytes + b.emit().bytes + c.emit().bytes + d.emit().bytes + e.emit().bytes,
        (a, b, c, d, e).emit().error is None,
{
    law_four_side_by_side(a, b, c, d);
}

/// Six values side by side are written from the first to the last, with nothing between them.
pub proof fn law_six_side_by_side<A: Replicable, B: Replicable, C: Replicable, D: Replicable, E: Replicable, F: Replicable>(a: A, b: B, c: C, d: D, e: E, f: F)
    requires
        a.emit().error is None,
        b.emit().error is None,
        c.emit().error is None,
        d.emit().error is None,
        e.emit().error is None,
        f.emit().error is None,
    ensures
        (a, b, c, d, e, f).emit().bytes == a.emit().bytes + b.emit().bytes + c.emit().bytes + d.emit().bytes + e.emit().bytes + f.emit().bytes,
        (a, b, c, d, e, f).emit().error is None,
{
    law_five_side_by_side(a, b, c, d, e);
}

/// Seven values side by side are written from the first to the last, with nothing between them.
pub proof fn law_seven_side_by_side<A: Replicable, B: Replicable, C: Replicable, D: Replicable, E: Replicable, F: Replicable, G: Replicable>(a: A, b: B, c: C, d: D, e: E, f: F, g: G)
    requires
        a.emit().error is None,
        b.emit().error is None,
        c.emit().error is None,
        d.emit().error is None,
        e.emit().error is None,
        f.emit().error is None,
        g.emit().error is None,
    ensures
        (a, b, c, d, e, f, g).emit().bytes == a.emit().bytes + b.emit().bytes + c.emit().bytes + d.emit().bytes + e.emit().bytes + f.emit().bytes + g.emit().bytes,
        (a, b, c, d, e, f, g).emit().error is None,
{
    law_six_side_by_side(a, b, c, d, e, f);
}

/// Eight values side by side are written from the first to the last, with nothing between them.
pub proof fn law_eight_side_by_side<A: Replicable, B: Replicable, C: Replicable, D: Replicable, E: Replicable, F: Replicable, G: Replicable, H: Replicable>(a: A, b: B, c: C, d: D, e: E, f: F, g: G, h: H)
    requires
        a.emit().error is None,
        b.emit().error is None,
        c.emit().error is None,
        d.emit().error is None,
        e.emit().error is None,
        f.emit().error is None,
        g.emit().error is None,
        h.emit().error is None,
    ensures
        (a, b, c, d, e, f, g, h).emit().bytes == a.emit().bytes + b.emit().bytes + c.emit().bytes + d.emit().bytes + e.emit().bytes + f.emit().bytes + g.emit().bytes + h.emit().bytes,
        (a, b, c, d, e, f, g, h).emit().error is None,
{
    law_seven_side_by_side(a, b, c, d, e, f, g);
}

/// Nine values side by side are written from the first to the last, with nothing between them.
pub proof fn law_nine_side_by_side<A: Replicable, B: Replicable, C: Replicable, D: Replicable, E: Replicable, F: Replicable, G: Replicable, H: Replicable, I: Replicable>(a: A, b: B, c: C, d: D, e: E, f: F, g: G, h: H, i: I)
    requires
        a.emit().error is None,
        b.emit().error is None,
        c.emit().error is None,
        d.emit().error is None,
        e.emit().error is None,
        f.emit().error is None,
        g.emit().error is None,
        h.emit().error is None,
        i.emit().error is None,
    ensures
        (a, b, c, d, e, f, g, h, i).emit().bytes == a.emit().bytes + b.emit().bytes + c.emit().bytes + d.emit().bytes + e.emit().bytes + f.emit().bytes + g.emit().bytes + h.emit().bytes + i.emit().bytes,
        (a, b, c, d, e, f, g, h, i).emit().error is None,
{
    law_eight_side_by_side(a, b, c, d, e, f, g, h);
}

/// Ten values side by side are written from the first to the last, with nothing between them.
pub proof fn law_ten_side_by_side<A: Replicable, B: Replicable, C: Replicable, D: Replicable, E: Replicable, F: Replicable, G: Replicable, H: Replicable, I: Replicable, J: Replicable>(a: A, b: B, c: C, d: D, e: E, f: F, g: G, h: H, i: I, j: J)
    requires
        a.emit().error is None,
        b.emit().error is None,
        c.emit().error is None,
        d.emit().error is None,
        e.emit().error is None,
        f.emit().error is None,
        g.emit().error is None,
        h.emit().error is None,
        i.emit().error is None,
        j.emit().error is None,
    ensures
        (a, b, c, d, e, f, g, h, i, j).emit().bytes == a.emit().bytes + b.emit().bytes + c.emit().bytes + d.emit().bytes + e.emit().bytes + f.emit().bytes + g.emit().bytes + h.emit().bytes + i.emit().bytes + j.emit().bytes,
        (a, b, c, d, e, f, g, h, i, j).emit().error is None,
{
    law_nine_side_by_side(a, b, c, d, e, f, g, h, i);
}

/// Eleven values side by side are written from the first to the last, with nothing between them.
pub proof fn law_eleven_side_by_side<A: Replicable, B: Replicable, C: Replicable, D: Replicable, E: Replicable, F: Replicable, G: Replicable, H: Replicable, I: Replicable, J: Replicable, K: Replicable>(a: A, b: B, c: C, d: D, e: E, f: F, g: G, h: H, i: I, j: J, k: K)
    requires
        a.emit().error is None,
        b.emit().error is None,
        c.emit().error is None,
        d.emit().error is None,
        e.emit().error is None,
        f.emit().error is None,
        g.emit().error is None,
        h.emit().error is None,
        i.emit().error is None,
        j.emit().error is None,
        k.emit().error is None,
    ensures
        (a, b, c, d, e, f, g, h, i, j, k).emit().bytes == a.emit().bytes + b.emit().bytes + c.emit().bytes + d.emit().bytes + e.emit().bytes + f.emit().bytes + g.emit().bytes + h.emit().bytes + i.emit().bytes + j.emit().bytes + k.emit().bytes,
        (a, b, c, d, e, f, g, h, i, j, k).emit().error is None,
{
    law_ten_side_by_side(a, b, c, d, e, f, g, h, i, j);
}

/// Twelve values side by side are written from the first to the last, with nothing between them.
pub proof fn law_twelve_side_by_side<A: Replicable, B: Replicable, C: Replicable, D: Replicable, E: Replicable, F: Replicable, G: Replicable, H: Replicable, I: Replicable, J: Replicable, K: Replicable, L: Replicable>(a: A, b: B, c: C, d: D, e: E, f: F, g: G, h: H, i: I, j: J, k: K, l: L)
    requires
        a.emit().error is None,
        b.emit().error is None,
        c.emit().error is None,
        d.emit().error is None,
        e.emit().error is None,
        f.emit().error is None,
        g.emit().error is None,
        h.emit().error is None,
        i.emit().error is None,
        j.emit().error is None,
        k.emit().error is None,
        l.emit().error is None,
    ensures
        (a, b, c, d, e, f, g, h, i, j, k, l).emit().bytes == a.emit().bytes + b.emit().bytes + c.emit().bytes + d.emit().bytes + e.emit().bytes + f.emit().bytes + g.emit().bytes + h.emit().bytes + i.emit().bytes + j.emit().bytes + k.emit().bytes + l.emit().bytes,
        (a, b, c, d, e, f, g, h, i, j, k, l).emit().error is None,
{
    law_eleven_side_by_side(a, b, c, d, e, f, g, h, i, j, k);
}

/// Thirteen values side by side are written from the first to the last, with nothing between them.
pub proof fn law_thirteen_side_by_side<A: Replicable, B: Replicable, C: Replicable, D: Replicable, E: Replicable, F: Replicable, G: Replicable, H: Replicable, I: Replicable, J: Replicable, K: Replicable, L: Replicable, M: Replicable>(a: A, b: B, c: C, d: D, e: E, f: F, g: G, h: H, i: I, j: J, k: K, l: L, m: M)
    requires
        a.emit().error is None,
        b.emit().error is None,
        c.emit().error is None,
        d.emit().error is None,
        e.emit().error is None,
        f.emit().error is None,
        g.emit().error is None,
        h.emit().error is None,
        i.emit().error is None,
        j.emit().error is None,
        k.emit().error is None,
        l.emit().error is None,
        m.emit().error is None,
    ensures
        (a, b, c, d, e, f, g, h, i, j, k, l, m).emit().bytes == a.emit().bytes + b.emit().bytes + c.emit().bytes + d.emit().bytes + e.emit().bytes + f.emit().bytes + g.emit().bytes + h.emit().bytes + i.emit().bytes + j.emit().bytes + k.emit().bytes + l.emit().bytes + m.emit().bytes,
        (a, b, c, d, e, f, g, h, i, j, k, l, m).emit().error is None,
{
    law_twelve_side_by_side(a, b, c, d, e, f, g, h, i, j, k, l);
}

/// Fourteen values side by side are written from the first to the last, with nothing between them.
pub proof fn law_fourteen_side_by_side<A: Replicable, B: Replicable, C: Replicable, D: Replicable, E: Replicable, F: Replicable, G: Replicable, H: Replicable, I: Replicable, J: Replicable, K: Replicable, L: Replicable, M: Replicable, N: Replicable>(a: A, b: B, c: C, d: D, e: E, f: F, g: G, h: H, i: I, j: J, k: K, l: L, m: M, n: N)
    requires
        a.emit().error is None,
        b.emit().error is None,
        c.emit().error is None,
        d.emit().error is None,
        e.emit().error is None,
        f.emit().error is None,
        g.emit().error is None,
        h.emit().error is None,
        i.emit().error is None,
        j.emit().error is None,
        k.emit().error is None,
        l.emit().error is None,
        m.emit().error is None,
        n.emit().error is None,
    ensures
        (a, b, c, d, e, f, g, h, i, j, k, l, m, n).emit().bytes == a.emit().bytes + b.emit().bytes + c.emit().bytes + d.emit().bytes + e.emit().bytes + f.emit().bytes + g.emit().bytes + h.emit().bytes + i.emit().bytes + j.emit().bytes + k.emit().bytes + l.emit().bytes + m.emit().bytes + n.emit().bytes,
        (a, b, c, d, e, f, g, h, i, j, k, l, m, n).emit().error is None,
{
    law_thirteen_side_by_side(a, b, c, d, e, f, g, h, i, j, k, l, m);
}

/// Fifteen values side by side are written from the first to the last, with nothing between them.
pub proof fn law_fifteen_side_by_side<A: Replicable, B: Replicable, C: Replicable, D: Replicable, E: Replicable, F: Replicable, G: Replicable, H: Replicable, I: Replicable, J: Replicable, K: Replicable, L: Replicable, M: Replicable, N: Replicable, O: Replicable>(a: A, b: B, c: C, d: D, e: E, f: F, g: G, h: H, i: I, j: J, k: K, l: L, m: M, n: N, o: O)
    requires
        a.emit().error is None,
        b.emit().error is None,
        c.emit().error is None,
        d.emit().error is None,
        e.emit().error is None,
        f.emit().error is None,
        g.emit().error is None,
        h.emit().error is None,
        i.emit().error is None,
        j.emit().error is None,
        k.emit().error is None,
        l.emit().error is None,
        m.emit().error is None,
        n.emit().error is None,
        o.emit().error is None,
    ensures
        (a, b, c, d, e, f, g, h, i, j, k, l, m, n, o).emit().bytes == a.emit().bytes + b.emit().bytes + c.emit().bytes + d.emit().bytes + e.emit().bytes + f.emit().bytes + g.emit().bytes + h.emit().bytes + i.emit().bytes + j.emit().bytes + k.emit().bytes + l.emit().bytes + m.emit().bytes + n.emit().bytes + o.emit().bytes,
        (a, b, c, d, e, f, g, h, i, j, k, l, m, n, o).emit().error is None,
{
    law_fourteen_side_by_side(a, b, c, d, e, f, g, h, i, j, k, l, m, n);
}

/// Sixteen values side by side are written from the first to the last, with nothing between them.
pub proof fn law_sixteen_side_by_side<A: Replicable, B: Replicable, C: Replicable, D: Replicable, E: Replicable, F: Replicable, G: Replicable, H: Replicable, I: Replicable, J: Replicable, K: Replicable, L: Replicable, M: Replicable, N: Replicable, O: Replicable, P: Replicable>(a: A, b: B, c: C, d: D, e: E, f: F, g: G, h: H, i: I, j: J, k: K, l: L, m: M, n: N, o: O, p: P)
    requires
        a.emit().error is None,
        b.emit().error is None,
        c.emit().error is None,
        d.emit().error is None,
        e.emit().error is None,
        f.emit().error is None,
        g.emit().error is None,
        h.emit().error is None,
        i.emit().error is None,
        j.emit().error is None,
        k.emit().error is None,
        l.emit().error is None,
        m.emit().error is None,
        n.emit().error is None,
        o.emit().error is None,
        p.emit().error is None,
    ensures
        (a, b, c, d, e, f, g, h, i, j, k, l, m, n, o, p).emit().bytes == a.emit().bytes + b.emit().bytes + c.emit().bytes + d.emit().bytes + e.emit().bytes + f.emit().bytes + g.emit().bytes + h.emit().bytes + i.emit().bytes + j.emit().bytes + k.emit().bytes + l.emit().bytes + m.emit().bytes + n.emit().bytes + o.emit().bytes + p.emit().bytes,
        (a, b, c, d, e, f, g, h, i, j, k, l, m, n, o, p).emit().error is None,
{
    law_fifteen_side_by_side(a, b, c, d, e, f, g, h, i, j, k, l, m, n, o);
}

} // verus!
