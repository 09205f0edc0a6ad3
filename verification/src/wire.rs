//! What writing to and reading from bytes comes to.

use vstd::prelude::*;

use crate::error::Error;

verus! {

/// Bytes as the contracts speak of them.
pub type Bytes = Seq<u8>;

/// Why an operation failed, if it did.
pub open spec fn failure<T>(result: Result<T, Error>) -> Option<Error> {
    match result {
        Ok(_) => None,
        Err(error) => Some(error),
    }
}

/// The bytes that were written, and why writing ended early, if it did.
#[verifier::ext_equal]
pub struct Emitted {
    pub bytes: Seq<u8>,
    pub error: Option<Error>,
}

impl Emitted {
    /// Nothing was written, which always goes through.
    pub open spec fn nothing() -> Emitted {
        Emitted { bytes: Seq::empty(), error: None }
    }

    /// `bytes` were written.
    pub open spec fn of(bytes: Seq<u8>) -> Emitted {
        Emitted { bytes, error: None }
    }

    /// One piece of writing, and another behind it unless the first failed.
    pub open spec fn followed_by(self, next: Emitted) -> Emitted {
        match self.error {
            None => Emitted { bytes: self.bytes + next.bytes, error: next.error },
            Some(_) => self,
        }
    }
}

/// The value that was read, or why there is none, and how many bytes that took.
#[verifier::ext_equal]
pub struct Parsed<M> {
    pub result: Result<M, Error>,
    pub consumed: nat,
}

impl<M> Parsed<M> {
    /// Reading failed for want of bytes.
    pub open spec fn eof(bytes: Seq<u8>) -> Parsed<M> {
        Parsed { result: Err(Error::UnexpectedEof), consumed: bytes.len() }
    }
}

/// What a value became by reading, why reading ended early, if it did, and how many bytes it
/// took.
#[verifier::ext_equal]
pub struct Applied<M> {
    pub model: M,
    pub error: Option<Error>,
    pub consumed: nat,
}

impl<M> Applied<M> {
    /// A value that is replaced by what was read, and stays as it was if nothing could be.
    pub open spec fn replaced(prior: M, parsed: Parsed<M>) -> Applied<M> {
        match parsed.result {
            Ok(model) => Applied { model, error: None, consumed: parsed.consumed },
            Err(error) => Applied { model: prior, error: Some(error), consumed: parsed.consumed },
        }
    }
}

/// What is written behind a failure is not written; else bytes follow one another.
pub proof fn law_written_up_to_a_failure(first: Emitted, second: Emitted)
    ensures
        first.error is Some ==> first.followed_by(second) == first,
        first.error is None ==> first.followed_by(second).bytes == first.bytes + second.bytes
            && first.followed_by(second).error == second.error,
        Emitted::nothing().bytes.len() == 0,
        Emitted::nothing().error is None,
        Emitted::of(first.bytes).bytes == first.bytes,
        Emitted::of(first.bytes).error is None,
{
}

/// A value that cannot be read leaves what was there; one that can takes its place.
pub proof fn law_replaced_if_read<M>(prior: M, parsed: Parsed<M>)
    ensures
        parsed.result matches Ok(model) ==> Applied::replaced(prior, parsed).model == model
            && Applied::replaced(prior, parsed).error is None,
        parsed.result matches Err(error) ==> Applied::replaced(prior, parsed).model == prior
            && Applied::replaced(prior, parsed).error == Some(error),
        Applied::replaced(prior, parsed).consumed == parsed.consumed,
{
}

/// The failure of a result is its error.
pub proof fn law_failure<T>(value: T, error: Error)
    ensures
        failure(Ok::<T, Error>(value)) is None,
        failure(Err::<T, Error>(error)) == Some(error),
{
}

} // verus!
