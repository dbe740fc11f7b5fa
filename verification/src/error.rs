//! The errors of the operators.

use vstd::prelude::*;

verus! {

/// Why an operator refused its input. All of them end the stream: the output
/// cannot be made consistent after any of them.
#[derive(Clone, Copy, Debug, PartialEq, Eq, Structural)]
pub enum StreamError {
    /// The columns of a chunk, its operations and its visibility differ in length.
    MalformedChunk,
    /// A chunk or a row has not the number of columns that its place asks for.
    WidthMismatch,
    /// A barrier whose epoch is not above that of the barrier before it on the same input.
    EpochRegression,
    /// A value is not of the type of its column.
    TypeMismatch,
    /// The two inputs delivered barriers of different epochs.
    EpochMismatch,
    /// A message from an input that is parked until the other input's barrier arrives.
    ParkedInput,
    /// Rows are to be put back into a state that holds rows already.
    NotFresh,
    /// Stored bytes that are not the encoding of the rows of a state entry.
    CorruptState,
    /// The columns named by a plan are not columns of its inputs, or the inputs are too wide.
    InvalidPlan,
    /// The first message of an executor that waits for its first barrier is not a barrier.
    NotInitialized,
    /// A record from the wire that lacks a field, or holds an epoch or an operation that is none.
    MalformedMessage,
    /// The plan holds a node that no executor is built for.
    UnsupportedNode,
    /// The stream has ended. Executors of the first kind say so with an error.
    Eof,
    /// An input reported an error.
    Upstream,
    /// The store failed to take a write batch.
    Storage,
}

} // verus!
