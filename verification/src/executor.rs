//! Epochs, barriers and the messages that flow between operators.

use vstd::prelude::*;
use std::sync::Arc;
use crate::chunk::StreamChunk;
use crate::error::StreamError;
use crate::mutation::{ActorId, ActorInfo, ActorSet, DispatcherMap, Mutation};
use crate::types::Schema;

verus! {

pub const INVALID_EPOCH: u64 = 0;

/// The span of a trace, carried by a barrier from operator to operator. Its
/// contents are opaque here.
#[verifier::external_type_specification]
#[verifier::external_body]
pub struct ExSpan(tracing::Span);

/// `tracing::Span::none`: a span that is completely disabled. Nothing is
/// claimed of it.
pub assume_specification[ tracing::Span::none ]() -> (span: tracing::Span)
;

/// `Clone::clone` of `tracing::Span`: another handle of the span. Nothing is
/// claimed of it.
#[verifier::external_body]
fn clone_span(span: &tracing::Span) -> (r: tracing::Span) {
    span.clone()
}

/// `Arc::clone`: another pointer to the same mutation.
#[verifier::external_body]
fn share_mutation(mutation: &Arc<Mutation>) -> (r: Arc<Mutation>)
    ensures
        r == *mutation,
{
    Arc::clone(mutation)
}

/// The epoch that a barrier opens and the one it closes.
#[derive(Debug, Clone, Copy, PartialEq, Eq, Structural)]
pub struct Epoch {
    pub curr: u64,
    pub prev: u64,
}

impl Epoch {
    pub fn new(curr: u64, prev: u64) -> (e: Self)
        requires
            curr > prev,
        ensures
            e == (Epoch { curr, prev }),
    {
        Epoch { curr, prev }
    }

    /// The epoch after this one.
    pub fn inc(&self) -> (e: Self)
        requires
            self.curr < u64::MAX,
            self.prev < u64::MAX,
        ensures
            e == (Epoch { curr: (self.curr + 1) as u64, prev: (self.prev + 1) as u64 }),
    {
        Epoch { curr: self.curr + 1, prev: self.prev + 1 }
    }

    pub fn new_test_epoch(curr: u64) -> (e: Self)
        requires
            curr > 0,
        ensures
            e == (Epoch { curr, prev: (curr - 1) as u64 }),
    {
        Self::new(curr, curr - 1)
    }
}

impl Default for Epoch {
    fn default() -> (e: Self)
        ensures
            e == (Epoch { curr: 1, prev: INVALID_EPOCH }),
    {
        Epoch { curr: 1, prev: INVALID_EPOCH }
    }
}

/// A control event that delimits a consistent snapshot.
#[derive(Debug)]
pub struct Barrier {
    pub epoch: Epoch,
    pub mutation: Option<Arc<Mutation>>,
    pub span: tracing::Span,
}

impl Default for Barrier {
    fn default() -> (b: Self)
        ensures
            b.epoch == (Epoch { curr: 1, prev: INVALID_EPOCH }),
            b.mutation.is_none(),
    {
        Barrier { span: tracing::Span::none(), epoch: Epoch::default(), mutation: None }
    }
}

impl Barrier {
    /// A plain barrier.
    pub fn new_test_barrier(epoch: u64) -> (b: Self)
        requires
            epoch > 0,
        ensures
            b.epoch == (Epoch { curr: epoch, prev: (epoch - 1) as u64 }),
            b.mutation.is_none(),
    {
        Barrier {
            epoch: Epoch::new_test_epoch(epoch),
            mutation: None,
            span: tracing::Span::none(),
        }
    }

    #[must_use]
    pub fn with_mutation(self, mutation: Mutation) -> (b: Self)
        ensures
            b.epoch == self.epoch,
            b.span == self.span,
            b.mutation == Some(Arc::new(mutation)),
    {
        Barrier { mutation: Some(Arc::new(mutation)), ..self }
    }

    /// The barrier with a mutation that stops no actor yet.
    #[must_use]
    pub fn with_stop(self) -> (b: Self)
        ensures
            b.epoch == self.epoch,
            b.span == self.span,
            b.mutation matches Some(m) && (*m matches Mutation::Stop(actors) && actors.wf()
                && actors@ == Set::<ActorId>::empty()),
    {
        self.with_mutation(Mutation::Stop(ActorSet::new()))
    }

    #[must_use]
    pub fn with_span(self, span: tracing::Span) -> (b: Self)
        ensures
            b == (Barrier { span, ..self }),
    {
        Barrier { span, ..self }
    }

    /// The mutation of the barrier is sound, if it has one.
    pub open spec fn wf(&self) -> bool {
        self.mutation matches Some(m) ==> m.wf()
    }

    /// A barrier with the same epoch and the same mutation, and a handle of the same span.
    pub fn clone(&self) -> (b: Self)
        ensures
            b.epoch == self.epoch,
            b.mutation == self.mutation,
    {
        Barrier {
            epoch: self.epoch,
            mutation: match &self.mutation {
                Some(m) => Some(share_mutation(m)),
                None => None,
            },
            span: clone_span(&self.span),
        }
    }

    /// Whether the barrier stops the actor `actor_id`.
    pub fn is_to_stop_actor(&self, actor_id: ActorId) -> (r: bool)
        requires
            self.wf(),
        ensures
            r == (self.mutation matches Some(m) && (*m matches Mutation::Stop(actors)
                && actors@.contains(actor_id))),
    {
        match &self.mutation {
            Some(m) => match &**m {
                Mutation::Stop(actors) => actors.contains(actor_id),
                _ => false,
            },
            None => false,
        }
    }

    /// Whether the barrier adds the actor `actor_id` to the outputs of a dispatcher.
    pub fn is_to_add_output(&self, actor_id: ActorId) -> (r: bool)
        requires
            self.wf(),
        ensures
            r == (self.mutation matches Some(m) && (*m matches Mutation::AddOutput(map)
                && names_actor(map.elements(), actor_id))),
    {
        match &self.mutation {
            Some(m) => match &**m {
                Mutation::AddOutput(map) => sends_to(map, actor_id),
                _ => false,
            },
            None => false,
        }
    }
}

/// Whether one of the dispatchers of `map` sends to the actor `actor_id`.
fn sends_to(map: &DispatcherMap, actor_id: ActorId) -> (r: bool)
    requires
        map.wf(),
    ensures
        r == names_actor(map.elements(), actor_id),
{
    let n = map.len();
    let mut i: usize = 0;
    while i < n
        invariant
            i <= n,
            map.wf(),
            n == map.elements().len(),
            forall|a: int, b: int|
                0 <= a < i && 0 <= b < map.elements()[a].2.len() ==> (
                #[trigger] map.elements()[a].2[b]).actor_id != actor_id,
        decreases n - i,
    {
        let (_, _, infos) = map.entry_at(i);
        let mut j: usize = 0;
        while j < infos.len()
            invariant
                j <= infos.len(),
                i < n,
                n == map.elements().len(),
                infos@ == map.elements()[i as int].2,
                forall|b: int| 0 <= b < j ==> (#[trigger] infos@[b]).actor_id != actor_id,
            decreases infos.len() - j,
        {
            if infos[j].actor_id == actor_id {
                assert(map.elements()[i as int].2[j as int].actor_id == actor_id);
                assert(names_actor(map.elements(), actor_id));
                return true;
            }
            j += 1;
        }
        i += 1;
    }
    false
}

/// Whether one of the dispatchers sends to the actor `actor_id`.
pub open spec fn names_actor(es: Seq<(u32, u64, Seq<ActorInfo>)>, actor_id: ActorId) -> bool {
    exists|a: int, b: int|
        0 <= a < es.len() && 0 <= b < es[a].2.len() && (#[trigger] es[a].2[b]).actor_id == actor_id
}

pub type PkIndices = Vec<usize>;

/// What an operator says of its output: the schema, the columns of the
/// primary key, and a name.
#[derive(Debug)]
pub struct ExecutorInfo {
    pub schema: Schema,
    pub pk_indices: PkIndices,
    pub identity: String,
}

/// What an operator hands to the next one.
#[derive(Debug)]
pub enum Message {
    Chunk(StreamChunk),
    Barrier(Barrier),
}

/// Where an executor stands before and after its first barrier.
#[derive(Debug)]
pub enum ExecutorV1State {
    /// Waiting for the first barrier.
    Init,
    /// Can read from and write to storage.
    Active(u64),
}

impl Message {
    /// The barrier that the message is, or nothing where it is a chunk.
    pub fn as_barrier(&self) -> (r: Result<&Barrier, ()>)
        ensures
            match *self {
                Message::Chunk(_) => r.is_err(),
                Message::Barrier(b) => r matches Ok(x) && *x == b,
            },
    {
        match self {
            Message::Chunk(_) => Err(()),
            Message::Barrier(b) => Ok(b),
        }
    }

    /// Return true if the message is a stop barrier, meaning the stream
    /// will not continue, false otherwise.
    ///
    /// Note that this does not mean we will stop the current actor.
    pub fn is_stop(&self) -> (r: bool)
        ensures
            r == (*self matches Message::Barrier(b) && (b.mutation matches Some(m) && *m is Stop)),
    {
        match self {
            Message::Barrier(b) => match &b.mutation {
                Some(m) => (&**m).is_stop(),
                None => false,
            },
            Message::Chunk(_) => false,
        }
    }
}

impl ExecutorV1State {
    /// Takes the first message of an executor. An executor that waits for
    /// its first barrier becomes active in the epoch of the barrier, which is
    /// returned; any other first message is refused. An active executor is
    /// left as it is, and `None` is returned.
    pub fn try_init_executor(&mut self, msg: &Message) -> (r: Result<Option<Barrier>, StreamError>)
        ensures
            match (*old(self), *msg) {
                (ExecutorV1State::Init, Message::Barrier(b)) => {
                    &&& *final(self) == ExecutorV1State::Active(b.epoch.curr)
                    &&& r matches Ok(Some(c)) && c.epoch == b.epoch && c.mutation == b.mutation
                },
                (ExecutorV1State::Init, Message::Chunk(_)) => {
                    &&& *final(self) == *old(self)
                    &&& r == Err::<Option<Barrier>, StreamError>(StreamError::NotInitialized)
                },
                (ExecutorV1State::Active(_), _) => {
                    &&& *final(self) == *old(self)
                    &&& r == Ok::<Option<Barrier>, StreamError>(None)
                },
            },
    {
        match self {
            ExecutorV1State::Init => match msg {
                Message::Barrier(barrier) => {
                    *self = ExecutorV1State::Active(barrier.epoch.curr);
                    Ok(Some(barrier.clone()))
                },
                Message::Chunk(_) => Err(StreamError::NotInitialized),
            },
            ExecutorV1State::Active(_) => Ok(None),
        }
    }

    /// The epoch of an active executor.
    pub fn epoch(&self) -> (e: u64)
        requires
            self is Active,
        ensures
            e == self->0,
    {
        match self {
            ExecutorV1State::Init => 0,
            ExecutorV1State::Active(epoch) => *epoch,
        }
    }
}

} // verus!
