//! The records in which barriers and messages go over the wire.

use vstd::prelude::*;
use crate::chunk::Column;
use crate::mutation::ActorInfo;

verus! {

#[derive(Clone, Copy, Debug, PartialEq, Eq, Structural)]
pub struct ProstEpoch {
    pub curr: u64,
    pub prev: u64,
}

#[derive(Clone, Copy, Debug, PartialEq, Eq, Structural)]
pub struct NothingMutation {}

#[derive(Debug)]
pub struct StopMutation {
    pub actors: Vec<u32>,
}

#[derive(Debug)]
pub struct DispatcherMutation {
    pub actor_id: u32,
    pub dispatcher_id: u64,
    pub info: Vec<ActorInfo>,
}

#[derive(Debug)]
pub struct UpdateMutation {
    pub mutations: Vec<DispatcherMutation>,
}

#[derive(Debug)]
pub struct AddMutation {
    pub mutations: Vec<DispatcherMutation>,
}

#[derive(Debug)]
pub enum ProstMutation {
    Nothing(NothingMutation),
    Stop(StopMutation),
    Update(UpdateMutation),
    Add(AddMutation),
}

#[derive(Debug)]
pub struct ProstBarrier {
    pub epoch: Option<ProstEpoch>,
    pub mutation: Option<ProstMutation>,
    pub span: Vec<u8>,
}

/// A chunk on the wire: it has no hidden rows, and its operations are numbers.
#[derive(Debug)]
pub struct ProstStreamChunk {
    pub cardinality: u32,
    pub ops: Vec<i32>,
    pub columns: Vec<Column>,
}

#[derive(Debug)]
pub enum StreamMessage {
    StreamChunk(ProstStreamChunk),
    Barrier(ProstBarrier),
}

#[derive(Debug)]
pub struct ProstStreamMessage {
    pub stream_message: Option<StreamMessage>,
}

/// The dispatchers of a list of mutations with their actors, in order.
pub open spec fn dispatchers_of(ms: Seq<DispatcherMutation>) -> Seq<(u32, u64, Seq<ActorInfo>)> {
    Seq::new(ms.len(), |i: int| (ms[i].actor_id, ms[i].dispatcher_id, ms[i].info@))
}

/// The map that a list of dispatchers with their actors stands for: where a
/// dispatcher is listed twice, the later entry counts.
pub open spec fn dispatcher_map_of(es: Seq<(u32, u64, Seq<ActorInfo>)>) -> Map<
    (u32, u64),
    Seq<ActorInfo>,
>
    decreases es.len(),
{
    if es.len() == 0 {
        Map::empty()
    } else {
        dispatcher_map_of(es.drop_last()).insert((es.last().0, es.last().1), es.last().2)
    }
}

} // verus!
