//! Barriers, chunks and messages to and from the records of the wire.

use vstd::prelude::*;
use std::sync::Arc;
use crate::chunk::{lemma_visible_rows_all, row_of, Column, StreamChunk};
use crate::error::StreamError;
use crate::executor::{Barrier, Epoch, Message};
use crate::mutation::{clone_infos, ActorInfo, ActorSet, DispatcherMap, Mutation};
use crate::proto::{
    dispatcher_map_of, dispatchers_of, AddMutation, DispatcherMutation, NothingMutation,
    ProstBarrier, ProstEpoch, ProstMutation, ProstStreamChunk, ProstStreamMessage, StopMutation,
    StreamMessage, UpdateMutation,
};
use crate::types::{Datum, Op};

verus! {

/// The number of an operation on the wire.
pub open spec fn op_code(op: Op) -> i32 {
    match op {
        Op::Insert => 0,
        Op::Delete => 1,
        Op::UpdateInsert => 2,
        Op::UpdateDelete => 3,
    }
}

/// The operation that a number on the wire stands for, if it stands for one.
pub open spec fn op_of_code(code: i32) -> Option<Op> {
    if code == 0 {
        Some(Op::Insert)
    } else if code == 1 {
        Some(Op::Delete)
    } else if code == 2 {
        Some(Op::UpdateInsert)
    } else if code == 3 {
        Some(Op::UpdateDelete)
    } else {
        None
    }
}

/// The mutation of a barrier as the wire has it.
pub open spec fn wire_mutation(m: Option<Arc<Mutation>>, p: Option<ProstMutation>) -> bool {
    match m {
        None => p == Some(ProstMutation::Nothing(NothingMutation {  })),
        Some(a) => match *a {
            Mutation::Stop(actors) => p matches Some(ProstMutation::Stop(s)) && s.actors@
                == actors.elements(),
            Mutation::UpdateOutputs(map) => p matches Some(ProstMutation::Update(u))
                && dispatchers_of(u.mutations@) == map.elements(),
            Mutation::AddOutput(map) => p matches Some(ProstMutation::Add(u)) && dispatchers_of(
                u.mutations@,
            ) == map.elements(),
        },
    }
}

/// The mutation that a record of the wire stands for.
pub open spec fn read_mutation(p: ProstMutation, m: Option<Arc<Mutation>>) -> bool {
    match p {
        ProstMutation::Nothing(_) => m.is_none(),
        ProstMutation::Stop(s) => m matches Some(a) && (*a matches Mutation::Stop(actors)
            && actors.wf() && actors@ == s.actors@.to_set()),
        ProstMutation::Update(u) => m matches Some(a) && (*a matches Mutation::UpdateOutputs(map)
            && map.wf() && map@ == dispatcher_map_of(dispatchers_of(u.mutations@))),
        ProstMutation::Add(u) => m matches Some(a) && (*a matches Mutation::AddOutput(map)
            && map.wf() && map@ == dispatcher_map_of(dispatchers_of(u.mutations@))),
    }
}

/// The dispatchers of `map` as a list of mutations, in ascending order.
fn dispatchers_to_wire(map: &DispatcherMap) -> (out: Vec<DispatcherMutation>)
    requires
        map.wf(),
    ensures
        dispatchers_of(out@) == map.elements(),
{
    let mut out: Vec<DispatcherMutation> = Vec::new();
    let n = map.len();
    let mut i: usize = 0;
    while i < n
        invariant
            i <= n,
            map.wf(),
            n == map.elements().len(),
            out@.len() == i,
            dispatchers_of(out@) == map.elements().subrange(0, i as int),
        decreases n - i,
    {
        let (actor_id, dispatcher_id, actors) = map.entry_at(i);
        let ghost before = out@;
        let info = clone_infos(actors);
        out.push(DispatcherMutation { actor_id, dispatcher_id, info });
        proof {
            let want = map.elements().subrange(0, i + 1);
            let got = dispatchers_of(out@);
            assert forall|k: int| 0 <= k < i + 1 implies got[k] == want[k] by {
                if k < i {
                    assert(out@[k] == before[k]);
                    assert(dispatchers_of(before)[k] == map.elements().subrange(0, i as int)[k]);
                } else {
                    assert((actor_id, dispatcher_id, actors@) == map.elements()[i as int]);
                }
            }
            assert(got =~= want);
        }
        i += 1;
    }
    assert(map.elements().subrange(0, n as int) == map.elements());
    out
}

/// The map of the dispatchers of a list of mutations; a later entry takes
/// the place of an earlier one for the same dispatcher.
fn dispatchers_from_wire(mutations: &Vec<DispatcherMutation>) -> (map: DispatcherMap)
    ensures
        map.wf(),
        map@ == dispatcher_map_of(dispatchers_of(mutations@)),
{
    let mut map = DispatcherMap::new();
    let ghost es = dispatchers_of(mutations@);
    let mut i: usize = 0;
    while i < mutations.len()
        invariant
            i <= mutations.len(),
            es == dispatchers_of(mutations@),
            map.wf(),
            map@ == dispatcher_map_of(es.subrange(0, i as int)),
        decreases mutations.len() - i,
    {
        proof {
            assert(es.subrange(0, i + 1).drop_last() =~= es.subrange(0, i as int));
            assert(es.subrange(0, i + 1).last() == es[i as int]);
        }
        let m = &mutations[i];
        map.insert(m.actor_id, m.dispatcher_id, clone_infos(&m.info));
        i += 1;
    }
    assert(es.subrange(0, es.len() as int) == es);
    map
}

impl Barrier {
    /// The record of the barrier: its epoch, its mutation with the actors and
    /// the dispatchers in ascending order, and no span.
    pub fn to_protobuf(&self) -> (prost: ProstBarrier)
        requires
            self.wf(),
        ensures
            prost.epoch == Some(ProstEpoch { curr: self.epoch.curr, prev: self.epoch.prev }),
            wire_mutation(self.mutation, prost.mutation),
            prost.span@ == Seq::<u8>::empty(),
    {
        let mutation = match &self.mutation {
            None => ProstMutation::Nothing(NothingMutation {  }),
            Some(m) => match &**m {
                Mutation::Stop(actors) => ProstMutation::Stop(
                    StopMutation { actors: actors.to_vec() },
                ),
                Mutation::UpdateOutputs(updates) => ProstMutation::Update(
                    UpdateMutation { mutations: dispatchers_to_wire(updates) },
                ),
                Mutation::AddOutput(adds) => ProstMutation::Add(
                    AddMutation { mutations: dispatchers_to_wire(adds) },
                ),
            },
        };
        ProstBarrier {
            epoch: Some(ProstEpoch { curr: self.epoch.curr, prev: self.epoch.prev }),
            mutation: Some(mutation),
            span: Vec::new(),
        }
    }

    /// The barrier of a record. Refused where the record has no epoch or no
    /// mutation, or an epoch that does not come after the one before it.
    pub fn from_protobuf(prost: &ProstBarrier) -> (r: Result<Barrier, StreamError>)
        ensures
            r.is_ok() == (prost.mutation.is_some() && (prost.epoch matches Some(e) && e.curr
                > e.prev)),
            r matches Err(e) ==> e == StreamError::MalformedMessage,
            r matches Ok(b) ==> {
                &&& b.wf()
                &&& b.epoch == (Epoch {
                    curr: prost.epoch.unwrap().curr,
                    prev: prost.epoch.unwrap().prev,
                })
                &&& read_mutation(prost.mutation.unwrap(), b.mutation)
            },
    {
        let mutation: Option<Arc<Mutation>> = match &prost.mutation {
            None => {
                return Err(StreamError::MalformedMessage);
            },
            Some(ProstMutation::Nothing(_)) => None,
            Some(ProstMutation::Stop(stop)) => Some(
                Arc::new(Mutation::Stop(ActorSet::from_vec(&stop.actors))),
            ),
            Some(ProstMutation::Update(update)) => Some(
                Arc::new(Mutation::UpdateOutputs(dispatchers_from_wire(&update.mutations))),
            ),
            Some(ProstMutation::Add(adds)) => Some(
                Arc::new(Mutation::AddOutput(dispatchers_from_wire(&adds.mutations))),
            ),
        };
        let epoch = match &prost.epoch {
            Some(e) => *e,
            None => {
                return Err(StreamError::MalformedMessage);
            },
        };
        if epoch.curr <= epoch.prev {
            return Err(StreamError::MalformedMessage);
        }
        Ok(
            Barrier {
                span: tracing::Span::none(),
                epoch: Epoch::new(epoch.curr, epoch.prev),
                mutation,
            },
        )
    }
}

/// The rows of a chunk of the wire, each with the number of its operation.
pub open spec fn wire_rows(p: ProstStreamChunk) -> Seq<(i32, Seq<Datum>)> {
    Seq::new(
        p.ops@.len(),
        |i: int| (p.ops@[i], row_of(Seq::new(p.columns@.len(), |j: int| p.columns@[j].data@), i)),
    )
}

/// The operations and the columns of a chunk of the wire have as many
/// entries as the chunk says it has rows.
pub open spec fn wire_valid(p: ProstStreamChunk) -> bool {
    &&& p.ops@.len() == p.cardinality
    &&& forall|j: int|
        0 <= j < p.columns@.len() ==> (#[trigger] p.columns@[j]).data@.len() == p.cardinality
}

/// The rows of a chunk as the wire has them.
pub open spec fn coded_rows(rows: Seq<(Op, Seq<Datum>)>) -> Seq<(i32, Seq<Datum>)> {
    Seq::new(rows.len(), |i: int| (op_code(rows[i].0), rows[i].1))
}

fn code_of(op: Op) -> (c: i32)
    ensures
        c == op_code(op),
{
    match op {
        Op::Insert => 0,
        Op::Delete => 1,
        Op::UpdateInsert => 2,
        Op::UpdateDelete => 3,
    }
}

fn op_from_code(code: i32) -> (r: Option<Op>)
    ensures
        r == op_of_code(code),
{
    if code == 0 {
        Some(Op::Insert)
    } else if code == 1 {
        Some(Op::Delete)
    } else if code == 2 {
        Some(Op::UpdateInsert)
    } else if code == 3 {
        Some(Op::UpdateDelete)
    } else {
        None
    }
}

impl StreamChunk {
    /// The chunk as the wire has it: its visible rows. Refused where the
    /// chunk is not valid or has more rows than the wire can count.
    pub fn to_protobuf(&self) -> (r: Result<ProstStreamChunk, StreamError>)
        ensures
            r.is_ok() == (self.valid() && self.rows().len() <= u32::MAX),
            r matches Err(e) ==> e == StreamError::MalformedChunk,
            r matches Ok(p) ==> wire_valid(p) && p.columns@.len() == self.columns@.len()
                && wire_rows(p) == coded_rows(self.rows()),
    {
        let compacted = match self.compact() {
            Ok(c) => c,
            Err(e) => {
                return Err(e);
            },
        };
        let n = compacted.ops.len();
        proof {
            lemma_visible_rows_all(compacted.ops@, compacted.cols(), n as int);
        }
        if n > u32::MAX as usize {
            return Err(StreamError::MalformedChunk);
        }
        let mut ops: Vec<i32> = Vec::new();
        let mut i: usize = 0;
        while i < n
            invariant
                i <= n,
                n == compacted.ops@.len(),
                ops@.len() == i,
                forall|k: int| 0 <= k < i ==> #[trigger] ops@[k] == op_code(compacted.ops@[k]),
            decreases n - i,
        {
            ops.push(code_of(compacted.ops[i]));
            i += 1;
        }
        let p = ProstStreamChunk { cardinality: n as u32, ops, columns: compacted.columns };
        proof {
            assert forall|k: int| 0 <= k < n implies wire_rows(p)[k] == coded_rows(self.rows())[k] by {
                assert(row_of(Seq::new(p.columns@.len(), |j: int| p.columns@[j].data@), k) =~= row_of(
                    compacted.cols(),
                    k,
                ));
            }
            assert(wire_rows(p) =~= coded_rows(self.rows()));
        }
        Ok(p)
    }

    /// The chunk of a record of the wire. Refused where the record is not
    /// valid or holds a number that stands for no operation.
    pub fn from_protobuf(prost: &ProstStreamChunk) -> (r: Result<StreamChunk, StreamError>)
        ensures
            r.is_ok() == (wire_valid(*prost) && forall|i: int|
                0 <= i < prost.ops@.len() ==> op_of_code(#[trigger] prost.ops@[i]).is_some()),
            r matches Err(e) ==> e == StreamError::MalformedMessage,
            r matches Ok(c) ==> c.valid() && c.visibility.is_none() && c.columns@.len()
                == prost.columns@.len() && coded_rows(c.rows()) == wire_rows(*prost),
    {
        let n = prost.ops.len();
        let card = prost.cardinality as usize;
        if n != card {
            return Err(StreamError::MalformedMessage);
        }
        let mut ops: Vec<Op> = Vec::new();
        let mut i: usize = 0;
        while i < n
            invariant
                i <= n,
                n == prost.ops@.len(),
                ops@.len() == i,
                forall|k: int| 0 <= k < i ==> op_of_code(#[trigger] prost.ops@[k]) == Some(ops@[k]),
            decreases n - i,
        {
            match op_from_code(prost.ops[i]) {
                Some(op) => {
                    ops.push(op);
                },
                None => {
                    return Err(StreamError::MalformedMessage);
                },
            }
            i += 1;
        }
        let mut columns: Vec<Column> = Vec::new();
        let mut j: usize = 0;
        while j < prost.columns.len()
            invariant
                j <= prost.columns.len(),
                n == prost.ops@.len(),
                n == prost.cardinality,
                columns@.len() == j,
                forall|k: int| 0 <= k < j ==> (#[trigger] columns@[k]).data@ == prost.columns@[k].data@,
                forall|k: int| 0 <= k < j ==> (#[trigger] prost.columns@[k]).data@.len() == n,
            decreases prost.columns.len() - j,
        {
            if prost.columns[j].data.len() != n {
                return Err(StreamError::MalformedMessage);
            }
            let mut data: Vec<Datum> = Vec::new();
            let mut k: usize = 0;
            while k < n
                invariant
                    k <= n,
                    j < prost.columns@.len(),
                    prost.columns@[j as int].data@.len() == n,
                    data@ == prost.columns@[j as int].data@.subrange(0, k as int),
                decreases n - k,
            {
                data.push(prost.columns[j].data[k]);
                assert(data@ == prost.columns@[j as int].data@.subrange(0, k + 1));
                k += 1;
            }
            assert(prost.columns@[j as int].data@.subrange(0, n as int) == prost.columns@[j as int].data@);
            columns.push(Column { data });
            j += 1;
        }
        let c = StreamChunk { ops, columns, visibility: None };
        proof {
            lemma_visible_rows_all(c.ops@, c.cols(), n as int);
            assert forall|k: int| 0 <= k < n implies coded_rows(c.rows())[k] == wire_rows(*prost)[k] by {
                assert(row_of(c.cols(), k) =~= row_of(
                    Seq::new(prost.columns@.len(), |j: int| prost.columns@[j].data@),
                    k,
                ));
                assert(op_of_code(prost.ops@[k]) == Some(c.ops@[k]));
            }
            assert(coded_rows(c.rows()) =~= wire_rows(*prost));
        }
        Ok(c)
    }
}

impl Message {
    /// The record of the message.
    pub fn to_protobuf(&self) -> (r: Result<ProstStreamMessage, StreamError>)
        requires
            *self matches Message::Barrier(b) ==> b.wf(),
        ensures
            match *self {
                Message::Chunk(c) => {
                    &&& r.is_ok() == (c.valid() && c.rows().len() <= u32::MAX)
                    &&& r matches Err(e) ==> e == StreamError::MalformedChunk
                    &&& r matches Ok(p) ==> (p.stream_message matches Some(
                        StreamMessage::StreamChunk(pc),
                    ) && wire_valid(pc) && pc.columns@.len() == c.columns@.len() && wire_rows(pc)
                        == coded_rows(c.rows()))
                },
                Message::Barrier(b) => r matches Ok(p) && (p.stream_message matches Some(
                    StreamMessage::Barrier(pb),
                ) && pb.epoch == Some(ProstEpoch { curr: b.epoch.curr, prev: b.epoch.prev })
                    && wire_mutation(b.mutation, pb.mutation) && pb.span@ == Seq::<u8>::empty()),
            },
    {
        let prost = match self {
            Message::Chunk(stream_chunk) => {
                let prost_stream_chunk = match stream_chunk.to_protobuf() {
                    Ok(p) => p,
                    Err(e) => {
                        return Err(e);
                    },
                };
                StreamMessage::StreamChunk(prost_stream_chunk)
            },
            Message::Barrier(barrier) => StreamMessage::Barrier(barrier.to_protobuf()),
        };
        Ok(ProstStreamMessage { stream_message: Some(prost) })
    }

    /// The message of a record. Refused where the record holds no message,
    /// or a chunk or a barrier that is refused.
    pub fn from_protobuf(prost: &ProstStreamMessage) -> (r: Result<Message, StreamError>)
        ensures
            r matches Err(e) ==> e == StreamError::MalformedMessage,
            match prost.stream_message {
                None => r.is_err(),
                Some(StreamMessage::StreamChunk(pc)) => {
                    &&& r.is_ok() == (wire_valid(pc) && forall|i: int|
                        0 <= i < pc.ops@.len() ==> op_of_code(#[trigger] pc.ops@[i]).is_some())
                    &&& r matches Ok(m) ==> (m matches Message::Chunk(c) && c.valid()
                        && c.visibility.is_none() && c.columns@.len() == pc.columns@.len()
                        && coded_rows(c.rows()) == wire_rows(pc))
                },
                Some(StreamMessage::Barrier(pb)) => {
                    &&& r.is_ok() == (pb.mutation.is_some() && (pb.epoch matches Some(e) && e.curr
                        > e.prev))
                    &&& r matches Ok(m) ==> (m matches Message::Barrier(b) && b.wf() && b.epoch == (
                    Epoch { curr: pb.epoch.unwrap().curr, prev: pb.epoch.unwrap().prev })
                        && read_mutation(pb.mutation.unwrap(), b.mutation))
                },
            },
    {
        match &prost.stream_message {
            None => Err(StreamError::MalformedMessage),
            Some(StreamMessage::StreamChunk(stream_chunk)) => {
                match StreamChunk::from_protobuf(stream_chunk) {
                    Ok(c) => Ok(Message::Chunk(c)),
                    Err(e) => Err(e),
                }
            },
            Some(StreamMessage::Barrier(barrier)) => {
                match Barrier::from_protobuf(barrier) {
                    Ok(b) => Ok(Message::Barrier(b)),
                    Err(e) => Err(e),
                }
            },
        }
    }
}

/// The two mutations ask the same: both nothing, or both of one kind and of
/// the same actors or dispatchers.
pub open spec fn same_mutation(a: Option<Arc<Mutation>>, b: Option<Arc<Mutation>>) -> bool {
    match (a, b) {
        (None, None) => true,
        (Some(x), Some(y)) => match (*x, *y) {
            (Mutation::Stop(s), Mutation::Stop(t)) => s@ == t@,
            (Mutation::UpdateOutputs(s), Mutation::UpdateOutputs(t)) => s@ == t@,
            (Mutation::AddOutput(s), Mutation::AddOutput(t)) => s@ == t@,
            _ => false,
        },
        _ => false,
    }
}

/// What a list of dispatchers stands for: the dispatchers listed, each
/// with the actors of one of its entries.
pub proof fn lemma_dispatcher_map_of(es: Seq<(u32, u64, Seq<ActorInfo>)>, k: (u32, u64))
    ensures
        dispatcher_map_of(es).dom().contains(k) <==> exists|i: int|
            0 <= i < es.len() && (#[trigger] es[i]).0 == k.0 && es[i].1 == k.1,
        dispatcher_map_of(es).dom().contains(k) ==> exists|i: int|
            0 <= i < es.len() && (#[trigger] es[i]).0 == k.0 && es[i].1 == k.1 && es[i].2
                == dispatcher_map_of(es)[k],
    decreases es.len(),
{
    if es.len() > 0 {
        let before = es.drop_last();
        let n = before.len() as int;
        lemma_dispatcher_map_of(before, k);
        if (es[n].0, es[n].1) == k {
            assert(es[n].0 == k.0 && es[n].1 == k.1 && es[n].2 == dispatcher_map_of(es)[k]);
        } else {
            if dispatcher_map_of(before).dom().contains(k) {
                let i = choose|i: int|
                    0 <= i < before.len() && (#[trigger] before[i]).0 == k.0 && before[i].1 == k.1
                        && before[i].2 == dispatcher_map_of(before)[k];
                assert(es[i] == before[i]);
            }
            if exists|i: int| 0 <= i < es.len() && (#[trigger] es[i]).0 == k.0 && es[i].1 == k.1 {
                let i = choose|i: int|
                    0 <= i < es.len() && (#[trigger] es[i]).0 == k.0 && es[i].1 == k.1;
                assert(before[i] == es[i]);
            }
        }
    }
}

/// The map that the elements of a map of dispatchers stand for is the map.
pub proof fn lemma_elements_map(map: DispatcherMap)
    requires
        map.wf(),
    ensures
        dispatcher_map_of(map.elements()) == map@,
{
    let es = map.elements();
    let built = dispatcher_map_of(es);
    assert forall|k: (u32, u64)| built.dom().contains(k) == map@.dom().contains(k) by {
        lemma_dispatcher_map_of(es, k);
        map.lemma_elements(k.0, k.1);
    }
    assert forall|k: (u32, u64)| built.dom().contains(k) implies built[k] == map@[k] by {
        lemma_dispatcher_map_of(es, k);
        map.lemma_elements(k.0, k.1);
        let i = choose|i: int|
            0 <= i < es.len() && (#[trigger] es[i]).0 == k.0 && es[i].1 == k.1 && es[i].2
                == built[k];
        assert(map@[(es[i].0, es[i].1)] == es[i].2);
    }
    assert(built =~= map@);
}

/// A barrier comes back from the wire as it went: the record of a mutation
/// stands for the mutation.
pub proof fn lemma_mutation_round_trip(
    m: Option<Arc<Mutation>>,
    p: ProstMutation,
    back: Option<Arc<Mutation>>,
)
    requires
        m matches Some(a) ==> a.wf(),
        wire_mutation(m, Some(p)),
        read_mutation(p, back),
    ensures
        same_mutation(m, back),
{
    match m {
        None => {},
        Some(a) => match *a {
            Mutation::Stop(actors) => {
                let el = actors.elements();
                let t = match *back.unwrap() {
                    Mutation::Stop(t) => t,
                    _ => arbitrary(),
                };
                assert forall|x: u32| el.to_set().contains(x) == actors@.contains(x) by {
                    actors.lemma_elements(x);
                }
                assert(t@ =~= actors@);
            },
            Mutation::UpdateOutputs(map) => {
                lemma_elements_map(map);
            },
            Mutation::AddOutput(map) => {
                lemma_elements_map(map);
            },
        },
    }
}

} // verus!
