use stream_join::chunk::{pk_input_array_refs, pk_input_arrays, Column, StreamChunk};
use stream_join::error::StreamError;
use stream_join::executor::{Barrier, Epoch, ExecutorV1State, Message, INVALID_EPOCH};
use stream_join::mutation::{ActorInfo, ActorSet, DispatcherMap, HostAddress, Mutation};
use stream_join::pk_types::pk_data_types;
use stream_join::proto::{
    DispatcherMutation, NothingMutation, ProstBarrier, ProstEpoch, ProstMutation,
    ProstStreamMessage, StreamMessage, UpdateMutation,
};
use stream_join::types::{DataType, Field, Op, ScalarImpl, Schema};

#[test]
fn epochs_follow_each_other() {
    assert_eq!(Epoch::new(5, 3), Epoch { curr: 5, prev: 3 });
    assert_eq!(Epoch::new(5, 3).inc(), Epoch { curr: 6, prev: 4 });
    assert_eq!(Epoch::new_test_epoch(9), Epoch { curr: 9, prev: 8 });
    assert_eq!(Epoch::default(), Epoch { curr: 1, prev: INVALID_EPOCH });
}

#[test]
fn a_plain_barrier_has_no_mutation() {
    let b = Barrier::new_test_barrier(4);
    assert_eq!(b.epoch, Epoch { curr: 4, prev: 3 });
    assert!(b.mutation.is_none());
    assert!(b.span.is_none());
    assert!(!b.is_to_stop_actor(1));
    assert!(!b.is_to_add_output(1));
    assert!(!Message::Barrier(b).is_stop());
    assert_eq!(Barrier::default().epoch, Epoch::default());
}

#[test]
fn a_stop_barrier_stops_the_actors_it_names() {
    let mut actors = ActorSet::new();
    actors.insert(7);
    actors.insert(3);
    actors.insert(7);
    assert_eq!(actors.to_vec(), vec![3, 7]);
    let b = Barrier::new_test_barrier(2).with_mutation(Mutation::Stop(actors));
    assert!(b.is_to_stop_actor(3));
    assert!(b.is_to_stop_actor(7));
    assert!(!b.is_to_stop_actor(5));
    assert!(!b.is_to_add_output(3));
    let copy = b.clone();
    assert_eq!(copy.epoch, b.epoch);
    assert!(copy.is_to_stop_actor(7));
    assert!(Message::Barrier(copy).is_stop());
    let empty = Barrier::new_test_barrier(2).with_stop();
    assert!(!empty.is_to_stop_actor(3));
    assert!(Message::Barrier(empty).is_stop());
}

fn info(actor_id: u32) -> ActorInfo {
    ActorInfo { actor_id, host: Some(HostAddress { host: "localhost".to_string(), port: 2333 }) }
}

#[test]
fn an_add_barrier_names_the_actors_added() {
    let mut map = DispatcherMap::new();
    map.insert(1, 10, vec![info(100), info(101)]);
    map.insert(2, 20, vec![]);
    map.insert(1, 5, vec![info(102)]);
    assert_eq!(map.len(), 3);
    let (actor, dispatcher, infos) = map.entry_at(0);
    assert_eq!((actor, dispatcher, infos.len()), (1, 5, 1));
    let b = Barrier::new_test_barrier(2).with_mutation(Mutation::AddOutput(map));
    assert!(b.is_to_add_output(100));
    assert!(b.is_to_add_output(102));
    assert!(!b.is_to_add_output(1));
    assert!(!b.is_to_stop_actor(100));
    assert!(!Message::Barrier(b).is_stop());
    let mut map = DispatcherMap::new();
    map.insert(1, 10, vec![info(100)]);
    let b = Barrier::new_test_barrier(2).with_mutation(Mutation::UpdateOutputs(map));
    assert!(!b.is_to_add_output(100));
}

#[test]
fn barriers_go_over_the_wire_and_back() {
    let plain = Barrier::new_test_barrier(6).to_protobuf();
    assert_eq!(plain.epoch, Some(ProstEpoch { curr: 6, prev: 5 }));
    assert!(matches!(plain.mutation, Some(ProstMutation::Nothing(NothingMutation {}))));
    assert!(plain.span.is_empty());
    let back = Barrier::from_protobuf(&plain).unwrap();
    assert_eq!(back.epoch, Epoch { curr: 6, prev: 5 });
    assert!(back.mutation.is_none());

    let stop = Barrier::new_test_barrier(6)
        .with_mutation(Mutation::Stop(ActorSet::from_vec(&vec![9, 2, 9, 4])))
        .to_protobuf();
    match &stop.mutation {
        Some(ProstMutation::Stop(s)) => assert_eq!(s.actors, vec![2, 4, 9]),
        other => panic!("not a stop: {:?}", other),
    }
    let back = Barrier::from_protobuf(&stop).unwrap();
    assert!(back.is_to_stop_actor(4));
    assert!(!back.is_to_stop_actor(3));

    let mut map = DispatcherMap::new();
    map.insert(3, 1, vec![info(30)]);
    map.insert(1, 2, vec![info(10), info(11)]);
    let add = Barrier::new_test_barrier(6).with_mutation(Mutation::AddOutput(map)).to_protobuf();
    match &add.mutation {
        Some(ProstMutation::Add(a)) => {
            assert_eq!(a.mutations.len(), 2);
            assert_eq!((a.mutations[0].actor_id, a.mutations[0].dispatcher_id), (1, 2));
            assert_eq!(a.mutations[0].info.len(), 2);
            assert_eq!(a.mutations[0].info[1].actor_id, 11);
            assert_eq!(a.mutations[0].info[1].host.as_ref().unwrap().host, "localhost");
            assert_eq!((a.mutations[1].actor_id, a.mutations[1].dispatcher_id), (3, 1));
        }
        other => panic!("not an add: {:?}", other),
    }
    let back = Barrier::from_protobuf(&add).unwrap();
    assert!(back.is_to_add_output(30));
    assert!(back.is_to_add_output(11));
    assert!(!back.is_to_add_output(12));
}

#[test]
fn a_later_dispatcher_takes_the_place_of_an_earlier_one() {
    let prost = ProstBarrier {
        epoch: Some(ProstEpoch { curr: 2, prev: 1 }),
        mutation: Some(ProstMutation::Update(UpdateMutation {
            mutations: vec![
                DispatcherMutation { actor_id: 1, dispatcher_id: 1, info: vec![info(5)] },
                DispatcherMutation { actor_id: 1, dispatcher_id: 1, info: vec![info(6)] },
            ],
        })),
        span: vec![],
    };
    let back = Barrier::from_protobuf(&prost).unwrap();
    match back.mutation.as_deref() {
        Some(Mutation::UpdateOutputs(map)) => {
            assert_eq!(map.len(), 1);
            assert_eq!(map.entry_at(0).2[0].actor_id, 6);
        }
        other => panic!("not an update: {:?}", other),
    }
}

#[test]
fn records_that_lack_a_field_are_refused() {
    let no_mutation =
        ProstBarrier { epoch: Some(ProstEpoch { curr: 2, prev: 1 }), mutation: None, span: vec![] };
    assert_eq!(Barrier::from_protobuf(&no_mutation).unwrap_err(), StreamError::MalformedMessage);
    let no_epoch = ProstBarrier {
        epoch: None,
        mutation: Some(ProstMutation::Nothing(NothingMutation {})),
        span: vec![],
    };
    assert_eq!(Barrier::from_protobuf(&no_epoch).unwrap_err(), StreamError::MalformedMessage);
    let bad_epoch = ProstBarrier {
        epoch: Some(ProstEpoch { curr: 2, prev: 2 }),
        mutation: Some(ProstMutation::Nothing(NothingMutation {})),
        span: vec![],
    };
    assert_eq!(Barrier::from_protobuf(&bad_epoch).unwrap_err(), StreamError::MalformedMessage);
    assert_eq!(
        Message::from_protobuf(&ProstStreamMessage { stream_message: None }).unwrap_err(),
        StreamError::MalformedMessage
    );
}

#[test]
fn chunks_go_over_the_wire_without_their_hidden_rows() {
    let chunk = StreamChunk {
        ops: vec![Op::Insert, Op::Delete, Op::UpdateDelete, Op::UpdateInsert],
        columns: vec![Column::new(vec![
            Some(ScalarImpl::Int32(1)),
            Some(ScalarImpl::Int32(2)),
            None,
            Some(ScalarImpl::Int32(4)),
        ])],
        visibility: Some(vec![true, false, true, true]),
    };
    let prost = Message::Chunk(chunk).to_protobuf().unwrap();
    let pc = match &prost.stream_message {
        Some(StreamMessage::StreamChunk(pc)) => pc,
        other => panic!("not a chunk: {:?}", other),
    };
    assert_eq!(pc.cardinality, 3);
    assert_eq!(pc.ops, vec![0, 3, 2]);
    assert_eq!(
        pc.columns[0].data,
        vec![Some(ScalarImpl::Int32(1)), None, Some(ScalarImpl::Int32(4))]
    );
    match Message::from_protobuf(&prost).unwrap() {
        Message::Chunk(c) => {
            assert_eq!(c.ops, vec![Op::Insert, Op::UpdateDelete, Op::UpdateInsert]);
            assert_eq!(c.columns[0].data, pc.columns[0].data);
            assert!(c.visibility.is_none());
        }
        Message::Barrier(_) => unreachable!(),
    }
    let barrier = Message::Barrier(Barrier::new_test_barrier(3)).to_protobuf().unwrap();
    assert!(matches!(Message::from_protobuf(&barrier).unwrap(), Message::Barrier(b) if b.epoch.curr == 3));
}

#[test]
fn chunks_of_the_wire_are_checked() {
    let good = StreamChunk {
        ops: vec![Op::Delete],
        columns: vec![Column::new(vec![None])],
        visibility: None,
    };
    let mut prost = good.to_protobuf().unwrap();
    assert_eq!(prost.ops, vec![1]);
    prost.ops[0] = 4;
    assert_eq!(StreamChunk::from_protobuf(&prost).unwrap_err(), StreamError::MalformedMessage);
    prost.ops[0] = 1;
    prost.cardinality = 2;
    assert_eq!(StreamChunk::from_protobuf(&prost).unwrap_err(), StreamError::MalformedMessage);
    prost.cardinality = 1;
    prost.columns[0].data.push(None);
    assert_eq!(StreamChunk::from_protobuf(&prost).unwrap_err(), StreamError::MalformedMessage);
    let bad = StreamChunk { ops: vec![Op::Insert], columns: vec![Column::new(vec![])], visibility: None };
    assert_eq!(bad.to_protobuf().unwrap_err(), StreamError::MalformedChunk);
    assert!(!bad.is_valid());
    assert_eq!(bad.compact().unwrap_err(), StreamError::MalformedChunk);
}

#[test]
fn an_executor_becomes_active_with_its_first_barrier() {
    let mut state = ExecutorV1State::Init;
    let chunk = Message::Chunk(StreamChunk { ops: vec![], columns: vec![], visibility: None });
    assert_eq!(state.try_init_executor(&chunk).unwrap_err(), StreamError::NotInitialized);
    assert!(matches!(state, ExecutorV1State::Init));
    let barrier = Message::Barrier(Barrier::new_test_barrier(7).with_stop());
    let got = state.try_init_executor(&barrier).unwrap().unwrap();
    assert_eq!(got.epoch, Epoch { curr: 7, prev: 6 });
    assert!(Message::Barrier(got).is_stop());
    assert_eq!(state.epoch(), 7);
    let later = Message::Barrier(Barrier::new_test_barrier(8));
    assert!(state.try_init_executor(&later).unwrap().is_none());
    assert!(state.try_init_executor(&chunk).unwrap().is_none());
    assert_eq!(state.epoch(), 7);
    assert!(barrier.as_barrier().is_ok());
    assert!(chunk.as_barrier().is_err());
}

#[test]
fn the_types_of_the_primary_key_are_those_of_its_columns() {
    let schema = Schema::new(vec![
        Field { data_type: DataType::Int16 },
        Field { data_type: DataType::Boolean },
        Field { data_type: DataType::Int64 },
    ]);
    let types = pk_data_types(&schema, &vec![2, 0, 2]).unwrap();
    assert_eq!(types.to_vec(), vec![DataType::Int64, DataType::Int16, DataType::Int64]);
    assert_eq!(pk_data_types(&schema, &vec![]).unwrap().to_vec(), vec![]);
    assert_eq!(pk_data_types(&schema, &vec![0, 3]).unwrap_err(), StreamError::InvalidPlan);
}

#[test]
fn the_columns_of_the_primary_key_are_picked() {
    let columns = vec![
        Column::new(vec![Some(ScalarImpl::Int16(1))]),
        Column::new(vec![Some(ScalarImpl::Int16(2))]),
        Column::new(vec![None]),
    ];
    let arrays = pk_input_arrays(&[2, 0], &columns);
    assert_eq!(arrays.len(), 2);
    assert_eq!(arrays[0].data, vec![None]);
    assert_eq!(arrays[1].data, vec![Some(ScalarImpl::Int16(1))]);
    let refs = pk_input_array_refs(&[1], &columns);
    assert_eq!(refs[0].data, vec![Some(ScalarImpl::Int16(2))]);
    assert_eq!(refs[0].len(), 1);
}

#[test]
fn a_barrier_carries_its_span() {
    let b = Barrier::new_test_barrier(2).with_stop().with_span(tracing::Span::none());
    assert_eq!(b.epoch, Epoch { curr: 2, prev: 1 });
    assert!(b.span.is_none());
    assert!(Message::Barrier(b).is_stop());
}
