use stream_join::codec::OrderType;
use stream_join::mview::ManagedMViewState;
use stream_join::storage::{Keyspace, MemoryStateStore};
use stream_join::types::{DataType, Field, Row, ScalarImpl, Schema};

fn int32(v: i32) -> Option<ScalarImpl> {
    Some(ScalarImpl::Int32(v))
}

#[test]
fn test_mview_state() {
    // Only assert pk and columns can be successfully put/delete/flush,
    // and the ammount of rows is expected.
    let mut state_store = MemoryStateStore::new();
    let schema = Schema::new(vec![
        Field { data_type: DataType::Int32 },
        Field { data_type: DataType::Int32 },
    ]);
    let pk_columns = vec![0];
    let orderings = vec![OrderType::Ascending];
    let keyspace = Keyspace::executor_root(0x42);

    let mut state = ManagedMViewState::new(keyspace.clone(), schema, pk_columns, orderings);
    let mut epoch: u64 = 0;
    state.put(Row(vec![int32(1)]), Row(vec![int32(1), int32(11)]));
    state.put(Row(vec![int32(2)]), Row(vec![int32(2), int32(22)]));
    state.put(Row(vec![int32(3)]), Row(vec![int32(3), int32(33)]));
    state.delete(Row(vec![int32(2)]));

    let batch = state.flush().unwrap();
    state_store.ingest(&batch, epoch);
    let data = state_store.scan(keyspace.prefix(), None);
    // cell-based storage has 4 cells
    assert_eq!(data.len(), 4);

    epoch += 1;
    state.delete(Row(vec![int32(3)]));
    let batch = state.flush().unwrap();
    state_store.ingest(&batch, epoch);
    let data = state_store.scan(keyspace.prefix(), None);
    assert_eq!(data.len(), 2);
}
