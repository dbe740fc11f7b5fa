use stream_join::error::StreamError;
use stream_join::managed_state::{ManagedJoinState, StateEntry};
use stream_join::storage::{Keyspace, MemoryStateStore, WriteBatch};
use stream_join::types::{Row, ScalarImpl};

fn row(k: i64, v: i64) -> Row {
    Row(vec![Some(ScalarImpl::Int64(k)), Some(ScalarImpl::Int64(v))])
}

fn values(state: &ManagedJoinState) -> Vec<(i64, i64)> {
    state
        .values()
        .unwrap()
        .iter()
        .map(|r| match (r.0[0], r.0[1]) {
            (Some(ScalarImpl::Int64(k)), Some(ScalarImpl::Int64(v))) => (k, v),
            _ => panic!("not int64"),
        })
        .collect()
}

fn entry() -> ManagedJoinState {
    // the primary key is the second column
    ManagedJoinState::new(Keyspace::new(vec![b'x']), vec![1], 2)
}

fn pk(v: i64) -> Row {
    Row(vec![Some(ScalarImpl::Int64(v))])
}

#[test]
fn an_entry_starts_empty() {
    let state = entry();
    assert_eq!(state.kind(), StateEntry::Empty);
    assert!(state.is_empty());
    assert!(!state.is_dirty());
    assert!(state.is_loaded());
    assert_eq!(state.len(), 0);
}

#[test]
fn rows_are_walked_by_primary_key() {
    let mut state = entry();
    state.insert(row(1, 30));
    state.insert(row(1, -10));
    state.insert(row(1, 20));
    assert_eq!(values(&state), vec![(1, -10), (1, 20), (1, 30)]);
    assert_eq!(state.kind(), StateEntry::AllCached);
    assert!(state.is_dirty());
    assert_eq!(state.row_at(1).0, row(1, 20).0);
}

#[test]
fn a_row_with_the_same_primary_key_is_replaced() {
    let mut state = entry();
    state.insert(row(1, 20));
    state.insert(row(2, 20));
    assert_eq!(values(&state), vec![(2, 20)]);
    assert_eq!(state.len(), 1);
}

#[test]
fn remove_says_whether_the_row_was_there() {
    let mut state = entry();
    state.insert(row(1, 20));
    assert!(!state.remove(&pk(21)));
    assert!(state.remove(&pk(20)));
    assert!(state.is_empty());
    assert!(!state.remove(&pk(20)));
}

#[test]
fn flush_writes_one_cell_for_each_column() {
    let mut state = entry();
    state.insert(row(1, 20));
    state.insert(row(1, 10));
    let mut batch = WriteBatch::new();
    state.flush(&mut batch);
    assert_eq!(batch.len(), 4);
    // prefix, encoded primary key, column index
    let key_of = |v: u8, i: u8| vec![b'x', 4, 0x80, 0, 0, 0, 0, 0, 0, v, 0, 0, 0, i];
    assert_eq!(batch.ops[0], (key_of(10, 0), Some(vec![4, 0x80, 0, 0, 0, 0, 0, 0, 1])));
    assert_eq!(batch.ops[1], (key_of(10, 1), Some(vec![4, 0x80, 0, 0, 0, 0, 0, 0, 10])));
    assert_eq!(batch.ops[2], (key_of(20, 0), Some(vec![4, 0x80, 0, 0, 0, 0, 0, 0, 1])));
    assert_eq!(batch.ops[3], (key_of(20, 1), Some(vec![4, 0x80, 0, 0, 0, 0, 0, 0, 20])));
    assert!(!state.is_dirty());
    assert_eq!(values(&state), vec![(1, 10), (1, 20)]);
    // nothing is pending: the next flush writes nothing
    let mut again = WriteBatch::new();
    state.flush(&mut again);
    assert_eq!(again.len(), 0);
}

#[test]
fn a_pending_insert_is_cancelled_and_a_stored_row_gets_a_tombstone() {
    let mut state = entry();
    state.insert(row(1, 20));
    state.remove(&pk(20));
    let mut batch = WriteBatch::new();
    state.flush(&mut batch);
    assert_eq!(batch.len(), 0);

    state.insert(row(1, 20));
    state.flush(&mut batch);
    assert_eq!(batch.len(), 2);
    state.remove(&pk(20));
    let mut deletes = WriteBatch::new();
    state.flush(&mut deletes);
    assert_eq!(deletes.len(), 2);
    assert!(deletes.ops.iter().all(|(_, v)| v.is_none()));
    assert_eq!(deletes.ops[0].0, batch.ops[0].0);
    assert_eq!(deletes.ops[1].0, batch.ops[1].0);
}

#[test]
fn an_evicted_entry_is_loaded_from_the_store() {
    let mut store = MemoryStateStore::new();
    let mut state = entry();
    state.insert(row(1, 10));
    state.insert(row(1, 20));
    state.insert(row(1, 30));
    let mut batch = WriteBatch::new();
    state.flush(&mut batch);
    store.ingest(&batch, 1);

    state.evict();
    assert_eq!(state.kind(), StateEntry::NotAll);
    assert!(!state.is_loaded());
    assert!(state.values().is_none());

    // mutations are buffered while the rows are in the store
    state.remove(&pk(20));
    state.insert(row(5, 30));
    state.insert(row(1, 40));
    let cells = store.scan(&vec![b'x'], None);
    assert_eq!(cells.len(), 6);
    state.load(&cells).unwrap();
    // the tombstone hides, the pending inserts replace and add
    assert_eq!(values(&state), vec![(1, 10), (5, 30), (1, 40)]);
    assert!(state.is_loaded());
    // the entry counts as all cached once it is flushed
    assert_eq!(state.kind(), StateEntry::NotAll);
    let mut batch = WriteBatch::new();
    state.flush(&mut batch);
    assert_eq!(state.kind(), StateEntry::AllCached);
    store.ingest(&batch, 2);
    assert_eq!(store.scan(&vec![b'x'], None).len(), 6);
}

#[test]
fn cells_that_are_no_rows_are_refused() {
    let mut store = MemoryStateStore::new();
    let mut state = entry();
    state.insert(row(1, 10));
    let mut batch = WriteBatch::new();
    state.flush(&mut batch);
    store.ingest(&batch, 1);
    let cells = store.scan(&vec![b'x'], None);

    let mut fresh = entry();
    fresh.evict();
    assert_eq!(fresh.load(&cells[..1].to_vec()), Err(StreamError::CorruptState));
    let mut bad = cells.clone();
    bad[1].1 = vec![9, 9];
    assert_eq!(fresh.load(&bad), Err(StreamError::CorruptState));
    let mut moved = cells.clone();
    moved[0].0[0] = b'y';
    moved[1].0[0] = b'y';
    assert_eq!(fresh.load(&moved), Err(StreamError::CorruptState));
    assert!(!fresh.is_loaded());
    assert_eq!(fresh.load(&cells), Ok(()));
    assert_eq!(values(&fresh), vec![(1, 10)]);
    // an entry that holds all its rows is left as it is
    assert_eq!(fresh.load(&vec![]), Ok(()));
    assert_eq!(values(&fresh), vec![(1, 10)]);
}

#[test]
fn the_store_keeps_the_last_write_of_each_key() {
    let mut store = MemoryStateStore::new();
    let mut batch = WriteBatch::new();
    batch.put(vec![2, 1], vec![10]);
    batch.put(vec![1, 9], vec![20]);
    batch.put(vec![2, 1], vec![30]);
    batch.put(vec![2], vec![40]);
    batch.delete(vec![1, 9]);
    batch.delete(vec![7]);
    store.ingest(&batch, 3);
    assert_eq!(store.scan(&vec![], None), vec![(vec![2], vec![40]), (vec![2, 1], vec![30])]);
    assert_eq!(store.scan(&vec![2, 1], None), vec![(vec![2, 1], vec![30])]);
    assert_eq!(store.scan(&vec![2], Some(1)), vec![(vec![2], vec![40])]);
    assert_eq!(store.scan(&vec![2], Some(0)), vec![]);
    assert_eq!(store.scan(&vec![3], None), vec![]);
}

#[test]
fn a_cancelled_insert_leaves_what_the_store_holds() {
    let mut store = MemoryStateStore::new();
    let mut state = entry();
    state.insert(row(1, 20));
    let mut batch = WriteBatch::new();
    state.flush(&mut batch);
    store.ingest(&batch, 1);

    // removed, inserted again and removed again before the next flush: the
    // tombstone gives way to the insert, and the insert is cancelled
    assert!(state.remove(&pk(20)));
    state.insert(row(1, 20));
    assert!(state.remove(&pk(20)));
    assert!(state.is_empty());
    assert!(!state.is_dirty());
    let mut batch = WriteBatch::new();
    state.flush(&mut batch);
    assert_eq!(batch.len(), 0);
    store.ingest(&batch, 2);
    assert_eq!(store.scan(&vec![b'x'], None).len(), 2);
}
