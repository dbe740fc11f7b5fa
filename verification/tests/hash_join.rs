use std::collections::VecDeque;

use stream_join::chunk::{Column, StreamChunk};
use stream_join::error::StreamError;
use stream_join::executor::{Barrier, Epoch, ExecutorInfo, Message};
use stream_join::hash_join::{HashJoinExecutor, JoinOutput, JoinParams, JoinType, SideType};
use stream_join::storage::{Keyspace, MemoryStateStore};
use stream_join::types::{DataType, Field, Op, ScalarImpl, Schema};

fn column_nonnull(values: Vec<i64>) -> Column {
    Column::new(values.into_iter().map(|v| Some(ScalarImpl::Int64(v))).collect())
}

fn int64s(chunk: &StreamChunk, column: usize) -> Vec<Option<i64>> {
    chunk.columns[column]
        .data
        .iter()
        .map(|d| match d {
            Some(ScalarImpl::Int64(v)) => Some(*v),
            None => None,
            other => panic!("not an int64: {:?}", other),
        })
        .collect()
}

fn schema() -> Schema {
    Schema {
        fields: vec![Field { data_type: DataType::Int64 }, Field { data_type: DataType::Int64 }],
    }
}

fn create_in_memory_keyspace() -> Keyspace {
    Keyspace::executor_root(0x2333)
}

fn barrier(epoch: u64) -> Barrier {
    Barrier { epoch: Epoch { curr: epoch, prev: 0 }, ..Barrier::default() }
}

/// Two queues in front of a join, read as the aligner permits.
struct Harness {
    join: HashJoinExecutor,
    left: VecDeque<Message>,
    right: VecDeque<Message>,
}

impl Harness {
    fn new(join_type: JoinType) -> Harness {
        let source_l =
            ExecutorInfo { schema: schema(), pk_indices: vec![0, 1], identity: "l".to_string() };
        let source_r =
            ExecutorInfo { schema: schema(), pk_indices: vec![0, 1], identity: "r".to_string() };
        let join = HashJoinExecutor::new(
            join_type,
            source_l,
            source_r,
            JoinParams::new(vec![0]),
            JoinParams::new(vec![0]),
            vec![],
            create_in_memory_keyspace(),
        )
        .unwrap();
        Harness { join, left: VecDeque::new(), right: VecDeque::new() }
    }

    fn next_output(&mut self) -> JoinOutput {
        loop {
            let (side, msg) = if self.join.may_read(SideType::Left) && !self.left.is_empty() {
                (SideType::Left, self.left.pop_front().unwrap())
            } else if self.join.may_read(SideType::Right) && !self.right.is_empty() {
                (SideType::Right, self.right.pop_front().unwrap())
            } else {
                panic!("no input can be read");
            };
            if let Some(out) = self.join.next(side, Ok(msg)).unwrap() {
                return out;
            }
        }
    }

    fn next(&mut self) -> Message {
        self.next_output().message
    }
}

fn expect_empty(msg: Message) {
    if let Message::Chunk(chunk) = msg {
        assert_eq!(chunk.ops.len(), 0);
        assert_eq!(chunk.columns.len(), 4);
        for i in 0..4 {
            assert_eq!(int64s(&chunk, i), vec![]);
        }
    } else {
        unreachable!();
    }
}

fn expect_chunk(msg: Message, ops: Vec<Op>, columns: [Vec<Option<i64>>; 4]) {
    if let Message::Chunk(chunk) = msg {
        assert_eq!(chunk.ops, ops);
        assert_eq!(chunk.columns.len(), 4);
        for i in 0..4 {
            assert_eq!(int64s(&chunk, i), columns[i]);
        }
        assert!(chunk.visibility.is_none());
    } else {
        unreachable!();
    }
}

fn chunk_l1() -> StreamChunk {
    StreamChunk {
        ops: vec![Op::Insert, Op::Insert, Op::Insert],
        columns: vec![column_nonnull(vec![1, 2, 3]), column_nonnull(vec![4, 5, 6])],
        visibility: None,
    }
}

fn chunk_l2() -> StreamChunk {
    StreamChunk {
        ops: vec![Op::Insert, Op::Delete],
        columns: vec![column_nonnull(vec![3, 3]), column_nonnull(vec![8, 8])],
        visibility: Some(vec![true, true]),
    }
}

fn chunk_r1() -> StreamChunk {
    StreamChunk {
        ops: vec![Op::Insert, Op::Insert, Op::Insert],
        columns: vec![column_nonnull(vec![2, 4, 6]), column_nonnull(vec![7, 8, 9])],
        visibility: None,
    }
}

#[test]
fn test_streaming_hash_inner_join() {
    let chunk_r2 = StreamChunk {
        ops: vec![Op::Insert, Op::Insert],
        columns: vec![column_nonnull(vec![3, 6]), column_nonnull(vec![10, 11])],
        visibility: Some(vec![true, true]),
    };
    let mut hash_join = Harness::new(JoinType::Inner);

    // push the 1st left chunk
    hash_join.left.push_back(Message::Chunk(chunk_l1()));
    expect_empty(hash_join.next());

    // push the 2nd left chunk
    hash_join.left.push_back(Message::Chunk(chunk_l2()));
    expect_empty(hash_join.next());

    // push the 1st right chunk
    hash_join.right.push_back(Message::Chunk(chunk_r1()));
    expect_chunk(
        hash_join.next(),
        vec![Op::Insert],
        [vec![Some(2)], vec![Some(5)], vec![Some(2)], vec![Some(7)]],
    );

    // push the 2nd right chunk
    hash_join.right.push_back(Message::Chunk(chunk_r2));
    expect_chunk(
        hash_join.next(),
        vec![Op::Insert],
        [vec![Some(3)], vec![Some(6)], vec![Some(3)], vec![Some(10)]],
    );
}

#[test]
fn test_streaming_hash_inner_join_with_barrier() {
    let chunk_l2 = StreamChunk {
        ops: vec![Op::Insert, Op::Insert],
        columns: vec![column_nonnull(vec![6, 3]), column_nonnull(vec![8, 8])],
        visibility: Some(vec![true, true]),
    };
    let chunk_r2 = StreamChunk {
        ops: vec![Op::Insert, Op::Insert],
        columns: vec![column_nonnull(vec![3, 6]), column_nonnull(vec![10, 11])],
        visibility: Some(vec![true, true]),
    };
    let mut hash_join = Harness::new(JoinType::Inner);

    // push the 1st left chunk
    hash_join.left.push_back(Message::Chunk(chunk_l1()));
    expect_empty(hash_join.next());

    // push a barrier to left side
    hash_join.left.push_back(Message::Barrier(barrier(0)));

    // push the 2nd left chunk
    hash_join.left.push_back(Message::Chunk(chunk_l2));

    // join the first right chunk
    hash_join.right.push_back(Message::Chunk(chunk_r1()));
    expect_chunk(
        hash_join.next(),
        vec![Op::Insert],
        [vec![Some(2)], vec![Some(5)], vec![Some(2)], vec![Some(7)]],
    );

    // push a barrier to right side
    hash_join.right.push_back(Message::Barrier(barrier(0)));

    // get the aligned barrier here
    assert!(matches!(
        hash_join.next(),
        Message::Barrier(Barrier { epoch: Epoch { curr: 0, .. }, mutation: None, .. })
    ));

    // join the 2nd left chunk
    expect_chunk(
        hash_join.next(),
        vec![Op::Insert],
        [vec![Some(6)], vec![Some(8)], vec![Some(6)], vec![Some(9)]],
    );

    // push the 2nd right chunk
    hash_join.right.push_back(Message::Chunk(chunk_r2));
    expect_chunk(
        hash_join.next(),
        vec![Op::Insert, Op::Insert, Op::Insert],
        [
            vec![Some(3), Some(3), Some(6)],
            vec![Some(6), Some(8), Some(8)],
            vec![Some(3), Some(3), Some(6)],
            vec![Some(10), Some(10), Some(11)],
        ],
    );
}

#[test]
fn test_streaming_hash_left_join() {
    let chunk_r2 = StreamChunk {
        ops: vec![Op::Insert, Op::Insert],
        columns: vec![column_nonnull(vec![3, 6]), column_nonnull(vec![10, 11])],
        visibility: Some(vec![true, true]),
    };
    let mut hash_join = Harness::new(JoinType::LeftOuter);

    // push the 1st left chunk
    hash_join.left.push_back(Message::Chunk(chunk_l1()));
    expect_chunk(
        hash_join.next(),
        vec![Op::Insert, Op::Insert, Op::Insert],
        [
            vec![Some(1), Some(2), Some(3)],
            vec![Some(4), Some(5), Some(6)],
            vec![None, None, None],
            vec![None, None, None],
        ],
    );

    // push the 2nd left chunk
    hash_join.left.push_back(Message::Chunk(chunk_l2()));
    expect_chunk(
        hash_join.next(),
        vec![Op::Insert, Op::Delete],
        [vec![Some(3), Some(3)], vec![Some(8), Some(8)], vec![None, None], vec![None, None]],
    );

    // push the 1st right chunk
    hash_join.right.push_back(Message::Chunk(chunk_r1()));
    expect_chunk(
        hash_join.next(),
        vec![Op::UpdateDelete, Op::UpdateInsert],
        [vec![Some(2), Some(2)], vec![Some(5), Some(5)], vec![None, Some(2)], vec![None, Some(7)]],
    );

    // push the 2nd right chunk
    hash_join.right.push_back(Message::Chunk(chunk_r2));
    expect_chunk(
        hash_join.next(),
        vec![Op::UpdateDelete, Op::UpdateInsert],
        [vec![Some(3), Some(3)], vec![Some(6), Some(6)], vec![None, Some(3)], vec![None, Some(10)]],
    );
}

#[test]
fn test_streaming_hash_right_join() {
    let chunk_r2 = StreamChunk {
        ops: vec![Op::Insert, Op::Delete],
        columns: vec![column_nonnull(vec![5, 5]), column_nonnull(vec![10, 10])],
        visibility: Some(vec![true, true]),
    };
    let mut hash_join = Harness::new(JoinType::RightOuter);

    // push the 1st left chunk
    hash_join.left.push_back(Message::Chunk(chunk_l1()));
    expect_empty(hash_join.next());

    // push the 2nd left chunk
    hash_join.left.push_back(Message::Chunk(chunk_l2()));
    expect_empty(hash_join.next());

    // push the 1st right chunk
    hash_join.right.push_back(Message::Chunk(chunk_r1()));
    expect_chunk(
        hash_join.next(),
        vec![Op::Insert, Op::Insert, Op::Insert],
        [
            vec![Some(2), None, None],
            vec![Some(5), None, None],
            vec![Some(2), Some(4), Some(6)],
            vec![Some(7), Some(8), Some(9)],
        ],
    );

    // push the 2nd right chunk
    hash_join.right.push_back(Message::Chunk(chunk_r2));
    expect_chunk(
        hash_join.next(),
        vec![Op::Insert, Op::Delete],
        [vec![None, None], vec![None, None], vec![Some(5), Some(5)], vec![Some(10), Some(10)]],
    );
}

#[test]
fn test_streaming_hash_full_outer_join() {
    let chunk_r2 = StreamChunk {
        ops: vec![Op::Insert, Op::Delete],
        columns: vec![column_nonnull(vec![5, 5]), column_nonnull(vec![10, 10])],
        visibility: Some(vec![true, true]),
    };
    let mut hash_join = Harness::new(JoinType::FullOuter);

    // push the 1st left chunk
    hash_join.left.push_back(Message::Chunk(chunk_l1()));
    expect_chunk(
        hash_join.next(),
        vec![Op::Insert, Op::Insert, Op::Insert],
        [
            vec![Some(1), Some(2), Some(3)],
            vec![Some(4), Some(5), Some(6)],
            vec![None, None, None],
            vec![None, None, None],
        ],
    );

    // push the 2nd left chunk
    hash_join.left.push_back(Message::Chunk(chunk_l2()));
    expect_chunk(
        hash_join.next(),
        vec![Op::Insert, Op::Delete],
        [vec![Some(3), Some(3)], vec![Some(8), Some(8)], vec![None, None], vec![None, None]],
    );

    // push the 1st right chunk
    hash_join.right.push_back(Message::Chunk(chunk_r1()));
    expect_chunk(
        hash_join.next(),
        vec![Op::UpdateDelete, Op::UpdateInsert, Op::Insert, Op::Insert],
        [
            vec![Some(2), Some(2), None, None],
            vec![Some(5), Some(5), None, None],
            vec![None, Some(2), Some(4), Some(6)],
            vec![None, Some(7), Some(8), Some(9)],
        ],
    );

    // push the 2nd right chunk
    hash_join.right.push_back(Message::Chunk(chunk_r2));
    expect_chunk(
        hash_join.next(),
        vec![Op::Insert, Op::Delete],
        [vec![None, None], vec![None, None], vec![Some(5), Some(5)], vec![Some(10), Some(10)]],
    );
}

/// The operator is stopped at a barrier and started again from what the
/// store holds; what it puts out afterwards is what it puts out when it runs on.
#[test]
fn test_streaming_hash_join_recovers_from_store() {
    for join_type in [JoinType::Inner, JoinType::LeftOuter, JoinType::RightOuter, JoinType::FullOuter] {
        let chunk_r2 = || StreamChunk {
            ops: vec![Op::Insert, Op::Insert, Op::Delete],
            columns: vec![column_nonnull(vec![3, 6, 2]), column_nonnull(vec![10, 11, 7])],
            visibility: None,
        };
        let chunk_l3 = || StreamChunk {
            ops: vec![Op::Delete, Op::Insert],
            columns: vec![column_nonnull(vec![1, 4]), column_nonnull(vec![4, 9])],
            visibility: None,
        };
        let mut store = MemoryStateStore::new();
        let mut first = Harness::new(join_type);
        first.left.push_back(Message::Chunk(chunk_l1()));
        first.left.push_back(Message::Chunk(chunk_l2()));
        first.right.push_back(Message::Chunk(chunk_r1()));
        first.left.push_back(Message::Barrier(barrier(1)));
        first.right.push_back(Message::Barrier(barrier(1)));
        for _ in 0..3 {
            assert!(matches!(first.next(), Message::Chunk(_)));
        }
        let flushed = first.next_output();
        assert!(matches!(flushed.message, Message::Barrier(_)));
        assert_eq!(flushed.writes.len(), 2);
        for batch in &flushed.writes {
            store.ingest(batch, 1);
        }
        // left rows (1,4), (2,5), (3,6) and right rows (2,7), (4,8), (6,9): two cells each
        assert_eq!(store.scan(create_in_memory_keyspace().prefix(), None).len(), 12);

        let mut second = Harness::new(join_type);
        let ks = create_in_memory_keyspace();
        let cells_l = store.scan(ks.with_segment(&b"l".to_vec()).prefix(), None);
        let cells_r = store.scan(ks.with_segment(&b"r".to_vec()).prefix(), None);
        assert_eq!(cells_l.len(), 6);
        assert_eq!(cells_r.len(), 6);
        second.join.recover(&cells_l, &cells_r).unwrap();

        for harness in [&mut first, &mut second] {
            harness.right.push_back(Message::Chunk(chunk_r2()));
            harness.left.push_back(Message::Chunk(chunk_l3()));
        }
        for _ in 0..2 {
            let a = first.next();
            let b = second.next();
            match (a, b) {
                (Message::Chunk(a), Message::Chunk(b)) => {
                    assert_eq!(a.ops, b.ops);
                    assert_eq!(a.columns.len(), b.columns.len());
                    for i in 0..4 {
                        assert_eq!(a.columns[i].data, b.columns[i].data);
                    }
                    assert!(!a.ops.is_empty() || join_type == JoinType::Inner);
                }
                _ => unreachable!(),
            }
        }
    }
}

#[test]
fn a_plan_that_names_no_column_is_refused() {
    let info = |pk: Vec<usize>| ExecutorInfo { schema: schema(), pk_indices: pk, identity: String::new() };
    let build = |key_l: Vec<usize>, pk_l: Vec<usize>, key_r: Vec<usize>, pk_r: Vec<usize>| {
        HashJoinExecutor::new(
            JoinType::Inner,
            info(pk_l),
            info(pk_r),
            JoinParams::new(key_l),
            JoinParams::new(key_r),
            vec![],
            create_in_memory_keyspace(),
        )
        .map(|_| ())
    };
    assert_eq!(build(vec![0], vec![0, 1], vec![1], vec![1]), Ok(()));
    assert_eq!(build(vec![2], vec![0, 1], vec![0], vec![0]), Err(StreamError::InvalidPlan));
    assert_eq!(build(vec![0], vec![0, 2], vec![0], vec![0]), Err(StreamError::InvalidPlan));
    assert_eq!(build(vec![0], vec![0], vec![0, 5], vec![0]), Err(StreamError::InvalidPlan));
    assert_eq!(build(vec![0], vec![0], vec![0], vec![9]), Err(StreamError::InvalidPlan));
}

#[test]
fn the_output_has_the_left_columns_first() {
    let left = ExecutorInfo {
        schema: Schema { fields: vec![Field { data_type: DataType::Int16 }] },
        pk_indices: vec![0],
        identity: String::new(),
    };
    let right = ExecutorInfo {
        schema: Schema {
            fields: vec![Field { data_type: DataType::Int64 }, Field { data_type: DataType::Boolean }],
        },
        pk_indices: vec![0],
        identity: String::new(),
    };
    let mut join = HashJoinExecutor::new(
        JoinType::RightOuter,
        left,
        right,
        JoinParams::new(vec![]),
        JoinParams::new(vec![]),
        vec![2, 0],
        create_in_memory_keyspace(),
    )
    .unwrap();
    let types: Vec<DataType> = join.schema().fields.iter().map(|f| f.data_type).collect();
    assert_eq!(types, vec![DataType::Int16, DataType::Int64, DataType::Boolean]);
    assert_eq!(join.pk_indices(), &vec![2, 0]);
    // without key columns every row matches every row
    let right_chunk = StreamChunk {
        ops: vec![Op::Insert],
        columns: vec![
            Column::new(vec![Some(ScalarImpl::Int64(7))]),
            Column::new(vec![Some(ScalarImpl::Bool(true))]),
        ],
        visibility: None,
    };
    let out = join.next(SideType::Right, Ok(Message::Chunk(right_chunk))).unwrap().unwrap();
    match out.message {
        Message::Chunk(c) => {
            assert_eq!(c.ops, vec![Op::Insert]);
            assert_eq!(c.columns[0].data, vec![None]);
            assert_eq!(c.columns[1].data, vec![Some(ScalarImpl::Int64(7))]);
            assert_eq!(c.columns[2].data, vec![Some(ScalarImpl::Bool(true))]);
        }
        Message::Barrier(_) => unreachable!(),
    }
    let left_chunk = StreamChunk {
        ops: vec![Op::Insert],
        columns: vec![Column::new(vec![Some(ScalarImpl::Int16(1))])],
        visibility: None,
    };
    let out = join.next(SideType::Left, Ok(Message::Chunk(left_chunk))).unwrap().unwrap();
    match out.message {
        Message::Chunk(c) => {
            assert_eq!(c.ops, vec![Op::UpdateDelete, Op::UpdateInsert]);
            assert_eq!(c.columns[0].data, vec![None, Some(ScalarImpl::Int16(1))]);
            assert_eq!(c.columns[1].data, vec![Some(ScalarImpl::Int64(7)); 2]);
        }
        Message::Barrier(_) => unreachable!(),
    }
}

#[test]
fn chunks_that_do_not_fit_are_refused_and_change_nothing() {
    let mut hash_join = Harness::new(JoinType::Inner);
    let narrow = StreamChunk {
        ops: vec![Op::Insert],
        columns: vec![column_nonnull(vec![2])],
        visibility: None,
    };
    assert_eq!(
        hash_join.join.next(SideType::Left, Ok(Message::Chunk(narrow))).unwrap_err(),
        StreamError::WidthMismatch
    );
    let ragged = StreamChunk {
        ops: vec![Op::Insert],
        columns: vec![column_nonnull(vec![2]), column_nonnull(vec![5, 6])],
        visibility: None,
    };
    assert_eq!(
        hash_join.join.next(SideType::Left, Ok(Message::Chunk(ragged))).unwrap_err(),
        StreamError::MalformedChunk
    );
    let short_visibility = StreamChunk { visibility: Some(vec![true]), ..chunk_l1() };
    assert_eq!(
        hash_join.join.next(SideType::Left, Ok(Message::Chunk(short_visibility))).unwrap_err(),
        StreamError::MalformedChunk
    );
    assert_eq!(
        hash_join.join.next(SideType::Right, Err(StreamError::Upstream)).unwrap_err(),
        StreamError::Upstream
    );
    // nothing was taken: the left side still holds no row
    hash_join.right.push_back(Message::Chunk(chunk_r1()));
    expect_empty(hash_join.next());
}

#[test]
fn rows_are_put_back_only_into_a_fresh_operator() {
    let mut store = MemoryStateStore::new();
    let mut first = Harness::new(JoinType::Inner);
    first.left.push_back(Message::Chunk(chunk_l1()));
    first.left.push_back(Message::Barrier(barrier(1)));
    first.right.push_back(Message::Barrier(barrier(1)));
    first.next();
    for batch in &first.next_output().writes {
        store.ingest(batch, 1);
    }
    let ks = create_in_memory_keyspace();
    let cells_l = store.scan(ks.with_segment(&b"l".to_vec()).prefix(), None);
    let cells_r = store.scan(ks.with_segment(&b"r".to_vec()).prefix(), None);
    assert_eq!((cells_l.len(), cells_r.len()), (6, 0));
    assert_eq!(first.join.recover(&cells_l, &cells_r), Err(StreamError::NotFresh));

    let mut second = Harness::new(JoinType::Inner);
    // the cells of the left side are no cells of the right side
    assert_eq!(second.join.recover(&cells_r, &cells_l), Err(StreamError::CorruptState));
    assert_eq!(second.join.recover(&cells_l[..5].to_vec(), &cells_r), Err(StreamError::CorruptState));
    // the refusals changed nothing
    assert_eq!(second.join.recover(&cells_l, &cells_r), Ok(()));
    second.right.push_back(Message::Chunk(chunk_r1()));
    expect_chunk(
        second.next(),
        vec![Op::Insert],
        [vec![Some(2)], vec![Some(5)], vec![Some(2)], vec![Some(7)]],
    );
}

#[test]
fn values_have_to_be_of_the_type_of_their_column() {
    let mut hash_join = Harness::new(JoinType::LeftOuter);
    let wrong = StreamChunk {
        ops: vec![Op::Insert, Op::Insert],
        columns: vec![
            column_nonnull(vec![1, 2]),
            Column::new(vec![Some(ScalarImpl::Int64(4)), Some(ScalarImpl::Int32(5))]),
        ],
        visibility: None,
    };
    assert_eq!(
        hash_join.join.next(SideType::Left, Ok(Message::Chunk(wrong))).unwrap_err(),
        StreamError::TypeMismatch
    );
    // a hidden value is not looked at, and NULL is of every type
    let hidden = StreamChunk {
        ops: vec![Op::Insert, Op::Insert],
        columns: vec![
            column_nonnull(vec![1, 2]),
            Column::new(vec![None, Some(ScalarImpl::Int32(5))]),
        ],
        visibility: Some(vec![true, false]),
    };
    let out = hash_join.join.next(SideType::Left, Ok(Message::Chunk(hidden))).unwrap().unwrap();
    match out.message {
        Message::Chunk(c) => {
            assert_eq!(c.ops, vec![Op::Insert]);
            assert_eq!(c.columns[1].data, vec![None]);
        }
        Message::Barrier(_) => unreachable!(),
    }
}

#[test]
fn cells_of_rows_of_other_types_are_not_put_back() {
    let mut store = MemoryStateStore::new();
    let mut first = Harness::new(JoinType::Inner);
    first.left.push_back(Message::Chunk(chunk_l1()));
    first.left.push_back(Message::Barrier(barrier(1)));
    first.right.push_back(Message::Barrier(barrier(1)));
    first.next();
    for batch in &first.next_output().writes {
        store.ingest(batch, 1);
    }
    let ks = create_in_memory_keyspace();
    let cells_l = store.scan(ks.with_segment(&b"l".to_vec()).prefix(), None);
    let narrow = |name: &str| ExecutorInfo {
        schema: Schema {
            fields: vec![Field { data_type: DataType::Int64 }, Field { data_type: DataType::Int32 }],
        },
        pk_indices: vec![0, 1],
        identity: name.to_string(),
    };
    let mut other = HashJoinExecutor::new(
        JoinType::Inner,
        narrow("l"),
        narrow("r"),
        JoinParams::new(vec![0]),
        JoinParams::new(vec![0]),
        vec![],
        create_in_memory_keyspace(),
    )
    .unwrap();
    assert_eq!(other.recover(&cells_l, &vec![]), Err(StreamError::CorruptState));
}
