use stream_join::codec::OrderType;
use stream_join::error::StreamError;
use stream_join::executor::{Barrier, ExecutorInfo, Message};
use stream_join::handler::{handle, Handler, HandlerError, ObjectType, Statement};
use stream_join::plan::{
    create_executor, info_from_v1, key_indices_of, next_of_stream, step_of_answer, Builder,
    ExecutorParams, FilterExecutorBuilder, FilterNode, Node, SimpleAggExecutorBuilder,
    SimpleAggNode, StreamStep, TopNExecutorBuilder, TopNNode,
};
use stream_join::storage::Keyspace;
use stream_join::types::{DataType, Field, Schema};

fn input(name: &str) -> ExecutorInfo {
    ExecutorInfo {
        schema: Schema::new(vec![Field { data_type: DataType::Int32 }]),
        pk_indices: vec![0],
        identity: name.to_string(),
    }
}

fn params(inputs: Vec<ExecutorInfo>) -> ExecutorParams {
    ExecutorParams { input: inputs, pk_indices: vec![0, 1], executor_id: 0x2333, op_info: "op".to_string() }
}

#[test]
fn each_node_has_its_builder() {
    assert_eq!(create_executor(Node::SourceNode), Ok(Builder::SourceExecutorBuilder));
    assert_eq!(create_executor(Node::GlobalSimpleAggNode), Ok(Builder::SimpleAggExecutorBuilder));
    assert_eq!(create_executor(Node::BatchPlanNode), Ok(Builder::BatchQueryExecutorBuilder));
    assert_eq!(create_executor(Node::HashJoinNode), Ok(Builder::HashJoinExecutorBuilder));
    assert_eq!(create_executor(Node::UnionNode), Ok(Builder::UnionExecutorBuilder));
    assert_eq!(create_executor(Node::Unsupported), Err(StreamError::UnsupportedNode));
}

#[test]
fn a_top_n_executor_is_planned() {
    let node = TopNNode {
        order_types: vec![1, 2],
        limit: 0,
        offset: 3,
        distribution_keys: vec![1, 0],
    };
    let plan = TopNExecutorBuilder::new_boxed_executor(params(vec![input("a"), input("b")]), &node)
        .unwrap();
    assert_eq!(plan.input.identity, "a");
    assert_eq!(plan.order_types, vec![OrderType::Ascending, OrderType::Descending]);
    assert_eq!((plan.offset, plan.limit), (3, None));
    assert_eq!(plan.cache_size, Some(1024));
    assert_eq!(plan.total_count, (0, 0, 0));
    assert_eq!(plan.key_indices, vec![1, 0]);
    assert_eq!(plan.pk_indices, vec![0, 1]);
    assert_eq!(plan.keyspace.prefix(), Keyspace::executor_root(0x2333).prefix());
    assert_eq!(plan.keyspace.prefix(), &vec![b'e', 0, 0, 0, 0, 0, 0, 0x23, 0x33]);

    let limited = TopNNode { order_types: vec![2, 2], limit: 10, offset: 0, distribution_keys: vec![] };
    let plan = TopNExecutorBuilder::new_boxed_executor(params(vec![input("a")]), &limited).unwrap();
    assert_eq!(plan.limit, Some(10));
}

#[test]
fn a_top_n_node_that_cannot_be_built_is_refused() {
    let build = |order_types: Vec<i32>, keys: Vec<i32>, inputs: Vec<ExecutorInfo>| {
        let node = TopNNode { order_types, limit: 1, offset: 0, distribution_keys: keys };
        TopNExecutorBuilder::new_boxed_executor(params(inputs), &node).map(|_| ())
    };
    assert_eq!(build(vec![1, 2], vec![], vec![input("a")]), Ok(()));
    assert_eq!(build(vec![1, 0], vec![], vec![input("a")]), Err(StreamError::InvalidPlan));
    assert_eq!(build(vec![1], vec![], vec![input("a")]), Err(StreamError::InvalidPlan));
    assert_eq!(build(vec![1, 2], vec![-1], vec![input("a")]), Err(StreamError::InvalidPlan));
    assert_eq!(build(vec![1, 2], vec![], vec![]), Err(StreamError::InvalidPlan));
}

#[test]
fn an_aggregation_keeps_one_keyspace_for_each_table() {
    let node = SimpleAggNode { table_ids: vec![1, 258], distribution_keys: vec![2] };
    let plan = SimpleAggExecutorBuilder::new_boxed_executor(params(vec![input("a")]), &node).unwrap();
    assert_eq!(plan.keyspace.len(), 2);
    assert_eq!(plan.keyspace[0].prefix(), &vec![b't', 0, 0, 0, 1]);
    assert_eq!(plan.keyspace[1].prefix(), &vec![b't', 0, 0, 1, 2]);
    assert_eq!(plan.key_indices, vec![2]);
    assert_eq!(plan.op_info, "op");
    assert_eq!(plan.executor_id, 0x2333);
    assert!(SimpleAggExecutorBuilder::new_boxed_executor(params(vec![]), &node).is_err());
    assert_eq!(key_indices_of(&vec![0, 5]), Some(vec![0, 5]));
    assert_eq!(key_indices_of(&vec![0, -5]), None);
}

#[test]
fn a_filter_needs_its_condition() {
    let plan = FilterExecutorBuilder::new_boxed_executor(
        params(vec![input("a")]),
        FilterNode { search_condition: Some(vec![1, 2]) },
    )
    .unwrap();
    assert_eq!(plan.search_condition, vec![1, 2]);
    assert_eq!(plan.input.identity, "a");
    assert!(FilterExecutorBuilder::new_boxed_executor(
        params(vec![input("a")]),
        FilterNode { search_condition: None }
    )
    .is_err());
    assert!(FilterExecutorBuilder::new_boxed_executor(
        params(vec![]),
        FilterNode { search_condition: Some(vec![]) }
    )
    .is_err());
}

#[test]
fn the_end_of_a_stream_is_the_error_eof_and_back() {
    assert_eq!(next_of_stream(None).unwrap_err(), StreamError::Eof);
    assert_eq!(next_of_stream(Some(Err(StreamError::Upstream))).unwrap_err(), StreamError::Upstream);
    assert!(next_of_stream(Some(Ok(Message::Barrier(Barrier::new_test_barrier(1))))).is_ok());
    assert!(matches!(step_of_answer(Err(StreamError::Eof)), StreamStep::Finish));
    assert!(matches!(
        step_of_answer(Err(StreamError::Storage)),
        StreamStep::Fail(StreamError::Storage)
    ));
    assert!(matches!(
        step_of_answer(Ok(Message::Barrier(Barrier::new_test_barrier(1)))),
        StreamStep::Yield(Message::Barrier(_))
    ));
    let info = info_from_v1(Schema::new(vec![]), vec![3], "Filter");
    assert_eq!(info.identity, "Filter");
    assert_eq!(info.pk_indices, vec![3]);
}

#[test]
fn each_statement_has_its_handler() {
    assert_eq!(handle(Statement::Explain { verbose: true }), Ok(Handler::Explain { verbose: true }));
    assert_eq!(handle(Statement::ShowColumn), Ok(Handler::Describe));
    assert_eq!(handle(Statement::Describe), Ok(Handler::Describe));
    assert_eq!(handle(Statement::Insert), Ok(Handler::Dml));
    assert_eq!(handle(Statement::Delete), Ok(Handler::Dml));
    assert_eq!(handle(Statement::Drop { object_type: ObjectType::Table }), Ok(Handler::DropTable));
    assert_eq!(
        handle(Statement::Drop { object_type: ObjectType::MaterializedView }),
        Ok(Handler::DropMv)
    );
    assert_eq!(handle(Statement::Drop { object_type: ObjectType::Source }), Ok(Handler::DropSource));
    assert_eq!(
        handle(Statement::Drop { object_type: ObjectType::Index }),
        Err(HandlerError::DropUnsupported(ObjectType::Index))
    );
    assert_eq!(
        handle(Statement::CreateView { materialized: true, or_replace: false }),
        Ok(Handler::CreateMv)
    );
    assert_eq!(
        handle(Statement::CreateView { materialized: true, or_replace: true }),
        Err(HandlerError::UnhandledAst)
    );
    assert_eq!(
        handle(Statement::CreateView { materialized: false, or_replace: false }),
        Err(HandlerError::UnhandledAst)
    );
    assert_eq!(
        handle(Statement::CreateIndex { unique: true, if_not_exists: true }),
        Err(HandlerError::CreateUniqueIndex)
    );
    assert_eq!(
        handle(Statement::CreateIndex { unique: false, if_not_exists: true }),
        Err(HandlerError::CreateIfNotExistsIndex)
    );
    assert_eq!(
        handle(Statement::CreateIndex { unique: false, if_not_exists: false }),
        Ok(Handler::CreateIndex)
    );
    assert_eq!(handle(Statement::SetVariable), Ok(Handler::SetVariable));
    assert_eq!(handle(Statement::Other), Err(HandlerError::UnhandledAst));
}
