//! From the nodes of a plan to what their executors are made of.

use vstd::prelude::*;
use crate::codec::{be32, be64, OrderType};
use crate::error::StreamError;
use crate::executor::{ExecutorInfo, Message};
use crate::storage::Keyspace;
use crate::types::Schema;

verus! {

/// The kinds of nodes of a stream plan.
#[derive(Clone, Copy, Debug, PartialEq, Eq, Structural)]
pub enum Node {
    SourceNode,
    ProjectNode,
    TopNNode,
    AppendOnlyTopNNode,
    LocalSimpleAggNode,
    GlobalSimpleAggNode,
    HashAggNode,
    HashJoinNode,
    HopWindowNode,
    ChainNode,
    BatchPlanNode,
    MergeNode,
    MaterializeNode,
    FilterNode,
    ArrangeNode,
    LookupNode,
    UnionNode,
    /// A node that no executor is built for.
    Unsupported,
}

/// The builders of executors.
#[derive(Clone, Copy, Debug, PartialEq, Eq, Structural)]
pub enum Builder {
    SourceExecutorBuilder,
    ProjectExecutorBuilder,
    TopNExecutorBuilder,
    AppendOnlyTopNExecutorBuilder,
    LocalSimpleAggExecutorBuilder,
    SimpleAggExecutorBuilder,
    HashAggExecutorBuilder,
    HashJoinExecutorBuilder,
    HopWindowExecutorBuilder,
    ChainExecutorBuilder,
    BatchQueryExecutorBuilder,
    MergeExecutorBuilder,
    MaterializeExecutorBuilder,
    FilterExecutorBuilder,
    ArrangeExecutorBuilder,
    LookupExecutorBuilder,
    UnionExecutorBuilder,
}

/// The builder of the executor of each kind of node.
pub open spec fn builder_of(node: Node) -> Option<Builder> {
    match node {
        Node::SourceNode => Some(Builder::SourceExecutorBuilder),
        Node::ProjectNode => Some(Builder::ProjectExecutorBuilder),
        Node::TopNNode => Some(Builder::TopNExecutorBuilder),
        Node::AppendOnlyTopNNode => Some(Builder::AppendOnlyTopNExecutorBuilder),
        Node::LocalSimpleAggNode => Some(Builder::LocalSimpleAggExecutorBuilder),
        Node::GlobalSimpleAggNode => Some(Builder::SimpleAggExecutorBuilder),
        Node::HashAggNode => Some(Builder::HashAggExecutorBuilder),
        Node::HashJoinNode => Some(Builder::HashJoinExecutorBuilder),
        Node::HopWindowNode => Some(Builder::HopWindowExecutorBuilder),
        Node::ChainNode => Some(Builder::ChainExecutorBuilder),
        Node::BatchPlanNode => Some(Builder::BatchQueryExecutorBuilder),
        Node::MergeNode => Some(Builder::MergeExecutorBuilder),
        Node::MaterializeNode => Some(Builder::MaterializeExecutorBuilder),
        Node::FilterNode => Some(Builder::FilterExecutorBuilder),
        Node::ArrangeNode => Some(Builder::ArrangeExecutorBuilder),
        Node::LookupNode => Some(Builder::LookupExecutorBuilder),
        Node::UnionNode => Some(Builder::UnionExecutorBuilder),
        Node::Unsupported => None,
    }
}

/// The builder that makes the executor of `node`. Refused for a node that
/// no executor is built for.
pub fn create_executor(node: Node) -> (r: Result<Builder, StreamError>)
    ensures
        match builder_of(node) {
            Some(b) => r == Ok::<Builder, StreamError>(b),
            None => r == Err::<Builder, StreamError>(StreamError::UnsupportedNode),
        },
{
    match node {
        Node::SourceNode => Ok(Builder::SourceExecutorBuilder),
        Node::ProjectNode => Ok(Builder::ProjectExecutorBuilder),
        Node::TopNNode => Ok(Builder::TopNExecutorBuilder),
        Node::AppendOnlyTopNNode => Ok(Builder::AppendOnlyTopNExecutorBuilder),
        Node::LocalSimpleAggNode => Ok(Builder::LocalSimpleAggExecutorBuilder),
        Node::GlobalSimpleAggNode => Ok(Builder::SimpleAggExecutorBuilder),
        Node::HashAggNode => Ok(Builder::HashAggExecutorBuilder),
        Node::HashJoinNode => Ok(Builder::HashJoinExecutorBuilder),
        Node::HopWindowNode => Ok(Builder::HopWindowExecutorBuilder),
        Node::ChainNode => Ok(Builder::ChainExecutorBuilder),
        Node::BatchPlanNode => Ok(Builder::BatchQueryExecutorBuilder),
        Node::MergeNode => Ok(Builder::MergeExecutorBuilder),
        Node::MaterializeNode => Ok(Builder::MaterializeExecutorBuilder),
        Node::FilterNode => Ok(Builder::FilterExecutorBuilder),
        Node::ArrangeNode => Ok(Builder::ArrangeExecutorBuilder),
        Node::LookupNode => Ok(Builder::LookupExecutorBuilder),
        Node::UnionNode => Ok(Builder::UnionExecutorBuilder),
        Node::Unsupported => Err(StreamError::UnsupportedNode),
    }
}

/// What every builder is handed: the outputs of the inputs of the executor,
/// the primary key of its output, and its id.
#[derive(Debug)]
pub struct ExecutorParams {
    pub input: Vec<ExecutorInfo>,
    pub pk_indices: Vec<usize>,
    pub executor_id: u64,
    pub op_info: String,
}

/// The columns that the numbers of a plan name, if none of them is negative
/// or more than an index can hold.
pub open spec fn columns_of(keys: Seq<i32>) -> Option<Seq<usize>> {
    if forall|i: int| 0 <= i < keys.len() ==> 0 <= #[trigger] keys[i] <= usize::MAX {
        Some(Seq::new(keys.len(), |i: int| keys[i] as usize))
    } else {
        None
    }
}

/// The columns that the numbers of a plan name.
pub fn key_indices_of(keys: &Vec<i32>) -> (r: Option<Vec<usize>>)
    ensures
        match columns_of(keys@) {
            Some(cols) => r matches Some(v) && v@ == cols,
            None => r.is_none(),
        },
{
    let mut out: Vec<usize> = Vec::new();
    let mut i: usize = 0;
    while i < keys.len()
        invariant
            i <= keys.len(),
            out@.len() == i,
            forall|k: int| 0 <= k < i ==> 0 <= #[trigger] keys@[k] <= usize::MAX,
            forall|k: int| 0 <= k < i ==> #[trigger] out@[k] == keys@[k] as usize,
        decreases keys.len() - i,
    {
        let key = keys[i];
        if key < 0 || key as u64 > usize::MAX as u64 {
            return None;
        }
        out.push(key as usize);
        i += 1;
    }
    assert(out@ =~= Seq::new(keys@.len(), |i: int| keys@[i] as usize));
    Some(out)
}

/// The direction that a number of a plan stands for: `1` ascends, `2` descends.
pub open spec fn order_of_code(code: i32) -> Option<OrderType> {
    if code == 1 {
        Some(OrderType::Ascending)
    } else if code == 2 {
        Some(OrderType::Descending)
    } else {
        None
    }
}

/// A node that keeps the first rows of its input by some order.
#[derive(Debug)]
pub struct TopNNode {
    pub order_types: Vec<i32>,
    pub limit: u64,
    pub offset: u64,
    pub distribution_keys: Vec<i32>,
}

/// What the executor of a `TopNNode` is made of.
#[derive(Debug)]
pub struct TopNPlan {
    pub input: ExecutorInfo,
    pub order_types: Vec<OrderType>,
    pub offset: usize,
    pub limit: Option<usize>,
    pub pk_indices: Vec<usize>,
    pub keyspace: Keyspace,
    pub cache_size: Option<usize>,
    pub total_count: (usize, usize, usize),
    pub executor_id: u64,
    pub key_indices: Vec<usize>,
}

pub struct TopNExecutorBuilder {}

/// Whether a `TopNNode` with these parameters can be built.
pub open spec fn top_n_buildable(params: ExecutorParams, node: TopNNode) -> bool {
    &&& params.input@.len() > 0
    &&& forall|i: int|
        0 <= i < node.order_types@.len() ==> order_of_code(#[trigger] node.order_types@[i]).is_some()
    &&& node.order_types@.len() == params.pk_indices@.len()
    &&& node.limit <= usize::MAX
    &&& node.offset <= usize::MAX
    &&& columns_of(node.distribution_keys@).is_some()
}

impl TopNExecutorBuilder {
    /// What the executor of `node` is made of: the first input, one
    /// direction for each column of the primary key, no limit where the node
    /// says `0`, a cache of 1024 rows, counts that start from zero, and the
    /// keyspace of the executor. Refused where there is no input, a direction
    /// or a column is none, or there is not one direction for each column of
    /// the primary key.
    pub fn new_boxed_executor(params: ExecutorParams, node: &TopNNode) -> (r: Result<
        TopNPlan,
        StreamError,
    >)
        ensures
            r.is_ok() == top_n_buildable(params, *node),
            r matches Err(e) ==> e == StreamError::InvalidPlan,
            r matches Ok(p) ==> {
                &&& p.input == params.input@[0]
                &&& p.order_types@.len() == node.order_types@.len()
                &&& forall|i: int|
                    0 <= i < p.order_types@.len() ==> Some(#[trigger] p.order_types@[i])
                        == order_of_code(node.order_types@[i])
                &&& p.offset == node.offset
                &&& p.limit == if node.limit == 0 {
                    None
                } else {
                    Some(node.limit as usize)
                }
                &&& p.pk_indices == params.pk_indices
                &&& p.keyspace@ == seq![0x65u8] + be64(params.executor_id as nat)
                &&& p.cache_size == Some(1024usize)
                &&& p.total_count == (0usize, 0usize, 0usize)
                &&& p.executor_id == params.executor_id
                &&& Some(p.key_indices@) == columns_of(node.distribution_keys@)
            },
    {
        let mut params = params;
        let mut order_types: Vec<OrderType> = Vec::new();
        let mut i: usize = 0;
        while i < node.order_types.len()
            invariant
                i <= node.order_types.len(),
                order_types@.len() == i,
                forall|k: int|
                    0 <= k < i ==> Some(#[trigger] order_types@[k]) == order_of_code(
                        node.order_types@[k],
                    ),
            decreases node.order_types.len() - i,
        {
            let code = node.order_types[i];
            if code == 1 {
                order_types.push(OrderType::Ascending);
            } else if code == 2 {
                order_types.push(OrderType::Descending);
            } else {
                assert(order_of_code(node.order_types@[i as int]).is_none());
                return Err(StreamError::InvalidPlan);
            }
            i += 1;
        }
        assert forall|k: int| 0 <= k < node.order_types@.len() implies order_of_code(
            #[trigger] node.order_types@[k],
        ).is_some() by {
            assert(Some(order_types@[k]) == order_of_code(node.order_types@[k]));
        }
        if order_types.len() != params.pk_indices.len() {
            return Err(StreamError::InvalidPlan);
        }
        if node.limit > usize::MAX as u64 || node.offset > usize::MAX as u64 {
            return Err(StreamError::InvalidPlan);
        }
        let limit = if node.limit == 0 {
            None
        } else {
            Some(node.limit as usize)
        };
        let key_indices = match key_indices_of(&node.distribution_keys) {
            Some(k) => k,
            None => {
                return Err(StreamError::InvalidPlan);
            },
        };
        if params.input.len() == 0 {
            return Err(StreamError::InvalidPlan);
        }
        let input = params.input.remove(0);
        Ok(
            TopNPlan {
                input,
                order_types,
                offset: node.offset as usize,
                limit,
                pk_indices: params.pk_indices,
                keyspace: Keyspace::executor_root(params.executor_id),
                cache_size: Some(1024),
                total_count: (0, 0, 0),
                executor_id: params.executor_id,
                key_indices,
            },
        )
    }
}

/// A node that aggregates all the rows of its input.
#[derive(Debug)]
pub struct SimpleAggNode {
    /// The tables in which the aggregation calls keep their states, one for each call.
    pub table_ids: Vec<u32>,
    pub distribution_keys: Vec<i32>,
}

/// What the executor of a `SimpleAggNode` is made of.
#[derive(Debug)]
pub struct SimpleAggPlan {
    pub input: ExecutorInfo,
    /// One keyspace for each aggregation call.
    pub keyspace: Vec<Keyspace>,
    pub pk_indices: Vec<usize>,
    pub executor_id: u64,
    pub op_info: String,
    pub key_indices: Vec<usize>,
}

pub struct SimpleAggExecutorBuilder {}

impl SimpleAggExecutorBuilder {
    /// What the executor of `node` is made of: the first input, and for each
    /// table of the node the keyspace of that table. Refused where there is
    /// no input or a column is none.
    pub fn new_boxed_executor(params: ExecutorParams, node: &SimpleAggNode) -> (r: Result<
        SimpleAggPlan,
        StreamError,
    >)
        ensures
            r.is_ok() == (params.input@.len() > 0 && columns_of(node.distribution_keys@).is_some()),
            r matches Err(e) ==> e == StreamError::InvalidPlan,
            r matches Ok(p) ==> {
                &&& p.input == params.input@[0]
                &&& p.keyspace@.len() == node.table_ids@.len()
                &&& forall|i: int|
                    0 <= i < p.keyspace@.len() ==> (#[trigger] p.keyspace@[i])@ == seq![0x74u8]
                        + be32(node.table_ids@[i] as nat)
                &&& p.pk_indices == params.pk_indices
                &&& p.executor_id == params.executor_id
                &&& p.op_info == params.op_info
                &&& Some(p.key_indices@) == columns_of(node.distribution_keys@)
            },
    {
        let mut params = params;
        let mut keyspace: Vec<Keyspace> = Vec::new();
        let mut i: usize = 0;
        while i < node.table_ids.len()
            invariant
                i <= node.table_ids.len(),
                keyspace@.len() == i,
                forall|k: int|
                    0 <= k < i ==> (#[trigger] keyspace@[k])@ == seq![0x74u8] + be32(
                        node.table_ids@[k] as nat,
                    ),
            decreases node.table_ids.len() - i,
        {
            keyspace.push(Keyspace::table_root(node.table_ids[i]));
            i += 1;
        }
        let key_indices = match key_indices_of(&node.distribution_keys) {
            Some(k) => k,
            None => {
                return Err(StreamError::InvalidPlan);
            },
        };
        if params.input.len() == 0 {
            return Err(StreamError::InvalidPlan);
        }
        let input = params.input.remove(0);
        Ok(
            SimpleAggPlan {
                input,
                keyspace,
                pk_indices: params.pk_indices,
                executor_id: params.executor_id,
                op_info: params.op_info,
                key_indices,
            },
        )
    }
}

/// A node that keeps the rows of its input that meet a condition.
#[derive(Debug)]
pub struct FilterNode {
    /// The condition, as the plan holds it.
    pub search_condition: Option<Vec<u8>>,
}

/// What the executor of a `FilterNode` is made of.
#[derive(Debug)]
pub struct FilterPlan {
    pub input: ExecutorInfo,
    pub search_condition: Vec<u8>,
    pub executor_id: u64,
}

pub struct FilterExecutorBuilder;

impl FilterExecutorBuilder {
    /// What the executor of `node` is made of: the first input and the
    /// condition. Refused where the node has no condition or there is no input.
    pub fn new_boxed_executor(params: ExecutorParams, node: FilterNode) -> (r: Result<
        FilterPlan,
        StreamError,
    >)
        ensures
            r.is_ok() == (node.search_condition.is_some() && params.input@.len() > 0),
            r matches Err(e) ==> e == StreamError::InvalidPlan,
            r matches Ok(p) ==> p.input == params.input@[0] && p.search_condition
                == node.search_condition.unwrap() && p.executor_id == params.executor_id,
    {
        let mut params = params;
        let search_condition = match node.search_condition {
            Some(c) => c,
            None => {
                return Err(StreamError::InvalidPlan);
            },
        };
        if params.input.len() == 0 {
            return Err(StreamError::InvalidPlan);
        }
        let input = params.input.remove(0);
        Ok(FilterPlan { input, search_condition, executor_id: params.executor_id })
    }
}

/// What an executor of the first kind answers where a stream of the second
/// kind has yielded `item`: the message or the error as it is, and the error
/// `Eof` where the stream has ended.
pub fn next_of_stream(item: Option<Result<Message, StreamError>>) -> (r: Result<
    Message,
    StreamError,
>)
    ensures
        r == match item {
            Some(result) => result,
            None => Err(StreamError::Eof),
        },
{
    match item {
        Some(result) => result,
        None => Err(StreamError::Eof),
    }
}

/// What a stream of the second kind does with the answer of an executor of
/// the first kind.
#[derive(Debug)]
pub enum StreamStep {
    /// The stream yields the message and asks again.
    Yield(Message),
    /// The stream ends.
    Finish,
    /// The stream ends with the error.
    Fail(StreamError),
}

/// What a stream of the second kind does with `msg`, the answer of an
/// executor of the first kind: the error `Eof` ends the stream, any other
/// error ends it with that error, and a message is yielded.
pub fn step_of_answer(msg: Result<Message, StreamError>) -> (r: StreamStep)
    ensures
        r == match msg {
            Ok(m) => StreamStep::Yield(m),
            Err(e) => if e == StreamError::Eof {
                StreamStep::Finish
            } else {
                StreamStep::Fail(e)
            },
        },
{
    match msg {
        Ok(m) => StreamStep::Yield(m),
        Err(StreamError::Eof) => StreamStep::Finish,
        Err(e) => StreamStep::Fail(e),
    }
}

/// What an executor says of its output where it is made from an executor of
/// the first kind: the schema and the primary key given, under the name `identity`.
pub fn info_from_v1(schema: Schema, pk_indices: Vec<usize>, identity: &str) -> (info: ExecutorInfo)
    ensures
        info.schema == schema,
        info.pk_indices == pk_indices,
        info.identity@ == identity@,
{
    ExecutorInfo { schema, pk_indices, identity: identity.to_owned() }
}

} // verus!
