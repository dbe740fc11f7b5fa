//! The data types of the primary key of an operator's output.

use vstd::prelude::*;
use smallvec::SmallVec;
use crate::error::StreamError;
use crate::types::{indices_within, DataType, Schema};

verus! {

/// The data types of a primary key, in a `smallvec::SmallVec` that keeps
/// the first of them in place.
#[verifier::external_body]
#[derive(Debug)]
pub struct PkDataTypes {
    inner: SmallVec<[DataType; 1]>,
}

/// The items that a vector of data types holds, in order.
pub uninterp spec fn items_of(types: PkDataTypes) -> Seq<DataType>;

/// A vector of data types is given no more items than this, so that the
/// capacity it grows to can always be counted and allocated.
pub const MAX_PK_COLUMNS: usize = 0x1000_0000;

/// `SmallVec::new`: an empty vector.
#[verifier::external_body]
fn new_types() -> (types: PkDataTypes)
    ensures
        items_of(types) == Seq::<DataType>::empty(),
{
    PkDataTypes { inner: SmallVec::new() }
}

/// `SmallVec::push`: the item is appended at the end. The vector grows to
/// the next power of two where it is full, and panics where that capacity
/// overflows; a vector of fewer than `MAX_PK_COLUMNS` items is far from it.
#[verifier::external_body]
fn push_type(types: &mut PkDataTypes, data_type: DataType)
    requires
        items_of(*old(types)).len() < MAX_PK_COLUMNS,
    ensures
        items_of(*final(types)) == items_of(*old(types)).push(data_type),
{
    types.inner.push(data_type)
}

/// `SmallVec::as_slice`: a slice of the whole vector.
#[verifier::external_body]
fn slice_of(types: &PkDataTypes) -> (items: &[DataType])
    ensures
        items@ == items_of(*types),
{
    types.inner.as_slice()
}

impl PkDataTypes {
    /// The data types, in order.
    pub fn to_vec(&self) -> (out: Vec<DataType>)
        ensures
            out@ == items_of(*self),
    {
        let items = slice_of(self);
        let mut out: Vec<DataType> = Vec::new();
        let mut i: usize = 0;
        while i < items.len()
            invariant
                i <= items.len(),
                out@ == items@.subrange(0, i as int),
            decreases items.len() - i,
        {
            out.push(items[i]);
            assert(out@ == items@.subrange(0, i + 1));
            i += 1;
        }
        assert(items@.subrange(0, items@.len() as int) == items@);
        out
    }
}

/// The data types of the columns `pk_indices` of `schema`, in the order of
/// `pk_indices`. Refused where an index names no column of the schema, or
/// there are more than `MAX_PK_COLUMNS` of them.
pub fn pk_data_types(schema: &Schema, pk_indices: &Vec<usize>) -> (r: Result<
    PkDataTypes,
    StreamError,
>)
    ensures
        r.is_ok() == (indices_within(pk_indices@, schema@.len()) && pk_indices@.len()
            <= MAX_PK_COLUMNS),
        r matches Err(e) ==> e == StreamError::InvalidPlan,
        r matches Ok(types) ==> items_of(types) == Seq::new(
            pk_indices@.len(),
            |i: int| schema@[pk_indices@[i] as int].data_type,
        ),
{
    if pk_indices.len() > MAX_PK_COLUMNS {
        return Err(StreamError::InvalidPlan);
    }
    let mut types = new_types();
    let ghost want = Seq::new(pk_indices@.len(), |i: int| schema@[pk_indices@[i] as int].data_type);
    let mut i: usize = 0;
    while i < pk_indices.len()
        invariant
            i <= pk_indices.len(),
            pk_indices@.len() <= MAX_PK_COLUMNS,
            want == Seq::new(pk_indices@.len(), |i: int| schema@[pk_indices@[i] as int].data_type),
            forall|j: int| 0 <= j < i ==> #[trigger] pk_indices@[j] < schema@.len(),
            items_of(types) == want.subrange(0, i as int),
        decreases pk_indices.len() - i,
    {
        let idx = pk_indices[i];
        if idx >= schema.fields.len() {
            return Err(StreamError::InvalidPlan);
        }
        push_type(&mut types, schema.fields[idx].data_type);
        assert(items_of(types) =~= want.subrange(0, i + 1));
        i += 1;
    }
    assert(want.subrange(0, pk_indices@.len() as int) == want);
    Ok(types)
}

} // verus!
