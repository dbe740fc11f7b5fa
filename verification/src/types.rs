//! Scalar values, rows, change operations and schemas.

use vstd::prelude::*;

verus! {

/// A non-null scalar value.
#[derive(Clone, Copy, Debug, PartialEq, Eq, Hash, Structural)]
pub enum ScalarImpl {
    Bool(bool),
    Int16(i16),
    Int32(i32),
    Int64(i64),
}

/// A nullable scalar value; `None` is SQL NULL.
pub type Datum = Option<ScalarImpl>;

/// The type of one column.
#[derive(Clone, Copy, Debug, PartialEq, Eq, Hash, Structural)]
pub enum DataType {
    Boolean,
    Int16,
    Int32,
    Int64,
}

/// One column of a schema.
#[derive(Clone, Copy, Debug, PartialEq, Eq, Structural)]
pub struct Field {
    pub data_type: DataType,
}

/// The effect of one row of a change stream on the downstream multiset.
#[derive(Clone, Copy, Debug, PartialEq, Eq, Hash, Structural)]
pub enum Op {
    Insert,
    Delete,
    UpdateInsert,
    UpdateDelete,
}

impl Op {
    /// Whether the operation adds an occurrence of its row.
    pub open spec fn adds(self) -> bool {
        self == Op::Insert || self == Op::UpdateInsert
    }

    /// `true` for `Insert` and `UpdateInsert`, `false` for the two deleting operations.
    pub fn is_insert(self) -> (r: bool)
        ensures
            r == self.adds(),
    {
        match self {
            Op::Insert | Op::UpdateInsert => true,
            Op::Delete | Op::UpdateDelete => false,
        }
    }
}

/// An ordered tuple of nullable scalar values.
#[derive(Debug)]
pub struct Row(pub Vec<Datum>);

impl View for Row {
    type V = Seq<Datum>;

    open spec fn view(&self) -> Seq<Datum> {
        self.0@
    }
}

impl Clone for Row {
    fn clone(&self) -> (r: Self)
        ensures
            r@ == self@,
    {
        let mut data: Vec<Datum> = Vec::new();
        let mut i: usize = 0;
        while i < self.0.len()
            invariant
                i <= self.0.len(),
                data@ == self.0@.subrange(0, i as int),
            decreases self.0.len() - i,
        {
            data.push(self.0[i]);
            assert(data@ == self.0@.subrange(0, i + 1));
            i += 1;
        }
        assert(self.0@.subrange(0, self.0.len() as int) == self.0@);
        Row(data)
    }
}

/// The values of `row` in the columns `indices`, in the order of `indices`.
pub open spec fn project(row: Seq<Datum>, indices: Seq<usize>) -> Seq<Datum> {
    Seq::new(indices.len(), |i: int| row[indices[i] as int])
}

/// Every index names one of `width` columns.
pub open spec fn indices_within(indices: Seq<usize>, width: nat) -> bool {
    forall|i: int| 0 <= i < indices.len() ==> #[trigger] indices[i] < width
}

/// Whether one of the values is NULL.
pub open spec fn has_null(values: Seq<Datum>) -> bool {
    exists|i: int| 0 <= i < values.len() && (#[trigger] values[i]).is_none()
}

/// Whether a value is of a type. NULL is of every type.
pub open spec fn has_type(d: Datum, t: DataType) -> bool {
    match d {
        None => true,
        Some(ScalarImpl::Bool(_)) => t == DataType::Boolean,
        Some(ScalarImpl::Int16(_)) => t == DataType::Int16,
        Some(ScalarImpl::Int32(_)) => t == DataType::Int32,
        Some(ScalarImpl::Int64(_)) => t == DataType::Int64,
    }
}

/// Whether a row has one value for each of the types, each of its type.
pub open spec fn row_typed(row: Seq<Datum>, types: Seq<DataType>) -> bool {
    &&& row.len() == types.len()
    &&& forall|i: int| 0 <= i < row.len() ==> has_type(#[trigger] row[i], types[i])
}

/// Whether a value is of a type. NULL is of every type.
pub fn datum_has_type(d: &Datum, t: DataType) -> (r: bool)
    ensures
        r == has_type(*d, t),
{
    match d {
        None => true,
        Some(ScalarImpl::Bool(_)) => matches!(t, DataType::Boolean),
        Some(ScalarImpl::Int16(_)) => matches!(t, DataType::Int16),
        Some(ScalarImpl::Int32(_)) => matches!(t, DataType::Int32),
        Some(ScalarImpl::Int64(_)) => matches!(t, DataType::Int64),
    }
}

impl Row {
    /// Whether the row has one value for each of the types, each of its type.
    pub fn conforms(&self, types: &Vec<DataType>) -> (r: bool)
        ensures
            r == row_typed(self@, types@),
    {
        if self.0.len() != types.len() {
            return false;
        }
        let mut i: usize = 0;
        while i < self.0.len()
            invariant
                i <= self.0.len(),
                self.0.len() == types.len(),
                forall|j: int| 0 <= j < i ==> has_type(#[trigger] self@[j], types@[j]),
            decreases self.0.len() - i,
        {
            if !datum_has_type(&self.0[i], types[i]) {
                return false;
            }
            i += 1;
        }
        true
    }

    /// The row of the values in the columns `indices`: a join key or a primary key.
    pub fn project(&self, indices: &Vec<usize>) -> (r: Row)
        requires
            indices_within(indices@, self@.len()),
        ensures
            r@ == project(self@, indices@),
    {
        let mut data: Vec<Datum> = Vec::new();
        let mut i: usize = 0;
        while i < indices.len()
            invariant
                i <= indices.len(),
                indices_within(indices@, self@.len()),
                data@ == project(self@, indices@).subrange(0, i as int),
            decreases indices.len() - i,
        {
            data.push(self.0[indices[i]]);
            assert(data@ =~= project(self@, indices@).subrange(0, i + 1));
            i += 1;
        }
        assert(data@ =~= project(self@, indices@));
        Row(data)
    }

    /// Whether one of the values is NULL.
    pub fn contains_null(&self) -> (r: bool)
        ensures
            r == has_null(self@),
    {
        let mut i: usize = 0;
        while i < self.0.len()
            invariant
                i <= self.0.len(),
                forall|j: int| 0 <= j < i ==> (#[trigger] self@[j]).is_some(),
            decreases self.0.len() - i,
        {
            if self.0[i].is_none() {
                return true;
            }
            i += 1;
        }
        false
    }

    pub fn new(values: Vec<Datum>) -> (r: Self)
        ensures
            r@ == values@,
    {
        Row(values)
    }

    /// The number of columns.
    pub fn size(&self) -> (n: usize)
        ensures
            n == self@.len(),
    {
        self.0.len()
    }

    /// Whether the two rows hold the same values, NULL being equal to NULL.
    pub fn same(&self, other: &Row) -> (r: bool)
        ensures
            r == (self@ == other@),
    {
        if self.0.len() != other.0.len() {
            return false;
        }
        let mut i: usize = 0;
        while i < self.0.len()
            invariant
                i <= self.0.len(),
                self.0.len() == other.0.len(),
                self@.subrange(0, i as int) == other@.subrange(0, i as int),
            decreases self.0.len() - i,
        {
            if !datum_eq(&self.0[i], &other.0[i]) {
                return false;
            }
            assert(self@.subrange(0, i + 1) == self@.subrange(0, i as int).push(self@[i as int]));
            assert(other@.subrange(0, i + 1) == other@.subrange(0, i as int).push(other@[i as int]));
            i += 1;
        }
        assert(self@.subrange(0, self@.len() as int) == self@);
        assert(other@.subrange(0, other@.len() as int) == other@);
        true
    }
}

/// Whether two datums are the same value; NULL is the same as NULL here.
pub fn datum_eq(a: &Datum, b: &Datum) -> (r: bool)
    ensures
        r == (*a == *b),
{
    match (a, b) {
        (None, None) => true,
        (Some(x), Some(y)) => *x == *y,
        _ => false,
    }
}

/// The column types of a stream.
#[derive(Debug)]
pub struct Schema {
    pub fields: Vec<Field>,
}

impl View for Schema {
    type V = Seq<Field>;

    open spec fn view(&self) -> Seq<Field> {
        self.fields@
    }
}

impl Schema {
    pub fn new(fields: Vec<Field>) -> (s: Self)
        ensures
            s@ == fields@,
    {
        Schema { fields }
    }

    /// The number of columns.
    pub fn len(&self) -> (n: usize)
        ensures
            n == self@.len(),
    {
        self.fields.len()
    }
}

impl Clone for Schema {
    fn clone(&self) -> (r: Self)
        ensures
            r@ == self@,
    {
        let mut fields: Vec<Field> = Vec::new();
        let mut i: usize = 0;
        while i < self.fields.len()
            invariant
                i <= self.fields.len(),
                fields@ == self.fields@.subrange(0, i as int),
            decreases self.fields.len() - i,
        {
            fields.push(self.fields[i]);
            assert(fields@ == self.fields@.subrange(0, i + 1));
            i += 1;
        }
        assert(self.fields@.subrange(0, self.fields.len() as int) == self.fields@);
        Schema { fields }
    }
}

} // verus!
