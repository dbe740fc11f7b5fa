//! The writer of a materialized view: it buffers the rows put and deleted
//! under their primary keys, and on a flush turns the buffer into one write
//! for each cell.

use vstd::prelude::*;
use crate::bytes::is_prefix;
use crate::cells::{apart, block, blocks, in_blocks, lemma_blocks_apart};
use crate::codec::{
    be32, decode_cell, encode_datum, encode_ordered, lemma_cell_round_trip, serialize_pk, OrderType,
};
use crate::codec_order::lemma_sort_key_ordered;
use crate::error::StreamError;
use crate::sorted_map::{keys_sorted, lookup};
use crate::storage::{
    lemma_apply_write, row_ops, store_apply, write_row, Keyspace, StoreModel, WriteBatch, WriteOp,
};
use crate::types::{Datum, Field, Row, Schema};

verus! {

/// The buffer of a writer: for each primary key put or deleted since the
/// last flush, in the order in which the keys were first met, the row to
/// store or `None` for a deletion.
pub type MemTable = Seq<(Seq<Datum>, Option<Seq<Datum>>)>;

pub open spec fn opt_view(cells: Option<Row>) -> Option<Seq<Datum>> {
    match cells {
        Some(r) => Some(r@),
        None => None,
    }
}

/// The index of the last entry under `pk`, or `-1` if there is none.
pub open spec fn position(t: MemTable, pk: Seq<Datum>) -> int
    decreases t.len(),
{
    if t.len() == 0 {
        -1
    } else if t.last().0 == pk {
        t.len() - 1
    } else {
        position(t.drop_last(), pk)
    }
}

/// No primary key has two entries.
pub open spec fn unique_keys(t: MemTable) -> bool {
    forall|i: int, j: int| 0 <= i < j < t.len() ==> (#[trigger] t[i]).0 != (#[trigger] t[j]).0
}

/// The buffer after `cells` was recorded under `pk`: in place of the entry
/// under `pk` if there is one, at the end otherwise.
pub open spec fn upsert(t: MemTable, pk: Seq<Datum>, cells: Option<Seq<Datum>>) -> MemTable {
    if position(t, pk) >= 0 {
        t.update(position(t, pk), (pk, cells))
    } else {
        t.push((pk, cells))
    }
}

pub proof fn lemma_position(t: MemTable, pk: Seq<Datum>)
    ensures
        -1 <= position(t, pk) < t.len(),
        position(t, pk) >= 0 ==> t[position(t, pk)].0 == pk,
        forall|j: int| position(t, pk) < j < t.len() ==> (#[trigger] t[j]).0 != pk,
    decreases t.len(),
{
    if t.len() > 0 && t.last().0 != pk {
        lemma_position(t.drop_last(), pk);
        assert forall|j: int| position(t, pk) < j < t.len() implies (#[trigger] t[j]).0 != pk by {
            if j < t.len() - 1 {
                assert(t.drop_last()[j] == t[j]);
            }
        }
    }
}

pub proof fn lemma_upsert_unique(t: MemTable, pk: Seq<Datum>, cells: Option<Seq<Datum>>)
    requires
        unique_keys(t),
    ensures
        unique_keys(upsert(t, pk, cells)),
{
    lemma_position(t, pk);
    let n = upsert(t, pk, cells);
    let p = position(t, pk);
    assert forall|i: int, j: int| 0 <= i < j < n.len() implies (#[trigger] n[i]).0 != (
    #[trigger] n[j]).0 by {
        if p >= 0 {
            assert(n[i].0 == t[i].0 && n[j].0 == t[j].0);
        } else if j == t.len() {
            assert(n[i] == t[i]);
        } else {
            assert(n[i] == t[i] && n[j] == t[j]);
        }
    }
}

/// The writes of a flush: those of each entry of the buffer, in order.
pub open spec fn mview_flush_ops(
    prefix: Seq<u8>,
    t: MemTable,
    orders: Seq<OrderType>,
    width: nat,
) -> Seq<WriteOp>
    decreases t.len(),
{
    if t.len() == 0 {
        Seq::empty()
    } else {
        mview_flush_ops(prefix, t.drop_last(), orders, width) + row_ops(
            prefix,
            encode_ordered(t.last().0, orders),
            t.last().1,
            width,
        )
    }
}

/// A flush writes one cell for each column of each entry of the buffer.
pub proof fn lemma_mview_flush_ops_len(
    prefix: Seq<u8>,
    t: MemTable,
    orders: Seq<OrderType>,
    width: nat,
)
    ensures
        mview_flush_ops(prefix, t, orders, width).len() == t.len() * width,
    decreases t.len(),
{
    if t.len() > 0 {
        lemma_mview_flush_ops_len(prefix, t.drop_last(), orders, width);
        assert((t.len() - 1) * width + width == t.len() * width) by (nonlinear_arith);
    } else {
        assert(0 * width == 0);
    }
}

/// Whether a flush can write the buffer: every key has one value for each
/// direction of the sort key, every row has a value for each column of the
/// schema, and a cell index can count the columns.
pub open spec fn flushable(t: MemTable, orders: Seq<OrderType>, width: nat) -> bool {
    &&& width <= u32::MAX
    &&& forall|i: int|
        0 <= i < t.len() ==> (#[trigger] t[i]).0.len() == orders.len() && (t[i].1 matches Some(r)
            ==> r.len() >= width)
}

/// `ManagedMViewState` buffers recent mutations. Data will be written to
/// backend storage on calling `flush`.
pub struct ManagedMViewState {
    keyspace: Keyspace,
    schema: Schema,
    pk_columns: Vec<usize>,
    orderings: Vec<OrderType>,
    memtable: Vec<(Row, Option<Row>)>,
}

impl View for ManagedMViewState {
    type V = MemTable;

    closed spec fn view(&self) -> MemTable {
        Seq::new(
            self.memtable@.len(),
            |i: int|
                (
                    self.memtable@[i].0@,
                    match self.memtable@[i].1 {
                        Some(r) => Some(r@),
                        None => None,
                    },
                ),
        )
    }
}

impl ManagedMViewState {
    pub closed spec fn prefix(&self) -> Seq<u8> {
        self.keyspace@
    }

    pub closed spec fn fields(&self) -> Seq<Field> {
        self.schema@
    }

    pub closed spec fn pk_cols(&self) -> Seq<usize> {
        self.pk_columns@
    }

    /// The direction of each column of the primary key.
    pub closed spec fn orders(&self) -> Seq<OrderType> {
        self.orderings@
    }

    pub closed spec fn wf(&self) -> bool {
        unique_keys(self@)
    }

    /// The two writers differ at most in their buffers.
    pub open spec fn same_table(&self, other: &ManagedMViewState) -> bool {
        &&& self.prefix() == other.prefix()
        &&& self.fields() == other.fields()
        &&& self.pk_cols() == other.pk_cols()
        &&& self.orders() == other.orders()
    }

    pub fn new(
        keyspace: Keyspace,
        schema: Schema,
        pk_columns: Vec<usize>,
        orderings: Vec<OrderType>,
    ) -> (s: Self)
        ensures
            s.wf(),
            s@ == Seq::<(Seq<Datum>, Option<Seq<Datum>>)>::empty(),
            s.prefix() == keyspace@,
            s.fields() == schema@,
            s.pk_cols() == pk_columns@,
            s.orders() == orderings@,
    {
        let s = ManagedMViewState { keyspace, schema, pk_columns, orderings, memtable: Vec::new() };
        assert(s@ =~= Seq::<(Seq<Datum>, Option<Seq<Datum>>)>::empty());
        s
    }

    /// The number of primary keys in the buffer.
    pub fn len(&self) -> (n: usize)
        ensures
            n == self@.len(),
    {
        self.memtable.len()
    }

    /// Records `cells` under `pk`.
    fn record(&mut self, pk: Row, cells: Option<Row>)
        requires
            old(self).wf(),
        ensures
            final(self).wf(),
            final(self).same_table(old(self)),
            final(self)@ == upsert(
                old(self)@,
                pk@,
                match cells {
                    Some(r) => Some(r@),
                    None => None,
                },
            ),
    {
        let ghost t = self@;
        let ghost spec_cells: Option<Seq<Datum>> = opt_view(cells);
        proof {
            lemma_position(t, pk@);
            lemma_upsert_unique(t, pk@, spec_cells);
        }
        let n = self.memtable.len();
        let mut i: usize = 0;
        while i < n
            invariant
                i <= n,
                n == t.len(),
                t == self@,
                *self == *old(self),
                unique_keys(t),
                spec_cells == opt_view(cells),
                forall|j: int| 0 <= j < i ==> (#[trigger] t[j]).0 != pk@,
            decreases n - i,
        {
            if self.memtable[i].0.same(&pk) {
                proof {
                    lemma_position(t, pk@);
                    let p = position(t, pk@);
                    assert(t[i as int].0 == pk@);
                    if p > i {
                        assert(t[i as int].0 != t[p].0);
                    }
                    assert(p == i);
                }
                self.memtable[i] = (pk, cells);
                assert(self@ =~= upsert(t, pk@, spec_cells));
                return ;
            }
            i += 1;
        }
        proof {
            lemma_position(t, pk@);
            if position(t, pk@) >= 0 {
                assert(t[position(t, pk@)].0 == pk@);
            }
        }
        self.memtable.push((pk, cells));
        assert(self@ =~= upsert(t, pk@, spec_cells));
    }

    /// Buffers the row `value` to be stored under the primary key `pk`.
    pub fn put(&mut self, pk: Row, value: Row)
        requires
            old(self).wf(),
        ensures
            final(self).wf(),
            final(self).same_table(old(self)),
            final(self)@ == upsert(old(self)@, pk@, Some(value@)),
    {
        self.record(pk, Some(value));
    }

    /// Buffers the deletion of the row under the primary key `pk`.
    pub fn delete(&mut self, pk: Row)
        requires
            old(self).wf(),
        ensures
            final(self).wf(),
            final(self).same_table(old(self)),
            final(self)@ == upsert(old(self)@, pk@, None),
    {
        self.record(pk, None);
    }

    /// Whether a flush can write the buffer.
    fn can_flush(&self) -> (r: bool)
        ensures
            r == flushable(self@, self.orders(), self.fields().len()),
    {
        let width = self.schema.len();
        if width > u32::MAX as usize {
            return false;
        }
        let n = self.memtable.len();
        let ghost t = self@;
        let mut i: usize = 0;
        while i < n
            invariant
                i <= n,
                n == t.len(),
                t == self@,
                width == self.fields().len(),
                forall|j: int|
                    0 <= j < i ==> (#[trigger] t[j]).0.len() == self.orders().len() && (
                    t[j].1 matches Some(r) ==> r.len() >= width),
            decreases n - i,
        {
            if self.memtable[i].0.size() != self.orderings.len() {
                assert(t[i as int].0.len() != self.orders().len());
                return false;
            }
            match &self.memtable[i].1 {
                Some(r) => {
                    if r.size() < width {
                        assert(t[i as int].1 == Some(r@));
                        return false;
                    }
                },
                None => {},
            }
            i += 1;
        }
        true
    }

    /// Turns the buffer into the batch of its writes and empties it: for each
    /// primary key, by the order in which the keys were first met, one put
    /// or one delete for each column of the schema, under the encoded key
    /// followed by the index of the column. Refused, with the buffer as it
    /// was, where a key or a row has not the values that this takes.
    pub fn flush(&mut self) -> (r: Result<WriteBatch, StreamError>)
        requires
            old(self).wf(),
        ensures
            final(self).wf(),
            final(self).same_table(old(self)),
            match r {
                Ok(batch) => {
                    &&& flushable(old(self)@, old(self).orders(), old(self).fields().len())
                    &&& batch@ == mview_flush_ops(
                        old(self).prefix(),
                        old(self)@,
                        old(self).orders(),
                        old(self).fields().len(),
                    )
                    &&& batch@.len() == old(self)@.len() * old(self).fields().len()
                    &&& final(self)@ == Seq::<(Seq<Datum>, Option<Seq<Datum>>)>::empty()
                },
                Err(e) => {
                    &&& !flushable(old(self)@, old(self).orders(), old(self).fields().len())
                    &&& e == StreamError::WidthMismatch
                    &&& final(self)@ == old(self)@
                },
            },
    {
        if !self.can_flush() {
            return Err(StreamError::WidthMismatch);
        }
        let ghost t = self@;
        let ghost pre = self.prefix();
        let ghost orders = self.orders();
        let width = self.schema.len();
        let mut batch = WriteBatch::new();
        let n = self.memtable.len();
        let mut i: usize = 0;
        while i < n
            invariant
                i <= n,
                n == t.len(),
                t == self@,
                *self == *old(self),
                pre == self.prefix(),
                orders == self.orders(),
                width == self.fields().len(),
                flushable(t, orders, width as nat),
                batch@ == mview_flush_ops(pre, t.subrange(0, i as int), orders, width as nat),
            decreases n - i,
        {
            proof {
                assert(t.subrange(0, i + 1).drop_last() =~= t.subrange(0, i as int));
                assert(t.subrange(0, i + 1).last() == t[i as int]);
                assert(t[i as int].0.len() == orders.len());
            }
            let pk_buf = match serialize_pk(&self.memtable[i].0, &self.orderings) {
                Ok(b) => b,
                Err(e) => {
                    assert(false);
                    return Err(e);
                },
            };
            write_row(
                &mut batch,
                self.keyspace.prefix(),
                &pk_buf,
                self.memtable[i].1.as_ref(),
                width,
            );
            i += 1;
        }
        proof {
            assert(t.subrange(0, n as int) == t);
            lemma_mview_flush_ops_len(pre, t, orders, width as nat);
        }
        self.memtable.clear();
        assert(self@ =~= Seq::<(Seq<Datum>, Option<Seq<Datum>>)>::empty());
        Ok(batch)
    }
}

/// What a flush writes for a column of an entry of the buffer.
pub open spec fn view_op() -> spec_fn(Option<Seq<Datum>>, int) -> Option<Seq<u8>> {
    |cells: Option<Seq<Datum>>, c: int|
        match cells {
            Some(r) => Some(encode_datum(r[c])),
            None => None,
        }
}

/// The entries of the buffer under their encoded primary keys.
pub open spec fn encoded(t: MemTable, orders: Seq<OrderType>) -> Seq<(Seq<u8>, Option<Seq<Datum>>)> {
    Seq::new(t.len(), |i: int| (encode_ordered(t[i].0, orders), t[i].1))
}

proof fn lemma_flush_ops_are_blocks(
    prefix: Seq<u8>,
    t: MemTable,
    orders: Seq<OrderType>,
    width: nat,
)
    ensures
        mview_flush_ops(prefix, t, orders, width) == blocks(
            prefix,
            encoded(t, orders),
            width,
            view_op(),
        ),
    decreases t.len(),
{
    if t.len() > 0 {
        lemma_flush_ops_are_blocks(prefix, t.drop_last(), orders, width);
        assert(encoded(t, orders).drop_last() =~= encoded(t.drop_last(), orders));
        assert(row_ops(prefix, encode_ordered(t.last().0, orders), t.last().1, width) =~= block(
            prefix + encode_ordered(t.last().0, orders),
            t.last().1,
            width,
            view_op(),
        ));
    }
}

/// A reader finds what was put. After the store has taken the writes of a
/// flush, it holds under the key of each column of each primary key of the
/// buffer the value of that column of the row put, from which the value is
/// decoded, or nothing where the row was deleted: who reads the cells of a
/// primary key gets the whole row back.
pub proof fn lemma_flushed_row_is_read(
    store: StoreModel,
    prefix: Seq<u8>,
    t: MemTable,
    orders: Seq<OrderType>,
    width: nat,
    i: int,
    c: int,
)
    requires
        keys_sorted(store),
        unique_keys(t),
        flushable(t, orders, width),
        0 <= i < t.len(),
        0 <= c < width,
    ensures
        lookup(
            store_apply(store, mview_flush_ops(prefix, t, orders, width)),
            prefix + encode_ordered(t[i].0, orders) + be32(c as nat),
        ) == view_op()(t[i].1, c),
        t[i].1 matches Some(row) ==> decode_cell(encode_datum(row[c])) == Some(row[c]),
{
    let s = encoded(t, orders);
    let ops = mview_flush_ops(prefix, t, orders, width);
    lemma_flush_ops_are_blocks(prefix, t, orders, width);
    assert(apart(s)) by {
        assert forall|a: int, b: int|
            0 <= a < s.len() && 0 <= b < s.len() && a != b implies !is_prefix(
            (#[trigger] s[a]).0,
            (#[trigger] s[b]).0,
        ) by {
            assert(t[a].0 != t[b].0) by {
                if a < b {
                    assert(t[a].0 != t[b].0);
                } else {
                    assert(t[b].0 != t[a].0);
                }
            }
            assert(t[a].0.len() == orders.len() && t[b].0.len() == orders.len());
            lemma_sort_key_ordered(t[a].0, t[b].0, orders);
        }
    }
    lemma_blocks_apart(prefix, s, width, view_op());
    let x = (prefix + s[i].0 + be32(c as nat), view_op()(s[i].1, c));
    assert(in_blocks(prefix, s, width, view_op(), x));
    let at = choose|at: int| 0 <= at < ops.len() && ops[at] == x;
    assert forall|u: int| at < u < ops.len() implies (#[trigger] ops[u]).0 != ops[at].0 by {}
    lemma_apply_write(store, ops, at);
    match t[i].1 {
        Some(row) => {
            lemma_cell_round_trip(row[c], Seq::empty());
        },
        None => {},
    }
}

} // verus!
